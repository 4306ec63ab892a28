//! Splitting raw `Cookie` header values into cookie pair segments.
//!
//! A raw header value must be header-safe text (visible ASCII or tab); it
//! is then split on `;`, segments of only whitespace are dropped, and each
//! remaining segment is one `name=value` pair for the codec to parse.

use vstd::prelude::*;

verus! {

/// The bytes that a header value may hold if it decodes as text:
/// visible ASCII, space, or tab.
pub open spec fn is_header_byte(b: u8) -> bool {
    (32 <= b && b < 127) || b == 9
}

/// Whether a raw header value is header-safe text.
pub open spec fn header_ok(s: Seq<u8>) -> bool {
    forall|i: int| 0 <= i < s.len() ==> is_header_byte(#[trigger] s[i])
}

/// ASCII whitespace, as `char::is_whitespace` sees ASCII bytes.
pub open spec fn is_ws(b: u8) -> bool {
    b == 32 || (9 <= b && b <= 13)
}

/// Whether a segment holds only whitespace (such segments are dropped).
pub open spec fn seg_blank(s: Seq<u8>) -> bool {
    forall|i: int| 0 <= i < s.len() ==> is_ws(#[trigger] s[i])
}

/// The non-blank segments of `s[start..]` when it is split on `;`,
/// scanning from position `cur`; `s[start..cur]` is the segment begun
/// so far.
pub open spec fn pairs_from(s: Seq<u8>, start: int, cur: int) -> Seq<Seq<u8>>
    decreases s.len() - cur,
{
    if cur >= s.len() {
        let seg = s.subrange(start, s.len() as int);
        if seg_blank(seg) {
            Seq::<Seq<u8>>::empty()
        } else {
            seq![seg]
        }
    } else if s[cur] == 59 {
        let seg = s.subrange(start, cur);
        let rest = pairs_from(s, cur + 1, cur + 1);
        if seg_blank(seg) {
            rest
        } else {
            seq![seg] + rest
        }
    } else {
        pairs_from(s, start, cur + 1)
    }
}

/// The cookie pair segments of one raw header value: split on `;`,
/// blank segments dropped.
pub open spec fn pairs_of(s: Seq<u8>) -> Seq<Seq<u8>> {
    pairs_from(s, 0, 0)
}

/// A header value without `;` and with some non-whitespace byte is a
/// single segment.
pub proof fn lemma_pairs_of_single(s: Seq<u8>)
    requires
        forall|i: int| 0 <= i < s.len() ==> #[trigger] s[i] != 59,
        !seg_blank(s),
    ensures
        pairs_of(s) == seq![s],
{
    lemma_pairs_from_no_semi(s, 0);
    assert(s.subrange(0, s.len() as int) =~= s);
}

proof fn lemma_pairs_from_no_semi(s: Seq<u8>, cur: int)
    requires
        0 <= cur <= s.len(),
        forall|i: int| cur <= i < s.len() ==> #[trigger] s[i] != 59,
    ensures
        pairs_from(s, 0, cur) == pairs_from(s, 0, s.len() as int),
    decreases s.len() - cur,
{
    if cur < s.len() {
        lemma_pairs_from_no_semi(s, cur + 1);
    }
}

/// `s` without leading whitespace.
pub open spec fn trim_front(s: Seq<u8>) -> Seq<u8>
    decreases s.len(),
{
    if s.len() > 0 && is_ws(s[0]) {
        trim_front(s.drop_first())
    } else {
        s
    }
}

/// `s` without trailing whitespace.
pub open spec fn trim_back(s: Seq<u8>) -> Seq<u8>
    decreases s.len(),
{
    if s.len() > 0 && is_ws(s[s.len() - 1]) {
        trim_back(s.drop_last())
    } else {
        s
    }
}

/// `s` without leading or trailing whitespace.
pub open spec fn trim_ws(s: Seq<u8>) -> Seq<u8> {
    trim_back(trim_front(s))
}

/// The position of the first `=` in `s`, or `-1` if there is none.
pub open spec fn first_eq(s: Seq<u8>) -> int
    decreases s.len(),
{
    if s.len() == 0 {
        -1
    } else if s[0] == 61 {
        0
    } else {
        let r = first_eq(s.drop_first());
        if r == -1 {
            -1
        } else {
            r + 1
        }
    }
}

/// The structural parse of one cookie pair segment: the text before the
/// first `=` and the text after it, both trimmed of whitespace; nothing
/// if the segment has no `=` or the trimmed name is empty. Percent
/// sequences are not yet decoded here.
pub open spec fn raw_pair(s: Seq<u8>) -> Option<(Seq<u8>, Seq<u8>)> {
    let i = first_eq(s);
    if i == -1 {
        None
    } else {
        let n = trim_ws(s.subrange(0, i));
        let v = trim_ws(s.subrange(i + 1, s.len() as int));
        if n.len() == 0 {
            None
        } else {
            Some((n, v))
        }
    }
}

/// Whether a byte sequence holds no percent sign, so that percent
/// decoding leaves it unchanged.
pub open spec fn no_pct(s: Seq<u8>) -> bool {
    forall|i: int| 0 <= i < s.len() ==> #[trigger] s[i] != 37
}

/// ASCII bytes read as characters.
pub open spec fn ascii_chars(s: Seq<u8>) -> Seq<char> {
    Seq::new(s.len(), |i: int| s[i] as char)
}

/// ASCII characters written as bytes.
pub open spec fn ascii_bytes(s: Seq<char>) -> Seq<u8> {
    Seq::new(s.len(), |i: int| s[i] as u8)
}

/// Whether a byte is header-safe text, executably.
pub fn header_byte_ok(b: u8) -> (r: bool)
    ensures
        r == is_header_byte(b),
{
    (32 <= b && b < 127) || b == 9
}

/// Whether a whole raw header value is header-safe text.
pub fn header_value_ok(s: &Vec<u8>) -> (r: bool)
    ensures
        r == header_ok(s@),
{
    let mut i: usize = 0;
    while i < s.len()
        invariant
            0 <= i <= s@.len(),
            forall|k: int| 0 <= k < i ==> is_header_byte(#[trigger] s@[k]),
        decreases s@.len() - i,
    {
        if !header_byte_ok(s[i]) {
            return false;
        }
        i += 1;
    }
    true
}

fn seg_blank_exec(s: &Vec<u8>) -> (r: bool)
    ensures
        r == seg_blank(s@),
{
    let mut i: usize = 0;
    while i < s.len()
        invariant
            0 <= i <= s@.len(),
            forall|k: int| 0 <= k < i ==> is_ws(#[trigger] s@[k]),
        decreases s@.len() - i,
    {
        let b = s[i];
        if !(b == 32 || (9 <= b && b <= 13)) {
            return false;
        }
        i += 1;
    }
    true
}

fn sub_bytes(s: &Vec<u8>, a: usize, b: usize) -> (r: Vec<u8>)
    requires
        a <= b <= s@.len(),
    ensures
        r@ == s@.subrange(a as int, b as int),
{
    let mut r: Vec<u8> = Vec::new();
    let mut i: usize = a;
    while i < b
        invariant
            a <= i <= b <= s@.len(),
            r@ =~= s@.subrange(a as int, i as int),
        decreases b - i,
    {
        r.push(s[i]);
        assert(r@ =~= s@.subrange(a as int, i + 1 as int));
        i += 1;
    }
    r
}

/// The cookie pair segments of one raw header value. No segment holds a
/// `;`, and segments of header-safe text stay header-safe.
pub fn split_pairs(s: &Vec<u8>) -> (r: Vec<Vec<u8>>)
    ensures
        r@.len() == pairs_of(s@).len(),
        forall|k: int| 0 <= k < r@.len() ==> #[trigger] r@[k]@ == pairs_of(s@)[k],
        forall|k: int, m: int|
            0 <= k < r@.len() && 0 <= m < r@[k]@.len() ==> #[trigger] r@[k]@[m] != 59,
        header_ok(s@) ==> forall|k: int| 0 <= k < r@.len() ==> header_ok(#[trigger] r@[k]@),
{
    let mut r: Vec<Vec<u8>> = Vec::new();
    let mut start: usize = 0;
    let mut cur: usize = 0;
    while cur < s.len()
        invariant
            0 <= start <= cur <= s@.len(),
            pairs_of(s@) == seg_views(r@) + pairs_from(s@, start as int, cur as int),
            forall|m: int| start <= m < cur ==> s@[m] != 59,
            forall|k: int, m: int|
                0 <= k < r@.len() && 0 <= m < r@[k]@.len() ==> #[trigger] r@[k]@[m] != 59,
            header_ok(s@) ==> forall|k: int| 0 <= k < r@.len() ==> header_ok(#[trigger] r@[k]@),
        decreases s@.len() - cur,
    {
        if s[cur] == 59 {
            let seg = sub_bytes(s, start, cur);
            if !seg_blank_exec(&seg) {
                let ghost old_r = r@;
                r.push(seg);
                proof {
                    lemma_seg_views_push(old_r, seg);
                }
            }
            start = cur + 1;
            cur = cur + 1;
        } else {
            cur = cur + 1;
        }
    }
    let seg = sub_bytes(s, start, s.len());
    if !seg_blank_exec(&seg) {
        let ghost old_r = r@;
        r.push(seg);
        proof {
            lemma_seg_views_push(old_r, seg);
        }
    }
    proof {
        lemma_seg_views_index(r@);
    }
    r
}

/// The views of a vector of byte segments.
pub open spec fn seg_views(r: Seq<Vec<u8>>) -> Seq<Seq<u8>> {
    Seq::new(r.len(), |i: int| r[i]@)
}

proof fn lemma_seg_views_push(r: Seq<Vec<u8>>, v: Vec<u8>)
    ensures
        seg_views(r.push(v)) =~= seg_views(r) + seq![v@],
{
}

proof fn lemma_seg_views_index(r: Seq<Vec<u8>>)
    ensures
        seg_views(r).len() == r.len(),
        forall|k: int| 0 <= k < r.len() ==> seg_views(r)[k] == #[trigger] r[k]@,
{
}

} // verus!
