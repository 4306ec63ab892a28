//! The per-record codec: parsing one cookie pair segment and encoding a
//! record as a `Set-Cookie` header value. Both are done by the `cookie`
//! crate behind trusted wrappers; their results are named by the
//! uninterpreted functions [`parsed_pair`] and [`set_cookie_encoding`].

use vstd::prelude::*;

use cookie::time::Duration;
use cookie::{Cookie, SameSite};

use crate::parse::{
    ascii_bytes, ascii_chars, header_ok, no_pct, pairs_of, raw_pair, seg_blank,
    lemma_pairs_of_single,
};
use crate::record::{
    is_plain_pair, pair_view, CookieParseError, CookieRecord, RecordView, SameSitePolicy,
};

verus! {

/// What `cookie::Cookie::parse_encoded` makes of one cookie pair segment
/// of header-safe text without `;`: the percent-decoded record, or nothing
/// when the segment is malformed.
pub uninterp spec fn parsed_pair(s: Seq<u8>) -> Option<RecordView>;

/// What `cookie::Cookie::encoded` prints for a record: the name and value
/// percent-encoded around `=`, followed by the record's attributes.
pub uninterp spec fn set_cookie_encoding(r: RecordView) -> Seq<char>;

/// Relies on `cookie::Cookie::parse_encoded`: it takes the text before the
/// first `=` as the name and the text after it as the value, trims both,
/// percent-decodes both, and fails exactly when there is no `=`, the
/// trimmed name is empty, or a decoded byte sequence is not valid UTF-8.
/// A segment without `;` never yields attributes, and a parsed name is
/// never empty.
#[verifier::external_body]
pub(crate) fn parse_pair(seg: &Vec<u8>) -> (r: Result<CookieRecord, CookieParseError>)
    requires
        header_ok(seg@),
        forall|i: int| 0 <= i < seg@.len() ==> #[trigger] seg@[i] != 59,
    ensures
        (match r {
            Ok(rec) => parsed_pair(seg@) == Some(rec@) && is_plain_pair(rec@) && rec@.name.len()
                > 0,
            Err(_) => parsed_pair(seg@) is None,
        }),
        raw_pair(seg@) is None ==> r is Err,
        (match raw_pair(seg@) {
            Some(p) => no_pct(p.0) && no_pct(p.1) ==> (match r {
                Ok(rec) => rec@ == pair_view(ascii_chars(p.0), ascii_chars(p.1)),
                Err(_) => false,
            }),
            None => true,
        }),
{
    let text = match core::str::from_utf8(seg) {
        Ok(t) => t,
        Err(e) => return Err(CookieParseError(e.to_string())),
    };
    match Cookie::parse_encoded(text) {
        Ok(c) => Ok(CookieRecord::pair(c.name().to_string(), c.value().to_string())),
        Err(e) => Err(CookieParseError(e.to_string())),
    }
}

/// Relies on `cookie::Cookie::encoded`: it prints `name=value` with name
/// and value percent-encoded (every byte outside visible ASCII and every
/// delimiter, `;`, `=`, `%` and whitespace among them, becomes `%XX`),
/// then the attributes. For a record without attributes the printed text
/// is therefore a single header-safe segment that `parse_encoded` reads
/// back as exactly the record's name and value.
#[verifier::external_body]
fn encode_record(c: &CookieRecord) -> (s: String)
    ensures
        s@ == set_cookie_encoding(c@),
        is_plain_pair(c@) && c@.name.len() > 0 ==> ({
            &&& forall|i: int| 0 <= i < s@.len() ==> (#[trigger] s@[i] as u32) < 128
            &&& header_ok(ascii_bytes(s@))
            &&& forall|i: int|
                0 <= i < ascii_bytes(s@).len() ==> #[trigger] ascii_bytes(s@)[i] != 59
            &&& !seg_blank(ascii_bytes(s@))
            &&& parsed_pair(ascii_bytes(s@)) == Some(pair_view(c@.name, c@.value))
        }),
{
    let mut ck = Cookie::new(c.name.clone(), c.value.clone());
    if let Some(d) = &c.domain { ck.set_domain(d.clone()); }
    if let Some(p) = &c.path { ck.set_path(p.clone()); }
    if let Some(a) = c.max_age_seconds { ck.set_max_age(Duration::seconds(a as i64)); }
    if c.secure { ck.set_secure(true); }
    if c.http_only { ck.set_http_only(true); }
    ck.set_same_site(match c.same_site {
        Some(SameSitePolicy::Strict) => Some(SameSite::Strict),
        Some(SameSitePolicy::Lax) => Some(SameSite::Lax),
        Some(SameSitePolicy::Unrestricted) => Some(SameSite::None),
        None => None,
    });
    ck.encoded().to_string()
}

/// Encodes a record as one `Set-Cookie` header value.
///
/// For a record that holds only a name and a value, the encoding is a
/// single header-safe cookie pair segment that parses back to exactly the
/// record's name and value: the round trip through the output and input
/// boundaries is the identity on such records.
pub fn encode_set_cookie(c: &CookieRecord) -> (s: String)
    ensures
        s@ == set_cookie_encoding(c@),
        is_plain_pair(c@) && c@.name.len() > 0 ==> ({
            &&& header_ok(ascii_bytes(s@))
            &&& pairs_of(ascii_bytes(s@)) == seq![ascii_bytes(s@)]
            &&& parsed_pair(ascii_bytes(s@)) == Some(pair_view(c@.name, c@.value))
            &&& forall|i: int| 0 <= i < s@.len() ==> (#[trigger] s@[i] as u32) < 128
        }),
{
    let s = encode_record(c);
    proof {
        if is_plain_pair(c@) && c@.name.len() > 0 {
            lemma_pairs_of_single(ascii_bytes(s@));
        }
    }
    s
}

} // verus!
