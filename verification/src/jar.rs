//! The cookie jar: a store of named cookie records keyed by name, which
//! keeps the original set it was built from, accepts additions and
//! removals, and yields the delta of outbound `Set-Cookie` values.
//!
//! Each name holds a three-way state: the original record parsed from the
//! request (or absent), the current record, and a removal mark. Entries
//! sit in one ordered sequence with unique names, so lookup is by first
//! (and only) match and iteration order is stable.

use vstd::prelude::*;
use vstd::seq_lib::*;

use crate::codec::{encode_set_cookie, parse_pair, parsed_pair, set_cookie_encoding};
use crate::parse::{header_ok, header_value_ok, pairs_of, split_pairs};
use crate::record::{pair_view, removal_view, CookieParseError, CookieRecord, RecordView};

verus! {

/// The state a jar holds for one cookie name.
struct Entry {
    name: String,
    original: Option<CookieRecord>,
    record: CookieRecord,
    removed: bool,
}

/// Mathematical model of one jar entry: the original record the name was
/// constructed with (or nothing), the record of the latest mutation, and
/// whether the name is marked removed. For a removed name, `record` is
/// the removal template and the name has no current value.
pub ghost struct EntryView {
    pub name: Seq<char>,
    pub original: Option<RecordView>,
    pub record: RecordView,
    pub removed: bool,
}

impl View for Entry {
    type V = EntryView;

    closed spec fn view(&self) -> EntryView {
        EntryView {
            name: self.name@,
            original: match self.original {
                Some(o) => Some(o@),
                None => None,
            },
            record: self.record@,
            removed: self.removed,
        }
    }
}

/// An entry's records carry the entry's own name.
pub open spec fn entry_wf(e: EntryView) -> bool {
    &&& e.record.name == e.name
    &&& match e.original {
        Some(o) => o.name == e.name,
        None => true,
    }
}

/// Entries are well formed and no name occurs twice.
pub open spec fn jar_wf(s: Seq<EntryView>) -> bool {
    &&& forall|i: int| 0 <= i < s.len() ==> entry_wf(#[trigger] s[i])
    &&& forall|i: int, j: int| 0 <= i < j < s.len() ==> s[i].name != s[j].name
}

/// The position of the entry named `name`, or `-1` if there is none.
pub open spec fn index_of_name(s: Seq<EntryView>, name: Seq<char>) -> int
    decreases s.len(),
{
    if s.len() == 0 {
        -1
    } else if s[0].name == name {
        0
    } else {
        let r = index_of_name(s.drop_first(), name);
        if r == -1 {
            -1
        } else {
            r + 1
        }
    }
}

/// The entry named `name`, if any.
pub open spec fn entry_of(s: Seq<EntryView>, name: Seq<char>) -> Option<EntryView> {
    let i = index_of_name(s, name);
    if i == -1 {
        None
    } else {
        Some(s[i])
    }
}

/// The current record under `name`: the record of its entry, unless the
/// name is absent or removed.
pub open spec fn jar_get(s: Seq<EntryView>, name: Seq<char>) -> Option<RecordView> {
    match entry_of(s, name) {
        Some(e) => if e.removed {
            None
        } else {
            Some(e.record)
        },
        None => None,
    }
}

/// `index_of_name` points at the first entry with the name, and is `-1`
/// exactly when no entry has it.
pub proof fn lemma_index_of_name(s: Seq<EntryView>, name: Seq<char>)
    ensures
        ({
            let i = index_of_name(s, name);
            &&& (i == -1 ==> forall|k: int| 0 <= k < s.len() ==> s[k].name != name)
            &&& (i != -1 ==> 0 <= i < s.len() && s[i].name == name && (forall|k: int|
                0 <= k < i ==> s[k].name != name))
        }),
    decreases s.len(),
{
    if s.len() > 0 && s[0].name != name {
        lemma_index_of_name(s.drop_first(), name);
        assert(forall|k: int| 1 <= k < s.len() ==> s[k] == s.drop_first()[k - 1]);
    }
}

/// A position whose entry has the name, with no earlier match, is the
/// index of the name.
pub proof fn lemma_index_of_name_at(s: Seq<EntryView>, name: Seq<char>, i: int)
    requires
        0 <= i < s.len(),
        s[i].name == name,
        forall|k: int| 0 <= k < i ==> s[k].name != name,
    ensures
        index_of_name(s, name) == i,
    decreases i,
{
    if i > 0 {
        assert(forall|k: int| 1 <= k < s.len() ==> s[k] == s.drop_first()[k - 1]);
        lemma_index_of_name_at(s.drop_first(), name, i - 1);
    }
}

/// Inserting a record as original: the name's entry (or a fresh one)
/// holds it as both original and current record, unmarked.
pub open spec fn insert_original_rec(s: Seq<EntryView>, r: RecordView) -> Seq<EntryView> {
    let e = EntryView { name: r.name, original: Some(r), record: r, removed: false };
    let i = index_of_name(s, r.name);
    if i == -1 {
        s.push(e)
    } else {
        s.update(i, e)
    }
}

/// Adding a record: the name's entry (or a fresh one) holds it as the
/// current record and loses any removal mark; the original is kept.
pub open spec fn add_rec(s: Seq<EntryView>, r: RecordView) -> Seq<EntryView> {
    let i = index_of_name(s, r.name);
    if i == -1 {
        s.push(EntryView { name: r.name, original: None, record: r, removed: false })
    } else {
        s.update(
            i,
            EntryView { name: r.name, original: s[i].original, record: r, removed: false },
        )
    }
}

/// Removing a record's name: the name's entry (or a fresh one) is marked
/// removed and keeps the passed record as removal template; the original
/// is kept.
pub open spec fn remove_rec(s: Seq<EntryView>, r: RecordView) -> Seq<EntryView> {
    let i = index_of_name(s, r.name);
    if i == -1 {
        s.push(EntryView { name: r.name, original: None, record: r, removed: true })
    } else {
        s.update(
            i,
            EntryView { name: r.name, original: s[i].original, record: r, removed: true },
        )
    }
}

/// The views of a sequence of entries.
spec fn entry_views(s: Seq<Entry>) -> Seq<EntryView> {
    Seq::new(s.len(), |i: int| s[i]@)
}

/// A store of cookie records for one request: the original records parsed
/// from its `Cookie` headers, with later additions and removals tracked
/// against them.
pub struct CookieJar {
    entries: Vec<Entry>,
}

impl View for CookieJar {
    type V = Seq<EntryView>;

    closed spec fn view(&self) -> Seq<EntryView> {
        entry_views(self.entries@)
    }
}

impl Default for CookieJar {
    /// An empty jar, as [`CookieJar::new`] yields.
    fn default() -> (r: CookieJar)
        ensures
            r@ == Seq::<EntryView>::empty(),
            r.wf(),
    {
        CookieJar::new()
    }
}

impl CookieJar {
    /// The jar's entries are well formed with unique names. Constructors
    /// establish this and every method keeps it.
    pub open spec fn wf(&self) -> bool {
        jar_wf(self@)
    }

    /// An empty jar: no original records, nothing to look up, empty delta.
    pub fn new() -> (r: CookieJar)
        ensures
            r@ == Seq::<EntryView>::empty(),
            r.wf(),
    {
        let r = CookieJar { entries: Vec::new() };
        proof {
            assert(r@ =~= Seq::<EntryView>::empty());
        }
        r
    }

    fn find_index(&self, name: &String) -> (r: Option<usize>)
        ensures
            match r {
                Some(i) => 0 <= i < self@.len() && self@[i as int].name == name@
                    && index_of_name(self@, name@) == i,
                None => index_of_name(self@, name@) == -1,
            },
    {
        let mut i: usize = 0;
        while i < self.entries.len()
            invariant
                0 <= i <= self@.len(),
                self@.len() == self.entries@.len(),
                forall|k: int| 0 <= k < i ==> self@[k].name != name@,
            decreases self@.len() - i,
        {
            assert(self@[i as int] == self.entries@[i as int]@);
            if self.entries[i].name == *name {
                proof {
                    lemma_index_of_name_at(self@, name@, i as int);
                }
                return Some(i);
            }
            i += 1;
        }
        proof {
            lemma_index_of_name(self@, name@);
            if index_of_name(self@, name@) != -1 {
                assert(self@[index_of_name(self@, name@)].name == name@);
            }
        }
        None
    }

    /// The current record under `name`: nothing if the name is absent or
    /// was removed.
    pub fn get(&self, name: &str) -> (r: Option<&CookieRecord>)
        ensures
            match (r, jar_get(self@, name@)) {
                (Some(c), Some(v)) => c@ == v,
                (None, None) => true,
                _ => false,
            },
    {
        let key: String = name.to_owned();
        match self.find_index(&key) {
            Some(i) => {
                assert(self@[i as int] == self.entries@[i as int]@);
                if self.entries[i].removed {
                    None
                } else {
                    Some(&self.entries[i].record)
                }
            }
            None => None,
        }
    }

    /// Inserts a record parsed from the request as an original one;
    /// a later record with the same name overwrites an earlier one.
    fn insert_original(&mut self, cookie: CookieRecord)
        requires
            old(self).wf(),
        ensures
            final(self)@ == insert_original_rec(old(self)@, cookie@),
            final(self).wf(),
    {
        let ghost s0 = self@;
        match self.find_index(&cookie.name) {
            Some(i) => {
                assert(self@[i as int] == self.entries@[i as int]@);
                let name = self.entries[i].name.clone();
                let original = Some(cookie.duplicate());
                let record = cookie;
                self.entries.set(i, Entry { name, original, record, removed: false });
                proof {
                    assert(self@ =~= insert_original_rec(s0, record@));
                }
            }
            None => {
                let name = cookie.name.clone();
                let original = Some(cookie.duplicate());
                let record = cookie;
                self.entries.push(Entry { name, original, record, removed: false });
                proof {
                    assert(self@ =~= insert_original_rec(s0, record@));
                    lemma_index_of_name(s0, record@.name);
                }
            }
        }
        proof {
            lemma_ops_preserve_wf(s0, cookie@);
        }
    }

    /// Adds a record: it becomes the current record for its name,
    /// overwriting any earlier one and clearing any removal mark.
    pub fn add(&mut self, cookie: CookieRecord)
        requires
            old(self).wf(),
        ensures
            final(self)@ == add_rec(old(self)@, cookie@),
            final(self).wf(),
    {
        let ghost s0 = self@;
        match self.find_index(&cookie.name) {
            Some(i) => {
                assert(self@[i as int] == self.entries@[i as int]@);
                let name = self.entries[i].name.clone();
                let original = match &self.entries[i].original {
                    Some(o) => Some(o.duplicate()),
                    None => None,
                };
                let record = cookie;
                self.entries.set(i, Entry { name, original, record, removed: false });
                proof {
                    assert(self@ =~= add_rec(s0, record@));
                }
            }
            None => {
                let name = cookie.name.clone();
                let record = cookie;
                self.entries.push(Entry { name, original: None, record, removed: false });
                proof {
                    assert(self@ =~= add_rec(s0, record@));
                    lemma_index_of_name(s0, record@.name);
                }
            }
        }
        proof {
            lemma_ops_preserve_wf(s0, cookie@);
        }
    }

    /// Marks the record's name as removed. Lookup and iteration no longer
    /// surface it; if the name was among the originals, the delta will
    /// carry a removal directive built from the passed record.
    pub fn remove(&mut self, cookie: CookieRecord)
        requires
            old(self).wf(),
        ensures
            final(self)@ == remove_rec(old(self)@, cookie@),
            final(self).wf(),
    {
        let ghost s0 = self@;
        match self.find_index(&cookie.name) {
            Some(i) => {
                assert(self@[i as int] == self.entries@[i as int]@);
                let name = self.entries[i].name.clone();
                let original = match &self.entries[i].original {
                    Some(o) => Some(o.duplicate()),
                    None => None,
                };
                let record = cookie;
                self.entries.set(i, Entry { name, original, record, removed: true });
                proof {
                    assert(self@ =~= remove_rec(s0, record@));
                }
            }
            None => {
                let name = cookie.name.clone();
                let record = cookie;
                self.entries.push(Entry { name, original: None, record, removed: true });
                proof {
                    assert(self@ =~= remove_rec(s0, record@));
                    lemma_index_of_name(s0, record@.name);
                }
            }
        }
        proof {
            lemma_ops_preserve_wf(s0, cookie@);
        }
    }
}

/// The three update operations keep a jar well formed.
pub proof fn lemma_ops_preserve_wf(s: Seq<EntryView>, r: RecordView)
    requires
        jar_wf(s),
    ensures
        jar_wf(insert_original_rec(s, r)),
        jar_wf(add_rec(s, r)),
        jar_wf(remove_rec(s, r)),
{
    lemma_index_of_name(s, r.name);
}

/// One outbound `Set-Cookie` directive of the delta: a record to set, or
/// a record's removal (empty value, immediate expiry).
#[derive(Debug)]
pub enum DeltaEntry {
    Update(CookieRecord),
    Expire(CookieRecord),
}

/// Mathematical model of a delta directive.
pub ghost enum DeltaView {
    Update(RecordView),
    Expire(RecordView),
}

impl View for DeltaEntry {
    type V = DeltaView;

    open spec fn view(&self) -> DeltaView {
        match self {
            DeltaEntry::Update(c) => DeltaView::Update(c@),
            DeltaEntry::Expire(c) => DeltaView::Expire(c@),
        }
    }
}

/// The record a delta directive encodes.
pub open spec fn delta_record(d: DeltaView) -> RecordView {
    match d {
        DeltaView::Update(r) => r,
        DeltaView::Expire(r) => r,
    }
}

/// What one entry contributes to the delta: a removed name that existed
/// originally yields a removal directive built from its template; a name
/// whose current record differs from its original (or that has no
/// original) yields the current record; an unchanged name yields nothing.
pub open spec fn entry_delta(e: EntryView) -> Option<DeltaView> {
    if e.removed {
        if e.original is Some {
            Some(DeltaView::Expire(removal_view(e.record)))
        } else {
            None
        }
    } else if e.original == Some(e.record) {
        None
    } else {
        Some(DeltaView::Update(e.record))
    }
}

/// `entry_delta` as a closure, for `filter_map`.
pub open spec fn delta_fn() -> spec_fn(EntryView) -> Option<DeltaView> {
    |e: EntryView| entry_delta(e)
}

/// The delta of a jar: each entry's contribution, in entry order.
pub open spec fn delta_spec(s: Seq<EntryView>) -> Seq<DeltaView> {
    s.filter_map(delta_fn())
}

/// The record an entry surfaces to lookup and iteration, if any.
pub open spec fn live_record(e: EntryView) -> Option<RecordView> {
    if e.removed {
        None
    } else {
        Some(e.record)
    }
}

/// `live_record` as a closure, for `filter_map`.
pub open spec fn live_fn() -> spec_fn(EntryView) -> Option<RecordView> {
    |e: EntryView| live_record(e)
}

/// The records a jar surfaces, in entry order.
pub open spec fn iter_spec(s: Seq<EntryView>) -> Seq<RecordView> {
    s.filter_map(live_fn())
}

/// The views of a sequence of delta directives.
pub open spec fn delta_views(s: Seq<DeltaEntry>) -> Seq<DeltaView> {
    Seq::new(s.len(), |i: int| s[i]@)
}

/// The views of a sequence of records.
pub open spec fn record_views(s: Seq<CookieRecord>) -> Seq<RecordView> {
    Seq::new(s.len(), |i: int| s[i]@)
}

impl CookieJar {
    /// All currently present records, in the stable entry order: the
    /// unchanged and overwritten originals and the added records,
    /// without the removed names.
    pub fn iter(&self) -> (r: Vec<CookieRecord>)
        ensures
            record_views(r@) == iter_spec(self@),
    {
        let mut out: Vec<CookieRecord> = Vec::new();
        let mut i: usize = 0;
        while i < self.entries.len()
            invariant
                0 <= i <= self@.len(),
                self@.len() == self.entries@.len(),
                record_views(out@) == iter_spec(self@.take(i as int)),
            decreases self@.len() - i,
        {
            assert(self@[i as int] == self.entries@[i as int]@);
            let ghost old_out = out@;
            if !self.entries[i].removed {
                out.push(self.entries[i].record.duplicate());
                proof {
                    assert(record_views(out@) =~= record_views(old_out) + seq![
                        out@[out@.len() - 1]@,
                    ]);
                }
            }
            proof {
                self@.lemma_filter_map_take_succ(live_fn(), i as int);
                assert(record_views(out@) =~= iter_spec(self@.take(i + 1 as int)));
            }
            i += 1;
        }
        proof {
            assert(self@.take(self@.len() as int) =~= self@);
        }
        out
    }

    /// The delta: the minimal ordered set of outbound directives for the
    /// changes made against the original set. Every added or overwritten
    /// name yields its current record, every removed original name yields
    /// a removal directive, and unchanged names yield nothing.
    pub fn delta(&self) -> (r: Vec<DeltaEntry>)
        ensures
            delta_views(r@) == delta_spec(self@),
    {
        let mut out: Vec<DeltaEntry> = Vec::new();
        let mut i: usize = 0;
        while i < self.entries.len()
            invariant
                0 <= i <= self@.len(),
                self@.len() == self.entries@.len(),
                delta_views(out@) == delta_spec(self@.take(i as int)),
            decreases self@.len() - i,
        {
            assert(self@[i as int] == self.entries@[i as int]@);
            let ghost old_out = out@;
            let e = &self.entries[i];
            if e.removed {
                if e.original.is_some() {
                    out.push(DeltaEntry::Expire(e.record.removal()));
                    proof {
                        assert(delta_views(out@) =~= delta_views(old_out) + seq![
                            out@[out@.len() - 1]@,
                        ]);
                    }
                }
            } else {
                let unchanged = match &e.original {
                    Some(o) => o.same_record(&e.record),
                    None => false,
                };
                if !unchanged {
                    out.push(DeltaEntry::Update(e.record.duplicate()));
                    proof {
                        assert(delta_views(out@) =~= delta_views(old_out) + seq![
                            out@[out@.len() - 1]@,
                        ]);
                    }
                }
            }
            proof {
                self@.lemma_filter_map_take_succ(delta_fn(), i as int);
                assert(delta_views(out@) =~= delta_spec(self@.take(i + 1 as int)));
            }
            i += 1;
        }
        proof {
            assert(self@.take(self@.len() as int) =~= self@);
        }
        out
    }

    /// The delta, each directive encoded as one `Set-Cookie` header
    /// value.
    pub fn delta_header_values(&self) -> (r: Vec<String>)
        ensures
            r@.len() == delta_spec(self@).len(),
            forall|i: int|
                0 <= i < r@.len() ==> #[trigger] r@[i]@ == set_cookie_encoding(
                    delta_record(delta_spec(self@)[i]),
                ),
    {
        let ds = self.delta();
        let mut out: Vec<String> = Vec::new();
        let mut i: usize = 0;
        while i < ds.len()
            invariant
                0 <= i <= ds@.len(),
                delta_views(ds@) == delta_spec(self@),
                out@.len() == i,
                forall|k: int|
                    0 <= k < i ==> #[trigger] out@[k]@ == set_cookie_encoding(
                        delta_record(delta_spec(self@)[k]),
                    ),
            decreases ds@.len() - i,
        {
            assert(ds@[i as int]@ == delta_views(ds@)[i as int]);
            let s = match &ds[i] {
                DeltaEntry::Update(c) => encode_set_cookie(c),
                DeltaEntry::Expire(c) => encode_set_cookie(c),
            };
            out.push(s);
            i += 1;
        }
        out
    }
}

/// Whether one raw header value parses in full: it is header-safe text
/// and each of its cookie pair segments parses.
pub open spec fn value_ok(v: Seq<u8>) -> bool {
    &&& header_ok(v)
    &&& forall|j: int| 0 <= j < pairs_of(v).len() ==> parsed_pair(#[trigger] pairs_of(v)[j]) is Some
}

/// Whether every raw header value parses in full.
pub open spec fn all_values_ok(vs: Seq<Seq<u8>>) -> bool {
    forall|i: int| 0 <= i < vs.len() ==> value_ok(#[trigger] vs[i])
}

/// The records parsed from one raw header value, in segment order
/// (meaningful when the value parses in full).
pub open spec fn records_of_value(v: Seq<u8>) -> Seq<RecordView> {
    Seq::new(
        pairs_of(v).len(),
        |j: int|
            match parsed_pair(pairs_of(v)[j]) {
                Some(r) => r,
                None => pair_view(Seq::<char>::empty(), Seq::<char>::empty()),
            },
    )
}

/// The records parsed from the raw header values, in presented order.
pub open spec fn records_of_values(vs: Seq<Seq<u8>>) -> Seq<RecordView>
    decreases vs.len(),
{
    if vs.len() == 0 {
        Seq::<RecordView>::empty()
    } else {
        records_of_value(vs[0]) + records_of_values(vs.drop_first())
    }
}

/// Entries after inserting records as originals into `init`, in order.
pub open spec fn jar_from_records_from(init: Seq<EntryView>, rs: Seq<RecordView>) -> Seq<
    EntryView,
>
    decreases rs.len(),
{
    if rs.len() == 0 {
        init
    } else {
        jar_from_records_from(insert_original_rec(init, rs[0]), rs.drop_first())
    }
}

/// The jar built by inserting the records as originals, in order.
pub open spec fn jar_from_records(rs: Seq<RecordView>) -> Seq<EntryView> {
    jar_from_records_from(Seq::<EntryView>::empty(), rs)
}

/// The views of the raw header values.
pub open spec fn value_views(vs: Seq<Vec<u8>>) -> Seq<Seq<u8>> {
    Seq::new(vs.len(), |i: int| vs[i]@)
}

pub proof fn lemma_jar_from_snoc(init: Seq<EntryView>, rs: Seq<RecordView>, r: RecordView)
    ensures
        jar_from_records_from(init, rs.push(r)) == insert_original_rec(
            jar_from_records_from(init, rs),
            r,
        ),
    decreases rs.len(),
{
    if rs.len() == 0 {
        assert(rs.push(r)[0] == r);
        assert(rs.push(r).drop_first() =~= rs);
        assert(jar_from_records_from(init, rs) == init);
        assert(jar_from_records_from(init, rs.push(r)) == jar_from_records_from(
            insert_original_rec(init, rs.push(r)[0]),
            rs.push(r).drop_first(),
        ));
        assert(jar_from_records_from(insert_original_rec(init, r), rs) == insert_original_rec(
            init,
            r,
        ));
    } else {
        assert(rs.push(r)[0] == rs[0]);
        assert(rs.push(r).drop_first() =~= rs.drop_first().push(r));
        lemma_jar_from_snoc(insert_original_rec(init, rs[0]), rs.drop_first(), r);
        assert(jar_from_records_from(init, rs.push(r)) == jar_from_records_from(
            insert_original_rec(init, rs[0]),
            rs.drop_first().push(r),
        ));
    }
}

proof fn lemma_jar_from_concat(init: Seq<EntryView>, a: Seq<RecordView>, b: Seq<RecordView>)
    ensures
        jar_from_records_from(init, a + b) == jar_from_records_from(
            jar_from_records_from(init, a),
            b,
        ),
    decreases a.len(),
{
    if a.len() == 0 {
        assert(a + b =~= b);
    } else {
        assert((a + b).drop_first() =~= a.drop_first() + b);
        assert((a + b)[0] == a[0]);
        lemma_jar_from_concat(insert_original_rec(init, a[0]), a.drop_first(), b);
    }
}

proof fn lemma_records_values_push(vs: Seq<Seq<u8>>, v: Seq<u8>)
    ensures
        records_of_values(vs.push(v)) == records_of_values(vs) + records_of_value(v),
    decreases vs.len(),
{
    if vs.len() == 0 {
        assert(vs.push(v)[0] == v);
        assert(vs.push(v).drop_first() =~= Seq::<Seq<u8>>::empty());
        assert(records_of_values(Seq::<Seq<u8>>::empty()) == Seq::<RecordView>::empty());
        assert(records_of_values(vs.push(v)) =~= records_of_values(vs) + records_of_value(v));
    } else {
        assert(vs.push(v)[0] == vs[0]);
        assert(vs.push(v).drop_first() =~= vs.drop_first().push(v));
        lemma_records_values_push(vs.drop_first(), v);
        assert(records_of_values(vs.push(v)) == records_of_value(vs[0]) + records_of_values(
            vs.drop_first().push(v),
        ));
        assert(records_of_values(vs.push(v)) =~= records_of_values(vs) + records_of_value(v));
    }
}

impl CookieJar {
    /// Builds a jar from the raw values of a request's `Cookie` headers,
    /// in the order the transport presents them.
    ///
    /// Each value must be header-safe text and is split on `;` into
    /// cookie pair segments, each parsed on its own; a later record with
    /// a repeated name overwrites an earlier one. The first failure —
    /// a value that is not text, or a malformed segment — fails the
    /// whole construction, and no jar is produced.
    pub fn from_headers(values: &Vec<Vec<u8>>) -> (r: Result<CookieJar, CookieParseError>)
        ensures
            match r {
                Ok(jar) => {
                    &&& all_values_ok(value_views(values@))
                    &&& jar@ == jar_from_records(records_of_values(value_views(values@)))
                    &&& jar.wf()
                },
                Err(_) => !all_values_ok(value_views(values@)),
            },
    {
        let ghost vs = value_views(values@);
        let mut jar = CookieJar::new();
        let mut vi: usize = 0;
        while vi < values.len()
            invariant
                0 <= vi <= values@.len(),
                vs == value_views(values@),
                vs.len() == values@.len(),
                forall|i: int| 0 <= i < vi ==> value_ok(#[trigger] vs[i]),
                jar.wf(),
                jar@ == jar_from_records(records_of_values(vs.take(vi as int))),
            decreases values@.len() - vi,
        {
            let v = &values[vi];
            assert(v@ == vs[vi as int]);
            if !header_value_ok(v) {
                assert(!value_ok(vs[vi as int]));
                return Err(
                    CookieParseError("request header value is not valid header text".to_owned()),
                );
            }
            let pairs = split_pairs(v);
            let ghost jar0 = jar@;
            let ghost ps = pairs_of(vs[vi as int]);
            let ghost recs = records_of_value(vs[vi as int]);
            let mut pj: usize = 0;
            while pj < pairs.len()
                invariant
                    0 <= pj <= pairs@.len(),
                    0 <= vi < values@.len(),
                    vs == value_views(values@),
                    v@ == vs[vi as int],
                    header_ok(v@),
                    ps == pairs_of(v@),
                    recs == records_of_value(v@),
                    pairs@.len() == ps.len(),
                    forall|k: int| 0 <= k < pairs@.len() ==> #[trigger] pairs@[k]@ == ps[k],
                    forall|k: int, m: int|
                        0 <= k < pairs@.len() && 0 <= m < pairs@[k]@.len()
                            ==> #[trigger] pairs@[k]@[m] != 59,
                    forall|k: int|
                        0 <= k < pairs@.len() ==> header_ok(#[trigger] pairs@[k]@),
                    forall|j: int| 0 <= j < pj ==> parsed_pair(#[trigger] ps[j]) is Some,
                    jar.wf(),
                    jar@ == jar_from_records_from(jar0, recs.take(pj as int)),
                decreases pairs@.len() - pj,
            {
                let seg = &pairs[pj];
                match parse_pair(seg) {
                    Ok(rec) => {
                        proof {
                            assert(parsed_pair(ps[pj as int]) == Some(rec@));
                            assert(recs[pj as int] == rec@);
                            assert(recs.take(pj + 1 as int) =~= recs.take(pj as int).push(rec@));
                            lemma_jar_from_snoc(jar0, recs.take(pj as int), rec@);
                        }
                        jar.insert_original(rec);
                    }
                    Err(e) => {
                        proof {
                            assert(parsed_pair(pairs_of(vs[vi as int])[pj as int]) is None);
                            assert(!value_ok(vs[vi as int]));
                        }
                        return Err(e);
                    }
                }
                pj += 1;
            }
            proof {
                assert(recs.take(recs.len() as int) =~= recs);
                assert(vs.take(vi + 1 as int) =~= vs.take(vi as int).push(vs[vi as int]));
                lemma_records_values_push(vs.take(vi as int), vs[vi as int]);
                lemma_jar_from_concat(
                    Seq::<EntryView>::empty(),
                    records_of_values(vs.take(vi as int)),
                    records_of_value(vs[vi as int]),
                );
            }
            vi += 1;
        }
        proof {
            assert(vs.take(vs.len() as int) =~= vs);
        }
        Ok(jar)
    }
}

/// A builder of a [`CookieJar`]: a jar carried by value through a chain
/// of additions and removals.
pub struct CookieJarBuilder {
    jar: CookieJar,
}

impl View for CookieJarBuilder {
    type V = Seq<EntryView>;

    closed spec fn view(&self) -> Seq<EntryView> {
        self.jar@
    }
}

impl CookieJarBuilder {
    /// Whether the carried jar is well formed.
    pub open spec fn wf(&self) -> bool {
        jar_wf(self@)
    }

    /// A builder starting from the given jar.
    pub fn new(jar: CookieJar) -> (r: CookieJarBuilder)
        ensures
            r@ == jar@,
            r.wf() == jar.wf(),
    {
        CookieJarBuilder { jar }
    }

    /// Adds a record, as [`CookieJar::add`] does, and passes the builder
    /// on.
    pub fn add(self, cookie: CookieRecord) -> (r: CookieJarBuilder)
        requires
            self.wf(),
        ensures
            r@ == add_rec(self@, cookie@),
            r.wf(),
    {
        let mut jar = self.jar;
        jar.add(cookie);
        CookieJarBuilder { jar }
    }

    /// Marks a record's name removed, as [`CookieJar::remove`] does, and
    /// passes the builder on.
    pub fn remove(self, cookie: CookieRecord) -> (r: CookieJarBuilder)
        requires
            self.wf(),
        ensures
            r@ == remove_rec(self@, cookie@),
            r.wf(),
    {
        let mut jar = self.jar;
        jar.remove(cookie);
        CookieJarBuilder { jar }
    }

    /// The built jar.
    pub fn build(self) -> (r: CookieJar)
        ensures
            r@ == self@,
            r.wf() == self.wf(),
    {
        self.jar
    }
}

impl CookieJar {
    /// A builder starting from an empty jar.
    pub fn builder() -> (r: CookieJarBuilder)
        ensures
            r@ == Seq::<EntryView>::empty(),
            r.wf(),
    {
        CookieJar::new().into_builder()
    }

    /// Turns this jar into a builder for further additions and removals.
    pub fn into_builder(self) -> (r: CookieJarBuilder)
        ensures
            r@ == self@,
            r.wf() == self.wf(),
    {
        CookieJarBuilder::new(self)
    }
}

} // verus!
