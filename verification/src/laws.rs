//! Laws of the jar, stated and proved over its mathematical model: what
//! construction, mutation, iteration and the delta guarantee together.

use vstd::prelude::*;

use crate::codec::parsed_pair;
use crate::jar::{
    add_rec, all_values_ok, delta_fn, delta_record, delta_spec, entry_delta, entry_of, entry_wf,
    index_of_name, insert_original_rec, iter_spec, jar_from_records, jar_get, jar_wf, live_fn,
    live_record, lemma_index_of_name, lemma_jar_from_snoc,
    lemma_ops_preserve_wf, records_of_value, records_of_values, remove_rec, value_ok, DeltaView,
    EntryView,
};
use crate::parse::{header_ok, pairs_of};
use crate::record::{removal_view, RecordView};

verus! {

/// The original record a jar holds under a name, if any.
pub open spec fn original_of(s: Seq<EntryView>, name: Seq<char>) -> Option<RecordView> {
    match entry_of(s, name) {
        Some(e) => e.original,
        None => None,
    }
}

/// The last record of a sequence carrying the given name, if any.
pub open spec fn last_record_named(rs: Seq<RecordView>, name: Seq<char>) -> Option<RecordView>
    decreases rs.len(),
{
    if rs.len() == 0 {
        None
    } else if rs.last().name == name {
        Some(rs.last())
    } else {
        last_record_named(rs.drop_last(), name)
    }
}

proof fn lemma_index_of_name_update(s: Seq<EntryView>, i: int, e: EntryView, n: Seq<char>)
    requires
        0 <= i < s.len(),
        s[i].name == e.name,
    ensures
        index_of_name(s.update(i, e), n) == index_of_name(s, n),
    decreases s.len(),
{
    let su = s.update(i, e);
    assert(su[0].name == s[0].name);
    if s[0].name != n {
        if i == 0 {
            assert(su.drop_first() =~= s.drop_first());
        } else {
            assert(su.drop_first() =~= s.drop_first().update(i - 1, e));
            lemma_index_of_name_update(s.drop_first(), i - 1, e, n);
        }
    }
}

proof fn lemma_index_of_name_push(s: Seq<EntryView>, e: EntryView, n: Seq<char>)
    ensures
        index_of_name(s.push(e), n) == (if index_of_name(s, n) != -1 {
            index_of_name(s, n)
        } else if e.name == n {
            s.len() as int
        } else {
            -1
        }),
    decreases s.len(),
{
    let sp = s.push(e);
    if s.len() == 0 {
        assert(sp[0] == e);
        assert(sp.drop_first() =~= Seq::<EntryView>::empty());
        assert(index_of_name(Seq::<EntryView>::empty(), n) == -1);
        assert(index_of_name(s, n) == -1);
        if e.name == n {
            assert(index_of_name(sp, n) == 0);
        } else {
            assert(index_of_name(sp, n) == -1);
        }
    } else {
        assert(sp[0] == s[0]);
        if s[0].name == n {
            assert(index_of_name(sp, n) == 0);
            assert(index_of_name(s, n) == 0);
        } else {
            assert(sp.drop_first() =~= s.drop_first().push(e));
            lemma_index_of_name_push(s.drop_first(), e, n);
            let rd = index_of_name(s.drop_first(), n);
            let rpd = index_of_name(sp.drop_first(), n);
            assert(index_of_name(s, n) == (if rd == -1 {
                -1
            } else {
                rd + 1
            }));
            assert(index_of_name(sp, n) == (if rpd == -1 {
                -1
            } else {
                rpd + 1
            }));
            lemma_index_of_name(s.drop_first(), n);
            assert(s.len() == s.drop_first().len() + 1);
        }
    }
}

/// How each operation changes the entry a name resolves to: the
/// operation's own name gets the new entry, every other name keeps its
/// entry unchanged.
pub proof fn lemma_ops_entry_of(s: Seq<EntryView>, r: RecordView, n: Seq<char>)
    ensures
        entry_of(insert_original_rec(s, r), n) == (if n == r.name {
            Some(EntryView { name: r.name, original: Some(r), record: r, removed: false })
        } else {
            entry_of(s, n)
        }),
        entry_of(add_rec(s, r), n) == (if n == r.name {
            Some(
                EntryView {
                    name: r.name,
                    original: original_of(s, r.name),
                    record: r,
                    removed: false,
                },
            )
        } else {
            entry_of(s, n)
        }),
        entry_of(remove_rec(s, r), n) == (if n == r.name {
            Some(
                EntryView {
                    name: r.name,
                    original: original_of(s, r.name),
                    record: r,
                    removed: true,
                },
            )
        } else {
            entry_of(s, n)
        }),
{
    let i = index_of_name(s, r.name);
    lemma_index_of_name(s, r.name);
    lemma_index_of_name(s, n);
    if i == -1 {
        let e1 = EntryView { name: r.name, original: Some(r), record: r, removed: false };
        let e2 = EntryView { name: r.name, original: original_of(s, r.name), record: r, removed: false };
        let e3 = EntryView { name: r.name, original: original_of(s, r.name), record: r, removed: true };
        lemma_index_of_name_push(s, e1, n);
        lemma_index_of_name_push(s, e2, n);
        lemma_index_of_name_push(s, e3, n);
    } else {
        let e1 = EntryView { name: r.name, original: Some(r), record: r, removed: false };
        let e2 = EntryView { name: r.name, original: s[i].original, record: r, removed: false };
        let e3 = EntryView { name: r.name, original: s[i].original, record: r, removed: true };
        lemma_index_of_name_update(s, i, e1, n);
        lemma_index_of_name_update(s, i, e2, n);
        lemma_index_of_name_update(s, i, e3, n);
        if n == r.name {
            assert(s.update(i, e1)[i] == e1);
        } else {
            let j = index_of_name(s, n);
            if j == i {
                assert(s[i].name == n && s[i].name == r.name);
            } else if j != -1 {
                assert(s.update(i, e1)[j] == s[j]);
                assert(s.update(i, e2)[j] == s[j]);
                assert(s.update(i, e3)[j] == s[j]);
            }
        }
    }
}

/// Looking a name up in a store built from parsed records yields the last
/// record with that name, and nothing for a name none of them carries.
pub proof fn lemma_store_lookup(rs: Seq<RecordView>, n: Seq<char>)
    ensures
        jar_get(jar_from_records(rs), n) == last_record_named(rs, n),
    decreases rs.len(),
{
    if rs.len() == 0 {
        assert(index_of_name(Seq::<EntryView>::empty(), n) == -1);
    } else {
        let rest = rs.drop_last();
        let last = rs.last();
        assert(rs =~= rest.push(last));
        lemma_jar_from_snoc(Seq::<EntryView>::empty(), rest, last);
        lemma_store_lookup(rest, n);
        lemma_ops_entry_of(jar_from_records(rest), last, n);
    }
}

/// A store built from one parsed pair answers a lookup of that pair's
/// name with exactly that record.
pub proof fn lemma_single_pair_lookup(rec: RecordView)
    ensures
        jar_get(jar_from_records(seq![rec]), rec.name) == Some(rec),
{
    lemma_store_lookup(seq![rec], rec.name);
    assert(seq![rec].last() == rec);
}

/// When two parsed pairs carry the same name, the later one wins the
/// lookup.
pub proof fn lemma_later_pair_wins(r1: RecordView, r2: RecordView)
    requires
        r1.name == r2.name,
    ensures
        jar_get(jar_from_records(seq![r1, r2]), r2.name) == Some(r2),
{
    lemma_store_lookup(seq![r1, r2], r2.name);
    assert(seq![r1, r2].last() == r2);
}

/// An entry that no mutation has touched: not marked removed, and its
/// current record is exactly its original.
pub open spec fn untouched(e: EntryView) -> bool {
    !e.removed && e.original == Some(e.record)
}

/// Every entry of a freshly constructed store is untouched: its current
/// record is the original it was parsed with.
pub proof fn lemma_fresh_jar_untouched(rs: Seq<RecordView>)
    ensures
        forall|i: int|
            0 <= i < jar_from_records(rs).len() ==> untouched(#[trigger] jar_from_records(rs)[i]),
    decreases rs.len(),
{
    if rs.len() > 0 {
        let rest = rs.drop_last();
        let last = rs.last();
        assert(rs =~= rest.push(last));
        lemma_jar_from_snoc(Seq::<EntryView>::empty(), rest, last);
        lemma_fresh_jar_untouched(rest);
        let s0 = jar_from_records(rest);
        let e = EntryView { name: last.name, original: Some(last), record: last, removed: false };
        assert(untouched(e));
        let i = index_of_name(s0, last.name);
        lemma_index_of_name(s0, last.name);
        if i == -1 {
            assert(forall|k: int|
                0 <= k < s0.push(e).len() ==> untouched(#[trigger] s0.push(e)[k]));
        } else {
            assert(forall|k: int|
                0 <= k < s0.update(i, e).len() ==> untouched(#[trigger] s0.update(i, e)[k]));
        }
    }
}

proof fn lemma_delta_empty_when_untouched(s: Seq<EntryView>)
    requires
        forall|i: int| 0 <= i < s.len() ==> untouched(#[trigger] s[i]),
    ensures
        delta_spec(s) == Seq::<DeltaView>::empty(),
    decreases s.len(),
{
    if s.len() > 0 {
        assert(untouched(s[s.len() - 1]));
        assert(delta_fn()(s.last()) == entry_delta(s.last()));
        assert(entry_delta(s.last()) is None);
        assert(forall|i: int| 0 <= i < s.drop_last().len() ==> s.drop_last()[i] == s[i]);
        lemma_delta_empty_when_untouched(s.drop_last());
    }
}

/// A store built from parsed records, with no mutation applied, has an
/// empty delta.
pub proof fn lemma_unmutated_delta_empty(rs: Seq<RecordView>)
    ensures
        delta_spec(jar_from_records(rs)) == Seq::<DeltaView>::empty(),
{
    lemma_fresh_jar_untouched(rs);
    lemma_delta_empty_when_untouched(jar_from_records(rs));
}

/// The name a delta directive is about.
pub open spec fn delta_name(d: DeltaView) -> Seq<char> {
    delta_record(d).name
}

/// What the delta holds for one name: its entry's contribution.
pub open spec fn delta_of_name(s: Seq<EntryView>, n: Seq<char>) -> Option<DeltaView> {
    match entry_of(s, n) {
        Some(e) => entry_delta(e),
        None => None,
    }
}

/// In a well formed jar, the delta's directives for a name are exactly
/// what its entry contributes: each directive carrying the name equals
/// the entry's contribution, and one exists exactly when the entry
/// contributes one.
pub proof fn lemma_delta_membership(s: Seq<EntryView>, n: Seq<char>)
    requires
        jar_wf(s),
    ensures
        forall|i: int|
            0 <= i < delta_spec(s).len() && delta_name(#[trigger] delta_spec(s)[i]) == n
                ==> Some(delta_spec(s)[i]) == delta_of_name(s, n),
        (exists|i: int|
            0 <= i < delta_spec(s).len() && delta_name(#[trigger] delta_spec(s)[i]) == n)
            <==> delta_of_name(s, n) is Some,
    decreases s.len(),
{
    if s.len() == 0 {
        assert(index_of_name(s, n) == -1);
    } else {
        let rest = s.drop_last();
        let last = s.last();
        assert(forall|i: int| 0 <= i < rest.len() ==> rest[i] == s[i]);
        assert(jar_wf(rest));
        lemma_delta_membership(rest, n);
        assert(s =~= rest.push(last));
        lemma_index_of_name_push(rest, last, n);
        lemma_index_of_name(rest, n);
        assert(delta_fn()(last) == entry_delta(last));
        assert(entry_wf(last));
        let tail = match entry_delta(last) {
            Some(x) => seq![x],
            None => Seq::<DeltaView>::empty(),
        };
        assert(delta_spec(s) == delta_spec(rest) + tail);
        assert(match entry_delta(last) {
            Some(x) => delta_name(x) == last.name,
            None => true,
        });
        assert(forall|i: int|
            0 <= i < delta_spec(rest).len() ==> (delta_spec(rest) + tail)[i] == delta_spec(
                rest,
            )[i]);
        assert(match entry_delta(last) {
            Some(x) => delta_spec(s)[delta_spec(rest).len() as int] == x,
            None => delta_spec(s) =~= delta_spec(rest),
        });
        if last.name == n {
            if index_of_name(rest, n) != -1 {
                let j = index_of_name(rest, n);
                assert(s[j].name == n && s[s.len() - 1].name == n && j < s.len() - 1);
                assert(false);
            }
            assert(entry_of(s, n) == Some(last));
            assert(delta_of_name(rest, n) is None);
            match entry_delta(last) {
                Some(x) => {
                    let w = delta_spec(rest).len() as int;
                    assert(delta_name(delta_spec(s)[w]) == n);
                    assert(delta_of_name(s, n) == Some(x));
                }
                None => {
                    assert(delta_of_name(s, n) is None);
                }
            }
        } else {
            if index_of_name(rest, n) != -1 {
                let j = index_of_name(rest, n);
                assert(entry_of(s, n) == Some(s[j]));
                assert(s[j] == rest[j]);
            } else {
                assert(entry_of(s, n) is None);
            }
            assert(delta_of_name(s, n) == delta_of_name(rest, n));
            if delta_of_name(rest, n) is Some {
                let i0 = choose|i0: int|
                    0 <= i0 < delta_spec(rest).len() && delta_name(
                        #[trigger] delta_spec(rest)[i0],
                    ) == n;
                assert(delta_spec(s)[i0] == delta_spec(rest)[i0]);
                assert(delta_name(delta_spec(s)[i0]) == n);
            }
            assert(forall|i: int|
                delta_spec(rest).len() <= i < delta_spec(s).len() ==> delta_name(
                    #[trigger] delta_spec(s)[i],
                ) == last.name);
        }
    }
}

/// Adding a record and then removing its name leaves the delta with at
/// most one directive for the name, always a removal built from the
/// removal template and never an addition; it is there exactly when the
/// name was among the originals, and a name never present yields nothing.
pub proof fn lemma_add_then_remove(s: Seq<EntryView>, r: RecordView, t: RecordView)
    requires
        jar_wf(s),
        t.name == r.name,
    ensures
        ({
            let s2 = remove_rec(add_rec(s, r), t);
            &&& (forall|i: int|
                0 <= i < delta_spec(s2).len() && delta_name(#[trigger] delta_spec(s2)[i])
                    == r.name ==> delta_spec(s2)[i] == DeltaView::Expire(removal_view(t)))
            &&& (original_of(s, r.name) is Some ==> exists|i: int|
                0 <= i < delta_spec(s2).len() && delta_name(#[trigger] delta_spec(s2)[i])
                    == r.name)
            &&& (original_of(s, r.name) is None ==> forall|i: int|
                0 <= i < delta_spec(s2).len() ==> delta_name(#[trigger] delta_spec(s2)[i])
                    != r.name)
        }),
{
    let s1 = add_rec(s, r);
    let s2 = remove_rec(s1, t);
    lemma_ops_preserve_wf(s, r);
    lemma_ops_preserve_wf(s1, t);
    lemma_ops_entry_of(s, r, r.name);
    lemma_ops_entry_of(s1, t, r.name);
    assert(original_of(s1, r.name) == original_of(s, r.name));
    assert(entry_of(s2, r.name) == Some(
        EntryView {
            name: r.name,
            original: original_of(s, r.name),
            record: t,
            removed: true,
        },
    ));
    lemma_delta_membership(s2, r.name);
}

/// An original never touched by a mutation: lookup still answers with
/// its record, iteration still yields it, and the delta omits its name.
pub proof fn lemma_untouched_original(s: Seq<EntryView>, n: Seq<char>)
    requires
        jar_wf(s),
        entry_of(s, n) matches Some(e) && untouched(e),
    ensures
        (match entry_of(s, n) {
            Some(e) => {
                &&& jar_get(s, n) == Some(e.record)
                &&& iter_spec(s).contains(e.record)
                &&& forall|i: int|
                    0 <= i < delta_spec(s).len() ==> delta_name(#[trigger] delta_spec(s)[i]) != n
            },
            None => false,
        }),
{
    let e = choose|e: EntryView| entry_of(s, n) == Some(e);
    lemma_index_of_name(s, n);
    let k = index_of_name(s, n);
    assert(s[k] == e);
    lemma_iter_contains(s, k);
    assert(entry_delta(e) is None);
    assert(delta_of_name(s, n) is None);
    lemma_delta_membership(s, n);
}

proof fn lemma_iter_contains(s: Seq<EntryView>, k: int)
    requires
        0 <= k < s.len(),
        !s[k].removed,
    ensures
        iter_spec(s).contains(s[k].record),
    decreases s.len(),
{
    let rest = s.drop_last();
    let last = s.last();
    assert(live_fn()(last) == live_record(last));
    let tail = match live_record(last) {
        Some(x) => seq![x],
        None => Seq::<RecordView>::empty(),
    };
    assert(iter_spec(s) == iter_spec(rest) + tail);
    if k == s.len() - 1 {
        assert(iter_spec(s)[iter_spec(rest).len() as int] == s[k].record);
    } else {
        assert(rest[k] == s[k]);
        lemma_iter_contains(rest, k);
        let j = choose|j: int|
            0 <= j < iter_spec(rest).len() && iter_spec(rest)[j] == s[k].record;
        assert(iter_spec(s)[j] == s[k].record);
    }
}

/// One header value that is a single parsed pair segment runs the whole
/// input boundary: construction succeeds with exactly that record, and
/// looking its name up yields it unchanged. Together with the round-trip
/// clause of [`crate::codec::encode_set_cookie`], an encoded plain record
/// re-parses to itself.
pub proof fn lemma_single_value_store(v: Seq<u8>, rec: RecordView)
    requires
        header_ok(v),
        pairs_of(v) == seq![v],
        parsed_pair(v) == Some(rec),
    ensures
        all_values_ok(seq![v]),
        records_of_values(seq![v]) == seq![rec],
        jar_get(jar_from_records(records_of_values(seq![v])), rec.name) == Some(rec),
{
    assert(seq![v][0] == v);
    assert(value_ok(v)) by {
        assert(forall|j: int| 0 <= j < pairs_of(v).len() ==> pairs_of(v)[j] == v);
    }
    assert(records_of_value(v) =~= seq![rec]);
    assert(seq![v].drop_first() =~= Seq::<Seq<u8>>::empty());
    assert(records_of_values(Seq::<Seq<u8>>::empty()) == Seq::<RecordView>::empty());
    assert(records_of_values(seq![v]) =~= seq![rec]);
    lemma_single_pair_lookup(rec);
}

} // verus!
