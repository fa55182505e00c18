//! Merging of sorted runs: the stream that compaction consumes is the
//! order-preserving union of the input segments' runs.

use crate::value::{
    entries_sorted, entry_le, entry_le_exec, lemma_entry_le_trans, models, EntryModel,
    InternalValue,
};
use vstd::prelude::*;
use vstd::multiset::Multiset;

verus! {

/// Multiset of all entries of a stack of runs.
pub open spec fn runs_multiset(ss: Seq<Seq<EntryModel>>) -> Multiset<EntryModel>
    decreases ss.len(),
{
    if ss.len() == 0 {
        Multiset::empty()
    } else {
        ss[0].to_multiset().add(runs_multiset(ss.drop_first()))
    }
}

pub proof fn lemma_runs_multiset_push(ss: Seq<Seq<EntryModel>>, x: Seq<EntryModel>)
    ensures
        runs_multiset(ss.push(x)) == runs_multiset(ss).add(x.to_multiset()),
    decreases ss.len(),
{
    broadcast use vstd::multiset::group_multiset_axioms;

    if ss.len() == 0 {
        assert(ss.push(x)[0] == x);
        assert(ss.push(x).drop_first() =~= Seq::<Seq<EntryModel>>::empty());
        assert(runs_multiset(ss.push(x)) == x.to_multiset().add(
            runs_multiset(Seq::<Seq<EntryModel>>::empty()),
        ));
        assert(runs_multiset(ss.push(x)) =~= runs_multiset(ss).add(x.to_multiset()));
    } else {
        assert(ss.push(x)[0] == ss[0]);
        assert(ss.push(x).drop_first() =~= ss.drop_first().push(x));
        lemma_runs_multiset_push(ss.drop_first(), x);
        assert(ss[0].to_multiset().add(runs_multiset(ss.drop_first()).add(x.to_multiset()))
            =~= ss[0].to_multiset().add(runs_multiset(ss.drop_first())).add(x.to_multiset()));
    }
}

/// Merges two sorted runs into one sorted run carrying the entries of both.
/// On ties the left entry goes first, so a newer source keeps priority by
/// standing on the left.
pub fn merge_two(a: &Vec<InternalValue>, b: &Vec<InternalValue>) -> (out: Vec<InternalValue>)
    requires
        entries_sorted(models(a@)),
        entries_sorted(models(b@)),
    ensures
        entries_sorted(models(out@)),
        models(out@).to_multiset() == models(a@).to_multiset().add(models(b@).to_multiset()),
{
    broadcast use vstd::seq_lib::group_to_multiset_ensures;
    broadcast use vstd::multiset::group_multiset_axioms;

    let ghost am = models(a@);
    let ghost bm = models(b@);
    let mut out: Vec<InternalValue> = Vec::new();
    let mut i: usize = 0;
    let mut j: usize = 0;
    while i < a.len() || j < b.len()
        invariant
            0 <= i <= a@.len(),
            0 <= j <= b@.len(),
            am == models(a@),
            bm == models(b@),
            entries_sorted(models(a@)),
            entries_sorted(models(b@)),
            entries_sorted(models(out@)),
            models(out@).to_multiset() == am.take(i as int).to_multiset().add(
                bm.take(j as int).to_multiset(),
            ),
            forall|p: int, q: int|
                0 <= p < out@.len() && i <= q < am.len() ==> #[trigger] entry_le(
                    models(out@)[p],
                    am[q],
                ),
            forall|p: int, q: int|
                0 <= p < out@.len() && j <= q < bm.len() ==> #[trigger] entry_le(
                    models(out@)[p],
                    bm[q],
                ),
        decreases a@.len() - i + b@.len() - j,
    {
        let ghost om = models(out@);
        let take_a = if i < a.len() && j < b.len() {
            entry_le_exec(&a[i], &b[j])
        } else {
            i < a.len()
        };
        if take_a {
            let ghost e = am[i as int];
            out.push(a[i].duplicate());
            proof {
                broadcast use vstd::seq_lib::group_to_multiset_ensures;
                broadcast use vstd::multiset::group_multiset_axioms;

                assert(models(out@) =~= om.push(e));
                assert(am.take(i + 1) =~= am.take(i as int).push(e));
                assert(models(out@).to_multiset() == om.push(e).to_multiset());
                assert(om.push(e).to_multiset() == om.to_multiset().insert(e));
                assert(am.take(i + 1).to_multiset() == am.take(i as int).push(e).to_multiset());
                assert(am.take(i as int).push(e).to_multiset() == am.take(
                    i as int,
                ).to_multiset().insert(e));
                assert(models(out@).to_multiset() =~= am.take(i + 1).to_multiset().add(
                    bm.take(j as int).to_multiset(),
                ));
                assert forall|p: int, q: int|
                    0 <= p < models(out@).len() && j <= q < bm.len() implies #[trigger] entry_le(
                    models(out@)[p],
                    bm[q],
                ) by {
                    if p == models(out@).len() - 1 {
                        // The chosen head is at most b's head, which is at
                        // most every later b entry.
                        if q > j {
                            lemma_entry_le_trans(e, bm[j as int], bm[q]);
                        }
                    }
                }
                assert(entries_sorted(models(out@)));
            }
            i = i + 1;
        } else {
            let ghost e = bm[j as int];
            out.push(b[j].duplicate());
            proof {
                broadcast use vstd::seq_lib::group_to_multiset_ensures;
                broadcast use vstd::multiset::group_multiset_axioms;

                if i < am.len() {
                    // b's head was chosen, so it is at most a's head, which
                    // bounds every later a entry.
                    assert(am[i as int] == a@[i as int]@);
                    assert(bm[j as int] == b@[j as int]@);
                    assert(entry_le(e, am[i as int])) by {
                        crate::value::lemma_entry_le_connected(e, am[i as int]);
                    }
                }
                assert(models(out@) =~= om.push(e));
                assert(bm.take(j + 1) =~= bm.take(j as int).push(e));
                assert(models(out@).to_multiset() == om.push(e).to_multiset());
                assert(om.push(e).to_multiset() == om.to_multiset().insert(e));
                assert(bm.take(j + 1).to_multiset() == bm.take(j as int).push(e).to_multiset());
                assert(bm.take(j as int).push(e).to_multiset() == bm.take(
                    j as int,
                ).to_multiset().insert(e));
                assert(models(out@).to_multiset() =~= am.take(i as int).to_multiset().add(
                    bm.take(j + 1).to_multiset(),
                ));
                assert forall|p: int, q: int|
                    0 <= p < models(out@).len() && i <= q < am.len() implies #[trigger] entry_le(
                    models(out@)[p],
                    am[q],
                ) by {
                    if p == models(out@).len() - 1 {
                        if q > i {
                            lemma_entry_le_trans(e, am[i as int], am[q]);
                        }
                    }
                }
                assert(entries_sorted(models(out@)));
            }
            j = j + 1;
        }
    }
    proof {
        assert(am.take(i as int) =~= am);
        assert(bm.take(j as int) =~= bm);
    }
    out
}

/// Merges a stack of sorted runs into one sorted run carrying the entries
/// of all of them; earlier (newer) runs win ties.
pub fn merge_runs(sources: &Vec<Vec<InternalValue>>) -> (out: Vec<InternalValue>)
    requires
        forall|i: int|
            0 <= i < sources@.len() ==> entries_sorted(models((#[trigger] sources@[i])@)),
    ensures
        entries_sorted(models(out@)),
        models(out@).to_multiset() == runs_multiset(
            sources@.map_values(|v: Vec<InternalValue>| models(v@)),
        ),
{
    broadcast use vstd::multiset::group_multiset_axioms;

    let ghost all = sources@.map_values(|v: Vec<InternalValue>| models(v@));
    let mut acc: Vec<InternalValue> = Vec::new();
    let mut idx: usize = 0;
    proof {
        broadcast use vstd::seq_lib::group_to_multiset_ensures;
        broadcast use vstd::multiset::lemma_multiset_empty_len;

        assert(all.take(0) =~= Seq::<Seq<EntryModel>>::empty());
        assert(models(acc@) =~= Seq::<EntryModel>::empty());
        assert(models(acc@).to_multiset().len() == 0);
        assert(models(acc@).to_multiset() =~= runs_multiset(all.take(0)));
    }
    while idx < sources.len()
        invariant
            0 <= idx <= sources@.len(),
            all == sources@.map_values(|v: Vec<InternalValue>| models(v@)),
            forall|i: int|
                0 <= i < sources@.len() ==> entries_sorted(models((#[trigger] sources@[i])@)),
            entries_sorted(models(acc@)),
            models(acc@).to_multiset() == runs_multiset(all.take(idx as int)),
        decreases sources@.len() - idx,
    {
        let next = merge_two(&acc, &sources[idx]);
        proof {
            assert(all[idx as int] == models(sources@[idx as int]@));
            assert(all.take(idx + 1) =~= all.take(idx as int).push(all[idx as int]));
            lemma_runs_multiset_push(all.take(idx as int), all[idx as int]);
        }
        acc = next;
        idx = idx + 1;
    }
    proof {
        assert(all.take(idx as int) =~= all);
    }
    acc
}

} // verus!
