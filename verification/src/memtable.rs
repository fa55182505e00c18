//! The in-memory ordered buffer of recent writes: an ordered run keyed by
//! internal key, holding at most one entry per `(user_key, seqno)` pair.

use crate::value::{
    bytes_eq, entries_sorted, entry_le, entry_le_exec, lemma_entry_le_connected,
    lemma_entry_le_trans, models, EntryModel, InternalValue,
};
use vstd::prelude::*;

verus! {

/// Two entries carry the same version of the same user key.
pub open spec fn same_version(a: EntryModel, b: EntryModel) -> bool {
    a.user_key == b.user_key && a.seqno == b.seqno
}

/// The in-memory write buffer: a sorted run.
pub struct Memtable {
    items: Vec<InternalValue>,
}

impl View for Memtable {
    type V = Seq<EntryModel>;

    closed spec fn view(&self) -> Seq<EntryModel> {
        models(self.items@)
    }
}

impl Memtable {
    pub open spec fn wf(&self) -> bool {
        entries_sorted(self@)
    }

    /// An empty buffer.
    pub fn new() -> (r: Memtable)
        ensures
            r.wf(),
            r@ == Seq::<EntryModel>::empty(),
    {
        let r = Memtable { items: Vec::new() };
        proof {
            assert(r@ =~= Seq::<EntryModel>::empty());
        }
        r
    }

    /// Number of buffered entries.
    pub fn len(&self) -> (r: usize)
        ensures
            r == self@.len(),
    {
        self.items.len()
    }

    pub fn is_empty(&self) -> (r: bool)
        ensures
            r == (self@.len() == 0),
    {
        self.items.len() == 0
    }

    /// Borrows the buffered run, oldest write order notwithstanding: the
    /// run is sorted by internal key.
    pub fn run(&self) -> (r: &Vec<InternalValue>)
        ensures
            models(r@) == self@,
    {
        &self.items
    }

    /// Inserts a version.  Any entry carrying the same `(user_key, seqno)`
    /// pair is replaced, so inserting the same version twice is idempotent
    /// in the count of entries.
    pub fn insert(&mut self, item: InternalValue)
        requires
            old(self).wf(),
        ensures
            final(self).wf(),
            final(self)@.to_multiset() == old(self)@.filter(
                |e: EntryModel| !same_version(e, item@),
            ).to_multiset().insert(item@),
            final(self)@.len() <= old(self)@.len() + 1,
    {
        broadcast use vstd::seq_lib::group_to_multiset_ensures;
        broadcast use vstd::multiset::group_multiset_axioms;

        let ghost it = item@;
        let ghost om = self@;
        let ghost pred = |e: EntryModel| !same_version(e, it);
        let mut out: Vec<InternalValue> = Vec::new();
        let mut i: usize = 0;
        // Keep the entries that sort before the new version.
        loop
            invariant
                self.wf(),
                om == self@,
                it == item@,
                pred == (|e: EntryModel| !same_version(e, it)),
                0 <= i <= self@.len(),
                models(out@) == self@.take(i as int).filter(pred),
                entries_sorted(models(out@)),
                forall|p: int, q: int|
                    0 <= p < models(out@).len() && i <= q < om.len() ==> #[trigger] entry_le(
                        models(out@)[p],
                        om[q],
                    ),
                forall|p: int|
                    0 <= p < models(out@).len() ==> entry_le(#[trigger] models(out@)[p], it),
            ensures
                0 <= i <= om.len(),
                models(out@) == om.take(i as int).filter(pred),
                entries_sorted(models(out@)),
                forall|p: int, q: int|
                    0 <= p < models(out@).len() && i <= q < om.len() ==> #[trigger] entry_le(
                        models(out@)[p],
                        om[q],
                    ),
                forall|p: int|
                    0 <= p < models(out@).len() ==> entry_le(#[trigger] models(out@)[p], it),
                i == om.len() || (pred(om[i as int]) && !entry_le(om[i as int], it)),
            decreases self@.len() - i,
        {
            if i >= self.items.len() {
                break ;
            }
            let ghost e = self@[i as int];
            proof {
                assert(e == models(self.items@)[i as int]);
                reveal(Seq::filter);
                assert(self@.take(i + 1).drop_last() =~= self@.take(i as int));
                assert(self@.take(i + 1).last() == e);
            }
            let cur = &self.items[i];
            let same = bytes_eq(&cur.key.user_key, &item.key.user_key) && cur.key.seqno
                == item.key.seqno;
            if same {
                proof {
                    assert(!pred(e));
                    assert(models(out@) =~= self@.take(i + 1).filter(pred));
                }
                i = i + 1;
                continue ;
            }
            if entry_le_exec(cur, &item) {
                let ghost omod = models(out@);
                out.push(cur.duplicate());
                proof {
                    assert(pred(e));
                    assert(models(out@) =~= omod.push(e));
                    assert(models(out@) =~= self@.take(i + 1).filter(pred));
                }
                i = i + 1;
                continue ;
            }
            break ;
        }
        let ghost cut = i as int;
        let ghost before = models(out@);
        out.push(item.duplicate());
        let ghost mid = models(out@);
        proof {
            assert(mid =~= before.push(it));
            assert(entries_sorted(mid));
            // Everything still to the right of the cut follows the new
            // version in the order.
            assert forall|q: int| cut <= q < om.len() implies entry_le(it, #[trigger] om[q]) by {
                lemma_entry_le_connected(om[cut], it);
                if q > cut {
                    lemma_entry_le_trans(it, om[cut], om[q]);
                }
            }
        }
        // Keep the entries that sort after the new version.
        loop
            invariant
                self.wf(),
                om == self@,
                it == item@,
                pred == (|e: EntryModel| !same_version(e, it)),
                0 <= cut <= i <= self@.len(),
                mid == om.take(cut).filter(pred).push(it),
                models(out@) == mid + self@.subrange(cut, i as int).filter(pred),
                entries_sorted(models(out@)),
                forall|q: int| cut <= q < om.len() ==> entry_le(it, #[trigger] om[q]),
                forall|p: int, q: int|
                    0 <= p < models(out@).len() && i <= q < om.len() ==> #[trigger] entry_le(
                        models(out@)[p],
                        om[q],
                    ),
            ensures
                models(out@) == mid + om.subrange(cut, om.len() as int).filter(pred),
                entries_sorted(models(out@)),
            decreases self@.len() - i,
        {
            if i >= self.items.len() {
                proof {
                    assert(self@.subrange(cut, i as int) =~= om.subrange(cut, om.len() as int));
                }
                break ;
            }
            let ghost e = self@[i as int];
            proof {
                assert(e == models(self.items@)[i as int]);
                reveal(Seq::filter);
                assert(self@.subrange(cut, i + 1).drop_last() =~= self@.subrange(cut, i as int));
                assert(self@.subrange(cut, i + 1).last() == e);
            }
            let cur = &self.items[i];
            let same = bytes_eq(&cur.key.user_key, &item.key.user_key) && cur.key.seqno
                == item.key.seqno;
            if !same {
                let ghost omod = models(out@);
                out.push(cur.duplicate());
                proof {
                    assert(pred(e));
                    assert(models(out@) =~= omod.push(e));
                    assert(models(out@) =~= mid + self@.subrange(cut, i + 1).filter(pred));
                }
            } else {
                proof {
                    assert(!pred(e));
                    assert(models(out@) =~= mid + self@.subrange(cut, i + 1).filter(pred));
                }
            }
            i = i + 1;
        }
        self.items = out;
        proof {
            assert(om.take(cut) + om.subrange(cut, om.len() as int) =~= om);
            Seq::filter_distributes_over_add(om.take(cut), om.subrange(cut, om.len() as int), pred);
            let fa = om.take(cut).filter(pred);
            let fb = om.subrange(cut, om.len() as int).filter(pred);
            assert(self@ =~= fa.push(it) + fb);
            assert(fa.push(it) =~= fa + seq![it]);
            assert(self@ =~= fa + (seq![it] + fb));
            vstd::seq_lib::lemma_multiset_commutative(fa, seq![it] + fb);
            vstd::seq_lib::lemma_multiset_commutative(seq![it], fb);
            vstd::seq_lib::lemma_multiset_commutative(fa, fb);
            assert(seq![it] =~= Seq::<EntryModel>::empty().push(it));
            assert(om.filter(pred).to_multiset() == fa.to_multiset().add(fb.to_multiset()));
            assert(self@.to_multiset() =~= om.filter(pred).to_multiset().insert(it));
            assert(self@.len() <= om.len() + 1) by {
                om.take(cut).lemma_filter_len(pred);
                om.subrange(cut, om.len() as int).lemma_filter_len(pred);
            }
        }
    }

    /// Returns the newest entry for `key` visible below `seqno_upper`: the
    /// entry with the greatest seqno strictly below the bound.
    pub fn get(&self, key: &Vec<u8>, seqno_upper: u64) -> (r: Option<InternalValue>)
        requires
            self.wf(),
        ensures
            match r {
                Option::Some(v) => {
                    &&& self@.contains(v@)
                    &&& v@.user_key == key@
                    &&& v@.seqno < seqno_upper
                    &&& forall|p: int|
                        0 <= p < self@.len() && self@[p].user_key == key@ && self@[p].seqno
                            < seqno_upper ==> (#[trigger] self@[p]).seqno <= v@.seqno
                },
                Option::None => forall|p: int|
                    0 <= p < self@.len() ==> !((#[trigger] self@[p]).user_key == key@
                        && self@[p].seqno < seqno_upper),
            },
    {
        let mut i: usize = 0;
        let mut best: Option<InternalValue> = None;
        while i < self.items.len()
            invariant
                0 <= i <= self@.len(),
                self.wf(),
                match best {
                    Option::Some(v) => {
                        &&& self@.contains(v@)
                        &&& v@.user_key == key@
                        &&& v@.seqno < seqno_upper
                        &&& forall|p: int|
                            0 <= p < i && self@[p].user_key == key@ && self@[p].seqno < seqno_upper
                                ==> (#[trigger] self@[p]).seqno <= v@.seqno
                    },
                    Option::None => forall|p: int|
                        0 <= p < i ==> !((#[trigger] self@[p]).user_key == key@ && self@[p].seqno
                            < seqno_upper),
                },
            decreases self@.len() - i,
        {
            let ghost e = self@[i as int];
            proof {
                assert(e == models(self.items@)[i as int]);
            }
            let cur = &self.items[i];
            if bytes_eq(&cur.key.user_key, key) && cur.key.seqno < seqno_upper {
                let better = match &best {
                    Option::Some(b) => b.key.seqno < cur.key.seqno,
                    Option::None => true,
                };
                if better {
                    best = Some(cur.duplicate());
                }
            }
            i = i + 1;
        }
        best
    }

    /// Takes all buffered entries out, leaving the buffer empty; used when
    /// the buffer is sealed and flushed into a segment.
    pub fn drain(&mut self) -> (r: Vec<InternalValue>)
        requires
            old(self).wf(),
        ensures
            final(self).wf(),
            final(self)@ == Seq::<EntryModel>::empty(),
            models(r@) == old(self)@,
            entries_sorted(models(r@)),
    {
        let mut out: Vec<InternalValue> = Vec::new();
        std::mem::swap(&mut out, &mut self.items);
        proof {
            assert(self@ =~= Seq::<EntryModel>::empty());
        }
        out
    }
}

} // verus!
