//! Reads through a disjoint, sorted set of segment readers, one after the
//! other, from either end.

use crate::value::{models, EntryModel, InternalValue};
use std::collections::VecDeque;
use vstd::prelude::*;

verus! {

/// A double-ended cursor over one segment's materialized run of entries.
pub struct SegmentReader {
    items: Vec<InternalValue>,
    lo: usize,
    hi: usize,
}

impl View for SegmentReader {
    type V = Seq<EntryModel>;

    closed spec fn view(&self) -> Seq<EntryModel> {
        models(self.items@).subrange(self.lo as int, self.hi as int)
    }
}

impl SegmentReader {
    pub closed spec fn wf(&self) -> bool {
        self.lo <= self.hi <= self.items@.len()
    }

    /// Opens a reader over a segment's entries.
    pub fn new(items: Vec<InternalValue>) -> (r: SegmentReader)
        ensures
            r.wf(),
            r@ == models(items@),
    {
        let hi = items.len();
        let r = SegmentReader { items, lo: 0, hi };
        proof {
            assert(r@ =~= models(r.items@));
        }
        r
    }

    /// Takes the first remaining entry, if any.
    pub fn next(&mut self) -> (r: Option<InternalValue>)
        requires
            old(self).wf(),
        ensures
            final(self).wf(),
            match r {
                Option::None => old(self)@.len() == 0 && final(self)@ == old(self)@,
                Option::Some(v) => old(self)@ == seq![v@] + final(self)@,
            },
    {
        if self.lo >= self.hi {
            return None;
        }
        let ghost w = self@;
        proof {
            assert(w[0] == models(self.items@)[self.lo as int]);
        }
        let item = self.items[self.lo].duplicate();
        self.lo += 1;
        proof {
            assert(self@ =~= w.skip(1));
            assert(w =~= seq![w[0]] + w.skip(1));
        }
        Some(item)
    }

    /// Takes the last remaining entry, if any.
    pub fn next_back(&mut self) -> (r: Option<InternalValue>)
        requires
            old(self).wf(),
        ensures
            final(self).wf(),
            match r {
                Option::None => old(self)@.len() == 0 && final(self)@ == old(self)@,
                Option::Some(v) => old(self)@ == final(self)@ + seq![v@],
            },
    {
        if self.lo >= self.hi {
            return None;
        }
        let ghost w = self@;
        proof {
            assert(w[w.len() - 1] == models(self.items@)[self.hi - 1]);
        }
        let item = self.items[self.hi - 1].duplicate();
        self.hi -= 1;
        proof {
            assert(self@ =~= w.take(w.len() - 1));
            assert(w =~= w.take(w.len() - 1) + seq![w[w.len() - 1]]);
        }
        Some(item)
    }
}

/// Reads through a queue of segment readers whose runs are disjoint and
/// ordered: the concatenation of their entries is one sorted run.
pub struct MultiReader {
    readers: VecDeque<SegmentReader>,
}

impl View for MultiReader {
    type V = Seq<EntryModel>;

    closed spec fn view(&self) -> Seq<EntryModel> {
        self.readers@.map_values(|r: SegmentReader| r@).flatten()
    }
}

impl MultiReader {
    pub closed spec fn wf(&self) -> bool {
        forall|i: int| 0 <= i < self.readers@.len() ==> (#[trigger] self.readers@[i]).wf()
    }

    /// Chains a queue of readers into one double-ended stream.
    pub fn new(readers: VecDeque<SegmentReader>) -> (r: MultiReader)
        ensures
            r.wf() == (forall|i: int|
                0 <= i < readers@.len() ==> (#[trigger] readers@[i]).wf()),
            r@ == readers@.map_values(|rd: SegmentReader| rd@).flatten(),
    {
        MultiReader { readers }
    }

    /// Takes the next entry of the frontmost non-exhausted reader.
    pub fn next(&mut self) -> (r: Option<InternalValue>)
        requires
            old(self).wf(),
        ensures
            final(self).wf(),
            match r {
                Option::None => old(self)@.len() == 0 && final(self)@.len() == 0,
                Option::Some(v) => old(self)@ == seq![v@] + final(self)@,
            },
    {
        let ghost orig = self@;
        loop
            invariant
                self.wf(),
                orig == old(self)@,
                self@ == orig,
            decreases self.readers@.len(),
        {
            let ghost views = self.readers@.map_values(|r: SegmentReader| r@);
            let popped = self.readers.pop_front();
            match popped {
                Option::None => {
                    proof {
                        assert(views =~= Seq::<Seq<EntryModel>>::empty());
                    }
                    return None;
                }
                Option::Some(mut front) => {
                    let ghost fv = front@;
                    proof {
                        assert(fv == views[0]);
                        assert(self.readers@.map_values(|r: SegmentReader| r@)
                            =~= views.drop_first());
                        assert(views.flatten() == views.first() + views.drop_first().flatten());
                    }
                    let got = front.next();
                    match got {
                        Option::Some(item) => {
                            let ghost fnew = front@;
                            let ghost rest = self.readers@.map_values(|r: SegmentReader| r@);
                            self.readers.push_front(front);
                            proof {
                                let nviews = self.readers@.map_values(|r: SegmentReader| r@);
                                assert(nviews =~= seq![fnew] + rest);
                                assert(nviews.first() == fnew);
                                assert(nviews.drop_first() =~= views.drop_first());
                                assert(nviews.flatten() == nviews.first()
                                    + nviews.drop_first().flatten());
                                assert(orig =~= seq![item@] + nviews.flatten());
                            }
                            return Some(item);
                        }
                        Option::None => {
                            // The frontmost reader is exhausted; it stays
                            // out of the queue.
                            proof {
                                assert(fv =~= Seq::<EntryModel>::empty());
                                assert(self@ =~= orig);
                            }
                        }
                    }
                }
            }
        }
    }

    /// Takes the last entry of the rearmost non-exhausted reader.
    pub fn next_back(&mut self) -> (r: Option<InternalValue>)
        requires
            old(self).wf(),
        ensures
            final(self).wf(),
            match r {
                Option::None => old(self)@.len() == 0 && final(self)@.len() == 0,
                Option::Some(v) => old(self)@ == final(self)@ + seq![v@],
            },
    {
        let ghost orig = self@;
        loop
            invariant
                self.wf(),
                orig == old(self)@,
                self@ == orig,
            decreases self.readers@.len(),
        {
            let ghost views = self.readers@.map_values(|r: SegmentReader| r@);
            proof {
                views.lemma_flatten_and_flatten_alt_are_equivalent();
            }
            let popped = self.readers.pop_back();
            match popped {
                Option::None => {
                    proof {
                        assert(views =~= Seq::<Seq<EntryModel>>::empty());
                    }
                    return None;
                }
                Option::Some(mut back) => {
                    let ghost bv = back@;
                    proof {
                        assert(bv == views[views.len() - 1]);
                        assert(self.readers@.map_values(|r: SegmentReader| r@)
                            =~= views.drop_last());
                        assert(views.flatten_alt() == views.drop_last().flatten_alt()
                            + views.last());
                    }
                    let got = back.next_back();
                    match got {
                        Option::Some(item) => {
                            let ghost bnew = back@;
                            let ghost rest = self.readers@.map_values(|r: SegmentReader| r@);
                            self.readers.push_back(back);
                            proof {
                                let nviews = self.readers@.map_values(|r: SegmentReader| r@);
                                assert(nviews =~= rest.push(bnew));
                                nviews.lemma_flatten_and_flatten_alt_are_equivalent();
                                assert(nviews.drop_last() =~= views.drop_last());
                                assert(nviews.last() == bnew);
                                assert(nviews.flatten_alt() == nviews.drop_last().flatten_alt()
                                    + nviews.last());
                                assert(orig =~= nviews.flatten() + seq![item@]);
                            }
                            return Some(item);
                        }
                        Option::None => {
                            // The rearmost reader is exhausted; it stays
                            // out of the queue.
                            proof {
                                let nviews = self.readers@.map_values(|r: SegmentReader| r@);
                                nviews.lemma_flatten_and_flatten_alt_are_equivalent();
                                assert(bv =~= Seq::<EntryModel>::empty());
                                assert(self@ =~= orig);
                            }
                        }
                    }
                }
            }
        }
    }
}

} // verus!
