//! Consumes a sorted run of versioned entries and emits a new stream
//! according to MVCC and tombstone rules: at most one entry per user key
//! and per direction, with weak tombstones ("single deletes") cancelling
//! exactly one newer value.
//!
//! The observable behaviour of both directions is fixed by one spec
//! function, [`collapse`]: a full forward run emits exactly `collapse` of
//! the input, a full reverse run emits exactly its reversal, so the two
//! directions agree on the multiset of emitted entries.

use crate::value::{bytes_eq, clone_bytes, models, EntryModel, InternalValue, ValueType};
use vstd::prelude::*;
use vstd::seq_lib::lemma_multiset_commutative;

verus! {

/// Visibility filter for snapshot reads: an entry is visible iff its seqno
/// lies strictly below the snapshot's upper bound.
pub fn seqno_filter(item_seqno: u64, seqno: u64) -> (r: bool)
    ensures
        r == (item_seqno < seqno),
{
    item_seqno < seqno
}

/// Number of leading entries of `s` whose user key is `k`.
pub open spec fn leading_key_count(s: Seq<EntryModel>, k: Seq<u8>) -> nat
    decreases s.len(),
{
    if s.len() == 0 || s[0].user_key != k {
        0
    } else {
        leading_key_count(s.drop_first(), k) + 1
    }
}

/// `s` without its leading entries of user key `k`.
pub open spec fn skip_key(s: Seq<EntryModel>, k: Seq<u8>) -> Seq<EntryModel> {
    s.skip(leading_key_count(s, k) as int)
}

pub proof fn lemma_leading_key_count_facts(s: Seq<EntryModel>, k: Seq<u8>)
    ensures
        leading_key_count(s, k) <= s.len(),
        forall|j: int| 0 <= j < leading_key_count(s, k) ==> s[j].user_key == k,
        leading_key_count(s, k) < s.len() ==> s[leading_key_count(s, k) as int].user_key != k,
    decreases s.len(),
{
    if s.len() > 0 && s[0].user_key == k {
        lemma_leading_key_count_facts(s.drop_first(), k);
        let c = leading_key_count(s, k);
        assert forall|j: int| 0 <= j < c implies s[j].user_key == k by {
            if j > 0 {
                assert(s.drop_first()[j - 1].user_key == k);
            }
        }
        if c < s.len() {
            assert(s.drop_first()[c - 1] == s[c as int]);
        }
    }
}

/// Taking a prefix truncates the leading-key count at the prefix length.
proof fn lemma_leading_key_count_take(s: Seq<EntryModel>, k: Seq<u8>, p: int)
    requires
        0 <= p <= s.len(),
    ensures
        leading_key_count(s.take(p), k) == if leading_key_count(s, k) <= p {
            leading_key_count(s, k) as int
        } else {
            p
        },
    decreases s.len(),
{
    if p == 0 {
        assert(s.take(0) =~= Seq::<EntryModel>::empty());
    } else if s.len() == 0 {
    } else if s[0].user_key != k {
        assert(s.take(p)[0] == s[0]);
    } else {
        assert(s.take(p)[0] == s[0]);
        assert(s.take(p).drop_first() =~= s.drop_first().take(p - 1));
        lemma_leading_key_count_take(s.drop_first(), k, p - 1);
    }
}

/// A run that consists solely of key `k` is skipped entirely.
proof fn lemma_skip_key_all(s: Seq<EntryModel>, k: Seq<u8>)
    requires
        forall|j: int| 0 <= j < s.len() ==> s[j].user_key == k,
    ensures
        skip_key(s, k) =~= Seq::<EntryModel>::empty(),
{
    lemma_leading_key_count_facts(s, k);
    assert(leading_key_count(s, k) == s.len());
}

/// The MVCC collapse of a sorted run: per user-key group (newest version
/// first), weak tombstones cancel the immediately following value, pairwise;
/// the first surviving entry of the group is emitted and the rest of the
/// group is dropped.
pub open spec fn collapse(s: Seq<EntryModel>) -> Seq<EntryModel>
    decreases s.len(),
    via collapse_decreases
{
    if s.len() == 0 {
        Seq::empty()
    } else if s[0].value_type == ValueType::WeakTombstone {
        if s.len() >= 2 && s[1].user_key == s[0].user_key && s[1].value_type == ValueType::Value {
            collapse(s.skip(2))
        } else {
            collapse(s.skip(1))
        }
    } else {
        seq![s[0]] + collapse(skip_key(s.skip(1), s[0].user_key))
    }
}

#[via_fn]
proof fn collapse_decreases(s: Seq<EntryModel>) {
    if s.len() > 0 && s[0].value_type != ValueType::WeakTombstone {
        lemma_leading_key_count_facts(s.skip(1), s[0].user_key);
    }
}

/// `m` splits `s` between two user-key groups (or at either end).
pub open spec fn key_boundary(s: Seq<EntryModel>, m: int) -> bool {
    &&& 0 <= m <= s.len()
    &&& (m == 0 || m == s.len() || s[m - 1].user_key != s[m].user_key)
}

/// The collapse of a run splits at any key boundary.
pub proof fn lemma_collapse_split(s: Seq<EntryModel>, m: int)
    requires
        key_boundary(s, m),
    ensures
        collapse(s) == collapse(s.take(m)) + collapse(s.skip(m)),
    decreases s.len(),
{
    if m == 0 {
        assert(s.take(0) =~= Seq::<EntryModel>::empty());
        assert(s.skip(0) =~= s);
        assert(collapse(s.take(0)) + collapse(s.skip(0)) =~= collapse(s));
    } else if m == s.len() {
        assert(s.take(m) =~= s);
        assert(s.skip(m) =~= Seq::<EntryModel>::empty());
        assert(collapse(s.take(m)) + collapse(s.skip(m)) =~= collapse(s));
    } else {
        let k = s[0].user_key;
        assert(s.take(m)[0] == s[0]);
        if s[0].value_type == ValueType::WeakTombstone {
            if s.len() >= 2 && s[1].user_key == k && s[1].value_type == ValueType::Value {
                // The weak tombstone and the value it cancels share a key,
                // so the boundary lies beyond both.
                assert(m != 1);
                assert(s.take(m)[1] == s[1]);
                lemma_collapse_split(s.skip(2), m - 2);
                assert(s.skip(2).take(m - 2) =~= s.take(m).skip(2));
                assert(s.skip(2).skip(m - 2) =~= s.skip(m));
                assert(collapse(s.take(m)) == collapse(s.take(m).skip(2)));
            } else {
                lemma_collapse_split(s.skip(1), m - 1);
                assert(s.skip(1).take(m - 1) =~= s.take(m).skip(1));
                assert(s.skip(1).skip(m - 1) =~= s.skip(m));
                if m >= 2 {
                    assert(s.take(m)[1] == s[1]);
                }
                assert(collapse(s.take(m)) == collapse(s.take(m).skip(1)));
            }
        } else {
            let rest = s.skip(1);
            let c = leading_key_count(rest, k) as int;
            lemma_leading_key_count_facts(rest, k);
            // The whole leading group of `s` sits strictly before `m`.
            assert(m >= 1 + c) by {
                if m < 1 + c {
                    assert(rest[m - 1].user_key == k);
                    assert(s[m] == rest[m - 1]);
                    if m == 1 {
                        assert(s[m - 1].user_key == k);
                    } else {
                        assert(rest[m - 2].user_key == k);
                        assert(s[m - 1] == rest[m - 2]);
                    }
                }
            }
            let tail = s.skip(1 + c);
            assert(skip_key(rest, k) =~= tail);
            lemma_collapse_split(tail, m - 1 - c);
            assert(tail.take(m - 1 - c) =~= tail.take(m - 1 - c));
            // The prefix `s.take(m)` collapses to its head plus the
            // collapse of its own tail beyond the group.
            assert(s.take(m).skip(1) =~= rest.take(m - 1));
            lemma_leading_key_count_take(rest, k, m - 1);
            assert(leading_key_count(rest.take(m - 1), k) == c);
            assert(skip_key(rest.take(m - 1), k) =~= tail.take(m - 1 - c));
            assert(tail.skip(m - 1 - c) =~= s.skip(m));
            assert(collapse(s.take(m)) == seq![s[0]] + collapse(tail.take(m - 1 - c)));
            assert(collapse(s) == seq![s[0]] + (collapse(tail.take(m - 1 - c)) + collapse(s.skip(m))));
            assert(seq![s[0]] + (collapse(tail.take(m - 1 - c)) + collapse(s.skip(m)))
                =~= (seq![s[0]] + collapse(tail.take(m - 1 - c))) + collapse(s.skip(m)));
        }
    }
}

proof fn lemma_reverse_multiset<A>(s: Seq<A>)
    ensures
        s.reverse().to_multiset() == s.to_multiset(),
    decreases s.len(),
{
    broadcast use vstd::seq_lib::group_to_multiset_ensures;

    if s.len() > 0 {
        lemma_reverse_multiset(s.drop_first());
        assert(s.reverse() =~= s.drop_first().reverse().push(s[0]));
        assert(s =~= seq![s[0]] + s.drop_first());
        lemma_multiset_commutative(seq![s[0]], s.drop_first());
        assert(seq![s[0]] =~= Seq::<A>::empty().push(s[0]));
        assert(Seq::<A>::empty().push(s[0]).to_multiset()
            =~= Seq::<A>::empty().to_multiset().insert(s[0]));
        assert(s.to_multiset() =~= s.drop_first().to_multiset().insert(s[0]));
    }
}

/// Forward and reverse iteration agree: a full forward run over a stream
/// emits exactly `collapse` of its input in order (ensured by [`MvccStream::next`]),
/// a full reverse run emits exactly the reversal of the same sequence
/// (ensured by [`MvccStream::next_back`]), and a sequence and its reversal
/// carry the same multiset of entries.
pub proof fn lemma_directions_same_multiset(s: Seq<EntryModel>)
    ensures
        collapse(s).reverse().to_multiset() == collapse(s).to_multiset(),
{
    lemma_reverse_multiset(collapse(s));
}

/// Consumes a sorted run of entries and emits a new stream according to
/// MVCC and tombstone rules.
///
/// This stream is used for read operations.
pub struct MvccStream {
    items: Vec<InternalValue>,
    lo: usize,
    hi: usize,
}

impl View for MvccStream {
    type V = Seq<EntryModel>;

    closed spec fn view(&self) -> Seq<EntryModel> {
        models(self.items@).subrange(self.lo as int, self.hi as int)
    }
}

impl MvccStream {
    pub closed spec fn wf(&self) -> bool {
        self.lo <= self.hi <= self.items@.len()
    }

    /// Initializes a new collapse stream over a materialized sorted run.
    pub fn new(items: Vec<InternalValue>) -> (r: MvccStream)
        ensures
            r.wf(),
            r@ == models(items@),
    {
        let hi = items.len();
        let r = MvccStream { items, lo: 0, hi };
        proof {
            assert(r@ =~= models(r.items@));
        }
        r
    }

    /// Advances past every leading entry that still carries `key`: those are
    /// older versions of an entry that has just been emitted.
    fn drain_key_min(&mut self, key: &Vec<u8>)
        requires
            old(self).wf(),
        ensures
            final(self).wf(),
            final(self)@ == skip_key(old(self)@, key@),
    {
        let ghost orig = self@;
        loop
            invariant
                self.wf(),
                orig == old(self)@,
                skip_key(self@, key@) == skip_key(orig, key@),
            decreases self@.len(),
        {
            if self.lo >= self.hi {
                proof {
                    assert(self@ =~= Seq::<EntryModel>::empty());
                    assert(skip_key(self@, key@) =~= self@);
                }
                return ;
            }
            let ghost w = self@;
            proof {
                assert(w[0] == models(self.items@)[self.lo as int]);
            }
            let same = bytes_eq(&self.items[self.lo].key.user_key, key);
            if !same {
                proof {
                    assert(leading_key_count(self@, key@) == 0);
                    assert(skip_key(self@, key@) =~= self@);
                }
                return ;
            }
            proof {
                let c = leading_key_count(w.drop_first(), key@);
                lemma_leading_key_count_facts(w.drop_first(), key@);
                assert(w.skip(1 + c as int) =~= w.drop_first().skip(c as int));
            }
            self.lo += 1;
            proof {
                assert(self@ =~= w.drop_first());
            }
        }
    }

    /// Emits the next visible entry in forward order.  The entries emitted
    /// by a full run are exactly `collapse` of the stream's input.
    pub fn next(&mut self) -> (r: Option<InternalValue>)
        requires
            old(self).wf(),
        ensures
            final(self).wf(),
            match r {
                Option::None => collapse(old(self)@) == Seq::<EntryModel>::empty()
                    && final(self)@.len() == 0,
                Option::Some(v) => collapse(old(self)@) == seq![v@] + collapse(final(self)@),
            },
    {
        let ghost orig = self@;
        loop
            invariant
                self.wf(),
                orig == old(self)@,
                collapse(self@) == collapse(orig),
            decreases self@.len(),
        {
            if self.lo >= self.hi {
                proof {
                    assert(self@ =~= Seq::<EntryModel>::empty());
                }
                return None;
            }
            let ghost w = self@;
            proof {
                assert(w[0] == models(self.items@)[self.lo as int]);
            }
            let head = self.items[self.lo].duplicate();
            self.lo += 1;
            proof {
                assert(self@ =~= w.skip(1));
            }
            if matches!(head.key.value_type, ValueType::WeakTombstone) {
                let mut pair = false;
                if self.lo < self.hi {
                    proof {
                        assert(w[1] == models(self.items@)[self.lo as int]);
                    }
                    let same = bytes_eq(&self.items[self.lo].key.user_key, &head.key.user_key);
                    if same && matches!(self.items[self.lo].key.value_type, ValueType::Value) {
                        pair = true;
                    }
                }
                if pair {
                    // The weak tombstone and the value directly below it
                    // erase each other.
                    proof {
                        assert(collapse(w) == collapse(w.skip(2)));
                    }
                    self.lo += 1;
                    proof {
                        assert(self@ =~= w.skip(2));
                    }
                } else {
                    // The weak tombstone is dropped alone.
                    proof {
                        assert(collapse(w) == collapse(w.skip(1)));
                    }
                }
            } else {
                // Emit the newest surviving version; all older versions of
                // this key are dropped.
                self.drain_key_min(&head.key.user_key);
                proof {
                    assert(collapse(w) == seq![w[0]] + collapse(skip_key(w.skip(1), w[0].user_key)));
                    assert(self@ == skip_key(w.skip(1), head@.user_key));
                }
                return Some(head);
            }
        }
    }

    /// Emits the next visible entry in reverse order.  The entries emitted
    /// by a full run are exactly the reversal of `collapse` of the input.
    pub fn next_back(&mut self) -> (r: Option<InternalValue>)
        requires
            old(self).wf(),
        ensures
            final(self).wf(),
            match r {
                Option::None => collapse(old(self)@) == Seq::<EntryModel>::empty()
                    && final(self)@.len() == 0,
                Option::Some(v) => collapse(old(self)@) == collapse(final(self)@) + seq![v@],
            },
    {
        let ghost orig = self@;
        loop
            invariant
                self.wf(),
                orig == old(self)@,
                collapse(self@) == collapse(orig),
            decreases self@.len(),
        {
            if self.lo >= self.hi {
                proof {
                    assert(self@ =~= Seq::<EntryModel>::empty());
                }
                return None;
            }
            let ghost w = self@;
            let ghost ms = models(self.items@);
            let key = clone_bytes(&self.items[self.hi - 1].key.user_key);
            proof {
                assert(w[w.len() - 1] == ms[self.hi - 1]);
            }
            // Walk left to the start of the rearmost user-key group.
            let mut g: usize = self.hi - 1;
            loop
                invariant
                    self.wf(),
                    self.lo <= g < self.hi,
                    ms == models(self.items@),
                    forall|j: int| g <= j < self.hi ==> ms[j].user_key == key@,
                ensures
                    self.lo <= g < self.hi,
                    forall|j: int| g <= j < self.hi ==> ms[j].user_key == key@,
                    g == self.lo || ms[g - 1].user_key != key@,
                decreases g,
            {
                if g > self.lo {
                    let same = bytes_eq(&self.items[g - 1].key.user_key, &key);
                    if same {
                        proof {
                            assert(ms[g - 1].user_key == key@);
                        }
                        g -= 1;
                        continue ;
                    }
                    proof {
                        assert(ms[g - 1] == self.items@[g - 1]@);
                    }
                }
                break ;
            }
            let ghost m = g - self.lo;
            let ghost grp = w.skip(m as int);
            proof {
                assert(grp =~= ms.subrange(g as int, self.hi as int));
                assert(key_boundary(w, m as int)) by {
                    if 0 < m < w.len() {
                        assert(w[m - 1] == ms[g - 1]);
                        assert(w[m as int] == ms[g as int]);
                    }
                }
                lemma_collapse_split(w, m as int);
            }
            // Resolve the group with the forward rules: weak tombstones
            // cancel the value directly below them, pairwise.
            let mut i: usize = g;
            loop
                invariant
                    self.wf(),
                    self.lo <= g <= i <= self.hi,
                    ms == models(self.items@),
                    forall|j: int| g <= j < self.hi ==> ms[j].user_key == key@,
                    collapse(ms.subrange(g as int, self.hi as int))
                        == collapse(ms.subrange(i as int, self.hi as int)),
                ensures
                    g <= i <= self.hi,
                    collapse(ms.subrange(g as int, self.hi as int))
                        == collapse(ms.subrange(i as int, self.hi as int)),
                    i == self.hi || ms[i as int].value_type != ValueType::WeakTombstone,
                decreases self.hi - i,
            {
                if i >= self.hi {
                    break ;
                }
                let ghost sub = ms.subrange(i as int, self.hi as int);
                proof {
                    assert(sub[0] == ms[i as int]);
                }
                if !matches!(self.items[i].key.value_type, ValueType::WeakTombstone) {
                    proof {
                        assert(ms[i as int] == self.items@[i as int]@);
                    }
                    break ;
                }
                if i + 1 < self.hi && matches!(self.items[i + 1].key.value_type, ValueType::Value) {
                    proof {
                        assert(sub[1] == ms[i + 1]);
                        assert(collapse(sub) == collapse(sub.skip(2)));
                        assert(sub.skip(2) =~= ms.subrange(i + 2, self.hi as int));
                    }
                    i += 2;
                } else {
                    proof {
                        if i + 1 < self.hi {
                            assert(sub[1] == ms[i + 1]);
                        }
                        assert(collapse(sub) == collapse(sub.skip(1)));
                        assert(sub.skip(1) =~= ms.subrange(i + 1, self.hi as int));
                    }
                    i += 1;
                }
            }
            let winner = if i < self.hi {
                // The surviving head of the group is emitted.
                let ghost sub = ms.subrange(i as int, self.hi as int);
                proof {
                    assert(sub[0] == ms[i as int]);
                    assert(sub[0].user_key == key@);
                    assert(forall|j: int| 0 <= j < sub.skip(1).len() ==> sub.skip(1)[j].user_key == key@);
                    lemma_skip_key_all(sub.skip(1), key@);
                    assert(sub[0].value_type != ValueType::WeakTombstone);
                    assert(collapse(sub) == seq![sub[0]] + collapse(skip_key(sub.skip(1), sub[0].user_key)));
                    assert(skip_key(sub.skip(1), sub[0].user_key) =~= Seq::<EntryModel>::empty());
                    assert(collapse(Seq::<EntryModel>::empty()) == Seq::<EntryModel>::empty());
                    assert(seq![sub[0]] + Seq::<EntryModel>::empty() =~= seq![sub[0]]);
                    assert(collapse(sub) =~= seq![sub[0]]);
                }
                Some(self.items[i].duplicate())
            } else {
                // Every entry of the group cancelled; nothing is emitted.
                proof {
                    assert(ms.subrange(i as int, self.hi as int) =~= Seq::<EntryModel>::empty());
                }
                None
            };
            self.hi = g;
            proof {
                assert(self@ =~= w.take(m as int));
            }
            match winner {
                Some(v) => {
                    proof {
                        assert(collapse(w) == collapse(self@) + seq![v@]);
                    }
                    return Some(v);
                }
                None => {
                    proof {
                        assert(collapse(w) =~= collapse(self@) + Seq::<EntryModel>::empty());
                        assert(collapse(self@) + Seq::<EntryModel>::empty() =~= collapse(self@));
                    }
                }
            }
        }
    }
}

} // verus!
