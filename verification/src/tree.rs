//! The tree facade: the active write buffer, the sealed queue, the level
//! manifest, and the counters that order writes and name segments.

use crate::levels::{man_entries_ms, man_has_id, LevelManifest};
use crate::memtable::{same_version, Memtable};
use crate::merge::runs_multiset;
use crate::mvcc_stream::collapse;
use crate::value::{entries_sorted, models, EntryModel, InternalValue, ValueType};
use vstd::multiset::Multiset;
use vstd::prelude::*;

verus! {

/// The model of one freshly written version.
pub open spec fn entry_model(k: Seq<u8>, v: Seq<u8>, seqno: u64, t: ValueType) -> EntryModel {
    EntryModel { user_key: k, seqno, value_type: t, value: v }
}

/// Entries of `key` visible strictly below the snapshot bound `upper`.
pub open spec fn version_pred(k: Seq<u8>, upper: u64) -> spec_fn(EntryModel) -> bool {
    |e: EntryModel| e.user_key == k && e.seqno < upper
}

/// The one sorted run carrying exactly the entries of `m`; two sorted
/// runs with the same entries are equal, so the run is well defined
/// whenever one exists.
pub open spec fn sorted_run_of(m: Multiset<EntryModel>) -> Seq<EntryModel> {
    choose|s: Seq<EntryModel>| s.to_multiset() == m && #[trigger] entries_sorted(s)
}

/// What a point read of `key` below `upper` returns out of the entries
/// `m`: the winner of the key's version chain under the MVCC rules — the
/// newest value not shadowed by a newer tombstone, with weak tombstones
/// cancelling exactly one newer value each.
pub open spec fn lookup_in(m: Multiset<EntryModel>, k: Seq<u8>, upper: u64) -> Option<Seq<u8>> {
    let chain = sorted_run_of(m.filter(version_pred(k, upper)));
    let c = collapse(chain);
    if c.len() > 0 && c[0].value_type == ValueType::Value {
        Some(c[0].value)
    } else {
        None
    }
}

/// Tree configuration.
#[derive(Clone, Copy, Debug, PartialEq, Eq, Structural)]
pub struct Config {
    /// Number of levels the manifest keeps.
    pub level_count: usize,
}

impl Config {
    /// The default layout: seven levels.
    pub fn new() -> (r: Config)
        ensures
            r.level_count == 7,
    {
        Config { level_count: 7 }
    }
}

/// An ordered, multi-version key-value store organized as levels of
/// immutable sorted runs under an in-memory write buffer.
pub struct Tree {
    pub id: u64,
    pub config: Config,
    pub active_memtable: Memtable,
    pub sealed_memtables: Vec<Memtable>,
    pub levels: LevelManifest,
    pub next_seqno: u64,
    pub segment_id_counter: u64,
    pub open_snapshots: u64,
    pub stop_signal: bool,
}

impl Tree {
    /// Runs of the sealed write buffers, newest first.
    pub open spec fn sealed_runs(&self) -> Seq<Seq<EntryModel>> {
        self.sealed_memtables@.map_values(|m: Memtable| m@)
    }

    /// Every entry a reader may see, across the active buffer, the sealed
    /// queue, and all segments.
    pub open spec fn entries(&self) -> Multiset<EntryModel> {
        self.active_memtable@.to_multiset().add(runs_multiset(self.sealed_runs())).add(
            man_entries_ms(self.levels@),
        )
    }

    pub open spec fn wf(&self) -> bool {
        &&& self.active_memtable.wf()
        &&& forall|i: int|
            0 <= i < self.sealed_memtables@.len() ==> (#[trigger] self.sealed_memtables@[i]).wf()
        &&& self.levels.wf()
        &&& self.levels@.hidden.len() == 0
        &&& forall|e: EntryModel| #[trigger] self.entries().count(e) > 0 ==> e.seqno
            < self.next_seqno
        &&& forall|id: u64| #[trigger] man_has_id(self.levels@, id) ==> id
            < self.segment_id_counter
    }

    /// Opens a fresh, empty tree.
    pub fn new(id: u64, config: Config) -> (r: Tree)
        requires
            config.level_count >= 1,
        ensures
            r.wf(),
            r.entries() == Multiset::<EntryModel>::empty(),
            r.id == id,
            r.config == config,
            r.next_seqno == 0,
            r.open_snapshots == 0,
            r.levels@.levels.len() == config.level_count,
    {
        broadcast use vstd::multiset::group_multiset_axioms;

        let r = Tree {
            id,
            config,
            active_memtable: Memtable::new(),
            sealed_memtables: Vec::new(),
            levels: LevelManifest::new(config.level_count),
            next_seqno: 0,
            segment_id_counter: 0,
            open_snapshots: 0,
            stop_signal: false,
        };
        proof {
            broadcast use vstd::seq_lib::group_to_multiset_ensures;

            assert(r.sealed_runs() =~= Seq::<Seq<EntryModel>>::empty());
            assert(r.active_memtable@.to_multiset().len() == 0);
            vstd::multiset::lemma_multiset_empty_len(r.active_memtable@.to_multiset());
            assert(man_entries_ms(r.levels@) =~= Multiset::<EntryModel>::empty()) by {
                lemma_empty_levels_entries(r.levels@.levels);
            }
            assert(r.entries() =~= Multiset::<EntryModel>::empty());
            assert forall|id: u64| #[trigger] man_has_id(r.levels@, id) implies id
                < r.segment_id_counter by {
                let (l, p) = crate::levels::seg_pos(r.levels@, id);
                assert(0 <= l < r.levels@.levels.len() && 0 <= p < r.levels@.levels[l].len());
            }
        }
        r
    }
}

impl Tree {
    /// Records one version in the active buffer; the tree's clock never
    /// falls behind a seqno it has seen.
    fn put(&mut self, key: Vec<u8>, value: Vec<u8>, seqno: u64, value_type: ValueType)
        requires
            old(self).wf(),
            seqno < u64::MAX,
        ensures
            final(self).wf(),
            final(self).id == old(self).id,
            final(self).config == old(self).config,
            final(self).sealed_memtables == old(self).sealed_memtables,
            final(self).levels == old(self).levels,
            final(self).segment_id_counter == old(self).segment_id_counter,
            final(self).open_snapshots == old(self).open_snapshots,
            final(self).stop_signal == old(self).stop_signal,
            final(self).active_memtable@.to_multiset() == old(self).active_memtable@.filter(
                |e: EntryModel| !same_version(e, entry_model(key@, value@, seqno, value_type)),
            ).to_multiset().insert(entry_model(key@, value@, seqno, value_type)),
            final(self).next_seqno == if seqno + 1 > old(self).next_seqno {
                seqno + 1
            } else {
                old(self).next_seqno as int
            },
    {
        broadcast use vstd::multiset::group_multiset_axioms;

        let ghost it = entry_model(key@, value@, seqno, value_type);
        let ghost om = self.active_memtable@;
        let item = InternalValue::from_components(key, value, seqno, value_type);
        self.active_memtable.insert(item);
        if seqno >= self.next_seqno {
            self.next_seqno = seqno + 1;
        }
        proof {
            crate::value::lemma_filter_to_multiset(
                om,
                |e: EntryModel| !same_version(e, it),
            );
            assert(self.sealed_runs() == old(self).sealed_runs());
            assert forall|e: EntryModel| #[trigger] self.entries().count(e) > 0 implies e.seqno
                < self.next_seqno by {
                if e == it {
                } else {
                    assert(self.active_memtable@.to_multiset().count(e)
                        <= om.to_multiset().count(e));
                    assert(old(self).entries().count(e) >= self.entries().count(e));
                }
            }
        }
    }

    /// One sorted copy of every run a reader composes: the active buffer,
    /// the sealed buffers, and every segment.
    fn gather_runs(&self) -> (r: Vec<Vec<InternalValue>>)
        requires
            self.wf(),
        ensures
            forall|i: int|
                0 <= i < r@.len() ==> entries_sorted(models((#[trigger] r@[i])@)),
            runs_multiset(r@.map_values(|v: Vec<InternalValue>| models(v@))) == self.entries(),
    {
        broadcast use vstd::multiset::group_multiset_axioms;
        broadcast use vstd::seq_lib::group_to_multiset_ensures;

        let mut out: Vec<Vec<InternalValue>> = Vec::new();
        let ghost memms = self.active_memtable@.to_multiset();
        out.push(crate::value::clone_run(self.active_memtable.run()));
        proof {
            let outv = out@.map_values(|v: Vec<InternalValue>| models(v@));
            assert(outv =~= Seq::<Seq<EntryModel>>::empty().push(self.active_memtable@));
            crate::merge::lemma_runs_multiset_push(
                Seq::<Seq<EntryModel>>::empty(),
                self.active_memtable@,
            );
            vstd::multiset::lemma_multiset_empty_len(
                runs_multiset(Seq::<Seq<EntryModel>>::empty()),
            );
            assert(runs_multiset(outv) =~= memms);
            assert(self.sealed_runs().take(0) =~= Seq::<Seq<EntryModel>>::empty());
            vstd::multiset::lemma_multiset_empty_len(
                runs_multiset(self.sealed_runs().take(0)),
            );
            assert(runs_multiset(outv) =~= memms.add(
                runs_multiset(self.sealed_runs().take(0)),
            ));
        }
        let mut i: usize = 0;
        while i < self.sealed_memtables.len()
            invariant
                self.wf(),
                0 <= i <= self.sealed_memtables@.len(),
                memms == self.active_memtable@.to_multiset(),
                forall|p: int|
                    0 <= p < out@.len() ==> entries_sorted(models((#[trigger] out@[p])@)),
                runs_multiset(out@.map_values(|v: Vec<InternalValue>| models(v@))) == memms.add(
                    runs_multiset(self.sealed_runs().take(i as int)),
                ),
            decreases self.sealed_memtables@.len() - i,
        {
            let ghost outv = out@.map_values(|v: Vec<InternalValue>| models(v@));
            let ghost sr = self.sealed_runs()[i as int];
            let run = {
                let mt = &self.sealed_memtables[i];
                proof {
                    assert(sr == self.sealed_memtables@[i as int]@);
                    assert(self.sealed_memtables@[i as int].wf());
                }
                crate::value::clone_run(mt.run())
            };
            out.push(run);
            proof {
                assert(out@.map_values(|v: Vec<InternalValue>| models(v@)) =~= outv.push(sr));
                crate::merge::lemma_runs_multiset_push(outv, sr);
                assert(self.sealed_runs().take(i + 1) =~= self.sealed_runs().take(
                    i as int,
                ).push(sr));
                crate::merge::lemma_runs_multiset_push(self.sealed_runs().take(i as int), sr);
                assert(runs_multiset(out@.map_values(|v: Vec<InternalValue>| models(v@)))
                    =~= memms.add(runs_multiset(self.sealed_runs().take(i + 1))));
            }
            i = i + 1;
        }
        proof {
            assert(self.sealed_runs().take(self.sealed_runs().len() as int)
                =~= self.sealed_runs());
        }
        let ghost base = memms.add(runs_multiset(self.sealed_runs()));
        let mut segruns = self.levels.all_runs();
        let ghost segfull = segruns@.map_values(|v: Vec<InternalValue>| models(v@));
        let ghost total = segfull.len() as int;
        proof {
            assert(segfull.take(0) =~= Seq::<Seq<EntryModel>>::empty());
            vstd::multiset::lemma_multiset_empty_len(runs_multiset(segfull.take(0)));
            assert(runs_multiset(out@.map_values(|v: Vec<InternalValue>| models(v@)))
                =~= base.add(runs_multiset(segfull.take(0))));
        }
        while segruns.len() > 0
            invariant
                forall|p: int|
                    0 <= p < out@.len() ==> entries_sorted(models((#[trigger] out@[p])@)),
                forall|p: int|
                    0 <= p < segruns@.len() ==> entries_sorted(
                        models((#[trigger] segruns@[p])@),
                    ),
                segruns@.len() <= total,
                segruns@.map_values(|v: Vec<InternalValue>| models(v@)) == segfull.skip(
                    total - segruns@.len(),
                ),
                runs_multiset(out@.map_values(|v: Vec<InternalValue>| models(v@))) == base.add(
                    runs_multiset(segfull.take(total - segruns@.len())),
                ),
                total == segfull.len(),
            decreases segruns@.len(),
        {
            let ghost done = total - segruns@.len();
            let ghost outv = out@.map_values(|v: Vec<InternalValue>| models(v@));
            let ghost svs = segruns@.map_values(|v: Vec<InternalValue>| models(v@));
            let run = segruns.remove(0);
            proof {
                assert(svs[0] == segfull.skip(done)[0]);
                assert(segfull.skip(done)[0] == segfull[done]);
                assert(models(run@) == segfull[done]);
                assert(segruns@.map_values(|v: Vec<InternalValue>| models(v@))
                    =~= svs.drop_first());
                assert(svs.drop_first() =~= segfull.skip(done + 1));
            }
            out.push(run);
            proof {
                assert(out@.map_values(|v: Vec<InternalValue>| models(v@)) =~= outv.push(
                    segfull[done],
                ));
                crate::merge::lemma_runs_multiset_push(outv, segfull[done]);
                assert(segfull.take(done + 1) =~= segfull.take(done).push(segfull[done]));
                crate::merge::lemma_runs_multiset_push(segfull.take(done), segfull[done]);
                assert(runs_multiset(out@.map_values(|v: Vec<InternalValue>| models(v@)))
                    =~= base.add(runs_multiset(segfull.take(done + 1))));
            }
        }
        proof {
            assert(segfull.take(total) =~= segfull);
            assert(runs_multiset(out@.map_values(|v: Vec<InternalValue>| models(v@)))
                =~= self.entries());
        }
        out
    }

    /// Reads the newest visible value of `key` strictly below
    /// `seqno_upper`, following the MVCC rules.
    pub fn get_at(&self, key: &Vec<u8>, seqno_upper: u64) -> (r: Option<Vec<u8>>)
        requires
            self.wf(),
        ensures
            match r {
                Option::Some(v) => lookup_in(self.entries(), key@, seqno_upper) == Some(v@),
                Option::None => lookup_in(self.entries(), key@, seqno_upper) is None,
            },
    {
        broadcast use vstd::multiset::group_multiset_axioms;
        broadcast use vstd::seq_lib::group_to_multiset_ensures;

        let runs = self.gather_runs();
        let merged = crate::merge::merge_runs(&runs);
        let ghost mm = models(merged@);
        let ghost pred = version_pred(key@, seqno_upper);
        let mut chain: Vec<InternalValue> = Vec::new();
        let mut i: usize = 0;
        proof {
            assert(models(chain@) =~= mm.take(0).filter(pred));
        }
        while i < merged.len()
            invariant
                0 <= i <= mm.len(),
                mm == models(merged@),
                pred == version_pred(key@, seqno_upper),
                entries_sorted(mm),
                models(chain@) == mm.take(i as int).filter(pred),
                entries_sorted(models(chain@)),
                forall|p: int, q: int|
                    0 <= p < models(chain@).len() && i <= q < mm.len()
                        ==> #[trigger] crate::value::entry_le(models(chain@)[p], mm[q]),
            decreases mm.len() - i,
        {
            let ghost e = mm[i as int];
            proof {
                assert(e == models(merged@)[i as int]);
                reveal(Seq::filter);
                assert(mm.take(i + 1).drop_last() =~= mm.take(i as int));
                assert(mm.take(i + 1).last() == e);
            }
            let cur = &merged[i];
            if crate::value::bytes_eq(&cur.key.user_key, key) && cur.key.seqno < seqno_upper {
                let ghost cmod = models(chain@);
                chain.push(cur.duplicate());
                proof {
                    assert(pred(e));
                    assert(models(chain@) =~= cmod.push(e));
                }
            } else {
                proof {
                    assert(!pred(e));
                }
            }
            proof {
                assert(models(chain@) =~= mm.take(i + 1).filter(pred));
            }
            i = i + 1;
        }
        let ghost chain_m = models(chain@);
        proof {
            assert(mm.take(mm.len() as int) =~= mm);
            assert(chain_m == mm.filter(pred));
            // The built chain is the canonical sorted run of the visible
            // versions.
            crate::value::lemma_filter_to_multiset(mm, pred);
            assert(chain_m.to_multiset() == self.entries().filter(pred));
            assert(exists|s: Seq<EntryModel>|
                s.to_multiset() == self.entries().filter(pred) && #[trigger] entries_sorted(s));
            let chosen = sorted_run_of(self.entries().filter(pred));
            assert(chosen.to_multiset() == self.entries().filter(pred)
                && entries_sorted(chosen));
            crate::value::lemma_entry_le_total_ordering();
            crate::value::lemma_entries_sorted_is_sorted_by(chosen);
            crate::value::lemma_entries_sorted_is_sorted_by(chain_m);
            vstd::seq_lib::lemma_sorted_unique(
                chosen,
                chain_m,
                crate::value::entry_order(),
            );
            assert(chosen == chain_m);
        }
        let mut stream = crate::mvcc_stream::MvccStream::new(chain);
        let head = stream.next();
        match head {
            Option::Some(winner) => {
                proof {
                    assert(collapse(chain_m)[0] == winner@);
                }
                if matches!(winner.key.value_type, ValueType::Value) {
                    Some(winner.value)
                } else {
                    None
                }
            }
            Option::None => {
                proof {
                    assert(collapse(chain_m).len() == 0);
                }
                None
            }
        }
    }

    /// Reads the newest visible value of `key`.
    pub fn get(&self, key: &Vec<u8>) -> (r: Option<Vec<u8>>)
        requires
            self.wf(),
        ensures
            match r {
                Option::Some(v) => lookup_in(self.entries(), key@, self.next_seqno) == Some(v@),
                Option::None => lookup_in(self.entries(), key@, self.next_seqno) is None,
            },
    {
        self.get_at(key, self.next_seqno)
    }

    /// True iff `key` has a visible value.
    pub fn contains_key(&self, key: &Vec<u8>) -> (r: bool)
        requires
            self.wf(),
        ensures
            r == (lookup_in(self.entries(), key@, self.next_seqno) is Some),
    {
        let got = self.get(key);
        match got {
            Option::Some(_) => true,
            Option::None => false,
        }
    }

    /// Inserts a value for `key`, stamped `seqno`.
    pub fn insert(&mut self, key: Vec<u8>, value: Vec<u8>, seqno: u64)
        requires
            old(self).wf(),
            key@.len() > 0,
            value@.len() <= u32::MAX,
            seqno < u64::MAX,
        ensures
            final(self).wf(),
            final(self).id == old(self).id,
            final(self).config == old(self).config,
            final(self).sealed_memtables == old(self).sealed_memtables,
            final(self).levels == old(self).levels,
            final(self).segment_id_counter == old(self).segment_id_counter,
            final(self).open_snapshots == old(self).open_snapshots,
            final(self).stop_signal == old(self).stop_signal,
            final(self).active_memtable@.to_multiset() == old(self).active_memtable@.filter(
                |e: EntryModel| !same_version(
                    e,
                    entry_model(key@, value@, seqno, ValueType::Value),
                ),
            ).to_multiset().insert(entry_model(key@, value@, seqno, ValueType::Value)),
            final(self).next_seqno == if seqno + 1 > old(self).next_seqno {
                seqno + 1
            } else {
                old(self).next_seqno as int
            },
    {
        self.put(key, value, seqno, ValueType::Value)
    }

    /// Deletes `key` at `seqno`: a plain tombstone shadows every older
    /// version.
    pub fn remove(&mut self, key: Vec<u8>, seqno: u64)
        requires
            old(self).wf(),
            key@.len() > 0,
            seqno < u64::MAX,
        ensures
            final(self).wf(),
            final(self).id == old(self).id,
            final(self).config == old(self).config,
            final(self).sealed_memtables == old(self).sealed_memtables,
            final(self).levels == old(self).levels,
            final(self).segment_id_counter == old(self).segment_id_counter,
            final(self).open_snapshots == old(self).open_snapshots,
            final(self).stop_signal == old(self).stop_signal,
            final(self).active_memtable@.to_multiset() == old(self).active_memtable@.filter(
                |e: EntryModel| !same_version(
                    e,
                    entry_model(key@, Seq::empty(), seqno, ValueType::Tombstone),
                ),
            ).to_multiset().insert(
                entry_model(key@, Seq::empty(), seqno, ValueType::Tombstone),
            ),
            final(self).next_seqno == if seqno + 1 > old(self).next_seqno {
                seqno + 1
            } else {
                old(self).next_seqno as int
            },
    {
        let value = Vec::new();
        proof {
            assert(value@ =~= Seq::<u8>::empty());
        }
        self.put(key, value, seqno, ValueType::Tombstone)
    }

    /// Weakly deletes `key` at `seqno`: the weak tombstone cancels exactly
    /// one older value.
    pub fn remove_weak(&mut self, key: Vec<u8>, seqno: u64)
        requires
            old(self).wf(),
            key@.len() > 0,
            seqno < u64::MAX,
        ensures
            final(self).wf(),
            final(self).id == old(self).id,
            final(self).config == old(self).config,
            final(self).sealed_memtables == old(self).sealed_memtables,
            final(self).levels == old(self).levels,
            final(self).segment_id_counter == old(self).segment_id_counter,
            final(self).open_snapshots == old(self).open_snapshots,
            final(self).stop_signal == old(self).stop_signal,
            final(self).active_memtable@.to_multiset() == old(self).active_memtable@.filter(
                |e: EntryModel| !same_version(
                    e,
                    entry_model(key@, Seq::empty(), seqno, ValueType::WeakTombstone),
                ),
            ).to_multiset().insert(
                entry_model(key@, Seq::empty(), seqno, ValueType::WeakTombstone),
            ),
            final(self).next_seqno == if seqno + 1 > old(self).next_seqno {
                seqno + 1
            } else {
                old(self).next_seqno as int
            },
    {
        let value = Vec::new();
        proof {
            assert(value@ =~= Seq::<u8>::empty());
        }
        self.put(key, value, seqno, ValueType::WeakTombstone)
    }
}

/// One end of a key range.
pub enum KeyBound {
    Unbounded,
    Included(Vec<u8>),
    Excluded(Vec<u8>),
}

/// Mathematical image of a range end.
pub ghost enum KeyBoundModel {
    Unbounded,
    Included(Seq<u8>),
    Excluded(Seq<u8>),
}

impl View for KeyBound {
    type V = KeyBoundModel;

    open spec fn view(&self) -> KeyBoundModel {
        match self {
            KeyBound::Unbounded => KeyBoundModel::Unbounded,
            KeyBound::Included(b) => KeyBoundModel::Included(b@),
            KeyBound::Excluded(b) => KeyBoundModel::Excluded(b@),
        }
    }
}

/// Whether `k` lies between the two range ends.
pub open spec fn in_key_range(k: Seq<u8>, lo: KeyBoundModel, hi: KeyBoundModel) -> bool {
    &&& match lo {
        KeyBoundModel::Unbounded => true,
        KeyBoundModel::Included(b) => crate::value::lex_le(b, k),
        KeyBoundModel::Excluded(b) => crate::value::lex_lt(b, k),
    }
    &&& match hi {
        KeyBoundModel::Unbounded => true,
        KeyBoundModel::Included(b) => crate::value::lex_le(k, b),
        KeyBoundModel::Excluded(b) => crate::value::lex_lt(k, b),
    }
}

/// Whether `k` lies between the two range ends, executably.
fn in_key_range_exec(k: &Vec<u8>, lo: &KeyBound, hi: &KeyBound) -> (r: bool)
    ensures
        r == in_key_range(k@, lo@, hi@),
{
    let lo_ok = match lo {
        KeyBound::Unbounded => true,
        KeyBound::Included(b) => crate::value::bytes_cmp(b, k) != 1,
        KeyBound::Excluded(b) => crate::value::bytes_cmp(b, k) == -1,
    };
    proof {
        if let KeyBoundModel::Included(b) = lo@ {
            crate::value::lemma_lex_le_refl(b);
            crate::value::lemma_lex_le_connected(b, k@);
            if crate::value::lex_le(b, k@) && crate::value::lex_le(k@, b) {
                crate::value::lemma_lex_le_antisym(b, k@);
            }
        }
    }
    let hi_ok = match hi {
        KeyBound::Unbounded => true,
        KeyBound::Included(b) => crate::value::bytes_cmp(k, b) != 1,
        KeyBound::Excluded(b) => crate::value::bytes_cmp(k, b) == -1,
    };
    proof {
        if let KeyBoundModel::Included(b) = hi@ {
            crate::value::lemma_lex_le_refl(k@);
            crate::value::lemma_lex_le_connected(k@, b);
            if crate::value::lex_le(k@, b) && crate::value::lex_le(b, k@) {
                crate::value::lemma_lex_le_antisym(k@, b);
            }
        }
    }
    lo_ok && hi_ok
}

/// True iff `k` starts with `p`.
fn starts_with(k: &Vec<u8>, p: &Vec<u8>) -> (r: bool)
    ensures
        r == p@.is_prefix_of(k@),
{
    if p.len() > k.len() {
        proof {
            assert(!p@.is_prefix_of(k@));
        }
        return false;
    }
    let mut i: usize = 0;
    while i < p.len()
        invariant
            0 <= i <= p@.len() <= k@.len(),
            forall|j: int| 0 <= j < i ==> p@[j] == k@[j],
        decreases p@.len() - i,
    {
        if p[i] != k[i] {
            proof {
                assert(k@.subrange(0, p@.len() as int)[i as int] != p@[i as int]);
                assert(!p@.is_prefix_of(k@));
            }
            return false;
        }
        i = i + 1;
    }
    proof {
        assert(p@ =~= k@.subrange(0, p@.len() as int));
    }
    true
}

/// The runs among `rs` that hold at least one entry; empty buffers are
/// not written out as segments.
pub open spec fn live_runs(rs: Seq<Seq<EntryModel>>) -> Seq<Seq<EntryModel>> {
    rs.filter(|r: Seq<EntryModel>| r.len() > 0)
}

proof fn lemma_reverse_push<A>(s: Seq<A>, x: A)
    ensures
        s.push(x).reverse() == seq![x] + s.reverse(),
{
    assert(s.push(x).reverse() =~= seq![x] + s.reverse());
}

/// The visible key-value pairs of a set of entries, in ascending key
/// order: the live winners of every key's version chain.
pub open spec fn visible_items(m: Multiset<EntryModel>) -> Seq<(Seq<u8>, Seq<u8>)> {
    crate::compaction::live_only(collapse(sorted_run_of(m))).map_values(
        |e: EntryModel| (e.user_key, e.value),
    )
}

impl Tree {
    /// The visible key-value pairs in ascending key order; the
    /// materialized form of a full forward scan.
    pub fn iter(&self) -> (r: Vec<(Vec<u8>, Vec<u8>)>)
        requires
            self.wf(),
        ensures
            r@.map_values(|p: (Vec<u8>, Vec<u8>)| (p.0@, p.1@)) == visible_items(self.entries()),
    {
        broadcast use vstd::multiset::group_multiset_axioms;
        broadcast use vstd::seq_lib::group_to_multiset_ensures;

        let ghost livep = |e: EntryModel| e.value_type == ValueType::Value;
        let ghost pairf = |e: EntryModel| (e.user_key, e.value);
        let runs = self.gather_runs();
        let merged = crate::merge::merge_runs(&runs);
        let ghost mm = models(merged@);
        proof {
            assert(exists|s: Seq<EntryModel>|
                s.to_multiset() == self.entries() && #[trigger] entries_sorted(s));
            let chosen = sorted_run_of(self.entries());
            assert(chosen.to_multiset() == self.entries() && entries_sorted(chosen));
            crate::value::lemma_entry_le_total_ordering();
            crate::value::lemma_entries_sorted_is_sorted_by(chosen);
            crate::value::lemma_entries_sorted_is_sorted_by(mm);
            vstd::seq_lib::lemma_sorted_unique(chosen, mm, crate::value::entry_order());
            assert(sorted_run_of(self.entries()) == mm);
        }
        let mut stream = crate::mvcc_stream::MvccStream::new(merged);
        let mut out: Vec<(Vec<u8>, Vec<u8>)> = Vec::new();
        let ghost emitted: Seq<EntryModel> = Seq::empty();
        let ghost mut emitted = emitted;
        proof {
            reveal(Seq::filter);
            assert(collapse(mm) =~= emitted + collapse(stream@));
            assert(out@.map_values(|p: (Vec<u8>, Vec<u8>)| (p.0@, p.1@)) =~= emitted.filter(
                livep,
            ).map_values(pairf));
        }
        loop
            invariant
                stream.wf(),
                livep == (|e: EntryModel| e.value_type == ValueType::Value),
                pairf == (|e: EntryModel| (e.user_key, e.value)),
                mm == sorted_run_of(self.entries()),
                collapse(mm) == emitted + collapse(stream@),
                out@.map_values(|p: (Vec<u8>, Vec<u8>)| (p.0@, p.1@)) == emitted.filter(
                    livep,
                ).map_values(pairf),
            decreases collapse(stream@).len(),
        {
            let got = stream.next();
            match got {
                Option::Some(winner) => {
                    let ghost before = emitted;
                    proof {
                        emitted = emitted.push(winner@);
                        assert(collapse(mm) =~= emitted + collapse(stream@));
                        reveal(Seq::filter);
                        assert(emitted.drop_last() =~= before);
                        assert(emitted.last() == winner@);
                    }
                    if matches!(winner.key.value_type, ValueType::Value) {
                        let ghost om = out@.map_values(|p: (Vec<u8>, Vec<u8>)| (p.0@, p.1@));
                        out.push((winner.key.user_key, winner.value));
                        proof {
                            assert(out@.map_values(|p: (Vec<u8>, Vec<u8>)| (p.0@, p.1@))
                                =~= om.push((winner@.user_key, winner@.value)));
                            assert(emitted.filter(livep) =~= before.filter(livep).push(winner@));
                            assert(emitted.filter(livep).map_values(pairf) =~= before.filter(
                                livep,
                            ).map_values(pairf).push(pairf(winner@)));
                        }
                    } else {
                        proof {
                            assert(emitted.filter(livep) =~= before.filter(livep));
                        }
                    }
                }
                Option::None => {
                    proof {
                        assert(collapse(mm) =~= emitted);
                        assert(visible_items(self.entries()) == collapse(mm).filter(
                            livep,
                        ).map_values(pairf));
                    }
                    return out;
                }
            }
        }
    }

    /// The visible key-value pairs whose keys lie in the given range, in
    /// ascending key order.
    pub fn range(&self, lo: &KeyBound, hi: &KeyBound) -> (r: Vec<(Vec<u8>, Vec<u8>)>)
        requires
            self.wf(),
        ensures
            r@.map_values(|p: (Vec<u8>, Vec<u8>)| (p.0@, p.1@)) == visible_items(
                self.entries(),
            ).filter(|p: (Seq<u8>, Seq<u8>)| in_key_range(p.0, lo@, hi@)),
    {
        let ghost pred = |p: (Seq<u8>, Seq<u8>)| in_key_range(p.0, lo@, hi@);
        let items = self.iter();
        let ghost im = items@.map_values(|p: (Vec<u8>, Vec<u8>)| (p.0@, p.1@));
        let mut out: Vec<(Vec<u8>, Vec<u8>)> = Vec::new();
        let mut i: usize = 0;
        proof {
            assert(out@.map_values(|p: (Vec<u8>, Vec<u8>)| (p.0@, p.1@)) =~= im.take(0).filter(
                pred,
            ));
        }
        while i < items.len()
            invariant
                0 <= i <= items@.len(),
                im == items@.map_values(|p: (Vec<u8>, Vec<u8>)| (p.0@, p.1@)),
                pred == (|p: (Seq<u8>, Seq<u8>)| in_key_range(p.0, lo@, hi@)),
                out@.map_values(|p: (Vec<u8>, Vec<u8>)| (p.0@, p.1@)) == im.take(
                    i as int,
                ).filter(pred),
            decreases items@.len() - i,
        {
            let ghost e = im[i as int];
            proof {
                assert(e == (items@[i as int].0@, items@[i as int].1@));
                reveal(Seq::filter);
                assert(im.take(i + 1).drop_last() =~= im.take(i as int));
                assert(im.take(i + 1).last() == e);
            }
            let item = &items[i];
            if in_key_range_exec(&item.0, lo, hi) {
                let ghost om = out@.map_values(|p: (Vec<u8>, Vec<u8>)| (p.0@, p.1@));
                out.push((crate::value::clone_bytes(&item.0), crate::value::clone_bytes(&item.1)));
                proof {
                    assert(pred(e));
                    assert(out@.map_values(|p: (Vec<u8>, Vec<u8>)| (p.0@, p.1@)) =~= om.push(e));
                }
            } else {
                proof {
                    assert(!pred(e));
                }
            }
            proof {
                assert(out@.map_values(|p: (Vec<u8>, Vec<u8>)| (p.0@, p.1@)) =~= im.take(
                    i + 1,
                ).filter(pred));
            }
            i = i + 1;
        }
        proof {
            assert(im.take(im.len() as int) =~= im);
        }
        out
    }

    /// The visible key-value pairs whose keys start with `p`, in ascending
    /// key order.
    pub fn prefix(&self, p: &Vec<u8>) -> (r: Vec<(Vec<u8>, Vec<u8>)>)
        requires
            self.wf(),
        ensures
            r@.map_values(|q: (Vec<u8>, Vec<u8>)| (q.0@, q.1@)) == visible_items(
                self.entries(),
            ).filter(|q: (Seq<u8>, Seq<u8>)| p@.is_prefix_of(q.0)),
    {
        let ghost pred = |q: (Seq<u8>, Seq<u8>)| p@.is_prefix_of(q.0);
        let items = self.iter();
        let ghost im = items@.map_values(|q: (Vec<u8>, Vec<u8>)| (q.0@, q.1@));
        let mut out: Vec<(Vec<u8>, Vec<u8>)> = Vec::new();
        let mut i: usize = 0;
        proof {
            assert(out@.map_values(|q: (Vec<u8>, Vec<u8>)| (q.0@, q.1@)) =~= im.take(0).filter(
                pred,
            ));
        }
        while i < items.len()
            invariant
                0 <= i <= items@.len(),
                im == items@.map_values(|q: (Vec<u8>, Vec<u8>)| (q.0@, q.1@)),
                pred == (|q: (Seq<u8>, Seq<u8>)| p@.is_prefix_of(q.0)),
                out@.map_values(|q: (Vec<u8>, Vec<u8>)| (q.0@, q.1@)) == im.take(
                    i as int,
                ).filter(pred),
            decreases items@.len() - i,
        {
            let ghost e = im[i as int];
            proof {
                assert(e == (items@[i as int].0@, items@[i as int].1@));
                reveal(Seq::filter);
                assert(im.take(i + 1).drop_last() =~= im.take(i as int));
                assert(im.take(i + 1).last() == e);
            }
            let item = &items[i];
            if starts_with(&item.0, p) {
                let ghost om = out@.map_values(|q: (Vec<u8>, Vec<u8>)| (q.0@, q.1@));
                out.push((crate::value::clone_bytes(&item.0), crate::value::clone_bytes(&item.1)));
                proof {
                    assert(pred(e));
                    assert(out@.map_values(|q: (Vec<u8>, Vec<u8>)| (q.0@, q.1@)) =~= om.push(e));
                }
            } else {
                proof {
                    assert(!pred(e));
                }
            }
            proof {
                assert(out@.map_values(|q: (Vec<u8>, Vec<u8>)| (q.0@, q.1@)) =~= im.take(
                    i + 1,
                ).filter(pred));
            }
            i = i + 1;
        }
        proof {
            assert(im.take(im.len() as int) =~= im);
        }
        out
    }

    /// Number of visible keys.
    pub fn len(&self) -> (r: usize)
        requires
            self.wf(),
        ensures
            r == visible_items(self.entries()).len(),
    {
        let items = self.iter();
        proof {
            assert(items@.map_values(|p: (Vec<u8>, Vec<u8>)| (p.0@, p.1@)).len() == items@.len());
        }
        items.len()
    }

    /// True iff no key is visible.
    pub fn is_empty(&self) -> (r: bool)
        requires
            self.wf(),
        ensures
            r == (visible_items(self.entries()).len() == 0),
    {
        self.len() == 0
    }

    /// The first visible key-value pair in key order.
    pub fn first_key_value(&self) -> (r: Option<(Vec<u8>, Vec<u8>)>)
        requires
            self.wf(),
        ensures
            match r {
                Option::Some(p) => visible_items(self.entries()).len() > 0 && visible_items(
                    self.entries(),
                )[0] == (p.0@, p.1@),
                Option::None => visible_items(self.entries()).len() == 0,
            },
    {
        let mut items = self.iter();
        if items.len() == 0 {
            None
        } else {
            proof {
                assert(items@.map_values(|p: (Vec<u8>, Vec<u8>)| (p.0@, p.1@))[0] == (
                    items@[0].0@,
                    items@[0].1@,
                ));
            }
            Some(items.remove(0))
        }
    }

    /// The last visible key-value pair in key order.
    pub fn last_key_value(&self) -> (r: Option<(Vec<u8>, Vec<u8>)>)
        requires
            self.wf(),
        ensures
            match r {
                Option::Some(p) => visible_items(self.entries()).len() > 0 && visible_items(
                    self.entries(),
                ).last() == (p.0@, p.1@),
                Option::None => visible_items(self.entries()).len() == 0,
            },
    {
        let mut items = self.iter();
        let n = items.len();
        if n == 0 {
            None
        } else {
            proof {
                assert(items@.map_values(|p: (Vec<u8>, Vec<u8>)| (p.0@, p.1@))[n - 1] == (
                    items@[n - 1].0@,
                    items@[n - 1].1@,
                ));
            }
            items.pop()
        }
    }

    /// Seals the active buffer into the queue, then writes every sealed
    /// buffer out as a level-zero segment, oldest first, so the youngest
    /// run ends up at the head of level zero.
    ///
    /// No observable read changes: every read is a function of
    /// `entries()` and `next_seqno`, and both are preserved.
    pub fn flush_active_memtable(&mut self)
        requires
            old(self).wf(),
            old(self).segment_id_counter + old(self).sealed_memtables@.len() + 1 <= u64::MAX,
        ensures
            final(self).wf(),
            final(self).entries() == old(self).entries(),
            final(self).id == old(self).id,
            final(self).config == old(self).config,
            final(self).next_seqno == old(self).next_seqno,
            final(self).open_snapshots == old(self).open_snapshots,
            final(self).stop_signal == old(self).stop_signal,
            final(self).active_memtable@.len() == 0,
            final(self).sealed_memtables@.len() == 0,
            old(self).segment_id_counter <= final(self).segment_id_counter,
            final(self).segment_id_counter <= old(self).segment_id_counter + old(
                self,
            ).sealed_memtables@.len() + 1,
            final(self).levels@.levels.len() == old(self).levels@.levels.len(),
            forall|l: int|
                1 <= l < old(self).levels@.levels.len() ==> final(self).levels@.levels[l]
                    == old(self).levels@.levels[l],
            crate::levels::runs_of(final(self).levels@.levels[0]) == live_runs(
                old(self).sealed_runs().push(old(self).active_memtable@),
            ).reverse() + crate::levels::runs_of(old(self).levels@.levels[0]),
    {
        broadcast use vstd::multiset::group_multiset_axioms;
        broadcast use vstd::seq_lib::group_to_multiset_ensures;

        let ghost all = old(self).sealed_runs().push(old(self).active_memtable@);
        let ghost base_l0 = old(self).levels@.levels[0];
        // Seal the active buffer.
        let mut fresh = Memtable::new();
        std::mem::swap(&mut fresh, &mut self.active_memtable);
        self.sealed_memtables.push(fresh);
        proof {
            assert(self.sealed_runs() =~= old(self).sealed_runs().push(old(
                self,
            ).active_memtable@));
            crate::merge::lemma_runs_multiset_push(
                old(self).sealed_runs(),
                old(self).active_memtable@,
            );
            assert(self.active_memtable@.to_multiset().len() == 0);
            vstd::multiset::lemma_multiset_empty_len(self.active_memtable@.to_multiset());
            assert(self.entries() =~= old(self).entries());
            assert forall|e: EntryModel| #[trigger] self.entries().count(e) > 0 implies e.seqno
                < self.next_seqno by {
                assert(old(self).entries().count(e) == self.entries().count(e));
            }
            assert(self.sealed_runs() =~= all.skip(0));
            reveal(Seq::filter);
            assert(all.take(0) =~= Seq::<Seq<EntryModel>>::empty());
            assert(live_runs(all.take(0)) == Seq::<Seq<EntryModel>>::empty());
            assert(live_runs(all.take(0)).reverse() =~= Seq::<Seq<EntryModel>>::empty());
            assert(crate::levels::runs_of(self.levels@.levels[0]) =~= live_runs(
                all.take(0),
            ).reverse() + crate::levels::runs_of(base_l0));
        }
        // Flush the queue, oldest first.
        while self.sealed_memtables.len() > 0
            invariant
                self.wf(),
                self.entries() == old(self).entries(),
                self.id == old(self).id,
                self.config == old(self).config,
                self.next_seqno == old(self).next_seqno,
                self.open_snapshots == old(self).open_snapshots,
                self.stop_signal == old(self).stop_signal,
                self.active_memtable@.len() == 0,
                old(self).segment_id_counter <= self.segment_id_counter,
                self.segment_id_counter <= old(self).segment_id_counter + (all.len()
                    - self.sealed_memtables@.len()),
                self.segment_id_counter + self.sealed_memtables@.len() <= u64::MAX,
                all == old(self).sealed_runs().push(old(self).active_memtable@),
                base_l0 == old(self).levels@.levels[0],
                self.sealed_memtables@.len() <= all.len(),
                self.sealed_runs() == all.skip(all.len() - self.sealed_memtables@.len()),
                self.levels@.levels.len() == old(self).levels@.levels.len(),
                forall|l: int|
                    1 <= l < self.levels@.levels.len() ==> self.levels@.levels[l]
                        == old(self).levels@.levels[l],
                crate::levels::runs_of(self.levels@.levels[0]) == live_runs(
                    all.take(all.len() - self.sealed_memtables@.len()),
                ).reverse() + crate::levels::runs_of(base_l0),
            decreases self.sealed_memtables@.len(),
        {
            let ghost pre = *self;
            let mut mt = self.sealed_memtables.remove(0);
            let ghost mtm = mt@;
            let ghost done = all.len() - pre.sealed_memtables@.len();
            proof {
                assert(pre.sealed_memtables@[0].wf());
                assert(mtm == pre.sealed_runs()[0]);
                assert(self.sealed_runs() =~= pre.sealed_runs().drop_first());
                assert(runs_multiset(pre.sealed_runs()) == mtm.to_multiset().add(
                    runs_multiset(self.sealed_runs()),
                ));
                assert(pre.sealed_runs()[0] == all.skip(done)[0]);
                assert(all.skip(done)[0] == all[done]);
                assert(mtm == all[done]);
                assert(self.sealed_runs() =~= all.skip(done + 1));
                reveal(Seq::filter);
                assert(all.take(done + 1).drop_last() =~= all.take(done));
                assert(all.take(done + 1).last() == all[done]);
            }
            let run = mt.drain();
            if run.len() > 0 {
                let id = self.segment_id_counter;
                self.segment_id_counter = self.segment_id_counter + 1;
                let ghost mid = *self;
                let seg = crate::levels::Segment::new(id, run);
                proof {
                    assert(!man_has_id(mid.levels@, id)) by {
                        if man_has_id(mid.levels@, id) {
                            assert(id < mid.segment_id_counter - 1);
                        }
                    }
                }
                let ok = self.levels.insert_into_level(0, seg);
                proof {
                    assert(ok);
                    assert(man_entries_ms(self.levels@) == man_entries_ms(mid.levels@).add(
                        mtm.to_multiset(),
                    ));
                    assert forall|e: EntryModel| true implies #[trigger] self.entries().count(e)
                        == old(self).entries().count(e) by {
                        assert(pre.entries().count(e) == old(self).entries().count(e));
                    }
                    assert(self.entries() =~= old(self).entries());
                    assert forall|e: EntryModel| #[trigger] self.entries().count(e)
                        > 0 implies e.seqno < self.next_seqno by {
                        assert(old(self).entries().count(e) == self.entries().count(e));
                    }
                    assert forall|id2: u64| #[trigger] man_has_id(self.levels@, id2) implies id2
                        < self.segment_id_counter by {
                        if id2 != id {
                            crate::levels::lemma_insert_preserves_others(
                                mid.levels@,
                                0,
                                seg@,
                                id2,
                            );
                            assert(man_has_id(mid.levels@, id2));
                        }
                    }
                    // The flushed run takes the head of level zero.
                    reveal(Seq::filter);
                    assert(mtm.len() > 0);
                    assert(live_runs(all.take(done + 1)) == live_runs(all.take(done)).push(mtm));
                    lemma_reverse_push(live_runs(all.take(done)), mtm);
                    assert(self.levels@.levels[0] == mid.levels@.levels[0].insert(0, seg@));
                    assert(crate::levels::runs_of(self.levels@.levels[0]) =~= seq![mtm]
                        + crate::levels::runs_of(mid.levels@.levels[0]));
                    assert(crate::levels::runs_of(self.levels@.levels[0]) =~= live_runs(
                        all.take(done + 1),
                    ).reverse() + crate::levels::runs_of(base_l0));
                    assert forall|l: int|
                        1 <= l < self.levels@.levels.len() implies self.levels@.levels[l]
                        == old(self).levels@.levels[l] by {
                        assert(self.levels@.levels[l] == mid.levels@.levels[l]);
                    }
                }
            } else {
                proof {
                    broadcast use vstd::multiset::group_multiset_axioms;
                    broadcast use vstd::seq_lib::group_to_multiset_ensures;

                    assert(mtm.len() == 0);
                    assert(mtm.to_multiset().len() == 0);
                    vstd::multiset::lemma_multiset_empty_len(mtm.to_multiset());
                    assert forall|e: EntryModel| true implies #[trigger] self.entries().count(e)
                        == old(self).entries().count(e) by {
                        assert(pre.entries().count(e) == old(self).entries().count(e));
                    }
                    assert(self.entries() =~= old(self).entries());
                    assert forall|e: EntryModel| #[trigger] self.entries().count(e)
                        > 0 implies e.seqno < self.next_seqno by {
                        assert(old(self).entries().count(e) == self.entries().count(e));
                    }
                    // An empty buffer leaves no segment behind.
                    reveal(Seq::filter);
                    assert(mtm.len() == 0);
                    assert(live_runs(all.take(done + 1)) == live_runs(all.take(done)));
                }
            }
        }
        proof {
            assert(all.take(all.len() as int) =~= all);
        }
    }

    /// Merges every segment of the tree into the deepest level.  Only
    /// when no snapshot is open may the merge evict old versions and, at
    /// the deepest level, tombstones; with a snapshot open every entry
    /// survives, so every read — at any snapshot bound — is unchanged.
    pub fn major_compact(&mut self, target_size: u64) -> (r: Result<
        crate::compaction::CompactionOutcome,
        crate::compaction::CompactionError,
    >)
        requires
            old(self).wf(),
            old(self).segment_id_counter + old(self).entries().len() <= u64::MAX,
        ensures
            final(self).wf(),
            final(self).id == old(self).id,
            final(self).config == old(self).config,
            final(self).active_memtable == old(self).active_memtable,
            final(self).sealed_memtables == old(self).sealed_memtables,
            final(self).next_seqno == old(self).next_seqno,
            final(self).open_snapshots == old(self).open_snapshots,
            final(self).stop_signal == old(self).stop_signal,
            old(self).stop_signal ==> *final(self) == *old(self),
            r is Ok,
            old(self).open_snapshots > 0 ==> final(self).entries() == old(self).entries(),
            match r {
                Result::Ok(o) => {
                    &&& (o.evicted_old_versions ==> old(self).open_snapshots == 0)
                    &&& (o.evicted_tombstones ==> old(self).open_snapshots == 0)
                    &&& ((!o.evicted_old_versions && !o.evicted_tombstones)
                        ==> final(self).entries() == old(self).entries())
                    &&& crate::compaction::ids_distinct(o.obsolete_segment_ids@)
                    &&& man_entries_ms(final(self).levels@).add(
                        crate::compaction::ids_entries(
                            old(self).levels@,
                            o.obsolete_segment_ids@,
                        ).to_multiset(),
                    ) == man_entries_ms(old(self).levels@).add(
                        crate::compaction::ids_entries(
                            final(self).levels@,
                            o.created_segment_ids@,
                        ).to_multiset(),
                    )
                    &&& crate::compaction::ids_entries(
                        final(self).levels@,
                        o.created_segment_ids@,
                    ) == crate::compaction::compaction_stream(
                        crate::compaction::ids_entries(
                            old(self).levels@,
                            o.obsolete_segment_ids@,
                        ),
                        o.evicted_old_versions,
                        o.evicted_tombstones,
                    )
                    &&& forall|i: int|
                        0 <= i < o.obsolete_segment_ids@.len() ==> !man_has_id(
                            final(self).levels@,
                            #[trigger] o.obsolete_segment_ids@[i],
                        )
                    &&& forall|i: int|
                        0 <= i < o.created_segment_ids@.len() ==> man_has_id(
                            final(self).levels@,
                            #[trigger] o.created_segment_ids@[i],
                        )
                    &&& !old(self).stop_signal ==> {
                        &&& o.dest_level == old(self).levels@.levels.len() - 1
                        &&& o.evicted_tombstones == (old(self).open_snapshots == 0)
                        &&& o.evicted_old_versions == (old(self).open_snapshots == 0
                            && o.dest_level >= 2)
                        &&& forall|id: u64|
                            #[trigger] man_has_id(old(self).levels@, id)
                                ==> o.obsolete_segment_ids@.contains(id)
                        &&& forall|i: int|
                            0 <= i < o.obsolete_segment_ids@.len() ==> man_has_id(
                                old(self).levels@,
                                #[trigger] o.obsolete_segment_ids@[i],
                            )
                        &&& forall|j: int|
                            0 <= j < o.created_segment_ids@.len()
                                ==> #[trigger] o.created_segment_ids@[j] == old(
                                self,
                            ).segment_id_counter + j
                        &&& final(self).segment_id_counter == old(self).segment_id_counter
                            + o.created_segment_ids@.len()
                        &&& forall|j: int|
                            0 <= j < o.created_segment_ids@.len() - 1
                                ==> crate::compaction::run_size(
                                crate::levels::seg_of(
                                    final(self).levels@,
                                    #[trigger] o.created_segment_ids@[j],
                                ).items,
                            ) >= target_size
                    }
                },
                Result::Err(_) => *final(self) == *old(self),
            },
    {
        broadcast use vstd::multiset::group_multiset_axioms;
        broadcast use vstd::seq_lib::group_to_multiset_ensures;

        let opts = crate::compaction::Options::from_tree(
            self,
            crate::compaction::Strategy::Major { target_size },
        );
        let r = crate::compaction::do_compaction(self, &opts);
        proof {
            if old(self).open_snapshots > 0 {
                assert(man_entries_ms(self.levels@) == man_entries_ms(old(self).levels@));
                assert(self.sealed_runs() == old(self).sealed_runs());
                assert(self.entries() =~= old(self).entries());
            }
            if r is Ok {
                let o = r->Ok_0;
                if !o.evicted_old_versions && !o.evicted_tombstones {
                    // Nothing was evicted: the outputs carry exactly the
                    // inputs' entries, so the manifest's entries are
                    // unchanged as a multiset, and with them every read.
                    let inputs = crate::compaction::ids_entries(
                        old(self).levels@,
                        o.obsolete_segment_ids@,
                    );
                    let outputs = crate::compaction::ids_entries(
                        self.levels@,
                        o.created_segment_ids@,
                    );
                    crate::value::lemma_entry_le_total_ordering();
                    inputs.lemma_sort_by_ensures(crate::value::entry_order());
                    assert(outputs.to_multiset() == inputs.to_multiset());
                    assert forall|e: EntryModel| true implies #[trigger] man_entries_ms(
                        self.levels@,
                    ).count(e) == man_entries_ms(old(self).levels@).count(e) by {
                        assert(man_entries_ms(self.levels@).add(inputs.to_multiset()).count(e)
                            == man_entries_ms(old(self).levels@).add(
                            outputs.to_multiset(),
                        ).count(e));
                    }
                    assert(man_entries_ms(self.levels@) =~= man_entries_ms(old(self).levels@));
                    assert(self.sealed_runs() == old(self).sealed_runs());
                    assert(self.entries() =~= old(self).entries());
                }
            }
        }
        r
    }

    /// Takes the current clock as a read barrier and registers the open
    /// snapshot; reads through the snapshot pass the returned bound to
    /// `get_at`.
    pub fn snapshot(&mut self) -> (r: u64)
        requires
            old(self).wf(),
            old(self).open_snapshots < u64::MAX,
        ensures
            final(self).wf(),
            r == old(self).next_seqno,
            final(self).open_snapshots == old(self).open_snapshots + 1,
            final(self).id == old(self).id,
            final(self).config == old(self).config,
            final(self).active_memtable == old(self).active_memtable,
            final(self).sealed_memtables == old(self).sealed_memtables,
            final(self).levels == old(self).levels,
            final(self).next_seqno == old(self).next_seqno,
            final(self).segment_id_counter == old(self).segment_id_counter,
            final(self).stop_signal == old(self).stop_signal,
    {
        self.open_snapshots = self.open_snapshots + 1;
        proof {
            assert(self.sealed_runs() == old(self).sealed_runs());
            assert(self.entries() == old(self).entries());
        }
        self.next_seqno
    }

    /// Unregisters one open snapshot.
    pub fn release_snapshot(&mut self)
        requires
            old(self).wf(),
            old(self).open_snapshots > 0,
        ensures
            final(self).wf(),
            final(self).open_snapshots == old(self).open_snapshots - 1,
            final(self).id == old(self).id,
            final(self).config == old(self).config,
            final(self).active_memtable == old(self).active_memtable,
            final(self).sealed_memtables == old(self).sealed_memtables,
            final(self).levels == old(self).levels,
            final(self).next_seqno == old(self).next_seqno,
            final(self).segment_id_counter == old(self).segment_id_counter,
            final(self).stop_signal == old(self).stop_signal,
    {
        self.open_snapshots = self.open_snapshots - 1;
        proof {
            assert(self.sealed_runs() == old(self).sealed_runs());
            assert(self.entries() == old(self).entries());
        }
    }
}

/// The chain a lookup collapses is the sorted filter of any run carrying
/// the entries.
pub proof fn lemma_lookup_chain(s: Seq<EntryModel>, k: Seq<u8>, upper: u64)
    ensures
        sorted_run_of(s.to_multiset().filter(version_pred(k, upper))) == s.filter(
            version_pred(k, upper),
        ).sort_by(crate::value::entry_order()),
{
    let pred = version_pred(k, upper);
    let f = s.filter(pred);
    crate::value::lemma_entry_le_total_ordering();
    f.lemma_sort_by_ensures(crate::value::entry_order());
    crate::value::lemma_filter_to_multiset(s, pred);
    let w = f.sort_by(crate::value::entry_order());
    crate::value::lemma_entries_sorted_is_sorted_by(w);
    assert(w.to_multiset() == s.to_multiset().filter(pred));
    assert(entries_sorted(w));
    assert(exists|x: Seq<EntryModel>|
        x.to_multiset() == s.to_multiset().filter(pred) && #[trigger] entries_sorted(x));
    let chosen = sorted_run_of(s.to_multiset().filter(pred));
    assert(chosen.to_multiset() == s.to_multiset().filter(pred) && entries_sorted(chosen));
    crate::value::lemma_entries_sorted_is_sorted_by(chosen);
    vstd::seq_lib::lemma_sorted_unique(chosen, w, crate::value::entry_order());
}

/// The version written above every existing seqno heads the visible
/// chain.
proof fn lemma_top_version_heads_chain(entries: Seq<EntryModel>, top: EntryModel, upper: u64)
    requires
        forall|i: int| 0 <= i < entries.len() ==> (#[trigger] entries[i]).seqno < top.seqno,
        top.seqno < upper,
    ensures
        sorted_run_of(entries.push(top).to_multiset().filter(version_pred(top.user_key, upper)))
            == seq![top] + entries.filter(version_pred(top.user_key, upper)).sort_by(
            crate::value::entry_order(),
        ),
{
    broadcast use vstd::seq_lib::group_to_multiset_ensures;
    broadcast use vstd::multiset::group_multiset_axioms;

    let k = top.user_key;
    let pred = version_pred(k, upper);
    let all = entries.push(top);
    lemma_lookup_chain(all, k, upper);
    reveal(Seq::filter);
    assert(all.drop_last() =~= entries);
    assert(all.last() == top);
    assert(pred(top));
    assert(all.filter(pred) == entries.filter(pred).push(top));
    crate::value::lemma_entry_le_total_ordering();
    let base = entries.filter(pred);
    base.lemma_sort_by_ensures(crate::value::entry_order());
    let sorted_base = base.sort_by(crate::value::entry_order());
    let cand = seq![top] + sorted_base;
    // Every base version shares the key and carries a smaller seqno, so
    // the fresh version goes first.
    assert forall|i: int| 0 <= i < sorted_base.len() implies crate::value::entry_le(
        top,
        #[trigger] sorted_base[i],
    ) by {
        assert(sorted_base.contains(sorted_base[i])) by {
            assert(sorted_base[i] == sorted_base[i]);
        }
        assert(base.to_multiset().count(sorted_base[i]) > 0);
        crate::value::lemma_filter_to_multiset(entries, pred);
        assert(entries.to_multiset().filter(pred).count(sorted_base[i]) > 0);
        assert(pred(sorted_base[i]));
        assert(entries.to_multiset().count(sorted_base[i]) > 0);
        assert(entries.contains(sorted_base[i]));
        let j = choose|j: int| 0 <= j < entries.len() && entries[j] == sorted_base[i];
        assert(entries[j].seqno < top.seqno);
    }
    assert(entries_sorted(cand)) by {
        crate::value::lemma_entries_sorted_is_sorted_by(sorted_base);
        assert forall|p: int, q: int|
            0 <= p < q < cand.len() implies #[trigger] crate::value::entry_le(
            cand[p],
            cand[q],
        ) by {
            if p == 0 {
                assert(cand[q] == sorted_base[q - 1]);
            } else {
                assert(cand[p] == sorted_base[p - 1]);
                assert(cand[q] == sorted_base[q - 1]);
                assert(crate::value::entry_order()(sorted_base[p - 1], sorted_base[q - 1]));
            }
        }
    }
    assert(cand.to_multiset() == all.to_multiset().filter(pred)) by {
        crate::value::lemma_filter_to_multiset(all, pred);
        assert(all.filter(pred).to_multiset() == base.push(top).to_multiset());
        assert(base.push(top).to_multiset() == base.to_multiset().insert(top));
        assert(cand =~= seq![top] + sorted_base);
        vstd::seq_lib::lemma_multiset_commutative(seq![top], sorted_base);
        assert(seq![top] =~= Seq::<EntryModel>::empty().push(top));
        assert(cand.to_multiset() =~= base.to_multiset().insert(top));
    }
    let chosen = sorted_run_of(all.to_multiset().filter(pred));
    crate::value::lemma_entries_sorted_is_sorted_by(cand);
    crate::value::lemma_entries_sorted_is_sorted_by(chosen);
    all.filter(pred).lemma_sort_by_ensures(crate::value::entry_order());
    crate::value::lemma_entries_sorted_is_sorted_by(
        all.filter(pred).sort_by(crate::value::entry_order()),
    );
    vstd::seq_lib::lemma_sorted_unique(
        all.filter(pred).sort_by(crate::value::entry_order()),
        cand,
        crate::value::entry_order(),
    );
}

/// Law: a value inserted above every existing seqno is read back below
/// any higher bound.
pub proof fn lemma_insert_then_get(
    entries: Seq<EntryModel>,
    k: Seq<u8>,
    v: Seq<u8>,
    s: u64,
    upper: u64,
)
    requires
        forall|i: int| 0 <= i < entries.len() ==> (#[trigger] entries[i]).seqno < s,
        s < upper,
    ensures
        lookup_in(
            entries.push(entry_model(k, v, s, ValueType::Value)).to_multiset(),
            k,
            upper,
        ) == Some(v),
{
    let top = entry_model(k, v, s, ValueType::Value);
    lemma_top_version_heads_chain(entries, top, upper);
    let chain = sorted_run_of(
        entries.push(top).to_multiset().filter(version_pred(k, upper)),
    );
    assert(chain[0] == top);
    assert(collapse(chain)[0] == top);
}

/// Law: a plain tombstone written above every existing seqno hides the
/// key.
pub proof fn lemma_remove_then_get(entries: Seq<EntryModel>, k: Seq<u8>, s: u64, upper: u64)
    requires
        forall|i: int| 0 <= i < entries.len() ==> (#[trigger] entries[i]).seqno < s,
        s < upper,
    ensures
        lookup_in(
            entries.push(entry_model(k, Seq::empty(), s, ValueType::Tombstone)).to_multiset(),
            k,
            upper,
        ) is None,
{
    let top = entry_model(k, Seq::empty(), s, ValueType::Tombstone);
    lemma_top_version_heads_chain(entries, top, upper);
    let chain = sorted_run_of(
        entries.push(top).to_multiset().filter(version_pred(k, upper)),
    );
    assert(chain[0] == top);
    assert(collapse(chain)[0] == top);
}

/// Law: a value inserted after a weak delete is read back — the weak
/// tombstone below it cancels nothing newer.
pub proof fn lemma_weak_remove_then_insert(
    entries: Seq<EntryModel>,
    k: Seq<u8>,
    v: Seq<u8>,
    s1: u64,
    s2: u64,
    upper: u64,
)
    requires
        forall|i: int| 0 <= i < entries.len() ==> (#[trigger] entries[i]).seqno < s1,
        s1 < s2,
        s2 < upper,
    ensures
        lookup_in(
            entries.push(entry_model(k, Seq::empty(), s1, ValueType::WeakTombstone)).push(
                entry_model(k, v, s2, ValueType::Value),
            ).to_multiset(),
            k,
            upper,
        ) == Some(v),
{
    let with_weak = entries.push(entry_model(k, Seq::empty(), s1, ValueType::WeakTombstone));
    assert forall|i: int| 0 <= i < with_weak.len() implies (#[trigger] with_weak[i]).seqno
        < s2 by {
        if i < entries.len() {
            assert(with_weak[i] == entries[i]);
        }
    }
    lemma_insert_then_get(with_weak, k, v, s2, upper);
}

/// Law: of two values for one key, the one with the higher seqno wins.
pub proof fn lemma_newer_insert_wins(
    entries: Seq<EntryModel>,
    k: Seq<u8>,
    v1: Seq<u8>,
    v2: Seq<u8>,
    s1: u64,
    s2: u64,
    upper: u64,
)
    requires
        forall|i: int| 0 <= i < entries.len() ==> (#[trigger] entries[i]).seqno < s1,
        s1 < s2,
        s2 < upper,
    ensures
        lookup_in(
            entries.push(entry_model(k, v1, s1, ValueType::Value)).push(
                entry_model(k, v2, s2, ValueType::Value),
            ).to_multiset(),
            k,
            upper,
        ) == Some(v2),
{
    let with_v1 = entries.push(entry_model(k, v1, s1, ValueType::Value));
    assert forall|i: int| 0 <= i < with_v1.len() implies (#[trigger] with_v1[i]).seqno < s2 by {
        if i < entries.len() {
            assert(with_v1[i] == entries[i]);
        }
    }
    lemma_insert_then_get(with_v1, k, v2, s2, upper);
}

/// Law: a compaction that evicts nothing preserves every observable read
/// taken at any snapshot bound: the outputs carry exactly the inputs'
/// entries, so the entries the reads are computed from do not change.
pub proof fn lemma_compaction_preserves_reads(
    before: Multiset<EntryModel>,
    after: Multiset<EntryModel>,
    inputs: Seq<EntryModel>,
    outputs: Seq<EntryModel>,
    k: Seq<u8>,
    upper: u64,
)
    requires
        after.add(inputs.to_multiset()) == before.add(outputs.to_multiset()),
        outputs == crate::compaction::compaction_stream(inputs, false, false),
    ensures
        after == before,
        lookup_in(after, k, upper) == lookup_in(before, k, upper),
{
    broadcast use vstd::multiset::group_multiset_axioms;

    crate::value::lemma_entry_le_total_ordering();
    inputs.lemma_sort_by_ensures(crate::value::entry_order());
    assert(outputs == inputs.sort_by(crate::value::entry_order()));
    assert(outputs.to_multiset() == inputs.to_multiset());
    assert forall|e: EntryModel| true implies #[trigger] after.count(e) == before.count(e) by {
        assert(after.add(inputs.to_multiset()).count(e) == before.add(
            outputs.to_multiset(),
        ).count(e));
        assert(after.add(inputs.to_multiset()).count(e) == after.count(e)
            + inputs.to_multiset().count(e));
        assert(before.add(outputs.to_multiset()).count(e) == before.count(e)
            + outputs.to_multiset().count(e));
    }
    assert(after =~= before);
}

/// A stack of empty levels owns no entries.
proof fn lemma_empty_levels_entries(lv: Seq<Seq<crate::levels::SegmentModel>>)
    requires
        forall|l: int| 0 <= l < lv.len() ==> (#[trigger] lv[l]).len() == 0,
    ensures
        crate::levels::levels_entries_ms(lv) =~= Multiset::<EntryModel>::empty(),
    decreases lv.len(),
{
    broadcast use vstd::multiset::group_multiset_axioms;

    if lv.len() > 0 {
        assert(crate::levels::runs_of(lv[0]) =~= Seq::<Seq<EntryModel>>::empty());
        assert(crate::levels::level_entries_ms(lv[0]) =~= Multiset::<EntryModel>::empty());
        assert forall|l: int| 0 <= l < lv.drop_first().len() implies (#[trigger] lv.drop_first()[l]).len()
            == 0 by {
            assert(lv.drop_first()[l] == lv[l + 1]);
        }
        lemma_empty_levels_entries(lv.drop_first());
    }
}

} // verus!
