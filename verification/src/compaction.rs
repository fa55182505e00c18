//! The compaction worker: consults a strategy, merges the chosen segments
//! into new ones, installs them, and removes the inputs from the manifest.
//! The caller learns which segment folders became obsolete; they may be
//! deleted from disk only after the rewritten manifest is durable, so no
//! durable manifest ever references a missing segment.

use crate::levels::{
    fits_level, man_entries_ms, man_has_id, seg_of, seg_wf, LevelManifest, Segment, SegmentModel,
};
use crate::merge::{merge_runs, runs_multiset};
use crate::mvcc_stream::{leading_key_count, lemma_leading_key_count_facts, skip_key};
use crate::tree::{Config, Tree};
use crate::value::{
    bytes_eq, entries_sorted, entry_le, entry_order, models, EntryModel, InternalValue, ValueType,
};
use vstd::multiset::Multiset;
use vstd::prelude::*;

verus! {

/// Why a compaction did not commit.
#[derive(Clone, Copy, Debug, PartialEq, Eq, Structural)]
pub enum CompactionError {
    /// Installing the merged segments would break a level's disjointness.
    Corruption,
}

/// What a strategy chose to compact.  The id list may carry duplicates or
/// ids of segments that are already gone; the worker resolves it against
/// the manifest before merging.
pub struct Input {
    pub segment_ids: Vec<u64>,
    pub dest_level: usize,
    pub target_size: u64,
}

/// A strategy's decision.
pub enum Choice {
    DoNothing,
    DeleteSegments(Vec<u64>),
    DoCompact(Input),
}

/// Compaction strategies, dispatched by variant.
#[derive(Clone, Copy, Debug, PartialEq, Eq, Structural)]
pub enum Strategy {
    /// Merge every segment of the tree into the deepest level.
    Major { target_size: u64 },
}

/// Ids without repetition.
pub open spec fn ids_distinct(ids: Seq<u64>) -> bool {
    forall|i: int, j: int| 0 <= i < j < ids.len() ==> #[trigger] ids[i] != #[trigger] ids[j]
}

/// Every id names a segment of the manifest.
pub open spec fn ids_present(m: crate::levels::ManifestModel, ids: Seq<u64>) -> bool {
    forall|i: int| 0 <= i < ids.len() ==> man_has_id(m, #[trigger] ids[i])
}

/// The ids a compaction actually works on: the chosen ids with duplicates
/// dropped (the first occurrence stays) and ids absent from the manifest
/// silently skipped.
pub open spec fn resolve_ids(m: crate::levels::ManifestModel, ids: Seq<u64>) -> Seq<u64>
    decreases ids.len(),
{
    if ids.len() == 0 {
        Seq::empty()
    } else {
        let prev = resolve_ids(m, ids.drop_last());
        if man_has_id(m, ids.last()) && !prev.contains(ids.last()) {
            prev.push(ids.last())
        } else {
            prev
        }
    }
}

pub proof fn lemma_resolve_ids_facts(m: crate::levels::ManifestModel, ids: Seq<u64>)
    ensures
        ids_distinct(resolve_ids(m, ids)),
        ids_present(m, resolve_ids(m, ids)),
        forall|x: u64|
            #[trigger] resolve_ids(m, ids).contains(x) == (man_has_id(m, x) && ids.contains(x)),
    decreases ids.len(),
{
    if ids.len() > 0 {
        lemma_resolve_ids_facts(m, ids.drop_last());
        let prev = resolve_ids(m, ids.drop_last());
        let last = ids.last();
        let r = resolve_ids(m, ids);
        if man_has_id(m, last) && !prev.contains(last) {
            assert(ids_distinct(r)) by {
                assert forall|i: int, j: int|
                    0 <= i < j < r.len() implies #[trigger] r[i] != #[trigger] r[j] by {
                    if j == r.len() - 1 {
                        assert(prev.contains(prev[i])) by {
                            assert(prev[i] == prev[i]);
                        }
                    }
                }
            }
            assert(ids_present(m, r)) by {
                assert forall|i: int| 0 <= i < r.len() implies man_has_id(m, #[trigger] r[i]) by {
                    if i < prev.len() {
                        assert(r[i] == prev[i]);
                    }
                }
            }
        }
        assert forall|x: u64| true implies #[trigger] r.contains(x) == (man_has_id(m, x)
            && ids.contains(x)) by {
            assert(ids =~= ids.drop_last().push(last));
            assert(ids.contains(x) == (ids.drop_last().contains(x) || x == last)) by {
                if ids.drop_last().contains(x) {
                    let i = choose|i: int|
                        0 <= i < ids.drop_last().len() && #[trigger] ids.drop_last()[i] == x;
                    assert(ids[i] == x);
                }
                if ids.contains(x) {
                    let i = choose|i: int| 0 <= i < ids.len() && #[trigger] ids[i] == x;
                    if i < ids.len() - 1 {
                        assert(ids.drop_last()[i] == x);
                    }
                }
            }
            if man_has_id(m, last) && !prev.contains(last) {
                assert(r.contains(x) == (prev.contains(x) || x == last)) by {
                    if prev.contains(x) {
                        let i = choose|i: int| 0 <= i < prev.len() && #[trigger] prev[i] == x;
                        assert(r[i] == x);
                    }
                    if r.contains(x) {
                        let i = choose|i: int| 0 <= i < r.len() && #[trigger] r[i] == x;
                        if i < prev.len() {
                            assert(prev[i] == x);
                        }
                    }
                    assert(r[r.len() - 1] == last);
                }
            }
        }
    }
}

/// The runs of the named segments, concatenated in id-list order.
pub open spec fn ids_entries(m: crate::levels::ManifestModel, ids: Seq<u64>) -> Seq<EntryModel>
    decreases ids.len(),
{
    if ids.len() == 0 {
        Seq::empty()
    } else {
        seg_of(m, ids[0]).items + ids_entries(m, ids.drop_first())
    }
}

pub proof fn lemma_ids_entries_push(m: crate::levels::ManifestModel, ids: Seq<u64>, x: u64)
    ensures
        ids_entries(m, ids.push(x)) == ids_entries(m, ids) + seg_of(m, x).items,
    decreases ids.len(),
{
    if ids.len() == 0 {
        assert(ids.push(x)[0] == x);
        assert(ids.push(x).drop_first() =~= Seq::<u64>::empty());
        assert(ids_entries(m, Seq::<u64>::empty()) == Seq::<EntryModel>::empty());
        assert(ids_entries(m, ids.push(x)) == seg_of(m, x).items + Seq::<EntryModel>::empty());
        assert(ids_entries(m, ids.push(x)) =~= ids_entries(m, ids) + seg_of(m, x).items);
    } else {
        assert(ids.push(x)[0] == ids[0]);
        assert(ids.push(x).drop_first() =~= ids.drop_first().push(x));
        lemma_ids_entries_push(m, ids.drop_first(), x);
        assert(ids_entries(m, ids.push(x)) =~= ids_entries(m, ids) + seg_of(m, x).items);
    }
}

/// If two manifests agree on the named segments, they agree on the
/// concatenated runs.
pub proof fn lemma_ids_entries_congruent(
    m1: crate::levels::ManifestModel,
    m2: crate::levels::ManifestModel,
    ids: Seq<u64>,
)
    requires
        forall|i: int| 0 <= i < ids.len() ==> seg_of(m1, #[trigger] ids[i]) == seg_of(m2, ids[i]),
    ensures
        ids_entries(m1, ids) == ids_entries(m2, ids),
    decreases ids.len(),
{
    if ids.len() > 0 {
        assert forall|i: int| 0 <= i < ids.drop_first().len() implies seg_of(
            m1,
            #[trigger] ids.drop_first()[i],
        ) == seg_of(m2, ids.drop_first()[i]) by {
            assert(ids.drop_first()[i] == ids[i + 1]);
        }
        lemma_ids_entries_congruent(m1, m2, ids.drop_first());
        assert(seg_of(m1, ids[0]) == seg_of(m2, ids[0]));
    }
}

/// Only the newest version of each user key, in order; what the merge
/// stream keeps when old versions may be evicted.
pub open spec fn keep_newest(s: Seq<EntryModel>) -> Seq<EntryModel>
    decreases s.len(),
    via keep_newest_decreases
{
    if s.len() == 0 {
        Seq::empty()
    } else {
        seq![s[0]] + keep_newest(skip_key(s.skip(1), s[0].user_key))
    }
}

#[via_fn]
proof fn keep_newest_decreases(s: Seq<EntryModel>) {
    if s.len() > 0 {
        lemma_leading_key_count_facts(s.skip(1), s[0].user_key);
    }
}

/// Entries that are live values, with both tombstone kinds dropped.
pub open spec fn live_only(s: Seq<EntryModel>) -> Seq<EntryModel> {
    s.filter(|e: EntryModel| e.value_type == ValueType::Value)
}

/// What a compaction writes out for a given concatenation of input runs:
/// the sorted merge, with old versions and then tombstones evicted as the
/// flags ask.
pub open spec fn compaction_stream(
    input: Seq<EntryModel>,
    evict_versions: bool,
    evict_tombstones: bool,
) -> Seq<EntryModel> {
    let sorted = input.sort_by(entry_order());
    let kept = if evict_versions {
        keep_newest(sorted)
    } else {
        sorted
    };
    if evict_tombstones {
        live_only(kept)
    } else {
        kept
    }
}

/// Keeps the newest version of each user key of a sorted run.
fn keep_newest_exec(items: &Vec<InternalValue>) -> (out: Vec<InternalValue>)
    requires
        entries_sorted(models(items@)),
    ensures
        models(out@) == keep_newest(models(items@)),
        entries_sorted(models(out@)),
        out@.len() <= items@.len(),
{
    let ghost ms = models(items@);
    let mut out: Vec<InternalValue> = Vec::new();
    let mut i: usize = 0;
    proof {
        assert(ms.skip(0) =~= ms);
        assert(models(out@) =~= Seq::<EntryModel>::empty());
    }
    while i < items.len()
        invariant
            0 <= i <= ms.len(),
            ms == models(items@),
            entries_sorted(ms),
            out@.len() <= i,
            entries_sorted(models(out@)),
            keep_newest(ms) == models(out@) + keep_newest(ms.skip(i as int)),
            forall|p: int, q: int|
                0 <= p < models(out@).len() && i <= q < ms.len() ==> #[trigger] entry_le(
                    models(out@)[p],
                    ms[q],
                ),
        decreases ms.len() - i,
    {
        let ghost w = ms.skip(i as int);
        let ghost omod = models(out@);
        proof {
            assert(w[0] == ms[i as int]);
            assert(ms[i as int] == models(items@)[i as int]);
        }
        let head = items[i].duplicate();
        out.push(head);
        proof {
            assert(models(out@) =~= omod.push(w[0]));
            assert(keep_newest(w) == seq![w[0]] + keep_newest(skip_key(w.skip(1), w[0].user_key)));
        }
        // Skip the older versions of the same key.
        let mut j: usize = i + 1;
        proof {
            assert(w.skip(1) =~= ms.skip(i + 1));
        }
        loop
            invariant
                i < j <= ms.len(),
                ms == models(items@),
                entries_sorted(ms),
                w == ms.skip(i as int),
                skip_key(ms.skip(j as int), w[0].user_key) == skip_key(w.skip(1), w[0].user_key),
            ensures
                i < j <= ms.len(),
                ms.skip(j as int) == skip_key(w.skip(1), w[0].user_key),
            decreases ms.len() - j,
        {
            if j >= items.len() {
                proof {
                    assert(ms.skip(j as int) =~= Seq::<EntryModel>::empty());
                    assert(skip_key(ms.skip(j as int), w[0].user_key) =~= ms.skip(j as int));
                }
                break ;
            }
            proof {
                assert(ms.skip(j as int)[0] == ms[j as int]);
                assert(ms[j as int] == models(items@)[j as int]);
            }
            let same = bytes_eq(&items[j].key.user_key, &items[i].key.user_key);
            if !same {
                proof {
                    assert(leading_key_count(ms.skip(j as int), w[0].user_key) == 0);
                    assert(skip_key(ms.skip(j as int), w[0].user_key) =~= ms.skip(j as int));
                }
                break ;
            }
            proof {
                let wj = ms.skip(j as int);
                let c = leading_key_count(wj.drop_first(), w[0].user_key);
                lemma_leading_key_count_facts(wj.drop_first(), w[0].user_key);
                assert(wj.skip(1 + c as int) =~= wj.drop_first().skip(c as int));
                assert(wj.drop_first() =~= ms.skip(j + 1));
            }
            j = j + 1;
        }
        i = j;
    }
    proof {
        assert(ms.skip(i as int) =~= Seq::<EntryModel>::empty());
        assert(models(out@) + keep_newest(ms.skip(i as int)) =~= models(out@));
    }
    out
}

/// Keeps only live values of a sorted run, dropping both tombstone kinds.
fn live_only_exec(items: &Vec<InternalValue>) -> (out: Vec<InternalValue>)
    requires
        entries_sorted(models(items@)),
    ensures
        models(out@) == live_only(models(items@)),
        entries_sorted(models(out@)),
        out@.len() <= items@.len(),
{
    let ghost ms = models(items@);
    let ghost pred = |e: EntryModel| e.value_type == ValueType::Value;
    let mut out: Vec<InternalValue> = Vec::new();
    let mut i: usize = 0;
    proof {
        assert(models(out@) =~= ms.take(0).filter(pred));
    }
    while i < items.len()
        invariant
            0 <= i <= ms.len(),
            ms == models(items@),
            pred == (|e: EntryModel| e.value_type == ValueType::Value),
            entries_sorted(ms),
            out@.len() <= i,
            entries_sorted(models(out@)),
            models(out@) == ms.take(i as int).filter(pred),
            forall|p: int, q: int|
                0 <= p < models(out@).len() && i <= q < ms.len() ==> #[trigger] entry_le(
                    models(out@)[p],
                    ms[q],
                ),
        decreases ms.len() - i,
    {
        let ghost e = ms[i as int];
        proof {
            assert(e == models(items@)[i as int]);
            reveal(Seq::filter);
            assert(ms.take(i + 1).drop_last() =~= ms.take(i as int));
            assert(ms.take(i + 1).last() == e);
        }
        if matches!(items[i].key.value_type, ValueType::Value) {
            let ghost omod = models(out@);
            out.push(items[i].duplicate());
            proof {
                assert(models(out@) =~= omod.push(e));
            }
        }
        proof {
            assert(models(out@) =~= ms.take(i + 1).filter(pred));
        }
        i = i + 1;
    }
    proof {
        assert(ms.take(ms.len() as int) =~= ms);
        ms.lemma_filter_len(pred);
    }
    out
}

/// Some segment standing before position `(l, p)` carries `id`.
spec fn id_in_prefix(m: crate::levels::ManifestModel, id: u64, l: int, p: int) -> bool {
    exists|l2: int, p2: int|
        0 <= l2 < m.levels.len() && 0 <= p2 < m.levels[l2].len() && (l2 < l || (l2 == l && p2 < p))
            && (#[trigger] m.levels[l2][p2]).id == id
}

impl Strategy {
    /// Consults the strategy: the major strategy chooses every segment of
    /// the tree and sends the merge to the deepest level.
    pub fn decide(&self, levels: &LevelManifest, _config: &Config) -> (c: Choice)
        requires
            levels.wf(),
        ensures
            match c {
                Choice::DoCompact(payload) => {
                    &&& ids_distinct(payload.segment_ids@)
                    &&& ids_present(levels@, payload.segment_ids@)
                    &&& payload.dest_level < levels@.levels.len()
                    &&& match *self {
                        Strategy::Major { target_size } => {
                            &&& payload.dest_level == levels@.levels.len() - 1
                            &&& payload.target_size == target_size
                            &&& forall|id: u64|
                                #[trigger] man_has_id(levels@, id)
                                    ==> payload.segment_ids@.contains(id)
                        },
                    }
                },
                Choice::DeleteSegments(_) => false,
                Choice::DoNothing => false,
            },
    {
        let target_size = match self {
            Strategy::Major { target_size } => *target_size,
        };
        let ghost m = levels@;
        let mut ids: Vec<u64> = Vec::new();
        let mut li: usize = 0;
        while li < levels.level_count()
            invariant
                levels.wf(),
                m == levels@,
                0 <= li <= m.levels.len(),
                ids_distinct(ids@),
                forall|k: int|
                    0 <= k < ids@.len() ==> id_in_prefix(m, #[trigger] ids@[k], li as int, 0),
                forall|l: int, p: int|
                    0 <= l < li && 0 <= p < m.levels[l].len() ==> ids@.contains(
                        (#[trigger] m.levels[l][p]).id,
                    ),
            decreases m.levels.len() - li,
        {
            let n = levels.segment_count_at(li);
            let mut si: usize = 0;
            proof {
                assert forall|k: int|
                    0 <= k < ids@.len() implies id_in_prefix(m, #[trigger] ids@[k], li as int, 0)
                    by {}
            }
            while si < n
                invariant
                    levels.wf(),
                    m == levels@,
                    0 <= li < m.levels.len(),
                    n == m.levels[li as int].len(),
                    0 <= si <= n,
                    ids_distinct(ids@),
                    forall|k: int|
                        0 <= k < ids@.len() ==> id_in_prefix(
                            m,
                            #[trigger] ids@[k],
                            li as int,
                            si as int,
                        ),
                    forall|l: int, p: int|
                        0 <= l < m.levels.len() && 0 <= p < m.levels[l].len() && (l < li || (l
                            == li && p < si)) ==> ids@.contains((#[trigger] m.levels[l][p]).id),
                decreases n - si,
            {
                let bounds = levels.segment_bounds_at(li, si);
                let id = bounds.0;
                let ghost old_ids = ids@;
                proof {
                    assert(!ids@.contains(id)) by {
                        if ids@.contains(id) {
                            let k = choose|k: int| 0 <= k < ids@.len() && ids@[k] == id;
                            assert(id_in_prefix(m, id, li as int, si as int));
                            let (l2, p2) = choose|l2: int, p2: int|
                                0 <= l2 < m.levels.len() && 0 <= p2 < m.levels[l2].len() && (l2
                                    < li as int || (l2 == li as int && p2 < si as int))
                                    && (#[trigger] m.levels[l2][p2]).id == id;
                            assert(m.levels[l2][p2].id != m.levels[li as int][si as int].id);
                        }
                    }
                }
                ids.push(id);
                proof {
                    assert(ids@ =~= old_ids.push(id));
                    assert forall|k: int|
                        0 <= k < ids@.len() implies id_in_prefix(
                        m,
                        #[trigger] ids@[k],
                        li as int,
                        si + 1,
                    ) by {
                        if k < old_ids.len() {
                            assert(ids@[k] == old_ids[k]);
                            assert(id_in_prefix(m, old_ids[k], li as int, si as int));
                        } else {
                            assert(ids@[k] == id);
                            assert(m.levels[li as int][si as int].id == id);
                        }
                    }
                    assert forall|l: int, p: int|
                        0 <= l < m.levels.len() && 0 <= p < m.levels[l].len() && (l < li || (l
                            == li && p < si + 1)) implies ids@.contains(
                        (#[trigger] m.levels[l][p]).id,
                    ) by {
                        if l < li || (l == li && p < si) {
                            assert(old_ids.contains(m.levels[l][p].id));
                            let k = choose|k: int|
                                0 <= k < old_ids.len() && old_ids[k] == m.levels[l][p].id;
                            assert(ids@[k] == m.levels[l][p].id);
                        } else {
                            assert(ids@[ids@.len() - 1] == id);
                        }
                    }
                }
                si = si + 1;
            }
            proof {
                assert forall|k: int|
                    0 <= k < ids@.len() implies id_in_prefix(m, #[trigger] ids@[k], li + 1, 0) by {
                    assert(id_in_prefix(m, ids@[k], li as int, n as int));
                    let (l2, p2) = choose|l2: int, p2: int|
                        0 <= l2 < m.levels.len() && 0 <= p2 < m.levels[l2].len() && (l2 < li as int
                            || (l2 == li as int && p2 < n as int)) && (#[trigger] m.levels[l2][p2]).id
                            == ids@[k];
                    assert(l2 < li + 1);
                }
            }
            li = li + 1;
        }
        proof {
            assert forall|id: u64| #[trigger] man_has_id(m, id) implies ids@.contains(id) by {
                let (l, p) = crate::levels::seg_pos(m, id);
                assert(0 <= l < m.levels.len() && 0 <= p < m.levels[l].len() && m.levels[l][p].id
                    == id);
            }
            assert forall|k: int| 0 <= k < ids@.len() implies man_has_id(m, #[trigger] ids@[k]) by {
                assert(id_in_prefix(m, ids@[k], li as int, 0));
                let (l2, p2) = choose|l2: int, p2: int|
                    0 <= l2 < m.levels.len() && 0 <= p2 < m.levels[l2].len() && (l2 < li as int
                        || (l2 == li as int && p2 < 0)) && (#[trigger] m.levels[l2][p2]).id
                        == ids@[k];
            }
        }
        let dest_level = levels.last_level_index();
        Choice::DoCompact(Input { segment_ids: ids, dest_level, target_size })
    }
}

/// Compaction options.
pub struct Options {
    pub tree_id: u64,
    /// Configuration of the tree.
    pub config: Config,
    /// Compaction strategy.
    pub strategy: Strategy,
    /// Stop signal: when set, a compaction aborts before committing.
    pub stop_signal: bool,
}

impl Options {
    /// Collects from a tree what a compaction run needs.
    pub fn from_tree(tree: &Tree, strategy: Strategy) -> (r: Options)
        ensures
            r.tree_id == tree.id,
            r.config == tree.config,
            r.strategy == strategy,
            r.stop_signal == tree.stop_signal,
    {
        Options { tree_id: tree.id, config: tree.config, strategy, stop_signal: tree.stop_signal }
    }
}

/// What a finished compaction changed.  The folders of the obsolete
/// segments may be deleted only once the rewritten manifest is durable:
/// that ordering keeps every durable manifest's segments complete on disk.
pub struct CompactionOutcome {
    pub created_segment_ids: Vec<u64>,
    pub obsolete_segment_ids: Vec<u64>,
    pub dest_level: usize,
    pub evicted_old_versions: bool,
    pub evicted_tombstones: bool,
}

/// Removes the named segments from the manifest; their folders become
/// obsolete once the manifest is durable.  Only a strategy that chooses
/// `DeleteSegments` reaches this — the major strategy never does — but the
/// worker handles every choice a strategy may make.
fn drop_segments(tree: &mut Tree, ids: Vec<u64>) -> (r: CompactionOutcome)
    requires
        old(tree).wf(),
        ids_distinct(ids@),
        ids_present(old(tree).levels@, ids@),
    ensures
        final(tree).wf(),
        final(tree).id == old(tree).id,
        final(tree).config == old(tree).config,
        final(tree).active_memtable == old(tree).active_memtable,
        final(tree).sealed_memtables == old(tree).sealed_memtables,
        final(tree).next_seqno == old(tree).next_seqno,
        final(tree).segment_id_counter == old(tree).segment_id_counter,
        final(tree).open_snapshots == old(tree).open_snapshots,
        final(tree).stop_signal == old(tree).stop_signal,
        r.obsolete_segment_ids@ == ids@,
        r.created_segment_ids@.len() == 0,
        man_entries_ms(final(tree).levels@).add(ids_entries(old(tree).levels@, ids@).to_multiset())
            == man_entries_ms(old(tree).levels@),
        forall|id2: u64| #[trigger] man_has_id(final(tree).levels@, id2) == (man_has_id(
            old(tree).levels@,
            id2,
        ) && !ids@.contains(id2)),
{
    broadcast use vstd::multiset::group_multiset_axioms;

    remove_ids(&mut tree.levels, &ids);
    proof {
        lemma_tree_wf_after_shrink(*old(tree), *tree);
    }
    CompactionOutcome {
        created_segment_ids: Vec::new(),
        obsolete_segment_ids: ids,
        dest_level: 0,
        evicted_old_versions: false,
        evicted_tombstones: false,
    }
}

/// A tree whose manifest lost entries (and no ids appeared) stays well
/// formed.
proof fn lemma_tree_wf_after_shrink(t0: Tree, t1: Tree)
    requires
        t0.wf(),
        t1.id == t0.id,
        t1.config == t0.config,
        t1.active_memtable == t0.active_memtable,
        t1.sealed_memtables == t0.sealed_memtables,
        t1.next_seqno == t0.next_seqno,
        t1.segment_id_counter == t0.segment_id_counter,
        t1.levels.wf(),
        t1.levels@.hidden == t0.levels@.hidden,
        forall|e: EntryModel| #[trigger] man_entries_ms(t1.levels@).count(e) <= man_entries_ms(
            t0.levels@,
        ).count(e),
        forall|id: u64| #[trigger] man_has_id(t1.levels@, id) ==> man_has_id(t0.levels@, id),
    ensures
        t1.wf(),
{
    broadcast use vstd::multiset::group_multiset_axioms;

    assert(t1.sealed_runs() == t0.sealed_runs());
    assert forall|e: EntryModel| #[trigger] t1.entries().count(e) > 0 implies e.seqno
        < t1.next_seqno by {
        assert(t0.entries().count(e) >= t1.entries().count(e));
    }
}

/// A suffix never carries more copies of an entry than the whole run.
proof fn lemma_suffix_count_le(s: Seq<EntryModel>, k: int, e: EntryModel)
    requires
        0 <= k <= s.len(),
    ensures
        s.skip(k).to_multiset().count(e) <= s.to_multiset().count(e),
{
    broadcast use vstd::multiset::group_multiset_axioms;

    assert(s =~= s.take(k) + s.skip(k));
    vstd::seq_lib::lemma_multiset_commutative(s.take(k), s.skip(k));
}

/// Keeping only newest versions never adds copies of an entry.
proof fn lemma_keep_newest_count_le(s: Seq<EntryModel>, e: EntryModel)
    ensures
        keep_newest(s).to_multiset().count(e) <= s.to_multiset().count(e),
    decreases s.len(),
{
    broadcast use vstd::multiset::group_multiset_axioms;
    broadcast use vstd::seq_lib::group_to_multiset_ensures;

    if s.len() > 0 {
        let k = s[0].user_key;
        let c = leading_key_count(s.skip(1), k) as int;
        lemma_leading_key_count_facts(s.skip(1), k);
        let tail = s.skip(1 + c);
        assert(skip_key(s.skip(1), k) =~= tail);
        lemma_keep_newest_count_le(tail, e);
        lemma_suffix_count_le(s.skip(1), c, e);
        assert(s.skip(1).skip(c) =~= tail);
        assert(keep_newest(s) == seq![s[0]] + keep_newest(tail));
        vstd::seq_lib::lemma_multiset_commutative(seq![s[0]], keep_newest(tail));
        assert(seq![s[0]] =~= Seq::<EntryModel>::empty().push(s[0]));
        assert(s =~= seq![s[0]] + s.skip(1));
        vstd::seq_lib::lemma_multiset_commutative(seq![s[0]], s.skip(1));
    }
}

/// Pointwise-bounded multisets have bounded size.
proof fn lemma_ms_le_len<A>(m1: Multiset<A>, m2: Multiset<A>)
    requires
        forall|x: A| #[trigger] m1.count(x) <= m2.count(x),
    ensures
        m1.len() <= m2.len(),
{
    broadcast use vstd::multiset::group_multiset_axioms;

    let d = m2.sub(m1);
    assert(m1.add(d) =~= m2);
    assert(m2.len() == m1.len() + d.len());
}

/// The named segments' entries are part of the manifest's entries.
proof fn lemma_ids_entries_le(m: crate::levels::ManifestModel, ids: Seq<u64>)
    requires
        crate::levels::man_wf(m),
        ids_distinct(ids),
        ids_present(m, ids),
    ensures
        forall|e: EntryModel| #[trigger] ids_entries(m, ids).to_multiset().count(e)
            <= man_entries_ms(m).count(e),
    decreases ids.len(),
{
    broadcast use vstd::multiset::group_multiset_axioms;
    broadcast use vstd::seq_lib::group_to_multiset_ensures;

    if ids.len() > 0 {
        let id0 = ids[0];
        assert(man_has_id(m, id0));
        let (l0, p0) = crate::levels::seg_pos(m, id0);
        assert(0 <= l0 < m.levels.len() && 0 <= p0 < m.levels[l0].len() && m.levels[l0][p0].id
            == id0);
        let m2 = crate::levels::ManifestModel {
            levels: m.levels.update(l0, m.levels[l0].remove(p0)),
            ..m
        };
        crate::levels::lemma_remove_keeps_wf(m, l0, p0);
        crate::levels::lemma_entries_after_remove(m, l0, p0);
        crate::levels::lemma_seg_of_unique(m, id0, l0, p0);
        let rest = ids.drop_first();
        assert forall|i: int| 0 <= i < rest.len() implies man_has_id(m2, #[trigger] rest[i])
            && seg_of(m2, rest[i]) == seg_of(m, rest[i]) by {
            assert(rest[i] == ids[i + 1]);
            assert(rest[i] != id0);
            crate::levels::lemma_remove_preserves_others(m, id0, rest[i]);
        }
        assert(ids_distinct(rest)) by {
            assert forall|i: int, j: int| 0 <= i < j < rest.len() implies #[trigger] rest[i]
                != #[trigger] rest[j] by {
                assert(rest[i] == ids[i + 1]);
                assert(rest[j] == ids[j + 1]);
            }
        }
        lemma_ids_entries_le(m2, rest);
        lemma_ids_entries_congruent(m, m2, rest);
        assert(ids_entries(m, ids) == seg_of(m, id0).items + ids_entries(m2, rest));
        vstd::seq_lib::lemma_multiset_commutative(seg_of(m, id0).items, ids_entries(m2, rest));
        assert forall|e: EntryModel| true implies #[trigger] ids_entries(m, ids).to_multiset().count(
            e,
        ) <= man_entries_ms(m).count(e) by {
            assert(man_entries_ms(m).count(e) == man_entries_ms(m2).count(e) + seg_of(
                m,
                id0,
            ).items.to_multiset().count(e));
            assert(ids_entries(m2, rest).to_multiset().count(e) <= man_entries_ms(m2).count(e));
        }
    }
}

/// Removes all named segments from the manifest.
fn remove_ids(man: &mut LevelManifest, ids: &Vec<u64>)
    requires
        old(man).wf(),
        ids_distinct(ids@),
        ids_present(old(man)@, ids@),
    ensures
        final(man).wf(),
        final(man)@.hidden == old(man)@.hidden,
        final(man)@.levels.len() == old(man)@.levels.len(),
        man_entries_ms(final(man)@).add(ids_entries(old(man)@, ids@).to_multiset())
            == man_entries_ms(old(man)@),
        forall|id2: u64| #[trigger] man_has_id(final(man)@, id2) == (man_has_id(old(man)@, id2)
            && !ids@.contains(id2)),
        forall|id2: u64|
            man_has_id(old(man)@, id2) && !ids@.contains(id2) ==> seg_of(final(man)@, id2)
                == #[trigger] seg_of(old(man)@, id2),
        forall|l: int, p: int|
            0 <= l < final(man)@.levels.len() && 0 <= p < final(man)@.levels[l].len()
                ==> old(man)@.levels[l].contains(#[trigger] final(man)@.levels[l][p]),
{
    broadcast use vstd::multiset::group_multiset_axioms;
    broadcast use vstd::seq_lib::group_to_multiset_ensures;

    let ghost m0 = man@;
    let mut k: usize = 0;
    proof {
        assert(ids_entries(m0, ids@.take(0)) == Seq::<EntryModel>::empty());
        assert(Seq::<EntryModel>::empty().to_multiset().len() == 0);
        vstd::multiset::lemma_multiset_empty_len(Seq::<EntryModel>::empty().to_multiset());
        assert(man_entries_ms(man@).add(ids_entries(m0, ids@.take(0)).to_multiset())
            =~= man_entries_ms(m0));
        assert(forall|l: int, p: int|
            0 <= l < man@.levels.len() && 0 <= p < man@.levels[l].len()
                ==> m0.levels[l].contains(#[trigger] man@.levels[l][p]));
    }
    while k < ids.len()
        invariant
            man.wf(),
            m0 == old(man)@,
            crate::levels::man_wf(m0),
            ids_distinct(ids@),
            ids_present(m0, ids@),
            0 <= k <= ids@.len(),
            man@.hidden == m0.hidden,
            man@.levels.len() == m0.levels.len(),
            man_entries_ms(man@).add(ids_entries(m0, ids@.take(k as int)).to_multiset())
                == man_entries_ms(m0),
            forall|id2: u64| #[trigger] man_has_id(man@, id2) == (man_has_id(m0, id2)
                && !ids@.take(k as int).contains(id2)),
            forall|id2: u64|
                man_has_id(m0, id2) && !ids@.take(k as int).contains(id2) ==> seg_of(man@, id2)
                    == #[trigger] seg_of(m0, id2),
            forall|l: int, p: int|
                0 <= l < man@.levels.len() && 0 <= p < man@.levels[l].len()
                    ==> m0.levels[l].contains(#[trigger] man@.levels[l][p]),
        decreases ids@.len() - k,
    {
        let id = ids[k];
        let ghost mpre = man@;
        proof {
            assert(man_has_id(m0, id));
            assert(!ids@.take(k as int).contains(id)) by {
                if ids@.take(k as int).contains(id) {
                    let j = choose|j: int| 0 <= j < k && #[trigger] ids@.take(k as int)[j] == id;
                    assert(ids@[j] == ids@[k as int]);
                }
            }
            assert(man_has_id(mpre, id));
            assert(seg_of(mpre, id) == seg_of(m0, id));
        }
        let found = man.remove(id);
        proof {
            assert(found);
            let (l0, p0) = crate::levels::seg_pos(mpre, id);
            let m2 = crate::levels::ManifestModel {
                levels: mpre.levels.update(l0, mpre.levels[l0].remove(p0)),
                ..mpre
            };
            assert(man@ == m2);
            assert(0 <= l0 < mpre.levels.len() && 0 <= p0 < mpre.levels[l0].len()
                && mpre.levels[l0][p0].id == id);
            // Bookkeeping for every other id.
            assert forall|id2: u64| true implies #[trigger] man_has_id(man@, id2) == (man_has_id(
                m0,
                id2,
            ) && !ids@.take(k + 1).contains(id2)) by {
                assert(ids@.take(k + 1) =~= ids@.take(k as int).push(id));
                if id2 == id {
                    let other: u64 = if id == 0 { 1 } else { 0 };
                    crate::levels::lemma_remove_preserves_others(mpre, id, other);
                    assert(!man_has_id(man@, id));
                    assert(ids@.take(k + 1).contains(id)) by {
                        assert(ids@.take(k + 1)[k as int] == id);
                    }
                } else {
                    crate::levels::lemma_remove_preserves_others(mpre, id, id2);
                    if ids@.take(k as int).contains(id2) {
                        assert(ids@.take(k + 1).contains(id2));
                    }
                    if ids@.take(k + 1).contains(id2) {
                        let j = choose|j: int| 0 <= j < k + 1 && #[trigger] ids@.take(k + 1)[j] == id2;
                        if j < k {
                            assert(ids@.take(k as int)[j] == id2);
                        }
                    }
                }
            }
            assert forall|id2: u64|
                man_has_id(m0, id2) && !ids@.take(k + 1).contains(id2) implies seg_of(man@, id2)
                == #[trigger] seg_of(m0, id2) by {
                assert(ids@.take(k + 1) =~= ids@.take(k as int).push(id));
                assert(!ids@.take(k as int).contains(id2));
                assert(ids@.take(k + 1)[k as int] == id);
                assert(id2 != id);
                crate::levels::lemma_remove_preserves_others(mpre, id, id2);
            }
            // Entry accounting.
            assert(man_entries_ms(mpre) == man_entries_ms(man@).add(
                seg_of(mpre, id).items.to_multiset(),
            ));
            assert(ids@.take(k + 1) =~= ids@.take(k as int).push(id));
            lemma_ids_entries_push(m0, ids@.take(k as int), id);
            vstd::seq_lib::lemma_multiset_commutative(
                ids_entries(m0, ids@.take(k as int)),
                seg_of(m0, id).items,
            );
            assert forall|e: EntryModel| true implies #[trigger] man_entries_ms(man@).add(
                ids_entries(m0, ids@.take(k + 1)).to_multiset(),
            ).count(e) == man_entries_ms(m0).count(e) by {
                assert(man_entries_ms(mpre).add(
                    ids_entries(m0, ids@.take(k as int)).to_multiset(),
                ).count(e) == man_entries_ms(m0).count(e));
            }
            assert(man_entries_ms(man@).add(ids_entries(m0, ids@.take(k + 1)).to_multiset())
                =~= man_entries_ms(m0));
            // Content containment for every level.
            assert forall|l: int, p: int|
                0 <= l < man@.levels.len() && 0 <= p < man@.levels[l].len() implies m0.levels[l].contains(
                #[trigger] man@.levels[l][p],
            ) by {
                let pa: int = if l == l0 && p >= p0 { p + 1 } else { p };
                assert(man@.levels[l][p] == mpre.levels[l][pa]);
                assert(m0.levels[l].contains(mpre.levels[l][pa]));
            }
        }
        k = k + 1;
    }
    proof {
        assert(ids@.take(ids@.len() as int) =~= ids@);
    }
}

/// Byte size an entry accounts for when rolling output segments.
pub open spec fn entry_size(e: EntryModel) -> int {
    e.user_key.len() + e.value.len() as int
}

/// Total byte size of a run.
pub open spec fn run_size(s: Seq<EntryModel>) -> int
    decreases s.len(),
{
    if s.len() == 0 {
        0
    } else {
        entry_size(s[0]) + run_size(s.drop_first())
    }
}

proof fn lemma_run_size_push(s: Seq<EntryModel>, x: EntryModel)
    ensures
        run_size(s.push(x)) == run_size(s) + entry_size(x),
    decreases s.len(),
{
    if s.len() == 0 {
        assert(s.push(x)[0] == x);
        assert(s.push(x).drop_first() =~= Seq::<EntryModel>::empty());
        assert(run_size(Seq::<EntryModel>::empty()) == 0);
        assert(run_size(s.push(x)) == entry_size(x) + 0);
    } else {
        assert(s.push(x)[0] == s[0]);
        assert(s.push(x).drop_first() =~= s.drop_first().push(x));
        lemma_run_size_push(s.drop_first(), x);
        assert(run_size(s.push(x)) == entry_size(s[0]) + run_size(s.drop_first().push(x)));
    }
}

proof fn lemma_run_size_nonneg(s: Seq<EntryModel>)
    ensures
        run_size(s) >= 0,
    decreases s.len(),
{
    if s.len() > 0 {
        lemma_run_size_nonneg(s.drop_first());
    }
}

/// Byte weight of one entry, clamped at the top of the range.
fn item_size(it: &InternalValue) -> (r: u64)
    ensures
        r == if entry_size(it@) <= u64::MAX {
            entry_size(it@)
        } else {
            u64::MAX as int
        },
{
    let k = it.key.user_key.len() as u64;
    let v = it.value.len() as u64;
    sat_add(k, v)
}

/// `a + b`, stopping at the top of the range.
fn sat_add(a: u64, b: u64) -> (r: u64)
    ensures
        r == if a + b <= u64::MAX {
            (a + b) as int
        } else {
            u64::MAX as int
        },
{
    if u64::MAX - a < b {
        u64::MAX
    } else {
        a + b
    }
}

/// Splits a sorted run into segments.  A segment closes once it has
/// reached `target_size` bytes and the next entry starts a new user key,
/// so no user key is split across segments and a disjoint level can take
/// every output.
fn roll_segments(merged: Vec<InternalValue>, target_size: u64, counter: &mut u64) -> (out: Vec<
    Segment,
>)
    requires
        entries_sorted(models(merged@)),
        *old(counter) + merged@.len() <= u64::MAX,
    ensures
        *final(counter) == *old(counter) + out@.len(),
        out@.len() <= merged@.len(),
        forall|k: int|
            0 <= k < out@.len() ==> (#[trigger] out@[k])@.id == *old(counter) + k,
        forall|k: int| 0 <= k < out@.len() ==> seg_wf((#[trigger] out@[k])@),
        forall|k: int, j: int|
            0 <= k < j < out@.len() ==> crate::levels::segs_below(
                (#[trigger] out@[k])@,
                (#[trigger] out@[j])@,
            ),
        crate::levels::runs_of(out@.map_values(|s: Segment| s@)).flatten() == models(merged@),
        forall|k: int|
            0 <= k < out@.len() - 1 ==> run_size((#[trigger] out@[k])@.items) >= target_size,
        (out@.len() == 0) == (merged@.len() == 0),
{
    broadcast use vstd::seq_lib::group_seq_properties;

    let ghost mm = models(merged@);
    let ghost c0 = *counter;
    let mut out: Vec<Segment> = Vec::new();
    let mut cur: Vec<InternalValue> = Vec::new();
    let mut cur_bytes: u64 = 0;
    let ghost mut chunk_start: int = 0;
    let mut i: usize = 0;
    proof {
        assert(models(cur@) =~= mm.subrange(0, 0));
        assert(out@.map_values(|s: Segment| s@) =~= Seq::<SegmentModel>::empty());
        assert(crate::levels::runs_of(Seq::<SegmentModel>::empty())
            =~= Seq::<Seq<EntryModel>>::empty());
        assert(Seq::<Seq<EntryModel>>::empty().flatten() =~= mm.take(0));
    }
    while i < merged.len()
        invariant
            0 <= chunk_start <= i <= mm.len(),
            mm == models(merged@),
            entries_sorted(mm),
            c0 + mm.len() <= u64::MAX,
            *counter == c0 + out@.len(),
            out@.len() <= chunk_start,
            models(cur@) == mm.subrange(chunk_start, i as int),
            forall|k: int|
                0 <= k < out@.len() ==> (#[trigger] out@[k])@.id == c0 + k,
            forall|k: int| 0 <= k < out@.len() ==> seg_wf((#[trigger] out@[k])@),
            forall|k: int, j: int|
                0 <= k < j < out@.len() ==> crate::levels::segs_below(
                    (#[trigger] out@[k])@,
                    (#[trigger] out@[j])@,
                ),
            forall|k: int|
                0 <= k < out@.len() ==> run_size((#[trigger] out@[k])@.items) >= target_size,
            crate::levels::runs_of(out@.map_values(|s: Segment| s@)).flatten() == mm.take(
                chunk_start,
            ),
            forall|k: int, q: int|
                0 <= k < out@.len() && chunk_start <= q < mm.len() ==> crate::value::lex_lt(
                    crate::levels::seg_max((#[trigger] out@[k])@),
                    (#[trigger] mm[q]).user_key,
                ),
            cur_bytes == if run_size(models(cur@)) <= u64::MAX {
                run_size(models(cur@))
            } else {
                u64::MAX as int
            },
        decreases mm.len() - i,
    {
        let ghost e = mm[i as int];
        let ghost oldcur = models(cur@);
        proof {
            assert(e == models(merged@)[i as int]);
            lemma_run_size_nonneg(oldcur);
        }
        let sz = item_size(&merged[i]);
        cur.push(merged[i].duplicate());
        cur_bytes = sat_add(cur_bytes, sz);
        proof {
            assert(models(cur@) =~= oldcur.push(e));
            assert(models(cur@) =~= mm.subrange(chunk_start, i + 1));
            lemma_run_size_push(oldcur, e);
        }
        i = i + 1;
        let mut close = false;
        if cur_bytes >= target_size && i < merged.len() {
            proof {
                assert(mm[i as int] == models(merged@)[i as int]);
                assert(mm[i - 1] == models(merged@)[i - 1]);
            }
            if !bytes_eq(&merged[i].key.user_key, &merged[i - 1].key.user_key) {
                close = true;
            }
        }
        if close {
            let ghost outv = out@.map_values(|s: Segment| s@);
            proof {
                // The chunk is a sorted, non-empty slice of the input.
                assert(models(cur@).len() == i - chunk_start);
                assert forall|p: int, q: int|
                    0 <= p < q < models(cur@).len() implies #[trigger] entry_le(
                    models(cur@)[p],
                    models(cur@)[q],
                ) by {
                    assert(models(cur@)[p] == mm[chunk_start + p]);
                    assert(models(cur@)[q] == mm[chunk_start + q]);
                }
            }
            let id = *counter;
            let seg = Segment::new(id, cur);
            cur = Vec::new();
            cur_bytes = 0;
            out.push(seg);
            *counter = *counter + 1;
            proof {
                broadcast use vstd::seq_lib::group_seq_properties;

                let segm = seg@;
                assert(out@.map_values(|s: Segment| s@) =~= outv.push(segm));
                assert(crate::levels::runs_of(outv.push(segm)) =~= crate::levels::runs_of(
                    outv,
                ).push(segm.items));
                assert(crate::levels::runs_of(outv).push(segm.items).flatten()
                    =~= crate::levels::runs_of(outv).flatten() + segm.items) by {
                    crate::levels::runs_of(outv).lemma_flatten_and_flatten_alt_are_equivalent();
                    crate::levels::runs_of(outv).push(
                        segm.items,
                    ).lemma_flatten_and_flatten_alt_are_equivalent();
                    assert(crate::levels::runs_of(outv).push(segm.items).drop_last()
                        =~= crate::levels::runs_of(outv));
                }
                assert(mm.take(chunk_start) + mm.subrange(chunk_start, i as int) =~= mm.take(
                    i as int,
                ));
                assert(crate::levels::runs_of(out@.map_values(|s: Segment| s@)).flatten()
                    =~= mm.take(i as int));
                // The closed segment ends strictly before every remaining
                // key: the next entry starts a new user key.
                assert(crate::levels::seg_max(segm) == mm[i - 1].user_key);
                assert forall|q: int| i <= q < mm.len() implies crate::value::lex_lt(
                    crate::levels::seg_max(segm),
                    (#[trigger] mm[q]).user_key,
                ) by {
                    assert(entry_le(mm[i - 1], mm[i as int]));
                    assert(mm[i - 1].user_key != mm[i as int].user_key);
                    assert(crate::value::lex_lt(mm[i - 1].user_key, mm[i as int].user_key));
                    if q > i {
                        assert(entry_le(mm[i as int], mm[q]));
                        let a = mm[i - 1].user_key;
                        let b = mm[i as int].user_key;
                        let c = mm[q].user_key;
                        if b != c {
                            crate::value::lemma_lex_le_trans(a, b, c);
                            if a == c {
                                crate::value::lemma_lex_le_antisym(b, c);
                            }
                        }
                    }
                }
                // Earlier segments lie strictly below the new one.
                assert forall|k: int| 0 <= k < outv.len() implies crate::levels::segs_below(
                    (#[trigger] outv[k]),
                    segm,
                ) by {
                    assert(crate::levels::seg_min(segm) == mm[chunk_start].user_key);
                    assert(crate::value::lex_lt(
                        crate::levels::seg_max(outv[k]),
                        mm[chunk_start].user_key,
                    ));
                }
                assert(models(cur@) =~= mm.subrange(i as int, i as int));
            }
            proof {
                chunk_start = i as int;
            }
        }
    }
    // Close the remainder, if any entries are left in the open chunk.
    if cur.len() > 0 {
        let ghost outv = out@.map_values(|s: Segment| s@);
        proof {
            assert forall|p: int, q: int|
                0 <= p < q < models(cur@).len() implies #[trigger] entry_le(
                models(cur@)[p],
                models(cur@)[q],
            ) by {
                assert(models(cur@)[p] == mm[chunk_start + p]);
                assert(models(cur@)[q] == mm[chunk_start + q]);
            }
        }
        let id = *counter;
        let seg = Segment::new(id, cur);
        out.push(seg);
        *counter = *counter + 1;
        proof {
            let segm = seg@;
            assert(out@.map_values(|s: Segment| s@) =~= outv.push(segm));
            assert(crate::levels::runs_of(outv.push(segm)) =~= crate::levels::runs_of(outv).push(
                segm.items,
            ));
            assert(crate::levels::runs_of(outv).push(segm.items).flatten()
                =~= crate::levels::runs_of(outv).flatten() + segm.items) by {
                crate::levels::runs_of(outv).lemma_flatten_and_flatten_alt_are_equivalent();
                crate::levels::runs_of(outv).push(
                    segm.items,
                ).lemma_flatten_and_flatten_alt_are_equivalent();
                assert(crate::levels::runs_of(outv).push(segm.items).drop_last()
                    =~= crate::levels::runs_of(outv));
            }
            assert(mm.take(chunk_start) + mm.subrange(chunk_start, mm.len() as int) =~= mm.take(
                mm.len() as int,
            ));
            assert(crate::levels::runs_of(out@.map_values(|s: Segment| s@)).flatten() =~= mm.take(
                mm.len() as int,
            ));
            assert forall|k: int| 0 <= k < outv.len() implies crate::levels::segs_below(
                (#[trigger] outv[k]),
                segm,
            ) by {
                assert(crate::levels::seg_min(segm) == mm[chunk_start].user_key);
            }
            chunk_start = mm.len() as int;
        }
    }
    proof {
        assert(mm.take(mm.len() as int) =~= mm);
        assert(chunk_start == mm.len());
        if mm.len() > 0 {
            if out@.len() == 0 {
                assert(crate::levels::runs_of(out@.map_values(|s: Segment| s@))
                    =~= Seq::<Seq<EntryModel>>::empty());
                assert(Seq::<Seq<EntryModel>>::empty().flatten() =~= Seq::<EntryModel>::empty());
            }
        }
    }
    out
}

/// Merges the chosen segments into new ones at `dest_level` and removes
/// the inputs.  Old versions are evicted only when no snapshot is open and
/// the merge goes deep; tombstones are evicted only at the deepest level
/// and only when no snapshot is open, so they cannot resurrect data
/// beneath them and an open snapshot keeps its view.  The inputs leave the
/// manifest before the outputs are installed, so the destination level is
/// checked for overlap against the segments that remain.
fn merge_segments(tree: &mut Tree, opts: &Options, payload: Input) -> (r: Result<
    CompactionOutcome,
    CompactionError,
>)
    requires
        old(tree).wf(),
        payload.dest_level < old(tree).levels@.levels.len(),
        old(tree).segment_id_counter + old(tree).entries().len() <= u64::MAX,
    ensures
        final(tree).wf(),
        final(tree).id == old(tree).id,
        final(tree).config == old(tree).config,
        final(tree).active_memtable == old(tree).active_memtable,
        final(tree).sealed_memtables == old(tree).sealed_memtables,
        final(tree).next_seqno == old(tree).next_seqno,
        final(tree).open_snapshots == old(tree).open_snapshots,
        final(tree).stop_signal == old(tree).stop_signal,
        match r {
            Result::Ok(o) => if opts.stop_signal {
                *final(tree) == *old(tree) && o.created_segment_ids@.len() == 0
                    && o.obsolete_segment_ids@.len() == 0 && !o.evicted_old_versions
                    && !o.evicted_tombstones
            } else {
                &&& o.obsolete_segment_ids@ == resolve_ids(
                    old(tree).levels@,
                    payload.segment_ids@,
                )
                &&& o.dest_level == payload.dest_level
                &&& o.evicted_old_versions == (old(tree).open_snapshots == 0 && payload.dest_level
                    >= 2)
                &&& o.evicted_tombstones == (payload.dest_level == old(
                    tree,
                ).levels@.levels.len() - 1 && old(tree).open_snapshots == 0)
                &&& forall|k: int|
                    0 <= k < o.created_segment_ids@.len()
                        ==> #[trigger] o.created_segment_ids@[k] == old(tree).segment_id_counter
                        + k
                &&& final(tree).segment_id_counter == old(tree).segment_id_counter
                    + o.created_segment_ids@.len()
                &&& ids_entries(final(tree).levels@, o.created_segment_ids@) == compaction_stream(
                    ids_entries(old(tree).levels@, o.obsolete_segment_ids@),
                    o.evicted_old_versions,
                    o.evicted_tombstones,
                )
                &&& forall|j: int|
                    0 <= j < o.created_segment_ids@.len() - 1 ==> run_size(
                        seg_of(
                            final(tree).levels@,
                            #[trigger] o.created_segment_ids@[j],
                        ).items,
                    ) >= payload.target_size
                &&& man_entries_ms(final(tree).levels@).add(
                    ids_entries(old(tree).levels@, o.obsolete_segment_ids@).to_multiset(),
                ) == man_entries_ms(old(tree).levels@).add(
                    ids_entries(final(tree).levels@, o.created_segment_ids@).to_multiset(),
                )
                &&& forall|id2: u64|
                    #[trigger] man_has_id(final(tree).levels@, id2) == (
                    o.created_segment_ids@.contains(id2) || (man_has_id(old(tree).levels@, id2)
                        && !o.obsolete_segment_ids@.contains(id2)))
            },
            Result::Err(_) => *final(tree) == *old(tree),
        },
        opts.stop_signal ==> r is Ok,
        (!opts.stop_signal && (forall|p: int|
            0 <= p < old(tree).levels@.levels[payload.dest_level as int].len()
                ==> payload.segment_ids@.contains(
                (#[trigger] old(tree).levels@.levels[payload.dest_level as int][p]).id,
            ))) ==> r is Ok,
{
    broadcast use vstd::multiset::group_multiset_axioms;
    broadcast use vstd::seq_lib::group_to_multiset_ensures;

    if opts.stop_signal {
        // A tripped stop signal aborts cleanly before any commit.
        return Ok(
            CompactionOutcome {
                created_segment_ids: Vec::new(),
                obsolete_segment_ids: Vec::new(),
                dest_level: payload.dest_level,
                evicted_old_versions: false,
                evicted_tombstones: false,
            },
        );
    }
    let ghost m0 = tree.levels@;
    // Deduplicate the chosen ids and resolve them against the manifest:
    // repeated choices and segments that are already gone are skipped.
    let mut resolved: Vec<u64> = Vec::new();
    let mut ci: usize = 0;
    proof {
        assert(payload.segment_ids@.take(0) =~= Seq::<u64>::empty());
        assert(resolved@ =~= resolve_ids(m0, payload.segment_ids@.take(0)));
    }
    while ci < payload.segment_ids.len()
        invariant
            tree.wf(),
            *tree == *old(tree),
            m0 == tree.levels@,
            0 <= ci <= payload.segment_ids@.len(),
            resolved@ == resolve_ids(m0, payload.segment_ids@.take(ci as int)),
        decreases payload.segment_ids@.len() - ci,
    {
        let id = payload.segment_ids[ci];
        proof {
            assert(payload.segment_ids@.take(ci + 1).drop_last() =~= payload.segment_ids@.take(
                ci as int,
            ));
            assert(payload.segment_ids@.take(ci + 1).last() == payload.segment_ids@[ci as int]);
        }
        let fresh = !crate::levels::contains_id(&resolved, id);
        if fresh && tree.levels.has_segment(id) {
            resolved.push(id);
        }
        proof {
            assert(resolved@ =~= resolve_ids(m0, payload.segment_ids@.take(ci + 1)));
        }
        ci = ci + 1;
    }
    proof {
        assert(payload.segment_ids@.take(payload.segment_ids@.len() as int)
            =~= payload.segment_ids@);
        lemma_resolve_ids_facts(m0, payload.segment_ids@);
    }
    let ghost ids_g = resolved@;
    // Gather the resolved segments' runs: every resolved id names a
    // segment.
    let mut sources: Vec<Vec<InternalValue>> = Vec::new();
    let mut k: usize = 0;
    proof {
        assert(ids_entries(m0, ids_g.take(0)) == Seq::<EntryModel>::empty());
        vstd::multiset::lemma_multiset_empty_len(
            Seq::<EntryModel>::empty().to_multiset(),
        );
        assert(sources@.map_values(|v: Vec<InternalValue>| models(v@))
            =~= Seq::<Seq<EntryModel>>::empty());
        assert(runs_multiset(sources@.map_values(|v: Vec<InternalValue>| models(v@)))
            =~= ids_entries(m0, ids_g.take(0)).to_multiset());
    }
    while k < resolved.len()
        invariant
            tree.wf(),
            *tree == *old(tree),
            m0 == tree.levels@,
            ids_g == resolved@,
            ids_g == resolve_ids(m0, payload.segment_ids@),
            ids_present(m0, ids_g),
            0 <= k <= ids_g.len(),
            sources@.len() == k,
            forall|q: int|
                0 <= q < k ==> models((#[trigger] sources@[q])@) == seg_of(m0, ids_g[q]).items
                    && entries_sorted(models(sources@[q]@)),
            runs_multiset(sources@.map_values(|v: Vec<InternalValue>| models(v@))) == ids_entries(
                m0,
                ids_g.take(k as int),
            ).to_multiset(),
        decreases ids_g.len() - k,
    {
        let ghost srcv = sources@.map_values(|v: Vec<InternalValue>| models(v@));
        let got = tree.levels.find_run(resolved[k]);
        match got {
            Option::Some(run) => {
                proof {
                    assert(models(run@) == seg_of(m0, ids_g[k as int]).items);
                }
                sources.push(run);
                proof {
                    assert(sources@.map_values(|v: Vec<InternalValue>| models(v@)) =~= srcv.push(
                        seg_of(m0, ids_g[k as int]).items,
                    ));
                    crate::merge::lemma_runs_multiset_push(srcv, seg_of(m0, ids_g[k as int]).items);
                    assert(ids_g.take(k + 1) =~= ids_g.take(k as int).push(ids_g[k as int]));
                    lemma_ids_entries_push(m0, ids_g.take(k as int), ids_g[k as int]);
                    vstd::seq_lib::lemma_multiset_commutative(
                        ids_entries(m0, ids_g.take(k as int)),
                        seg_of(m0, ids_g[k as int]).items,
                    );
                    assert(runs_multiset(sources@.map_values(|v: Vec<InternalValue>| models(v@)))
                        =~= ids_entries(m0, ids_g.take(k + 1)).to_multiset());
                }
            }
            Option::None => {
                proof {
                    assert(man_has_id(m0, ids_g[k as int]));
                    assert(false);
                }
                return Err(CompactionError::Corruption);
            }
        }
        k = k + 1;
    }
    let ghost cat = ids_entries(m0, ids_g);
    let merged = merge_runs(&sources);
    proof {
        assert(ids_g.take(ids_g.len() as int) =~= ids_g);
        crate::value::lemma_entry_le_total_ordering();
        cat.lemma_sort_by_ensures(entry_order());
        crate::value::lemma_entries_sorted_is_sorted_by(models(merged@));
        crate::value::lemma_entries_sorted_is_sorted_by(cat.sort_by(entry_order()));
        vstd::seq_lib::lemma_sorted_unique(
            models(merged@),
            cat.sort_by(entry_order()),
            entry_order(),
        );
        assert(models(merged@) == cat.sort_by(entry_order()));
        assert(models(merged@).to_multiset().len() == models(merged@).len());
        assert(cat.to_multiset().len() == cat.len());
        assert(merged@.len() == models(merged@).len());
    }
    // When no snapshot is open and the merge goes deep, old versions can
    // go; tombstones go only at the deepest level, and never while a
    // snapshot could still observe what they shadow.
    let no_snapshots_open = tree.open_snapshots == 0;
    let is_deep_level = payload.dest_level >= 2;
    let evict_versions = no_snapshots_open && is_deep_level;
    let last_level = tree.levels.last_level_index();
    let evict_tombstones = payload.dest_level == last_level && no_snapshots_open;
    let stage = if evict_versions {
        keep_newest_exec(&merged)
    } else {
        merged
    };
    let stream = if evict_tombstones {
        live_only_exec(&stage)
    } else {
        stage
    };
    proof {
        assert(models(stream@) == compaction_stream(cat, evict_versions, evict_tombstones));
        // Id headroom: at most one new segment per surviving entry.
        lemma_ids_entries_le(m0, ids_g);
        lemma_ms_le_len(cat.to_multiset(), man_entries_ms(m0));
        assert(tree.entries().len() == tree.active_memtable@.to_multiset().add(
            runs_multiset(tree.sealed_runs()),
        ).len() + man_entries_ms(m0).len());
        assert(stream@.len() <= cat.len());
        assert(tree.segment_id_counter + stream@.len() <= u64::MAX);
    }
    let saved_counter = tree.segment_id_counter;
    let created = roll_segments(stream, payload.target_size, &mut tree.segment_id_counter);
    let ghost cvs = created@.map_values(|s: Segment| s@);
    let ghost stream_m = compaction_stream(cat, evict_versions, evict_tombstones);
    proof {
        assert(crate::levels::runs_of(cvs).flatten() == stream_m);
        assert(cvs.len() <= u64::MAX - saved_counter);
    }
    // Check that every output fits among the segments that will remain in
    // the destination level; nothing has been committed yet, so a refusal
    // rolls back completely.
    let mut fits = true;
    if payload.dest_level > 0 {
        let resident_count = tree.levels.segment_count_at(payload.dest_level);
        let mut p: usize = 0;
        while p < resident_count
            invariant
                tree.wf(),
                tree.id == old(tree).id,
                tree.config == old(tree).config,
                tree.levels == old(tree).levels,
                tree.active_memtable == old(tree).active_memtable,
                tree.sealed_memtables == old(tree).sealed_memtables,
                tree.next_seqno == old(tree).next_seqno,
                tree.open_snapshots == old(tree).open_snapshots,
                tree.stop_signal == old(tree).stop_signal,
                m0 == tree.levels@,
                ids_g == resolved@,
                ids_g == resolve_ids(m0, payload.segment_ids@),
                0 < payload.dest_level < m0.levels.len(),
                resident_count == m0.levels[payload.dest_level as int].len(),
                0 <= p <= resident_count,
                cvs == created@.map_values(|s: Segment| s@),
                forall|j: int| 0 <= j < cvs.len() ==> seg_wf(#[trigger] cvs[j]),
                fits == (forall|q: int, j: int|
                    0 <= q < p && 0 <= j < cvs.len() && !ids_g.contains(
                        (#[trigger] m0.levels[payload.dest_level as int][q]).id,
                    ) ==> crate::levels::segs_disjoint(
                        m0.levels[payload.dest_level as int][q],
                        #[trigger] cvs[j],
                    )),
            decreases resident_count - p,
        {
            let bounds = tree.levels.segment_bounds_at(payload.dest_level, p);
            let ghost resident = m0.levels[payload.dest_level as int][p as int];
            let mut here_ok = true;
            if !crate::levels::contains_id(&resolved, bounds.0) {
                let mut j: usize = 0;
                while j < created.len()
                    invariant
                        0 <= j <= created@.len(),
                        cvs == created@.map_values(|s: Segment| s@),
                        forall|jj: int| 0 <= jj < cvs.len() ==> seg_wf(#[trigger] cvs[jj]),
                        bounds.1@ == crate::levels::seg_min(resident),
                        bounds.2@ == crate::levels::seg_max(resident),
                        here_ok == (forall|jj: int|
                            0 <= jj < j ==> crate::levels::segs_disjoint(
                                resident,
                                #[trigger] cvs[jj],
                            )),
                    decreases created@.len() - j,
                {
                    let ghost cj = cvs[j as int];
                    let (below, above) = {
                        let s = &created[j];
                        proof {
                            assert(cj == created@[j as int]@);
                            assert(seg_wf(cj));
                        }
                        let last = s.items.len() - 1;
                        let below = crate::value::bytes_cmp(&bounds.2, &s.items[0].key.user_key)
                            == -1;
                        let above = crate::value::bytes_cmp(
                            &s.items[last].key.user_key,
                            &bounds.1,
                        ) == -1;
                        (below, above)
                    };
                    proof {
                        assert(below == crate::levels::segs_below(resident, cj));
                        assert(above == crate::levels::segs_below(cj, resident));
                    }
                    if !below && !above {
                        here_ok = false;
                    }
                    j = j + 1;
                }
                if !here_ok {
                    fits = false;
                }
            }
            proof {
                assert(fits == (forall|q: int, j: int|
                    0 <= q < p + 1 && 0 <= j < cvs.len() && !ids_g.contains(
                        (#[trigger] m0.levels[payload.dest_level as int][q]).id,
                    ) ==> crate::levels::segs_disjoint(
                        m0.levels[payload.dest_level as int][q],
                        #[trigger] cvs[j],
                    )));
            }
            p = p + 1;
        }
    }
    if !fits {
        tree.segment_id_counter = saved_counter;
        proof {
            assert(*tree == *old(tree));
            // A destination level holding only chosen segments never
            // refuses: every resident would have been resolved and so
            // stands outside the overlap check.
            let dl0 = payload.dest_level as int;
            lemma_resolve_ids_facts(m0, payload.segment_ids@);
            if forall|p: int|
                0 <= p < m0.levels[dl0].len() ==> payload.segment_ids@.contains(
                    (#[trigger] m0.levels[dl0][p]).id,
                ) {
                assert forall|q: int, j: int|
                    0 <= q < m0.levels[dl0].len() && 0 <= j < cvs.len() && !ids_g.contains(
                        (#[trigger] m0.levels[dl0][q]).id,
                    ) implies crate::levels::segs_disjoint(
                    m0.levels[dl0][q],
                    #[trigger] cvs[j],
                ) by {
                    let rid = m0.levels[dl0][q].id;
                    crate::levels::lemma_seg_of_unique(m0, rid, dl0, q);
                    assert(resolve_ids(m0, payload.segment_ids@).contains(rid));
                }
                assert(fits);
            }
        }
        return Err(CompactionError::Corruption);
    }
    // Commit: the inputs leave the manifest, then the outputs take their
    // place in the destination level.
    proof {
        lemma_resolve_ids_facts(m0, payload.segment_ids@);
    }
    remove_ids(&mut tree.levels, &resolved);
    let ghost m_r = tree.levels@;
    let ghost dl = payload.dest_level as int;
    let mut created_ids: Vec<u64> = Vec::new();
    let mut rest = created;
    proof {
        assert(rest@.map_values(|s: Segment| s@) =~= cvs.skip(0));
        assert(ids_entries(tree.levels@, created_ids@) == Seq::<EntryModel>::empty());
        assert(crate::levels::runs_of(cvs.take(0)) =~= Seq::<Seq<EntryModel>>::empty());
        assert(crate::levels::runs_of(cvs.take(0)).flatten() =~= Seq::<EntryModel>::empty());
        vstd::multiset::lemma_multiset_empty_len(Seq::<EntryModel>::empty().to_multiset());
        assert(man_entries_ms(tree.levels@) =~= man_entries_ms(m_r).add(
            crate::levels::runs_of(cvs.take(0)).flatten().to_multiset(),
        ));
        assert forall|p2: int|
            0 <= p2 < tree.levels@.levels[dl].len() implies (m0.levels[dl].contains(
            #[trigger] tree.levels@.levels[dl][p2],
        ) && !ids_g.contains(tree.levels@.levels[dl][p2].id)) || cvs.take(0).contains(
            tree.levels@.levels[dl][p2],
        ) by {
            let e = tree.levels@.levels[dl][p2];
            assert(man_has_id(tree.levels@, e.id)) by {
                crate::levels::lemma_seg_of_unique(tree.levels@, e.id, dl, p2);
            }
        }
    }
    while rest.len() > 0
        invariant
            tree.levels.wf(),
            tree.id == old(tree).id,
            tree.config == old(tree).config,
            tree.active_memtable == old(tree).active_memtable,
            tree.sealed_memtables == old(tree).sealed_memtables,
            tree.next_seqno == old(tree).next_seqno,
            tree.open_snapshots == old(tree).open_snapshots,
            tree.stop_signal == old(tree).stop_signal,
            tree.segment_id_counter == saved_counter + cvs.len(),
            tree.levels@.hidden == m0.hidden,
            tree.levels@.levels.len() == m0.levels.len(),
            ids_g == resolved@,
            ids_g == resolve_ids(m0, payload.segment_ids@),
            created_ids@.len() + rest@.len() == cvs.len(),
            rest@.map_values(|s: Segment| s@) == cvs.skip(created_ids@.len() as int),
            forall|j: int| 0 <= j < cvs.len() ==> seg_wf(#[trigger] cvs[j]),
            forall|j: int| 0 <= j < cvs.len() ==> (#[trigger] cvs[j]).id == saved_counter + j,
            forall|j: int, j2: int|
                0 <= j < j2 < cvs.len() ==> crate::levels::segs_below(
                    #[trigger] cvs[j],
                    #[trigger] cvs[j2],
                ),
            forall|j: int|
                0 <= j < cvs.len() - 1 ==> run_size((#[trigger] cvs[j]).items)
                    >= payload.target_size,
            forall|j: int|
                0 <= j < created_ids@.len() ==> #[trigger] created_ids@[j] == saved_counter + j,
            cvs.len() <= u64::MAX - saved_counter,
            dl == payload.dest_level as int,
            0 <= dl < m0.levels.len(),
            dl > 0 ==> (forall|q: int, j: int|
                0 <= q < m0.levels[dl].len() && 0 <= j < cvs.len() && !ids_g.contains(
                    (#[trigger] m0.levels[dl][q]).id,
                ) ==> crate::levels::segs_disjoint(m0.levels[dl][q], #[trigger] cvs[j])),
            forall|id2: u64|
                #[trigger] man_has_id(tree.levels@, id2) == (created_ids@.contains(id2) || (
                man_has_id(m0, id2) && !ids_g.contains(id2))),
            forall|id2: u64| #[trigger] man_has_id(m0, id2) ==> id2 < saved_counter,
            forall|j: int|
                0 <= j < created_ids@.len() ==> man_has_id(
                    tree.levels@,
                    #[trigger] created_ids@[j],
                ) && seg_of(tree.levels@, created_ids@[j]) == cvs[j],
            ids_entries(tree.levels@, created_ids@) == crate::levels::runs_of(
                cvs.take(created_ids@.len() as int),
            ).flatten(),
            man_entries_ms(tree.levels@) == man_entries_ms(m_r).add(
                crate::levels::runs_of(cvs.take(created_ids@.len() as int)).flatten().to_multiset(),
            ),
            forall|p2: int|
                0 <= p2 < tree.levels@.levels[dl].len() ==> (m0.levels[dl].contains(
                    #[trigger] tree.levels@.levels[dl][p2],
                ) && !ids_g.contains(tree.levels@.levels[dl][p2].id)) || cvs.take(
                    created_ids@.len() as int,
                ).contains(tree.levels@.levels[dl][p2]),
        decreases rest@.len(),
    {
        broadcast use vstd::multiset::group_multiset_axioms;
        broadcast use vstd::seq_lib::group_to_multiset_ensures;

        let ghost kk = created_ids@.len() as int;
        let ghost mpre = tree.levels@;
        let ghost old_cids = created_ids@;
        let ghost rvs = rest@.map_values(|s: Segment| s@);
        let seg = rest.remove(0);
        let ghost sm = seg@;
        proof {
            assert(rvs == cvs.skip(kk));
            assert(cvs.skip(kk)[0] == cvs[kk]);
            assert(sm == rvs[0]);
            assert(sm == cvs[kk]);
            assert(rest@.map_values(|s: Segment| s@) =~= rvs.drop_first());
            assert(rvs.drop_first() =~= cvs.skip(kk + 1));
            assert(seg_wf(sm));
            assert(!man_has_id(mpre, sm.id)) by {
                if man_has_id(mpre, sm.id) {
                    if old_cids.contains(sm.id) {
                        let j = choose|j: int|
                            0 <= j < old_cids.len() && #[trigger] old_cids[j] == sm.id;
                        assert(old_cids[j] == saved_counter + j);
                        assert(sm.id == saved_counter + kk);
                    } else {
                        assert(man_has_id(m0, sm.id));
                        assert(sm.id < saved_counter);
                    }
                }
            }
            assert(fits_level(mpre, dl, sm)) by {
                if dl > 0 {
                    assert forall|p2: int|
                        0 <= p2 < mpre.levels[dl].len() implies crate::levels::segs_disjoint(
                        #[trigger] mpre.levels[dl][p2],
                        sm,
                    ) by {
                        let e = mpre.levels[dl][p2];
                        if cvs.take(kk).contains(e) {
                            let j = choose|j: int| 0 <= j < kk && #[trigger] cvs.take(kk)[j] == e;
                            assert(cvs[j] == e);
                            assert(crate::levels::segs_below(cvs[j], cvs[kk]));
                        } else {
                            let q = choose|q: int|
                                0 <= q < m0.levels[dl].len() && #[trigger] m0.levels[dl][q] == e;
                            assert(!ids_g.contains(e.id));
                            assert(crate::levels::segs_disjoint(m0.levels[dl][q], cvs[kk]));
                        }
                    }
                }
            }
        }
        let id = seg.id;
        let ok = tree.levels.insert_into_level(payload.dest_level, seg);
        if !ok {
            proof {
                assert(false);
            }
            return Err(CompactionError::Corruption);
        }
        created_ids.push(id);
        proof {
            let pos = crate::levels::insert_pos(mpre, dl, sm);
            crate::levels::lemma_below_prefix_facts(mpre.levels[dl], sm);
            let m2 = crate::levels::ManifestModel {
                levels: mpre.levels.update(dl, mpre.levels[dl].insert(pos, sm)),
                ..mpre
            };
            assert(tree.levels@ == m2);
            assert(created_ids@ =~= old_cids.push(sm.id));
            crate::levels::lemma_insert_preserves_others(
                mpre,
                dl,
                sm,
                if sm.id == 0 { 1 } else { 0 },
            );
            assert(man_has_id(m2, sm.id) && seg_of(m2, sm.id) == sm);
            // Id bookkeeping after the install.
            assert forall|id2: u64| true implies #[trigger] man_has_id(tree.levels@, id2) == (
            created_ids@.contains(id2) || (man_has_id(m0, id2) && !ids_g.contains(id2))) by {
                if id2 == sm.id {
                    assert(created_ids@[kk] == sm.id);
                } else {
                    crate::levels::lemma_insert_preserves_others(mpre, dl, sm, id2);
                    assert(old_cids.contains(id2) == created_ids@.contains(id2)) by {
                        if old_cids.contains(id2) {
                            let j = choose|j: int|
                                0 <= j < old_cids.len() && #[trigger] old_cids[j] == id2;
                            assert(created_ids@[j] == id2);
                        }
                        if created_ids@.contains(id2) {
                            let j = choose|j: int|
                                0 <= j < created_ids@.len() && #[trigger] created_ids@[j] == id2;
                            assert(j < old_cids.len());
                            assert(old_cids[j] == id2);
                        }
                    }
                }
            }
            // Earlier outputs keep their place and content.
            assert forall|j: int|
                0 <= j < created_ids@.len() implies man_has_id(
                tree.levels@,
                #[trigger] created_ids@[j],
            ) && seg_of(tree.levels@, created_ids@[j]) == cvs[j] by {
                if j < kk {
                    assert(created_ids@[j] == old_cids[j]);
                    assert(old_cids[j] != sm.id);
                    crate::levels::lemma_insert_preserves_others(mpre, dl, sm, old_cids[j]);
                } else {
                    assert(created_ids@[j] == sm.id);
                }
            }
            // The concatenated output runs grow by the new segment's run.
            assert forall|j: int| 0 <= j < old_cids.len() implies seg_of(
                m2,
                #[trigger] old_cids[j],
            ) == seg_of(mpre, old_cids[j]) by {
                assert(old_cids[j] != sm.id);
                crate::levels::lemma_insert_preserves_others(mpre, dl, sm, old_cids[j]);
            }
            lemma_ids_entries_congruent(m2, mpre, old_cids);
            lemma_ids_entries_push(m2, old_cids, sm.id);
            assert(cvs.take(kk + 1) =~= cvs.take(kk).push(cvs[kk]));
            assert(crate::levels::runs_of(cvs.take(kk).push(cvs[kk]))
                =~= crate::levels::runs_of(cvs.take(kk)).push(cvs[kk].items));
            assert(crate::levels::runs_of(cvs.take(kk)).push(cvs[kk].items).flatten()
                =~= crate::levels::runs_of(cvs.take(kk)).flatten() + cvs[kk].items) by {
                crate::levels::runs_of(cvs.take(kk)).lemma_flatten_and_flatten_alt_are_equivalent();
                crate::levels::runs_of(cvs.take(kk)).push(
                    cvs[kk].items,
                ).lemma_flatten_and_flatten_alt_are_equivalent();
                assert(crate::levels::runs_of(cvs.take(kk)).push(cvs[kk].items).drop_last()
                    =~= crate::levels::runs_of(cvs.take(kk)));
            }
            assert(ids_entries(tree.levels@, created_ids@) == crate::levels::runs_of(
                cvs.take(kk + 1),
            ).flatten());
            // Entry accounting grows by the same run.
            vstd::seq_lib::lemma_multiset_commutative(
                crate::levels::runs_of(cvs.take(kk)).flatten(),
                cvs[kk].items,
            );
            assert(man_entries_ms(tree.levels@) =~= man_entries_ms(m_r).add(
                crate::levels::runs_of(cvs.take(kk + 1)).flatten().to_multiset(),
            ));
            // Level contents stay accounted for.
            assert forall|p2: int|
                0 <= p2 < tree.levels@.levels[dl].len() implies (m0.levels[dl].contains(
                #[trigger] tree.levels@.levels[dl][p2],
            ) && !ids_g.contains(tree.levels@.levels[dl][p2].id)) || cvs.take(kk + 1).contains(
                tree.levels@.levels[dl][p2],
            ) by {
                let e = tree.levels@.levels[dl][p2];
                if p2 == pos {
                    assert(e == sm);
                    assert(cvs.take(kk + 1)[kk] == sm);
                } else {
                    let pa: int = if p2 < pos { p2 } else { p2 - 1 };
                    assert(e == mpre.levels[dl][pa]);
                    if cvs.take(kk).contains(e) {
                        let j = choose|j: int| 0 <= j < kk && #[trigger] cvs.take(kk)[j] == e;
                        assert(cvs.take(kk + 1)[j] == e);
                    }
                }
            }
        }
    }
    let ghost mfin = tree.levels@;
    proof {
        broadcast use vstd::multiset::group_multiset_axioms;
        broadcast use vstd::seq_lib::group_to_multiset_ensures;

        assert(created_ids@.len() == cvs.len());
        assert(cvs.take(cvs.len() as int) =~= cvs);
        assert(ids_entries(mfin, created_ids@) == stream_m);
        // Net entry accounting across the whole commit.
        assert(man_entries_ms(m_r).add(cat.to_multiset()) == man_entries_ms(m0));
        assert forall|e: EntryModel| true implies #[trigger] man_entries_ms(mfin).add(
            cat.to_multiset(),
        ).count(e) == man_entries_ms(m0).add(stream_m.to_multiset()).count(e) by {
            assert(man_entries_ms(mfin).count(e) == man_entries_ms(m_r).count(e)
                + stream_m.to_multiset().count(e));
        }
        assert(man_entries_ms(mfin).add(cat.to_multiset()) =~= man_entries_ms(m0).add(
            stream_m.to_multiset(),
        ));
        // The surviving stream carries no entry more often than the inputs.
        assert forall|e: EntryModel| true implies #[trigger] stream_m.to_multiset().count(e)
            <= cat.to_multiset().count(e) by {
            let sorted = cat.sort_by(entry_order());
            let kept = if evict_versions { keep_newest(sorted) } else { sorted };
            lemma_keep_newest_count_le(sorted, e);
            if evict_tombstones {
                crate::value::lemma_filter_to_multiset(
                    kept,
                    |x: EntryModel| x.value_type == ValueType::Value,
                );
            }
        }
        // The tree stays well formed.
        lemma_ids_entries_le(m0, ids_g);
        assert(tree.sealed_runs() == old(tree).sealed_runs());
        assert forall|e: EntryModel| #[trigger] tree.entries().count(e) > 0 implies e.seqno
            < tree.next_seqno by {
            assert(old(tree).entries().count(e) == old(tree).active_memtable@.to_multiset().count(
                e,
            ) + runs_multiset(old(tree).sealed_runs()).count(e) + man_entries_ms(m0).count(e));
            if man_entries_ms(mfin).count(e) > 0 {
                assert(man_entries_ms(m_r).count(e) + stream_m.to_multiset().count(e) > 0);
                assert(man_entries_ms(m_r).count(e) <= man_entries_ms(m0).count(e));
                assert(stream_m.to_multiset().count(e) <= cat.to_multiset().count(e));
                assert(cat.to_multiset().count(e) <= man_entries_ms(m0).count(e));
                assert(man_entries_ms(m0).count(e) > 0);
                assert(old(tree).entries().count(e) > 0);
            } else {
                assert(old(tree).entries().count(e) > 0);
            }
        }
        assert forall|id2: u64| #[trigger] man_has_id(mfin, id2) implies id2
            < tree.segment_id_counter by {
            if created_ids@.contains(id2) {
                let j = choose|j: int|
                    0 <= j < created_ids@.len() && #[trigger] created_ids@[j] == id2;
                assert(created_ids@[j] == saved_counter + j);
            } else {
                assert(man_has_id(m0, id2));
                assert(id2 < saved_counter);
            }
        }
        assert(tree.wf());
    }
    Ok(
        CompactionOutcome {
            created_segment_ids: created_ids,
            obsolete_segment_ids: resolved,
            dest_level: payload.dest_level,
            evicted_old_versions: evict_versions,
            evicted_tombstones: evict_tombstones,
        },
    )
}

/// Runs one compaction task: consults the strategy and performs what it
/// chose.  The returned outcome lists the segments whose folders became
/// obsolete; nothing has been (or may be) deleted from disk before the
/// rewritten manifest is durable.
pub fn do_compaction(tree: &mut Tree, opts: &Options) -> (r: Result<
    CompactionOutcome,
    CompactionError,
>)
    requires
        old(tree).wf(),
        old(tree).segment_id_counter + old(tree).entries().len() <= u64::MAX,
    ensures
        final(tree).wf(),
        final(tree).id == old(tree).id,
        final(tree).config == old(tree).config,
        final(tree).active_memtable == old(tree).active_memtable,
        final(tree).sealed_memtables == old(tree).sealed_memtables,
        final(tree).next_seqno == old(tree).next_seqno,
        final(tree).open_snapshots == old(tree).open_snapshots,
        final(tree).stop_signal == old(tree).stop_signal,
        opts.stop_signal ==> *final(tree) == *old(tree),
        match r {
            Result::Ok(o) => {
                &&& ids_distinct(o.obsolete_segment_ids@)
                &&& forall|i: int|
                    0 <= i < o.obsolete_segment_ids@.len() ==> !man_has_id(
                        final(tree).levels@,
                        #[trigger] o.obsolete_segment_ids@[i],
                    )
                &&& forall|i: int|
                    0 <= i < o.created_segment_ids@.len() ==> man_has_id(
                        final(tree).levels@,
                        #[trigger] o.created_segment_ids@[i],
                    )
                &&& man_entries_ms(final(tree).levels@).add(
                    ids_entries(old(tree).levels@, o.obsolete_segment_ids@).to_multiset(),
                ) == man_entries_ms(old(tree).levels@).add(
                    ids_entries(final(tree).levels@, o.created_segment_ids@).to_multiset(),
                )
                &&& ids_entries(final(tree).levels@, o.created_segment_ids@)
                    == compaction_stream(
                    ids_entries(old(tree).levels@, o.obsolete_segment_ids@),
                    o.evicted_old_versions,
                    o.evicted_tombstones,
                )
                &&& (o.evicted_old_versions ==> old(tree).open_snapshots == 0)
                &&& (o.evicted_tombstones ==> old(tree).open_snapshots == 0)
                &&& (old(tree).open_snapshots > 0 ==> man_entries_ms(final(tree).levels@)
                    == man_entries_ms(old(tree).levels@))
                &&& (!o.evicted_old_versions && !o.evicted_tombstones
                    && o.obsolete_segment_ids@.len() == 0 && o.created_segment_ids@.len() == 0)
                    ==> man_entries_ms(final(tree).levels@) == man_entries_ms(old(tree).levels@)
            },
            Result::Err(_) => *final(tree) == *old(tree),
        },
        (match opts.strategy {
            Strategy::Major { .. } => r is Ok,
        }),
        (match opts.strategy {
            Strategy::Major { .. } => !opts.stop_signal ==> match r {
                Result::Ok(o) => {
                    &&& o.dest_level == old(tree).levels@.levels.len() - 1
                    &&& o.evicted_tombstones == (old(tree).open_snapshots == 0)
                    &&& o.evicted_old_versions == (old(tree).open_snapshots == 0
                        && o.dest_level >= 2)
                    &&& forall|id: u64|
                        #[trigger] man_has_id(old(tree).levels@, id)
                            ==> o.obsolete_segment_ids@.contains(id)
                    &&& forall|i: int|
                        0 <= i < o.obsolete_segment_ids@.len() ==> man_has_id(
                            old(tree).levels@,
                            #[trigger] o.obsolete_segment_ids@[i],
                        )
                    &&& forall|j: int|
                        0 <= j < o.created_segment_ids@.len()
                            ==> #[trigger] o.created_segment_ids@[j] == old(
                            tree,
                        ).segment_id_counter + j
                    &&& final(tree).segment_id_counter == old(tree).segment_id_counter
                        + o.created_segment_ids@.len()
                    &&& (match opts.strategy {
                        Strategy::Major { target_size } => forall|j: int|
                            0 <= j < o.created_segment_ids@.len() - 1 ==> run_size(
                                seg_of(
                                    final(tree).levels@,
                                    #[trigger] o.created_segment_ids@[j],
                                ).items,
                            ) >= target_size,
                    })
                },
                Result::Err(_) => true,
            },
        }),
{
    broadcast use vstd::multiset::group_multiset_axioms;
    broadcast use vstd::seq_lib::group_to_multiset_ensures;

    let choice = opts.strategy.decide(&tree.levels, &opts.config);
    match choice {
        Choice::DoCompact(payload) => {
            let ghost chosen_ids = payload.segment_ids@;
            let ghost c0 = tree.segment_id_counter;
            proof {
                // The major strategy chose every segment, so in particular
                // every resident of the destination level; the merge is
                // then owed success.
                let m = tree.levels@;
                let dl = payload.dest_level as int;
                assert forall|p: int|
                    0 <= p < m.levels[dl].len() implies chosen_ids.contains(
                    (#[trigger] m.levels[dl][p]).id,
                ) by {
                    crate::levels::lemma_seg_of_unique(m, m.levels[dl][p].id, dl, p);
                }
            }
            let r = merge_segments(tree, opts, payload);
            match r {
                Result::Ok(o) => {
                    proof {
                        if !opts.stop_signal {
                            lemma_resolve_ids_facts(old(tree).levels@, chosen_ids);
                            // The obsolete list is the resolved choice:
                            // distinct, present in the old manifest, and
                            // complete for the major strategy.
                            assert forall|i: int|
                                0 <= i < o.obsolete_segment_ids@.len() implies man_has_id(
                                old(tree).levels@,
                                #[trigger] o.obsolete_segment_ids@[i],
                            ) by {
                                assert(o.obsolete_segment_ids@.contains(
                                    o.obsolete_segment_ids@[i],
                                ));
                            }
                            assert forall|id: u64|
                                #[trigger] man_has_id(old(tree).levels@, id) implies
                                o.obsolete_segment_ids@.contains(id) by {
                                assert(chosen_ids.contains(id));
                            }
                            if old(tree).open_snapshots > 0 {
                                // Nothing is evicted while a snapshot is
                                // open, so the outputs carry exactly the
                                // inputs' entries and the manifest's
                                // entries are unchanged as a multiset.
                                crate::tree::lemma_compaction_preserves_reads(
                                    man_entries_ms(old(tree).levels@),
                                    man_entries_ms(tree.levels@),
                                    ids_entries(old(tree).levels@, o.obsolete_segment_ids@),
                                    ids_entries(tree.levels@, o.created_segment_ids@),
                                    Seq::empty(),
                                    0,
                                );
                            }
                            assert forall|i: int|
                                0 <= i < o.obsolete_segment_ids@.len() implies !man_has_id(
                                tree.levels@,
                                #[trigger] o.obsolete_segment_ids@[i],
                            ) by {
                                let id = o.obsolete_segment_ids@[i];
                                assert(man_has_id(old(tree).levels@, id));
                                assert(id < c0);
                                assert(!o.created_segment_ids@.contains(id)) by {
                                    if o.created_segment_ids@.contains(id) {
                                        let j = choose|j: int|
                                            0 <= j < o.created_segment_ids@.len()
                                                && #[trigger] o.created_segment_ids@[j] == id;
                                        assert(o.created_segment_ids@[j] == c0 + j);
                                    }
                                }
                                assert(o.obsolete_segment_ids@.contains(id)) by {
                                    assert(o.obsolete_segment_ids@[i] == id);
                                }
                            }
                            assert forall|i: int|
                                0 <= i < o.created_segment_ids@.len() implies man_has_id(
                                tree.levels@,
                                #[trigger] o.created_segment_ids@[i],
                            ) by {
                                assert(o.created_segment_ids@.contains(o.created_segment_ids@[i]));
                            }
                            if o.obsolete_segment_ids@.len() == 0
                                && o.created_segment_ids@.len() == 0 {
                                assert(ids_entries(old(tree).levels@, o.obsolete_segment_ids@)
                                    == Seq::<EntryModel>::empty());
                                assert(ids_entries(tree.levels@, o.created_segment_ids@)
                                    == Seq::<EntryModel>::empty());
                                vstd::multiset::lemma_multiset_empty_len(
                                    Seq::<EntryModel>::empty().to_multiset(),
                                );
                                assert forall|e: EntryModel| true implies
                                    #[trigger] man_entries_ms(tree.levels@).count(e)
                                    == man_entries_ms(old(tree).levels@).count(e) by {
                                    assert(man_entries_ms(tree.levels@).add(
                                        Seq::<EntryModel>::empty().to_multiset(),
                                    ).count(e) == man_entries_ms(old(tree).levels@).add(
                                        Seq::<EntryModel>::empty().to_multiset(),
                                    ).count(e));
                                }
                                assert(man_entries_ms(tree.levels@) =~= man_entries_ms(
                                    old(tree).levels@,
                                ));
                            }
                        } else {
                            assert(ids_entries(old(tree).levels@, o.obsolete_segment_ids@)
                                == Seq::<EntryModel>::empty());
                            lemma_compaction_stream_empty(
                                o.evicted_old_versions,
                                o.evicted_tombstones,
                            );
                            assert(ids_entries(final(tree).levels@, o.created_segment_ids@)
                                == Seq::<EntryModel>::empty());
                            vstd::multiset::lemma_multiset_empty_len(
                                Seq::<EntryModel>::empty().to_multiset(),
                            );
                            assert(man_entries_ms(final(tree).levels@).add(
                                Seq::<EntryModel>::empty().to_multiset(),
                            ) =~= man_entries_ms(old(tree).levels@).add(
                                Seq::<EntryModel>::empty().to_multiset(),
                            ));
                        }
                    }
                    Ok(o)
                }
                Result::Err(e) => Err(e),
            }
        }
        Choice::DeleteSegments(ids) => {
            // The strategy at hand never chooses this; `decide`'s contract
            // rules it out.
            proof {
                assert(false);
            }
            let o = drop_segments(tree, ids);
            Ok(o)
        }
        Choice::DoNothing => {
            let o = CompactionOutcome {
                created_segment_ids: Vec::new(),
                obsolete_segment_ids: Vec::new(),
                dest_level: 0,
                evicted_old_versions: false,
                evicted_tombstones: false,
            };
            proof {
                assert(o.obsolete_segment_ids@ =~= Seq::<u64>::empty());
                assert(o.created_segment_ids@ =~= Seq::<u64>::empty());
                assert(ids_entries(old(tree).levels@, o.obsolete_segment_ids@)
                    == Seq::<EntryModel>::empty());
                assert(ids_entries(tree.levels@, o.created_segment_ids@)
                    == Seq::<EntryModel>::empty());
                lemma_compaction_stream_empty(false, false);
                vstd::multiset::lemma_multiset_empty_len(
                    Seq::<EntryModel>::empty().to_multiset(),
                );
                assert(man_entries_ms(tree.levels@).add(
                    Seq::<EntryModel>::empty().to_multiset(),
                ) =~= man_entries_ms(old(tree).levels@).add(
                    Seq::<EntryModel>::empty().to_multiset(),
                ));
            }
            Ok(o)
        }
    }
}

/// An empty input stream compacts to nothing.
proof fn lemma_compaction_stream_empty(ev: bool, et: bool)
    ensures
        compaction_stream(Seq::<EntryModel>::empty(), ev, et) == Seq::<EntryModel>::empty(),
{
    broadcast use vstd::seq_lib::group_to_multiset_ensures;

    let s = Seq::<EntryModel>::empty();
    crate::value::lemma_entry_le_total_ordering();
    s.lemma_sort_by_ensures(entry_order());
    assert(s.to_multiset().len() == 0);
    assert(s.sort_by(entry_order()).to_multiset().len() == 0);
    assert(s.sort_by(entry_order()).len() == 0);
    assert(s.sort_by(entry_order()) =~= s);
    assert(keep_newest(s) == Seq::<EntryModel>::empty());
    assert(live_only(s) =~= s) by {
        reveal(Seq::filter);
    }
}

} // verus!
