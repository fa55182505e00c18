//! The level manifest: the authoritative set of segments per level.  Level
//! zero may hold overlapping key ranges, newest segment first; every deeper
//! level keeps its segments sorted by least key with pairwise disjoint
//! ranges.  Hidden segment ids are invisible to readers but stay owned.

use crate::merge::runs_multiset;
use crate::value::{
    entries_sorted, entry_le, lex_le, lex_lt, lemma_lex_le_antisym, lemma_lex_le_connected,
    lemma_lex_le_trans, models, EntryModel, InternalValue,
};
use vstd::multiset::Multiset;
use vstd::prelude::*;

verus! {

/// One immutable sorted run on its way through the levels.
pub struct Segment {
    pub id: u64,
    pub items: Vec<InternalValue>,
}

/// Mathematical image of a segment.
pub ghost struct SegmentModel {
    pub id: u64,
    pub items: Seq<EntryModel>,
}

impl View for Segment {
    type V = SegmentModel;

    open spec fn view(&self) -> SegmentModel {
        SegmentModel { id: self.id, items: models(self.items@) }
    }
}

/// A segment is well formed when it holds at least one entry and its run
/// is sorted.
pub open spec fn seg_wf(s: SegmentModel) -> bool {
    s.items.len() > 0 && entries_sorted(s.items)
}

/// Least user key of a segment (inclusive).
pub open spec fn seg_min(s: SegmentModel) -> Seq<u8> {
    s.items[0].user_key
}

/// Greatest user key of a segment (inclusive).
pub open spec fn seg_max(s: SegmentModel) -> Seq<u8> {
    s.items[s.items.len() - 1].user_key
}

/// A well-formed segment's range is not empty.
pub proof fn lemma_seg_range(s: SegmentModel)
    requires
        seg_wf(s),
    ensures
        lex_le(seg_min(s), seg_max(s)),
{
    if s.items.len() == 1 {
        crate::value::lemma_lex_le_refl(seg_min(s));
    } else {
        assert(entry_le(s.items[0], s.items[s.items.len() - 1]));
        if s.items[0].user_key == s.items[s.items.len() - 1].user_key {
            crate::value::lemma_lex_le_refl(seg_min(s));
        }
    }
}

impl Segment {
    pub open spec fn wf(&self) -> bool {
        seg_wf(self@)
    }

    /// Wraps a non-empty sorted run as a segment.
    pub fn new(id: u64, items: Vec<InternalValue>) -> (r: Segment)
        requires
            items@.len() > 0,
            entries_sorted(models(items@)),
        ensures
            r.wf(),
            r@ == (SegmentModel { id, items: models(items@) }),
    {
        Segment { id, items }
    }
}

/// Two segments cover disjoint key ranges, the first strictly below the
/// second.
pub open spec fn segs_below(a: SegmentModel, b: SegmentModel) -> bool {
    lex_lt(seg_max(a), seg_min(b))
}

/// Two segments cover disjoint key ranges, in either order.
pub open spec fn segs_disjoint(a: SegmentModel, b: SegmentModel) -> bool {
    segs_below(a, b) || segs_below(b, a)
}

/// A disjoint level: sorted by least key, ranges pairwise disjoint.
pub open spec fn level_disjoint(ss: Seq<SegmentModel>) -> bool {
    forall|p: int, q: int| 0 <= p < q < ss.len() ==> #[trigger] segs_below(ss[p], ss[q])
}

/// One level's list of segments.
pub struct Level {
    pub segments: Vec<Segment>,
}

impl View for Level {
    type V = Seq<SegmentModel>;

    open spec fn view(&self) -> Seq<SegmentModel> {
        self.segments@.map_values(|s: Segment| s@)
    }
}

impl Level {
    pub fn new() -> (r: Level)
        ensures
            r@ == Seq::<SegmentModel>::empty(),
    {
        let r = Level { segments: Vec::new() };
        proof {
            assert(r@ =~= Seq::<SegmentModel>::empty());
        }
        r
    }
}

/// Mathematical image of the whole manifest.
pub ghost struct ManifestModel {
    pub levels: Seq<Seq<SegmentModel>>,
    pub hidden: Seq<u64>,
}

/// The runs carried by a list of segments.
pub open spec fn runs_of(ss: Seq<SegmentModel>) -> Seq<Seq<EntryModel>> {
    ss.map_values(|s: SegmentModel| s.items)
}

/// A manifest is well formed when every segment is, every level beyond
/// zero is disjoint, and ids are unique across levels.
pub open spec fn man_wf(m: ManifestModel) -> bool {
    &&& m.levels.len() >= 1
    &&& forall|l: int, p: int|
        0 <= l < m.levels.len() && 0 <= p < m.levels[l].len() ==> seg_wf(#[trigger] m.levels[l][p])
    &&& forall|l: int| 1 <= l < m.levels.len() ==> level_disjoint(#[trigger] m.levels[l])
    &&& forall|l: int, p: int, l2: int, p2: int|
        0 <= l < m.levels.len() && 0 <= p < m.levels[l].len() && 0 <= l2 < m.levels.len() && 0
            <= p2 < m.levels[l2].len() && (l != l2 || p != p2) ==> (#[trigger] m.levels[l][p]).id
            != (#[trigger] m.levels[l2][p2]).id
}

/// Some segment of the manifest carries `id`.
pub open spec fn man_has_id(m: ManifestModel, id: u64) -> bool {
    exists|l: int, p: int|
        0 <= l < m.levels.len() && 0 <= p < m.levels[l].len() && (#[trigger] m.levels[l][p]).id
            == id
}

/// Where the segment carrying `id` stands in the manifest.
pub open spec fn seg_pos(m: ManifestModel, id: u64) -> (int, int) {
    choose|l: int, p: int|
        0 <= l < m.levels.len() && 0 <= p < m.levels[l].len() && (#[trigger] m.levels[l][p]).id
            == id
}

/// Length of the prefix of a disjoint level that lies strictly below `x`.
pub open spec fn below_prefix_len(ss: Seq<SegmentModel>, x: SegmentModel) -> nat
    decreases ss.len(),
{
    if ss.len() == 0 || !segs_below(ss[0], x) {
        0
    } else {
        below_prefix_len(ss.drop_first(), x) + 1
    }
}

pub proof fn lemma_below_prefix_facts(ss: Seq<SegmentModel>, x: SegmentModel)
    ensures
        below_prefix_len(ss, x) <= ss.len(),
        forall|j: int| 0 <= j < below_prefix_len(ss, x) ==> segs_below(#[trigger] ss[j], x),
        below_prefix_len(ss, x) < ss.len() ==> !segs_below(
            ss[below_prefix_len(ss, x) as int],
            x,
        ),
    decreases ss.len(),
{
    if ss.len() > 0 && segs_below(ss[0], x) {
        lemma_below_prefix_facts(ss.drop_first(), x);
        let c = below_prefix_len(ss, x);
        assert forall|j: int| 0 <= j < c implies segs_below(#[trigger] ss[j], x) by {
            if j > 0 {
                assert(segs_below(ss.drop_first()[j - 1], x));
            }
        }
        if c < ss.len() {
            assert(ss.drop_first()[c - 1] == ss[c as int]);
        }
    }
}

/// The position where `x` belongs in a level: the head for the overlapping
/// level zero, the end of the strictly-below prefix for deeper levels.
pub open spec fn insert_pos(m: ManifestModel, level: int, x: SegmentModel) -> int {
    if level == 0 {
        0
    } else {
        below_prefix_len(m.levels[level], x) as int
    }
}

/// The segment of the manifest carrying `id`; well defined under `man_wf`,
/// which keeps ids unique.
pub open spec fn seg_of(m: ManifestModel, id: u64) -> SegmentModel {
    m.levels[seg_pos(m, id).0][seg_pos(m, id).1]
}

/// All entries of one level.
pub open spec fn level_entries_ms(lvl: Seq<SegmentModel>) -> Multiset<EntryModel> {
    runs_multiset(runs_of(lvl))
}

/// All entries owned by a stack of levels.
pub open spec fn levels_entries_ms(lv: Seq<Seq<SegmentModel>>) -> Multiset<EntryModel>
    decreases lv.len(),
{
    if lv.len() == 0 {
        Multiset::empty()
    } else {
        level_entries_ms(lv[0]).add(levels_entries_ms(lv.drop_first()))
    }
}

/// All entries owned by the manifest's segments, hidden or not.
pub open spec fn man_entries_ms(m: ManifestModel) -> Multiset<EntryModel> {
    levels_entries_ms(m.levels)
}

/// Under `man_wf`, every position carrying `id` holds the one segment
/// `seg_of` names.
pub proof fn lemma_seg_of_unique(m: ManifestModel, id: u64, l: int, p: int)
    requires
        man_wf(m),
        0 <= l < m.levels.len(),
        0 <= p < m.levels[l].len(),
        m.levels[l][p].id == id,
    ensures
        man_has_id(m, id),
        seg_of(m, id) == m.levels[l][p],
        seg_pos(m, id) == (l, p),
{
    assert(man_has_id(m, id));
    let (l0, p0) = seg_pos(m, id);
    assert(0 <= l0 < m.levels.len() && 0 <= p0 < m.levels[l0].len() && m.levels[l0][p0].id == id);
    if l0 != l || p0 != p {
        assert(m.levels[l0][p0].id != m.levels[l][p].id);
    }
}

/// Exchanging one level exchanges exactly that level's entries.
proof fn lemma_levels_ms_update(lv: Seq<Seq<SegmentModel>>, l: int, lvl2: Seq<SegmentModel>)
    requires
        0 <= l < lv.len(),
    ensures
        levels_entries_ms(lv.update(l, lvl2)).add(level_entries_ms(lv[l]))
            == levels_entries_ms(lv).add(level_entries_ms(lvl2)),
    decreases lv.len(),
{
    broadcast use vstd::multiset::group_multiset_axioms;

    let lv2 = lv.update(l, lvl2);
    if l == 0 {
        assert(lv2[0] == lvl2);
        assert(lv2.drop_first() =~= lv.drop_first());
        assert(levels_entries_ms(lv2).add(level_entries_ms(lv[0])) =~= levels_entries_ms(
            lv,
        ).add(level_entries_ms(lvl2)));
    } else {
        assert(lv2[0] == lv[0]);
        assert(lv2.drop_first() =~= lv.drop_first().update(l - 1, lvl2));
        lemma_levels_ms_update(lv.drop_first(), l - 1, lvl2);
        assert(lv.drop_first()[l - 1] == lv[l]);
        assert(levels_entries_ms(lv2) == level_entries_ms(lv[0]).add(
            levels_entries_ms(lv.drop_first().update(l - 1, lvl2)),
        ));
        assert(levels_entries_ms(lv) == level_entries_ms(lv[0]).add(
            levels_entries_ms(lv.drop_first()),
        ));
        assert forall|e: EntryModel| true implies #[trigger] levels_entries_ms(lv2).add(
            level_entries_ms(lv[l]),
        ).count(e) == levels_entries_ms(lv).add(level_entries_ms(lvl2)).count(e) by {
            assert(levels_entries_ms(lv.drop_first().update(l - 1, lvl2)).add(
                level_entries_ms(lv[l]),
            ).count(e) == levels_entries_ms(lv.drop_first()).add(level_entries_ms(lvl2)).count(e));
        }
        assert(levels_entries_ms(lv2).add(level_entries_ms(lv[l])) =~= levels_entries_ms(
            lv,
        ).add(level_entries_ms(lvl2)));
    }
}

/// Installing a run into a stack of runs adds exactly its entries.
proof fn lemma_runs_multiset_insert(ss: Seq<Seq<EntryModel>>, p: int, x: Seq<EntryModel>)
    requires
        0 <= p <= ss.len(),
    ensures
        runs_multiset(ss.insert(p, x)) == runs_multiset(ss).add(x.to_multiset()),
    decreases ss.len(),
{
    broadcast use vstd::multiset::group_multiset_axioms;

    let ss2 = ss.insert(p, x);
    if p == 0 {
        assert(ss2[0] == x);
        assert(ss2.drop_first() =~= ss);
        assert(runs_multiset(ss2) =~= runs_multiset(ss).add(x.to_multiset()));
    } else {
        assert(ss2[0] == ss[0]);
        assert(ss2.drop_first() =~= ss.drop_first().insert(p - 1, x));
        lemma_runs_multiset_insert(ss.drop_first(), p - 1, x);
        assert(runs_multiset(ss2) =~= runs_multiset(ss).add(x.to_multiset()));
    }
}

/// Taking a run out of a stack of runs takes exactly its entries out.
proof fn lemma_runs_multiset_remove(ss: Seq<Seq<EntryModel>>, p: int)
    requires
        0 <= p < ss.len(),
    ensures
        runs_multiset(ss) == runs_multiset(ss.remove(p)).add(ss[p].to_multiset()),
    decreases ss.len(),
{
    broadcast use vstd::multiset::group_multiset_axioms;

    if p == 0 {
        assert(ss.remove(0) =~= ss.drop_first());
        assert(runs_multiset(ss) =~= runs_multiset(ss.remove(0)).add(ss[0].to_multiset()));
    } else {
        assert(ss.remove(p)[0] == ss[0]);
        assert(ss.remove(p).drop_first() =~= ss.drop_first().remove(p - 1));
        lemma_runs_multiset_remove(ss.drop_first(), p - 1);
        assert(ss.drop_first()[p - 1] == ss[p]);
        assert(runs_multiset(ss) =~= runs_multiset(ss.remove(p)).add(ss[p].to_multiset()));
    }
}

/// Level-granular forms of the two lemmas above.
proof fn lemma_level_ms_insert(lvl: Seq<SegmentModel>, p: int, x: SegmentModel)
    requires
        0 <= p <= lvl.len(),
    ensures
        level_entries_ms(lvl.insert(p, x)) == level_entries_ms(lvl).add(x.items.to_multiset()),
{
    assert(runs_of(lvl.insert(p, x)) =~= runs_of(lvl).insert(p, x.items));
    lemma_runs_multiset_insert(runs_of(lvl), p, x.items);
}

proof fn lemma_level_ms_remove(lvl: Seq<SegmentModel>, p: int)
    requires
        0 <= p < lvl.len(),
    ensures
        level_entries_ms(lvl) == level_entries_ms(lvl.remove(p)).add(lvl[p].items.to_multiset()),
{
    assert(runs_of(lvl.remove(p)) =~= runs_of(lvl).remove(p));
    assert(runs_of(lvl)[p] == lvl[p].items);
    lemma_runs_multiset_remove(runs_of(lvl), p);
}

/// A segment fits a level when the level is the overlapping level zero or
/// its range is disjoint from every segment already there.
pub open spec fn fits_level(m: ManifestModel, level: int, x: SegmentModel) -> bool {
    level == 0 || forall|p: int|
        0 <= p < m.levels[level].len() ==> segs_disjoint(#[trigger] m.levels[level][p], x)
}

/// The authoritative set of segments per level.
pub struct LevelManifest {
    levels: Vec<Level>,
    hidden: Vec<u64>,
}

/// Borrows one level out of the stack of levels.
fn level_at<'a>(v: &'a mut Vec<Level>, i: usize) -> (r: &'a mut Level)
    requires
        i < old(v)@.len(),
    ensures
        *r == old(v)@[i as int],
        final(v)@ == old(v)@.update(i as int, *final(r)),
{
    &mut v[i]
}

impl View for LevelManifest {
    type V = ManifestModel;

    closed spec fn view(&self) -> ManifestModel {
        ManifestModel {
            levels: self.levels@.map_values(|l: Level| l@),
            hidden: self.hidden@,
        }
    }
}

/// True iff `v` holds `x`.
pub fn contains_id(v: &Vec<u64>, x: u64) -> (r: bool)
    ensures
        r == v@.contains(x),
{
    let mut i: usize = 0;
    while i < v.len()
        invariant
            0 <= i <= v@.len(),
            forall|p: int| 0 <= p < i ==> v@[p] != x,
        decreases v@.len() - i,
    {
        if v[i] == x {
            return true;
        }
        i = i + 1;
    }
    false
}

impl LevelManifest {
    pub open spec fn wf(&self) -> bool {
        man_wf(self@)
    }

    /// An empty manifest with `level_count` levels.
    pub fn new(level_count: usize) -> (r: LevelManifest)
        requires
            level_count >= 1,
        ensures
            r.wf(),
            r@.levels.len() == level_count,
            forall|l: int| 0 <= l < level_count ==> (#[trigger] r@.levels[l]).len() == 0,
            r@.hidden.len() == 0,
    {
        let mut levels: Vec<Level> = Vec::new();
        let mut i: usize = 0;
        while i < level_count
            invariant
                0 <= i <= level_count,
                levels@.len() == i,
                forall|l: int| 0 <= l < i ==> (#[trigger] levels@[l])@.len() == 0,
            decreases level_count - i,
        {
            levels.push(Level::new());
            i = i + 1;
        }
        let r = LevelManifest { levels, hidden: Vec::new() };
        proof {
            assert(forall|l: int|
                0 <= l < level_count ==> (#[trigger] r@.levels[l]) == levels@[l]@);
        }
        r
    }

    /// Index of the deepest level.
    pub fn last_level_index(&self) -> (r: usize)
        requires
            self.wf(),
        ensures
            r == self@.levels.len() - 1,
    {
        self.levels.len() - 1
    }

    /// Number of levels.
    pub fn level_count(&self) -> (r: usize)
        ensures
            r == self@.levels.len(),
    {
        self.levels.len()
    }

    /// Ids currently hidden from readers.
    pub fn hidden_count(&self) -> (r: usize)
        ensures
            r == self@.hidden.len(),
    {
        self.hidden.len()
    }

    /// Marks segments invisible to readers without removing them; used
    /// while a compaction is merging them.
    pub fn hide_segments(&mut self, ids: &Vec<u64>)
        ensures
            final(self)@.levels == old(self)@.levels,
            final(self)@.hidden == old(self)@.hidden + ids@,
    {
        let mut i: usize = 0;
        while i < ids.len()
            invariant
                0 <= i <= ids@.len(),
                self@.levels == old(self)@.levels,
                self@.hidden == old(self)@.hidden + ids@.take(i as int),
            decreases ids@.len() - i,
        {
            self.hidden.push(ids[i]);
            proof {
                assert(self@.hidden =~= old(self)@.hidden + ids@.take(i + 1));
            }
            i = i + 1;
        }
        proof {
            assert(ids@.take(ids@.len() as int) =~= ids@);
        }
    }

    /// Makes segments visible again: the recovery inverse of
    /// `hide_segments`.
    pub fn show_segments(&mut self, ids: &Vec<u64>)
        ensures
            final(self)@.levels == old(self)@.levels,
            final(self)@.hidden == old(self)@.hidden.filter(|id: u64| !ids@.contains(id)),
    {
        let ghost pred = |id: u64| !ids@.contains(id);
        let mut kept: Vec<u64> = Vec::new();
        let mut i: usize = 0;
        proof {
            assert(kept@ =~= self@.hidden.take(0).filter(pred));
        }
        while i < self.hidden.len()
            invariant
                0 <= i <= self@.hidden.len(),
                pred == (|id: u64| !ids@.contains(id)),
                self@.levels == old(self)@.levels,
                self@.hidden == old(self)@.hidden,
                kept@ == self@.hidden.take(i as int).filter(pred),
            decreases self@.hidden.len() - i,
        {
            proof {
                reveal(Seq::filter);
                assert(self@.hidden.take(i + 1).drop_last() =~= self@.hidden.take(i as int));
                assert(self@.hidden.take(i + 1).last() == self@.hidden[i as int]);
            }
            let id = self.hidden[i];
            if !contains_id(ids, id) {
                kept.push(id);
            }
            i = i + 1;
        }
        proof {
            assert(self@.hidden.take(self@.hidden.len() as int) =~= self@.hidden);
        }
        self.hidden = kept;
    }

    /// Removes the segment carrying `id`, wherever it stands; a manifest
    /// holds each id at most once.
    pub fn remove(&mut self, id: u64) -> (found: bool)
        requires
            old(self).wf(),
        ensures
            final(self).wf(),
            final(self)@.hidden == old(self)@.hidden,
            found == man_has_id(old(self)@, id),
            !found ==> final(self)@ == old(self)@,
            found ==> final(self)@.levels == old(self)@.levels.update(
                seg_pos(old(self)@, id).0,
                old(self)@.levels[seg_pos(old(self)@, id).0].remove(seg_pos(old(self)@, id).1),
            ),
            found ==> man_entries_ms(old(self)@) == man_entries_ms(final(self)@).add(
                seg_of(old(self)@, id).items.to_multiset(),
            ),
        decreases old(self)@.levels.len(),
    {
        let ghost m0 = self@;
        let mut li: usize = 0;
        while li < self.levels.len()
            invariant
                self.wf(),
                m0 == self@,
                m0 == old(self)@,
                0 <= li <= self@.levels.len(),
                forall|l: int, p: int|
                    0 <= l < li && 0 <= p < m0.levels[l].len() ==> (#[trigger] m0.levels[l][p]).id
                        != id,
            decreases self@.levels.len() - li,
        {
            let seg_count = {
                let lvl = &self.levels[li];
                lvl.segments.len()
            };
            proof {
                assert(m0.levels[li as int] == self.levels@[li as int]@);
            }
            let mut si: usize = 0;
            while si < seg_count
                invariant
                    self.wf(),
                    m0 == self@,
                    m0 == old(self)@,
                    0 <= li < self@.levels.len(),
                    seg_count == m0.levels[li as int].len(),
                    0 <= si <= seg_count,
                    forall|l: int, p: int|
                        0 <= l < li && 0 <= p < m0.levels[l].len() ==> (#[trigger] m0.levels[l][p]).id
                            != id,
                    forall|p: int|
                        0 <= p < si ==> (#[trigger] m0.levels[li as int][p]).id != id,
                decreases seg_count - si,
            {
                let hit = {
                    let lvl = &self.levels[li];
                    lvl.segments[si].id == id
                };
                proof {
                    assert(m0.levels[li as int][si as int] == self.levels@[li as int]@[si as int]);
                }
                if hit {
                    let lvl = level_at(&mut self.levels, li);
                    lvl.segments.remove(si);
                    proof {
                        assert(self@.levels =~= m0.levels.update(
                            li as int,
                            m0.levels[li as int].remove(si as int),
                        )) by {
                            assert(self.levels@[li as int]@ =~= m0.levels[li as int].remove(
                                si as int,
                            ));
                            assert forall|l: int|
                                0 <= l < self@.levels.len() && l != li implies self@.levels[l]
                                == m0.levels[l] by {
                                assert(self.levels@[l]@ == m0.levels[l]);
                            }
                        }
                        assert(man_has_id(m0, id));
                        // The manifest holds `id` exactly once, so the
                        // chosen position is the one just removed.
                        let (l0, p0) = seg_pos(m0, id);
                        assert(0 <= l0 < m0.levels.len() && 0 <= p0 < m0.levels[l0].len()
                            && m0.levels[l0][p0].id == id);
                        assert(l0 == li as int && p0 == si as int);
                        lemma_remove_keeps_wf(m0, li as int, si as int);
                        lemma_seg_of_unique(m0, id, li as int, si as int);
                        lemma_entries_after_remove(m0, li as int, si as int);
                        assert(self@.levels == m0.levels.update(
                            li as int,
                            m0.levels[li as int].remove(si as int),
                        ));
                    }
                    return true;
                }
                si = si + 1;
            }
            li = li + 1;
        }
        proof {
            assert(!man_has_id(m0, id));
        }
        false
    }

    /// Installs a segment into `level`.  Level zero takes it at the head;
    /// a deeper level takes it in key order, and refuses it (leaving the
    /// manifest unchanged) if its range overlaps a segment already there.
    pub fn insert_into_level(&mut self, level: usize, seg: Segment) -> (ok: bool)
        requires
            old(self).wf(),
            seg.wf(),
            level < old(self)@.levels.len(),
            !man_has_id(old(self)@, seg@.id),
        ensures
            final(self).wf(),
            final(self)@.hidden == old(self)@.hidden,
            ok == fits_level(old(self)@, level as int, seg@),
            !ok ==> final(self)@ == old(self)@,
            ok ==> final(self)@.levels == old(self)@.levels.update(
                level as int,
                old(self)@.levels[level as int].insert(
                    insert_pos(old(self)@, level as int, seg@),
                    seg@,
                ),
            ),
            ok ==> man_entries_ms(final(self)@) == man_entries_ms(old(self)@).add(
                seg@.items.to_multiset(),
            ),
    {
        let ghost m0 = self@;
        let ghost x = seg@;
        if level == 0 {
            let lvl = level_at(&mut self.levels, 0);
            lvl.segments.insert(0, seg);
            proof {
                assert(self@.levels =~= m0.levels.update(0, m0.levels[0].insert(0, x))) by {
                    assert(self.levels@[0]@ =~= m0.levels[0].insert(0, x));
                    assert forall|l: int|
                        0 <= l < self@.levels.len() && l != 0 implies self@.levels[l]
                        == m0.levels[l] by {
                        assert(self.levels@[l] == old(self).levels@[l]);
                    }
                }
                lemma_insert_keeps_wf(m0, 0, 0, x);
                lemma_entries_after_insert(m0, 0, 0, x);
            }
            return true;
        }
        // Find the strictly-below prefix and check for overlap.
        let seg_count = {
            let lvl = &self.levels[level];
            lvl.segments.len()
        };
        proof {
            assert(m0.levels[level as int] == self.levels@[level as int]@);
        }
        let ghost lvlm = m0.levels[level as int];
        let mut pos: usize = 0;
        let mut scan: usize = 0;
        let mut ok = true;
        while scan < seg_count
            invariant
                self.wf(),
                m0 == self@,
                m0 == old(self)@,
                x == seg@,
                seg.wf(),
                0 < level < self@.levels.len(),
                lvlm == m0.levels[level as int],
                seg_count == lvlm.len(),
                0 <= scan <= seg_count,
                pos == below_prefix_len(lvlm.take(scan as int), x),
                pos <= scan,
                ok == (forall|p: int| 0 <= p < scan ==> segs_disjoint(#[trigger] lvlm[p], x)),
            decreases seg_count - scan,
        {
            let ghost e = lvlm[scan as int];
            let (below, above) = {
                let lvl = &self.levels[level];
                let s = &lvl.segments[scan];
                proof {
                    assert(e == self.levels@[level as int]@[scan as int]);
                }
                let below = {
                    let last = s.items.len() - 1;
                    crate::value::bytes_cmp(&s.items[last].key.user_key, &seg.items[0].key.user_key)
                        == -1
                };
                let above = {
                    let last = seg.items.len() - 1;
                    crate::value::bytes_cmp(&seg.items[last].key.user_key, &s.items[0].key.user_key)
                        == -1
                };
                (below, above)
            };
            proof {
                assert(below == segs_below(e, x));
                assert(above == segs_below(x, e));
                lemma_below_prefix_take_step(lvlm, x, scan as int);
            }
            if !below && !above {
                ok = false;
            }
            if below && pos == scan {
                // The strictly-below prefix is still unbroken.
                pos = pos + 1;
            }
            scan = scan + 1;
        }
        proof {
            assert(lvlm.take(seg_count as int) =~= lvlm);
        }
        if !ok {
            return false;
        }
        let lvl = level_at(&mut self.levels, level);
        lvl.segments.insert(pos, seg);
        proof {
            assert(self@.levels =~= m0.levels.update(
                level as int,
                lvlm.insert(pos as int, x),
            )) by {
                assert(self.levels@[level as int]@ =~= lvlm.insert(pos as int, x));
                assert forall|l: int|
                    0 <= l < self@.levels.len() && l != level implies self@.levels[l]
                    == m0.levels[l] by {
                    assert(self.levels@[l]@ == m0.levels[l]);
                }
            }
            lemma_insert_keeps_wf(m0, level as int, pos as int, x);
            lemma_entries_after_insert(m0, level as int, pos as int, x);
        }
        true
    }

    /// Number of segments standing in `level`.
    pub fn segment_count_at(&self, level: usize) -> (r: usize)
        requires
            level < self@.levels.len(),
        ensures
            r == self@.levels[level as int].len(),
    {
        let lvl = &self.levels[level];
        proof {
            assert(self@.levels[level as int] == self.levels@[level as int]@);
        }
        lvl.segments.len()
    }

    /// Id and key range of the segment at `idx` of `level`.
    pub fn segment_bounds_at(&self, level: usize, idx: usize) -> (r: (u64, Vec<u8>, Vec<u8>))
        requires
            self.wf(),
            level < self@.levels.len(),
            idx < self@.levels[level as int].len(),
        ensures
            r.0 == self@.levels[level as int][idx as int].id,
            r.1@ == seg_min(self@.levels[level as int][idx as int]),
            r.2@ == seg_max(self@.levels[level as int][idx as int]),
    {
        let lvl = &self.levels[level];
        let s = &lvl.segments[idx];
        proof {
            assert(self@.levels[level as int][idx as int] == self.levels@[level as int]@[idx as int]);
            assert(seg_wf(s@));
        }
        let last = s.items.len() - 1;
        let lo = crate::value::clone_bytes(&s.items[0].key.user_key);
        let hi = crate::value::clone_bytes(&s.items[last].key.user_key);
        (s.id, lo, hi)
    }

    /// True iff some segment of the manifest carries `id`.
    pub fn has_segment(&self, id: u64) -> (r: bool)
        requires
            self.wf(),
        ensures
            r == man_has_id(self@, id),
    {
        let ghost m0 = self@;
        let mut li: usize = 0;
        while li < self.levels.len()
            invariant
                self.wf(),
                m0 == self@,
                0 <= li <= self@.levels.len(),
                forall|l: int, p: int|
                    0 <= l < li && 0 <= p < m0.levels[l].len() ==> (#[trigger] m0.levels[l][p]).id
                        != id,
            decreases self@.levels.len() - li,
        {
            let seg_count = {
                let lvl = &self.levels[li];
                lvl.segments.len()
            };
            proof {
                assert(m0.levels[li as int] == self.levels@[li as int]@);
            }
            let mut si: usize = 0;
            while si < seg_count
                invariant
                    self.wf(),
                    m0 == self@,
                    0 <= li < self@.levels.len(),
                    seg_count == m0.levels[li as int].len(),
                    0 <= si <= seg_count,
                    forall|l: int, p: int|
                        0 <= l < li && 0 <= p < m0.levels[l].len() ==> (#[trigger] m0.levels[l][p]).id
                            != id,
                    forall|p: int|
                        0 <= p < si ==> (#[trigger] m0.levels[li as int][p]).id != id,
                decreases seg_count - si,
            {
                let hit = {
                    let lvl = &self.levels[li];
                    lvl.segments[si].id == id
                };
                proof {
                    assert(m0.levels[li as int][si as int] == self.levels@[li as int]@[si as int]);
                }
                if hit {
                    return true;
                }
                si = si + 1;
            }
            li = li + 1;
        }
        proof {
            assert(!man_has_id(m0, id));
        }
        false
    }

    /// Hands out a copy of the run of the segment carrying `id`.
    pub fn find_run(&self, id: u64) -> (r: Option<Vec<InternalValue>>)
        requires
            self.wf(),
        ensures
            r is Some <==> man_has_id(self@, id),
            match r {
                Option::Some(v) => {
                    &&& models(v@) == seg_of(self@, id).items
                    &&& entries_sorted(models(v@))
                    &&& v@.len() > 0
                },
                Option::None => true,
            },
    {
        let ghost m0 = self@;
        let mut li: usize = 0;
        while li < self.levels.len()
            invariant
                self.wf(),
                m0 == self@,
                0 <= li <= self@.levels.len(),
                forall|l: int, p: int|
                    0 <= l < li && 0 <= p < m0.levels[l].len() ==> (#[trigger] m0.levels[l][p]).id
                        != id,
            decreases self@.levels.len() - li,
        {
            let seg_count = {
                let lvl = &self.levels[li];
                lvl.segments.len()
            };
            proof {
                assert(m0.levels[li as int] == self.levels@[li as int]@);
            }
            let mut si: usize = 0;
            while si < seg_count
                invariant
                    self.wf(),
                    m0 == self@,
                    0 <= li < self@.levels.len(),
                    seg_count == m0.levels[li as int].len(),
                    0 <= si <= seg_count,
                    forall|l: int, p: int|
                        0 <= l < li && 0 <= p < m0.levels[l].len() ==> (#[trigger] m0.levels[l][p]).id
                            != id,
                    forall|p: int|
                        0 <= p < si ==> (#[trigger] m0.levels[li as int][p]).id != id,
                decreases seg_count - si,
            {
                let lvl = &self.levels[li];
                let s = &lvl.segments[si];
                proof {
                    assert(m0.levels[li as int][si as int] == self.levels@[li as int]@[si as int]);
                }
                if s.id == id {
                    let run = crate::value::clone_run(&s.items);
                    proof {
                        lemma_seg_of_unique(m0, id, li as int, si as int);
                    }
                    return Some(run);
                }
                si = si + 1;
            }
            li = li + 1;
        }
        proof {
            assert(!man_has_id(m0, id));
        }
        None
    }
}

pub proof fn lemma_levels_ms_push(lv: Seq<Seq<SegmentModel>>, x: Seq<SegmentModel>)
    ensures
        levels_entries_ms(lv.push(x)) == levels_entries_ms(lv).add(level_entries_ms(x)),
    decreases lv.len(),
{
    broadcast use vstd::multiset::group_multiset_axioms;

    if lv.len() == 0 {
        assert(lv.push(x)[0] == x);
        assert(lv.push(x).drop_first() =~= Seq::<Seq<SegmentModel>>::empty());
        assert(levels_entries_ms(lv.push(x)) == level_entries_ms(x).add(
            levels_entries_ms(Seq::<Seq<SegmentModel>>::empty()),
        ));
        assert(levels_entries_ms(lv.push(x)) =~= levels_entries_ms(lv).add(level_entries_ms(x)));
    } else {
        assert(lv.push(x)[0] == lv[0]);
        assert(lv.push(x).drop_first() =~= lv.drop_first().push(x));
        lemma_levels_ms_push(lv.drop_first(), x);
        assert(levels_entries_ms(lv.push(x)) == level_entries_ms(lv[0]).add(
            levels_entries_ms(lv.drop_first().push(x)),
        ));
        assert(levels_entries_ms(lv.push(x)) =~= levels_entries_ms(lv).add(level_entries_ms(x)));
    }
}

impl LevelManifest {
    /// Copies of every segment's run, level order first; what a reader
    /// composes its merged view from.
    pub fn all_runs(&self) -> (r: Vec<Vec<InternalValue>>)
        requires
            self.wf(),
        ensures
            forall|i: int|
                0 <= i < r@.len() ==> entries_sorted(models((#[trigger] r@[i])@)),
            runs_multiset(r@.map_values(|v: Vec<InternalValue>| models(v@))) == man_entries_ms(
                self@,
            ),
    {
        broadcast use vstd::multiset::group_multiset_axioms;

        let ghost m = self@;
        let mut out: Vec<Vec<InternalValue>> = Vec::new();
        let mut li: usize = 0;
        proof {
            assert(m.levels.take(0) =~= Seq::<Seq<SegmentModel>>::empty());
            vstd::multiset::lemma_multiset_empty_len(
                levels_entries_ms(Seq::<Seq<SegmentModel>>::empty()),
            );
            assert(out@.map_values(|v: Vec<InternalValue>| models(v@))
                =~= Seq::<Seq<EntryModel>>::empty());
            assert(runs_multiset(out@.map_values(|v: Vec<InternalValue>| models(v@)))
                =~= levels_entries_ms(m.levels.take(0)));
        }
        while li < self.levels.len()
            invariant
                self.wf(),
                m == self@,
                0 <= li <= m.levels.len(),
                forall|i: int|
                    0 <= i < out@.len() ==> entries_sorted(models((#[trigger] out@[i])@)),
                runs_multiset(out@.map_values(|v: Vec<InternalValue>| models(v@)))
                    == levels_entries_ms(m.levels.take(li as int)),
            decreases m.levels.len() - li,
        {
            let seg_count = {
                let lvl = &self.levels[li];
                lvl.segments.len()
            };
            proof {
                assert(m.levels[li as int] == self.levels@[li as int]@);
                assert(runs_of(m.levels[li as int].take(0)) =~= Seq::<Seq<EntryModel>>::empty());
                vstd::multiset::lemma_multiset_empty_len(
                    runs_multiset(Seq::<Seq<EntryModel>>::empty()),
                );
            }
            let mut si: usize = 0;
            while si < seg_count
                invariant
                    self.wf(),
                    m == self@,
                    0 <= li < m.levels.len(),
                    seg_count == m.levels[li as int].len(),
                    0 <= si <= seg_count,
                    forall|i: int|
                        0 <= i < out@.len() ==> entries_sorted(models((#[trigger] out@[i])@)),
                    runs_multiset(out@.map_values(|v: Vec<InternalValue>| models(v@)))
                        == levels_entries_ms(m.levels.take(li as int)).add(
                        runs_multiset(runs_of(m.levels[li as int].take(si as int))),
                    ),
                decreases seg_count - si,
            {
                let ghost outv = out@.map_values(|v: Vec<InternalValue>| models(v@));
                let ghost sm = m.levels[li as int][si as int];
                let run = {
                    let lvl = &self.levels[li];
                    let s = &lvl.segments[si];
                    proof {
                        assert(sm == self.levels@[li as int]@[si as int]);
                    }
                    crate::value::clone_run(&s.items)
                };
                out.push(run);
                proof {
                    assert(out@.map_values(|v: Vec<InternalValue>| models(v@)) =~= outv.push(
                        sm.items,
                    ));
                    crate::merge::lemma_runs_multiset_push(outv, sm.items);
                    assert(m.levels[li as int].take(si + 1) =~= m.levels[li as int].take(
                        si as int,
                    ).push(sm));
                    assert(runs_of(m.levels[li as int].take(si as int).push(sm)) =~= runs_of(
                        m.levels[li as int].take(si as int),
                    ).push(sm.items));
                    crate::merge::lemma_runs_multiset_push(
                        runs_of(m.levels[li as int].take(si as int)),
                        sm.items,
                    );
                    assert(runs_multiset(out@.map_values(|v: Vec<InternalValue>| models(v@)))
                        =~= levels_entries_ms(m.levels.take(li as int)).add(
                        runs_multiset(runs_of(m.levels[li as int].take(si + 1))),
                    ));
                }
                si = si + 1;
            }
            proof {
                assert(m.levels[li as int].take(seg_count as int) =~= m.levels[li as int]);
                assert(m.levels.take(li + 1) =~= m.levels.take(li as int).push(
                    m.levels[li as int],
                ));
                lemma_levels_ms_push(m.levels.take(li as int), m.levels[li as int]);
                assert(runs_multiset(out@.map_values(|v: Vec<InternalValue>| models(v@)))
                    =~= levels_entries_ms(m.levels.take(li + 1)));
            }
            li = li + 1;
        }
        proof {
            assert(m.levels.take(m.levels.len() as int) =~= m.levels);
        }
        out
    }
}

/// Wire tag of an entry kind.
pub open spec fn value_type_tag(t: crate::value::ValueType) -> u8 {
    match t {
        crate::value::ValueType::Value => 0,
        crate::value::ValueType::Tombstone => 1,
        crate::value::ValueType::WeakTombstone => 2,
    }
}

/// Wire form of one entry in a segment's blocks file: length-prefixed key,
/// kind tag, seqno, then the length-prefixed value, integers big-endian.
pub open spec fn entry_encoding(e: EntryModel) -> Seq<u8> {
    crate::coding::be_bytes_u32(e.user_key.len() as u32) + e.user_key + seq![
        value_type_tag(e.value_type),
    ] + crate::coding::be_bytes_u64(e.seqno) + crate::coding::be_bytes_u32(e.value.len() as u32)
        + e.value
}

/// Wire form of a whole run, entry after entry.
pub open spec fn run_encoding(s: Seq<EntryModel>) -> Seq<u8>
    decreases s.len(),
{
    if s.len() == 0 {
        Seq::empty()
    } else {
        entry_encoding(s[0]) + run_encoding(s.drop_first())
    }
}

proof fn lemma_run_encoding_push(s: Seq<EntryModel>, x: EntryModel)
    ensures
        run_encoding(s.push(x)) == run_encoding(s) + entry_encoding(x),
    decreases s.len(),
{
    if s.len() == 0 {
        assert(s.push(x)[0] == x);
        assert(s.push(x).drop_first() =~= Seq::<EntryModel>::empty());
        assert(run_encoding(Seq::<EntryModel>::empty()) == Seq::<u8>::empty());
        assert(run_encoding(s.push(x)) =~= run_encoding(s) + entry_encoding(x));
    } else {
        assert(s.push(x)[0] == s[0]);
        assert(s.push(x).drop_first() =~= s.drop_first().push(x));
        lemma_run_encoding_push(s.drop_first(), x);
        assert(run_encoding(s.push(x)) =~= run_encoding(s) + entry_encoding(x));
    }
}

/// Serializes a run for a segment's blocks file.
pub fn encode_run(items: &Vec<InternalValue>) -> (r: Vec<u8>)
    requires
        forall|i: int|
            0 <= i < items@.len() ==> (#[trigger] models(items@)[i]).user_key.len() <= u32::MAX
                && models(items@)[i].value.len() <= u32::MAX,
    ensures
        r@ == run_encoding(models(items@)),
{
    let ghost ms = models(items@);
    let mut out: Vec<u8> = Vec::new();
    let mut i: usize = 0;
    proof {
        assert(ms.take(0) =~= Seq::<EntryModel>::empty());
        assert(out@ =~= run_encoding(ms.take(0)));
    }
    while i < items.len()
        invariant
            0 <= i <= ms.len(),
            ms == models(items@),
            forall|j: int|
                0 <= j < ms.len() ==> (#[trigger] ms[j]).user_key.len() <= u32::MAX
                    && ms[j].value.len() <= u32::MAX,
            out@ == run_encoding(ms.take(i as int)),
        decreases ms.len() - i,
    {
        let ghost e = ms[i as int];
        let ghost before = out@;
        proof {
            assert(e == models(items@)[i as int]);
        }
        let item = &items[i];
        crate::coding::put_u32_be(&mut out, item.key.user_key.len() as u32);
        crate::coding::put_bytes(&mut out, &item.key.user_key);
        let tag: u8 = match item.key.value_type {
            crate::value::ValueType::Value => 0,
            crate::value::ValueType::Tombstone => 1,
            crate::value::ValueType::WeakTombstone => 2,
        };
        out.push(tag);
        crate::coding::put_u64_be(&mut out, item.key.seqno);
        crate::coding::put_u32_be(&mut out, item.value.len() as u32);
        crate::coding::put_bytes(&mut out, &item.value);
        proof {
            assert(tag == value_type_tag(e.value_type));
            assert(out@ =~= before + entry_encoding(e));
            assert(ms.take(i + 1) =~= ms.take(i as int).push(e));
            lemma_run_encoding_push(ms.take(i as int), e);
            assert(out@ =~= run_encoding(ms.take(i + 1)));
        }
        i = i + 1;
    }
    proof {
        assert(ms.take(ms.len() as int) =~= ms);
    }
    out
}

/// Wire form of one level's ids, in order, each big-endian.
pub open spec fn level_ids_encoding(lvl: Seq<SegmentModel>) -> Seq<u8>
    decreases lvl.len(),
{
    if lvl.len() == 0 {
        Seq::empty()
    } else {
        crate::coding::be_bytes_u64(lvl[0].id) + level_ids_encoding(lvl.drop_first())
    }
}

/// Wire form of the level stack: per level its segment count, then its ids.
pub open spec fn levels_encoding(lv: Seq<Seq<SegmentModel>>) -> Seq<u8>
    decreases lv.len(),
{
    if lv.len() == 0 {
        Seq::empty()
    } else {
        crate::coding::be_bytes_u32(lv[0].len() as u32) + level_ids_encoding(lv[0])
            + levels_encoding(lv.drop_first())
    }
}

/// The durable form of the manifest: generation, level count, and each
/// level's segment ids; what an atomic rewrite of the manifest file holds.
pub open spec fn manifest_encoding(m: ManifestModel, generation: u64) -> Seq<u8> {
    crate::coding::be_bytes_u64(generation) + crate::coding::be_bytes_u32(m.levels.len() as u32)
        + levels_encoding(m.levels)
}

proof fn lemma_level_ids_push(lvl: Seq<SegmentModel>, x: SegmentModel)
    ensures
        level_ids_encoding(lvl.push(x)) == level_ids_encoding(lvl) + crate::coding::be_bytes_u64(
            x.id,
        ),
    decreases lvl.len(),
{
    if lvl.len() == 0 {
        assert(lvl.push(x)[0] == x);
        assert(lvl.push(x).drop_first() =~= Seq::<SegmentModel>::empty());
        assert(level_ids_encoding(Seq::<SegmentModel>::empty()) == Seq::<u8>::empty());
        assert(level_ids_encoding(lvl.push(x)) =~= level_ids_encoding(lvl)
            + crate::coding::be_bytes_u64(x.id));
    } else {
        assert(lvl.push(x)[0] == lvl[0]);
        assert(lvl.push(x).drop_first() =~= lvl.drop_first().push(x));
        lemma_level_ids_push(lvl.drop_first(), x);
        assert(level_ids_encoding(lvl.push(x)) =~= level_ids_encoding(lvl)
            + crate::coding::be_bytes_u64(x.id));
    }
}

proof fn lemma_levels_encoding_push(lv: Seq<Seq<SegmentModel>>, x: Seq<SegmentModel>)
    ensures
        levels_encoding(lv.push(x)) == levels_encoding(lv) + crate::coding::be_bytes_u32(
            x.len() as u32,
        ) + level_ids_encoding(x),
    decreases lv.len(),
{
    if lv.len() == 0 {
        assert(lv.push(x)[0] == x);
        assert(lv.push(x).drop_first() =~= Seq::<Seq<SegmentModel>>::empty());
        assert(levels_encoding(Seq::<Seq<SegmentModel>>::empty()) == Seq::<u8>::empty());
        assert(levels_encoding(lv.push(x)) =~= levels_encoding(lv) + crate::coding::be_bytes_u32(
            x.len() as u32,
        ) + level_ids_encoding(x));
    } else {
        assert(lv.push(x)[0] == lv[0]);
        assert(lv.push(x).drop_first() =~= lv.drop_first().push(x));
        lemma_levels_encoding_push(lv.drop_first(), x);
        assert(levels_encoding(lv.push(x)) =~= levels_encoding(lv) + crate::coding::be_bytes_u32(
            x.len() as u32,
        ) + level_ids_encoding(x));
    }
}

impl LevelManifest {
    /// Serializes the manifest for its atomic on-disk rewrite.
    pub fn encode(&self, generation: u64) -> (r: Vec<u8>)
        requires
            self.wf(),
            self@.levels.len() <= u32::MAX,
            forall|l: int|
                0 <= l < self@.levels.len() ==> (#[trigger] self@.levels[l]).len() <= u32::MAX,
        ensures
            r@ == manifest_encoding(self@, generation),
    {
        let ghost m = self@;
        let mut out: Vec<u8> = Vec::new();
        crate::coding::put_u64_be(&mut out, generation);
        crate::coding::put_u32_be(&mut out, self.levels.len() as u32);
        let ghost head = out@;
        proof {
            assert(m.levels.take(0) =~= Seq::<Seq<SegmentModel>>::empty());
            assert(out@ =~= head + levels_encoding(m.levels.take(0)));
        }
        let mut li: usize = 0;
        while li < self.levels.len()
            invariant
                self.wf(),
                m == self@,
                forall|l: int|
                    0 <= l < m.levels.len() ==> (#[trigger] m.levels[l]).len() <= u32::MAX,
                0 <= li <= m.levels.len(),
                out@ == head + levels_encoding(m.levels.take(li as int)),
            decreases m.levels.len() - li,
        {
            let ghost lvlm = m.levels[li as int];
            let seg_count = {
                let lvl = &self.levels[li];
                lvl.segments.len()
            };
            proof {
                assert(lvlm == self.levels@[li as int]@);
            }
            crate::coding::put_u32_be(&mut out, seg_count as u32);
            let ghost mid = out@;
            proof {
                assert(lvlm.take(0) =~= Seq::<SegmentModel>::empty());
                assert(out@ =~= mid + level_ids_encoding(lvlm.take(0)));
            }
            let mut si: usize = 0;
            while si < seg_count
                invariant
                    self.wf(),
                    m == self@,
                    0 <= li < m.levels.len(),
                    lvlm == m.levels[li as int],
                    seg_count == lvlm.len(),
                    0 <= si <= seg_count,
                    out@ == mid + level_ids_encoding(lvlm.take(si as int)),
                decreases seg_count - si,
            {
                let id = {
                    let lvl = &self.levels[li];
                    lvl.segments[si].id
                };
                proof {
                    assert(lvlm[si as int] == self.levels@[li as int]@[si as int]);
                }
                crate::coding::put_u64_be(&mut out, id);
                proof {
                    assert(lvlm.take(si + 1) =~= lvlm.take(si as int).push(lvlm[si as int]));
                    lemma_level_ids_push(lvlm.take(si as int), lvlm[si as int]);
                    assert(out@ =~= mid + level_ids_encoding(lvlm.take(si + 1)));
                }
                si = si + 1;
            }
            proof {
                assert(lvlm.take(seg_count as int) =~= lvlm);
                assert(m.levels.take(li + 1) =~= m.levels.take(li as int).push(lvlm));
                lemma_levels_encoding_push(m.levels.take(li as int), lvlm);
                assert(out@ =~= head + levels_encoding(m.levels.take(li + 1)));
            }
            li = li + 1;
        }
        proof {
            assert(m.levels.take(m.levels.len() as int) =~= m.levels);
            assert(out@ =~= manifest_encoding(m, generation));
        }
        out
    }
}

/// Entry accounting for removing one segment.
pub proof fn lemma_entries_after_remove(m: ManifestModel, l0: int, p0: int)
    requires
        0 <= l0 < m.levels.len(),
        0 <= p0 < m.levels[l0].len(),
    ensures
        man_entries_ms(m) == levels_entries_ms(
            m.levels.update(l0, m.levels[l0].remove(p0)),
        ).add(m.levels[l0][p0].items.to_multiset()),
{
    broadcast use vstd::multiset::group_multiset_axioms;

    let lvl2 = m.levels[l0].remove(p0);
    lemma_levels_ms_update(m.levels, l0, lvl2);
    lemma_level_ms_remove(m.levels[l0], p0);
    let a = levels_entries_ms(m.levels.update(l0, lvl2));
    let b = levels_entries_ms(m.levels);
    let c = level_entries_ms(m.levels[l0]);
    let d = level_entries_ms(lvl2);
    let x = m.levels[l0][p0].items.to_multiset();
    assert(a.add(c) == b.add(d));
    assert(c == d.add(x));
    assert(a.add(d.add(x)) =~= a.add(x).add(d));
    assert(b.add(d) =~= b.add(d));
    // Cancel the shared level entries on both sides.
    assert forall|e: EntryModel| true implies #[trigger] b.count(e) == a.add(x).count(e) by {
        assert(a.add(c).count(e) == b.add(d).count(e));
    }
    assert(b =~= a.add(x));
}

/// Entry accounting for installing one segment.
proof fn lemma_entries_after_insert(m: ManifestModel, l0: int, p0: int, x: SegmentModel)
    requires
        0 <= l0 < m.levels.len(),
        0 <= p0 <= m.levels[l0].len(),
    ensures
        levels_entries_ms(m.levels.update(l0, m.levels[l0].insert(p0, x))) == man_entries_ms(
            m,
        ).add(x.items.to_multiset()),
{
    broadcast use vstd::multiset::group_multiset_axioms;

    let lvl2 = m.levels[l0].insert(p0, x);
    lemma_levels_ms_update(m.levels, l0, lvl2);
    lemma_level_ms_insert(m.levels[l0], p0, x);
    let a = levels_entries_ms(m.levels.update(l0, lvl2));
    let b = levels_entries_ms(m.levels);
    let c = level_entries_ms(m.levels[l0]);
    let d = level_entries_ms(lvl2);
    let xm = x.items.to_multiset();
    assert(a.add(c) == b.add(d));
    assert(d == c.add(xm));
    assert forall|e: EntryModel| true implies #[trigger] a.count(e) == b.add(xm).count(e) by {
        assert(a.add(c).count(e) == b.add(d).count(e));
    }
    assert(a =~= b.add(xm));
}

/// Removing the segment with one id leaves every other id's segment in
/// place.
pub proof fn lemma_remove_preserves_others(m: ManifestModel, id: u64, id2: u64)
    requires
        man_wf(m),
        man_has_id(m, id),
        id2 != id,
    ensures
        ({
            let m2 = ManifestModel {
                levels: m.levels.update(
                    seg_pos(m, id).0,
                    m.levels[seg_pos(m, id).0].remove(seg_pos(m, id).1),
                ),
                ..m
            };
            &&& man_has_id(m2, id2) == man_has_id(m, id2)
            &&& (man_has_id(m, id2) ==> seg_of(m2, id2) == seg_of(m, id2))
            &&& !man_has_id(m2, id)
        }),
{
    let (l0, p0) = seg_pos(m, id);
    assert(0 <= l0 < m.levels.len() && 0 <= p0 < m.levels[l0].len() && m.levels[l0][p0].id == id);
    let m2 = ManifestModel {
        levels: m.levels.update(l0, m.levels[l0].remove(p0)),
        ..m
    };
    lemma_remove_keeps_wf(m, l0, p0);
    assert forall|l: int, p: int|
        0 <= l < m2.levels.len() && 0 <= p < m2.levels[l].len() implies (#[trigger] m2.levels[l][p]).id
        != id by {
        let pa: int = if l == l0 && p >= p0 { p + 1 } else { p };
        assert(m2.levels[l][p] == m.levels[l][pa]);
        if l != l0 || pa != p0 {
            assert(m.levels[l][pa].id != m.levels[l0][p0].id);
        }
    }
    assert(!man_has_id(m2, id));
    if man_has_id(m, id2) {
        let (l2, p2) = seg_pos(m, id2);
        assert(0 <= l2 < m.levels.len() && 0 <= p2 < m.levels[l2].len() && m.levels[l2][p2].id
            == id2);
        assert(l2 != l0 || p2 != p0);
        let p2b: int = if l2 == l0 && p2 > p0 { p2 - 1 } else { p2 };
        assert(m2.levels[l2][p2b] == m.levels[l2][p2]);
        lemma_seg_of_unique(m2, id2, l2, p2b);
        lemma_seg_of_unique(m, id2, l2, p2);
    }
    if man_has_id(m2, id2) {
        let (l2, p2) = seg_pos(m2, id2);
        assert(0 <= l2 < m2.levels.len() && 0 <= p2 < m2.levels[l2].len() && m2.levels[l2][p2].id
            == id2);
        let pa: int = if l2 == l0 && p2 >= p0 { p2 + 1 } else { p2 };
        assert(m2.levels[l2][p2] == m.levels[l2][pa]);
        assert(man_has_id(m, id2));
    }
}

/// Installing a fresh segment leaves every other id's segment in place.
pub proof fn lemma_insert_preserves_others(m: ManifestModel, level: int, x: SegmentModel, id2: u64)
    requires
        man_wf(m),
        seg_wf(x),
        0 <= level < m.levels.len(),
        !man_has_id(m, x.id),
        fits_level(m, level, x),
        id2 != x.id,
    ensures
        ({
            let m2 = ManifestModel {
                levels: m.levels.update(
                    level,
                    m.levels[level].insert(insert_pos(m, level, x), x),
                ),
                ..m
            };
            &&& man_has_id(m2, id2) == man_has_id(m, id2)
            &&& (man_has_id(m, id2) ==> seg_of(m2, id2) == seg_of(m, id2))
            &&& man_has_id(m2, x.id)
            &&& seg_of(m2, x.id) == x
        }),
{
    let p0 = insert_pos(m, level, x);
    lemma_below_prefix_facts(m.levels[level], x);
    assert(0 <= p0 <= m.levels[level].len());
    let m2 = ManifestModel {
        levels: m.levels.update(level, m.levels[level].insert(p0, x)),
        ..m
    };
    lemma_insert_keeps_wf(m, level, p0, x);
    assert(m2.levels[level][p0] == x);
    lemma_seg_of_unique(m2, x.id, level, p0);
    if man_has_id(m, id2) {
        let (l2, p2) = seg_pos(m, id2);
        assert(0 <= l2 < m.levels.len() && 0 <= p2 < m.levels[l2].len() && m.levels[l2][p2].id
            == id2);
        let p2b: int = if l2 == level && p2 >= p0 { p2 + 1 } else { p2 };
        assert(m2.levels[l2][p2b] == m.levels[l2][p2]);
        lemma_seg_of_unique(m2, id2, l2, p2b);
        lemma_seg_of_unique(m, id2, l2, p2);
    }
    if man_has_id(m2, id2) {
        let (l2, p2) = seg_pos(m2, id2);
        assert(0 <= l2 < m2.levels.len() && 0 <= p2 < m2.levels[l2].len() && m2.levels[l2][p2].id
            == id2);
        let pa: int = if l2 == level && p2 > p0 {
            p2 - 1
        } else if l2 == level && p2 == p0 {
            p2
        } else {
            p2
        };
        if l2 == level && p2 == p0 {
            assert(m2.levels[l2][p2] == x);
            assert(false);
        } else {
            assert(m2.levels[l2][p2] == m.levels[l2][pa]);
            assert(man_has_id(m, id2));
        }
    }
}

/// Removing one segment keeps a manifest well formed.
pub proof fn lemma_remove_keeps_wf(m: ManifestModel, l0: int, p0: int)
    requires
        man_wf(m),
        0 <= l0 < m.levels.len(),
        0 <= p0 < m.levels[l0].len(),
    ensures
        man_wf(
            ManifestModel {
                levels: m.levels.update(l0, m.levels[l0].remove(p0)),
                ..m
            },
        ),
{
    let lv2 = m.levels.update(l0, m.levels[l0].remove(p0));
    let m2 = ManifestModel { levels: lv2, ..m };
    assert forall|l: int, p: int|
        0 <= l < lv2.len() && 0 <= p < lv2[l].len() implies seg_wf(#[trigger] lv2[l][p]) by {
        if l == l0 {
            if p < p0 {
                assert(lv2[l][p] == m.levels[l][p]);
            } else {
                assert(lv2[l][p] == m.levels[l][p + 1]);
            }
        }
    }
    assert forall|l: int| 1 <= l < lv2.len() implies level_disjoint(#[trigger] lv2[l]) by {
        if l == l0 {
            assert forall|p: int, q: int|
                0 <= p < q < lv2[l].len() implies #[trigger] segs_below(lv2[l][p], lv2[l][q]) by {
                let p1: int = if p < p0 { p } else { p + 1 };
                let q1: int = if q < p0 { q } else { q + 1 };
                assert(lv2[l][p] == m.levels[l][p1]);
                assert(lv2[l][q] == m.levels[l][q1]);
                assert(segs_below(m.levels[l][p1], m.levels[l][q1]));
            }
        } else {
            assert(lv2[l] == m.levels[l]);
        }
    }
    assert forall|l: int, p: int, l2: int, p2: int|
        0 <= l < lv2.len() && 0 <= p < lv2[l].len() && 0 <= l2 < lv2.len() && 0 <= p2
            < lv2[l2].len() && (l != l2 || p != p2) implies (#[trigger] lv2[l][p]).id
        != (#[trigger] lv2[l2][p2]).id by {
        let pa: int = if l == l0 && p >= p0 { p + 1 } else { p };
        let pb: int = if l2 == l0 && p2 >= p0 { p2 + 1 } else { p2 };
        assert(lv2[l][p] == m.levels[l][pa]);
        assert(lv2[l2][p2] == m.levels[l2][pb]);
    }
}

/// Installing a fitting segment keeps a manifest well formed.
proof fn lemma_insert_keeps_wf(m: ManifestModel, l0: int, p0: int, x: SegmentModel)
    requires
        man_wf(m),
        seg_wf(x),
        0 <= l0 < m.levels.len(),
        !man_has_id(m, x.id),
        fits_level(m, l0, x),
        p0 == insert_pos(m, l0, x),
    ensures
        man_wf(
            ManifestModel {
                levels: m.levels.update(l0, m.levels[l0].insert(p0, x)),
                ..m
            },
        ),
{
    let lvl = m.levels[l0];
    lemma_below_prefix_facts(lvl, x);
    assert(0 <= p0 <= lvl.len());
    let lv2 = m.levels.update(l0, lvl.insert(p0, x));
    assert forall|l: int, p: int|
        0 <= l < lv2.len() && 0 <= p < lv2[l].len() implies seg_wf(#[trigger] lv2[l][p]) by {
        if l == l0 {
            if p < p0 {
                assert(lv2[l][p] == lvl[p]);
            } else if p == p0 {
                assert(lv2[l][p] == x);
            } else {
                assert(lv2[l][p] == lvl[p - 1]);
            }
        }
    }
    if l0 >= 1 {
        assert forall|p: int, q: int|
            0 <= p < q < lv2[l0].len() implies #[trigger] segs_below(lv2[l0][p], lv2[l0][q]) by {
            let pp: int = if p < p0 { p } else { p - 1 };
            let qq: int = if q < p0 { q } else { q - 1 };
            if p < p0 && q == p0 {
                // An entry of the strictly-below prefix against the new one.
                assert(lv2[l0][p] == lvl[pp]);
                assert(segs_below(lvl[pp], x));
            } else if p == p0 {
                // The new entry against an entry past the prefix: it is not
                // strictly below, so by disjointness the new one lies below
                // it, and below everything after it.
                assert(lv2[l0][q] == lvl[qq]);
                assert(p0 <= qq < lvl.len());
                assert(!segs_below(lvl[p0], x));
                assert(segs_disjoint(lvl[p0], x));
                assert(segs_below(x, lvl[p0]));
                if qq > p0 {
                    assert(segs_below(lvl[p0], lvl[qq]));
                    lemma_segs_below_chain(x, lvl[p0], lvl[qq]);
                }
            } else {
                assert(lv2[l0][p] == lvl[pp]);
                assert(lv2[l0][q] == lvl[qq]);
                assert(pp < qq);
                assert(segs_below(lvl[pp], lvl[qq]));
            }
        }
    }
    assert forall|l: int| 1 <= l < lv2.len() implies level_disjoint(#[trigger] lv2[l]) by {
        if l != l0 {
            assert(lv2[l] == m.levels[l]);
        }
    }
    assert forall|l: int, p: int, l2: int, p2: int|
        0 <= l < lv2.len() && 0 <= p < lv2[l].len() && 0 <= l2 < lv2.len() && 0 <= p2
            < lv2[l2].len() && (l != l2 || p != p2) implies (#[trigger] lv2[l][p]).id
        != (#[trigger] lv2[l2][p2]).id by {
        if l == l0 && p == p0 {
            if !(l2 == l0 && p2 == p0) {
                let pb: int = if l2 == l0 && p2 > p0 { p2 - 1 } else { p2 };
                assert(lv2[l2][p2] == m.levels[l2][pb]);
                assert(m.levels[l2][pb].id != x.id);
            }
        } else if l2 == l0 && p2 == p0 {
            let pa: int = if l == l0 && p > p0 { p - 1 } else { p };
            assert(lv2[l][p] == m.levels[l][pa]);
            assert(m.levels[l][pa].id != x.id);
        } else {
            let pa: int = if l == l0 && p > p0 { p - 1 } else { p };
            let pb: int = if l2 == l0 && p2 > p0 { p2 - 1 } else { p2 };
            assert(lv2[l][p] == m.levels[l][pa]);
            assert(lv2[l2][p2] == m.levels[l2][pb]);
        }
    }
}

/// Strictly-below ranges chain through a middle segment.
proof fn lemma_segs_below_chain(a: SegmentModel, b: SegmentModel, c: SegmentModel)
    requires
        seg_wf(b),
        segs_below(a, b),
        segs_below(b, c),
    ensures
        segs_below(a, c),
{
    lemma_seg_range(b);
    lemma_lex_lt_le_lt(seg_max(a), seg_min(b), seg_max(b), seg_min(c));
}

/// `<`, `<=`, `<` chain on byte strings.
proof fn lemma_lex_lt_le_lt(a: Seq<u8>, b: Seq<u8>, c: Seq<u8>, d: Seq<u8>)
    requires
        lex_lt(a, b),
        lex_le(b, c),
        lex_lt(c, d),
    ensures
        lex_lt(a, d),
{
    lemma_lex_le_trans(a, b, c);
    lemma_lex_le_trans(a, c, d);
    if a == d {
        lemma_lex_le_antisym(a, c);
        lemma_lex_le_antisym(a, b);
    }
}

/// A prefix's strictly-below count grows by one exactly while the scan
/// stays below.
proof fn lemma_below_prefix_take_step(ss: Seq<SegmentModel>, x: SegmentModel, i: int)
    requires
        0 <= i < ss.len(),
    ensures
        below_prefix_len(ss.take(i + 1), x) == if below_prefix_len(ss.take(i), x) == i
            && segs_below(ss[i], x) {
            below_prefix_len(ss.take(i), x) + 1
        } else {
            below_prefix_len(ss.take(i), x) as nat
        },
    decreases i,
{
    if i == 0 {
        assert(ss.take(0) =~= Seq::<SegmentModel>::empty());
        assert(ss.take(1)[0] == ss[0]);
        if segs_below(ss[0], x) {
            assert(ss.take(1).drop_first() =~= Seq::<SegmentModel>::empty());
        }
    } else {
        assert(ss.take(i + 1)[0] == ss[0]);
        assert(ss.take(i)[0] == ss[0]);
        if segs_below(ss[0], x) {
            assert(ss.take(i + 1).drop_first() =~= ss.drop_first().take(i));
            assert(ss.take(i).drop_first() =~= ss.drop_first().take(i - 1));
            assert(ss.drop_first()[i - 1] == ss[i]);
            lemma_below_prefix_take_step(ss.drop_first(), x, i - 1);
        } else {
            assert(below_prefix_len(ss.take(i + 1), x) == 0);
            assert(below_prefix_len(ss.take(i), x) == 0);
        }
    }
}

} // verus!
