//! The internal value model: user keys, sequence numbers, value kinds, and
//! the total order `user_key ascending, seqno descending` that every sorted
//! run in the tree obeys.

use vstd::prelude::*;
use vstd::relations::{sorted_by, total_ordering};

verus! {

/// Kind of an entry: a live value, a deletion of all older versions, or a
/// "single delete" that cancels exactly one older value.
#[derive(Clone, Copy, Debug, PartialEq, Eq, Structural)]
pub enum ValueType {
    Value,
    Tombstone,
    WeakTombstone,
}

/// `(user_key, seqno, value_type)`: the key under which a version is stored.
#[derive(Clone, Debug, PartialEq, Eq)]
pub struct InternalKey {
    pub user_key: Vec<u8>,
    pub seqno: u64,
    pub value_type: ValueType,
}

/// One stored version: an internal key plus the user value (empty for
/// tombstones).
#[derive(Clone, Debug, PartialEq, Eq)]
pub struct InternalValue {
    pub key: InternalKey,
    pub value: Vec<u8>,
}

/// Mathematical image of an `InternalValue`.
pub ghost struct EntryModel {
    pub user_key: Seq<u8>,
    pub seqno: u64,
    pub value_type: ValueType,
    pub value: Seq<u8>,
}

impl View for InternalValue {
    type V = EntryModel;

    open spec fn view(&self) -> EntryModel {
        EntryModel {
            user_key: self.key.user_key@,
            seqno: self.key.seqno,
            value_type: self.key.value_type,
            value: self.value@,
        }
    }
}

impl InternalValue {
    /// Builds a version from its four components.
    pub fn from_components(
        user_key: Vec<u8>,
        value: Vec<u8>,
        seqno: u64,
        value_type: ValueType,
    ) -> (r: InternalValue)
        ensures
            r@ == (EntryModel { user_key: user_key@, seqno, value_type, value: value@ }),
    {
        InternalValue { key: InternalKey { user_key, seqno, value_type }, value }
    }

    /// True for plain and weak tombstones alike.
    pub fn is_tombstone(&self) -> (r: bool)
        ensures
            r == (self@.value_type != ValueType::Value),
    {
        !matches!(self.key.value_type, ValueType::Value)
    }
}

/// Model of a run of entries: each element replaced by its mathematical image.
pub open spec fn models(s: Seq<InternalValue>) -> Seq<EntryModel> {
    s.map_values(|e: InternalValue| e@)
}

/// Copies a byte string.
pub fn clone_bytes(v: &Vec<u8>) -> (r: Vec<u8>)
    ensures
        r@ == v@,
{
    let r = v.clone();
    proof {
        assert(r@ =~= v@);
    }
    r
}

impl InternalValue {
    /// Copies an entry; unlike the derived clone, the copy is known to have
    /// the same model.
    pub fn duplicate(&self) -> (r: InternalValue)
        ensures
            r@ == self@,
    {
        InternalValue {
            key: InternalKey {
                user_key: clone_bytes(&self.key.user_key),
                seqno: self.key.seqno,
                value_type: self.key.value_type,
            },
            value: clone_bytes(&self.value),
        }
    }
}

/// Filtering a run and then taking its multiset is the same as filtering
/// the multiset.
pub proof fn lemma_filter_to_multiset<A>(s: Seq<A>, pred: spec_fn(A) -> bool)
    ensures
        s.filter(pred).to_multiset() == s.to_multiset().filter(pred),
    decreases s.len(),
{
    broadcast use vstd::seq_lib::group_to_multiset_ensures;
    broadcast use vstd::multiset::group_multiset_axioms;

    reveal(Seq::filter);
    if s.len() == 0 {
        assert(s.to_multiset().len() == 0);
        vstd::multiset::lemma_multiset_empty_len(s.to_multiset());
        assert(s.filter(pred) =~= s);
        assert(s.filter(pred).to_multiset() =~= s.to_multiset().filter(pred));
    } else {
        let dl = s.drop_last();
        let last = s.last();
        lemma_filter_to_multiset(dl, pred);
        assert(s =~= dl.push(last));
        assert(dl.push(last).to_multiset() == dl.to_multiset().insert(last));
        if pred(last) {
            assert(s.filter(pred) == dl.filter(pred).push(last));
            assert(dl.filter(pred).push(last).to_multiset() == dl.filter(
                pred,
            ).to_multiset().insert(last));
        }
        assert forall|x: A| true implies #[trigger] s.filter(pred).to_multiset().count(x)
            == s.to_multiset().filter(pred).count(x) by {
            assert(s.to_multiset().count(x) == dl.to_multiset().count(x) + if x == last {
                1int
            } else {
                0int
            });
            assert(dl.filter(pred).to_multiset().count(x) == dl.to_multiset().filter(pred).count(
                x,
            ));
        }
        assert(s.filter(pred).to_multiset() =~= s.to_multiset().filter(pred));
    }
}

/// Copies a run of entries, preserving its model.
pub fn clone_run(v: &Vec<InternalValue>) -> (r: Vec<InternalValue>)
    ensures
        models(r@) == models(v@),
        r@.len() == v@.len(),
{
    let mut r: Vec<InternalValue> = Vec::new();
    let mut i: usize = 0;
    proof {
        assert(models(r@) =~= models(v@).take(0));
    }
    while i < v.len()
        invariant
            0 <= i <= v@.len(),
            r@.len() == i,
            models(r@) == models(v@).take(i as int),
        decreases v@.len() - i,
    {
        r.push(v[i].duplicate());
        proof {
            assert(models(r@) =~= models(v@).take(i + 1));
        }
        i = i + 1;
    }
    proof {
        assert(models(v@).take(v@.len() as int) =~= models(v@));
    }
    r
}

/// Rank used to break ties between entry kinds, placing tombstones before
/// values so that forward iteration meets the deletion first.
pub open spec fn value_type_rank(t: ValueType) -> int {
    match t {
        ValueType::Tombstone => 0,
        ValueType::WeakTombstone => 1,
        ValueType::Value => 2,
    }
}

/// Lexicographic `<=` on byte strings.
pub open spec fn lex_le(a: Seq<u8>, b: Seq<u8>) -> bool
    decreases a.len(),
{
    if a.len() == 0 {
        true
    } else if b.len() == 0 {
        false
    } else if a[0] < b[0] {
        true
    } else if a[0] > b[0] {
        false
    } else {
        lex_le(a.drop_first(), b.drop_first())
    }
}

/// Lexicographic `<` on byte strings.
pub open spec fn lex_lt(a: Seq<u8>, b: Seq<u8>) -> bool {
    lex_le(a, b) && a != b
}

/// The order every sorted run obeys: user key ascending, then seqno
/// descending (newest version first), then kind, then value bytes; a total
/// order on entry models.
pub open spec fn entry_le(x: EntryModel, y: EntryModel) -> bool {
    if x.user_key != y.user_key {
        lex_le(x.user_key, y.user_key)
    } else if x.seqno != y.seqno {
        x.seqno > y.seqno
    } else if x.value_type != y.value_type {
        value_type_rank(x.value_type) < value_type_rank(y.value_type)
    } else {
        lex_le(x.value, y.value)
    }
}

/// `entry_le` as a first-class relation, for use with vstd's ordering lemmas.
pub open spec fn entry_order() -> spec_fn(EntryModel, EntryModel) -> bool {
    |x: EntryModel, y: EntryModel| entry_le(x, y)
}

/// A run is sorted when every pair of entries respects `entry_le`.
pub open spec fn entries_sorted(s: Seq<EntryModel>) -> bool {
    forall|p: int, q: int| 0 <= p < q < s.len() ==> #[trigger] entry_le(s[p], s[q])
}

/// `entries_sorted` coincides with vstd's `sorted_by` under `entry_order`.
pub proof fn lemma_entries_sorted_is_sorted_by(s: Seq<EntryModel>)
    ensures
        entries_sorted(s) == sorted_by(s, entry_order()),
{
    let leq = entry_order();
    if entries_sorted(s) {
        assert forall|p: int, q: int| 0 <= p < q < s.len() implies #[trigger] leq(s[p], s[q]) by {
            assert(entry_le(s[p], s[q]));
        }
    }
    if sorted_by(s, leq) {
        assert forall|p: int, q: int| 0 <= p < q < s.len() implies #[trigger] entry_le(
            s[p],
            s[q],
        ) by {
            assert(leq(s[p], s[q]));
        }
    }
}

pub proof fn lemma_lex_le_refl(a: Seq<u8>)
    ensures
        lex_le(a, a),
    decreases a.len(),
{
    if a.len() > 0 {
        lemma_lex_le_refl(a.drop_first());
    }
}

pub proof fn lemma_lex_le_connected(a: Seq<u8>, b: Seq<u8>)
    ensures
        lex_le(a, b) || lex_le(b, a),
    decreases a.len(),
{
    if a.len() > 0 && b.len() > 0 && a[0] == b[0] {
        lemma_lex_le_connected(a.drop_first(), b.drop_first());
    }
}

pub proof fn lemma_lex_le_antisym(a: Seq<u8>, b: Seq<u8>)
    requires
        lex_le(a, b),
        lex_le(b, a),
    ensures
        a == b,
    decreases a.len(),
{
    if a.len() == 0 {
        assert(b.len() == 0);
        assert(a =~= b);
    } else {
        assert(b.len() > 0);
        assert(a[0] == b[0]);
        lemma_lex_le_antisym(a.drop_first(), b.drop_first());
        assert(a =~= seq![a[0]] + a.drop_first());
        assert(b =~= seq![b[0]] + b.drop_first());
    }
}

pub proof fn lemma_lex_le_trans(a: Seq<u8>, b: Seq<u8>, c: Seq<u8>)
    requires
        lex_le(a, b),
        lex_le(b, c),
    ensures
        lex_le(a, c),
    decreases a.len(),
{
    if a.len() > 0 && b.len() > 0 && c.len() > 0 && a[0] == b[0] && b[0] == c[0] {
        lemma_lex_le_trans(a.drop_first(), b.drop_first(), c.drop_first());
    }
}

pub proof fn lemma_entry_le_total_ordering()
    ensures
        total_ordering(entry_order()),
{
    let leq = entry_order();
    assert forall|x: EntryModel| #[trigger] leq(x, x) by {
        lemma_lex_le_refl(x.user_key);
        lemma_lex_le_refl(x.value);
    }
    assert forall|x: EntryModel, y: EntryModel| #[trigger] leq(x, y) || #[trigger] leq(y, x) by {
        lemma_lex_le_connected(x.user_key, y.user_key);
        lemma_lex_le_connected(x.value, y.value);
    }
    assert forall|x: EntryModel, y: EntryModel| #[trigger] leq(x, y) && #[trigger] leq(y, x) implies x == y by {
        if x.user_key != y.user_key {
            lemma_lex_le_antisym(x.user_key, y.user_key);
        } else if x.seqno == y.seqno && x.value_type == y.value_type {
            lemma_lex_le_antisym(x.value, y.value);
        }
    }
    assert forall|x: EntryModel, y: EntryModel, z: EntryModel|
        #[trigger] leq(x, y) && #[trigger] leq(y, z) implies leq(x, z) by {
        lemma_entry_le_trans(x, y, z);
    }
}

pub proof fn lemma_entry_le_connected(x: EntryModel, y: EntryModel)
    ensures
        entry_le(x, y) || entry_le(y, x),
{
    lemma_lex_le_connected(x.user_key, y.user_key);
    lemma_lex_le_connected(x.value, y.value);
}

pub proof fn lemma_entry_le_trans(x: EntryModel, y: EntryModel, z: EntryModel)
    requires
        entry_le(x, y),
        entry_le(y, z),
    ensures
        entry_le(x, z),
{
    if x.user_key == y.user_key && y.user_key == z.user_key {
        if x.seqno == y.seqno && y.seqno == z.seqno && x.value_type == y.value_type
            && y.value_type == z.value_type {
            lemma_lex_le_trans(x.value, y.value, z.value);
        }
    } else if x.user_key == y.user_key {
        // x, y share a key; z has a larger one.
    } else if y.user_key == z.user_key {
        // y, z share a key; x has a smaller one.
    } else {
        lemma_lex_le_trans(x.user_key, y.user_key, z.user_key);
        if x.user_key == z.user_key {
            lemma_lex_le_antisym(y.user_key, z.user_key);
        }
    }
}

proof fn lemma_lex_skip_step(a: Seq<u8>, b: Seq<u8>, i: int)
    requires
        0 <= i < a.len(),
        0 <= i < b.len(),
        a[i] == b[i],
    ensures
        lex_le(a.skip(i), b.skip(i)) == lex_le(a.skip(i + 1), b.skip(i + 1)),
        (a.skip(i) == b.skip(i)) == (a.skip(i + 1) == b.skip(i + 1)),
{
    assert(a.skip(i)[0] == a[i]);
    assert(b.skip(i)[0] == b[i]);
    assert(a.skip(i).drop_first() =~= a.skip(i + 1));
    assert(b.skip(i).drop_first() =~= b.skip(i + 1));
    if a.skip(i) == b.skip(i) {
        assert(a.skip(i + 1) =~= b.skip(i + 1));
    }
    if a.skip(i + 1) == b.skip(i + 1) {
        assert(a.skip(i) =~= seq![a[i]] + a.skip(i + 1));
        assert(b.skip(i) =~= seq![b[i]] + b.skip(i + 1));
    }
}

/// Three-way byte-string comparison; the backbone of the executable order.
pub fn bytes_cmp(a: &Vec<u8>, b: &Vec<u8>) -> (r: i8)
    ensures
        r == -1 <==> lex_lt(a@, b@),
        r == 0 <==> a@ == b@,
        r == 1 <==> lex_lt(b@, a@),
{
    proof {
        lemma_lex_le_connected(a@, b@);
        assert(a@.skip(0) =~= a@);
        assert(b@.skip(0) =~= b@);
    }
    let mut i: usize = 0;
    let n: usize = if a.len() < b.len() { a.len() } else { b.len() };
    while i < n
        invariant
            0 <= i <= n,
            n == if a@.len() < b@.len() { a@.len() } else { b@.len() },
            lex_le(a@, b@) == lex_le(a@.skip(i as int), b@.skip(i as int)),
            lex_le(b@, a@) == lex_le(b@.skip(i as int), a@.skip(i as int)),
            (a@ == b@) == (a@.skip(i as int) == b@.skip(i as int)),
        decreases n - i,
    {
        let ca = a[i];
        let cb = b[i];
        proof {
            assert(a@.skip(i as int)[0] == a@[i as int]);
            assert(b@.skip(i as int)[0] == b@[i as int]);
        }
        if ca < cb {
            proof {
                assert(a@.skip(i as int) != b@.skip(i as int)) by {
                    assert(a@.skip(i as int)[0] != b@.skip(i as int)[0]);
                }
                assert(lex_le(a@.skip(i as int), b@.skip(i as int)));
            }
            return -1;
        }
        if ca > cb {
            proof {
                assert(a@.skip(i as int) != b@.skip(i as int)) by {
                    assert(a@.skip(i as int)[0] != b@.skip(i as int)[0]);
                }
                assert(lex_le(b@.skip(i as int), a@.skip(i as int)));
            }
            return 1;
        }
        proof {
            lemma_lex_skip_step(a@, b@, i as int);
            lemma_lex_skip_step(b@, a@, i as int);
        }
        i = i + 1;
    }
    proof {
        assert(a@.skip(i as int).len() == 0 || b@.skip(i as int).len() == 0);
    }
    if a.len() < b.len() {
        proof {
            assert(a@.skip(i as int).len() == 0);
            assert(b@.skip(i as int).len() > 0);
            assert(a@.skip(i as int) != b@.skip(i as int));
        }
        -1
    } else if a.len() > b.len() {
        proof {
            assert(b@.skip(i as int).len() == 0);
            assert(a@.skip(i as int) != b@.skip(i as int));
        }
        1
    } else {
        proof {
            assert(a@.skip(i as int) =~= b@.skip(i as int));
            lemma_lex_le_refl(a@.skip(i as int));
        }
        0
    }
}

/// Executable equality on byte strings.
pub fn bytes_eq(a: &Vec<u8>, b: &Vec<u8>) -> (r: bool)
    ensures
        r == (a@ == b@),
{
    bytes_cmp(a, b) == 0
}

fn value_type_rank_exec(t: ValueType) -> (r: u8)
    ensures
        r as int == value_type_rank(t),
{
    match t {
        ValueType::Tombstone => 0,
        ValueType::WeakTombstone => 1,
        ValueType::Value => 2,
    }
}

/// Executable form of `entry_le`.
pub fn entry_le_exec(x: &InternalValue, y: &InternalValue) -> (r: bool)
    ensures
        r == entry_le(x@, y@),
{
    let ck = bytes_cmp(&x.key.user_key, &y.key.user_key);
    if ck != 0 {
        ck == -1
    } else if x.key.seqno != y.key.seqno {
        x.key.seqno > y.key.seqno
    } else if value_type_rank_exec(x.key.value_type) != value_type_rank_exec(y.key.value_type) {
        value_type_rank_exec(x.key.value_type) < value_type_rank_exec(y.key.value_type)
    } else {
        proof {
            lemma_lex_le_refl(x@.value);
            lemma_lex_le_connected(x@.value, y@.value);
            if lex_le(y@.value, x@.value) && lex_le(x@.value, y@.value) {
                lemma_lex_le_antisym(x@.value, y@.value);
            }
        }
        bytes_cmp(&x.value, &y.value) != 1
    }
}

} // verus!
