//! The event projector and fold state for whole ledgers.
//!
//! The ledger emits vertex-insertion events; each carries the logical tree
//! it belongs to and the parent index of the new vertex.  Ground truth is
//! the canonically ordered event log — block number first, then intra-block
//! log position — so a fetched batch is sorted before it is projected, and
//! projection is a deterministic fold of `insert_vertex` over the sorted
//! batch.  Out-of-order or structurally impossible input surfaces as
//! `TreeMalformed` and is never retried; a failed fetch surfaces as
//! `TreeUnavailable`.

use crate::error::Error;
use crate::tree_lib::{insert_model, Tree, Vertex};
use vstd::prelude::*;

verus! {

/// The ledger's 256-bit tree identifier, as four 64-bit limbs, most
/// significant first.  There may be more than one tree in the caller
/// contract; the identifier tells them apart.
#[derive(Clone, Copy, Debug, PartialEq, Eq, Hash, Structural)]
pub struct TreeId {
    pub w0: u64,
    pub w1: u64,
    pub w2: u64,
    pub w3: u64,
}

/// One vertex-insertion event read off the ledger: its place in the log
/// (block number, then intra-block position), the logical tree it belongs
/// to, and the parent index it carries.
#[derive(Clone, Copy, Debug, PartialEq, Eq, Structural)]
pub struct LedgerEvent {
    pub block_number: u64,
    pub log_index: u64,
    pub id: TreeId,
    pub parent: u32,
}

/// The canonical log order: block number first, then intra-block position.
pub open spec fn event_le(a: LedgerEvent, b: LedgerEvent) -> bool {
    a.block_number < b.block_number || (a.block_number == b.block_number && a.log_index
        <= b.log_index)
}

/// Insertion of an event into an already sorted sequence, after any events
/// it ties with, so sorting is stable.
pub open spec fn sorted_insert(s: Seq<LedgerEvent>, e: LedgerEvent) -> Seq<LedgerEvent>
    decreases s.len(),
{
    if s.len() == 0 {
        seq![e]
    } else if event_le(s[0], e) {
        seq![s[0]] + sorted_insert(s.drop_first(), e)
    } else {
        seq![e] + s
    }
}

/// The canonical sorting of an event batch: stable insertion sort under the
/// log order.
pub open spec fn sort_events_spec(s: Seq<LedgerEvent>) -> Seq<LedgerEvent>
    decreases s.len(),
{
    if s.len() == 0 {
        Seq::empty()
    } else {
        sorted_insert(sort_events_spec(s.drop_last()), s.last())
    }
}

/// Inserting at the first position whose event does not sort at-or-before
/// `e` is exactly the specification's `sorted_insert`.
proof fn lemma_sorted_insert_at(s: Seq<LedgerEvent>, e: LedgerEvent, pos: int)
    requires
        0 <= pos <= s.len(),
        forall|k: int| 0 <= k < pos ==> event_le(#[trigger] s[k], e),
        pos < s.len() ==> !event_le(s[pos], e),
    ensures
        sorted_insert(s, e) == s.subrange(0, pos).push(e) + s.subrange(pos, s.len() as int),
    decreases s.len(),
{
    if s.len() == 0 {
        assert(sorted_insert(s, e) =~= s.subrange(0, pos).push(e) + s.subrange(
            pos,
            s.len() as int,
        ));
    } else if pos == 0 {
        assert(sorted_insert(s, e) =~= s.subrange(0, 0).push(e) + s.subrange(0, s.len() as int));
    } else {
        let t = s.drop_first();
        assert forall|k: int| 0 <= k < pos - 1 implies event_le(#[trigger] t[k], e) by {
            assert(t[k] == s[k + 1]);
        }
        lemma_sorted_insert_at(t, e, pos - 1);
        assert(sorted_insert(s, e) =~= s.subrange(0, pos).push(e) + s.subrange(
            pos,
            s.len() as int,
        ));
    }
}

/// Does `a` sort at or before `b` in the canonical log order?
fn event_precedes(a: &LedgerEvent, b: &LedgerEvent) -> (r: bool)
    ensures
        r == event_le(*a, *b),
{
    a.block_number < b.block_number || (a.block_number == b.block_number && a.log_index
        <= b.log_index)
}

/// Sort an event batch into the canonical log order.
pub fn sort_events(events: &Vec<LedgerEvent>) -> (r: Vec<LedgerEvent>)
    ensures
        r@ == sort_events_spec(events@),
{
    let mut out: Vec<LedgerEvent> = Vec::new();
    let mut i: usize = 0;
    while i < events.len()
        invariant
            i <= events@.len(),
            out@ == sort_events_spec(events@.subrange(0, i as int)),
        decreases events@.len() - i,
    {
        let e = events[i];
        let mut j: usize = 0;
        while j < out.len() && event_precedes(&out[j], &e)
            invariant
                j <= out@.len(),
                forall|k: int| 0 <= k < j ==> event_le(#[trigger] out@[k], e),
            decreases out@.len() - j,
        {
            j = j + 1;
        }
        proof {
            lemma_sorted_insert_at(out@, e, j as int);
            assert(events@.subrange(0, i + 1 as int).drop_last() =~= events@.subrange(0, i as int));
            assert(events@.subrange(0, i + 1 as int).last() == events@[i as int]);
            assert(sorted_insert(out@, e) == out@.subrange(0, j as int).push(e) + out@.subrange(
                j as int,
                out@.len() as int,
            ));
        }
        out.insert(j, e);
        proof {
            assert(out@ =~= sort_events_spec(events@.subrange(0, i + 1 as int)));
        }
        i = i + 1;
    }
    proof {
        assert(events@.subrange(0, events@.len() as int) =~= events@);
    }
    out
}

/// The parent indices that a batch contributes to one logical tree, in
/// batch order.
pub open spec fn parents_for(s: Seq<LedgerEvent>, id: TreeId) -> Seq<u32>
    decreases s.len(),
{
    if s.len() == 0 {
        Seq::empty()
    } else {
        let rest = parents_for(s.drop_last(), id);
        if s.last().id == id {
            rest.push(s.last().parent)
        } else {
            rest
        }
    }
}

/// The deterministic projection of an ordered parent sequence onto a tree
/// model: one insertion per event, `None` as soon as one is malformed.
pub open spec fn project_model(s: Seq<Vertex>, parents: Seq<u32>) -> Option<Seq<Vertex>>
    decreases parents.len(),
{
    if parents.len() == 0 {
        Some(s)
    } else {
        match project_model(s, parents.drop_last()) {
            Some(m) => insert_model(m, parents.last()),
            None => None,
        }
    }
}

/// How pruned marks evolve under the same projection: every new vertex
/// starts pruned exactly when its parent is pruned.
pub open spec fn project_pruned(s: Seq<Vertex>, pr: Seq<bool>, parents: Seq<u32>) -> Seq<bool>
    decreases parents.len(),
{
    if parents.len() == 0 {
        pr
    } else {
        let pr1 = project_pruned(s, pr, parents.drop_last());
        match project_model(s, parents.drop_last()) {
            Some(m) => pr1.push(m.len() > 0 && pr1[parents.last() as int]),
            None => pr1,
        }
    }
}

/// Sorting neither adds nor drops events.
pub proof fn lemma_sort_events_len(s: Seq<LedgerEvent>)
    ensures
        sort_events_spec(s).len() == s.len(),
    decreases s.len(),
{
    if s.len() > 0 {
        lemma_sort_events_len(s.drop_last());
        lemma_sorted_insert_len(sort_events_spec(s.drop_last()), s.last());
    }
}

proof fn lemma_sorted_insert_len(s: Seq<LedgerEvent>, e: LedgerEvent)
    ensures
        sorted_insert(s, e).len() == s.len() + 1,
    decreases s.len(),
{
    if s.len() > 0 && event_le(s[0], e) {
        lemma_sorted_insert_len(s.drop_first(), e);
    }
}

/// A batch that never names an identifier contributes nothing to it.
pub proof fn lemma_untouched_parents_empty(s: Seq<LedgerEvent>, id: TreeId)
    requires
        !batch_touches(s, id),
    ensures
        parents_for(s, id) == Seq::<u32>::empty(),
    decreases s.len(),
{
    if s.len() > 0 {
        assert(!batch_touches(s.drop_last(), id)) by {
            if batch_touches(s.drop_last(), id) {
                let i = choose|i: int|
                    0 <= i < s.drop_last().len() && (#[trigger] s.drop_last()[i]).id == id;
                assert(s[i].id == id);
            }
        }
        lemma_untouched_parents_empty(s.drop_last(), id);
        assert(s[s.len() - 1].id != id);
    }
}

/// Which identifiers a batch touches.
pub open spec fn batch_touches(s: Seq<LedgerEvent>, id: TreeId) -> bool {
    exists|i: int| 0 <= i < s.len() && (#[trigger] s[i]).id == id
}

/// The parent contributions of concatenated batches concatenate.
pub proof fn lemma_parents_for_append(a: Seq<LedgerEvent>, b: Seq<LedgerEvent>, id: TreeId)
    ensures
        parents_for(a + b, id) == parents_for(a, id) + parents_for(b, id),
    decreases b.len(),
{
    if b.len() == 0 {
        assert(a + b =~= a);
        assert(parents_for(a, id) + parents_for(b, id) =~= parents_for(a, id));
    } else {
        lemma_parents_for_append(a, b.drop_last(), id);
        assert((a + b).drop_last() =~= a + b.drop_last());
        assert((a + b).last() == b.last());
        if b.last().id == id {
            assert(parents_for(a, id) + parents_for(b, id) =~= (parents_for(a, id) + parents_for(
                b.drop_last(),
                id,
            )).push(b.last().parent));
        }
    }
}

/// Projection splits over batch concatenation: projecting `a + b` is
/// projecting `a` and then projecting `b` on the outcome.  This is what
/// makes the incremental fold agree with a cold sync.
pub proof fn lemma_project_append(s: Seq<Vertex>, a: Seq<u32>, b: Seq<u32>)
    ensures
        project_model(s, a + b) == match project_model(s, a) {
            Some(m) => project_model(m, b),
            None => None::<Seq<Vertex>>,
        },
    decreases b.len(),
{
    if b.len() == 0 {
        assert(a + b =~= a);
    } else {
        lemma_project_append(s, a, b.drop_last());
        assert((a + b).drop_last() =~= a + b.drop_last());
        assert((a + b).last() == b.last());
    }
}

/// A projection inserts exactly one vertex per event: a tree synced from
/// genesis over `k` insertion events has size `k`.
pub proof fn lemma_project_len(s: Seq<Vertex>, parents: Seq<u32>)
    ensures
        project_model(s, parents) matches Some(m) ==> m.len() == s.len() + parents.len(),
    decreases parents.len(),
{
    if parents.len() > 0 {
        lemma_project_len(s, parents.drop_last());
    }
}

/// Every element of a sorted insertion is the inserted event or an element
/// of the original sequence.
proof fn lemma_sorted_insert_elems(s: Seq<LedgerEvent>, e: LedgerEvent)
    ensures
        forall|k: int|
            0 <= k < sorted_insert(s, e).len() ==> ((#[trigger] sorted_insert(s, e)[k]) == e
                || s.contains(sorted_insert(s, e)[k])),
    decreases s.len(),
{
    if s.len() == 0 {
    } else if event_le(s[0], e) {
        let t = s.drop_first();
        lemma_sorted_insert_elems(t, e);
        assert forall|k: int| 0 <= k < sorted_insert(s, e).len() implies ((#[trigger] sorted_insert(
            s,
            e,
        )[k]) == e || s.contains(sorted_insert(s, e)[k])) by {
            if k == 0 {
                assert(sorted_insert(s, e)[0] == s[0]);
                assert(s.contains(s[0]));
            } else {
                assert(sorted_insert(s, e)[k] == sorted_insert(t, e)[k - 1]);
                if sorted_insert(t, e)[k - 1] != e {
                    let m = choose|m: int| 0 <= m < t.len() && t[m] == sorted_insert(t, e)[k - 1];
                    assert(s[m + 1] == sorted_insert(s, e)[k]);
                }
            }
        }
    } else {
        assert forall|k: int| 0 <= k < sorted_insert(s, e).len() implies ((#[trigger] sorted_insert(
            s,
            e,
        )[k]) == e || s.contains(sorted_insert(s, e)[k])) by {
            if k > 0 {
                assert(sorted_insert(s, e)[k] == s[k - 1]);
            }
        }
    }
}

/// Every element of a sorted batch is an element of the batch.
pub proof fn lemma_sort_events_elems(s: Seq<LedgerEvent>)
    ensures
        forall|k: int|
            0 <= k < sort_events_spec(s).len() ==> s.contains(#[trigger] sort_events_spec(s)[k]),
    decreases s.len(),
{
    if s.len() > 0 {
        let s1 = s.drop_last();
        lemma_sort_events_elems(s1);
        lemma_sorted_insert_elems(sort_events_spec(s1), s.last());
        assert forall|k: int| 0 <= k < sort_events_spec(s).len() implies s.contains(
            #[trigger] sort_events_spec(s)[k],
        ) by {
            let x = sort_events_spec(s)[k];
            if x == s.last() {
                assert(s[s.len() - 1] == x);
            } else {
                assert(sort_events_spec(s1).contains(x));
                let m = choose|m: int| 0 <= m < sort_events_spec(s1).len() && sort_events_spec(
                    s1,
                )[m] == x;
                let m2 = choose|m2: int| 0 <= m2 < s1.len() && s1[m2] == x;
                assert(s[m2] == x);
            }
        }
    }
}

/// Inserting an event that every element of a prefix sorts at-or-before
/// leaves the prefix in place.
proof fn lemma_sorted_insert_prefix(u: Seq<LedgerEvent>, t: Seq<LedgerEvent>, e: LedgerEvent)
    requires
        forall|k: int| 0 <= k < u.len() ==> event_le(#[trigger] u[k], e),
    ensures
        sorted_insert(u + t, e) == u + sorted_insert(t, e),
    decreases u.len(),
{
    if u.len() == 0 {
        assert(u + t =~= t);
        assert(u + sorted_insert(t, e) =~= sorted_insert(t, e));
    } else {
        assert((u + t)[0] == u[0]);
        assert((u + t).drop_first() =~= u.drop_first() + t);
        assert forall|k: int| 0 <= k < u.drop_first().len() implies event_le(
            #[trigger] u.drop_first()[k],
            e,
        ) by {
            assert(u.drop_first()[k] == u[k + 1]);
        }
        lemma_sorted_insert_prefix(u.drop_first(), t, e);
        assert(sorted_insert(u + t, e) =~= u + sorted_insert(t, e));
    }
}

/// When every event of `a` comes from an earlier block than every event of
/// `b`, sorting their concatenation is sorting them apart.
pub proof fn lemma_sort_events_split(a: Seq<LedgerEvent>, b: Seq<LedgerEvent>)
    requires
        forall|i: int, j: int|
            #![trigger a[i], b[j]]
            0 <= i < a.len() && 0 <= j < b.len() ==> a[i].block_number < b[j].block_number,
    ensures
        sort_events_spec(a + b) == sort_events_spec(a) + sort_events_spec(b),
    decreases b.len(),
{
    if b.len() == 0 {
        assert(a + b =~= a);
        assert(sort_events_spec(a) + sort_events_spec(b) =~= sort_events_spec(a));
    } else {
        let b1 = b.drop_last();
        assert forall|i: int, j: int|
            #![trigger a[i], b1[j]]
            0 <= i < a.len() && 0 <= j < b1.len() implies a[i].block_number
            < b1[j].block_number by {
            assert(b1[j] == b[j]);
        }
        lemma_sort_events_split(a, b1);
        assert((a + b).drop_last() =~= a + b1);
        assert((a + b).last() == b.last());
        lemma_sort_events_elems(a);
        assert forall|k: int| 0 <= k < sort_events_spec(a).len() implies event_le(
            #[trigger] sort_events_spec(a)[k],
            b.last(),
        ) by {
            let x = sort_events_spec(a)[k];
            assert(a.contains(x));
            let m = choose|m: int| 0 <= m < a.len() && a[m] == x;
            assert(a[m].block_number < b[b.len() - 1].block_number);
        }
        lemma_sorted_insert_prefix(sort_events_spec(a), sort_events_spec(b1), b.last());
    }
}

/// Folding a block onto the sync of its parent is the sync through the
/// block itself: with one event source, every event up to the parent block
/// comes from an earlier block than the block's own events, so projecting
/// the two batches in turn equals projecting their concatenation.
pub proof fn lemma_fold_matches_sync(
    s0: Seq<Vertex>,
    a: Seq<LedgerEvent>,
    b: Seq<LedgerEvent>,
    id: TreeId,
)
    requires
        forall|i: int, j: int|
            #![trigger a[i], b[j]]
            0 <= i < a.len() && 0 <= j < b.len() ==> a[i].block_number < b[j].block_number,
    ensures
        project_model(s0, parents_for(sort_events_spec(a + b), id)) == match project_model(
            s0,
            parents_for(sort_events_spec(a), id),
        ) {
            Some(m) => project_model(m, parents_for(sort_events_spec(b), id)),
            None => None::<Seq<Vertex>>,
        },
{
    lemma_sort_events_split(a, b);
    lemma_parents_for_append(sort_events_spec(a), sort_events_spec(b), id);
    lemma_project_append(
        s0,
        parents_for(sort_events_spec(a), id),
        parents_for(sort_events_spec(b), id),
    );
}

pub type StateMap = im::HashMap<TreeId, Tree>;

/// The key/value contents of the per-identifier state map.
pub uninterp spec fn state_map_view(m: StateMap) -> Map<TreeId, Tree>;

pub open spec fn state_map_empty() -> Map<TreeId, Tree> {
    Map::empty()
}

/// Relies on `im::HashMap::new`: constructs an empty map.
#[verifier::external_body]
fn state_map_new() -> (r: StateMap)
    ensures
        state_map_view(r) == state_map_empty(),
{
    im::HashMap::new()
}

/// Relies on `im::HashMap::update`: returns a copy of the map with the key
/// bound to the value, sharing unchanged structure with the original.
#[verifier::external_body]
fn state_map_update(m: &StateMap, k: TreeId, v: Tree) -> (r: StateMap)
    ensures
        state_map_view(r) == state_map_view(*m).insert(k, v),
{
    m.update(k, v)
}

/// Relies on `im::HashMap::get`: returns a reference to the value bound to
/// the key, if any.
#[verifier::external_body]
fn state_map_get<'a>(m: &'a StateMap, k: &TreeId) -> (r: Option<&'a Tree>)
    ensures
        r is Some <==> state_map_view(*m).dom().contains(*k),
        r matches Some(t) ==> *t == state_map_view(*m)[*k],
{
    m.get(k)
}

/// The model a projection starts from for one identifier: the held tree's
/// model where one exists, the empty model otherwise ("not yet created").
pub open spec fn model_in(m: Map<TreeId, Tree>, id: TreeId) -> Seq<Vertex> {
    if m.dom().contains(id) {
        m[id].model()
    } else {
        Seq::empty()
    }
}

pub open spec fn pruned_in(m: Map<TreeId, Tree>, id: TreeId) -> Seq<bool> {
    if m.dom().contains(id) {
        m[id].pruned_model()
    } else {
        Seq::empty()
    }
}

/// Every tree held by a state map is well formed.
pub open spec fn state_wf(m: Map<TreeId, Tree>) -> bool {
    forall|id: TreeId| m.dom().contains(id) ==> (#[trigger] m[id]).wf()
}

/// A sorted batch is projectable onto a state: no touched identifier runs
/// into a malformed insertion.
pub open spec fn batch_valid(m: Map<TreeId, Tree>, sorted: Seq<LedgerEvent>) -> bool {
    forall|id: TreeId| #[trigger]
        batch_touches(sorted, id) ==> project_model(model_in(m, id), parents_for(sorted, id))
            is Some
}

/// What a successful projection returns: exactly the previous trees for
/// untouched identifiers, and for each touched identifier the projection of
/// its sorted parent contributions onto its previous model.
pub open spec fn folded_state(
    prev: Map<TreeId, Tree>,
    sorted: Seq<LedgerEvent>,
    post: Map<TreeId, Tree>,
) -> bool {
    &&& forall|id: TreeId| #![all_triggers]
        post.dom().contains(id) <==> (prev.dom().contains(id) || batch_touches(sorted, id))
    &&& forall|id: TreeId| #![all_triggers]
        prev.dom().contains(id) && !batch_touches(sorted, id) ==> post[id] == prev[id]
    &&& forall|id: TreeId| #[trigger]
        batch_touches(sorted, id) ==> post[id].model() == project_model(
            model_in(prev, id),
            parents_for(sorted, id),
        )->Some_0 && post[id].pruned_model() == project_pruned(
            model_in(prev, id),
            pruned_in(prev, id),
            parents_for(sorted, id),
        )
}

/// Tree fold state: one tree per ledger identifier, to be passed to and
/// returned by sync and fold.  There may be more than one tree in the
/// caller contract, so the state is keyed by the ledger identifier.
#[derive(Clone, Debug)]
pub struct TreeState {
    pub state: StateMap,
}

impl TreeState {
    /// The per-identifier contents.
    pub open spec fn map_view(self) -> Map<TreeId, Tree> {
        state_map_view(self.state)
    }

    pub open spec fn wf(self) -> bool {
        state_wf(self.map_view())
    }

    /// A state holding no tree at all.
    pub fn new() -> (r: TreeState)
        ensures
            r.wf(),
            r.map_view() == state_map_empty(),
    {
        TreeState { state: state_map_new() }
    }
}

/// Tree StateFold delegate: the pure `sync` and `fold` steps of the engine.
/// The surrounding service fetches the event batches, drives the retry
/// loop, and hands the batches in as plain values.
pub struct TreeStateFoldDelegate {
    contract: String,
}

impl TreeStateFoldDelegate {
    /// The name of the ledger contract whose events this delegate follows.
    pub closed spec fn contract_name(self) -> Seq<char> {
        self.contract@
    }

    pub fn new(contract: &str) -> (r: Self)
        ensures
            r.contract_name() == contract@,
    {
        TreeStateFoldDelegate { contract: contract.to_owned() }
    }

    /// Cold path: project a from-genesis event fetch onto an empty state.
    pub fn sync(&self, events: Result<Vec<LedgerEvent>, Error>) -> (r: Result<TreeState, Error>)
        requires
            events matches Ok(evs) ==> evs@.len() <= u32::MAX,
        ensures
            events matches Err(e) ==> (r matches Err(e2) && e2 is TreeUnavailable),
            events matches Ok(evs) ==> {
                let sorted = sort_events_spec(evs@);
                &&& (r is Ok <==> batch_valid(state_map_empty(), sorted))
                &&& (r matches Ok(st) ==> st.wf() && folded_state(
                    state_map_empty(),
                    sorted,
                    st.map_view(),
                ))
                &&& (r matches Err(e) ==> e is TreeMalformed)
            },
    {
        compute_state(events, TreeState::new())
    }

    /// Incremental path: project one block's event fetch onto the state
    /// computed for that block's parent.
    pub fn fold(&self, previous_state: TreeState, events: Result<Vec<LedgerEvent>, Error>) -> (r:
        Result<TreeState, Error>)
        requires
            previous_state.wf(),
            events matches Ok(evs) ==> evs@.len() <= u32::MAX && (forall|id: TreeId| #[trigger]
                previous_state.map_view().dom().contains(id) ==> model_in(
                    previous_state.map_view(),
                    id,
                ).len() + evs@.len() <= u32::MAX),
        ensures
            events matches Err(e) ==> (r matches Err(e2) && e2 is TreeUnavailable),
            events matches Ok(evs) ==> {
                let sorted = sort_events_spec(evs@);
                &&& (r is Ok <==> batch_valid(previous_state.map_view(), sorted))
                &&& (r matches Ok(st) ==> st.wf() && folded_state(
                    previous_state.map_view(),
                    sorted,
                    st.map_view(),
                ))
                &&& (r matches Err(e) ==> e is TreeMalformed)
            },
    {
        compute_state(events, previous_state)
    }
}

/// Computes the state from an event fetch: sort the batch into canonical
/// log order, then fold each insertion into the tree its identifier names,
/// creating the tree at the first event ever seen for that identifier.
///
/// A failed fetch surfaces as `TreeUnavailable` (transient, retried by the
/// caller's policy); a malformed insertion surfaces as `TreeMalformed`
/// (fatal, never retried).
pub fn compute_state(events: Result<Vec<LedgerEvent>, Error>, previous_state: TreeState) -> (r:
    Result<TreeState, Error>)
    requires
        previous_state.wf(),
        events matches Ok(evs) ==> evs@.len() <= u32::MAX && (forall|id: TreeId| #[trigger]
            previous_state.map_view().dom().contains(id) ==> model_in(
                previous_state.map_view(),
                id,
            ).len() + evs@.len() <= u32::MAX),
    ensures
        events matches Err(e) ==> (r matches Err(e2) && e2 is TreeUnavailable),
        events matches Ok(evs) ==> {
            let sorted = sort_events_spec(evs@);
            &&& (r is Ok <==> batch_valid(previous_state.map_view(), sorted))
            &&& (r matches Ok(st) ==> st.wf() && folded_state(
                previous_state.map_view(),
                sorted,
                st.map_view(),
            ))
            &&& (r matches Err(e) ==> e is TreeMalformed)
        },
{
    let ghost prev = previous_state.map_view();
    let evs = match events {
        Ok(evs) => evs,
        Err(_) => {
            return Err(
                Error::TreeUnavailable {
                    err: "cannot fetch the vertex insertion events".to_owned(),
                },
            );
        },
    };
    let sorted = sort_events(&evs);
    let ghost sseq = sorted@;
    proof {
        lemma_sort_events_len(evs@);
    }
    let n = sorted.len();
    let mut st = previous_state;
    let mut i: usize = 0;
    while i < n
        invariant
            n == sseq.len(),
            n <= u32::MAX,
            i <= n,
            sseq == sorted@,
            sseq == sort_events_spec(evs@),
            events == Ok::<Vec<LedgerEvent>, Error>(evs),
            prev == previous_state.map_view(),
            state_wf(prev),
            forall|id: TreeId| #[trigger]
                prev.dom().contains(id) ==> model_in(prev, id).len() + n <= u32::MAX,
            st.wf(),
            folded_state(prev, sseq.subrange(0, i as int), st.map_view()),
            batch_valid(prev, sseq.subrange(0, i as int)),
            forall|id: TreeId| #[trigger]
                st.map_view().dom().contains(id) ==> st.map_view()[id].model().len() <= model_in(
                    prev,
                    id,
                ).len() + i,
        decreases n - i,
    {
        let e = sorted[i];
        let ghost prefix = sseq.subrange(0, i as int);
        let ghost prefix1 = sseq.subrange(0, i + 1 as int);
        proof {
            assert(prefix1.drop_last() =~= prefix);
            assert(prefix1.last() == e);
            assert(batch_touches(prefix1, e.id)) by {
                assert(prefix1[i as int].id == e.id);
            }
            assert forall|id: TreeId| #[trigger]
                batch_touches(prefix1, id) implies batch_touches(prefix, id) || id == e.id by {
                let k = choose|k: int| 0 <= k < prefix1.len() && (#[trigger] prefix1[k]).id == id;
                if k < i {
                    assert(prefix[k].id == id);
                }
            }
            assert forall|id: TreeId| #[trigger]
                batch_touches(prefix, id) implies batch_touches(prefix1, id) by {
                let k = choose|k: int| 0 <= k < prefix.len() && (#[trigger] prefix[k]).id == id;
                assert(prefix1[k].id == id);
            }
            assert forall|id: TreeId| id != e.id implies parents_for(prefix1, id) == parents_for(
                prefix,
                id,
            ) by {}
            assert(parents_for(prefix1, e.id) == parents_for(prefix, e.id).push(e.parent));
            if !batch_touches(prefix, e.id) {
                lemma_untouched_parents_empty(prefix, e.id);
            }
        }
        let ghost s0 = model_in(prev, e.id);
        let ghost pf = parents_for(prefix, e.id);
        let ghost pr0 = pruned_in(prev, e.id);
        let ghost base = if st.map_view().dom().contains(e.id) {
            st.map_view()[e.id].model()
        } else {
            Seq::<Vertex>::empty()
        };
        let ghost base_pruned = if st.map_view().dom().contains(e.id) {
            st.map_view()[e.id].pruned_model()
        } else {
            Seq::<bool>::empty()
        };
        proof {
            if batch_touches(prefix, e.id) {
            } else {
                lemma_untouched_parents_empty(prefix, e.id);
                assert(project_model(s0, pf) == Some(s0));
                assert(project_pruned(s0, pr0, pf) == pr0);
                if prev.dom().contains(e.id) {
                    assert(base == s0);
                    assert(base_pruned == pr0);
                } else {
                    assert(!st.map_view().dom().contains(e.id));
                    assert(base =~= s0);
                    assert(base_pruned =~= pr0);
                }
            }
            assert(project_model(s0, pf) == Some(base));
            assert(project_pruned(s0, pr0, pf) == base_pruned);
            assert(pf.push(e.parent).drop_last() =~= pf);
            assert(project_model(s0, pf.push(e.parent)) == insert_model(base, e.parent));
            assert(insert_model(base, e.parent) is Some ==> project_pruned(
                s0,
                pr0,
                pf.push(e.parent),
            ) == base_pruned.push(base.len() > 0 && base_pruned[e.parent as int]));
            assert(base.len() <= model_in(prev, e.id).len() + i);
        }
        let inserted: Result<Tree, Error> = match state_map_get(&st.state, &e.id) {
            Some(t) => t.insert_vertex(e.parent),
            None => {
                let t0 = Tree::new();
                t0.insert_vertex(e.parent)
            },
        };
        let tree = match inserted {
            Ok(t) => t,
            Err(err) => {
                proof {
                    assert(insert_model(base, e.parent) is None);
                    assert(project_model(s0, parents_for(prefix1, e.id)) is None);
                    let rest = sseq.subrange(i + 1 as int, n as int);
                    assert(sseq =~= prefix1 + rest);
                    lemma_parents_for_append(prefix1, rest, e.id);
                    lemma_project_append(s0, parents_for(prefix1, e.id), parents_for(rest, e.id));
                    assert(batch_touches(sseq, e.id)) by {
                        assert(sseq[i as int].id == e.id);
                    }
                    assert(project_model(s0, parents_for(sseq, e.id)) is None);
                    assert(err is TreeMalformed);
                    assert(!batch_valid(prev, sseq));
                }
                return Err(err);
            },
        };
        proof {
            assert(project_model(s0, parents_for(prefix1, e.id)) == Some(tree.model()));
            assert(project_pruned(s0, pr0, parents_for(prefix1, e.id)) == tree.pruned_model());
        }
        st = TreeState { state: state_map_update(&st.state, e.id, tree) };
        proof {
            assert(folded_state(prev, prefix1, st.map_view()));
            assert(batch_valid(prev, prefix1));
        }
        i = i + 1;
    }
    proof {
        assert(sseq.subrange(0, n as int) =~= sseq);
    }
    Ok(st)
}

} // verus!
