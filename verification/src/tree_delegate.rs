//! Fold state for one tree instance.
//!
//! This state follows a single logical tree: the caller contract that owns
//! the library object, the instance identifier inside it, and the tree
//! snapshot itself — `None` until the first insertion event ever seen.  The
//! cold path (`sync_state`) projects every event since genesis onto nothing;
//! the incremental path (`fold_state`) projects one block's events onto the
//! snapshot computed for that block's parent, and `fold_block` first asks
//! the block's logs bloom whether any relevant event could exist at all,
//! returning the previous state untouched without any fetch when it cannot.

use crate::bloom::{bloom_contains, bloom_has_item, topic_bytes, topic_of, Address, LogsBloom};
use crate::error::Error;
use crate::tree_fold::{
    parents_for, project_model, project_pruned, sort_events, sort_events_spec, LedgerEvent, TreeId,
};
use crate::tree_lib::{insert_model, Tree, Vertex};
use vstd::prelude::*;

verus! {

/// Tree dlib state for one instance, to be passed to and returned by fold.
#[derive(Clone, Debug)]
pub struct TreeState {
    /// The contract address that owns the library object.
    pub caller_address: Address,
    /// The instance identifier, in case the caller contract holds more than
    /// one tree.
    pub identifier: TreeId,
    /// The snapshot, `None` while no insertion event has ever been seen.
    pub tree: Option<Tree>,
}

/// The model a projection starts from: the snapshot's model, or the empty
/// model while the tree is not yet created.
pub open spec fn opt_model(t: Option<Tree>) -> Seq<Vertex> {
    match t {
        Some(tree) => tree.model(),
        None => Seq::empty(),
    }
}

pub open spec fn opt_pruned(t: Option<Tree>) -> Seq<bool> {
    match t {
        Some(tree) => tree.pruned_model(),
        None => Seq::empty(),
    }
}

impl TreeState {
    pub open spec fn wf(self) -> bool {
        self.tree matches Some(t) ==> t.wf()
    }

    pub open spec fn model(self) -> Seq<Vertex> {
        opt_model(self.tree)
    }

    pub open spec fn pruned_model(self) -> Seq<bool> {
        opt_pruned(self.tree)
    }
}

/// The batch's contributions to this state's tree, in canonical order.
pub open spec fn batch_parents(st: TreeState, evs: Seq<LedgerEvent>) -> Seq<u32> {
    parents_for(sort_events_spec(evs), st.identifier)
}

/// The batch projects onto the state without running into a malformed
/// insertion.
pub open spec fn projectable(st: TreeState, evs: Seq<LedgerEvent>) -> bool {
    project_model(st.model(), batch_parents(st, evs)) is Some
}

/// What a successful fold returns: the same instance, holding the
/// projection of the batch onto the previous snapshot.
pub open spec fn projected(prev: TreeState, evs: Seq<LedgerEvent>, st: TreeState) -> bool {
    &&& st.caller_address == prev.caller_address
    &&& st.identifier == prev.identifier
    &&& st.model() == project_model(prev.model(), batch_parents(prev, evs))->Some_0
    &&& st.pruned_model() == project_pruned(
        prev.model(),
        prev.pruned_model(),
        batch_parents(prev, evs),
    )
}

/// Computes the state from an event fetch for one instance.  Events naming
/// other identifiers are ignored; a failed fetch is transient
/// (`TreeUnavailable`), a malformed insertion fatal (`TreeMalformed`).
pub fn compute_tree_state(
    events: Result<Vec<LedgerEvent>, Error>,
    previous_state: TreeState,
) -> (r: Result<TreeState, Error>)
    requires
        previous_state.wf(),
        events matches Ok(evs) ==> evs@.len() <= u32::MAX && previous_state.model().len()
            + evs@.len() <= u32::MAX,
    ensures
        events matches Err(e) ==> (r matches Err(e2) && e2 is TreeUnavailable),
        events matches Ok(evs) ==> {
            &&& (r is Ok <==> projectable(previous_state, evs@))
            &&& (r matches Ok(st) ==> st.wf() && projected(previous_state, evs@, st))
            &&& (r matches Err(e) ==> e is TreeMalformed)
        },
{
    let ghost prev = previous_state;
    let identifier = previous_state.identifier;
    let caller_address = previous_state.caller_address;
    let evs = match events {
        Ok(evs) => evs,
        Err(_) => {
            return Err(
                Error::TreeUnavailable {
                    err: "cannot fetch the vertex insertion events".to_owned(),
                },
            );
        },
    };
    let sorted = sort_events(&evs);
    let ghost sseq = sorted@;
    proof {
        crate::tree_fold::lemma_sort_events_len(evs@);
    }
    let n = sorted.len();
    let mut tree: Option<Tree> = previous_state.tree;
    let mut i: usize = 0;
    while i < n
        invariant
            n == sseq.len(),
            n <= u32::MAX,
            i <= n,
            sseq == sorted@,
            sseq == sort_events_spec(evs@),
            events == Ok::<Vec<LedgerEvent>, Error>(evs),
            prev == previous_state,
            prev.wf(),
            identifier == prev.identifier,
            prev.model().len() + n <= u32::MAX,
            tree matches Some(t) ==> t.wf(),
            project_model(prev.model(), parents_for(sseq.subrange(0, i as int), identifier))
                == Some(opt_model(tree)),
            opt_pruned(tree) == project_pruned(
                prev.model(),
                prev.pruned_model(),
                parents_for(sseq.subrange(0, i as int), identifier),
            ),
            prev.tree is None && parents_for(sseq.subrange(0, i as int), identifier).len() == 0
                ==> tree is None,
            prev.tree is Some ==> tree is Some,
            parents_for(sseq.subrange(0, i as int), identifier).len() > 0 ==> tree is Some,
            opt_model(tree).len() <= prev.model().len() + i,
        decreases n - i,
    {
        let e = sorted[i];
        let ghost prefix = sseq.subrange(0, i as int);
        let ghost prefix1 = sseq.subrange(0, i + 1 as int);
        proof {
            assert(prefix1.drop_last() =~= prefix);
            assert(prefix1.last() == e);
        }
        if e.id.w0 == identifier.w0 && e.id.w1 == identifier.w1 && e.id.w2 == identifier.w2
            && e.id.w3 == identifier.w3 {
            proof {
                assert(e.id == identifier);
                assert(parents_for(prefix1, identifier) == parents_for(prefix, identifier).push(
                    e.parent,
                ));
                assert(parents_for(prefix1, identifier).drop_last() =~= parents_for(
                    prefix,
                    identifier,
                ));
            }
            let base = match tree {
                Some(t) => t,
                None => Tree::new(),
            };
            let inserted = match base.insert_vertex(e.parent) {
                Ok(t) => t,
                Err(err) => {
                    proof {
                        assert(insert_model(opt_model(Some(base)), e.parent) is None);
                        assert(project_model(prev.model(), parents_for(prefix1, identifier))
                            is None);
                        let rest = sseq.subrange(i + 1 as int, n as int);
                        assert(sseq =~= prefix1 + rest);
                        crate::tree_fold::lemma_parents_for_append(prefix1, rest, identifier);
                        crate::tree_fold::lemma_project_append(
                            prev.model(),
                            parents_for(prefix1, identifier),
                            parents_for(rest, identifier),
                        );
                        assert(project_model(prev.model(), parents_for(sseq, identifier))
                            is None);
                    }
                    return Err(err);
                },
            };
            proof {
                assert(project_model(prev.model(), parents_for(prefix1, identifier)) == Some(
                    inserted.model(),
                ));
                assert(project_pruned(
                    prev.model(),
                    prev.pruned_model(),
                    parents_for(prefix1, identifier),
                ) == inserted.pruned_model());
            }
            tree = Some(inserted);
        } else {
            proof {
                assert(e.id != identifier);
                assert(parents_for(prefix1, identifier) == parents_for(prefix, identifier));
            }
        }
        i = i + 1;
    }
    proof {
        assert(sseq.subrange(0, n as int) =~= sseq);
    }
    Ok(TreeState { caller_address, identifier, tree })
}

/// Cold path: compute the state for one instance from every event since
/// genesis, starting from nothing.
pub fn sync_state(
    identifier: TreeId,
    caller_address: Address,
    events: Result<Vec<LedgerEvent>, Error>,
) -> (r: Result<TreeState, Error>)
    requires
        events matches Ok(evs) ==> evs@.len() <= u32::MAX,
    ensures
        events matches Err(e) ==> (r matches Err(e2) && e2 is TreeUnavailable),
        events matches Ok(evs) ==> {
            let start = TreeState { caller_address, identifier, tree: None };
            &&& (r is Ok <==> projectable(start, evs@))
            &&& (r matches Ok(st) ==> st.wf() && projected(start, evs@, st))
            &&& (r matches Err(e) ==> e is TreeMalformed)
        },
{
    compute_tree_state(events, TreeState { caller_address, identifier, tree: None })
}

/// Does the block's logs bloom admit any event of this instance?  The
/// bloom must hold both the caller contract's address and the identifier
/// topic; when it lacks either, no relevant log can exist in the block.
pub fn block_may_contain(bloom: &LogsBloom, address: &Address, identifier: &TreeId) -> (r: bool)
    requires
        bloom.bytes@.len() == 256,
    ensures
        r == relevant_bloom(bloom.bytes@, address.bytes@, *identifier),
{
    let topic = topic_bytes(identifier);
    bloom_contains(bloom, &address.bytes) && bloom_contains(bloom, &topic)
}

/// The bloom admits both the caller contract's address and the identifier
/// topic.
pub open spec fn relevant_bloom(bloom: Seq<u8>, address: Seq<u8>, identifier: TreeId) -> bool {
    bloom_has_item(bloom, address) && bloom_has_item(bloom, topic_of(identifier))
}

/// Incremental path with the bloom short-circuit: when the block's bloom
/// excludes both marks of this instance, the previous state is returned
/// unchanged and any fetched events are ignored (there are none to fetch);
/// otherwise the block's events, which the caller fetches only in that
/// case, are projected onto the previous snapshot.
pub fn fold_block(
    previous_state: TreeState,
    logs_bloom: &LogsBloom,
    events: Option<Result<Vec<LedgerEvent>, Error>>,
) -> (r: Result<TreeState, Error>)
    requires
        previous_state.wf(),
        logs_bloom.bytes@.len() == 256,
        events matches Some(fetched) ==> (fetched matches Ok(evs) ==> evs@.len() <= u32::MAX
            && previous_state.model().len() + evs@.len() <= u32::MAX),
    ensures
        !relevant_bloom(
            logs_bloom.bytes@,
            previous_state.caller_address.bytes@,
            previous_state.identifier,
        ) ==> (r matches Ok(st) && st == previous_state),
        relevant_bloom(
            logs_bloom.bytes@,
            previous_state.caller_address.bytes@,
            previous_state.identifier,
        ) ==> match events {
            None => r matches Err(e) && e is TreeUnavailable,
            Some(fetched) => {
                &&& (fetched matches Err(e) ==> (r matches Err(e2) && e2 is TreeUnavailable))
                &&& (fetched matches Ok(evs) ==> {
                    &&& (r is Ok <==> projectable(previous_state, evs@))
                    &&& (r matches Ok(st) ==> st.wf() && projected(previous_state, evs@, st))
                    &&& (r matches Err(e) ==> e is TreeMalformed)
                })
            },
        },
{
    if !block_may_contain(
        logs_bloom,
        &previous_state.caller_address,
        &previous_state.identifier,
    ) {
        return Ok(previous_state);
    }
    match events {
        Some(fetched) => compute_tree_state(fetched, previous_state),
        None => Err(
            Error::TreeUnavailable {
                err: "events of a relevant block were not supplied".to_owned(),
            },
        ),
    }
}

} // verus!
