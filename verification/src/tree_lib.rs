//! The persistent tree of vertices.
//!
//! `index` is the unique identifier of each vertex while `depth` is used for
//! sorting.  The deepest vertex is the one with the largest `depth`, and the
//! smallest `index` when depths are equal, meaning the vertex is oldest in
//! that depth.

use crate::error::Error;
use crate::persist::{
    depth_set_get_max, depth_set_new, depth_set_to_vec, depth_set_update, depth_set_view, key_le,
    key_lt, vertex_map_get, vertex_map_new, vertex_map_update, vertex_map_view,
};
use std::sync::Arc;
use vstd::prelude::*;

verus! {

/// One tree node: its insertion index, its distance from genesis along
/// parent edges, and its parent's index (`None` exactly for genesis).
#[derive(Clone, Copy, Debug, PartialEq, Eq, Structural)]
pub struct Vertex {
    pub index: u32,
    pub depth: u32,
    pub parent: Option<u32>,
}

impl Vertex {
    pub fn get_parent(&self) -> (r: Option<u32>)
        ensures
            r == self.parent,
    {
        self.parent
    }

    pub fn get_depth(&self) -> (r: u32)
        ensures
            r == self.depth,
    {
        self.depth
    }

    pub fn get_index(&self) -> (r: u32)
        ensures
            r == self.index,
    {
        self.index
    }
}

/// Structural consistency of a vertex sequence: vertex `i` carries index `i`;
/// genesis has no parent and depth 0; every later vertex points to an earlier
/// parent and sits exactly one level below it.
pub open spec fn wf_model(s: Seq<Vertex>) -> bool {
    &&& forall|i: int| 0 <= i < s.len() ==> (#[trigger] s[i]).index == i
    &&& forall|i: int| 0 <= i < s.len() ==> (#[trigger] s[i]).depth <= i
    &&& (s.len() > 0 ==> s[0].parent is None && s[0].depth == 0)
    &&& forall|i: int|
        1 <= i < s.len() ==> {
            &&& (#[trigger] s[i]).parent is Some
            &&& s[i].parent->Some_0 < i
            &&& s[i].depth == s[s[i].parent->Some_0 as int].depth + 1
        }
}

/// The deepest-order key of vertex `i`: primarily its depth, and for equal
/// depths the *smaller* index must win, so the index is stored flipped.
pub open spec fn flip(i: u32) -> u32 {
    (u32::MAX - i) as u32
}

pub open spec fn key_of(s: Seq<Vertex>, i: int) -> (u32, u32) {
    (s[i].depth, flip(i as u32))
}

/// Vertex `i` is the tip of the longest branch: no vertex is deeper, and no
/// vertex of equal depth is older.
pub open spec fn is_deepest(s: Seq<Vertex>, i: int) -> bool {
    &&& 0 <= i < s.len()
    &&& forall|j: int| 0 <= j < s.len() ==> key_le(#[trigger] key_of(s, j), key_of(s, i))
}

/// The ancestor of vertex `i` at exactly depth `d`, reached by walking parent
/// edges; well defined on well-formed models since depth falls by exactly one
/// along each edge.
pub open spec fn ancestor_at(s: Seq<Vertex>, i: int, d: int) -> Vertex
    recommends
        wf_model(s),
        0 <= i < s.len(),
        0 <= d <= s[i].depth,
    decreases s[i].depth,
        when wf_model(s) && 0 <= i < s.len() && 0 <= d <= s[i].depth
{
    if s[i].depth == d {
        s[i]
    } else {
        ancestor_at(s, s[i].parent->Some_0 as int, d)
    }
}

/// Vertex `i` lies in the subtree rooted at vertex `a`.
pub open spec fn descends(s: Seq<Vertex>, i: int, a: int) -> bool
    recommends
        wf_model(s),
        0 <= i < s.len(),
    decreases i,
        when wf_model(s) && 0 <= i < s.len()
{
    i == a || (0 < i && descends(s, s[i].parent->Some_0 as int, a))
}

/// The contiguous key range `0 .. n` of a vertex table.
pub open spec fn contiguous_dom(n: int) -> Set<u32> {
    Set::new(|k: u32| (k as int) < n)
}

/// The deepest-order keys of all vertices of a model.
pub open spec fn keys_of(s: Seq<Vertex>) -> Set<(u32, u32)> {
    Set::new(|dk: (u32, u32)| exists|i: int| 0 <= i < s.len() && dk == #[trigger] key_of(s, i))
}

/// The model-level effect of one insertion event.  On an empty model any
/// event makes genesis, its supplied parent ignored; afterwards the event
/// names the parent, which must already exist, and the new vertex sits one
/// level below it.  `None` means the event is structurally malformed.
pub open spec fn insert_model(s: Seq<Vertex>, event: u32) -> Option<Seq<Vertex>> {
    if s.len() == 0 {
        Some(s.push(Vertex { index: 0, depth: 0, parent: None }))
    } else if (event as int) < s.len() {
        Some(
            s.push(
                Vertex {
                    index: s.len() as u32,
                    depth: (s[event as int].depth + 1) as u32,
                    parent: Some(event),
                },
            ),
        )
    } else {
        None
    }
}

/// A persistent tree value.  Every mutation returns a new `Tree` sharing
/// unchanged structure with the prior version; old snapshots remain valid
/// and queryable.  Pruned marking is kept beside the vertices: it only flags
/// vertices, never removes them, so history stays queryable.
#[derive(Clone, Debug)]
pub struct Tree {
    vertices: im::HashMap<u32, Vertex>,
    deepest: im::OrdSet<(u32, u32)>,
    pruned: Vec<bool>,
}

impl Tree {
    /// The mathematical content of the tree: vertex `i` is `model()[i]`.
    pub closed spec fn model(self) -> Seq<Vertex> {
        Seq::new(self.pruned@.len(), |i: int| vertex_map_view(self.vertices)[i as u32])
    }

    /// Which vertices are marked pruned, by index.
    pub closed spec fn pruned_model(self) -> Seq<bool> {
        self.pruned@
    }

    /// Representation invariant: the model is structurally consistent, the
    /// vertex table holds exactly the contiguous indices, the deepest-order
    /// set holds exactly one key per vertex, and pruned marking is closed
    /// under the parent relation (a pruned vertex's descendants are pruned).
    pub closed spec fn wf(self) -> bool {
        let s = self.model();
        let vm = vertex_map_view(self.vertices);
        &&& wf_model(s)
        &&& s.len() <= u32::MAX
        &&& self.pruned@.len() == s.len()
        &&& vm.dom() == contiguous_dom(s.len() as int)
        &&& depth_set_view(self.deepest) == keys_of(s)
        &&& forall|i: int|
            1 <= i < s.len() && self.pruned@[s[i].parent->Some_0 as int]
                ==> #[trigger] self.pruned@[i]
    }

    /// Well-formedness is not just internal bookkeeping: it guarantees the
    /// structural laws of the model, in particular that vertex 0 is genesis
    /// (no parent, depth 0) and that depth rises by exactly one along every
    /// parent edge.
    pub proof fn lemma_wf_model(self)
        requires
            self.wf(),
        ensures
            wf_model(self.model()),
            self.pruned_model().len() == self.model().len(),
            self.model().len() <= u32::MAX,
    {
    }

    /// An empty tree: no vertices, nothing pruned.
    pub fn new() -> (r: Tree)
        ensures
            r.wf(),
            r.model() == Seq::<Vertex>::empty(),
            r.pruned_model() == Seq::<bool>::empty(),
    {
        let r = Tree { vertices: vertex_map_new(), deepest: depth_set_new(), pruned: Vec::new() };
        proof {
            assert(r.model() =~= Seq::<Vertex>::empty());
            assert(r.pruned_model() =~= Seq::<bool>::empty());
            assert(vertex_map_view(r.vertices).dom() =~= contiguous_dom(r.model().len() as int));
            assert(depth_set_view(r.deepest) =~= keys_of(r.model()));
        }
        r
    }

    /// The number of vertices inserted so far.
    pub fn size(&self) -> (r: usize)
        ensures
            r == self.model().len(),
    {
        self.pruned.len()
    }

    /// Get the vertex at `index`, if it exists.
    pub fn get_vertex(&self, index: u32) -> (r: Option<Vertex>)
        requires
            self.wf(),
        ensures
            (index as int) < self.model().len() ==> r == Some(self.model()[index as int]),
            (index as int) >= self.model().len() ==> r is None,
    {
        vertex_map_get(&self.vertices, index)
    }

    /// Get the vertex at `index` behind a shared reference-counted handle.
    pub fn get_vertex_rc(&self, index: u32) -> (r: Option<Arc<Vertex>>)
        requires
            self.wf(),
        ensures
            (index as int) < self.model().len() ==> (r matches Some(v) && *v == self.model()[index as int]),
            (index as int) >= self.model().len() ==> r is None,
    {
        match self.get_vertex(index) {
            Some(v) => Some(Arc::new(v)),
            None => None,
        }
    }

    /// Append a vertex whose insertion event names `event` as its parent.
    ///
    /// The new vertex takes the next free index.  On an empty tree the event
    /// makes genesis (parent `None`, depth 0) whatever parent it supplies;
    /// otherwise the parent must exist, or the data is malformed and the
    /// failure is surfaced, never silently recovered.  The new vertex starts
    /// pruned exactly when its parent is pruned, keeping pruned subtrees
    /// closed under descent.
    pub fn insert_vertex(&self, event: u32) -> (r: Result<Tree, Error>)
        requires
            self.wf(),
            self.model().len() < u32::MAX,
        ensures
            insert_model(self.model(), event) matches Some(m) ==> (r matches Ok(t) && t.wf()
                && t.model() == m && t.pruned_model() == self.pruned_model().push(
                self.model().len() > 0 && self.pruned_model()[event as int],
            )),
            insert_model(self.model(), event) is None ==> (r matches Err(e) && e
                is TreeMalformed),
    {
        let ghost s = self.model();
        let n: usize = self.pruned.len();
        let n32: u32 = n as u32;
        let (depth, parent, parent_pruned): (u32, Option<u32>, bool) = if n == 0 {
            (0, None, false)
        } else {
            match vertex_map_get(&self.vertices, event) {
                Some(pv) => {
                    proof {
                        assert(s[event as int].depth <= event as int);
                    }
                    (pv.depth + 1, Some(event), self.pruned[event as usize])
                },
                None => {
                    return Err(
                        Error::TreeMalformed {
                            err: "incoming vertex does not have a valid parent".to_owned(),
                        },
                    );
                },
            }
        };
        let vertex = Vertex { index: n32, depth, parent };
        let new_vertices = vertex_map_update(&self.vertices, n32, vertex);
        let new_deepest = depth_set_update(&self.deepest, (depth, u32::MAX - n32));
        let mut new_pruned = copy_bools(&self.pruned);
        new_pruned.push(parent_pruned);
        let t = Tree { vertices: new_vertices, deepest: new_deepest, pruned: new_pruned };
        proof {
            let s2 = t.model();
            assert(s2 =~= s.push(vertex));
            assert(vertex_map_view(t.vertices).dom() =~= contiguous_dom(s2.len() as int));
            assert forall|i: int| 0 <= i < s2.len() implies (#[trigger] s2[i]).index == i
                && s2[i].depth <= i by {
                if i < n {
                    assert(s2[i] == s[i]);
                }
            }
            assert forall|i: int|
                1 <= i < s2.len() implies {
                &&& (#[trigger] s2[i]).parent is Some
                &&& s2[i].parent->Some_0 < i
                &&& s2[i].depth == s2[s2[i].parent->Some_0 as int].depth + 1
            } by {
                if i < n {
                    assert(s2[i] == s[i]);
                    assert(s2[s[i].parent->Some_0 as int] == s[s[i].parent->Some_0 as int]);
                }
            }
            assert forall|dk: (u32, u32)| depth_set_view(t.deepest).contains(dk)
                implies keys_of(s2).contains(dk) by {
                if dk == key_of(s2, s2.len() - 1) {
                } else {
                    assert(keys_of(s).contains(dk));
                    let i = choose|i: int| 0 <= i < s.len() && dk == #[trigger] key_of(s, i);
                    assert(key_of(s2, i) == key_of(s, i));
                }
            }
            assert forall|dk: (u32, u32)| keys_of(s2).contains(dk)
                implies depth_set_view(t.deepest).contains(dk) by {
                let i = choose|i: int| 0 <= i < s2.len() && dk == #[trigger] key_of(s2, i);
                if i < n {
                    assert(key_of(s2, i) == key_of(s, i));
                    assert(keys_of(s).contains(dk));
                }
            }
            assert(depth_set_view(t.deepest) =~= keys_of(s2));
            assert forall|i: int|
                1 <= i < s2.len() && t.pruned@[s2[i].parent->Some_0 as int]
                implies #[trigger] t.pruned@[i] by {
                if i < n {
                    assert(s2[i] == s[i]);
                }
            }
            assert(t.wf());
        }
        Ok(t)
    }

    /// The most recently inserted index: `size() - 1`, or `None` when empty.
    /// Distinct from the deepest vertex, since the tree need not be linear.
    pub fn get_last(&self) -> (r: Option<u32>)
        requires
            self.wf(),
        ensures
            self.model().len() == 0 ==> r is None,
            self.model().len() > 0 ==> r == Some((self.model().len() - 1) as u32),
    {
        let size = self.size();
        if size == 0 {
            None
        } else {
            Some((size - 1) as u32)
        }
    }

    /// The index of the deepest vertex: the tip of the longest branch, the
    /// oldest vertex winning among equal depths.
    pub fn get_deepest(&self) -> (r: Option<u32>)
        requires
            self.wf(),
        ensures
            self.model().len() == 0 ==> r is None,
            self.model().len() > 0 ==> (r matches Some(i) && is_deepest(self.model(), i as int)),
    {
        let ghost s = self.model();
        match depth_set_get_max(&self.deepest) {
            None => {
                proof {
                    if s.len() > 0 {
                        assert(keys_of(s).contains(key_of(s, 0)));
                    }
                }
                None
            },
            Some(m) => {
                let idx = u32::MAX - m.1;
                proof {
                    assert(keys_of(s).contains(m));
                    let i = choose|i: int| 0 <= i < s.len() && m == #[trigger] key_of(s, i);
                    assert(idx as int == i);
                    assert forall|j: int| 0 <= j < s.len() implies key_le(
                        #[trigger] key_of(s, j),
                        key_of(s, idx as int),
                    ) by {
                        assert(keys_of(s).contains(key_of(s, j)));
                    }
                }
                Some(idx)
            },
        }
    }

    /// Get the ancestor of the vertex at `index` lying at exactly `depth`,
    /// behind a shared reference-counted handle.
    ///
    /// Fails with `VertexNotFound` when the index is absent or the requested
    /// depth exceeds the vertex's own depth (the target would not be an
    /// ancestor).  On a well-formed tree the walk itself cannot land
    /// off-target, since depth falls by exactly one along each parent edge.
    pub fn get_ancestor_rc_at(&self, index: u32, depth: u32) -> (r: Result<Arc<Vertex>, Error>)
        requires
            self.wf(),
        ensures
            (index as int) < self.model().len() && depth <= self.model()[index as int].depth ==> (
            r matches Ok(v) && *v == ancestor_at(self.model(), index as int, depth as int)),
            (index as int) >= self.model().len() ==> (r matches Err(e) && e is VertexNotFound),
            (index as int) < self.model().len() && depth > self.model()[index as int].depth ==> (
            r matches Err(e) && e is VertexNotFound),
    {
        let ghost s = self.model();
        let vertex = match self.get_vertex(index) {
            Some(v) => v,
            None => {
                return Err(Error::VertexNotFound { err: "invalid index".to_owned() });
            },
        };
        if depth > vertex.depth {
            return Err(
                Error::VertexNotFound { err: "vertex is not deeper than ancestor".to_owned() },
            );
        }
        let mut cur = vertex;
        while cur.depth > depth
            invariant
                self.wf(),
                s == self.model(),
                0 <= (cur.index as int) && (cur.index as int) < s.len(),
                s[cur.index as int] == cur,
                depth <= cur.depth,
                ancestor_at(s, cur.index as int, depth as int) == ancestor_at(
                    s,
                    index as int,
                    depth as int,
                ),
            decreases cur.depth,
        {
            match cur.parent {
                Some(p) => {
                    proof {
                        assert(s[cur.index as int].parent->Some_0 < cur.index as int || cur.index
                            == 0);
                    }
                    cur = match self.get_vertex(p) {
                        Some(v) => v,
                        None => {
                            return Err(
                                Error::TreeMalformed {
                                    err: "ancestor at depth not found".to_owned(),
                                },
                            );
                        },
                    };
                },
                None => {
                    return Err(
                        Error::TreeMalformed { err: "ancestor at depth not found".to_owned() },
                    );
                },
            }
        }
        Ok(Arc::new(cur))
    }
    /// The deepest-order keys of all vertices, ascending: each vertex
    /// contributes `(depth, flipped index)`, so the last key belongs to the
    /// deepest vertex.
    pub fn deepest_keys(&self) -> (r: Vec<(u32, u32)>)
        requires
            self.wf(),
        ensures
            forall|i: int| 0 < i < r@.len() ==> key_lt(r@[i - 1], #[trigger] r@[i]),
            forall|x: (u32, u32)| r@.contains(x) <==> keys_of(self.model()).contains(x),
    {
        depth_set_to_vec(&self.deepest)
    }

    /// Is the vertex at `index` on the longest valid path, at least
    /// `distance` confirmations behind its tip?
    ///
    /// True exactly when `index` is the ancestor of the deepest vertex at its
    /// own depth, and the deepest vertex lies at least `distance` levels
    /// below it: a finality / confirmation-depth check.
    pub fn is_valid_vertex_with_distance(&self, index: u32, distance: u32) -> (r: bool)
        requires
            self.wf(),
        ensures
            r == valid_with_distance(self.model(), index as int, distance as int),
    {
        let ghost s = self.model();
        let vertex = match self.get_vertex(index) {
            Some(v) => v,
            None => {
                return false;
            },
        };
        let deepest = match self.get_deepest() {
            Some(d) => d,
            None => {
                return false;
            },
        };
        proof {
            assert(key_le(key_of(s, index as int), key_of(s, deepest as int)));
            lemma_ancestor_at_depth(s, deepest as int, vertex.depth as int);
        }
        let ancestor = match self.get_ancestor_rc_at(deepest, vertex.depth) {
            Ok(a) => a,
            Err(_) => {
                return false;
            },
        };
        let deepest_vertex = match self.get_vertex(deepest) {
            Some(v) => v,
            None => {
                return false;
            },
        };
        let r = ancestor.get_index() == index && deepest_vertex.get_depth() - ancestor.get_depth()
            >= distance;
        proof {
            if r {
                assert(valid_with_distance(s, index as int, distance as int));
            } else {
                if valid_with_distance(s, index as int, distance as int) {
                    let d = choose|d: int|
                        #[trigger] is_deepest(s, d) && ancestor_at(
                            s,
                            d,
                            s[index as int].depth as int,
                        ).index == index && s[d].depth - s[index as int].depth >= distance;
                    lemma_deepest_unique(s, d, deepest as int);
                }
            }
        }
        r
    }

    /// Is the vertex at `index` marked pruned?  False for absent vertices.
    pub fn is_pruned(&self, index: u32) -> (r: bool)
        ensures
            r == ((index as int) < self.model().len() && self.pruned_model()[index as int]),
    {
        (index as usize) < self.pruned.len() && self.pruned[index as usize]
    }

    /// Mark the vertex at `index`, and transitively every descendant of it,
    /// as pruned.
    ///
    /// Never removes data, only flags it, so history stays queryable.  The
    /// marking is monotone (nothing is ever un-pruned) and idempotent, and a
    /// vertex outside the tree prunes nothing.  Because indices rise along
    /// parent edges, one forward pass over the indices above `index` marks
    /// the whole subtree.
    pub fn prune_vertex(&mut self, index: u32)
        requires
            old(self).wf(),
        ensures
            final(self).wf(),
            final(self).model() == old(self).model(),
            final(self).pruned_model().len() == old(self).pruned_model().len(),
            forall|i: int|
                0 <= i < old(self).model().len() ==> final(self).pruned_model()[i] == (old(
                    self,
                ).pruned_model()[i] || ((index as int) < old(self).model().len() && descends(
                    old(self).model(),
                    i,
                    index as int,
                ))),
    {
        let ghost s = old(self).model();
        let ghost p0 = old(self).pruned_model();
        let n = self.pruned.len();
        if (index as usize) < n {
            self.pruned.set(index as usize, true);
            proof {
                assert forall|k: int| 0 <= k < index as int implies !descends(
                    s,
                    k,
                    index as int,
                ) by {
                    lemma_descends_bound(s, k, index as int);
                }
            }
            let mut j: usize = index as usize + 1;
            while j < n
                invariant
                    old(self).wf(),
                    self.vertices == old(self).vertices,
                    self.deepest == old(self).deepest,
                    s == old(self).model(),
                    p0 == old(self).pruned_model(),
                    self.pruned@.len() == n,
                    n == s.len(),
                    (index as int) < n,
                    (index as int) < j <= n,
                    forall|k: int|
                        0 <= k < j ==> (#[trigger] self.pruned@[k]) == (p0[k] || descends(
                            s,
                            k,
                            index as int,
                        )),
                    forall|k: int| j <= k < n ==> (#[trigger] self.pruned@[k]) == p0[k],
                decreases n - j,
            {
                proof {
                    assert(s[j as int].parent is Some);
                    assert(vertex_map_view(self.vertices).dom().contains(j as u32));
                }
                let vopt = vertex_map_get(&self.vertices, j as u32);
                proof {
                    assert(vopt == Some(s[j as int]));
                }
                match vopt {
                    Some(v) => {
                        match v.parent {
                            Some(p) => {
                                let parent_pruned = self.pruned[p as usize];
                                proof {
                                    assert(p as int == s[j as int].parent->Some_0 as int);
                                    assert(parent_pruned == (p0[p as int] || descends(
                                        s,
                                        p as int,
                                        index as int,
                                    )));
                                    assert(descends(s, j as int, index as int) == (j as int
                                        == index as int || (0 < j as int && descends(
                                        s,
                                        p as int,
                                        index as int,
                                    ))));
                                    if p0[p as int] {
                                        assert(old(self).pruned@[j as int]);
                                    }
                                }
                                if parent_pruned {
                                    self.pruned.set(j, true);
                                }
                            },
                            None => {},
                        }
                    },
                    None => {},
                }
                j = j + 1;
            }
            proof {
                assert(self.model() =~= s);
                assert forall|i: int|
                    1 <= i < s.len() && self.pruned_model()[s[i].parent->Some_0 as int]
                    implies #[trigger] self.pruned_model()[i] by {
                    let p = s[i].parent->Some_0 as int;
                    assert(self.pruned@[p] == (p0[p] || descends(s, p, index as int)));
                    assert(descends(s, i, index as int) == (i == index as int || (0 < i
                        && descends(s, p, index as int))));
                    if p0[p] {
                        assert(old(self).pruned_model()[i]);
                    }
                    assert(self.pruned@[i] == (p0[i] || descends(s, i, index as int)));
                }
                assert(self.wf());
            }
        } else {
            proof {
                assert(self.model() =~= s);
            }
        }
    }
}

impl Default for Tree {
    fn default() -> (r: Tree)
        ensures
            r.wf(),
            r.model() == Seq::<Vertex>::empty(),
            r.pruned_model() == Seq::<bool>::empty(),
    {
        Tree::new()
    }
}

/// A pruned-flag vector is only ever grown or marked, so a vertex can only
/// descend from an equal or smaller index.
pub proof fn lemma_descends_bound(s: Seq<Vertex>, i: int, a: int)
    requires
        wf_model(s),
        0 <= i < s.len(),
    ensures
        descends(s, i, a) ==> a <= i,
    decreases i,
{
    if 0 < i {
        lemma_descends_bound(s, s[i].parent->Some_0 as int, a);
    }
}

/// Pruned marks are transitively closed: in a well-formed tree, every
/// vertex that descends from a pruned vertex is itself pruned.
pub proof fn lemma_descendants_pruned(t: Tree, i: int, a: int)
    requires
        t.wf(),
        0 <= a < t.model().len(),
        0 <= i < t.model().len(),
        descends(t.model(), i, a),
        t.pruned_model()[a],
    ensures
        t.pruned_model()[i],
    decreases i,
{
    let s = t.model();
    if i != a {
        let p = s[i].parent->Some_0 as int;
        lemma_descends_bound(s, p, a);
        lemma_descendants_pruned(t, p, a);
    }
}

/// Pruning is idempotent.  `p1` is the marking after pruning vertex `v` in
/// a tree whose marking was `p0`, and `p2` the marking after pruning `v` a
/// second time: the second pruning changes nothing.
pub proof fn lemma_prune_idempotent(
    s: Seq<Vertex>,
    p0: Seq<bool>,
    p1: Seq<bool>,
    p2: Seq<bool>,
    v: int,
)
    requires
        p0.len() == s.len(),
        p1.len() == s.len(),
        p2.len() == s.len(),
        forall|i: int|
            0 <= i < s.len() ==> p1[i] == (p0[i] || (0 <= v < s.len() && descends(s, i, v))),
        forall|i: int|
            0 <= i < s.len() ==> p2[i] == (p1[i] || (0 <= v < s.len() && descends(s, i, v))),
    ensures
        p2 == p1,
{
    assert(p2 =~= p1);
}

/// Membership of the longest valid path with a confirmation distance: the
/// vertex is the ancestor of the deepest vertex at its own depth, and the
/// deepest vertex lies at least `distance` levels below it.
pub open spec fn valid_with_distance(s: Seq<Vertex>, index: int, distance: int) -> bool {
    &&& 0 <= index < s.len()
    &&& exists|d: int|
        #[trigger] is_deepest(s, d) && ancestor_at(s, d, s[index].depth as int).index == index
            && s[d].depth - s[index].depth >= distance
}

/// Two indices that are both deepest are the same index.
pub proof fn lemma_deepest_unique(s: Seq<Vertex>, a: int, b: int)
    requires
        s.len() <= u32::MAX,
        is_deepest(s, a),
        is_deepest(s, b),
    ensures
        a == b,
{
    assert(key_le(key_of(s, a), key_of(s, b)));
    assert(key_le(key_of(s, b), key_of(s, a)));
}

/// The ancestor at depth `d` is a vertex of the tree, sits at exactly depth
/// `d`, and the queried vertex descends from it.
pub proof fn lemma_ancestor_at_depth(s: Seq<Vertex>, i: int, d: int)
    requires
        wf_model(s),
        0 <= i < s.len(),
        0 <= d <= s[i].depth,
    ensures
        ({
            let a = ancestor_at(s, i, d);
            &&& 0 <= (a.index as int) && (a.index as int) < s.len()
            &&& s[a.index as int] == a
            &&& a.depth == d
            &&& descends(s, i, a.index as int)
        }),
    decreases s[i].depth,
{
    if s[i].depth == d {
    } else {
        let p = s[i].parent->Some_0 as int;
        lemma_ancestor_at_depth(s, p, d);
    }
}

/// An element-for-element copy of a pruned-flag vector.
fn copy_bools(v: &Vec<bool>) -> (r: Vec<bool>)
    ensures
        r@ == v@,
{
    let mut r: Vec<bool> = Vec::new();
    let mut i: usize = 0;
    while i < v.len()
        invariant
            i <= v@.len(),
            r@ == v@.subrange(0, i as int),
        decreases v@.len() - i,
    {
        r.push(v[i]);
        proof {
            assert(v@.subrange(0, i + 1 as int) =~= v@.subrange(0, i as int).push(v@[i as int]));
        }
        i = i + 1;
    }
    proof {
        assert(r@ =~= v@);
    }
    r
}

} // verus!
