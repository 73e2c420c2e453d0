//! The persisted / transport representation of a tree.
//!
//! A tree travels as a plain table: the vertex records in index order, each
//! carrying its depth and parent, and the deepest-order keys as an ascending
//! sequence.  Decoding validates the table against the structural rules —
//! the supplied depths are cross-checked against `parent.depth + 1` — and
//! rebuilds the tree by replaying the insertions, so a round trip reproduces
//! the exact model and with it identical answers to every query.  A table
//! that fails these checks is surfaced as `TreeMalformed`.

use crate::error::Error;
use crate::persist::{key_lt, DepthKey};
use crate::tree_lib::{insert_model, keys_of, wf_model, Tree, Vertex};
use vstd::prelude::*;

verus! {

/// A tree in transport form.  JSON or any other concrete syntax is layered
/// on top of this table outside the library.
#[derive(Clone, Debug, PartialEq, Eq)]
pub struct TreeTable {
    pub vertices: Vec<Vertex>,
    pub deepest: Vec<DepthKey>,
}

/// A transport table is valid when its vertex records satisfy the structural
/// rules of a tree model and its deepest-order sequence is exactly the
/// ascending enumeration of the model's deepest-order keys.
pub open spec fn table_valid(v: Seq<Vertex>, d: Seq<DepthKey>) -> bool {
    &&& wf_model(v)
    &&& v.len() <= u32::MAX
    &&& forall|i: int| 0 < i < d.len() ==> key_lt(d[i - 1], #[trigger] d[i])
    &&& forall|x: DepthKey| d.contains(x) <==> keys_of(v).contains(x)
}

impl Tree {
    /// Encode the tree as a transport table: vertex records in index order,
    /// deepest-order keys ascending.
    pub fn to_table(&self) -> (r: TreeTable)
        requires
            self.wf(),
        ensures
            r.vertices@ == self.model(),
            table_valid(r.vertices@, r.deepest@),
    {
        let n = self.size();
        proof {
            self.lemma_wf_model();
        }
        let mut vertices: Vec<Vertex> = Vec::new();
        let mut i: usize = 0;
        while i < n
            invariant
                self.wf(),
                n == self.model().len(),
                n <= u32::MAX,
                i <= n,
                vertices@ == self.model().subrange(0, i as int),
            decreases n - i,
        {
            proof {
                assert((i as u32) as int == i as int);
            }
            match self.get_vertex(i as u32) {
                Some(v) => {
                    vertices.push(v);
                },
                None => {},
            }
            proof {
                assert(self.model().subrange(0, i + 1 as int) =~= self.model().subrange(
                    0,
                    i as int,
                ).push(self.model()[i as int]));
            }
            i = i + 1;
        }
        proof {
            assert(vertices@ =~= self.model());
        }
        let deepest = self.deepest_keys();
        TreeTable { vertices, deepest }
    }

    /// Decode a transport table, validating it and rebuilding the tree by
    /// replaying the insertions.
    ///
    /// Succeeds exactly on valid tables; the rebuilt tree carries the very
    /// model the table describes (and no pruned marks, which do not travel),
    /// so every query answers as it did on the encoded tree.  An invalid
    /// table is a structural failure.
    pub fn from_table(table: &TreeTable) -> (r: Result<Tree, Error>)
        ensures
            table_valid(table.vertices@, table.deepest@) ==> (r matches Ok(tree) && tree.wf()
                && tree.model() == table.vertices@ && tree.pruned_model() == Seq::new(
                table.vertices@.len(),
                |i: int| false,
            )),
            !table_valid(table.vertices@, table.deepest@) ==> (r matches Err(e) && e
                is TreeMalformed),
    {
        let ghost v = table.vertices@;
        let ghost d = table.deepest@;
        let n = table.vertices.len();
        if n > u32::MAX as usize {
            return Err(Error::TreeMalformed { err: "vertex table too large".to_owned() });
        }
        let mut tree = Tree::new();
        let mut i: usize = 0;
        while i < n
            invariant
                n == v.len(),
                n <= u32::MAX,
                i <= n,
                v == table.vertices@,
                tree.wf(),
                tree.model() == v.subrange(0, i as int),
                tree.pruned_model() =~= Seq::new(i as nat, |k: int| false),
            decreases n - i,
        {
            let rec = table.vertices[i];
            if rec.index as usize != i {
                return Err(Error::TreeMalformed { err: "vertex record out of order".to_owned() });
            }
            let event: u32 = if i == 0 {
                if !(rec.parent.is_none() && rec.depth == 0) {
                    return Err(
                        Error::TreeMalformed { err: "genesis record malformed".to_owned() },
                    );
                }
                0
            } else {
                match rec.parent {
                    Some(p) => {
                        if !((p as usize) < i) {
                            return Err(
                                Error::TreeMalformed {
                                    err: "vertex record parent out of range".to_owned(),
                                },
                            );
                        }
                        proof {
                            tree.lemma_wf_model();
                            assert(tree.model()[p as int] == v[p as int]);
                            assert(v[p as int].depth <= p as int);
                        }
                        if rec.depth != table.vertices[p as usize].depth + 1 {
                            return Err(
                                Error::TreeMalformed {
                                    err: "vertex record depth mismatch".to_owned(),
                                },
                            );
                        }
                        p
                    },
                    None => {
                        return Err(
                            Error::TreeMalformed {
                                err: "vertex record without a parent".to_owned(),
                            },
                        );
                    },
                }
            };
            proof {
                assert(insert_model(tree.model(), event) == Some(
                    tree.model().push(v[i as int]),
                ));
                assert(v.subrange(0, i + 1 as int) =~= v.subrange(0, i as int).push(v[i as int]));
            }
            tree = match tree.insert_vertex(event) {
                Ok(t) => t,
                Err(_) => {
                    return Err(
                        Error::TreeMalformed { err: "vertex table fails replay".to_owned() },
                    );
                },
            };
            i = i + 1;
        }
        proof {
            assert(tree.model() =~= v);
        }
        let expected = tree.deepest_keys();
        let ghost exp = expected@;
        if expected.len() != table.deepest.len() {
            proof {
                if table_valid(v, d) {
                    lemma_sorted_keys_unique(d, exp);
                }
            }
            return Err(
                Error::TreeMalformed { err: "deepest-order sequence fails round-trip".to_owned() },
            );
        }
        let mut j: usize = 0;
        while j < expected.len()
            invariant
                exp == expected@,
                d == table.deepest@,
                v == table.vertices@,
                exp.len() == d.len(),
                j <= exp.len(),
                expected@.len() == table.deepest.len(),
                forall|k: int| 0 <= k < j ==> exp[k] == d[k],
                tree.wf(),
                tree.model() == v,
                tree.pruned_model() == Seq::new(v.len(), |k: int| false),
                forall|i: int| 0 < i < exp.len() ==> key_lt(exp[i - 1], #[trigger] exp[i]),
                forall|x: DepthKey| exp.contains(x) <==> keys_of(v).contains(x),
            decreases exp.len() - j,
        {
            let a = expected[j];
            let b = table.deepest[j];
            if a.0 != b.0 || a.1 != b.1 {
                proof {
                    if table_valid(v, d) {
                        lemma_sorted_keys_unique(d, exp);
                    }
                }
                return Err(
                    Error::TreeMalformed {
                        err: "deepest-order sequence fails round-trip".to_owned(),
                    },
                );
            }
            j = j + 1;
        }
        proof {
            assert(d =~= exp);
            tree.lemma_wf_model();
            assert(table_valid(v, d));
        }
        Ok(tree)
    }
}

/// In an ascending key sequence, every later element lies strictly above the
/// first.
proof fn lemma_sorted_first(a: Seq<DepthKey>, j: int)
    requires
        forall|i: int| 0 < i < a.len() ==> key_lt(a[i - 1], #[trigger] a[i]),
        0 < j < a.len(),
    ensures
        key_lt(a[0], a[j]),
    decreases j,
{
    if j > 1 {
        lemma_sorted_first(a, j - 1);
    }
}

/// The deepest-order serialization is canonical: two strictly ascending key
/// sequences holding the same keys are the same sequence.  This is what
/// makes the transport form round-trip exactly.
pub proof fn lemma_sorted_keys_unique(a: Seq<DepthKey>, b: Seq<DepthKey>)
    requires
        forall|i: int| 0 < i < a.len() ==> key_lt(a[i - 1], #[trigger] a[i]),
        forall|i: int| 0 < i < b.len() ==> key_lt(b[i - 1], #[trigger] b[i]),
        forall|x: DepthKey| a.contains(x) <==> b.contains(x),
    ensures
        a == b,
    decreases a.len(),
{
    if a.len() == 0 {
        if b.len() > 0 {
            assert(b.contains(b[0]));
            assert(a.contains(b[0]));
        }
        assert(a =~= b);
    } else {
        assert(a.contains(a[0]));
        assert(b.contains(a[0]));
        let k = choose|k: int| 0 <= k < b.len() && b[k] == a[0];
        if k > 0 {
            lemma_sorted_first(b, k);
            assert(key_lt(b[0], a[0]));
            assert(b.contains(b[0]));
            assert(a.contains(b[0]));
            let m = choose|m: int| 0 <= m < a.len() && a[m] == b[0];
            if m > 0 {
                lemma_sorted_first(a, m);
            }
        }
        assert(a[0] == b[0]);
        let a1 = a.drop_first();
        let b1 = b.drop_first();
        assert forall|x: DepthKey| a1.contains(x) implies b1.contains(x) by {
            lemma_tail_contains(a, b, x);
        }
        assert forall|x: DepthKey| b1.contains(x) implies a1.contains(x) by {
            lemma_tail_contains(b, a, x);
        }
        assert forall|i: int| 0 < i < a1.len() implies key_lt(a1[i - 1], #[trigger] a1[i]) by {
            assert(a1[i - 1] == a[i]);
            assert(a1[i] == a[i + 1]);
        }
        assert forall|i: int| 0 < i < b1.len() implies key_lt(b1[i - 1], #[trigger] b1[i]) by {
            assert(b1[i - 1] == b[i]);
            assert(b1[i] == b[i + 1]);
        }
        lemma_sorted_keys_unique(a1, b1);
        assert(a.len() == b.len());
        assert forall|i: int| 0 <= i < a.len() implies a[i] == b[i] by {
            if i > 0 {
                assert(a1[i - 1] == b1[i - 1]);
            }
        }
        assert(a =~= b);
    }
}

/// A key in the tail of one ascending sequence sits in the tail of the other
/// whenever the two sequences hold the same keys and share their head.
proof fn lemma_tail_contains(a: Seq<DepthKey>, b: Seq<DepthKey>, x: DepthKey)
    requires
        forall|i: int| 0 < i < a.len() ==> key_lt(a[i - 1], #[trigger] a[i]),
        forall|i: int| 0 < i < b.len() ==> key_lt(b[i - 1], #[trigger] b[i]),
        forall|y: DepthKey| a.contains(y) <==> b.contains(y),
        a.len() > 0,
        b.len() > 0,
        a[0] == b[0],
        a.drop_first().contains(x),
    ensures
        b.drop_first().contains(x),
{
    let i = choose|i: int| 0 <= i < a.drop_first().len() && a.drop_first()[i] == x;
    assert(a[i + 1] == x);
    lemma_sorted_first(a, i + 1);
    assert(a.contains(x));
    assert(b.contains(x));
    let k = choose|k: int| 0 <= k < b.len() && b[k] == x;
    assert(k != 0) by {
        assert(key_lt(a[0], x));
    }
    assert(b.drop_first()[k - 1] == x);
    assert(b.drop_first().contains(b.drop_first()[k - 1]));
}

} // verus!
