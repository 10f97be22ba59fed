//! The mathematical model of the packed tree.
//!
//! A tree value is abstracted as a sequence of optional digests (a slot is
//! `None` while a reserved replica has not learned it yet), the leaf and
//! node counts, and the two maps.  The invariants here are the ones every
//! operation preserves: the packed shape (`total == 2 * leaves - 1`), the
//! position index pointing at slots that really hold the indexed digest,
//! and — for fully known trees — every internal slot holding the node hash
//! of its two children, with the children concatenated right before left.

use vstd::prelude::*;

use crate::hash::hash_of;
use crate::hash::hash_pair_of;

verus! {

/// One step of an inclusion proof: the sibling digest, tagged with the side
/// it takes in the concatenation when folded with the accumulator.
/// `Left(d)` folds as `H(H(d ++ acc))`, `Right(d)` as `H(H(acc ++ d))`.
pub ghost enum PathStep {
    Left(Seq<u8>),
    Right(Seq<u8>),
}

impl PathStep {
    /// The sibling digest carried by the step.
    pub open spec fn digest(self) -> Seq<u8> {
        match self {
            PathStep::Left(d) => d,
            PathStep::Right(d) => d,
        }
    }
}

/// The parent of array position `i`.
pub open spec fn parent_idx(i: int) -> int {
    (i - 1) / 2
}

/// The sibling of array position `i`: the even position to the right of an
/// odd one, the odd position to the left of an even one.
pub open spec fn sibling_idx(i: int) -> int {
    if i % 2 == 0 {
        i - 1
    } else {
        i + 1
    }
}

/// The digest in slot `i` of a tree sequence; meaningful only when the slot
/// is filled.
pub open spec fn tree_at(t: Seq<Option<Seq<u8>>>, i: int) -> Seq<u8> {
    match t[i] {
        Some(d) => d,
        None => Seq::empty(),
    }
}

/// Slot `i` holds the node hash of its two children, all three known.
pub open spec fn node_ok_at(t: Seq<Option<Seq<u8>>>, i: int) -> bool {
    &&& t[i] is Some
    &&& t[2 * i + 1] is Some
    &&& t[2 * i + 2] is Some
    &&& tree_at(t, i) == hash_pair_of(tree_at(t, 2 * i + 2), tree_at(t, 2 * i + 1))
}

/// The abstract value of a tree.
#[verifier::ext_equal]
pub ghost struct MerkleView {
    pub total: int,
    pub leaves: int,
    pub tree: Seq<Option<Seq<u8>>>,
    pub index: Map<Seq<u8>, usize>,
    pub data: Map<Seq<u8>, Seq<u8>>,
}

impl MerkleView {
    /// The first position of the trailing leaf range.
    pub open spec fn first_leaf(self) -> int {
        self.total - self.leaves
    }

    pub open spec fn filled(self, i: int) -> bool {
        self.tree[i] is Some
    }

    pub open spec fn at(self, i: int) -> Seq<u8> {
        tree_at(self.tree, i)
    }

    pub open spec fn root_digest(self) -> Seq<u8> {
        self.at(0)
    }

    pub open spec fn node_ok(self, i: int) -> bool {
        node_ok_at(self.tree, i)
    }

    /// The structural invariant that holds of every tree value, reserved
    /// replicas included.
    pub open spec fn inv(self) -> bool {
        &&& self.tree.len() == self.total
        &&& self.total <= usize::MAX
        &&& 0 <= self.leaves
        &&& (self.total == 0 <==> self.leaves == 0)
        &&& (self.total > 0 ==> self.total == 2 * self.leaves - 1)
        &&& (self.total > 0 ==> self.filled(0))
        &&& forall|k: Seq<u8>| #[trigger]
            self.index.contains_key(k) ==> self.first_leaf() <= self.index[k] < self.total
                && self.tree[self.index[k] as int] == Some(k)
        &&& forall|k: Seq<u8>| #[trigger]
            self.data.contains_key(k) ==> hash_of(self.data[k]) == k
    }

    /// The full invariant of a completely known tree: every slot filled,
    /// every internal slot the node hash of its children, every leaf slot
    /// indexed, and every indexed digest backed by its payload.
    pub open spec fn wf(self) -> bool {
        &&& self.inv()
        &&& forall|i: int| 0 <= i < self.total ==> self.filled(i)
        &&& forall|i: int| 0 <= i < self.first_leaf() ==> self.node_ok(i)
        &&& forall|j: int|
            self.first_leaf() <= j < self.total ==> self.index.contains_key(#[trigger] self.at(j))
                && self.index[self.at(j)] == j
        &&& forall|k: Seq<u8>| #[trigger]
            self.index.contains_key(k) ==> self.data.contains_key(k)
        &&& self.data.dom() <= self.index.dom()
    }

    /// What `verify_tree` reports: every internal slot matches the node
    /// hash of its children (and so, in a tree with at least one internal
    /// slot, every slot is known).
    pub open spec fn consistent(self) -> bool {
        self.total == 0 || forall|i: int| 0 <= i < self.first_leaf() ==> self.node_ok(i)
    }

    /// The proof step recorded for position `i`: its sibling's digest,
    /// tagged by the side that sibling takes in the fold.
    pub open spec fn sibling_step(self, i: int) -> PathStep {
        if i % 2 == 0 {
            PathStep::Right(self.at(i - 1))
        } else {
            PathStep::Left(self.at(i + 1))
        }
    }

    /// The inclusion proof for the digest at position `i`: sibling steps
    /// from `i` up to the root.
    pub open spec fn path_from(self, i: int) -> Seq<PathStep>
        decreases i,
    {
        if i <= 0 {
            Seq::empty()
        } else {
            seq![self.sibling_step(i)] + self.path_from(parent_idx(i))
        }
    }

    /// All sibling slots from `i` up to the root are known, so a proof for
    /// position `i` can actually be produced.
    pub open spec fn path_ready(self, i: int) -> bool
        decreases i,
    {
        i <= 0 || (self.filled(sibling_idx(i)) && self.path_ready(parent_idx(i)))
    }
}

/// In a fully known tree every proof can actually be read off.
pub proof fn lemma_wf_path_ready(m: MerkleView, i: int)
    requires
        m.wf(),
        0 <= i < m.total,
    ensures
        m.path_ready(i),
    decreases i,
{
    if i > 0 {
        let s = sibling_idx(i);
        assert(2 * parent_idx(i) + 1 == i || 2 * parent_idx(i) + 2 == i);
        assert(0 <= s < m.total) by {
            if i % 2 == 1 {
                assert(i < m.total - 1) by {
                    assert(m.total == 2 * m.leaves - 1);
                }
            }
        }
        assert(m.filled(s));
        lemma_wf_path_ready(m, parent_idx(i));
    }
}

/// Folding an inclusion proof: each step hashes the accumulator with the
/// sibling digest, the sibling placed on the side its tag names.
pub open spec fn fold_path(acc: Seq<u8>, path: Seq<PathStep>) -> Seq<u8>
    decreases path.len(),
{
    if path.len() == 0 {
        acc
    } else {
        let next = match path[0] {
            PathStep::Left(d) => hash_pair_of(d, acc),
            PathStep::Right(d) => hash_pair_of(acc, d),
        };
        fold_path(next, path.drop_first())
    }
}

/// In a fully known consistent tree, folding the proof of any position
/// reproduces the root digest.
pub proof fn lemma_fold_to_root(m: MerkleView, i: int)
    requires
        m.wf(),
        0 <= i < m.total,
    ensures
        fold_path(m.at(i), m.path_from(i)) == m.root_digest(),
    decreases i,
{
    if i > 0 {
        let p = parent_idx(i);
        assert(2 * p + 1 == i || 2 * p + 2 == i);
        assert(0 <= p < m.first_leaf());
        assert(m.node_ok(p));
        assert(m.path_from(i).drop_first() =~= m.path_from(p));
        assert(fold_path(m.at(i), m.path_from(i)) == fold_path(m.at(p), m.path_from(p)));
        lemma_fold_to_root(m, p);
    }
}

/// Writing a new value into slot `i` and recomputing every node above it:
/// the single routine both insertion and deletion lean on.
pub open spec fn propagate(t: Seq<Option<Seq<u8>>>, i: int, v: Seq<u8>) -> Seq<Option<Seq<u8>>>
    decreases i,
{
    if i <= 0 {
        t.update(0, Some(v))
    } else {
        let t1 = t.update(i, Some(v));
        let pv = if i % 2 == 1 {
            hash_pair_of(tree_at(t1, i + 1), v)
        } else {
            hash_pair_of(v, tree_at(t1, i - 1))
        };
        propagate(t1, parent_idx(i), pv)
    }
}

/// Position `j` lies on the way from `i` up to the root.
pub open spec fn on_path(i: int, j: int) -> bool
    decreases i,
{
    j == i || (i > 0 && on_path(parent_idx(i), j))
}

pub proof fn lemma_on_path_le(i: int, j: int)
    requires
        on_path(i, j),
        0 <= i,
    ensures
        0 <= j <= i,
    decreases i,
{
    if j != i {
        lemma_on_path_le(parent_idx(i), j);
    }
}

/// What `propagate` does to each slot: it leaves everything off the path
/// unchanged, writes `v` at `i`, and makes every strict ancestor of `i` the
/// node hash of its (then current) children.
pub proof fn lemma_propagate_nodes(t: Seq<Option<Seq<u8>>>, i: int, v: Seq<u8>, fl: int)
    requires
        0 <= i < t.len(),
        t.len() == 2 * fl + 1,
        forall|j: int| 0 <= j < t.len() ==> t[j] is Some,
    ensures
        propagate(t, i, v).len() == t.len(),
        forall|j: int| 0 <= j < t.len() ==> propagate(t, i, v)[j] is Some,
        propagate(t, i, v)[i] == Some(v),
        forall|j: int| 0 <= j < t.len() && !on_path(i, j) ==> propagate(t, i, v)[j] == t[j],
        forall|j: int|
            on_path(i, j) && j != i ==> 0 <= j < fl && node_ok_at(propagate(t, i, v), j),
    decreases i,
{
    if i <= 0 {
        assert(forall|j: int| on_path(0, j) ==> j == 0);
    } else {
        let p = parent_idx(i);
        let t1 = t.update(i, Some(v));
        let pv = if i % 2 == 1 {
            hash_pair_of(tree_at(t1, i + 1), v)
        } else {
            hash_pair_of(v, tree_at(t1, i - 1))
        };
        let r = propagate(t1, p, pv);
        assert(2 * p + 1 == i || 2 * p + 2 == i);
        assert(0 <= p < fl);
        lemma_propagate_nodes(t1, p, pv, fl);
        assert(propagate(t, i, v) == r);
        // slot i survives the upper propagation
        assert(!on_path(p, i)) by {
            if on_path(p, i) {
                lemma_on_path_le(p, i);
            }
        }
        assert(r[i] == Some(v));
        // the parent is the node hash of its children
        let sib = sibling_idx(i);
        assert(sib == 2 * p + 1 || sib == 2 * p + 2);
        assert(!on_path(p, sib)) by {
            if on_path(p, sib) {
                lemma_on_path_le(p, sib);
            }
        }
        assert(r[sib] == t1[sib]);
        assert(node_ok_at(r, p)) by {
            if i % 2 == 1 {
                assert(2 * p + 1 == i && 2 * p + 2 == sib);
                assert(tree_at(r, p) == pv);
            } else {
                assert(2 * p + 2 == i && 2 * p + 1 == sib);
                assert(tree_at(r, p) == pv);
            }
        }
        assert forall|j: int| on_path(i, j) && j != i implies 0 <= j < fl && node_ok_at(
            propagate(t, i, v),
            j,
        ) by {
            assert(on_path(p, j));
            if j != p {
                assert(node_ok_at(r, j));
            }
        }
        assert forall|j: int| 0 <= j < t.len() && !on_path(i, j) implies propagate(t, i, v)[j]
            == t[j] by {
            assert(!on_path(p, j));
            assert(j != i);
            assert(r[j] == t1[j]);
        }
    }
}

/// Two trees that agree off the path from `i` propagate to equal results.
pub proof fn lemma_propagate_agree(
    t1: Seq<Option<Seq<u8>>>,
    t2: Seq<Option<Seq<u8>>>,
    i: int,
    v: Seq<u8>,
)
    requires
        t1.len() == t2.len(),
        0 <= i < t1.len(),
        i > 0 ==> i + 1 < t1.len(),
        forall|j: int| 0 <= j < t1.len() && !on_path(i, j) ==> t1[j] == t2[j],
    ensures
        propagate(t1, i, v) =~= propagate(t2, i, v),
    decreases i,
{
    if i <= 0 {
        assert(forall|j: int| on_path(0, j) ==> j == 0);
        assert(propagate(t1, 0, v) =~= propagate(t2, 0, v));
    } else {
        let p = parent_idx(i);
        let u1 = t1.update(i, Some(v));
        let u2 = t2.update(i, Some(v));
        let sib = sibling_idx(i);
        assert(2 * p + 1 == i || 2 * p + 2 == i);
        assert(0 <= sib < t1.len());
        assert(!on_path(i, sib)) by {
            if on_path(i, sib) {
                if sib != i {
                    assert(on_path(p, sib));
                    lemma_on_path_le(p, sib);
                }
            }
        }
        assert(t1[sib] == t2[sib]);
        assert(tree_at(u1, sib) == tree_at(u2, sib));
        let pv = if i % 2 == 1 {
            hash_pair_of(tree_at(u1, i + 1), v)
        } else {
            hash_pair_of(v, tree_at(u1, i - 1))
        };
        assert forall|j: int| 0 <= j < u1.len() && !on_path(p, j) implies u1[j] == u2[j] by {
            if j != i {
                assert(!on_path(i, j));
            }
        }
        assert(p > 0 ==> p + 1 < u1.len());
        lemma_propagate_agree(u1, u2, p, pv);
    }
}

/// Re-propagating the value a slot already holds changes nothing, as long
/// as every strict ancestor already is the node hash of its children.
pub proof fn lemma_propagate_same(t: Seq<Option<Seq<u8>>>, i: int)
    requires
        0 <= i < t.len(),
        t[i] is Some,
        forall|j: int| on_path(i, j) && j != i ==> node_ok_at(t, j),
    ensures
        propagate(t, i, tree_at(t, i)) =~= t,
    decreases i,
{
    if i <= 0 {
        assert(propagate(t, 0, tree_at(t, 0)) =~= t);
    } else {
        let p = parent_idx(i);
        let v = tree_at(t, i);
        let t1 = t.update(i, Some(v));
        assert(t1 =~= t);
        let pv = if i % 2 == 1 {
            hash_pair_of(tree_at(t1, i + 1), v)
        } else {
            hash_pair_of(v, tree_at(t1, i - 1))
        };
        assert(2 * p + 1 == i || 2 * p + 2 == i);
        assert(on_path(p, p));
        assert(on_path(i, p));
        assert(node_ok_at(t, p));
        assert(pv == tree_at(t, p)) by {
            if i % 2 == 1 {
                assert(2 * p + 2 == i + 1);
            } else {
                assert(2 * p + 1 == i - 1);
            }
        }
        assert forall|j: int| on_path(p, j) && j != p implies node_ok_at(t, j) by {
            assert(on_path(i, j));
            assert(j != i) by {
                lemma_on_path_le(p, j);
            }
        }
        lemma_propagate_same(t, p);
        assert(propagate(t, i, tree_at(t, i)) == propagate(t1, p, pv));
        assert(propagate(t1, p, pv) == propagate(t, p, tree_at(t, p)));
    }
}

/// Propagating twice from the same slot: only the second value matters.
pub proof fn lemma_propagate_twice(t: Seq<Option<Seq<u8>>>, i: int, a: Seq<u8>, b: Seq<u8>)
    requires
        0 <= i < t.len(),
        i > 0 ==> i + 1 < t.len(),
    ensures
        propagate(propagate(t, i, a), i, b) =~= propagate(t, i, b),
    decreases i,
{
    if i <= 0 {
        assert(propagate(propagate(t, 0, a), 0, b) =~= propagate(t, 0, b));
    } else {
        let p = parent_idx(i);
        let ta = t.update(i, Some(a));
        let pva = if i % 2 == 1 {
            hash_pair_of(tree_at(ta, i + 1), a)
        } else {
            hash_pair_of(a, tree_at(ta, i - 1))
        };
        let ra = propagate(ta, p, pva);
        assert(propagate(t, i, a) == ra);
        assert(ra.len() == t.len()) by {
            lemma_propagate_len(ta, p, pva);
        }
        let sib = sibling_idx(i);
        assert(2 * p + 1 == i || 2 * p + 2 == i);
        assert(0 <= sib < t.len());
        assert(!on_path(p, sib)) by {
            if on_path(p, sib) {
                lemma_on_path_le(p, sib);
            }
        }
        assert(!on_path(p, i)) by {
            if on_path(p, i) {
                lemma_on_path_le(p, i);
            }
        }
        lemma_propagate_frame(ta, p, pva);
        assert(ra[sib] == ta[sib]);
        let rb = ra.update(i, Some(b));
        let tb = t.update(i, Some(b));
        let pvb = if i % 2 == 1 {
            hash_pair_of(tree_at(tb, i + 1), b)
        } else {
            hash_pair_of(b, tree_at(tb, i - 1))
        };
        assert(tree_at(rb, sib) == tree_at(tb, sib));
        assert(propagate(ra, i, b) == propagate(rb, p, if i % 2 == 1 {
            hash_pair_of(tree_at(rb, i + 1), b)
        } else {
            hash_pair_of(b, tree_at(rb, i - 1))
        }));
        assert forall|j: int| 0 <= j < rb.len() && !on_path(p, j) implies rb[j] == tb[j] by {
            if j != i {
                assert(ra[j] == ta[j]);
            }
        }
        assert(p > 0 ==> p + 1 < rb.len());
        lemma_propagate_agree(rb, tb, p, pvb);
        assert(propagate(t, i, b) == propagate(tb, p, pvb));
    }
}

pub proof fn lemma_propagate_len(t: Seq<Option<Seq<u8>>>, i: int, v: Seq<u8>)
    requires
        0 <= i < t.len(),
    ensures
        propagate(t, i, v).len() == t.len(),
    decreases i,
{
    if i > 0 {
        lemma_propagate_len(t.update(i, Some(v)), parent_idx(i), if i % 2 == 1 {
            hash_pair_of(tree_at(t.update(i, Some(v)), i + 1), v)
        } else {
            hash_pair_of(v, tree_at(t.update(i, Some(v)), i - 1))
        });
    }
}

/// The frame of `propagate` without any fill hypothesis: slots off the
/// path keep their old contents, and the start slot gets the new value.
pub proof fn lemma_propagate_frame(t: Seq<Option<Seq<u8>>>, i: int, v: Seq<u8>)
    requires
        0 <= i < t.len(),
    ensures
        propagate(t, i, v).len() == t.len(),
        propagate(t, i, v)[i] == Some(v),
        forall|j: int| 0 <= j < t.len() && !on_path(i, j) ==> propagate(t, i, v)[j] == t[j],
    decreases i,
{
    if i <= 0 {
        assert(forall|j: int| on_path(0, j) ==> j == 0);
    } else {
        let p = parent_idx(i);
        let t1 = t.update(i, Some(v));
        let pv = if i % 2 == 1 {
            hash_pair_of(tree_at(t1, i + 1), v)
        } else {
            hash_pair_of(v, tree_at(t1, i - 1))
        };
        lemma_propagate_frame(t1, p, pv);
        assert(!on_path(p, i)) by {
            if on_path(p, i) {
                lemma_on_path_le(p, i);
            }
        }
        assert forall|j: int| 0 <= j < t.len() && !on_path(i, j) implies propagate(t, i, v)[j]
            == t[j] by {
            assert(!on_path(p, j));
            assert(j != i);
        }
    }
}

/// Path positions are upward closed: the parent of a position on the way
/// from `i` to the root is on that way too.
pub proof fn lemma_on_path_parent(i: int, c: int)
    requires
        0 <= i,
        on_path(i, c),
        c > 0,
    ensures
        on_path(i, parent_idx(c)),
    decreases i,
{
    if c == i {
        assert(on_path(parent_idx(i), parent_idx(i)));
    } else {
        lemma_on_path_parent(parent_idx(i), c);
    }
}

/// Truncating commutes with `propagate` when the whole path, siblings
/// included, lies below the cut.
pub proof fn lemma_propagate_take(t: Seq<Option<Seq<u8>>>, i: int, v: Seq<u8>, cut: int)
    requires
        0 <= i < cut <= t.len(),
        i > 0 ==> i + 1 < cut,
    ensures
        propagate(t, i, v).take(cut) =~= propagate(t.take(cut), i, v),
    decreases i,
{
    if i <= 0 {
        assert(propagate(t, 0, v).take(cut) =~= propagate(t.take(cut), 0, v));
    } else {
        let p = parent_idx(i);
        let t1 = t.update(i, Some(v));
        assert(t1.take(cut) =~= t.take(cut).update(i, Some(v)));
        let sib = sibling_idx(i);
        assert(2 * p + 1 == i || 2 * p + 2 == i);
        assert(sib < cut);
        assert(tree_at(t1.take(cut), sib) == tree_at(t1, sib));
        let pv = if i % 2 == 1 {
            hash_pair_of(tree_at(t1, i + 1), v)
        } else {
            hash_pair_of(v, tree_at(t1, i - 1))
        };
        assert(p > 0 ==> p + 1 < cut);
        lemma_propagate_take(t1, p, pv, cut);
    }
}

/// The state after appending a fresh leaf with digest `k` for payload
/// `payload`.  An empty tree gets `k` as its sole root; otherwise the leaf
/// occupying the slot that must become the next internal node moves to the
/// tail, the new leaf follows it, and the changed node value propagates to
/// the root.
pub open spec fn spec_push(m: MerkleView, k: Seq<u8>, payload: Seq<u8>) -> MerkleView {
    if m.total == 0 {
        MerkleView {
            total: 1,
            leaves: 1,
            tree: seq![Some(k)],
            index: m.index.insert(k, 0),
            data: m.data.insert(k, payload),
        }
    } else {
        let lim = m.total;
        let p = parent_idx(lim);
        let moved = m.at(p);
        let t1 = m.tree + seq![Some(moved), Some(k)];
        MerkleView {
            total: m.total + 2,
            leaves: m.leaves + 1,
            tree: propagate(t1, p, hash_pair_of(k, moved)),
            index: m.index.insert(moved, lim as usize).insert(k, (lim + 1) as usize),
            data: m.data.insert(k, payload),
        }
    }
}

/// Appending a fresh leaf to a fully known tree yields a fully known tree.
pub proof fn lemma_spec_push_wf(m: MerkleView, k: Seq<u8>, payload: Seq<u8>)
    requires
        m.wf(),
        !m.index.contains_key(k),
        hash_of(payload) == k,
        m.total + 2 <= usize::MAX,
    ensures
        spec_push(m, k, payload).wf(),
{
    let r = spec_push(m, k, payload);
    if m.total == 0 {
        assert(forall|k2: Seq<u8>| !m.index.contains_key(k2));
        assert(forall|k2: Seq<u8>| m.data.contains_key(k2) ==> m.index.contains_key(k2));
        assert(r.wf());
    } else {
        let n0 = m.total;
        let p = parent_idx(n0);
        let moved = m.at(p);
        let v = hash_pair_of(k, moved);
        let t1 = m.tree + seq![Some(moved), Some(k)];
        let fl = m.first_leaf();
        let fl2 = r.first_leaf();
        assert(n0 == 2 * m.leaves - 1);
        assert(p == m.leaves - 1);
        assert(fl == p);
        assert(fl2 == p + 1);
        assert(t1.len() == 2 * fl2 + 1);
        assert forall|j: int| 0 <= j < t1.len() implies t1[j] is Some by {
            if j < n0 {
                assert(t1[j] == m.tree[j]);
                assert(m.filled(j));
            } else if j == n0 {
                assert(t1[j] == Some(moved));
            } else {
                assert(t1[j] == Some(k));
            }
        }
        lemma_propagate_nodes(t1, p, v, fl2);
        let t2 = propagate(t1, p, v);
        assert(r.tree == t2);
        assert(m.index.contains_key(moved) && m.index[moved] == p) by {
            assert(m.tree[p] is Some);
            assert(m.at(p) == moved);
        }
        assert(moved != k);
        // every internal slot of the new tree is the node hash of its children
        assert forall|j: int| 0 <= j < fl2 implies r.node_ok(j) by {
            if j == p {
                assert(!on_path(p, 2 * p + 1) && !on_path(p, 2 * p + 2)) by {
                    if on_path(p, 2 * p + 1) {
                        lemma_on_path_le(p, 2 * p + 1);
                    }
                    if on_path(p, 2 * p + 2) {
                        lemma_on_path_le(p, 2 * p + 2);
                    }
                }
                assert(t2[2 * p + 1] == t1[2 * p + 1]);
                assert(t2[2 * p + 2] == t1[2 * p + 2]);
                assert(t1[n0] == Some(moved));
                assert(t1[n0 + 1] == Some(k));
                assert(t2[p] == Some(v));
                assert(node_ok_at(t2, p));
            } else if on_path(p, j) {
                assert(node_ok_at(t2, j));
            } else {
                assert(t2[j] == t1[j]);
                assert(m.node_ok(j));
                assert(!on_path(p, 2 * j + 1)) by {
                    if on_path(p, 2 * j + 1) {
                        lemma_on_path_parent(p, 2 * j + 1);
                    }
                }
                assert(!on_path(p, 2 * j + 2)) by {
                    if on_path(p, 2 * j + 2) {
                        lemma_on_path_parent(p, 2 * j + 2);
                    }
                }
                assert(t2[2 * j + 1] == t1[2 * j + 1]);
                assert(t2[2 * j + 2] == t1[2 * j + 2]);
                assert(t1[2 * j + 1] == m.tree[2 * j + 1]);
                assert(t1[2 * j + 2] == m.tree[2 * j + 2]);
                assert(node_ok_at(t2, j));
            }
        }
        // the index still points at slots holding the indexed digest
        assert forall|k2: Seq<u8>| #[trigger] r.index.contains_key(k2) implies fl2 <= r.index[k2]
            < r.total && r.tree[r.index[k2] as int] == Some(k2) by {
            if k2 == k {
                assert(r.index[k2] == n0 + 1);
                assert(!on_path(p, n0 + 1)) by {
                    if on_path(p, n0 + 1) {
                        lemma_on_path_le(p, n0 + 1);
                    }
                }
                assert(t2[n0 + 1] == t1[n0 + 1]);
            } else if k2 == moved {
                assert(r.index[k2] == n0);
                assert(!on_path(p, n0)) by {
                    if on_path(p, n0) {
                        lemma_on_path_le(p, n0);
                    }
                }
                assert(t2[n0] == t1[n0]);
            } else {
                assert(m.index.contains_key(k2));
                let pos = m.index[k2] as int;
                assert(fl <= pos < n0);
                assert(m.tree[pos] == Some(k2));
                assert(pos != p) by {
                    if pos == p {
                        assert(m.at(p) == k2);
                    }
                }
                assert(!on_path(p, pos)) by {
                    if on_path(p, pos) {
                        lemma_on_path_le(p, pos);
                    }
                }
                assert(t2[pos] == t1[pos]);
                assert(t1[pos] == m.tree[pos]);
            }
        }
        // every leaf slot of the new tree is indexed at its own position
        assert forall|j: int| fl2 <= j < r.total implies r.index.contains_key(#[trigger] r.at(j))
            && r.index[r.at(j)] == j by {
            if j == n0 {
                assert(!on_path(p, j)) by {
                    if on_path(p, j) {
                        lemma_on_path_le(p, j);
                    }
                }
                assert(r.at(j) == moved);
            } else if j == n0 + 1 {
                assert(!on_path(p, j)) by {
                    if on_path(p, j) {
                        lemma_on_path_le(p, j);
                    }
                }
                assert(r.at(j) == k);
            } else {
                assert(!on_path(p, j)) by {
                    if on_path(p, j) {
                        lemma_on_path_le(p, j);
                    }
                }
                assert(t2[j] == t1[j]);
                assert(t1[j] == m.tree[j]);
                assert(m.index.contains_key(m.at(j)) && m.index[m.at(j)] == j);
                assert(r.at(j) != k);
                assert(r.at(j) != moved) by {
                    if r.at(j) == moved {
                        assert(m.index[moved] == j);
                    }
                }
            }
        }
        assert(r.wf());
    }
}

/// The state after removing the leaf whose digest is `k`.  The hole is
/// patched with the two leaves at the tail of the array, in one of three
/// ways depending on where the deleted leaf sits; each repair ends in one
/// or two propagations to the root.
pub open spec fn spec_delete(m: MerkleView, k: Seq<u8>) -> MerkleView
    recommends
        m.index.contains_key(k),
{
    let i = m.index[k] as int;
    if i == 0 {
        MerkleView {
            total: 0,
            leaves: 0,
            tree: Seq::empty(),
            index: m.index.remove(k),
            data: m.data.remove(k),
        }
    } else {
        let n = m.total;
        let p = parent_idx(i);
        let nb = m.at(sibling_idx(i));
        let far_a = m.at(n - 1);
        let far_b = m.at(n - 2);
        let t0 = m.tree.take(n - 2);
        if m.leaves % 2 == 1 && i == n - m.leaves {
            // the unpaired leftmost leaf, whose sibling is an internal
            // subtree: that subtree's root is exactly the parent of the
            // popped pair, so the pair refills the two freed slots
            let t1 = t0.update(i, Some(far_a)).update(i - 1, Some(far_b));
            MerkleView {
                total: n - 2,
                leaves: m.leaves - 1,
                tree: propagate(t1, p, nb),
                index: m.index.insert(far_a, i as usize).insert(far_b, (i - 1) as usize).remove(k),
                data: m.data.remove(k),
            }
        } else if i >= n - 2 {
            // one of the two farthest leaves: the popped pair is the leaf
            // itself and its sibling, which moves up into the parent slot
            MerkleView {
                total: n - 2,
                leaves: m.leaves - 1,
                tree: propagate(t0, p, nb),
                index: m.index.insert(nb, p as usize).remove(k),
                data: m.data.remove(k),
            }
        } else {
            // general case: the surviving sibling moves to the slot of the
            // popped pair's parent, whose digest in turn moves to the
            // deleted pair's parent; the popped pair refills the pair
            let q = parent_idx(n - 1);
            let fpk = m.at(q);
            let t1 = t0.update(2 * p + 2, Some(far_a)).update(2 * p + 1, Some(far_b)).update(
                p,
                Some(fpk),
            );
            let t2 = propagate(t1, q, nb);
            MerkleView {
                total: n - 2,
                leaves: m.leaves - 1,
                tree: propagate(t2, p, fpk),
                index: m.index.insert(far_a, (2 * p + 2) as usize).insert(
                    far_b,
                    (2 * p + 1) as usize,
                ).insert(nb, q as usize).remove(k),
                data: m.data.remove(k),
            }
        }
    }
}

/// Deleting a leaf from a fully known tree yields a fully known tree with
/// one leaf less, that digest gone from the maps and everything else kept.
pub proof fn lemma_spec_delete_wf(m: MerkleView, k: Seq<u8>)
    requires
        m.wf(),
        m.index.contains_key(k),
    ensures
        spec_delete(m, k).wf(),
        spec_delete(m, k).leaves == m.leaves - 1,
        spec_delete(m, k).total == if m.total == 1 {
            0int
        } else {
            m.total - 2
        },
        spec_delete(m, k).index.dom() =~= m.index.dom().remove(k),
        spec_delete(m, k).data =~= m.data.remove(k),
{
    let i = m.index[k] as int;
    if i == 0 {
        lemma_delete_sole_leaf(m, k);
    } else if m.leaves % 2 == 1 && i == m.total - m.leaves {
        lemma_delete_unpaired_leaf(m, k);
    } else if i >= m.total - 2 {
        lemma_delete_farthest_leaf(m, k);
    } else {
        lemma_delete_general_leaf(m, k);
    }
}

proof fn lemma_delete_sole_leaf(m: MerkleView, k: Seq<u8>)
    requires
        m.wf(),
        m.index.contains_key(k),
        m.index[k] == 0,
    ensures
        spec_delete(m, k).wf(),
        spec_delete(m, k).leaves == m.leaves - 1,
        spec_delete(m, k).total == 0,
        m.total == 1,
        spec_delete(m, k).index.dom() =~= m.index.dom().remove(k),
        spec_delete(m, k).data =~= m.data.remove(k),
{
    let r = spec_delete(m, k);
    let i = m.index[k] as int;
    let n = m.total;
    let kk = m.leaves;
    let fl = m.first_leaf();
    assert(fl == kk - 1);
    assert(fl <= i < n);
    assert(m.tree[i] == Some(k));
    assert(m.at(i) == k);
    {
        assert(fl <= 0);
        assert(kk == 1 && n == 1);
        assert forall|k2: Seq<u8>| !(#[trigger] r.index.contains_key(k2)) by {
            if r.index.contains_key(k2) {
                assert(m.index.contains_key(k2) && k2 != k);
                assert(m.index[k2] == 0);
                assert(m.tree[0] == Some(k2));
            }
        }
        assert forall|k2: Seq<u8>| !(#[trigger] r.data.contains_key(k2)) by {
            if r.data.contains_key(k2) {
                assert(m.data.contains_key(k2) && k2 != k);
                assert(m.index.contains_key(k2));
            }
        }
        assert(r.wf());
        assert(r.index.dom() =~= m.index.dom().remove(k));
    }
}

proof fn lemma_delete_popped_pair(m: MerkleView, k: Seq<u8>)
    requires
        m.wf(),
        m.index.contains_key(k),
        m.index[k] > 0,
    ensures
        m.leaves >= 2,
        m.total == 2 * m.leaves - 1,
        m.total >= 3,
        m.first_leaf() == m.leaves - 1,
        m.tree[m.index[k] as int] == Some(k),
        m.at(m.index[k] as int) == k,
        m.index.contains_key(m.at(m.total - 1)) && m.index[m.at(m.total - 1)] == m.total - 1,
        m.index.contains_key(m.at(m.total - 2)) && m.index[m.at(m.total - 2)] == m.total - 2,
        m.at(m.total - 1) != m.at(m.total - 2),
        parent_idx(m.total - 1) == m.first_leaf() - 1,
        m.node_ok(parent_idx(m.total - 1)),
        m.at(parent_idx(m.total - 1)) == hash_pair_of(m.at(m.total - 1), m.at(m.total - 2)),
{
    let i = m.index[k] as int;
    let n = m.total;
    let kk = m.leaves;
    let fl = m.first_leaf();
    assert(fl == kk - 1);
    assert(fl <= i < n);
    assert(m.tree[i] == Some(k));
    assert(kk >= 2);
    assert(n == 2 * kk - 1);
    let q = parent_idx(n - 1);
    assert(q == fl - 1);
    assert(2 * q + 1 == n - 2 && 2 * q + 2 == n - 1);
    assert(m.node_ok(q));
}

proof fn lemma_delete_unpaired_leaf(m: MerkleView, k: Seq<u8>)
    requires
        m.wf(),
        m.index.contains_key(k),
        m.index[k] > 0,
        m.leaves % 2 == 1,
        m.index[k] == m.total - m.leaves,
    ensures
        spec_delete(m, k).wf(),
        spec_delete(m, k).leaves == m.leaves - 1,
        spec_delete(m, k).total == m.total - 2,
        spec_delete(m, k).index.dom() =~= m.index.dom().remove(k),
        spec_delete(m, k).data =~= m.data.remove(k),
{
    let r = spec_delete(m, k);
    let i = m.index[k] as int;
    let n = m.total;
    let kk = m.leaves;
    let fl = m.first_leaf();
    lemma_delete_popped_pair(m, k);
    let p = parent_idx(i);
    let s = sibling_idx(i);
    let nb = m.at(s);
    let far_a = m.at(n - 1);
    let far_b = m.at(n - 2);
    let t0 = m.tree.take(n - 2);
    let fl2 = r.first_leaf();
    assert(r.total == n - 2 && r.leaves == kk - 1);
    assert(fl2 == fl - 1);
    assert(n - 2 == 2 * fl2 + 1);
    assert(t0.len() == n - 2);
    assert(forall|j: int| 0 <= j < n - 2 ==> t0[j] == m.tree[j]);
    let q = parent_idx(n - 1);
    {
        {
            // --- the unpaired leftmost leaf ---
            assert(i == fl);
            assert(kk >= 3);
            assert(i % 2 == 0);
            assert(s == i - 1);
            assert(s == q);
            assert(i == 2 * p + 2 && i - 1 == 2 * p + 1);
            assert(i < n - 2);
            assert(k != far_a && k != far_b);
            assert(nb == hash_pair_of(far_a, far_b));
            let t1 = t0.update(i, Some(far_a)).update(i - 1, Some(far_b));
            let t2 = propagate(t1, p, nb);
            assert(r.tree == t2);
            assert(t1.len() == n - 2);
            assert forall|j: int| 0 <= j < t1.len() implies t1[j] is Some by {
                if j != i && j != i - 1 {
                    assert(t1[j] == m.tree[j]);
                    assert(m.filled(j));
                }
            }
            assert(0 <= p < fl2);
            lemma_propagate_nodes(t1, p, nb, fl2);
            assert forall|j: int| 0 <= j < fl2 implies node_ok_at(t2, j) by {
                if j == p {
                    assert(!on_path(p, i) && !on_path(p, i - 1)) by {
                        if on_path(p, i) {
                            lemma_on_path_le(p, i);
                        }
                        if on_path(p, i - 1) {
                            lemma_on_path_le(p, i - 1);
                        }
                    }
                    assert(t2[i] == t1[i] && t2[i - 1] == t1[i - 1]);
                    assert(t2[p] == Some(nb));
                    assert(node_ok_at(t2, p));
                } else if on_path(p, j) {
                    assert(node_ok_at(t2, j));
                } else {
                    assert(t2[j] == t1[j]);
                    assert(!on_path(p, 2 * j + 1) && !on_path(p, 2 * j + 2)) by {
                        if on_path(p, 2 * j + 1) {
                            lemma_on_path_parent(p, 2 * j + 1);
                        }
                        if on_path(p, 2 * j + 2) {
                            lemma_on_path_parent(p, 2 * j + 2);
                        }
                    }
                    assert(t2[2 * j + 1] == t1[2 * j + 1] && t2[2 * j + 2] == t1[2 * j + 2]);
                    assert(2 * j + 1 != i && 2 * j + 1 != i - 1 && 2 * j + 2 != i && 2 * j + 2 != i
                        - 1) by {
                        assert(j != p);
                    }
                    assert(j < fl && m.node_ok(j));
                    assert(2 * j + 2 < n - 2);
                    assert(node_ok_at(t2, j));
                }
            }
            // index: the relocated pair is indexed at its new slots
            assert forall|k2: Seq<u8>| #[trigger] r.index.contains_key(k2) implies fl2
                <= r.index[k2] < r.total && r.tree[r.index[k2] as int] == Some(k2) by {
                assert(!on_path(p, i) && !on_path(p, i - 1)) by {
                    if on_path(p, i) {
                        lemma_on_path_le(p, i);
                    }
                    if on_path(p, i - 1) {
                        lemma_on_path_le(p, i - 1);
                    }
                }
                if k2 == far_a {
                    assert(r.index[k2] == i);
                    assert(t2[i] == Some(far_a));
                } else if k2 == far_b {
                    assert(r.index[k2] == i - 1);
                    assert(t2[i - 1] == Some(far_b));
                } else {
                    assert(m.index.contains_key(k2) && k2 != k);
                    let pos = m.index[k2] as int;
                    assert(pos != i) by {
                        if pos == i {
                            assert(m.at(i) == k2);
                        }
                    }
                    assert(pos != n - 1 && pos != n - 2) by {
                        if pos == n - 1 {
                            assert(m.at(n - 1) == k2);
                        }
                        if pos == n - 2 {
                            assert(m.at(n - 2) == k2);
                        }
                    }
                    assert(fl <= pos < n - 2);
                    assert(pos > i - 1);
                    assert(!on_path(p, pos)) by {
                        if on_path(p, pos) {
                            lemma_on_path_le(p, pos);
                        }
                    }
                    assert(t2[pos] == t1[pos] && t1[pos] == t0[pos]);
                }
            }
            assert forall|j: int| fl2 <= j < r.total implies r.index.contains_key(
                #[trigger] r.at(j),
            ) && r.index[r.at(j)] == j by {
                assert(!on_path(p, j)) by {
                    if on_path(p, j) {
                        lemma_on_path_le(p, j);
                    }
                }
                assert(t2[j] == t1[j]);
                if j == i {
                    assert(r.at(j) == far_a);
                } else if j == i - 1 {
                    assert(r.at(j) == far_b);
                } else {
                    assert(j > i);
                    assert(t1[j] == t0[j] && t0[j] == m.tree[j]);
                    assert(r.at(j) == m.at(j));
                    assert(m.index.contains_key(m.at(j)) && m.index[m.at(j)] == j);
                    assert(r.at(j) != far_a && r.at(j) != far_b && r.at(j) != k) by {
                        if r.at(j) == far_a {
                            assert(m.index[far_a] == j);
                        }
                        if r.at(j) == far_b {
                            assert(m.index[far_b] == j);
                        }
                        if r.at(j) == k {
                            assert(m.index[k] == j);
                        }
                    }
                }
            }
            assert(r.wf());
            assert(r.index.dom() =~= m.index.dom().remove(k));
        }
    }
}

proof fn lemma_delete_farthest_leaf(m: MerkleView, k: Seq<u8>)
    requires
        m.wf(),
        m.index.contains_key(k),
        m.index[k] > 0,
        !(m.leaves % 2 == 1 && m.index[k] == m.total - m.leaves),
        m.index[k] >= m.total - 2,
    ensures
        spec_delete(m, k).wf(),
        spec_delete(m, k).leaves == m.leaves - 1,
        spec_delete(m, k).total == m.total - 2,
        spec_delete(m, k).index.dom() =~= m.index.dom().remove(k),
        spec_delete(m, k).data =~= m.data.remove(k),
{
    let r = spec_delete(m, k);
    let i = m.index[k] as int;
    let n = m.total;
    let kk = m.leaves;
    let fl = m.first_leaf();
    lemma_delete_popped_pair(m, k);
    let p = parent_idx(i);
    let s = sibling_idx(i);
    let nb = m.at(s);
    let far_a = m.at(n - 1);
    let far_b = m.at(n - 2);
    let t0 = m.tree.take(n - 2);
    let fl2 = r.first_leaf();
    assert(r.total == n - 2 && r.leaves == kk - 1);
    assert(fl2 == fl - 1);
    assert(n - 2 == 2 * fl2 + 1);
    assert(t0.len() == n - 2);
    assert(forall|j: int| 0 <= j < n - 2 ==> t0[j] == m.tree[j]);
    let q = parent_idx(n - 1);
    {
        {
            // --- one of the two farthest leaves ---
            assert(s == n - 1 || s == n - 2);
            assert(s != i);
            assert(p == q);
            assert(p == fl2);
            assert(nb == far_a || nb == far_b);
            assert(nb != k);
            let t2 = propagate(t0, p, nb);
            assert(r.tree == t2);
            assert forall|j: int| 0 <= j < t0.len() implies t0[j] is Some by {
                assert(t0[j] == m.tree[j]);
                assert(m.filled(j));
            }
            assert(0 <= p < t0.len());
            lemma_propagate_nodes(t0, p, nb, fl2);
            assert forall|j: int| 0 <= j < fl2 implies node_ok_at(t2, j) by {
                if on_path(p, j) {
                    assert(j != p);
                    assert(node_ok_at(t2, j));
                } else {
                    assert(t2[j] == t0[j]);
                    assert(!on_path(p, 2 * j + 1) && !on_path(p, 2 * j + 2)) by {
                        if on_path(p, 2 * j + 1) {
                            lemma_on_path_parent(p, 2 * j + 1);
                        }
                        if on_path(p, 2 * j + 2) {
                            lemma_on_path_parent(p, 2 * j + 2);
                        }
                    }
                    assert(t2[2 * j + 1] == t0[2 * j + 1] && t2[2 * j + 2] == t0[2 * j + 2]);
                    assert(j < fl && m.node_ok(j));
                    assert(2 * j + 2 < n - 2);
                    assert(node_ok_at(t2, j));
                }
            }
            assert forall|k2: Seq<u8>| #[trigger] r.index.contains_key(k2) implies fl2
                <= r.index[k2] < r.total && r.tree[r.index[k2] as int] == Some(k2) by {
                if k2 == nb {
                    assert(r.index[k2] == p);
                    assert(t2[p] == Some(nb));
                } else {
                    assert(m.index.contains_key(k2) && k2 != k);
                    let pos = m.index[k2] as int;
                    assert(pos != n - 1 && pos != n - 2) by {
                        if pos == n - 1 {
                            assert(m.at(n - 1) == k2);
                        }
                        if pos == n - 2 {
                            assert(m.at(n - 2) == k2);
                        }
                    }
                    assert(fl <= pos < n - 2);
                    assert(!on_path(p, pos)) by {
                        if on_path(p, pos) {
                            lemma_on_path_le(p, pos);
                        }
                    }
                    assert(t2[pos] == t0[pos]);
                }
            }
            assert forall|j: int| fl2 <= j < r.total implies r.index.contains_key(
                #[trigger] r.at(j),
            ) && r.index[r.at(j)] == j by {
                if j == p {
                    assert(t2[p] == Some(nb));
                    assert(r.at(j) == nb);
                } else {
                    assert(j > p);
                    assert(!on_path(p, j)) by {
                        if on_path(p, j) {
                            lemma_on_path_le(p, j);
                        }
                    }
                    assert(t2[j] == t0[j] && t0[j] == m.tree[j]);
                    assert(r.at(j) == m.at(j));
                    assert(m.index.contains_key(m.at(j)) && m.index[m.at(j)] == j);
                    assert(r.at(j) != nb && r.at(j) != k) by {
                        if r.at(j) == nb {
                            assert(m.index[nb] == j);
                            assert(m.index[nb] == n - 1 || m.index[nb] == n - 2);
                        }
                        if r.at(j) == k {
                            assert(m.index[k] == j);
                        }
                    }
                }
            }
            assert(r.wf());
            assert(r.index.dom() =~= m.index.dom().remove(k));
        }
    }
}

#[verifier::rlimit(60)]
proof fn lemma_delete_general_leaf(m: MerkleView, k: Seq<u8>)
    requires
        m.wf(),
        m.index.contains_key(k),
        m.index[k] > 0,
        !(m.leaves % 2 == 1 && m.index[k] == m.total - m.leaves),
        m.index[k] < m.total - 2,
    ensures
        spec_delete(m, k).wf(),
        spec_delete(m, k).leaves == m.leaves - 1,
        spec_delete(m, k).total == m.total - 2,
        spec_delete(m, k).index.dom() =~= m.index.dom().remove(k),
        spec_delete(m, k).data =~= m.data.remove(k),
{
    let r = spec_delete(m, k);
    let i = m.index[k] as int;
    let n = m.total;
    let kk = m.leaves;
    let fl = m.first_leaf();
    lemma_delete_popped_pair(m, k);
    let p = parent_idx(i);
    let s = sibling_idx(i);
    let nb = m.at(s);
    let far_a = m.at(n - 1);
    let far_b = m.at(n - 2);
    let t0 = m.tree.take(n - 2);
    let fl2 = r.first_leaf();
    assert(r.total == n - 2 && r.leaves == kk - 1);
    assert(fl2 == fl - 1);
    assert(n - 2 == 2 * fl2 + 1);
    assert(t0.len() == n - 2);
    assert(forall|j: int| 0 <= j < n - 2 ==> t0[j] == m.tree[j]);
    let q = parent_idx(n - 1);
    {
        {
            // --- general case ---
            assert(fl <= i < n - 2);
            assert(fl <= s < n) by {
                if i % 2 == 1 {
                    assert(s == i + 1);
                } else {
                    assert(s >= fl) by {
                        if s < fl {
                            assert(s == i - 1 && i == fl);
                            assert(fl % 2 == 0);
                            assert(kk % 2 == 1);
                        }
                    }
                }
            }
            assert(m.index.contains_key(nb) && m.index[nb] == s) by {
                assert(m.at(s) == nb);
            }
            assert(s != i && s != n - 1 && s != n - 2) by {
                if s == n - 1 {
                    assert(i == n - 2 || i == n);
                }
                if s == n - 2 {
                    assert(i == n - 1 || i == n - 3);
                    if i == n - 3 {
                        assert((n - 3) % 2 == 0);
                        assert(s == i - 1);
                    }
                }
            }
            assert(s <= n - 3);
            assert({2 * p + 1 == i && 2 * p + 2 == s} || {2 * p + 1 == s && 2 * p + 2 == i});
            assert(fl <= 2 * p + 1 && 2 * p + 2 <= n - 3);
            assert(p <= fl2 - 1) by {
                assert(2 * p + 1 >= fl);
            }
            assert(p < q) by {
                assert(q == fl - 1);
                assert(2 * p + 2 <= n - 3);
            }
            assert(k != far_a && k != far_b && nb != far_a && nb != far_b && k != nb);
            let fpk = m.at(q);
            assert(fpk == hash_pair_of(far_a, far_b));
            let t1 = t0.update(2 * p + 2, Some(far_a)).update(2 * p + 1, Some(far_b)).update(
                p,
                Some(fpk),
            );
            let t2 = propagate(t1, q, nb);
            let t3 = propagate(t2, p, fpk);
            assert(r.tree == t3);
            assert(t1.len() == n - 2);
            assert forall|j: int| 0 <= j < t1.len() implies t1[j] is Some by {
                if j != 2 * p + 1 && j != 2 * p + 2 && j != p {
                    assert(t1[j] == m.tree[j]);
                    assert(m.filled(j));
                }
            }
            assert(0 <= q < t1.len());
            lemma_propagate_nodes(t1, q, nb, fl2);
            assert(t2.len() == n - 2);
            assert(forall|j: int| 0 <= j < t2.len() ==> t2[j] is Some);
            lemma_propagate_nodes(t2, p, fpk, fl2);
            // the pair slots and q keep their values through the propagations
            assert(!on_path(q, 2 * p + 1) && !on_path(q, 2 * p + 2)) by {
                if on_path(q, 2 * p + 1) {
                    lemma_on_path_le(q, 2 * p + 1);
                }
                if on_path(q, 2 * p + 2) {
                    lemma_on_path_le(q, 2 * p + 2);
                }
            }
            assert(!on_path(p, 2 * p + 1) && !on_path(p, 2 * p + 2)) by {
                if on_path(p, 2 * p + 1) {
                    lemma_on_path_le(p, 2 * p + 1);
                }
                if on_path(p, 2 * p + 2) {
                    lemma_on_path_le(p, 2 * p + 2);
                }
            }
            assert(!on_path(p, q)) by {
                if on_path(p, q) {
                    lemma_on_path_le(p, q);
                }
            }
            assert(t3[2 * p + 1] == Some(far_b) && t3[2 * p + 2] == Some(far_a));
            assert(t3[q] == Some(nb));
            assert(t3[p] == Some(fpk));
            assert forall|j: int| 0 <= j < fl2 implies node_ok_at(t3, j) by {
                if j == p {
                    assert(node_ok_at(t3, p));
                } else if on_path(p, j) {
                    assert(node_ok_at(t3, j));
                } else {
                    // off the second path: value and children from t2
                    assert(t3[j] == t2[j]);
                    assert(!on_path(p, 2 * j + 1) && !on_path(p, 2 * j + 2)) by {
                        if on_path(p, 2 * j + 1) {
                            lemma_on_path_parent(p, 2 * j + 1);
                        }
                        if on_path(p, 2 * j + 2) {
                            lemma_on_path_parent(p, 2 * j + 2);
                        }
                    }
                    assert(t3[2 * j + 1] == t2[2 * j + 1] && t3[2 * j + 2] == t2[2 * j + 2]);
                    if on_path(q, j) {
                        assert(j != q);
                        assert(node_ok_at(t2, j));
                        assert(node_ok_at(t3, j));
                    } else {
                        assert(t2[j] == t1[j]);
                        assert(!on_path(q, 2 * j + 1) && !on_path(q, 2 * j + 2)) by {
                            if on_path(q, 2 * j + 1) {
                                lemma_on_path_parent(q, 2 * j + 1);
                            }
                            if on_path(q, 2 * j + 2) {
                                lemma_on_path_parent(q, 2 * j + 2);
                            }
                        }
                        assert(t2[2 * j + 1] == t1[2 * j + 1] && t2[2 * j + 2] == t1[2 * j + 2]);
                        assert(2 * j + 1 != p && 2 * j + 2 != p) by {
                            if 2 * j + 1 == p || 2 * j + 2 == p {
                                assert(j == parent_idx(p));
                                assert(on_path(p, p));
                                lemma_on_path_parent(p, p);
                            }
                        }
                        assert(j != p && j != q);
                        assert(2 * j + 2 < n - 2);
                        assert(2 * j + 1 != 2 * p + 1 && 2 * j + 1 != 2 * p + 2 && 2 * j + 2 != 2
                            * p + 1 && 2 * j + 2 != 2 * p + 2);
                        assert(t1[j] == t0[j] && t1[2 * j + 1] == t0[2 * j + 1] && t1[2 * j + 2]
                            == t0[2 * j + 2]);
                        assert(j < fl && m.node_ok(j));
                        assert(node_ok_at(t3, j));
                    }
                }
            }
            assert forall|k2: Seq<u8>| #[trigger] r.index.contains_key(k2) implies fl2
                <= r.index[k2] < r.total && r.tree[r.index[k2] as int] == Some(k2) by {
                if k2 == nb {
                    assert(r.index[k2] == q);
                } else if k2 == far_b {
                    assert(r.index[k2] == 2 * p + 1);
                } else if k2 == far_a {
                    assert(r.index[k2] == 2 * p + 2);
                } else {
                    assert(m.index.contains_key(k2) && k2 != k);
                    let pos = m.index[k2] as int;
                    assert(pos != n - 1 && pos != n - 2 && pos != i && pos != s) by {
                        if pos == n - 1 {
                            assert(m.at(n - 1) == k2);
                        }
                        if pos == n - 2 {
                            assert(m.at(n - 2) == k2);
                        }
                        if pos == i {
                            assert(m.at(i) == k2);
                        }
                        if pos == s {
                            assert(m.at(s) == k2);
                        }
                    }
                    assert(fl <= pos < n - 2);
                    assert(pos != 2 * p + 1 && pos != 2 * p + 2);
                    assert(!on_path(p, pos) && !on_path(q, pos)) by {
                        if on_path(p, pos) {
                            lemma_on_path_le(p, pos);
                        }
                        if on_path(q, pos) {
                            lemma_on_path_le(q, pos);
                        }
                    }
                    assert(t3[pos] == t2[pos] && t2[pos] == t1[pos] && t1[pos] == t0[pos]);
                }
            }
            assert forall|j: int| fl2 <= j < r.total implies r.index.contains_key(
                #[trigger] r.at(j),
            ) && r.index[r.at(j)] == j by {
                if j == q {
                    assert(r.at(j) == nb);
                } else if j == 2 * p + 1 {
                    assert(r.at(j) == far_b);
                    assert(far_b != nb);
                } else if j == 2 * p + 2 {
                    assert(r.at(j) == far_a);
                    assert(far_a != nb && far_a != far_b);
                } else {
                    assert(j > q && j != p);
                    assert(!on_path(p, j) && !on_path(q, j)) by {
                        if on_path(p, j) {
                            lemma_on_path_le(p, j);
                        }
                        if on_path(q, j) {
                            lemma_on_path_le(q, j);
                        }
                    }
                    assert(t3[j] == t2[j] && t2[j] == t1[j] && t1[j] == t0[j]);
                    assert(r.at(j) == m.at(j));
                    assert(m.index.contains_key(m.at(j)) && m.index[m.at(j)] == j);
                    assert(r.at(j) != far_a && r.at(j) != far_b && r.at(j) != nb && r.at(j) != k)
                        by {
                        if r.at(j) == far_a {
                            assert(m.index[far_a] == j);
                        }
                        if r.at(j) == far_b {
                            assert(m.index[far_b] == j);
                        }
                        if r.at(j) == nb {
                            assert(m.index[nb] == j);
                        }
                        if r.at(j) == k {
                            assert(m.index[k] == j);
                        }
                    }
                }
            }
            assert(r.wf());
            assert(r.index.dom() =~= m.index.dom().remove(k));
        }
    }
}

/// Every sibling slot on the way from `i` to the root is known, so the
/// node values above `i` can be recomputed.
pub open spec fn prop_ready(t: Seq<Option<Seq<u8>>>, i: int) -> bool
    decreases i,
{
    i <= 0 || (t[sibling_idx(i)] is Some && prop_ready(t, parent_idx(i)))
}

/// `prop_ready` reads only the slots up to `i + 1`.
pub proof fn lemma_prop_ready_frame(t1: Seq<Option<Seq<u8>>>, t2: Seq<Option<Seq<u8>>>, i: int)
    requires
        prop_ready(t1, i),
        forall|j: int| 0 <= j < i + 2 ==> t1[j] == t2[j],
    ensures
        prop_ready(t2, i),
    decreases i,
{
    if i > 0 {
        let s = sibling_idx(i);
        assert(0 <= s < i + 2);
        lemma_prop_ready_frame(t1, t2, parent_idx(i));
    }
}

/// A fully known tree is ready to propagate from any slot whose sibling is
/// in range.
pub proof fn lemma_prop_ready_filled(t: Seq<Option<Seq<u8>>>, i: int)
    requires
        forall|j: int| 0 <= j < t.len() ==> t[j] is Some,
        0 <= i,
        i > 0 ==> i + 1 < t.len(),
    ensures
        prop_ready(t, i),
    decreases i,
{
    if i > 0 {
        let s = sibling_idx(i);
        assert(0 <= s < t.len());
        assert(parent_idx(i) > 0 ==> parent_idx(i) + 1 < t.len());
        lemma_prop_ready_filled(t, parent_idx(i));
    }
}

/// The child position a proof step descends to: a `Left` step was recorded
/// at an odd (left-child) position, a `Right` step at an even one.
pub open spec fn step_child(parent: int, s: PathStep) -> int {
    match s {
        PathStep::Left(_) => 2 * parent + 1,
        PathStep::Right(_) => 2 * parent + 2,
    }
}

/// The position a proof leads to, walking from the root down: the last
/// step of the path is the topmost.
pub open spec fn path_target(ps: Seq<PathStep>) -> int
    decreases ps.len(),
{
    if ps.len() == 0 {
        0
    } else {
        step_child(path_target(ps.drop_first()), ps[0])
    }
}

/// The proof's walk stays inside the tree: every position it descends
/// from has both children in range.
pub open spec fn path_fits(m: MerkleView, ps: Seq<PathStep>) -> bool
    decreases ps.len(),
{
    if ps.len() == 0 {
        m.total > 0
    } else {
        path_fits(m, ps.drop_first()) && 2 * path_target(ps.drop_first()) + 2 < m.total
    }
}

pub proof fn lemma_path_target_range(m: MerkleView, ps: Seq<PathStep>)
    requires
        path_fits(m, ps),
    ensures
        0 <= path_target(ps) < m.total,
    decreases ps.len(),
{
    if ps.len() > 0 {
        lemma_path_target_range(m, ps.drop_first());
    }
}

/// Every sibling slot the proof names that is already known holds exactly
/// the digest the proof carries.
pub open spec fn sibs_agree(m: MerkleView, ps: Seq<PathStep>) -> bool
    decreases ps.len(),
{
    ps.len() == 0 || {
        &&& sibs_agree(m, ps.drop_first())
        &&& (m.filled(sibling_idx(path_target(ps))) ==> m.at(sibling_idx(path_target(ps)))
            == ps[0].digest())
    }
}

/// Fill every sibling slot the proof names that is still unknown with the
/// digest the proof carries.
pub open spec fn fill_sibs(t: Seq<Option<Seq<u8>>>, ps: Seq<PathStep>) -> Seq<Option<Seq<u8>>>
    decreases ps.len(),
{
    if ps.len() == 0 {
        t
    } else {
        let t1 = fill_sibs(t, ps.drop_first());
        let s = sibling_idx(path_target(ps));
        if t1[s] is Some {
            t1
        } else {
            t1.update(s, Some(ps[0].digest()))
        }
    }
}

/// Filling sibling slots keeps the length and never touches a slot that is
/// already known.
pub proof fn lemma_fill_sibs_frame(m: MerkleView, ps: Seq<PathStep>)
    requires
        path_fits(m, ps),
        m.tree.len() == m.total,
    ensures
        fill_sibs(m.tree, ps).len() == m.tree.len(),
        forall|j: int|
            0 <= j < m.tree.len() && m.tree[j] is Some ==> fill_sibs(m.tree, ps)[j] == m.tree[j],
    decreases ps.len(),
{
    if ps.len() > 0 {
        lemma_fill_sibs_frame(m, ps.drop_first());
        lemma_path_target_range(m, ps.drop_first());
        let parent = path_target(ps.drop_first());
        let target = path_target(ps);
        let s = sibling_idx(target);
        assert(target == step_child(parent, ps[0]));
        assert(s == 2 * parent + 1 || s == 2 * parent + 2);
        assert(0 <= s < m.tree.len());
    }
}

/// The conditions under which a verified fragment can be absorbed: its
/// walk fits the tree, it ends on a leaf slot, and every digest it carries
/// agrees with what is already known.
pub open spec fn insert_fits(m: MerkleView, ps: Seq<PathStep>) -> bool {
    path_fits(m, ps) && path_target(ps) >= m.first_leaf()
}

pub open spec fn insert_agrees(m: MerkleView, k: Seq<u8>, ps: Seq<PathStep>) -> bool {
    sibs_agree(m, ps) && (m.filled(path_target(ps)) ==> m.at(path_target(ps)) == k)
}

/// The state after absorbing a verified fragment: the named sibling slots
/// and the leaf slot are filled in, the leaf is indexed, and its payload
/// stored.  The shape of the tree does not change.
pub open spec fn spec_insert(
    m: MerkleView,
    k: Seq<u8>,
    payload: Seq<u8>,
    ps: Seq<PathStep>,
) -> MerkleView {
    MerkleView {
        total: m.total,
        leaves: m.leaves,
        tree: fill_sibs(m.tree, ps).update(path_target(ps), Some(k)),
        index: m.index.insert(k, path_target(ps) as usize),
        data: m.data.insert(k, payload),
    }
}

/// Absorbing a fragment preserves the structural invariant.
pub proof fn lemma_spec_insert_inv(m: MerkleView, k: Seq<u8>, payload: Seq<u8>, ps: Seq<PathStep>)
    requires
        m.inv(),
        m.total <= usize::MAX,
        insert_fits(m, ps),
        insert_agrees(m, k, ps),
        hash_of(payload) == k,
    ensures
        spec_insert(m, k, payload, ps).inv(),
{
    let r = spec_insert(m, k, payload, ps);
    let target = path_target(ps);
    lemma_path_target_range(m, ps);
    lemma_fill_sibs_frame(m, ps);
    assert(r.tree.len() == m.total);
    assert(r.tree[target] == Some(k));
    assert(r.total > 0 ==> r.filled(0)) by {
        if target != 0 {
            assert(m.filled(0));
            assert(fill_sibs(m.tree, ps)[0] == m.tree[0]);
        }
    }
    assert forall|k2: Seq<u8>| #[trigger] r.index.contains_key(k2) implies r.first_leaf()
        <= r.index[k2] < r.total && r.tree[r.index[k2] as int] == Some(k2) by {
        if k2 == k {
            assert(r.index[k2] == target);
        } else {
            assert(m.index.contains_key(k2));
            let pos = m.index[k2] as int;
            assert(m.tree[pos] == Some(k2));
            assert(fill_sibs(m.tree, ps)[pos] == m.tree[pos]);
            assert(pos != target) by {
                if pos == target {
                    assert(m.filled(target));
                    assert(m.at(target) == k2);
                }
            }
        }
    }
}

/// A proof that fits the tree fits at every level of its walk.
pub proof fn lemma_fits_suffix(m: MerkleView, ps: Seq<PathStep>, j: int)
    requires
        path_fits(m, ps),
        0 <= j <= ps.len(),
    ensures
        path_fits(m, ps.skip(j)),
    decreases j,
{
    if j == 0 {
        assert(ps.skip(0) =~= ps);
    } else {
        lemma_fits_suffix(m, ps, j - 1);
        assert(ps.skip(j - 1).drop_first() =~= ps.skip(j));
        assert(ps.skip(j - 1).len() > 0);
    }
}

/// A proof that agrees with the tree agrees at every level of its walk.
pub proof fn lemma_agree_suffix(m: MerkleView, ps: Seq<PathStep>, j: int)
    requires
        sibs_agree(m, ps),
        0 <= j <= ps.len(),
    ensures
        sibs_agree(m, ps.skip(j)),
    decreases j,
{
    if j == 0 {
        assert(ps.skip(0) =~= ps);
    } else {
        lemma_agree_suffix(m, ps, j - 1);
        assert(ps.skip(j - 1).drop_first() =~= ps.skip(j));
        assert(ps.skip(j - 1).len() > 0);
    }
}

/// The digest of the leaf at ordinal `i`, counted from the most recently
/// appended leaf.
pub open spec fn bundle_key(m: MerkleView, i: int) -> Seq<u8> {
    m.at(m.total - 1 - i)
}

/// The source holds everything needed to hand out a bundle for ordinal
/// `i`: the leaf slot, its index entry, every sibling on the way up, and
/// the payload.
pub open spec fn has_bundle(m: MerkleView, i: int) -> bool {
    &&& 0 <= i < m.leaves
    &&& m.filled(m.total - 1 - i)
    &&& m.index.contains_key(bundle_key(m, i))
    &&& m.path_ready(m.index[bundle_key(m, i)] as int)
    &&& m.data.contains_key(bundle_key(m, i))
}

/// The proof a source hands out for ordinal `i`.
pub open spec fn bundle_path(m: MerkleView, i: int) -> Seq<PathStep> {
    m.path_from(m.index[bundle_key(m, i)] as int)
}

/// A transfer of ordinal `i` succeeds exactly when the source holds the
/// bundle, the proof folds to the target's root, and it fits and agrees
/// with what the target already knows.
pub open spec fn transfer_ok(s: MerkleView, t: MerkleView, i: int) -> bool {
    &&& has_bundle(s, i)
    &&& t.total > 0
    &&& fold_path(hash_of(s.data[bundle_key(s, i)]), bundle_path(s, i)) == t.root_digest()
    &&& insert_fits(t, bundle_path(s, i))
    &&& insert_agrees(t, hash_of(s.data[bundle_key(s, i)]), bundle_path(s, i))
}

/// The digests of the payloads, first occurrence of each, in input order.
pub open spec fn dedup_keys(ps: Seq<Seq<u8>>) -> Seq<Seq<u8>>
    decreases ps.len(),
{
    if ps.len() == 0 {
        Seq::empty()
    } else {
        let rest = dedup_keys(ps.drop_last());
        if rest.contains(hash_of(ps.last())) {
            rest
        } else {
            rest.push(hash_of(ps.last()))
        }
    }
}

/// Each distinct digest mapped to the first payload that produced it.
pub open spec fn dedup_data(ps: Seq<Seq<u8>>) -> Map<Seq<u8>, Seq<u8>>
    decreases ps.len(),
{
    if ps.len() == 0 {
        Map::empty()
    } else {
        let rest = dedup_data(ps.drop_last());
        if rest.contains_key(hash_of(ps.last())) {
            rest
        } else {
            rest.insert(hash_of(ps.last()), ps.last())
        }
    }
}

pub proof fn lemma_dedup_props(ps: Seq<Seq<u8>>)
    ensures
        forall|a: int, b: int|
            0 <= a < b < dedup_keys(ps).len() ==> dedup_keys(ps)[a] != dedup_keys(ps)[b],
        forall|k: Seq<u8>| dedup_data(ps).contains_key(k) <==> dedup_keys(ps).contains(k),
        forall|k: Seq<u8>| #[trigger]
            dedup_data(ps).contains_key(k) ==> hash_of(dedup_data(ps)[k]) == k,
    decreases ps.len(),
{
    if ps.len() > 0 {
        lemma_dedup_props(ps.drop_last());
        let rest = dedup_keys(ps.drop_last());
        let h = hash_of(ps.last());
        if !rest.contains(h) {
            assert(dedup_keys(ps) == rest.push(h));
            assert forall|a: int, b: int|
                0 <= a < b < dedup_keys(ps).len() implies dedup_keys(ps)[a] != dedup_keys(
                ps,
            )[b] by {
                if b == rest.len() {
                    assert(rest[a] == dedup_keys(ps)[a]);
                    assert(rest.contains(rest[a]));
                }
            }
            assert forall|k: Seq<u8>|
                dedup_data(ps).contains_key(k) <==> dedup_keys(ps).contains(k) by {
                if k == h {
                    assert(dedup_keys(ps)[rest.len() as int] == h);
                } else {
                    if dedup_keys(ps).contains(k) {
                        let a = choose|a: int| 0 <= a < dedup_keys(ps).len() && dedup_keys(ps)[a] == k;
                        assert(a < rest.len());
                        assert(rest[a] == k);
                    }
                    if rest.contains(k) {
                        let a = choose|a: int| 0 <= a < rest.len() && rest[a] == k;
                        assert(dedup_keys(ps)[a] == k);
                    }
                }
            }
        }
    }
}

} // verus!
