//! The packed Merkle tree: store, proof engine and replica reconciliation.
//!
//! The tree is one contiguous array of digest slots.  The root sits at
//! index 0, the children of index `i` at `2*i + 1` and `2*i + 2`, and the
//! current leaves always occupy the trailing `leaves` positions.  A slot of
//! a reserved replica may still be unknown (`None`) until a verified
//! fragment fills it in.

use vstd::prelude::*;
use vstd::string::StrSliceExecFns;
use vstd::string::StringSliceAdditionalSpecFns;

use crate::hash::hash;
use crate::hash::hash_of;
use crate::hash::hash_pair_of;
use crate::hash::hash_two;
use crate::hash::Key;
use crate::keymap::clone_bytes;
use crate::keymap::keys_equal;
use crate::keymap::DataMap;
use crate::keymap::PosMap;
use crate::model::fold_path;
use crate::model::lemma_prop_ready_filled;
use crate::model::lemma_prop_ready_frame;
use crate::model::node_ok_at;
use crate::model::parent_idx;
use crate::model::propagate;
use crate::model::prop_ready;
use crate::model::sibling_idx;
use crate::model::tree_at;
use crate::model::MerkleView;
use crate::model::PathStep;

verus! {

/// A payload: the byte sequence a leaf stands for.
pub type Data = Vec<u8>;

/// One step of an inclusion proof, as carried between replicas.
#[derive(Clone, Debug)]
pub enum PathNode {
    Left(Key),
    Right(Key),
}

impl View for PathNode {
    type V = PathStep;

    open spec fn view(&self) -> PathStep {
        match self {
            PathNode::Left(d) => PathStep::Left(d@),
            PathNode::Right(d) => PathStep::Right(d@),
        }
    }
}

impl DeepView for PathNode {
    type V = PathStep;

    open spec fn deep_view(&self) -> PathStep {
        self.view()
    }
}

/// Everything a recipient needs to verify and absorb a single leaf: its
/// inclusion proof and its payload.
pub struct DataBundle {
    pub path: Vec<PathNode>,
    pub data: Data,
}

/// Why a fragment was not absorbed.  A proof that does not fold to the
/// local root, or does not fit the local shape, is an ordinary rejection; a
/// verified proof that contradicts a digest already known locally means a
/// hash collision or a faulty peer and is reported apart.
#[derive(Clone, Copy, Debug, PartialEq, Eq)]
pub enum InsertError {
    ProofMismatch,
    Inconsistent,
}

/// The slot sequence a tree vector abstracts to, read off slot by slot.
proof fn lemma_dv_index(v: Vec<Option<Vec<u8>>>)
    ensures
        v.deep_view().len() == v@.len(),
        forall|j: int| 0 <= j < v@.len() ==> v.deep_view()[j] == v@[j].deep_view(),
{
    assert forall|j: int| 0 <= j < v@.len() implies v.deep_view()[j] == v@[j].deep_view() by {
        assert(v.deep_view()[j] == v@[j].deep_view());
    }
}

/// Writing one slot of the vector updates one slot of the abstraction.
proof fn lemma_dv_update(
    v1: Vec<Option<Vec<u8>>>,
    v2: Vec<Option<Vec<u8>>>,
    i: int,
    x: Option<Vec<u8>>,
)
    requires
        0 <= i < v1@.len(),
        v2@ == v1@.update(i, x),
    ensures
        v2.deep_view() == v1.deep_view().update(i, x.deep_view()),
{
    lemma_dv_index(v1);
    lemma_dv_index(v2);
    assert(v2.deep_view() =~= v1.deep_view().update(i, x.deep_view()));
}

/// Appending a slot to the vector appends one slot to the abstraction.
proof fn lemma_dv_push(v1: Vec<Option<Vec<u8>>>, v2: Vec<Option<Vec<u8>>>, x: Option<Vec<u8>>)
    requires
        v2@ == v1@.push(x),
    ensures
        v2.deep_view() == v1.deep_view().push(x.deep_view()),
{
    lemma_dv_index(v1);
    lemma_dv_index(v2);
    assert(v2.deep_view() =~= v1.deep_view().push(x.deep_view()));
}

/// The step sequence a proof vector abstracts to, read off step by step.
proof fn lemma_path_dv_index(v: Vec<PathNode>)
    ensures
        v.deep_view().len() == v@.len(),
        forall|j: int| 0 <= j < v@.len() ==> v.deep_view()[j] == v@[j].deep_view(),
{
    assert forall|j: int| 0 <= j < v@.len() implies v.deep_view()[j] == v@[j].deep_view() by {
        assert(v.deep_view()[j] == v@[j].deep_view());
    }
}

/// Appending a step to a proof vector appends it to the abstraction.
proof fn lemma_path_dv_push(v1: Vec<PathNode>, v2: Vec<PathNode>, x: PathNode)
    requires
        v2@ == v1@.push(x),
    ensures
        v2.deep_view() == v1.deep_view().push(x@),
{
    lemma_path_dv_index(v1);
    lemma_path_dv_index(v2);
    assert(v2.deep_view() =~= v1.deep_view().push(x@));
}

/// The payload sequence a payload vector abstracts to.
proof fn lemma_bytes_dv_index(v: Vec<Vec<u8>>)
    ensures
        v.deep_view().len() == v@.len(),
        forall|j: int| 0 <= j < v@.len() ==> v.deep_view()[j] == v@[j]@,
{
    assert forall|j: int| 0 <= j < v@.len() implies v.deep_view()[j] == v@[j]@ by {
        assert(v.deep_view()[j] == v@[j].deep_view());
        assert(v@[j].deep_view() =~= v@[j]@);
    }
}

/// Appending a payload appends its byte sequence to the abstraction.
proof fn lemma_bytes_dv_push(v1: Vec<Vec<u8>>, v2: Vec<Vec<u8>>, x: Vec<u8>)
    requires
        v2@ == v1@.push(x),
    ensures
        v2.deep_view() == v1.deep_view().push(x@),
{
    lemma_bytes_dv_index(v1);
    lemma_bytes_dv_index(v2);
    assert(v2.deep_view() =~= v1.deep_view().push(x@));
}

/// The dynamic, array-packed Merkle tree.
pub struct Merkle {
    pub total: usize,
    pub leaves: usize,
    pub tree: Vec<Option<Key>>,
    pub data: DataMap,
    index: PosMap,
}

impl View for Merkle {
    type V = MerkleView;

    closed spec fn view(&self) -> MerkleView {
        MerkleView {
            total: self.total as int,
            leaves: self.leaves as int,
            tree: self.tree.deep_view(),
            index: self.index@,
            data: self.data@,
        }
    }
}

impl Merkle {
    /// The structural invariant of any tree value, reserved replicas
    /// included.
    pub closed spec fn inv(self) -> bool {
        &&& self@.inv()
        &&& self.index.wf()
        &&& self.data.wf()
    }

    /// The invariant of a fully known tree.
    pub closed spec fn wf(self) -> bool {
        &&& self@.wf()
        &&& self.index.wf()
        &&& self.data.wf()
    }

    /// A fully known tree satisfies the model's full invariant — so the
    /// laws stated over the model apply to it — and in particular the
    /// structural invariant every operation asks for.
    pub proof fn lemma_wf_model(&self)
        requires
            self.wf(),
        ensures
            self@.wf(),
            self.inv(),
    {
    }

    /// Any tree value satisfies the model's structural invariant.
    pub proof fn lemma_inv_model(&self)
        requires
            self.inv(),
        ensures
            self@.inv(),
    {
    }

    /// An empty tree.
    pub fn new() -> (r: Merkle)
        ensures
            r.wf(),
            r@.total == 0,
            r@.leaves == 0,
            r@.tree == Seq::<Option<Seq<u8>>>::empty(),
            r@.index == Map::<Seq<u8>, usize>::empty(),
            r@.data == Map::<Seq<u8>, Seq<u8>>::empty(),
    {
        let r = Merkle {
            total: 0,
            leaves: 0,
            tree: Vec::new(),
            data: DataMap::new(),
            index: PosMap::new(),
        };
        proof {
            assert(r@.tree =~= Seq::<Option<Seq<u8>>>::empty());
        }
        r
    }

    /// The root digest.
    pub fn root(&self) -> (r: &Vec<u8>)
        requires
            self.inv(),
            self@.total > 0,
        ensures
            r@ == self@.root_digest(),
    {
        self.tree[0].as_ref().unwrap()
    }

    /// The digest of the `i`-th leaf, counted from the most recently
    /// appended one, if that slot is known.
    pub fn ith_leaf(&self, i: usize) -> (r: Option<Key>)
        requires
            self.inv(),
        ensures
            match r {
                Some(k) => i < self@.leaves && self@.filled(self@.total - 1 - i) && k@ == self@.at(
                    self@.total - 1 - i,
                ),
                None => i >= self@.leaves || !self@.filled(self@.total - 1 - i),
            },
    {
        if i < self.leaves {
            match self.tree[self.total - i - 1].as_ref() {
                Some(k) => Some(clone_bytes(k)),
                None => None,
            }
        } else {
            None
        }
    }

    /// Folds the proof from the target digest up and reports whether it
    /// reproduces the current root.
    pub fn verify_path(&self, target: &Key, path: &Vec<PathNode>) -> (r: bool)
        requires
            self.inv(),
        ensures
            r == (self@.total > 0 && fold_path(target@, path.deep_view()) == self@.root_digest()),
    {
        if self.total == 0 {
            return false;
        }
        let ghost steps = path.deep_view();
        let mut acc = clone_bytes(target);
        let mut j: usize = 0;
        proof {
            assert(steps.skip(0) =~= steps);
        }
        while j < path.len()
            invariant
                j <= path@.len(),
                steps == path.deep_view(),
                steps.len() == path@.len(),
                fold_path(target@, steps) == fold_path(acc@, steps.skip(j as int)),
            decreases path@.len() - j,
        {
            proof {
                assert(steps.skip(j as int).len() > 0);
                assert(steps.skip(j as int)[0] == steps[j as int]);
                assert(steps.skip(j as int).drop_first() =~= steps.skip(j + 1));
            }
            let next = match &path[j] {
                PathNode::Left(d) => hash_two(d, &acc),
                PathNode::Right(d) => hash_two(&acc, d),
            };
            acc = next;
            j = j + 1;
        }
        proof {
            assert(steps.skip(path@.len() as int) =~= Seq::<PathStep>::empty());
            lemma_dv_index(self.tree);
            assert(self@.filled(0));
        }
        let root = self.tree[0].as_ref().unwrap();
        proof {
            assert(root@ == self@.root_digest());
        }
        keys_equal(&acc, root)
    }

    /// Recomputes every internal slot from its children and reports
    /// whether all of them match what is stored.
    pub fn verify_tree(&self) -> (r: bool)
        requires
            self.inv(),
        ensures
            r == self@.consistent(),
            self@.wf() ==> r,
    {
        if self.total < 1 {
            return true;
        }
        let fl = self.total - self.leaves;
        let mut i: usize = 0;
        while i < fl
            invariant
                self.inv(),
                self@.total > 0,
                fl == self@.first_leaf(),
                i <= fl,
                forall|j: int| 0 <= j < i ==> self@.node_ok(j),
            decreases fl - i,
        {
            assert(2 * i + 2 < self.total);
            proof {
                lemma_dv_index(self.tree);
            }
            let ok = match (&self.tree[i], &self.tree[2 * i + 1], &self.tree[2 * i + 2]) {
                (Some(v), Some(l), Some(r)) => {
                    proof {
                        assert(self@.tree[i as int] == Some(v@));
                        assert(self@.tree[2 * i + 1] == Some(l@));
                        assert(self@.tree[2 * i + 2] == Some(r@));
                    }
                    let h = hash_two(r, l);
                    keys_equal(v, &h)
                },
                _ => false,
            };
            if !ok {
                assert(!self@.node_ok(i as int));
                return false;
            }
            assert(self@.node_ok(i as int));
            i = i + 1;
        }
        true
    }

    /// Writes `initial` into slot `from` and recomputes every slot above
    /// it, each from its two children: the one routine through which any
    /// changed leaf reaches the root.
    fn update_parents(&mut self, from: usize, initial: Key)
        requires
            (from as int) < old(self).tree@.len(),
            old(self).tree@.len() % 2 == 1,
            prop_ready(old(self).tree.deep_view(), from as int),
        ensures
            final(self).tree.deep_view() == propagate(
                old(self).tree.deep_view(),
                from as int,
                initial@,
            ),
            final(self).tree@.len() == old(self).tree@.len(),
            final(self).total == old(self).total,
            final(self).leaves == old(self).leaves,
            final(self).index == old(self).index,
            final(self).data == old(self).data,
    {
        let ghost orig = old(self).tree.deep_view();
        let ghost len = old(self).tree@.len() as int;
        let ln = self.tree.len();
        let mut i = from;
        let mut key = initial;
        while i > 0
            invariant
                (i as int) < len,
                self.tree@.len() == len,
                ln as int == len,
                len % 2 == 1,
                prop_ready(self.tree.deep_view(), i as int),
                propagate(orig, from as int, initial@) == propagate(
                    self.tree.deep_view(),
                    i as int,
                    key@,
                ),
                self.total == old(self).total,
                self.leaves == old(self).leaves,
                self.index == old(self).index,
                self.data == old(self).data,
            decreases i,
        {
            let ghost cur = self.tree.deep_view();
            let ghost curv = self.tree;
            let ghost ii = i as int;
            proof {
                lemma_dv_index(self.tree);
                if ii % 2 == 1 {
                    assert(ii < len - 1) by {
                        assert(len % 2 == 1);
                    }
                }
            }
            let sib = if i % 2 == 0 {
                i - 1
            } else {
                i + 1
            };
            proof {
                assert(sib as int == sibling_idx(ii));
                assert((sib as int) < len);
                assert(cur[sib as int] is Some);
            }
            let written = clone_bytes(&key);
            self.tree[i] = Some(written);
            proof {
                lemma_dv_update(curv, self.tree, ii, self.tree@[ii]);
                assert(self.tree@[ii] == Some(written));
                assert(self.tree@[ii].deep_view() == Some(written@));
                assert(self.tree.deep_view() == cur.update(ii, Some(key@)));
                lemma_dv_index(self.tree);
            }
            let sib_val = clone_bytes(self.tree[sib].as_ref().unwrap());
            let next = if i % 2 == 1 {
                hash_two(&sib_val, &key)
            } else {
                hash_two(&key, &sib_val)
            };
            proof {
                let upd = cur.update(ii, Some(key@));
                assert(tree_at(upd, sibling_idx(ii)) == sib_val@);
                assert(next@ == if ii % 2 == 1 {
                    hash_pair_of(tree_at(upd, ii + 1), key@)
                } else {
                    hash_pair_of(key@, tree_at(upd, ii - 1))
                });
                assert(propagate(cur, ii, key@) == propagate(upd, parent_idx(ii), next@));
                // readiness carries over to the parent
                if parent_idx(ii) > 0 {
                    assert(prop_ready(cur, parent_idx(ii)));
                    assert forall|j: int| 0 <= j < parent_idx(ii) + 2 implies cur[j] == upd[j] by {
                        assert(j < ii);
                    }
                    lemma_prop_ready_frame(cur, upd, parent_idx(ii));
                }
            }
            key = next;
            i = (i - 1) / 2;
        }
        let ghost cur = self.tree.deep_view();
        let ghost curv = self.tree;
        let written = clone_bytes(&key);
        self.tree[0] = Some(written);
        proof {
            lemma_dv_update(curv, self.tree, 0, self.tree@[0]);
            assert(self.tree@[0] == Some(written));
            assert(self.tree@[0].deep_view() == Some(written@));
            assert(self.tree.deep_view() == cur.update(0, Some(key@)));
            assert(propagate(cur, 0, key@) == cur.update(0, Some(key@)));
        }
    }

    /// The inclusion proof for the leaf with the given digest: `None` if
    /// the digest is not present, or if some sibling slot on the way up is
    /// not yet known.  On a fully known tree the proof always exists.
    pub fn path(&self, key: &Vec<u8>) -> (r: Option<Vec<PathNode>>)
        requires
            self.inv(),
        ensures
            match r {
                Some(p) => self@.index.contains_key(key@) && self@.path_ready(
                    self@.index[key@] as int,
                ) && p.deep_view() == self@.path_from(self@.index[key@] as int),
                None => !self@.index.contains_key(key@) || !self@.path_ready(
                    self@.index[key@] as int,
                ),
            },
            self@.wf() && self@.index.contains_key(key@) ==> r is Some,
    {
        proof {
            if self@.wf() && self@.index.contains_key(key@) {
                crate::model::lemma_wf_path_ready(self@, self@.index[key@] as int);
            }
        }
        match self.index.get(key) {
            None => None,
            Some(pos) => {
                let ghost m = self@;
                let mut result: Vec<PathNode> = Vec::new();
                let mut i = pos;
                proof {
                    assert(result.deep_view() =~= Seq::<PathStep>::empty());
                    assert(result.deep_view() + m.path_from(pos as int) =~= m.path_from(
                        pos as int,
                    ));
                }
                while i > 0
                    invariant
                        self.inv(),
                        m == self@,
                        (i as int) < m.total,
                        m.index.contains_key(key@),
                        m.index[key@] == pos,
                        result.deep_view() + m.path_from(i as int) == m.path_from(pos as int),
                        m.path_ready(pos as int) <==> m.path_ready(i as int),
                    decreases i,
                {
                    let ghost ii = i as int;
                    proof {
                        lemma_dv_index(self.tree);
                        if ii % 2 == 1 {
                            assert(ii < m.total - 1) by {
                                assert(m.total == 2 * m.leaves - 1);
                            }
                        }
                    }
                    let sib = if i % 2 == 0 {
                        i - 1
                    } else {
                        i + 1
                    };
                    proof {
                        assert(sib as int == sibling_idx(ii));
                        assert((sib as int) < m.total);
                    }
                    let node = match self.tree[sib].as_ref() {
                        Some(d) => {
                            proof {
                                assert(self.tree@[sib as int] == Some(*d));
                                assert(m.tree[sib as int] == Some(d@));
                                assert(m.at(sib as int) == d@);
                            }
                            if i % 2 == 0 {
                                PathNode::Right(clone_bytes(d))
                            } else {
                                PathNode::Left(clone_bytes(d))
                            }
                        },
                        None => {
                            proof {
                                assert(self.tree@[sib as int] is None);
                                assert(m.tree[sib as int] is None);
                                assert(!m.filled(sib as int));
                                assert(!m.path_ready(ii));
                                assert(!m.path_ready(pos as int));
                                assert(self@.index.contains_key(key@));
                                assert(self@.index[key@] == pos);
                                assert(!self@.path_ready(self@.index[key@] as int));
                            }
                            return None;
                        },
                    };
                    proof {
                        assert(node@ == m.sibling_step(ii));
                    }
                    let ghost prev = result;
                    result.push(node);
                    proof {
                        lemma_path_dv_push(prev, result, node);
                        assert(m.path_from(ii) == seq![m.sibling_step(ii)] + m.path_from(
                            parent_idx(ii),
                        ));
                        assert(result.deep_view() + m.path_from(parent_idx(ii)) =~= prev.deep_view()
                            + m.path_from(ii));
                        assert(m.path_ready(ii) <==> m.path_ready(parent_idx(ii)));
                    }
                    i = (i - 1) / 2;
                }
                proof {
                    assert(m.path_from(0) =~= Seq::<PathStep>::empty());
                    assert(result.deep_view() + m.path_from(0) =~= result.deep_view());
                    assert(m.path_ready(0));
                }
                Some(result)
            },
        }
    }

    /// The inclusion proof for the leaf whose digest is the raw bytes of
    /// the given text.
    pub fn path_str(&self, key: &str) -> (r: Option<Vec<PathNode>>)
        requires
            self.inv(),
        ensures
            match r {
                Some(p) => self@.index.contains_key(key.spec_bytes()) && self@.path_ready(
                    self@.index[key.spec_bytes()] as int,
                ) && p.deep_view() == self@.path_from(self@.index[key.spec_bytes()] as int),
                None => !self@.index.contains_key(key.spec_bytes()) || !self@.path_ready(
                    self@.index[key.spec_bytes()] as int,
                ),
            },
            self@.wf() && self@.index.contains_key(key.spec_bytes()) ==> r is Some,
    {
        let bytes = key.as_bytes_vec();
        self.path(&bytes)
    }

    /// Appends one leaf for the payload, unless a leaf with the same digest
    /// is already present; in that case nothing changes.
    pub fn push(&mut self, bytes: &Vec<u8>) -> (r: bool)
        requires
            old(self).wf(),
            old(self)@.total + 2 <= usize::MAX,
        ensures
            final(self).wf(),
            r == !old(self)@.index.contains_key(hash_of(bytes@)),
            !r ==> final(self)@ == old(self)@,
            r ==> final(self)@ == crate::model::spec_push(old(self)@, hash_of(bytes@), bytes@),
    {
        let key = hash(bytes);
        let lim = self.total;
        let ghost m = old(self)@;
        match self.index.get(&key) {
            Some(_) => false,
            None => {
                proof {
                    crate::model::lemma_spec_push_wf(m, key@, bytes@);
                }
                self.data.insert(clone_bytes(&key), clone_bytes(bytes));
                if self.total == 0 {
                    let ghost prev = self.tree;
                    let written = clone_bytes(&key);
                    self.tree.push(Some(written));
                    proof {
                        lemma_dv_push(prev, self.tree, self.tree@[self.tree@.len() - 1]);
                        assert(self.tree@[self.tree@.len() - 1] == Some(written));
                        assert(self.tree@[self.tree@.len() - 1].deep_view() == Some(written@));
                        assert(prev.deep_view() == m.tree);
                        assert(m.tree.len() == 0);
                        assert(prev.deep_view() =~= Seq::<Option<Seq<u8>>>::empty());
                        assert(self.tree.deep_view() =~= seq![Some(key@)]);
                    }
                    self.index.insert(key, 0);
                    self.total = 1;
                    self.leaves = 1;
                    proof {
                        assert(self@ =~= crate::model::spec_push(m, hash_of(bytes@), bytes@));
                    }
                } else {
                    let p = (lim - 1) / 2;
                    proof {
                        lemma_dv_index(self.tree);
                        assert(p as int == parent_idx(lim as int));
                        assert(m.filled(p as int));
                    }
                    let old_key = clone_bytes(self.tree[p].as_ref().unwrap());
                    proof {
                        assert(old_key@ == m.at(p as int));
                    }
                    let ghost prev1 = self.tree;
                    let moved = clone_bytes(&old_key);
                    self.tree.push(Some(moved));
                    proof {
                        lemma_dv_push(prev1, self.tree, self.tree@[self.tree@.len() - 1]);
                        assert(self.tree@[self.tree@.len() - 1] == Some(moved));
                        assert(self.tree@[self.tree@.len() - 1].deep_view() == Some(moved@));
                        assert(prev1.deep_view() == m.tree);
                        assert(self.tree.deep_view() == m.tree.push(Some(old_key@)));
                    }
                    let ghost prev2 = self.tree;
                    let written = clone_bytes(&key);
                    self.tree.push(Some(written));
                    proof {
                        lemma_dv_push(prev2, self.tree, self.tree@[self.tree@.len() - 1]);
                        assert(self.tree@[self.tree@.len() - 1] == Some(written));
                        assert(self.tree@[self.tree@.len() - 1].deep_view() == Some(written@));
                        assert(prev2.deep_view() == m.tree.push(Some(old_key@)));
                        assert(self.tree.deep_view() =~= m.tree + seq![
                            Some(old_key@),
                            Some(key@),
                        ]);
                    }
                    self.index.insert(clone_bytes(&old_key), lim);
                    self.index.insert(clone_bytes(&key), lim + 1);
                    let new_node = hash_two(&key, &old_key);
                    let ghost t1 = self.tree.deep_view();
                    proof {
                        assert(t1.len() == lim + 2);
                        assert(lim as int % 2 == 1) by {
                            assert(m.total == 2 * m.leaves - 1);
                        }
                        assert forall|j: int| 0 <= j < t1.len() implies t1[j] is Some by {
                            if j < lim {
                                assert(t1[j] == m.tree[j]);
                                assert(m.filled(j));
                            }
                        }
                        assert(p + 1 < self.tree@.len());
                        lemma_prop_ready_filled(t1, p as int);
                    }
                    self.update_parents(p, new_node);
                    self.total = self.total + 2;
                    self.leaves = self.leaves + 1;
                    proof {
                        assert(self@ =~= crate::model::spec_push(m, hash_of(bytes@), bytes@));
                    }
                }
                true
            },
        }
    }

    /// Appends one leaf for the raw bytes of the given text.
    pub fn push_str(&mut self, text: &str) -> (r: bool)
        requires
            old(self).wf(),
            old(self)@.total + 2 <= usize::MAX,
        ensures
            final(self).wf(),
            r == !old(self)@.index.contains_key(hash_of(text.spec_bytes())),
            !r ==> final(self)@ == old(self)@,
            r ==> final(self)@ == crate::model::spec_push(
                old(self)@,
                hash_of(text.spec_bytes()),
                text.spec_bytes(),
            ),
    {
        let bytes = text.as_bytes_vec();
        self.push(&bytes)
    }


    /// Removes the leaf with the given digest, if present, repairing the
    /// packed shape with the two leaves at the tail of the array.
    pub fn delete(&mut self, key: &Vec<u8>) -> (r: bool)
        requires
            old(self).wf(),
        ensures
            final(self).wf(),
            r == old(self)@.index.contains_key(key@),
            !r ==> final(self)@ == old(self)@,
            r ==> final(self)@ == crate::model::spec_delete(old(self)@, key@),
    {
        let n = self.total;
        let ghost m = old(self)@;
        match self.index.get(key) {
            None => false,
            Some(i) => {
                proof {
                    crate::model::lemma_spec_delete_wf(m, key@);
                    assert(m.first_leaf() <= i as int && (i as int) < m.total);
                }
                if i == 0 {
                    proof {
                        assert(m.total == 1 && m.leaves == 1);
                        lemma_dv_index(self.tree);
                    }
                    self.total = 0;
                    self.leaves = 0;
                    self.tree.pop();
                    self.index.remove(key);
                    self.data.remove(key);
                    proof {
                        lemma_dv_index(self.tree);
                        assert(self.tree.deep_view() =~= Seq::<Option<Seq<u8>>>::empty());
                        assert(self@ =~= crate::model::spec_delete(m, key@));
                    }
                } else if self.leaves % 2 == 1 && i == n - self.leaves {
                    self.delete_unpaired(key, i);
                } else if i >= n - 2 {
                    self.delete_farthest(key, i);
                } else {
                    self.delete_general(key, i);
                }
                true
            },
        }
    }

    /// Deletion of the single unpaired leftmost leaf: its sibling is an
    /// internal subtree, whose root digest is exactly the node hash of the
    /// popped pair, so the pair drops into the two freed slots.
    fn delete_unpaired(&mut self, key: &Vec<u8>, i: usize)
        requires
            old(self).wf(),
            old(self)@.index.contains_key(key@),
            old(self)@.index[key@] == i,
            i > 0,
            old(self)@.leaves % 2 == 1,
            i as int == old(self)@.total - old(self)@.leaves,
        ensures
            final(self)@ == crate::model::spec_delete(old(self)@, key@),
            final(self).index.wf(),
            final(self).data.wf(),
    {
        let n = self.total;
        let ghost m = old(self)@;
        let ghost ii = i as int;
        proof {
            assert(m.tree[ii] == Some(key@));
            assert(m.leaves >= 2 && n == 2 * m.leaves - 1 && n >= 3);
            lemma_dv_index(self.tree);
            if ii % 2 == 1 {
                assert(ii < n - 1) by {
                    assert(m.total == 2 * m.leaves - 1);
                }
            }
        }
        let p = (i - 1) / 2;
        let s = if i % 2 == 0 {
            i - 1
        } else {
            i + 1
        };
        proof {
            assert(s as int == sibling_idx(ii));
            assert((s as int) < n);
            assert(m.filled(s as int));
            assert(m.filled(n - 1) && m.filled(n - 2));
        }
        let nb = clone_bytes(self.tree[s].as_ref().unwrap());
        let far_a = match self.tree.pop() {
            Some(Some(v)) => v,
            _ => {
                proof {
                    assert(false);
                }
                clone_bytes(key)
            },
        };
        let far_b = match self.tree.pop() {
            Some(Some(v)) => v,
            _ => {
                proof {
                    assert(false);
                }
                clone_bytes(key)
            },
        };
        proof {
            assert(self.tree@ =~= old(self).tree@.take(n - 2));
            lemma_dv_index(old(self).tree);
            lemma_dv_index(self.tree);
            assert(self.tree.deep_view() =~= m.tree.take(n - 2));
            assert(nb@ == m.at(sibling_idx(ii)));
            assert(far_a@ == m.at(n - 1));
            assert(far_b@ == m.at(n - 2));
        }
        let ghost t0 = self.tree.deep_view();
        proof {
            assert(m.leaves >= 3);
            assert(ii == m.first_leaf());
            assert(ii % 2 == 0 && ii == 2 * (p as int) + 2);
            assert(ii <= n - 3) by {
                assert(m.leaves - 1 <= 2 * m.leaves - 4);
            }
        }
        let ghost v1 = self.tree;
        let wa = clone_bytes(&far_a);
        self.tree[i] = Some(wa);
        proof {
            lemma_dv_update(v1, self.tree, ii, self.tree@[ii]);
            assert(self.tree@[ii] == Some(wa));
            assert(self.tree@[ii].deep_view() == Some(far_a@));
        }
        let ghost v2 = self.tree;
        let wb = clone_bytes(&far_b);
        self.tree[i - 1] = Some(wb);
        proof {
            lemma_dv_update(v2, self.tree, ii - 1, self.tree@[ii - 1]);
            assert(self.tree@[ii - 1] == Some(wb));
            assert(self.tree@[ii - 1].deep_view() == Some(far_b@));
            assert(self.tree.deep_view() == t0.update(ii, Some(far_a@)).update(
                ii - 1,
                Some(far_b@),
            ));
        }
        self.index.insert(far_a, i);
        self.index.insert(far_b, i - 1);
        proof {
            let t1 = t0.update(ii, Some(far_a@)).update(ii - 1, Some(far_b@));
            assert(t1.len() == n - 2);
            assert((n - 2) % 2 == 1) by {
                assert(m.total == 2 * m.leaves - 1);
            }
            assert forall|j: int| 0 <= j < t1.len() implies t1[j] is Some by {
                if j != ii && j != ii - 1 {
                    assert(t1[j] == m.tree[j]);
                    assert(m.filled(j));
                }
            }
            assert((p as int) + 1 < n - 2);
            lemma_prop_ready_filled(t1, p as int);
        }
        self.update_parents(p, nb);
        self.leaves = self.leaves - 1;
        self.total = self.total - 2;
        self.index.remove(key);
        self.data.remove(key);
        proof {
            assert(self@ =~= crate::model::spec_delete(m, key@));
        }
    }

    /// Deletion of one of the two farthest leaves: the popped pair is the
    /// leaf itself and its sibling, which moves up into the parent slot.
    fn delete_farthest(&mut self, key: &Vec<u8>, i: usize)
        requires
            old(self).wf(),
            old(self)@.index.contains_key(key@),
            old(self)@.index[key@] == i,
            i > 0,
            !(old(self)@.leaves % 2 == 1 && i as int == old(self)@.total - old(self)@.leaves),
            i as int >= old(self)@.total - 2,
        ensures
            final(self)@ == crate::model::spec_delete(old(self)@, key@),
            final(self).index.wf(),
            final(self).data.wf(),
    {
        let n = self.total;
        let ghost m = old(self)@;
        let ghost ii = i as int;
        proof {
            assert(m.tree[ii] == Some(key@));
            assert(m.leaves >= 2 && n == 2 * m.leaves - 1 && n >= 3);
            lemma_dv_index(self.tree);
            if ii % 2 == 1 {
                assert(ii < n - 1) by {
                    assert(m.total == 2 * m.leaves - 1);
                }
            }
        }
        let p = (i - 1) / 2;
        let s = if i % 2 == 0 {
            i - 1
        } else {
            i + 1
        };
        proof {
            assert(s as int == sibling_idx(ii));
            assert((s as int) < n);
            assert(m.filled(s as int));
            assert(m.filled(n - 1) && m.filled(n - 2));
        }
        let nb = clone_bytes(self.tree[s].as_ref().unwrap());
        let far_a = match self.tree.pop() {
            Some(Some(v)) => v,
            _ => {
                proof {
                    assert(false);
                }
                clone_bytes(key)
            },
        };
        let far_b = match self.tree.pop() {
            Some(Some(v)) => v,
            _ => {
                proof {
                    assert(false);
                }
                clone_bytes(key)
            },
        };
        proof {
            assert(self.tree@ =~= old(self).tree@.take(n - 2));
            lemma_dv_index(old(self).tree);
            lemma_dv_index(self.tree);
            assert(self.tree.deep_view() =~= m.tree.take(n - 2));
            assert(nb@ == m.at(sibling_idx(ii)));
            assert(far_a@ == m.at(n - 1));
            assert(far_b@ == m.at(n - 2));
        }
        let ghost t0 = self.tree.deep_view();
        proof {
            assert((p as int) == parent_idx(ii));
            assert((n - 2) % 2 == 1) by {
                assert(m.total == 2 * m.leaves - 1);
            }
            assert forall|j: int| 0 <= j < t0.len() implies t0[j] is Some by {
                assert(t0[j] == m.tree[j]);
                assert(m.filled(j));
            }
            assert((p as int) < n - 2) by {
                assert(m.leaves >= 2);
            }
            if p > 0 {
                assert((p as int) + 1 < n - 2) by {
                    assert(m.total == 2 * m.leaves - 1);
                }
            }
            lemma_prop_ready_filled(t0, p as int);
        }
        self.index.insert(clone_bytes(&nb), p);
        self.update_parents(p, nb);
        self.leaves = self.leaves - 1;
        self.total = self.total - 2;
        self.index.remove(key);
        self.data.remove(key);
        proof {
            assert(self@ =~= crate::model::spec_delete(m, key@));
        }
    }

    /// Deletion in the general case: the surviving sibling moves to the
    /// slot of the popped pair's parent, whose digest in turn moves to the
    /// deleted pair's parent; the popped pair refills the deleted pair.
    #[verifier::rlimit(60)]
    fn delete_general(&mut self, key: &Vec<u8>, i: usize)
        requires
            old(self).wf(),
            old(self)@.index.contains_key(key@),
            old(self)@.index[key@] == i,
            i > 0,
            !(old(self)@.leaves % 2 == 1 && i as int == old(self)@.total - old(self)@.leaves),
            (i as int) < old(self)@.total - 2,
        ensures
            final(self)@ == crate::model::spec_delete(old(self)@, key@),
            final(self).index.wf(),
            final(self).data.wf(),
    {
        let n = self.total;
        let ghost m = old(self)@;
        let ghost ii = i as int;
        proof {
            assert(m.tree[ii] == Some(key@));
            assert(m.leaves >= 2 && n == 2 * m.leaves - 1 && n >= 3);
            lemma_dv_index(self.tree);
            if ii % 2 == 1 {
                assert(ii < n - 1) by {
                    assert(m.total == 2 * m.leaves - 1);
                }
            }
        }
        let p = (i - 1) / 2;
        let s = if i % 2 == 0 {
            i - 1
        } else {
            i + 1
        };
        proof {
            assert(s as int == sibling_idx(ii));
            assert((s as int) < n);
            assert(m.filled(s as int));
            assert(m.filled(n - 1) && m.filled(n - 2));
        }
        let nb = clone_bytes(self.tree[s].as_ref().unwrap());
        let far_a = match self.tree.pop() {
            Some(Some(v)) => v,
            _ => {
                proof {
                    assert(false);
                }
                clone_bytes(key)
            },
        };
        let far_b = match self.tree.pop() {
            Some(Some(v)) => v,
            _ => {
                proof {
                    assert(false);
                }
                clone_bytes(key)
            },
        };
        proof {
            assert(self.tree@ =~= old(self).tree@.take(n - 2));
            lemma_dv_index(old(self).tree);
            lemma_dv_index(self.tree);
            assert(self.tree.deep_view() =~= m.tree.take(n - 2));
            assert(nb@ == m.at(sibling_idx(ii)));
            assert(far_a@ == m.at(n - 1));
            assert(far_b@ == m.at(n - 2));
        }
        let ghost t0 = self.tree.deep_view();
        let q = (n - 2) / 2;
        proof {
            assert(q as int == parent_idx(n - 1));
            assert(q as int == m.first_leaf() - 1);
            assert(m.first_leaf() <= s as int && (s as int) < n) by {
                if ii % 2 == 0 && (s as int) < m.first_leaf() {
                    assert(s as int == ii - 1 && ii == m.first_leaf());
                    assert(m.first_leaf() % 2 == 0);
                    assert(m.leaves % 2 == 1);
                }
            }
            assert(s as int != n - 1 && s as int != n - 2) by {
                if s as int == n - 1 {
                    assert(ii == n - 2 || ii == n);
                }
                if s as int == n - 2 {
                    assert(ii == n - 1 || ii == n - 3);
                    if ii == n - 3 {
                        assert((n - 3) % 2 == 0) by {
                            assert(m.total == 2 * m.leaves - 1);
                        }
                        assert(s as int == ii - 1);
                    }
                }
            }
            assert((s as int) <= n - 3);
            assert({2 * (p as int) + 1 == ii && 2 * (p as int) + 2 == s as int} || {
                2 * (p as int) + 1 == s as int && 2 * (p as int) + 2 == ii
            });
            assert(m.first_leaf() <= 2 * (p as int) + 1 && 2 * (p as int) + 2 <= n - 3);
            assert((p as int) < q as int) by {
                assert(2 * (p as int) + 2 <= n - 3);
            }
            assert(m.filled(q as int));
        }
        let ghost v1 = self.tree;
        let wa = clone_bytes(&far_a);
        self.tree[p * 2 + 2] = Some(wa);
        proof {
            lemma_dv_update(v1, self.tree, 2 * (p as int) + 2, self.tree@[2 * (p as int) + 2]);
            assert(self.tree@[2 * (p as int) + 2] == Some(wa));
            assert(self.tree@[2 * (p as int) + 2].deep_view() == Some(far_a@));
        }
        let ghost v2 = self.tree;
        let wb = clone_bytes(&far_b);
        self.tree[p * 2 + 1] = Some(wb);
        proof {
            lemma_dv_update(v2, self.tree, 2 * (p as int) + 1, self.tree@[2 * (p as int) + 1]);
            assert(self.tree@[2 * (p as int) + 1] == Some(wb));
            assert(self.tree@[2 * (p as int) + 1].deep_view() == Some(far_b@));
        }
        self.index.insert(far_a, p * 2 + 2);
        self.index.insert(far_b, p * 2 + 1);
        proof {
            lemma_dv_index(self.tree);
            assert(self.tree@[q as int].deep_view() == m.tree[q as int]);
        }
        let fpk = clone_bytes(self.tree[q].as_ref().unwrap());
        proof {
            assert(fpk@ == m.at(q as int));
        }
        let ghost v3 = self.tree;
        let wp = clone_bytes(&fpk);
        self.tree[p] = Some(wp);
        proof {
            lemma_dv_update(v3, self.tree, p as int, self.tree@[p as int]);
            assert(self.tree@[p as int] == Some(wp));
            assert(self.tree@[p as int].deep_view() == Some(fpk@));
            assert(self.tree.deep_view() == t0.update(2 * (p as int) + 2, Some(far_a@)).update(
                2 * (p as int) + 1,
                Some(far_b@),
            ).update(p as int, Some(fpk@)));
        }
        self.index.insert(clone_bytes(&nb), q);
        let ghost t1 = self.tree.deep_view();
        proof {
            assert(t1.len() == n - 2);
            assert((n - 2) % 2 == 1) by {
                assert(m.total == 2 * m.leaves - 1);
            }
            assert forall|j: int| 0 <= j < t1.len() implies t1[j] is Some by {
                if j != 2 * (p as int) + 1 && j != 2 * (p as int) + 2 && j != (p as int) {
                    assert(t1[j] == m.tree[j]);
                    assert(m.filled(j));
                }
            }
            if q > 0 {
                assert((q as int) + 1 < n - 2) by {
                    assert(m.total == 2 * m.leaves - 1 && m.leaves >= 3) by {
                        assert(m.first_leaf() <= ii && ii < n - 2);
                    }
                }
            }
            lemma_prop_ready_filled(t1, q as int);
        }
        self.update_parents(q, nb);
        let ghost t2 = self.tree.deep_view();
        proof {
            crate::model::lemma_propagate_nodes(t1, q as int, nb@, q as int);
            assert(t2 == propagate(t1, q as int, nb@));
            assert(t2.len() == n - 2);
            assert(forall|j: int| 0 <= j < t2.len() ==> t2[j] is Some);
            if p > 0 {
                assert((p as int) + 1 < n - 2);
            }
            lemma_prop_ready_filled(t2, p as int);
        }
        self.update_parents(p, fpk);
        self.leaves = self.leaves - 1;
        self.total = self.total - 2;
        self.index.remove(key);
        self.data.remove(key);
        proof {
            assert(self@ =~= crate::model::spec_delete(m, key@));
        }
    }

    /// Builds a tree from a batch of payloads.  Payloads whose digest has
    /// been seen earlier in the batch are dropped; the remaining digests
    /// fill the trailing leaf slots in input order, newest first at the
    /// very end, and every internal slot is computed bottom-up.
    pub fn from_leaves(payloads: &Vec<Vec<u8>>) -> (r: Merkle)
        requires
            2 * payloads@.len() <= usize::MAX,
        ensures
            r.wf(),
            r@.leaves == crate::model::dedup_keys(payloads.deep_view()).len(),
            r@.total == if r@.leaves == 0 {
                0int
            } else {
                2 * r@.leaves - 1
            },
            forall|j: int|
                0 <= j < r@.leaves ==> r@.at(r@.total - 1 - j) == crate::model::dedup_keys(
                    payloads.deep_view(),
                )[j],
            r@.data == crate::model::dedup_data(payloads.deep_view()),
    {
        let ghost ps = payloads.deep_view();
        proof {
            lemma_bytes_dv_index(*payloads);
        }
        let mut keys: Vec<Vec<u8>> = Vec::new();
        let mut data = DataMap::new();
        let mut idx: usize = 0;
        proof {
            assert(ps.take(0) =~= Seq::<Seq<u8>>::empty());
            assert(keys.deep_view() =~= Seq::<Seq<u8>>::empty());
            assert(keys.deep_view() == crate::model::dedup_keys(ps.take(0)));
            assert(data@ =~= crate::model::dedup_data(ps.take(0)));
        }
        while idx < payloads.len()
            invariant
                data.wf(),
                idx <= payloads@.len(),
                ps == payloads.deep_view(),
                ps.len() == payloads@.len(),
                2 * payloads@.len() <= usize::MAX,
                forall|j: int| 0 <= j < payloads@.len() ==> ps[j] == payloads@[j]@,
                keys.deep_view() == crate::model::dedup_keys(ps.take(idx as int)),
                data@ == crate::model::dedup_data(ps.take(idx as int)),
                keys@.len() <= idx,
            decreases payloads@.len() - idx,
        {
            let ghost prefix = ps.take(idx as int);
            proof {
                assert(ps.take(idx + 1).drop_last() =~= prefix);
                assert(ps.take(idx + 1).last() == ps[idx as int]);
                crate::model::lemma_dedup_props(prefix);
            }
            let k = hash(&payloads[idx]);
            proof {
                assert(k@ == hash_of(ps[idx as int]));
            }
            match data.get(&k) {
                Some(_) => {
                    proof {
                        assert(crate::model::dedup_keys(ps.take(idx + 1))
                            == crate::model::dedup_keys(prefix));
                        assert(crate::model::dedup_data(ps.take(idx + 1))
                            == crate::model::dedup_data(prefix));
                    }
                },
                None => {
                    data.insert(clone_bytes(&k), clone_bytes(&payloads[idx]));
                    let ghost prevk = keys;
                    keys.push(k);
                    proof {
                        lemma_bytes_dv_push(prevk, keys, keys@[keys@.len() - 1]);
                        assert(keys@[keys@.len() - 1]@ == hash_of(ps[idx as int]));
                        assert(!crate::model::dedup_keys(prefix).contains(hash_of(
                            ps[idx as int],
                        )));
                        assert(keys.deep_view() == crate::model::dedup_keys(ps.take(idx + 1)));
                        assert(data@ == crate::model::dedup_data(ps.take(idx + 1)));
                    }
                },
            }
            idx = idx + 1;
        }
        proof {
            assert(ps.take(payloads@.len() as int) =~= ps);
            crate::model::lemma_dedup_props(ps);
        }
        let ghost kdv = keys.deep_view();
        let kcount = keys.len();
        proof {
            lemma_bytes_dv_index(keys);
        }
        let total = if kcount == 0 {
            0
        } else {
            2 * kcount - 1
        };
        let mut tree: Vec<Option<Vec<u8>>> = Vec::new();
        let mut z: usize = 0;
        while z < total
            invariant
                z <= total,
                tree@.len() == z,
                forall|j: int| 0 <= j < z ==> tree@[j] is None,
            decreases total - z,
        {
            tree.push(None);
            z = z + 1;
        }
        let mut index = PosMap::new();
        let mut j: usize = 0;
        while j < kcount
            invariant
                index.wf(),
                j <= kcount,
                kcount == keys@.len(),
                kdv == keys.deep_view(),
                kdv.len() == kcount,
                forall|a: int| 0 <= a < kcount ==> kdv[a] == keys@[a]@,
                forall|a: int, b: int| 0 <= a < b < kcount ==> kdv[a] != kdv[b],
                total == if kcount == 0 {
                    0int
                } else {
                    2 * kcount - 1
                },
                tree@.len() == total,
                forall|w: int| total - j <= w < total ==> tree@[w].deep_view() == Some(
                    kdv[total - 1 - w],
                ),
                forall|w: int| 0 <= w < total - j ==> tree@[w] is None,
                forall|a: int|
                    0 <= a < j ==> index@.contains_key(#[trigger] kdv[a]) && index@[kdv[a]] == (
                    total - 1 - a) as usize,
                forall|k2: Seq<u8>| #[trigger]
                    index@.contains_key(k2) ==> exists|a: int| 0 <= a < j && kdv[a] == k2,
            decreases kcount - j,
        {
            let w = total - 1 - j;
            let ghost v1 = tree;
            let wk = clone_bytes(&keys[j]);
            tree[w] = Some(wk);
            proof {
                assert(tree@[w as int] == Some(wk));
                assert(tree@[w as int].deep_view() == Some(kdv[j as int]));
                assert(forall|a: int|
                    0 <= a < total && a != w as int ==> tree@[a] == v1@[a]);
            }
            index.insert(clone_bytes(&keys[j]), w);
            j = j + 1;
        }
        let fl = total - kcount;
        let mut w = fl;
        while w > 0
            invariant
                w <= fl,
                fl == total - kcount,
                total == if kcount == 0 {
                    0int
                } else {
                    2 * kcount - 1
                },
                tree@.len() == total,
                kdv.len() == kcount,
                forall|v: int| fl <= v < total ==> tree@[v].deep_view() == Some(
                    kdv[total - 1 - v],
                ),
                forall|v: int| (w as int) <= v < total ==> tree@[v] is Some,
                forall|v: int|
                    (w as int) <= v < fl ==> node_ok_at(tree.deep_view(), v),
            decreases w,
        {
            w = w - 1;
            proof {
                assert(2 * (w as int) + 2 < total);
                lemma_dv_index(tree);
            }
            let lv = clone_bytes(tree[2 * w + 1].as_ref().unwrap());
            let rv = clone_bytes(tree[2 * w + 2].as_ref().unwrap());
            let hv = hash_two(&rv, &lv);
            let ghost v1 = tree;
            let ghost hvg = hv@;
            tree[w] = Some(hv);
            proof {
                lemma_dv_update(v1, tree, w as int, tree@[w as int]);
                lemma_dv_index(v1);
                lemma_dv_index(tree);
                assert(v1@[2 * (w as int) + 2].deep_view() == Some(rv@));
                assert(v1@[2 * (w as int) + 1].deep_view() == Some(lv@));
                assert(tree_at(v1.deep_view(), 2 * (w as int) + 2) == rv@);
                assert(tree_at(v1.deep_view(), 2 * (w as int) + 1) == lv@);
                assert(tree@[w as int].deep_view() == Some(hvg));
                assert(tree@[w as int].deep_view() == Some(hash_pair_of(
                    tree_at(v1.deep_view(), 2 * (w as int) + 2),
                    tree_at(v1.deep_view(), 2 * (w as int) + 1),
                )));
                assert(node_ok_at(tree.deep_view(), w as int));
                assert forall|v: int| (w as int) < v < fl implies node_ok_at(
                    tree.deep_view(),
                    v,
                ) by {
                    assert(node_ok_at(v1.deep_view(), v));
                    assert(tree.deep_view()[v] == v1.deep_view()[v]);
                    assert(tree.deep_view()[2 * v + 1] == v1.deep_view()[2 * v + 1]);
                    assert(tree.deep_view()[2 * v + 2] == v1.deep_view()[2 * v + 2]);
                }
            }
        }
        let r = Merkle { total, leaves: kcount, tree, data, index };
        proof {
            lemma_dv_index(r.tree);
            let rv = r@;
            assert(rv.tree.len() == total);
            assert forall|v: int| 0 <= v < rv.total implies rv.filled(v) by {
                if v < fl {
                    assert(r.tree@[v] is Some);
                } else {
                    assert(r.tree@[v].deep_view() == Some(kdv[total - 1 - v]));
                }
            }
            assert forall|v: int| fl <= v < rv.total implies rv.at(v) == kdv[total - 1 - v] by {
                assert(r.tree@[v].deep_view() == Some(kdv[total - 1 - v]));
            }
            assert forall|v: int| 0 <= v < rv.first_leaf() implies rv.node_ok(v) by {
                assert(node_ok_at(r.tree.deep_view(), v));
            }
            assert forall|k2: Seq<u8>| #[trigger] rv.index.contains_key(k2) implies rv.first_leaf()
                <= rv.index[k2] < rv.total && rv.tree[rv.index[k2] as int] == Some(k2) by {
                let a = choose|a: int| 0 <= a < kcount && kdv[a] == k2;
                assert(rv.index[k2] == (total - 1 - a) as usize);
                assert(r.tree@[total - 1 - a].deep_view() == Some(kdv[a]));
            }
            assert forall|v: int| rv.first_leaf() <= v < rv.total implies rv.index.contains_key(
                #[trigger] rv.at(v),
            ) && rv.index[rv.at(v)] == v by {
                let a = total - 1 - v;
                assert(rv.at(v) == kdv[a]);
                assert(rv.index.contains_key(kdv[a]) && rv.index[kdv[a]] == (total - 1 - a) as usize);
            }
            assert forall|k2: Seq<u8>| #[trigger] rv.index.contains_key(k2) implies
                rv.data.contains_key(k2) by {
                let a = choose|a: int| 0 <= a < kcount && kdv[a] == k2;
                assert(crate::model::dedup_keys(ps).contains(k2));
                assert(rv.data.contains_key(k2));
            }
            assert forall|k2: Seq<u8>| #[trigger] rv.data.contains_key(k2) implies
                rv.index.contains_key(k2) by {
                assert(crate::model::dedup_keys(ps).contains(k2));
                let a = choose|a: int|
                    0 <= a < crate::model::dedup_keys(ps).len() && crate::model::dedup_keys(
                        ps,
                    )[a] == k2;
                assert(kdv[a] == k2);
                assert(rv.index.contains_key(kdv[a]));
            }
            assert(rv.data.dom() <= rv.index.dom()) by {
                assert forall|k2: Seq<u8>| rv.data.dom().contains(k2) implies rv.index.dom()
                    .contains(k2) by {
                    assert(rv.data.contains_key(k2));
                    assert(rv.index.contains_key(k2));
                }
            }
            assert(rv.wf());
        }
        r
    }

    /// A reserved replica: a structurally complete tree of `n` leaves that
    /// knows nothing but its root digest, awaiting fragments.
    pub fn reserve(root: &Vec<u8>, n: usize) -> (r: Merkle)
        requires
            n == 0 || 2 * (n as int) - 1 <= usize::MAX,
        ensures
            r.inv(),
            r@.total == if n == 0 {
                0int
            } else {
                2 * (n as int) - 1
            },
            r@.leaves == n,
            n > 0 ==> r@.tree[0] == Some(root@),
            forall|j: int| 1 <= j < r@.total ==> r@.tree[j] is None,
            r@.index == Map::<Seq<u8>, usize>::empty(),
            r@.data == Map::<Seq<u8>, Seq<u8>>::empty(),
    {
        let total = if n == 0 {
            0
        } else {
            n - 1 + n
        };
        let mut tree: Vec<Option<Vec<u8>>> = Vec::new();
        let mut z: usize = 0;
        while z < total
            invariant
                z <= total,
                tree@.len() == z,
                forall|j: int| 0 <= j < z ==> tree@[j] is None,
            decreases total - z,
        {
            tree.push(None);
            z = z + 1;
        }
        if total > 0 {
            let wr = clone_bytes(root);
            tree[0] = Some(wr);
        }
        let r = Merkle { total, leaves: n, tree, data: DataMap::new(), index: PosMap::new() };
        proof {
            lemma_dv_index(r.tree);
            assert(forall|k2: Seq<u8>| !(#[trigger] r@.index.contains_key(k2)));
            assert(forall|k2: Seq<u8>| !(#[trigger] r@.data.contains_key(k2)));
            if n > 0 {
                assert(r.tree@[0].deep_view() == Some(root@));
            }
            assert(r@.inv());
        }
        r
    }

    /// Walks the proof from the root down and returns the leaf slot it
    /// ends on, or `None` if the walk leaves the tree or ends on an
    /// internal slot.
    fn walk_target(&self, path: &Vec<PathNode>) -> (r: Option<usize>)
        requires
            self.inv(),
        ensures
            match r {
                Some(t) => crate::model::insert_fits(self@, path.deep_view()) && t as int
                    == crate::model::path_target(path.deep_view()),
                None => !crate::model::insert_fits(self@, path.deep_view()),
            },
    {
        let ghost ps = path.deep_view();
        proof {
            lemma_path_dv_index(*path);
            assert(ps.skip(path@.len() as int) =~= Seq::<PathStep>::empty());
        }
        if self.total == 0 {
            proof {
                if crate::model::path_fits(self@, ps) {
                    crate::model::lemma_fits_suffix(self@, ps, ps.len() as int);
                }
            }
            return None;
        }
        let mut t: usize = 0;
        let mut j: usize = path.len();
        while j > 0
            invariant
                self.inv(),
                self@.total > 0,
                ps == path.deep_view(),
                ps.len() == path@.len(),
                j <= path@.len(),
                forall|a: int| 0 <= a < path@.len() ==> ps[a] == path@[a]@,
                t as int == crate::model::path_target(ps.skip(j as int)),
                crate::model::path_fits(self@, ps.skip(j as int)),
                (t as int) < self@.total,
            decreases j,
        {
            proof {
                assert(ps.skip(j - 1).drop_first() =~= ps.skip(j as int));
                assert(ps.skip(j - 1)[0] == ps[j - 1]);
            }
            if t >= self.total - self.leaves {
                proof {
                    assert(2 * (t as int) + 2 >= self@.total) by {
                        assert(self@.total == 2 * self@.leaves - 1);
                    }
                    assert(!crate::model::path_fits(self@, ps.skip(j - 1)));
                    if crate::model::path_fits(self@, ps) {
                        crate::model::lemma_fits_suffix(self@, ps, j - 1);
                    }
                }
                return None;
            }
            proof {
                assert(2 * (t as int) + 2 < self@.total) by {
                    assert(self@.total == 2 * self@.leaves - 1);
                }
            }
            let node = &path[j - 1];
            t = match node {
                PathNode::Left(_) => 2 * t + 1,
                PathNode::Right(_) => 2 * t + 2,
            };
            proof {
                assert(node@ == ps[j - 1]);
                assert(t as int == crate::model::step_child(
                    crate::model::path_target(ps.skip(j as int)),
                    ps[j - 1],
                ));
                assert(t as int == crate::model::path_target(ps.skip(j - 1)));
                assert(crate::model::path_fits(self@, ps.skip(j - 1)));
            }
            j = j - 1;
        }
        proof {
            assert(ps.skip(0) =~= ps);
        }
        if t >= self.total - self.leaves {
            Some(t)
        } else {
            None
        }
    }

    /// Checks that every digest the proof carries agrees with the slots
    /// the tree already knows, the leaf digest included.
    fn check_agree(&self, path: &Vec<PathNode>, key: &Vec<u8>) -> (r: bool)
        requires
            self.inv(),
            crate::model::insert_fits(self@, path.deep_view()),
        ensures
            r == crate::model::insert_agrees(self@, key@, path.deep_view()),
    {
        let ghost ps = path.deep_view();
        proof {
            lemma_path_dv_index(*path);
            assert(ps.skip(path@.len() as int) =~= Seq::<PathStep>::empty());
            lemma_dv_index(self.tree);
        }
        let mut t: usize = 0;
        let mut j: usize = path.len();
        while j > 0
            invariant
                self.inv(),
                ps == path.deep_view(),
                ps.len() == path@.len(),
                j <= path@.len(),
                forall|a: int| 0 <= a < path@.len() ==> ps[a] == path@[a]@,
                crate::model::insert_fits(self@, ps),
                t as int == crate::model::path_target(ps.skip(j as int)),
                crate::model::sibs_agree(self@, ps.skip(j as int)),
            decreases j,
        {
            proof {
                assert(ps.skip(j - 1).drop_first() =~= ps.skip(j as int));
                assert(ps.skip(j - 1)[0] == ps[j - 1]);
                crate::model::lemma_fits_suffix(self@, ps, j - 1);
                crate::model::lemma_path_target_range(self@, ps.skip(j - 1));
                assert(2 * (t as int) + 2 < self@.total);
                lemma_dv_index(self.tree);
            }
            let node = &path[j - 1];
            let child = match node {
                PathNode::Left(_) => 2 * t + 1,
                PathNode::Right(_) => 2 * t + 2,
            };
            let sib = match node {
                PathNode::Left(_) => 2 * t + 2,
                PathNode::Right(_) => 2 * t + 1,
            };
            let d = match node {
                PathNode::Left(d) => d,
                PathNode::Right(d) => d,
            };
            proof {
                assert(node@ == ps[j - 1]);
                assert(child as int == crate::model::path_target(ps.skip(j - 1)));
                assert(sib as int == sibling_idx(crate::model::path_target(ps.skip(j - 1))));
                assert(d@ == ps[j - 1].digest());
            }
            match self.tree[sib].as_ref() {
                Some(v) => {
                    proof {
                        assert(self@.tree[sib as int] == Some(v@));
                    }
                    if !keys_equal(v, d) {
                        proof {
                            assert(!crate::model::sibs_agree(self@, ps.skip(j - 1)));
                            if crate::model::sibs_agree(self@, ps) {
                                crate::model::lemma_agree_suffix(self@, ps, j - 1);
                            }
                        }
                        return false;
                    }
                },
                None => {
                    proof {
                        assert(self@.tree[sib as int] is None);
                    }
                },
            }
            proof {
                assert(crate::model::sibs_agree(self@, ps.skip(j - 1)));
            }
            t = child;
            j = j - 1;
        }
        proof {
            assert(ps.skip(0) =~= ps);
            crate::model::lemma_path_target_range(self@, ps);
            lemma_dv_index(self.tree);
        }
        match self.tree[t].as_ref() {
            Some(v) => {
                proof {
                    assert(self@.tree[t as int] == Some(v@));
                }
                keys_equal(v, key)
            },
            None => {
                proof {
                    assert(!self@.filled(t as int));
                }
                true
            },
        }
    }

    /// Verifies a fragment against the current root and, on success, fills
    /// in the leaf slot, every still-unknown sibling slot the proof names,
    /// the index entry and the payload.  A proof that does not fold to the
    /// root or does not fit the shape is rejected; a verified proof that
    /// contradicts a digest already known is reported as an inconsistency,
    /// and nothing changes in either failure case.
    pub fn insert(&mut self, bytes: &Vec<u8>, path: &Vec<PathNode>) -> (r: Result<
        (),
        InsertError,
    >)
        requires
            old(self).inv(),
        ensures
            final(self).inv(),
            match r {
                Ok(()) => {
                    &&& old(self)@.total > 0
                    &&& fold_path(hash_of(bytes@), path.deep_view()) == old(self)@.root_digest()
                    &&& crate::model::insert_fits(old(self)@, path.deep_view())
                    &&& crate::model::insert_agrees(old(self)@, hash_of(bytes@), path.deep_view())
                    &&& final(self)@ == crate::model::spec_insert(
                        old(self)@,
                        hash_of(bytes@),
                        bytes@,
                        path.deep_view(),
                    )
                },
                Err(e) => final(self)@ == old(self)@ && match e {
                    InsertError::ProofMismatch => !(old(self)@.total > 0 && fold_path(
                        hash_of(bytes@),
                        path.deep_view(),
                    ) == old(self)@.root_digest() && crate::model::insert_fits(
                        old(self)@,
                        path.deep_view(),
                    )),
                    InsertError::Inconsistent => old(self)@.total > 0 && fold_path(
                        hash_of(bytes@),
                        path.deep_view(),
                    ) == old(self)@.root_digest() && crate::model::insert_fits(
                        old(self)@,
                        path.deep_view(),
                    ) && !crate::model::insert_agrees(
                        old(self)@,
                        hash_of(bytes@),
                        path.deep_view(),
                    ),
                },
            },
    {
        let ghost m = old(self)@;
        let ghost ps = path.deep_view();
        let key = hash(bytes);
        if !self.verify_path(&key, path) {
            return Err(InsertError::ProofMismatch);
        }
        let target = match self.walk_target(path) {
            None => {
                return Err(InsertError::ProofMismatch);
            },
            Some(t) => t,
        };
        if !self.check_agree(path, &key) {
            return Err(InsertError::Inconsistent);
        }
        proof {
            lemma_path_dv_index(*path);
            assert(ps.skip(path@.len() as int) =~= Seq::<PathStep>::empty());
            assert(crate::model::fill_sibs(m.tree, ps.skip(path@.len() as int)) == m.tree);
        }
        let mut t: usize = 0;
        let mut j: usize = path.len();
        while j > 0
            invariant
                m == old(self)@,
                m.inv(),
                self.index == old(self).index,
                self.data == old(self).data,
                self.total == old(self).total,
                self.leaves == old(self).leaves,
                self.index.wf(),
                self.data.wf(),
                ps == path.deep_view(),
                ps.len() == path@.len(),
                j <= path@.len(),
                forall|a: int| 0 <= a < path@.len() ==> ps[a] == path@[a]@,
                crate::model::insert_fits(m, ps),
                (target as int) == crate::model::path_target(ps),
                t as int == crate::model::path_target(ps.skip(j as int)),
                self.tree.deep_view() == crate::model::fill_sibs(m.tree, ps.skip(j as int)),
                self.tree@.len() == m.tree.len(),
            decreases j,
        {
            proof {
                assert(ps.skip(j - 1).drop_first() =~= ps.skip(j as int));
                assert(ps.skip(j - 1)[0] == ps[j - 1]);
                crate::model::lemma_fits_suffix(m, ps, j - 1);
                crate::model::lemma_path_target_range(m, ps.skip(j - 1));
                assert(2 * (t as int) + 2 < m.total);
                lemma_dv_index(self.tree);
            }
            let node = &path[j - 1];
            let child = match node {
                PathNode::Left(_) => 2 * t + 1,
                PathNode::Right(_) => 2 * t + 2,
            };
            let sib = match node {
                PathNode::Left(_) => 2 * t + 2,
                PathNode::Right(_) => 2 * t + 1,
            };
            let d = match node {
                PathNode::Left(d) => d,
                PathNode::Right(d) => d,
            };
            proof {
                assert(node@ == ps[j - 1]);
                assert(child as int == crate::model::path_target(ps.skip(j - 1)));
                assert(sib as int == sibling_idx(crate::model::path_target(ps.skip(j - 1))));
                assert(d@ == ps[j - 1].digest());
            }
            let ghost cur = self.tree.deep_view();
            if self.tree[sib].is_none() {
                proof {
                    assert(cur[sib as int] is None);
                }
                let ghost v1 = self.tree;
                let wd = clone_bytes(d);
                self.tree[sib] = Some(wd);
                proof {
                    lemma_dv_update(v1, self.tree, sib as int, self.tree@[sib as int]);
                    assert(self.tree@[sib as int] == Some(wd));
                    assert(self.tree@[sib as int].deep_view() == Some(d@));
                    assert(self.tree.deep_view() == crate::model::fill_sibs(m.tree, ps.skip(
                        j - 1,
                    )));
                }
            } else {
                proof {
                    assert(cur[sib as int] is Some);
                    assert(self.tree.deep_view() == crate::model::fill_sibs(m.tree, ps.skip(
                        j - 1,
                    )));
                }
            }
            t = child;
            j = j - 1;
        }
        proof {
            assert(ps.skip(0) =~= ps);
            crate::model::lemma_path_target_range(m, ps);
        }
        let ghost v1 = self.tree;
        let wk = clone_bytes(&key);
        self.tree[target] = Some(wk);
        proof {
            lemma_dv_update(v1, self.tree, target as int, self.tree@[target as int]);
            assert(self.tree@[target as int] == Some(wk));
            assert(self.tree@[target as int].deep_view() == Some(key@));
        }
        self.index.insert(clone_bytes(&key), target);
        self.data.insert(key, clone_bytes(bytes));
        proof {
            crate::model::lemma_spec_insert_inv(m, hash_of(bytes@), bytes@, ps);
            assert(self@ =~= crate::model::spec_insert(m, hash_of(bytes@), bytes@, ps));
        }
        Ok(())
    }

    /// Verifies and absorbs one bundle.
    pub fn insert_bundle(&mut self, bundle: &DataBundle) -> (r: Result<(), InsertError>)
        requires
            old(self).inv(),
        ensures
            final(self).inv(),
            match r {
                Ok(()) => {
                    &&& old(self)@.total > 0
                    &&& fold_path(hash_of(bundle.data@), bundle.path.deep_view()) == old(
                        self,
                    )@.root_digest()
                    &&& crate::model::insert_fits(old(self)@, bundle.path.deep_view())
                    &&& crate::model::insert_agrees(
                        old(self)@,
                        hash_of(bundle.data@),
                        bundle.path.deep_view(),
                    )
                    &&& final(self)@ == crate::model::spec_insert(
                        old(self)@,
                        hash_of(bundle.data@),
                        bundle.data@,
                        bundle.path.deep_view(),
                    )
                },
                Err(e) => final(self)@ == old(self)@ && match e {
                    InsertError::ProofMismatch => !(old(self)@.total > 0 && fold_path(
                        hash_of(bundle.data@),
                        bundle.path.deep_view(),
                    ) == old(self)@.root_digest() && crate::model::insert_fits(
                        old(self)@,
                        bundle.path.deep_view(),
                    )),
                    InsertError::Inconsistent => old(self)@.total > 0 && fold_path(
                        hash_of(bundle.data@),
                        bundle.path.deep_view(),
                    ) == old(self)@.root_digest() && crate::model::insert_fits(
                        old(self)@,
                        bundle.path.deep_view(),
                    ) && !crate::model::insert_agrees(
                        old(self)@,
                        hash_of(bundle.data@),
                        bundle.path.deep_view(),
                    ),
                },
            },
    {
        self.insert(&bundle.data, &bundle.path)
    }

    /// The bundle for the leaf at ordinal `i`, if this replica holds the
    /// leaf, its payload, and every sibling digest its proof needs.
    pub fn query_bundle(&self, i: usize) -> (r: Option<DataBundle>)
        requires
            self.inv(),
        ensures
            match r {
                Some(b) => crate::model::has_bundle(self@, i as int) && b.path.deep_view()
                    == crate::model::bundle_path(self@, i as int) && b.data@
                    == self@.data[crate::model::bundle_key(self@, i as int)],
                None => !crate::model::has_bundle(self@, i as int),
            },
    {
        let key = match self.ith_leaf(i) {
            None => {
                return None;
            },
            Some(k) => k,
        };
        let path = match self.path(&key) {
            None => {
                return None;
            },
            Some(p) => p,
        };
        let data = match self.data.get(&key) {
            None => {
                return None;
            },
            Some(d) => d,
        };
        Some(DataBundle { path, data })
    }
}

/// Moves one leaf from a source replica to a target replica: queries the
/// source for the bundle at ordinal `i` and lets the target verify and
/// absorb it.  False when the source lacks the bundle or the target
/// rejects it; in either failure the target is unchanged.
pub fn transfer(source: &Merkle, target: &mut Merkle, i: usize) -> (r: bool)
    requires
        source.inv(),
        old(target).inv(),
    ensures
        final(target).inv(),
        r == crate::model::transfer_ok(source@, old(target)@, i as int),
        r ==> final(target)@ == crate::model::spec_insert(
            old(target)@,
            hash_of(source@.data[crate::model::bundle_key(source@, i as int)]),
            source@.data[crate::model::bundle_key(source@, i as int)],
            crate::model::bundle_path(source@, i as int),
        ),
        !r ==> final(target)@ == old(target)@,
{
    match source.query_bundle(i) {
        None => false,
        Some(b) => match target.insert_bundle(&b) {
            Ok(()) => true,
            Err(_) => false,
        },
    }
}

} // verus!
