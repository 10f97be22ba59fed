//! The stated properties of the tree, proved once and for all over the
//! model: every operation's contract feeds these.

use vstd::prelude::*;

use crate::hash::hash_of;
use crate::hash::hash_pair_of;
use crate::model::fold_path;
use crate::model::lemma_fold_to_root;
use crate::model::lemma_on_path_le;
use crate::model::lemma_propagate_frame;
use crate::model::lemma_propagate_same;
use crate::model::lemma_propagate_take;
use crate::model::lemma_propagate_twice;
use crate::model::node_ok_at;
use crate::model::on_path;
use crate::model::parent_idx;
use crate::model::propagate;
use crate::model::sibling_idx;
use crate::model::spec_delete;
use crate::model::spec_push;
use crate::model::MerkleView;

verus! {

/// Round trip: in a fully known tree, the proof read off for any present
/// digest folds back to the root, so `verify_path` accepts exactly what
/// `path` produces.
pub proof fn lemma_round_trip(m: MerkleView, k: Seq<u8>)
    requires
        m.wf(),
        m.index.contains_key(k),
    ensures
        fold_path(k, m.path_from(m.index[k] as int)) == m.root_digest(),
{
    let pos = m.index[k] as int;
    assert(m.tree[pos] == Some(k));
    assert(m.at(pos) == k);
    lemma_fold_to_root(m, pos);
}

/// Structural invariant: a fully known tree is packed — `total` is zero or
/// `2 * leaves - 1` — and every internal slot checks out, so `verify_tree`
/// reports true.
pub proof fn lemma_wf_verifies(m: MerkleView)
    requires
        m.wf(),
    ensures
        m.total == 0 || m.total == 2 * m.leaves - 1,
        m.consistent(),
{
}

/// Insert/delete inverse: appending a payload not yet present and then
/// deleting its digest restores the tree exactly — array, maps and counts,
/// the root digest in particular.
pub proof fn lemma_push_delete_inverse(m: MerkleView, payload: Seq<u8>)
    requires
        m.wf(),
        !m.index.contains_key(hash_of(payload)),
        m.total + 2 <= usize::MAX,
    ensures
        spec_delete(spec_push(m, hash_of(payload), payload), hash_of(payload)) =~= m,
{
    let k = hash_of(payload);
    let pushed = spec_push(m, k, payload);
    let restored = spec_delete(pushed, k);
    if m.total == 0 {
        assert(pushed.index[k] == 0);
        assert(restored.total == 0 && restored.leaves == 0);
        assert(restored.tree =~= m.tree);
        assert(restored.index =~= m.index) by {
            assert forall|k2: Seq<u8>| !(#[trigger] m.index.contains_key(k2)) by {
                if m.index.contains_key(k2) {
                    assert(m.first_leaf() <= m.index[k2] < m.total);
                }
            }
        }
        assert(restored.data =~= m.data) by {
            assert(!m.data.contains_key(k));
        }
    } else {
        let n0 = m.total;
        let p = parent_idx(n0);
        let moved = m.at(p);
        let h = hash_pair_of(k, moved);
        let t1 = m.tree + seq![Some(moved), Some(k)];
        assert(p == m.leaves - 1 && p == m.first_leaf());
        assert(m.index.contains_key(moved) && m.index[moved] == p) by {
            assert(m.filled(p));
        }
        assert(moved != k);
        assert(pushed.index[k] == n0 + 1);
        let i = n0 + 1;
        // the deleted leaf is the farthest one: the simple repair applies
        assert(i > 0);
        assert(!(pushed.leaves % 2 == 1 && i == pushed.total - pushed.leaves));
        assert(i >= pushed.total - 2);
        let dp = parent_idx(i);
        assert(dp == p);
        assert(sibling_idx(i) == n0);
        // read the slots of the pushed tree
        assert(t1.len() == n0 + 2);
        lemma_propagate_frame(t1, p, h);
        assert(!on_path(p, n0) && !on_path(p, n0 + 1)) by {
            if on_path(p, n0) {
                lemma_on_path_le(p, n0);
            }
            if on_path(p, n0 + 1) {
                lemma_on_path_le(p, n0 + 1);
            }
        }
        assert(pushed.tree[n0] == Some(moved));
        assert(pushed.tree[n0 + 1] == Some(k));
        assert(pushed.at(sibling_idx(i)) == moved);
        // the truncated pushed tree is the old tree with the node at p
        // recomputed
        assert(pushed.tree.take(n0) =~= propagate(m.tree, p, h)) by {
            assert(p > 0 ==> p + 1 < n0) by {
                assert(n0 == 2 * m.leaves - 1);
            }
            lemma_propagate_take(t1, p, h, n0);
            assert(t1.take(n0) =~= m.tree);
        }
        // propagating again from p with the old leaf digest undoes it
        assert(restored.tree == propagate(pushed.tree.take(n0), p, moved));
        assert(propagate(propagate(m.tree, p, h), p, moved) =~= propagate(m.tree, p, moved)) by {
            assert(p > 0 ==> p + 1 < m.tree.len()) by {
                assert(n0 == 2 * m.leaves - 1);
            }
            lemma_propagate_twice(m.tree, p, h, moved);
        }
        assert(propagate(m.tree, p, moved) =~= m.tree) by {
            assert forall|j: int| on_path(p, j) && j != p implies node_ok_at(m.tree, j) by {
                lemma_on_path_le(p, j);
                assert(j < p);
                assert(0 <= j < m.first_leaf());
                assert(m.node_ok(j));
            }
            assert(m.tree[p] is Some);
            assert(moved == crate::model::tree_at(m.tree, p));
            lemma_propagate_same(m.tree, p);
        }
        assert(restored.tree =~= m.tree);
        // the index and the store return to their old values
        assert(restored.index =~= m.index) by {
            assert(restored.index == pushed.index.insert(moved, p as usize).remove(k));
        }
        assert(restored.data =~= m.data) by {
            assert(!m.data.contains_key(k));
        }
        assert(restored.total == m.total && restored.leaves == m.leaves);
    }
}

/// A partial replica agrees with a full tree: same shape, every slot it
/// knows holds the full tree's digest, every payload it holds is the full
/// tree's payload.
pub open spec fn agrees_with(t: MerkleView, s: MerkleView) -> bool {
    &&& t.total == s.total
    &&& t.leaves == s.leaves
    &&& t.tree.len() == s.tree.len()
    &&& forall|j: int| 0 <= j < t.total && t.filled(j) ==> t.at(j) == s.at(j)
    &&& forall|k: Seq<u8>| #[trigger]
        t.data.contains_key(k) ==> s.data.contains_key(k) && t.data[k] == s.data[k]
}

/// A fully known tree can hand out a bundle for every ordinal.
pub proof fn lemma_full_source_has_bundle(s: MerkleView, i: int)
    requires
        s.wf(),
        0 <= i < s.leaves,
    ensures
        crate::model::has_bundle(s, i),
{
    let pos = s.total - 1 - i;
    assert(s.first_leaf() <= pos < s.total);
    assert(s.index.contains_key(s.at(pos)) && s.index[s.at(pos)] == pos);
    crate::model::lemma_wf_path_ready(s, pos);
}

/// The proof a full tree reads off for a position walks back to exactly
/// that position, fits any replica of the same shape, and agrees with
/// every digest such a replica already knows.
pub proof fn lemma_source_path_compatible(s: MerkleView, t: MerkleView, pos: int)
    requires
        s.total == 2 * s.leaves - 1,
        s.total > 0,
        t.total == s.total,
        0 <= pos < s.total,
        forall|j: int| 0 <= j < t.total && t.filled(j) ==> t.at(j) == s.at(j),
    ensures
        crate::model::path_target(s.path_from(pos)) == pos,
        crate::model::path_fits(t, s.path_from(pos)),
        crate::model::sibs_agree(t, s.path_from(pos)),
    decreases pos,
{
    if pos == 0 {
        assert(s.path_from(0) =~= Seq::<crate::model::PathStep>::empty());
    } else {
        let p = parent_idx(pos);
        lemma_source_path_compatible(s, t, p);
        let ps = s.path_from(pos);
        assert(ps.drop_first() =~= s.path_from(p));
        assert(ps[0] == s.sibling_step(pos));
        assert(2 * p + 1 == pos || 2 * p + 2 == pos);
        assert(2 * p + 2 < s.total) by {
            assert(s.total == 2 * s.leaves - 1);
        }
        assert(crate::model::path_target(ps) == crate::model::step_child(p, ps[0]));
        assert(crate::model::path_target(ps) == pos) by {
            if pos % 2 == 1 {
                assert(ps[0] is Left);
            } else {
                assert(ps[0] is Right);
            }
        }
        assert(crate::model::path_fits(t, ps));
        assert(ps[0].digest() == s.at(sibling_idx(pos)));
        assert(crate::model::sibs_agree(t, ps));
    }
}

/// Two replicas that agree slot for slot read off the same proof wherever
/// the partial one has all the sibling slots.
pub proof fn lemma_agreeing_paths_equal(s: MerkleView, a: MerkleView, pos: int)
    requires
        a.total == s.total,
        a.tree.len() == s.tree.len(),
        s.total == 2 * s.leaves - 1,
        forall|j: int| 0 <= j < s.total ==> s.filled(j),
        forall|j: int| 0 <= j < a.total && a.filled(j) ==> a.at(j) == s.at(j),
        0 <= pos < s.total,
        a.path_ready(pos),
    ensures
        a.path_from(pos) == s.path_from(pos),
    decreases pos,
{
    if pos > 0 {
        let p = parent_idx(pos);
        let sib = sibling_idx(pos);
        assert(2 * p + 1 == pos || 2 * p + 2 == pos);
        assert(0 <= sib < s.total) by {
            if pos % 2 == 1 {
                assert(pos < s.total - 1) by {
                    assert(s.total == 2 * s.leaves - 1);
                }
            }
        }
        assert(a.filled(sib));
        assert(a.at(sib) == s.at(sib));
        assert(a.sibling_step(pos) == s.sibling_step(pos));
        lemma_agreeing_paths_equal(s, a, p);
        assert(a.path_from(pos) =~= s.path_from(pos));
    }
}

/// Filling a replica's unknown slots from a full tree's proof writes only
/// the full tree's digests, and afterwards every sibling slot that proof
/// names is known.
pub proof fn lemma_fill_from_source(s: MerkleView, t: MerkleView, pos: int)
    requires
        s.total == 2 * s.leaves - 1,
        s.total > 0,
        t.total == s.total,
        t.tree.len() == t.total,
        0 <= pos < s.total,
        forall|j: int| 0 <= j < t.total && t.filled(j) ==> t.at(j) == s.at(j),
    ensures
        crate::model::fill_sibs(t.tree, s.path_from(pos)).len() == t.tree.len(),
        forall|j: int|
            0 <= j < t.total ==> crate::model::fill_sibs(t.tree, s.path_from(pos))[j]
                == t.tree[j] || crate::model::fill_sibs(t.tree, s.path_from(pos))[j] == Some(
                s.at(j),
            ),
        forall|c: int|
            crate::model::on_path(pos, c) && c > 0 ==> crate::model::fill_sibs(
                t.tree,
                s.path_from(pos),
            )[sibling_idx(c)] is Some,
    decreases pos,
{
    lemma_source_path_compatible(s, t, pos);
    if pos == 0 {
        assert(s.path_from(0) =~= Seq::<crate::model::PathStep>::empty());
        assert(forall|c: int| on_path(0, c) ==> c == 0);
    } else {
        let p = parent_idx(pos);
        let sib = sibling_idx(pos);
        let ps = s.path_from(pos);
        assert(ps.drop_first() =~= s.path_from(p));
        assert(ps[0] == s.sibling_step(pos));
        lemma_fill_from_source(s, t, p);
        let t1 = crate::model::fill_sibs(t.tree, s.path_from(p));
        assert(2 * p + 1 == pos || 2 * p + 2 == pos);
        assert(2 * p + 2 < s.total) by {
            assert(s.total == 2 * s.leaves - 1);
        }
        assert(sib == 2 * p + 1 || sib == 2 * p + 2);
        lemma_source_path_compatible(s, t, p);
        assert(crate::model::path_target(ps) == pos);
        assert(crate::model::fill_sibs(t.tree, ps) == if t1[sib] is Some {
            t1
        } else {
            t1.update(sib, Some(ps[0].digest()))
        });
        assert(ps[0].digest() == s.at(sib));
        let f = crate::model::fill_sibs(t.tree, ps);
        assert forall|j: int| 0 <= j < t.total implies f[j] == t.tree[j] || f[j] == Some(
            s.at(j),
        ) by {
            if j != sib {
                assert(f[j] == t1[j]);
            }
        }
        assert forall|c: int| crate::model::on_path(pos, c) && c > 0 implies f[sibling_idx(
            c,
        )] is Some by {
            if c == pos {
                assert(f[sib] is Some);
            } else {
                assert(crate::model::on_path(p, c));
                crate::model::lemma_on_path_le(p, c);
                assert(t1[sibling_idx(c)] is Some);
                assert(sibling_idx(c) == c - 1 || sibling_idx(c) == c + 1);
                assert(sibling_idx(c) != sib) by {
                    if p == 0 {
                        assert(c == 0);
                    } else {
                        assert(sibling_idx(c) <= p + 1);
                        assert(sib >= 2 * p + 1);
                    }
                }
                assert(f[sibling_idx(c)] == t1[sibling_idx(c)]);
            }
        }
    }
}

/// Sibling slots known all the way up mean the replica can read the proof
/// off again.
pub proof fn lemma_ready_from_filled(t: MerkleView, pos: int)
    requires
        0 <= pos,
        forall|c: int| on_path(pos, c) && c > 0 ==> t.filled(sibling_idx(c)),
    ensures
        t.path_ready(pos),
    decreases pos,
{
    if pos > 0 {
        assert(crate::model::on_path(pos, pos));
        assert forall|c: int| on_path(parent_idx(pos), c) && c > 0 implies t.filled(
            sibling_idx(c),
        ) by {
            assert(on_path(pos, c));
        }
        lemma_ready_from_filled(t, parent_idx(pos));
    }
}

/// Reconciliation step: a replica that agrees with the full tree and holds
/// the bundle for ordinal `i` can pass it to any other agreeing replica:
/// the bundle is exactly the full tree's bundle, the transfer succeeds,
/// and the receiver agrees with the full tree afterwards and can hand the
/// same ordinal on.
pub proof fn lemma_transfer_step(s: MerkleView, a: MerkleView, t: MerkleView, i: int)
    requires
        s.wf(),
        a.inv(),
        t.inv(),
        s.total <= usize::MAX,
        agrees_with(a, s),
        agrees_with(t, s),
        crate::model::has_bundle(a, i),
    ensures
        crate::model::bundle_key(a, i) == crate::model::bundle_key(s, i),
        crate::model::bundle_path(a, i) == crate::model::bundle_path(s, i),
        a.data[crate::model::bundle_key(a, i)] == s.data[crate::model::bundle_key(s, i)],
        crate::model::transfer_ok(a, t, i),
        ({
            let k = crate::model::bundle_key(s, i);
            let t2 = crate::model::spec_insert(
                t,
                hash_of(s.data[k]),
                s.data[k],
                crate::model::bundle_path(s, i),
            );
            &&& t2.inv()
            &&& agrees_with(t2, s)
            &&& crate::model::has_bundle(t2, i)
        }),
{
    let pos = s.total - 1 - i;
    assert(0 <= i < s.leaves);
    assert(s.total == 2 * s.leaves - 1 && s.total > 0);
    assert(s.first_leaf() <= pos < s.total);
    let k = s.at(pos);
    assert(s.index.contains_key(k) && s.index[k] == pos);
    assert(a.filled(pos));
    assert(crate::model::bundle_key(a, i) == k);
    // the source's index entry for the digest names the same position
    let pos_a = a.index[k] as int;
    assert(a.first_leaf() <= pos_a < a.total && a.tree[pos_a] == Some(k));
    assert(a.at(pos_a) == k);
    assert(a.filled(pos_a));
    assert(s.at(pos_a) == k);
    assert(pos_a == pos) by {
        assert(s.index[s.at(pos_a)] == pos_a);
    }
    // hence the proof it hands out is the full tree's proof
    lemma_agreeing_paths_equal(s, a, pos);
    assert(crate::model::bundle_path(a, i) == s.path_from(pos));
    assert(crate::model::bundle_path(s, i) == s.path_from(pos)) by {
        assert(s.index[crate::model::bundle_key(s, i)] == pos);
    }
    // and the payload is the full tree's payload
    assert(a.data.contains_key(k));
    assert(a.data[k] == s.data[k]);
    assert(hash_of(s.data[k]) == k) by {
        assert(s.data.contains_key(k));
    }
    // the proof folds to the shared root and fits the target
    let ps = s.path_from(pos);
    lemma_fold_to_root(s, pos);
    assert(t.total > 0);
    assert(t.filled(0));
    assert(t.at(0) == s.at(0));
    assert(fold_path(k, ps) == t.root_digest());
    lemma_source_path_compatible(s, t, pos);
    assert(crate::model::insert_fits(t, ps));
    assert(crate::model::insert_agrees(t, k, ps)) by {
        if t.filled(pos) {
            assert(t.at(pos) == s.at(pos));
        }
    }
    assert(crate::model::transfer_ok(a, t, i));
    // the state after absorbing the bundle
    let t2 = crate::model::spec_insert(t, k, s.data[k], ps);
    crate::model::lemma_spec_insert_inv(t, k, s.data[k], ps);
    lemma_fill_from_source(s, t, pos);
    let f = crate::model::fill_sibs(t.tree, ps);
    assert(t2.tree == f.update(pos, Some(k)));
    assert(agrees_with(t2, s)) by {
        assert forall|j: int| 0 <= j < t2.total && t2.filled(j) implies t2.at(j) == s.at(j) by {
            if j == pos {
                assert(t2.tree[j] == Some(k));
            } else {
                assert(t2.tree[j] == f[j]);
                if f[j] == t.tree[j] {
                    assert(t.filled(j));
                    assert(t.at(j) == s.at(j));
                }
            }
        }
    }
    assert(crate::model::has_bundle(t2, i)) by {
        assert(t2.tree[pos] == Some(k));
        assert(t2.at(pos) == k);
        assert(crate::model::bundle_key(t2, i) == k);
        assert(t2.index[k] == pos);
        assert(t2.path_ready(pos)) by {
            assert forall|c: int| on_path(pos, c) && c > 0 implies t2.filled(sibling_idx(c)) by {
                assert(f[sibling_idx(c)] is Some);
                crate::model::lemma_on_path_le(pos, c);
                if c != pos {
                    assert(on_path(parent_idx(pos), c));
                    crate::model::lemma_on_path_le(parent_idx(pos), c);
                    assert(c <= parent_idx(pos));
                }
                assert(0 <= sibling_idx(c) < t.total) by {
                    if c % 2 == 1 {
                        if c == pos {
                            assert(pos < t.total - 1) by {
                                assert(t.total == 2 * t.leaves - 1);
                            }
                        } else {
                            assert(c + 1 <= parent_idx(pos) + 1);
                            assert(parent_idx(pos) < pos);
                        }
                    }
                }
                assert(sibling_idx(c) != pos) by {
                    if c == pos {
                        assert(sibling_idx(c) == c - 1 || sibling_idx(c) == c + 1);
                    } else {
                        assert(sibling_idx(c) <= c + 1);
                        assert(c + 1 <= parent_idx(pos) + 1);
                        assert(parent_idx(pos) + 1 < pos || parent_idx(pos) == 0) by {
                            assert(parent_idx(pos) == (pos - 1) / 2);
                        }
                        if parent_idx(pos) == 0 {
                            assert(c <= 0);
                        }
                    }
                }
                assert(t2.tree[sibling_idx(c)] == f[sibling_idx(c)]);
            }
            lemma_ready_from_filled(t2, pos);
        }
        assert(t2.data.contains_key(k));
    }
}

/// Reconciliation end state: a replica that agrees with the full tree and
/// has every slot filled holds exactly the full tree's digest array, so
/// its self-check passes and its payloads, read by ordinal, are the full
/// tree's payloads.
pub proof fn lemma_reconciled_tree(s: MerkleView, t: MerkleView)
    requires
        s.wf(),
        t.inv(),
        agrees_with(t, s),
        forall|j: int| 0 <= j < t.total ==> t.filled(j),
    ensures
        t.tree == s.tree,
        t.consistent(),
        t.total > 0 ==> t.root_digest() == s.root_digest(),
        forall|i: int|
            0 <= i < t.leaves ==> crate::model::bundle_key(t, i) == crate::model::bundle_key(s, i),
{
    assert(t.tree =~= s.tree) by {
        assert forall|j: int| 0 <= j < t.tree.len() implies t.tree[j] == s.tree[j] by {
            assert(t.filled(j));
            assert(t.at(j) == s.at(j));
            assert(s.filled(j));
        }
    }
    assert forall|j: int| 0 <= j < t.first_leaf() implies t.node_ok(j) by {
        assert(s.node_ok(j));
    }
}

/// A position's proof being readable means every sibling slot on the way
/// up is known.
pub proof fn lemma_ready_to_filled(t: MerkleView, pos: int, c: int)
    requires
        0 <= pos,
        t.path_ready(pos),
        on_path(pos, c),
        c > 0,
    ensures
        t.filled(sibling_idx(c)),
    decreases pos,
{
    if c != pos {
        assert(on_path(parent_idx(pos), c));
        lemma_ready_to_filled(t, parent_idx(pos), c);
    }
}

/// Some leaf position under node `x`: descend along left children until
/// the leaf range begins.
pub open spec fn leaf_under(x: int, fl: int) -> int
    decreases 2 * fl - x,
{
    if 0 <= x && x < fl {
        leaf_under(2 * x + 1, fl)
    } else {
        x
    }
}

/// Every node of a packed tree has a leaf below it, and lies on that
/// leaf's way to the root.
pub proof fn lemma_leaf_under(x: int, fl: int, total: int)
    requires
        total == 2 * fl + 1,
        0 <= x < total,
    ensures
        fl <= leaf_under(x, fl) < total,
        on_path(leaf_under(x, fl), x),
    decreases 2 * fl - x,
{
    if x >= fl {
        assert(on_path(x, x));
    } else {
        assert(2 * x + 1 < total);
        lemma_leaf_under(2 * x + 1, fl, total);
        assert(parent_idx(2 * x + 1) == x);
        crate::model::lemma_on_path_parent(leaf_under(2 * x + 1, fl), 2 * x + 1);
    }
}

/// Reconciliation end-to-end: a replica of the full tree that can serve a
/// bundle for every ordinal knows every slot, so it holds exactly the full
/// tree's digest array, its self-check passes, and its payloads, read by
/// ordinal, are the full tree's payloads.
pub proof fn lemma_reconciliation(s: MerkleView, t: MerkleView)
    requires
        s.wf(),
        t.inv(),
        agrees_with(t, s),
        forall|i: int| 0 <= i < s.leaves ==> crate::model::has_bundle(t, i),
    ensures
        t.tree == s.tree,
        t.consistent(),
        t.total > 0 ==> t.root_digest() == s.root_digest(),
        forall|i: int|
            0 <= i < s.leaves ==> t.data.contains_key(crate::model::bundle_key(s, i))
                && t.data[crate::model::bundle_key(s, i)] == s.data[crate::model::bundle_key(s, i)],
{
    let fl = s.first_leaf();
    // each held bundle's index entry names the ordinal's own position
    assert forall|pos: int| fl <= pos < s.total implies t.path_ready(pos) && #[trigger] t.filled(
        pos,
    ) by {
        let i = s.total - 1 - pos;
        assert(0 <= i < s.leaves);
        assert(crate::model::has_bundle(t, i));
        assert(t.filled(pos));
        assert(t.at(pos) == s.at(pos));
        let k = crate::model::bundle_key(t, i);
        assert(k == s.at(pos));
        let posx = t.index[k] as int;
        assert(t.tree[posx] == Some(k));
        assert(t.at(posx) == k);
        assert(s.first_leaf() <= posx < s.total);
        assert(t.filled(posx));
        assert(s.at(posx) == k);
        assert(posx == pos) by {
            assert(s.index[s.at(posx)] == posx);
            assert(s.index[s.at(pos)] == pos);
        }
        assert(t.path_ready(pos));
    }
    // every slot is known: leaves directly, internal slots as the sibling
    // of some node on a held leaf's way up
    assert forall|j: int| 0 <= j < t.total implies t.filled(j) by {
        if j == 0 {
            assert(t.filled(0));
        } else if j >= fl {
            assert(t.filled(j));
        } else {
            let sib = sibling_idx(j);
            assert(0 <= sib < s.total) by {
                if j % 2 == 1 {
                    assert(j < s.total - 1) by {
                        assert(s.total == 2 * s.leaves - 1);
                    }
                }
            }
            lemma_leaf_under(sib, fl, s.total);
            let leaf = leaf_under(sib, fl);
            assert(t.filled(leaf));
            assert(t.path_ready(leaf));
            assert(sib > 0);
            assert(sibling_idx(sib) == j);
            lemma_ready_to_filled(t, leaf, sib);
        }
    }
    lemma_reconciled_tree(s, t);
    assert forall|i: int| 0 <= i < s.leaves implies t.data.contains_key(
        #[trigger] crate::model::bundle_key(s, i),
    ) && t.data[crate::model::bundle_key(s, i)] == s.data[crate::model::bundle_key(s, i)] by {
        assert(crate::model::has_bundle(t, i));
        assert(crate::model::bundle_key(t, i) == crate::model::bundle_key(s, i));
        assert(t.data.contains_key(crate::model::bundle_key(s, i)));
    }
}

} // verus!
