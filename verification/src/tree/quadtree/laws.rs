//! What the operations on the tree keep: a retired block lies outside the tree, freeing it leaves
//! the tree as it was, and each parent stays at least as recent as its children.
use vstd::prelude::*;
use vstd::set_lib::{set_int_range, lemma_int_range, lemma_len_subset, lemma_set_disjoint_lens};
use crate::complex::domain::{DomainView, default_domain, lemma_split_partitions};
use crate::complex::window::WindowView;
use crate::tree::quadtree::{TreeView, raised, lemma_path_node, lemma_unique_parent, lemma_same_shape,
    max_norm_distance, closest_sample, offered_color, meets_line};
use crate::tree::rgb::pack_rgb;

verus! {

/// Two blocks that start on multiples of four and share a node are the same block.
proof fn lemma_same_block(a: int, b: int, i: int)
    requires
        a % 4 == 0,
        b % 4 == 0,
        a <= i < a + 4,
        b <= i < b + 4,
    ensures
        a == b,
{
}

/// No node on a path from the root lies in or below a detached block.
proof fn lemma_path_outside_detached(tv: TreeView, b: int, path: Seq<int>, j: int)
    requires
        tv.wf(),
        tv.is_detached(b),
        tv.valid_path(path),
        0 <= j < path.len(),
    ensures
        !tv.below_block(b, path[j]),
    decreases j,
{
    if tv.below_block(b, path[j]) {
        let q = choose|q: Seq<int>| #[trigger] tv.block_path(b, q) && q.last() == path[j];
        if j == 0 {
            if q.len() == 1 {
                lemma_same_block(b, tv.root, tv.root);
            } else {
                // the root would be the child of a live node
                let m = q.len() - 2;
                assert(tv.is_child(q[m], q[m + 1]));
                assert(tv.node_ok(q[m]));
                let c = tv.nodes[q[m]].children->0;
                lemma_same_block(c, tv.root, tv.root);
            }
        } else {
            lemma_path_outside_detached(tv, b, path, j - 1);
            let i = j - 1;
            let p = path[i];
            assert(tv.is_child(path[i], path[i + 1]));
            if q.len() == 1 {
                // the parent on the path would hold the detached block as its children
                assert(tv.node_ok(p));
                let c = tv.nodes[p].children->0;
                lemma_same_block(c, b, path[j]);
            } else {
                // the parent on the path would be the parent on the block path
                let m = q.len() - 2;
                assert(tv.is_child(q[m], q[m + 1]));
                lemma_unique_parent(tv, Set::empty(), q[m], p, path[j]);
                let r = q.subrange(0, m + 1);
                assert forall|k: int| 0 <= k < r.len() - 1 implies #[trigger] tv.is_child(r[k], r[k + 1]) by {
                    assert(tv.is_child(q[k], q[k + 1]));
                }
                assert(tv.block_path(b, r));
            }
        }
    }
}

/// A retired block lies outside the tree: no node of the tree is in it or below it.
pub proof fn lemma_detached_outside_tree(tv: TreeView, b: int, i: int)
    requires
        tv.wf(),
        tv.is_detached(b),
        tv.below_block(b, i),
    ensures
        !tv.tree_nodes().contains(i),
{
    if tv.tree_nodes().contains(i) {
        let path = choose|path: Seq<int>| #[trigger] tv.node_path(tv.root, path) && path.last() == i;
        assert(tv.valid_path(path));
        lemma_path_outside_detached(tv, b, path, path.len() - 1);
    }
}

/// Freeing a retired block leaves the tree as it was: it has the same nodes, holding the same
/// data.
pub proof fn lemma_free_keeps_tree(before: TreeView, after: TreeView, b: int)
    requires
        before.wf(),
        before.is_detached(b),
        after.freed_from(before, b),
    ensures
        after.tree_nodes() == before.tree_nodes(),
        forall|i: int| #[trigger] before.tree_nodes().contains(i) ==> after.nodes[i] == before.nodes[i],
{
    assert forall|i: int| #[trigger] before.tree_nodes().contains(i) implies after.tree_nodes().contains(i)
        && after.nodes[i] == before.nodes[i] by {
        let path = choose|path: Seq<int>| #[trigger] before.node_path(before.root, path) && path.last() == i;
        assert(before.valid_path(path));
        assert forall|j: int| 0 <= j < path.len() implies #[trigger] after.live.contains(path[j])
            && after.nodes[path[j]] == before.nodes[path[j]] by {
            lemma_path_outside_detached(before, b, path, j);
            lemma_path_node(before, Set::empty(), path, j);
            let i = path[j];
            assert(before.live.contains(i) && !before.below_block(b, i));
            assert(after.live.contains(i));
            assert(after.nodes[i] == before.nodes[i]);
        }
        assert forall|k: int| 0 <= k < path.len() - 1 implies #[trigger] after.is_child(path[k], path[k + 1]) by {
            assert(before.is_child(path[k], path[k + 1]));
            assert(after.live.contains(path[k]));
        }
        assert(after.node_path(after.root, path));
        assert(after.live.contains(path[path.len() - 1]));
    }
    assert forall|i: int| #[trigger] after.tree_nodes().contains(i) implies before.tree_nodes().contains(i) by {
        let path = choose|path: Seq<int>| #[trigger] after.node_path(after.root, path) && path.last() == i;
        assert forall|k: int| 0 <= k < path.len() - 1 implies #[trigger] before.is_child(path[k], path[k + 1]) by {
            assert(after.is_child(path[k], path[k + 1]));
            assert(after.live.contains(path[k]));
        }
        assert(before.node_path(before.root, path));
    }
    assert(after.tree_nodes() =~= before.tree_nodes());
}

/// The parent of a node on a path from the root is on the path too.
proof fn lemma_parent_on_path(tv: TreeView, path: Seq<int>, p: int, c: int)
    requires
        tv.wf(),
        tv.valid_path(path),
        tv.is_child(p, c),
        path.contains(c),
    ensures
        path.contains(p),
{
    let k = choose|k: int| 0 <= k < path.len() && path[k] == c;
    lemma_unique_parent(tv, Set::empty(), p, p, c);
    let j = k - 1;
    assert(tv.is_child(path[j], path[j + 1]));
    lemma_unique_parent(tv, Set::empty(), p, path[j], c);
}

/// Retiring keeps each parent at least as recent as its children: the node that lets go of its
/// children has none left, and the timestamps raised are those of a path from the root.
pub proof fn lemma_retire_keeps_timestamps(before: TreeView, after: TreeView, path: Seq<int>, now: int)
    requires
        before.wf(),
        before.timestamps_ok(),
        before.valid_path(path),
        after.retired_from(before, path, now),
    ensures
        after.timestamps_ok(),
{
    let s = before.pruned_at(path.last());
    lemma_path_node(before, Set::empty(), path, path.len() - 1);
    assert forall|p: int, c: int| #[trigger] after.is_child(p, c) implies after.nodes[c].timestamp
        <= after.nodes[p].timestamp by {
        assert(before.node_ok(p));
        assert(after.nodes[p].children == s.nodes[p].children);
        assert(before.is_child(p, c));
        let cb = before.nodes[p].children->0;
        assert(before.live.contains(cb + (c - cb)));
        assert(before.node_ok(c));
        assert(after.nodes[c].timestamp == (if path.contains(c) {
            raised(s.nodes[c], now).timestamp
        } else {
            s.nodes[c].timestamp
        }));
        if path.contains(c) {
            lemma_parent_on_path(before, path, p, c);
        }
    }
}

/// Refining with the timestamps raised keeps each parent at least as recent as its children: the
/// new leaves are stamped `now`, and their parent, at the end of the path, is raised to `now`.
pub proof fn lemma_refine_keeps_timestamps(before: TreeView, after: TreeView, path: Seq<int>, now: int)
    requires
        before.wf(),
        before.timestamps_ok(),
        before.valid_path(path),
        after.refined_from(before, path, now, true),
    ensures
        after.timestamps_ok(),
{
    let leaf = path.last();
    let s = before.split_at(leaf, now);
    let nb = before.next_block();
    lemma_path_node(before, Set::empty(), path, path.len() - 1);
    // the new block held no live node
    assert forall|i: int| nb <= i < nb + 4 implies !#[trigger] before.live.contains(i) by {
        if before.free.len() > 0 {
            assert(!before.live.contains(before.free[before.free.len() - 1] + (i - nb)));
        } else if before.live.contains(i) {
            assert(before.node_ok(i));
        }
    }
    assert forall|i: int| #[trigger] path.contains(i) implies before.live.contains(i) by {
        let k = choose|k: int| 0 <= k < path.len() && path[k] == i;
        lemma_path_node(before, Set::empty(), path, k);
    }
    assert forall|p: int, c: int| #[trigger] after.is_child(p, c) implies after.nodes[c].timestamp
        <= after.nodes[p].timestamp by {
        assert(after.nodes[p].children == s.nodes[p].children);
        assert(0 <= c < s.nodes.len());
        assert(after.nodes[c].timestamp == (if path.contains(c) {
            raised(s.nodes[c], now).timestamp
        } else {
            s.nodes[c].timestamp
        }));
        assert(after.nodes[p].timestamp == (if path.contains(p) {
            raised(s.nodes[p], now).timestamp
        } else {
            s.nodes[p].timestamp
        }));
        if p == leaf {
            assert(nb <= c < nb + 4);
            assert(!path.contains(c));
            assert(path.contains(leaf));
        } else {
            assert(before.live.contains(p));
            assert(before.node_ok(p));
            assert(before.is_child(p, c));
            let cb = before.nodes[p].children->0;
            assert(before.live.contains(cb + (c - cb)));
            assert(before.node_ok(c));
            if path.contains(c) {
                lemma_parent_on_path(before, path, p, c);
            }
        }
    }
}

/// The shape of the tree after splitting the leaf at the end of `path`: the edges are those of the
/// tree before, and those from the leaf to the four new nodes, which have no children.
proof fn lemma_split_shape(before: TreeView, path: Seq<int>, now: int)
    requires
        before.wf(),
        before.valid_path(path),
        before.is_leaf(path.last()),
    ensures
        ({
            let s = before.split_at(path.last(), now);
            let nb = before.next_block();
            &&& forall|i: int| #[trigger] s.live.contains(i) ==> 0 <= i < s.nodes.len()
            &&& forall|i: int| nb <= i < nb + 4 ==> !#[trigger] before.live.contains(i)
            &&& forall|i: int| #[trigger] path.contains(i) ==> before.live.contains(i)
            &&& forall|p: int, c: int| #[trigger] before.is_child(p, c) ==> s.is_child(p, c)
            &&& forall|p: int, c: int| #[trigger] s.is_child(p, c) && p != path.last() ==> before.is_child(p, c)
            &&& forall|c: int| #[trigger] s.is_child(path.last(), c) <==> nb <= c < nb + 4
            &&& forall|p: int, c: int| #[trigger] s.is_child(p, c) ==> !(nb <= p < nb + 4)
            &&& set_int_range(nb, nb + 4).disjoint(before.live)
        }),
{
    let leaf = path.last();
    let s = before.split_at(leaf, now);
    let nb = before.next_block();
    lemma_path_node(before, Set::empty(), path, path.len() - 1);
    assert forall|i: int| nb <= i < nb + 4 implies !#[trigger] before.live.contains(i) by {
        if before.free.len() > 0 {
            assert(!before.live.contains(before.free[before.free.len() - 1] + (i - nb)));
        } else if before.live.contains(i) {
            assert(before.node_ok(i));
        }
    }
    assert forall|i: int| #[trigger] path.contains(i) implies before.live.contains(i) by {
        let k = choose|k: int| 0 <= k < path.len() && path[k] == i;
        lemma_path_node(before, Set::empty(), path, k);
    }
    assert forall|i: int| #[trigger] s.live.contains(i) implies 0 <= i < s.nodes.len() by {
        if before.live.contains(i) {
            assert(before.node_ok(i));
        }
    }
    assert forall|p: int, c: int| #[trigger] before.is_child(p, c) implies s.is_child(p, c) by {
        assert(before.node_ok(p));
        assert(p != leaf);
    }
    assert forall|p: int, c: int| #[trigger] s.is_child(p, c) && p != leaf implies before.is_child(p, c) by {
        if before.live.contains(p) {
            assert(before.node_ok(p));
        }
    }
    assert(set_int_range(nb, nb + 4).disjoint(before.live));
}

/// Splitting a leaf of the tree, as refining does, adds to the tree exactly the leaf's four new
/// children.
pub proof fn lemma_refine_grows_tree(before: TreeView, after: TreeView, path: Seq<int>, now: int, raise: bool)
    requires
        before.wf(),
        before.valid_path(path),
        before.is_leaf(path.last()),
        after.refined_from(before, path, now, raise),
    ensures
        after.tree_nodes() == before.tree_nodes() + set_int_range(before.next_block(), before.next_block() + 4),
        before.tree_nodes().finite(),
        after.tree_nodes().len() == before.tree_nodes().len() + 4,
{
    let leaf = path.last();
    let s = before.split_at(leaf, now);
    let nb = before.next_block();
    let added = set_int_range(nb, nb + 4);
    lemma_split_shape(before, path, now);
    lemma_same_shape(s, after);
    assert forall|q: Seq<int>| #[trigger] before.valid_path(q) implies after.valid_path(q) by {
        assert forall|k: int| 0 <= k < q.len() - 1 implies #[trigger] s.is_child(q[k], q[k + 1]) by {
            assert(before.is_child(q[k], q[k + 1]));
        }
        assert(s.valid_path(q));
    }
    assert forall|i: int| #[trigger] before.tree_nodes().contains(i) implies after.tree_nodes().contains(i) by {
        let q = choose|q: Seq<int>| #[trigger] before.node_path(before.root, q) && q.last() == i;
        assert(before.valid_path(q));
        assert(after.node_path(after.root, q));
    }
    assert forall|i: int| #[trigger] added.contains(i) implies after.tree_nodes().contains(i) by {
        let q = path.push(i);
        assert(after.valid_path(path));
        assert(s.valid_path(path));
        assert(s.is_child(leaf, i));
        assert forall|k: int| 0 <= k < q.len() - 1 implies #[trigger] s.is_child(q[k], q[k + 1]) by {
            if k < path.len() - 1 {
                assert(s.is_child(path[k], path[k + 1]));
            }
        }
        assert(s.valid_path(q));
        assert(after.node_path(after.root, q));
    }
    assert forall|i: int| #[trigger] after.tree_nodes().contains(i) implies before.tree_nodes().contains(i)
        || added.contains(i) by {
        let q = choose|q: Seq<int>| #[trigger] after.node_path(after.root, q) && q.last() == i;
        assert(after.valid_path(q));
        assert(s.valid_path(q));
        let n = q.len();
        if n >= 2 && q[n - 2] == leaf {
            let k = n - 2;
            assert(s.is_child(q[k], q[k + 1]));
        } else {
            assert forall|k: int| 0 <= k < q.len() - 1 implies #[trigger] before.is_child(q[k], q[k + 1]) by {
                assert(s.is_child(q[k], q[k + 1]));
                if q[k] == leaf {
                    // the next node is new, and a new node has no children
                    let j = k + 1;
                    assert(s.is_child(q[j], q[j + 1]));
                }
            }
            assert(before.node_path(before.root, q));
        }
    }
    assert(after.tree_nodes() =~= before.tree_nodes() + added);
    // the tree's nodes are live, so they lie in the arena
    assert(before.tree_nodes().subset_of(set_int_range(0, before.nodes.len() as int))) by {
        assert forall|i: int| #[trigger] before.tree_nodes().contains(i) implies 0 <= i < before.nodes.len() by {
            let q = choose|q: Seq<int>| #[trigger] before.node_path(before.root, q) && q.last() == i;
            assert(before.valid_path(q));
            lemma_path_node(before, Set::empty(), q, q.len() - 1);
        }
    }
    lemma_int_range(0, before.nodes.len() as int);
    lemma_len_subset(before.tree_nodes(), set_int_range(0, before.nodes.len() as int));
    lemma_int_range(nb, nb + 4);
    assert(before.tree_nodes().disjoint(added)) by {
        assert forall|i: int| #[trigger] before.tree_nodes().contains(i) implies !added.contains(i) by {
            let q = choose|q: Seq<int>| #[trigger] before.node_path(before.root, q) && q.last() == i;
            assert(before.valid_path(q));
            lemma_path_node(before, Set::empty(), q, q.len() - 1);
        }
    }
    lemma_set_disjoint_lens(before.tree_nodes(), added);
}

/// Two paths that end at the same node agree on their last `t + 1` nodes: a node has one parent.
proof fn lemma_paths_agree(tv: TreeView, p: Seq<int>, b: int, q: Seq<int>, t: int)
    requires
        tv.wf(),
        tv.valid_path(p),
        tv.block_path(b, q),
        p.last() == q.last(),
        0 <= t < p.len(),
        t < q.len(),
    ensures
        p[p.len() - 1 - t] == q[q.len() - 1 - t],
    decreases t,
{
    if t > 0 {
        lemma_paths_agree(tv, p, b, q, t - 1);
        let a = p.len() - 1 - t;
        let c = q.len() - 1 - t;
        assert(tv.is_child(p[a], p[a + 1]));
        assert(tv.is_child(q[c], q[c + 1]));
        lemma_unique_parent(tv, Set::empty(), p[a], q[c], p[a + 1]);
    }
}

/// Retiring removes from the tree exactly the retired block and everything below it.
pub proof fn lemma_retire_shrinks_tree(before: TreeView, after: TreeView, path: Seq<int>, now: int)
    requires
        before.wf(),
        before.valid_path(path),
        !before.is_leaf(path.last()),
        after.retired_from(before, path, now),
    ensures
        after.tree_nodes() == before.tree_nodes().difference(
            Set::new(|i: int| before.below_block(before.nodes[path.last()].children->0, i)),
        ),
{
    let x = path.last();
    let b = before.nodes[x].children->0;
    let s = before.pruned_at(x);
    let gone = Set::new(|i: int| before.below_block(b, i));
    lemma_path_node(before, Set::empty(), path, path.len() - 1);
    assert forall|i: int| #[trigger] s.live.contains(i) implies 0 <= i < s.nodes.len() by {
        assert(before.node_ok(i));
    }
    lemma_same_shape(s, after);
    assert forall|p: int, c: int| #[trigger] s.is_child(p, c) implies before.is_child(p, c) && p != x by {}
    // a path of the tree after retiring is one before, and reaches nothing below the block
    assert forall|i: int| #[trigger] after.tree_nodes().contains(i) implies before.tree_nodes().contains(i)
        && !gone.contains(i) by {
        let p = choose|p: Seq<int>| #[trigger] after.node_path(after.root, p) && p.last() == i;
        assert(after.valid_path(p));
        assert(s.valid_path(p));
        assert forall|k: int| 0 <= k < p.len() - 1 implies #[trigger] before.is_child(p[k], p[k + 1]) by {
            assert(s.is_child(p[k], p[k + 1]));
        }
        assert(before.valid_path(p));
        assert(before.node_path(before.root, p));
        if before.below_block(b, i) {
            let q = choose|q: Seq<int>| #[trigger] before.block_path(b, q) && q.last() == i;
            assert(before.node_ok(x));
            assert(before.is_child(x, q[0]));
            if q.len() <= p.len() - 1 {
                // the path would come to the block from the node that let go of it
                lemma_paths_agree(before, p, b, q, q.len() - 1);
                let a = p.len() - q.len() - 1;
                assert(s.is_child(p[a], p[a + 1]));
                lemma_unique_parent(before, Set::empty(), p[a], x, q[0]);
            } else {
                // the root would lie in or below the block
                lemma_paths_agree(before, p, b, q, p.len() - 1);
                let c = q.len() - p.len();
                if c == 0 {
                    lemma_same_block(b, before.root, before.root);
                } else {
                    let d = c - 1;
                    assert(before.is_child(q[d], q[d + 1]));
                    lemma_unique_parent(before, Set::empty(), q[d], q[d], before.root);
                }
            }
        }
    }
    // a path of the tree before that reaches nothing below the block does not pass the node
    // that let go of it
    assert forall|i: int| #[trigger] before.tree_nodes().contains(i) && !gone.contains(i) implies
        after.tree_nodes().contains(i) by {
        let p = choose|p: Seq<int>| #[trigger] before.node_path(before.root, p) && p.last() == i;
        assert(before.valid_path(p));
        assert forall|k: int| 0 <= k < p.len() - 1 implies #[trigger] s.is_child(p[k], p[k + 1]) by {
            assert(before.is_child(p[k], p[k + 1]));
            if p[k] == x {
                let r = p.subrange(k + 1, p.len() as int);
                assert forall|j: int| 0 <= j < r.len() - 1 implies #[trigger] before.is_child(r[j], r[j + 1]) by {
                    let m = j + k + 1;
                    assert(before.is_child(p[m], p[m + 1]));
                }
                assert(before.block_path(b, r));
                assert(gone.contains(i));
            }
        }
        assert(s.valid_path(p));
        assert(after.node_path(after.root, p));
    }
    assert(after.tree_nodes() =~= before.tree_nodes().difference(gone));
}

/// The distance by which samples are compared is the maximum norm of the difference: at least
/// the difference of the real parts and of the imaginary parts, and equal to one of them.
pub proof fn lemma_max_norm_distance(a: (int, int), b: (int, int))
    ensures
        max_norm_distance(a, b) >= a.0 - b.0,
        max_norm_distance(a, b) >= b.0 - a.0,
        max_norm_distance(a, b) >= a.1 - b.1,
        max_norm_distance(a, b) >= b.1 - a.1,
        max_norm_distance(a, b) == a.0 - b.0 || max_norm_distance(a, b) == b.0 - a.0
            || max_norm_distance(a, b) == a.1 - b.1 || max_norm_distance(a, b) == b.1 - a.1,
        max_norm_distance(a, b) == max_norm_distance(b, a),
        max_norm_distance(a, b) == 0 <==> a == b,
{
}

/// Of the nodes of `path` that offer a color, the sample picked is one closest to `t`: it lies
/// at the distance it reports, and no node offering a color lies closer.
pub proof fn lemma_closest_sample_is_closest(tv: TreeView, path: Seq<int>, t: (int, int), uncolored: Option<u32>)
    requires
        path.len() >= 1,
        tv.nodes[path[0]].color is Some,
    ensures
        ({
            let r = closest_sample(tv, path, t, uncolored);
            &&& exists|k: int| 0 <= k < path.len() && r.0 == max_norm_distance(t, tv.nodes[path[k]].dom.mid())
                && offered_color(#[trigger] tv.nodes[path[k]], uncolored) == Some(r.1)
            &&& forall|j: int| 0 <= j < path.len() && offered_color(#[trigger] tv.nodes[path[j]], uncolored) is Some
                ==> r.0 <= max_norm_distance(t, tv.nodes[path[j]].dom.mid())
        }),
    decreases path.len(),
{
    let r = closest_sample(tv, path, t, uncolored);
    if path.len() <= 1 {
        assert(offered_color(tv.nodes[path[0]], uncolored) == Some(r.1));
    } else {
        let q = path.drop_last();
        lemma_closest_sample_is_closest(tv, q, t, uncolored);
        let prev = closest_sample(tv, q, t, uncolored);
        let last = path.len() - 1;
        let n = tv.nodes[path[last]];
        let dist = max_norm_distance(t, n.dom.mid());
        if dist < prev.0 && offered_color(n, uncolored) is Some {
            assert(offered_color(tv.nodes[path[last]], uncolored) == Some(r.1));
            assert forall|j: int| 0 <= j < path.len() && offered_color(#[trigger] tv.nodes[path[j]], uncolored) is Some
                implies r.0 <= max_norm_distance(t, tv.nodes[path[j]].dom.mid()) by {
                if j < last {
                    assert(tv.nodes[q[j]] == tv.nodes[path[j]]);
                }
            }
        } else {
            let k = choose|k: int| 0 <= k < q.len() && prev.0 == max_norm_distance(t, tv.nodes[q[k]].dom.mid())
                && offered_color(#[trigger] tv.nodes[q[k]], uncolored) == Some(prev.1);
            assert(tv.nodes[q[k]] == tv.nodes[path[k]]);
            assert forall|j: int| 0 <= j < path.len() && offered_color(#[trigger] tv.nodes[path[j]], uncolored) is Some
                implies r.0 <= max_norm_distance(t, tv.nodes[path[j]].dom.mid()) by {
                if j < last {
                    assert(tv.nodes[q[j]] == tv.nodes[path[j]]);
                }
            }
        }
    }
}

/// The color offered for nodes without a sample: yellow when they are drawn, else none.
pub open spec fn uncolored_offer(draw_uncolored: bool) -> Option<u32> {
    if draw_uncolored { Some(pack_rgb(255, 255, 0)) } else { None::<u32> }
}

/// A pixel inside the default domain, not left unchanged, gets the color of a node on the way
/// down to the leaf under its center whose sample is closest to that center in the maximum norm:
/// no node on the way that offers a color lies closer.
pub proof fn lemma_pixel_color_is_closest(tv: TreeView, pixel: WindowView, since: int, draw_uncolored: bool)
    requires
        tv.nodes[tv.root].color is Some,
    ensures
        ({
            let t = ((pixel.real_hi + pixel.real_lo) / 2, (pixel.imag_hi + pixel.imag_lo) / 2);
            let path = tv.descent_to_leaf(tv.root, t, 0);
            let uncolored = uncolored_offer(draw_uncolored);
            default_domain().contains(t) && tv.pixel_color(pixel, since, draw_uncolored) is Some ==> {
                &&& exists|k: int| 0 <= k < path.len()
                    && #[trigger] offered_color(tv.nodes[path[k]], uncolored) == tv.pixel_color(pixel, since, draw_uncolored)
                    && forall|j: int| 0 <= j < path.len() && offered_color(#[trigger] tv.nodes[path[j]], uncolored) is Some
                        ==> max_norm_distance(t, tv.nodes[path[k]].dom.mid()) <= max_norm_distance(t, tv.nodes[path[j]].dom.mid())
            }
        }),
{
    let t = ((pixel.real_hi + pixel.real_lo) / 2, (pixel.imag_hi + pixel.imag_lo) / 2);
    let path = tv.descent_to_leaf(tv.root, t, 0);
    let uncolored = uncolored_offer(draw_uncolored);
    assert(path[0] == tv.root);
    if default_domain().contains(t) && tv.pixel_color(pixel, since, draw_uncolored) is Some {
        lemma_closest_sample_is_closest(tv, path, t, uncolored);
        let r = closest_sample(tv, path, t, uncolored);
        assert(tv.pixel_color(pixel, since, draw_uncolored) == Some(r.1));
        let k = choose|k: int| 0 <= k < path.len() && r.0 == max_norm_distance(t, tv.nodes[path[k]].dom.mid())
            && offered_color(#[trigger] tv.nodes[path[k]], uncolored) == Some(r.1);
        assert(offered_color(tv.nodes[path[k]], uncolored) == tv.pixel_color(pixel, since, draw_uncolored));
        assert forall|j: int| 0 <= j < path.len() && offered_color(#[trigger] tv.nodes[path[j]], uncolored) is Some
            implies max_norm_distance(t, tv.nodes[path[k]].dom.mid()) <= max_norm_distance(t, tv.nodes[path[j]].dom.mid()) by {}
        assert(0 <= k < path.len()
            && offered_color(tv.nodes[path[k]], uncolored) == tv.pixel_color(pixel, since, draw_uncolored)
            && forall|j: int| 0 <= j < path.len() && offered_color(#[trigger] tv.nodes[path[j]], uncolored) is Some
                ==> max_norm_distance(t, tv.nodes[path[k]].dom.mid()) <= max_norm_distance(t, tv.nodes[path[j]].dom.mid()));
    }
}

/// Inserting a sample changes the color of no node but the one centered where the sample was
/// taken: a node's color is only ever the sample of its own center.
pub proof fn lemma_insert_colors_only_the_center(tv: TreeView, t: (int, int), color: u32, now: int)
    ensures
        forall|i: int| 0 <= i < tv.nodes.len() && (#[trigger] tv.inserted(t, color, now).nodes[i]).color != tv.nodes[i].color
            ==> tv.nodes[i].dom.mid() == t && tv.inserted(t, color, now).nodes[i].color == Some(color),
        forall|i: int| 0 <= i < tv.nodes.len() ==> (#[trigger] tv.inserted(t, color, now).nodes[i]).dom == tv.nodes[i].dom
            && tv.inserted(t, color, now).nodes[i].children == tv.nodes[i].children,
{
}

/// The point at `x` of the horizontal segment from `real_lo` to `real_hi` at height `imag` lies in
/// the closed square.
pub open spec fn segment_point_in_square(d: DomainView, real_lo: int, real_hi: int, imag: int, x: int) -> bool {
    &&& real_lo <= x <= real_hi
    &&& d.real_lo() <= x <= d.real_hi()
    &&& d.imag_lo() <= imag <= d.imag_hi()
}

/// A square meets the horizontal segment from `real_lo` to `real_hi` at height `imag` exactly
/// when some point of the segment lies in the closed square.
pub proof fn lemma_meets_line_iff_common_point(d: DomainView, real_lo: int, real_hi: int, imag: int)
    requires
        real_lo <= real_hi,
    ensures
        meets_line(d, real_lo, real_hi, imag) <==> exists|x: int| #[trigger] segment_point_in_square(d, real_lo, real_hi, imag, x),
{
    if meets_line(d, real_lo, real_hi, imag) {
        let x = if real_lo < d.real_lo() { d.real_lo() } else { real_lo };
        assert(segment_point_in_square(d, real_lo, real_hi, imag, x));
    }
}

/// Walking down from the node at the end of a path from the root toward a point inside it ends at
/// a leaf whose square holds the point, and together with the path is a path from the root.
pub proof fn lemma_descent_to_leaf_path(tv: TreeView, p: Seq<int>, t: (int, int))
    requires
        tv.wf(),
        tv.valid_path(p),
        tv.nodes[p.last()].dom.contains(t),
    ensures
        ({
            let q = p.drop_last() + tv.descent_to_leaf(p.last(), t, p.len() - 1);
            &&& tv.valid_path(q)
            &&& tv.is_leaf(q.last())
            &&& tv.nodes[q.last()].dom.contains(t)
            &&& q.subrange(0, p.len() - 1) == p.drop_last()
        }),
    decreases 64 - p.len(),
{
    let i = p.last();
    let d = p.len() - 1;
    lemma_path_node(tv, Set::empty(), p, d);
    assert(d < 64);
    match tv.nodes[i].children {
        None => {
            assert(tv.descent_to_leaf(i, t, d) == seq![i]);
            assert(p.drop_last() + seq![i] =~= p);
        },
        Some(b) => {
            let dom = tv.nodes[i].dom;
            assert(tv.node_ok(i));
            lemma_split_partitions(dom, t);
            let k = dom.quadrant(t);
            let c = b + k;
            assert(tv.nodes[b + k].dom == dom.child(k));
            assert(tv.is_child(i, c));
            let p2 = p.push(c);
            assert forall|j: int| 0 <= j < p2.len() - 1 implies #[trigger] tv.is_child(p2[j], p2[j + 1]) by {
                if j < p.len() - 1 {
                    assert(tv.is_child(p[j], p[j + 1]));
                }
            }
            assert(tv.valid_path(p2));
            lemma_descent_to_leaf_path(tv, p2, t);
            assert(tv.descent_to_leaf(i, t, d) == seq![i] + tv.descent_to_leaf(c, t, d + 1));
            assert(p2.drop_last() =~= p);
            assert(p.drop_last() + (seq![i] + tv.descent_to_leaf(c, t, d + 1)) =~= p + tv.descent_to_leaf(c, t, d + 1));
            let q2 = p + tv.descent_to_leaf(c, t, d + 1);
            assert(q2.subrange(0, p.len() - 1) =~= p.drop_last()) by {
                assert(q2.subrange(0, p.len() as int) =~= p);
            }
        },
    }
}

/// If the leaf under some point of a horizontal segment, and every node on the way down to it,
/// changed since `since`, some leaf meeting the segment is stale: a change anywhere on the segment
/// shows, not only at its ends.
pub proof fn lemma_stale_point_on_line(tv: TreeView, real_lo: int, real_hi: int, imag: int, since: int, x: int)
    requires
        tv.wf(),
        real_lo <= x <= real_hi,
        default_domain().contains((x, imag)),
        forall|k: int| 0 <= k < tv.descent_to_leaf(tv.root, (x, imag), 0).len()
            ==> #[trigger] tv.nodes[tv.descent_to_leaf(tv.root, (x, imag), 0)[k]].timestamp >= since,
    ensures
        exists|p: Seq<int>| #[trigger] tv.is_stale_on_line(p, real_lo, real_hi, imag, since),
{
    let t = (x, imag);
    let p0 = seq![tv.root];
    assert(tv.valid_path(p0));
    lemma_descent_to_leaf_path(tv, p0, t);
    let q = p0.drop_last() + tv.descent_to_leaf(tv.root, t, 0);
    assert(p0.drop_last() =~= Seq::<int>::empty());
    assert(q =~= tv.descent_to_leaf(tv.root, t, 0));
    let d = tv.nodes[q.last()].dom;
    assert(meets_line(d, real_lo, real_hi, imag));
    assert(tv.is_stale_on_line(q, real_lo, real_hi, imag, since));
}

} // verus!
