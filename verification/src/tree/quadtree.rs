//! A full quadtree over the default domain: every node has zero or four children,
//! and the children of a node are the four quadrants of its domain.
//! Nodes live in an arena and are handed out four at a time, as blocks of siblings.
use vstd::prelude::*;
use vstd::arithmetic::power2::{pow2, lemma_pow2_pos, lemma_pow2_adds, lemma2_to64, lemma2_to64_rest};
use crate::complex::fixed::{Fixed, Real, Imag, fits_i64, mul_floor, lemma_pow2_le};
use crate::complex::domain::{Domain, DomainView, Offset, default_domain, lemma_child_inside,
    lemma_split_partitions, lemma_inner_point_not_center};
use crate::complex::window::{Window, WindowView, window_of_domain};
use crate::tree::handle::{NodeHandle, BlockHandle, block_index_ok, lemma_block_view_injective};
use crate::tree::moment::RenderMoment;
use crate::tree::rgb::Rgb;

mod count;
pub mod laws;

verus! {

broadcast use lemma_block_view_injective;

/// The abstract state of a node.
#[verifier::ext_equal]
pub ghost struct NodeView {
    /// The square the node covers; its color is sampled at the center.
    pub dom: DomainView,
    /// The first of the four children, if the node is not a leaf.
    pub children: Option<int>,
    /// The packed color of the sample, if it has been taken.
    pub color: Option<u32>,
    /// The distance to the closest descendant leaf.
    pub min_height: int,
    /// The distance to the farthest descendant leaf.
    pub max_height: int,
    /// The last moment the color of the node or of a descendant changed.
    pub timestamp: int,
}

/// A node of the tree.
#[derive(Clone, Copy, Debug)]
pub struct Node {
    pub dom: Domain,
    pub children: Option<BlockHandle>,
    pub color: Option<Rgb>,
    pub min_height: u16,
    pub max_height: u16,
    pub timestamp: RenderMoment,
}

impl View for Node {
    type V = NodeView;

    open spec fn view(&self) -> NodeView {
        NodeView {
            dom: self.dom@,
            children: match self.children {
                Some(b) => Some(b@),
                None => None,
            },
            color: match self.color {
                Some(c) => Some(c.0),
                None => None,
            },
            min_height: self.min_height as int,
            max_height: self.max_height as int,
            timestamp: self.timestamp.0 as int,
        }
    }
}

/// The height recorded in a node that holds nothing.
pub const UNINIT_HEIGHT: u16 = 0xABCD;

/// An uncolored leaf over `dom`, stamped `now`.
pub open spec fn new_leaf(dom: DomainView, now: int) -> NodeView {
    NodeView { dom, children: None, color: None, min_height: 0, max_height: 0, timestamp: now }
}

/// The placeholders a node that holds nothing is filled with.
pub open spec fn uninit_node() -> NodeView {
    NodeView {
        dom: DomainView { real_mid: 0, imag_mid: 0, rad: 0 },
        children: Some(0xABCD_EFA8),
        color: Some(0xABCD_EFAB),
        min_height: UNINIT_HEIGHT as int,
        max_height: UNINIT_HEIGHT as int,
        timestamp: -987123,
    }
}

/// The closed square meets the horizontal segment from `real_lo` to `real_hi` at height `imag`.
pub open spec fn meets_line(d: DomainView, real_lo: int, real_hi: int, imag: int) -> bool {
    &&& d.imag_lo() <= imag <= d.imag_hi()
    &&& d.real_lo() <= real_hi
    &&& real_lo <= d.real_hi()
}

/// The node with its timestamp raised to at least `now`.
pub open spec fn raised(n: NodeView, now: int) -> NodeView {
    NodeView {
        dom: n.dom,
        children: n.children,
        color: n.color,
        min_height: n.min_height,
        max_height: n.max_height,
        timestamp: if n.timestamp < now { now } else { n.timestamp },
    }
}

/// The node with the given color.
pub open spec fn colored(n: NodeView, color: u32) -> NodeView {
    NodeView {
        dom: n.dom,
        children: n.children,
        color: Some(color),
        min_height: n.min_height,
        max_height: n.max_height,
        timestamp: n.timestamp,
    }
}

impl Node {
    /// Raises the timestamp to `now` if it is older: `Ok` with the old timestamp if it was raised,
    /// `Err` with the current one if it was already at least `now`.
    pub fn update_timestamp(&mut self, now: RenderMoment) -> (r: Result<RenderMoment, RenderMoment>)
        ensures
            final(self)@ == raised(old(self)@, now.0 as int),
            old(self).timestamp.0 < now.0 ==> r == Ok::<RenderMoment, RenderMoment>(old(self).timestamp),
            old(self).timestamp.0 >= now.0 ==> r == Err::<RenderMoment, RenderMoment>(old(self).timestamp),
    {
        let cur = self.timestamp;
        if cur.0 >= now.0 {
            return Err(cur);
        }
        self.timestamp = now;
        Ok(cur)
    }

    /// A node that holds nothing, filled with recognizable placeholders.
    pub fn uninit() -> (r: Self)
        ensures
            r@ == uninit_node(),
    {
        Node {
            dom: Domain::uninit(),
            children: Some(BlockHandle::uninit()),
            color: Some(Rgb::uninit()),
            min_height: UNINIT_HEIGHT,
            max_height: UNINIT_HEIGHT,
            timestamp: RenderMoment::uninit(),
        }
    }
}

/// The abstract state of the tree.
#[verifier::ext_equal]
pub ghost struct TreeView {
    /// The arena.
    pub nodes: Seq<NodeView>,
    /// The position of the root.
    pub root: int,
    /// The positions of the nodes that hold data: those of the tree, and those of retired blocks
    /// that have not been freed.
    pub live: Set<int>,
    /// The blocks that are free for reuse.
    pub free: Seq<int>,
}

pub open spec fn min4(a: int, b: int, c: int, d: int) -> int {
    let ab = if a < b { a } else { b };
    let cd = if c < d { c } else { d };
    if ab < cd { ab } else { cd }
}

pub open spec fn max4(a: int, b: int, c: int, d: int) -> int {
    let ab = if a > b { a } else { b };
    let cd = if c > d { c } else { d };
    if ab > cd { ab } else { cd }
}

/// The greatest radius among the four nodes of the block at `b`.
pub open spec fn block_rad(tv: TreeView, b: int) -> int {
    max4(tv.nodes[b].dom.rad, tv.nodes[b + 1].dom.rad, tv.nodes[b + 2].dom.rad, tv.nodes[b + 3].dom.rad)
}

/// The blocks in and below the block at `b`, in the order freeing returns them to the free list:
/// the block itself, then the blocks below its last node, and so on to those below its first.
pub open spec fn block_walk(tv: TreeView, b: int) -> Seq<int>
    decreases block_rad(tv, b), 1int, 0int,
{
    seq![b] + children_walk(tv, b, 4)
}

/// The blocks below the first `k` nodes of the block at `b`, those of the later nodes first.
/// A block is below a node only if its nodes are smaller, as they are in a tree.
pub open spec fn children_walk(tv: TreeView, b: int, k: int) -> Seq<int>
    decreases block_rad(tv, b), 0int, k,
{
    if k <= 0 {
        seq![]
    } else {
        let rest = children_walk(tv, b, k - 1);
        match tv.nodes[b + k - 1].children {
            Some(c) => if 0 <= block_rad(tv, c) < block_rad(tv, b) {
                block_walk(tv, c) + rest
            } else {
                rest
            },
            None => rest,
        }
    }
}

impl TreeView {
    pub open spec fn node(self, i: int) -> NodeView {
        self.nodes[i]
    }

    pub open spec fn is_leaf(self, i: int) -> bool {
        self.nodes[i].children is None
    }

    /// `c` is one of the four children of the live node `p`.
    pub open spec fn is_child(self, p: int, c: int) -> bool {
        &&& self.live.contains(p)
        &&& self.nodes[p].children matches Some(b) && b <= c < b + 4
    }

    /// The heights a node should record, given its children.
    pub open spec fn heights_ok(self, i: int) -> bool {
        match self.nodes[i].children {
            None => self.nodes[i].min_height == 0 && self.nodes[i].max_height == 0,
            Some(b) => {
                &&& self.nodes[i].min_height == 1 + min4(
                    self.nodes[b].min_height,
                    self.nodes[b + 1].min_height,
                    self.nodes[b + 2].min_height,
                    self.nodes[b + 3].min_height,
                )
                &&& self.nodes[i].max_height == 1 + max4(
                    self.nodes[b].max_height,
                    self.nodes[b + 1].max_height,
                    self.nodes[b + 2].max_height,
                    self.nodes[b + 3].max_height,
                )
            },
        }
    }

    /// The structural facts every live node keeps: its domain is well-formed, its children
    /// (if any) are live, aligned, and cover its four quadrants, and its heights are bounded
    /// by its size.
    pub open spec fn node_ok(self, i: int) -> bool {
        &&& 0 <= i < self.nodes.len()
        &&& self.nodes[i].dom.wf()
        &&& default_domain().contains_domain(self.nodes[i].dom)
        &&& 0 <= self.nodes[i].min_height <= self.nodes[i].max_height
        &&& pow2(self.nodes[i].max_height as nat) <= self.nodes[i].dom.rad
        &&& self.nodes[i].children matches Some(b) ==> {
            &&& block_index_ok(b)
            &&& b + 4 <= self.nodes.len()
            &&& self.nodes[i].dom.can_split()
            &&& forall|k: int| 0 <= k < 4 ==> #[trigger] self.live.contains(b + k)
            &&& forall|k: int| 0 <= k < 4 ==> #[trigger] self.nodes[b + k].dom == self.nodes[i].dom.child(k)
        }
    }

    /// The well-formedness of the tree, except for the heights of the nodes in `stale`.
    pub open spec fn wf_except(self, stale: Set<int>) -> bool {
        &&& 0 <= self.root < self.nodes.len()
        &&& self.root % 4 == 0
        &&& self.nodes.len() % 4 == 0
        &&& self.live.contains(self.root)
        &&& self.nodes[self.root].dom == default_domain()
        &&& forall|i: int| #[trigger] self.live.contains(i) ==> self.node_ok(i)
        &&& forall|i: int| #[trigger] self.live.contains(i) && !stale.contains(i) ==> self.heights_ok(i)
        // each block is the children of at most one node, and never of the root's block
        &&& forall|i: int, j: int|
            #![trigger self.live.contains(i), self.live.contains(j)]
            self.live.contains(i) && self.live.contains(j) && self.nodes[i].children is Some
                && self.nodes[i].children == self.nodes[j].children ==> i == j
        &&& forall|i: int| #[trigger] self.live.contains(i) ==> self.nodes[i].children != Some(self.root)
        // the free blocks hold no live node and appear once each
        &&& forall|x: int| 0 <= x < self.free.len() ==> {
            &&& block_index_ok(#[trigger] self.free[x])
            &&& self.free[x] + 4 <= self.nodes.len()
        }
        &&& forall|x: int, k: int|
            0 <= x < self.free.len() && 0 <= k < 4 ==> !#[trigger] self.live.contains(self.free[x] + k)
        &&& forall|x: int, y: int| 0 <= x < y < self.free.len() ==> self.free[x] != self.free[y]
    }

    /// The well-formedness of the tree.
    pub open spec fn wf(self) -> bool {
        self.wf_except(Set::empty())
    }

    /// `path` starts at the root and goes from each node to one of its children.
    pub open spec fn valid_path(self, path: Seq<int>) -> bool {
        &&& path.len() >= 1
        &&& path[0] == self.root
        &&& forall|k: int| 0 <= k < path.len() - 1 ==> #[trigger] self.is_child(path[k], path[k + 1])
    }

    /// The node `i` is in the tree at depth `d`.
    pub open spec fn reachable_at(self, i: int, d: int) -> bool {
        exists|path: Seq<int>| #[trigger] self.valid_path(path) && path.len() == d + 1 && path.last() == i
    }

    /// The node `i` is in the tree.
    pub open spec fn in_tree(self, i: int) -> bool {
        exists|d: int| #[trigger] self.reachable_at(i, d)
    }

    /// The nodes visited when walking down from node `i` (at depth `d`) toward the point `t`:
    /// the walk stops at the node centered at `t`, or at a leaf.
    pub open spec fn descent_from(self, i: int, t: (int, int), d: int) -> Seq<int>
        decreases 64 - d,
    {
        if d >= 64 || self.nodes[i].dom.mid() == t {
            seq![i]
        } else {
            match self.nodes[i].children {
                None => seq![i],
                Some(b) => seq![i] + self.descent_from(b + self.nodes[i].dom.quadrant(t), t, d + 1),
            }
        }
    }

    /// The nodes visited when walking down from the root toward the point `t`.
    pub open spec fn descent(self, t: (int, int)) -> Seq<int> {
        self.descent_from(self.root, t, 0)
    }

    /// The tree after walking down toward `t`, raising the timestamp of every node visited to at
    /// least `now`, and giving the node centered at `t`, if the walk reaches it, the color `color`.
    pub open spec fn inserted(self, t: (int, int), color: u32, now: int) -> TreeView {
        let path = self.descent(t);
        let last = path.last();
        TreeView {
            nodes: Seq::new(
                self.nodes.len(),
                |i: int|
                    {
                        let n = if path.contains(i) { raised(self.nodes[i], now) } else { self.nodes[i] };
                        if i == last && self.nodes[last].dom.mid() == t { colored(n, color) } else { n }
                    },
            ),
            root: self.root,
            live: self.live,
            free: self.free,
        }
    }

    /// The nodes visited when walking down from node `i` (at depth `d`) toward the point `t`
    /// until a leaf.
    pub open spec fn descent_to_leaf(self, i: int, t: (int, int), d: int) -> Seq<int>
        decreases 64 - d,
    {
        if d >= 64 {
            seq![i]
        } else {
            match self.nodes[i].children {
                None => seq![i],
                Some(b) => seq![i] + self.descent_to_leaf(b + self.nodes[i].dom.quadrant(t), t, d + 1),
            }
        }
    }

    /// `path` leads from the root to a leaf that overlaps the window.
    pub open spec fn is_candidate(self, w: WindowView, path: Seq<int>) -> bool {
        &&& self.valid_path(path)
        &&& self.is_leaf(path.last())
        &&& w.overlaps(window_of_domain(self.nodes[path.last()].dom))
    }

    /// The block the next split takes: the most recently freed one, or else four new nodes
    /// at the end of the arena.
    pub open spec fn next_block(self) -> int {
        if self.free.len() > 0 {
            self.free.last()
        } else {
            self.nodes.len() as int
        }
    }

    /// The tree after the leaf `leaf` is split: its children become the next block, four
    /// uncolored leaves covering its quadrants in order and stamped `now`. The heights are
    /// left as they were.
    pub open spec fn split_at(self, leaf: int, now: int) -> TreeView {
        let b = self.next_block();
        let len = if self.free.len() > 0 { self.nodes.len() } else { self.nodes.len() + 4 };
        TreeView {
            nodes: Seq::new(
                len as nat,
                |i: int|
                    if i == leaf {
                        NodeView { children: Some(b), ..self.nodes[leaf] }
                    } else if b <= i < b + 4 {
                        new_leaf(self.nodes[leaf].dom.child(i - b), now)
                    } else {
                        self.nodes[i]
                    },
            ),
            root: self.root,
            live: self.live.union(Set::new(|i: int| b <= i < b + 4)),
            free: if self.free.len() > 0 { self.free.drop_last() } else { self.free },
        }
    }

    /// `self` is `before` after freeing the detached block at `b`: the nodes in the block and
    /// below it are filled with placeholders and leave the live set, the others stay as they were,
    /// the free list gains the block of each freed node, in the order of `block_walk`, and every
    /// other detached block stays detached.
    pub open spec fn freed_from(self, before: TreeView, b: int) -> bool {
        &&& self.root == before.root
        &&& self.nodes.len() == before.nodes.len()
        &&& forall|i: int| #[trigger] self.live.contains(i) <==> before.live.contains(i) && !before.below_block(b, i)
        &&& forall|i: int| #[trigger] self.live.contains(i) ==> self.nodes[i] == before.nodes[i]
        &&& forall|i: int| before.live.contains(i) && #[trigger] before.below_block(b, i) ==> self.nodes[i] == uninit_node()
        &&& self.free.subrange(0, before.free.len() as int) == before.free
        &&& forall|x: int| before.free.len() <= x < self.free.len() ==> {
            &&& before.live.contains(#[trigger] self.free[x])
            &&& before.below_block(b, self.free[x])
        }
        &&& forall|i: int| before.live.contains(i) && #[trigger] before.below_block(b, i) ==> exists|x: int|
            before.free.len() <= x < self.free.len() && #[trigger] self.free[x] == i - i % 4
        &&& forall|d: int| #[trigger] before.is_detached(d) && d != b ==> self.is_detached(d)
        &&& self.free == before.free + block_walk(before, b)
    }

    /// `self` is `before` after retiring at depth `depth` (see `Tree::retire`), which returned
    /// `b`: the children of the node at the end of the retirable path the walk meets first.
    pub open spec fn retire_outcome(self, before: TreeView, depth: int, now: int, b: Option<int>) -> bool {
        &&& b is None ==> self == before
        &&& b is None ==> forall|q: Seq<int>| !#[trigger] before.is_retirable(depth, q)
        &&& b matches Some(b) ==> exists|p: Seq<int>| {
            &&& #[trigger] before.is_retirable(depth, p)
            &&& forall|q: Seq<int>| #[trigger] before.is_retirable(depth, q) && q != p ==> walks_before(p, q)
            &&& before.nodes[p.last()].children == Some(b)
            &&& self.retired_from(before, p, now)
            &&& self.is_detached(b)
        }
    }

    /// `self` is `before` after refining (see `Tree::refine`) for the window `w` with the depth
    /// bound `bound`, which returned the centers `mids`: the leaf split is the one at the end of
    /// the refinable path the walk meets first.
    pub open spec fn refine_outcome(self, before: TreeView, w: WindowView, bound: int, now: int, raise: bool, mids: Option<Seq<(int, int)>>) -> bool {
        &&& mids is None ==> self == before
        &&& mids is None ==> forall|q: Seq<int>| !#[trigger] before.is_refinable(w, bound, q)
        &&& mids matches Some(m) ==> exists|p: Seq<int>| {
            &&& #[trigger] before.is_refinable(w, bound, p)
            &&& forall|q: Seq<int>| #[trigger] before.is_refinable(w, bound, q) && q != p ==> walks_before(p, q)
            &&& self.refined_from(before, p, now, raise)
            &&& m.len() == 4
            &&& forall|k: int| 0 <= k < 4 ==> #[trigger] m[k] == before.nodes[p.last()].dom.child(k).mid()
        }
    }

    /// `path` starts at the node `h` and goes from each node to one of its children.
    pub open spec fn node_path(self, h: int, path: Seq<int>) -> bool {
        &&& path.len() >= 1
        &&& path[0] == h
        &&& forall|k: int| 0 <= k < path.len() - 1 ==> #[trigger] self.is_child(path[k], path[k + 1])
    }

    /// The node `i` is the node `h` or lies below it.
    pub open spec fn below_node(self, h: int, i: int) -> bool {
        exists|path: Seq<int>| #[trigger] self.node_path(h, path) && path.last() == i
    }

    /// The nodes of the tree: the root and everything below it.
    pub open spec fn tree_nodes(self) -> Set<int> {
        Set::new(|i: int| self.below_node(self.root, i))
    }

    /// `path` starts in the block at `b` and goes from each node to one of its children.
    pub open spec fn block_path(self, b: int, path: Seq<int>) -> bool {
        &&& path.len() >= 1
        &&& b <= path[0] < b + 4
        &&& forall|k: int| 0 <= k < path.len() - 1 ==> #[trigger] self.is_child(path[k], path[k + 1])
    }

    /// The node `i` lies in the block at `b` or below it.
    pub open spec fn below_block(self, b: int, i: int) -> bool {
        exists|path: Seq<int>| #[trigger] self.block_path(b, path) && path.last() == i
    }

    /// `path` leads from the root to a leaf whose closed square meets the horizontal segment from
    /// `real_lo` to `real_hi` at height `imag`, and no node on it is older than `since`.
    pub open spec fn is_stale_on_line(self, path: Seq<int>, real_lo: int, real_hi: int, imag: int, since: int) -> bool {
        &&& self.valid_path(path)
        &&& self.is_leaf(path.last())
        &&& meets_line(self.nodes[path.last()].dom, real_lo, real_hi, imag)
        &&& forall|k: int| 0 <= k < path.len() ==> #[trigger] self.nodes[path[k]].timestamp >= since
    }

    /// `path` leads to a node at depth `depth` that has children, whose block retiring may take.
    pub open spec fn is_retirable(self, depth: int, path: Seq<int>) -> bool {
        &&& self.valid_path(path)
        &&& path.len() - 1 == depth
        &&& !self.is_leaf(path.last())
    }

    /// `path` leads to a leaf that refining may split: one of the shallowest leaves that overlap
    /// the window, shallower than `bound`, and splittable.
    pub open spec fn is_refinable(self, w: WindowView, bound: int, path: Seq<int>) -> bool {
        &&& self.is_candidate(w, path)
        &&& path.len() - 1 < bound
        &&& forall|q: Seq<int>| #[trigger] self.is_candidate(w, q) ==> q.len() >= path.len()
        &&& self.nodes[path.last()].dom.can_split()
    }

    /// `self` is `before` with the leaf at the end of `path` split (see `split_at`), its heights
    /// brought up to date, and, if `raise` is set, the timestamps on the path raised to `now`.
    pub open spec fn refined_from(self, before: TreeView, path: Seq<int>, now: int, raise: bool) -> bool {
        self.settled_from(before.split_at(path.last(), now), path, now, raise)
    }

    /// `self` is `before` with the node at the end of `path` pruned (see `pruned_at`), its heights
    /// brought up to date, and the timestamps on the path raised to `now`.
    pub open spec fn retired_from(self, before: TreeView, path: Seq<int>, now: int) -> bool {
        self.settled_from(before.pruned_at(path.last()), path, now, true)
    }

    /// The tree after the node `i` lets go of its children and becomes a leaf; the block of its
    /// former children stays live, detached, until it is freed. The heights are left as they were.
    pub open spec fn pruned_at(self, i: int) -> TreeView {
        TreeView { nodes: self.nodes.update(i, NodeView { children: None, ..self.nodes[i] }), ..self }
    }

    /// The block at `b` is live but hangs from no live node, as a retired block does until it is
    /// freed.
    pub open spec fn is_detached(self, b: int) -> bool {
        &&& block_index_ok(b)
        &&& b + 4 <= self.nodes.len()
        &&& b != self.root
        &&& forall|k: int| 0 <= k < 4 ==> #[trigger] self.live.contains(b + k)
        &&& forall|i: int| #[trigger] self.live.contains(i) ==> self.nodes[i].children != Some(b)
    }

    /// `self` is `s` with the heights on `path` brought up to date, and, if `raise` is set, the
    /// timestamps on the path raised to `now`.
    pub open spec fn settled_from(self, s: TreeView, path: Seq<int>, now: int, raise: bool) -> bool {
        &&& self.wf()
        &&& self.nodes.len() == s.nodes.len()
        &&& self.root == s.root
        &&& self.live == s.live
        &&& self.free == s.free
        &&& forall|i: int| 0 <= i < s.nodes.len() ==> {
            &&& (#[trigger] self.nodes[i]).dom == s.nodes[i].dom
            &&& self.nodes[i].children == s.nodes[i].children
            &&& self.nodes[i].color == s.nodes[i].color
            &&& self.nodes[i].timestamp == (if raise && path.contains(i) {
                raised(s.nodes[i], now).timestamp
            } else {
                s.nodes[i].timestamp
            })
            &&& !path.contains(i) ==> self.nodes[i].min_height == s.nodes[i].min_height
                && self.nodes[i].max_height == s.nodes[i].max_height
        }
    }

    /// The color to draw for the pixel (see `Tree::color_of_pixel`), as a packed color, or `None`
    /// if a node on the way to the leaf containing the pixel's center is older than `since`.
    pub open spec fn pixel_color(self, pixel: WindowView, since: int, draw_uncolored: bool) -> Option<u32> {
        let t = ((pixel.real_hi + pixel.real_lo) / 2, (pixel.imag_hi + pixel.imag_lo) / 2);
        let path = self.descent_to_leaf(self.root, t, 0);
        let uncolored = if draw_uncolored { Some(crate::tree::rgb::pack_rgb(255, 255, 0)) } else { None::<u32> };
        if !default_domain().contains(t) {
            Some(crate::tree::rgb::pack_rgb(255, 255, 255))
        } else if exists|k: int| 0 <= k < path.len() && #[trigger] self.nodes[path[k]].timestamp < since {
            None
        } else {
            Some(closest_sample(self, path, t, uncolored).1)
        }
    }

    /// Each parent's timestamp is at least each of its children's.
    pub open spec fn timestamps_ok(self) -> bool {
        forall|p: int, c: int| #[trigger] self.is_child(p, c) ==> self.nodes[c].timestamp <= self.nodes[p].timestamp
    }
}

/// Facts about a node on a path from the root: it is live, and its radius is the root's
/// halved once per level; the path is at most 61 nodes long.
pub proof fn lemma_path_node(tv: TreeView, stale: Set<int>, path: Seq<int>, k: int)
    requires
        tv.wf_except(stale),
        tv.valid_path(path),
        0 <= k < path.len(),
    ensures
        tv.live.contains(path[k]),
        tv.node_ok(path[k]),
        tv.nodes[path[k]].dom.rad * pow2(k as nat) == pow2(60),
        k <= 60,
    decreases k,
{
    if k == 0 {
        lemma2_to64();
        lemma2_to64_rest();
        assert(tv.nodes[path[0]].dom.rad == 4 * pow2(58));
        assert(pow2(0) == 1);
        assert(tv.live.contains(tv.root));
    } else {
        lemma_path_node(tv, stale, path, k - 1);
        lemma_path_step(tv, stale, path, k - 1);
        let p = path[k - 1];
        let r = tv.nodes[p].dom.rad;
        let rn = tv.nodes[path[k]].dom.rad;
        vstd::arithmetic::power2::lemma_pow2_unfold(k as nat);
        assert(rn * pow2(k as nat) == pow2(60)) by (nonlinear_arith)
            requires
                rn * 2 == r,
                pow2(k as nat) == 2 * pow2((k - 1) as nat),
                r * pow2((k - 1) as nat) == pow2(60),
        ;
        if k > 60 {
            vstd::arithmetic::power2::lemma_pow2_strictly_increases(60, k as nat);
            assert(rn * pow2(k as nat) > pow2(60)) by (nonlinear_arith)
                requires
                    rn >= 1,
                    pow2(k as nat) > pow2(60),
            ;
        }
    }
}

/// A step of a path from the root goes from a live node to the child in the quadrant its
/// block position names.
pub proof fn lemma_path_step(tv: TreeView, stale: Set<int>, path: Seq<int>, k: int)
    requires
        tv.wf_except(stale),
        tv.valid_path(path),
        0 <= k < path.len() - 1,
        tv.live.contains(path[k]),
    ensures
        tv.nodes[path[k]].children matches Some(b) && b <= path[k + 1] < b + 4 && tv.nodes[path[k + 1]].dom
            == tv.nodes[path[k]].dom.child(path[k + 1] - b),
        tv.live.contains(path[k + 1]),
        tv.node_ok(path[k]),
        tv.node_ok(path[k + 1]),
        tv.nodes[path[k]].dom.can_split(),
{
    assert(tv.is_child(path[k], path[k + 1]));
    let p = path[k];
    assert(tv.node_ok(p));
    let b = tv.nodes[p].children->0;
    let o = path[k + 1] - b;
    assert(tv.nodes[b + o].dom == tv.nodes[p].dom.child(o));
    assert(tv.live.contains(b + o));
}

/// The domain of each node on a path contains the domains of the nodes after it.
pub proof fn lemma_path_nested(tv: TreeView, stale: Set<int>, path: Seq<int>, j: int, m: int)
    requires
        tv.wf_except(stale),
        tv.valid_path(path),
        0 <= j <= m < path.len(),
    ensures
        tv.nodes[path[j]].dom.contains_domain(tv.nodes[path[m]].dom),
    decreases m - j,
{
    if j < m {
        lemma_path_nested(tv, stale, path, j + 1, m);
        lemma_path_node(tv, stale, path, j);
        lemma_path_step(tv, stale, path, j);
        let p = path[j];
        let b = tv.nodes[p].children->0;
        lemma_child_inside(tv.nodes[p].dom, path[j + 1] - b);
    }
}

/// Walking down from the root toward the center of a node on a path retraces the path.
pub proof fn lemma_descent_follows_path(tv: TreeView, stale: Set<int>, path: Seq<int>, k: int)
    requires
        tv.wf_except(stale),
        tv.valid_path(path),
        0 <= k < path.len(),
    ensures
        tv.descent_from(path[k], tv.nodes[path.last()].dom.mid(), k) == path.subrange(k, path.len() as int),
    decreases path.len() - k,
{
    let t = tv.nodes[path.last()].dom.mid();
    let n = path.len() - 1;
    lemma_path_node(tv, stale, path, k);
    if k == n {
        assert(path.subrange(k, path.len() as int) =~= seq![path[k]]);
    } else {
        lemma_descent_follows_path(tv, stale, path, k + 1);
        lemma_path_step(tv, stale, path, k);
        lemma_path_node(tv, stale, path, n);
        let p = path[k];
        let b = tv.nodes[p].children->0;
        let o = path[k + 1] - b;
        lemma_path_nested(tv, stale, path, k + 1, n);
        lemma_inner_point_not_center(tv.nodes[p].dom, o, tv.nodes[path[n]].dom);
        assert(path.subrange(k, path.len() as int) =~= seq![p] + path.subrange(k + 1, path.len() as int));
    }
}

/// A node has at most one parent, and the root has none.
pub proof fn lemma_unique_parent(tv: TreeView, stale: Set<int>, p: int, q: int, c: int)
    requires
        tv.wf_except(stale),
        tv.is_child(p, c),
        tv.is_child(q, c),
    ensures
        p == q,
        c != tv.root,
{
    let bp = tv.nodes[p].children->0;
    let bq = tv.nodes[q].children->0;
    assert(tv.node_ok(p));
    assert(tv.node_ok(q));
    assert(bp == bq);
}

/// Changing only colors and timestamps keeps the structure: well-formedness, paths, and walks.
pub proof fn lemma_frame(a: TreeView, b: TreeView, stale: Set<int>)
    requires
        a.wf_except(stale),
        a.nodes.len() == b.nodes.len(),
        a.root == b.root,
        a.live == b.live,
        a.free == b.free,
        forall|i: int| 0 <= i < a.nodes.len() ==> {
            &&& (#[trigger] b.nodes[i]).dom == a.nodes[i].dom
            &&& b.nodes[i].children == a.nodes[i].children
            &&& b.nodes[i].min_height == a.nodes[i].min_height
            &&& b.nodes[i].max_height == a.nodes[i].max_height
        },
    ensures
        b.wf_except(stale),
        forall|p: int, c: int| #[trigger] b.is_child(p, c) == a.is_child(p, c),
        forall|path: Seq<int>| #[trigger] b.valid_path(path) == a.valid_path(path),
{
    assert forall|i: int| #[trigger] b.live.contains(i) implies b.node_ok(i) by {
        assert(a.node_ok(i));
        if a.nodes[i].children is Some {
            let bb = a.nodes[i].children->0;
            assert forall|k: int| 0 <= k < 4 implies #[trigger] b.nodes[bb + k].dom == b.nodes[i].dom.child(k) by {
                assert(a.nodes[bb + k].dom == a.nodes[i].dom.child(k));
            }
        }
    }
    assert forall|i: int| #[trigger] b.live.contains(i) && !stale.contains(i) implies b.heights_ok(i) by {
        assert(a.heights_ok(i));
        assert(a.node_ok(i));
        if a.nodes[i].children is Some {
            let bb = a.nodes[i].children->0;
            assert(b.nodes[bb] == b.nodes[bb]);
            assert(b.nodes[bb + 1] == b.nodes[bb + 1]);
            assert(b.nodes[bb + 2] == b.nodes[bb + 2]);
            assert(b.nodes[bb + 3] == b.nodes[bb + 3]);
        }
    }
    assert forall|p: int, c: int| #[trigger] b.is_child(p, c) == a.is_child(p, c) by {
        if a.live.contains(p) {
            assert(a.node_ok(p));
            assert(b.nodes[p] == b.nodes[p]);
        }
    }
    assert forall|path: Seq<int>| #[trigger] b.valid_path(path) == a.valid_path(path) by {
        if a.valid_path(path) {
            assert forall|k: int| 0 <= k < path.len() - 1 implies #[trigger] b.is_child(path[k], path[k + 1]) by {
                assert(a.is_child(path[k], path[k + 1]));
            }
        }
        if b.valid_path(path) {
            assert forall|k: int| 0 <= k < path.len() - 1 implies #[trigger] a.is_child(path[k], path[k + 1]) by {
                assert(b.is_child(path[k], path[k + 1]));
            }
        }
    }
}

/// Changing anything but the children and the live set keeps the parent relation and the paths.
pub proof fn lemma_same_shape(a: TreeView, b: TreeView)
    requires
        a.nodes.len() == b.nodes.len(),
        a.root == b.root,
        a.live == b.live,
        forall|i: int| #[trigger] a.live.contains(i) ==> 0 <= i < a.nodes.len(),
        forall|i: int| 0 <= i < a.nodes.len() ==> (#[trigger] b.nodes[i]).children == a.nodes[i].children,
    ensures
        forall|p: int, c: int| #[trigger] b.is_child(p, c) == a.is_child(p, c),
        forall|path: Seq<int>| #[trigger] b.valid_path(path) == a.valid_path(path),
{
    assert forall|p: int, c: int| #[trigger] b.is_child(p, c) == a.is_child(p, c) by {
        if a.live.contains(p) && 0 <= p < a.nodes.len() {
            assert(b.nodes[p].children == a.nodes[p].children);
        }
    }
    assert forall|path: Seq<int>| #[trigger] b.valid_path(path) == a.valid_path(path) by {
        if a.valid_path(path) {
            assert forall|k: int| 0 <= k < path.len() - 1 implies #[trigger] b.is_child(path[k], path[k + 1]) by {
                assert(a.is_child(path[k], path[k + 1]));
            }
        }
        if b.valid_path(path) {
            assert forall|k: int| 0 <= k < path.len() - 1 implies #[trigger] a.is_child(path[k], path[k + 1]) by {
                assert(b.is_child(path[k], path[k + 1]));
            }
        }
    }
}

/// The nodes of a path are distinct.
pub proof fn lemma_path_distinct(tv: TreeView, stale: Set<int>, path: Seq<int>, j: int, k: int)
    requires
        tv.wf_except(stale),
        tv.valid_path(path),
        0 <= j < k < path.len(),
    ensures
        path[j] != path[k],
{
    lemma_path_node(tv, stale, path, j);
    lemma_path_node(tv, stale, path, k);
    vstd::arithmetic::power2::lemma_pow2_strictly_increases(j as nat, k as nat);
    let r = tv.nodes[path[j]].dom.rad;
    if path[j] == path[k] {
        assert(r * pow2(j as nat) < r * pow2(k as nat)) by (nonlinear_arith)
            requires
                r > 0,
                pow2(j as nat) < pow2(k as nat),
        ;
    }
}

/// Walking down from a live node only steps from parents to their children.
pub proof fn lemma_descent_steps(tv: TreeView, stale: Set<int>, i: int, t: (int, int), d: int)
    requires
        tv.wf_except(stale),
        tv.live.contains(i),
    ensures
        tv.descent_from(i, t, d).len() >= 1,
        tv.descent_from(i, t, d)[0] == i,
        forall|k: int| 0 <= k < tv.descent_from(i, t, d).len() ==> #[trigger] tv.live.contains(tv.descent_from(i, t, d)[k]),
        forall|k: int| 0 <= k < tv.descent_from(i, t, d).len() - 1 ==> #[trigger] tv.is_child(tv.descent_from(i, t, d)[k], tv.descent_from(i, t, d)[k + 1]),
    decreases 64 - d,
{
    let s = tv.descent_from(i, t, d);
    if d >= 64 || tv.nodes[i].dom.mid() == t || tv.nodes[i].children is None {
    } else {
        let b = tv.nodes[i].children->0;
        let c = b + tv.nodes[i].dom.quadrant(t);
        assert(tv.node_ok(i));
        assert(tv.live.contains(b + tv.nodes[i].dom.quadrant(t)));
        lemma_descent_steps(tv, stale, c, t, d + 1);
        let r = tv.descent_from(c, t, d + 1);
        assert(s == seq![i] + r);
        assert forall|k: int| 0 <= k < s.len() implies #[trigger] tv.live.contains(s[k]) by {
            if k > 0 {
                assert(s[k] == r[k - 1]);
            }
        }
        let q = tv.nodes[i].dom.quadrant(t);
        assert(0 <= q < 4);
        assert forall|k: int| 0 <= k < s.len() - 1 implies #[trigger] tv.is_child(s[k], s[k + 1]) by {
            if k > 0 {
                let j = k - 1;
                assert(tv.is_child(r[j], r[j + 1]));
                assert(s[k] == r[j]);
                assert(s[k + 1] == r[j + 1]);
            } else {
                assert(s[1] == r[0]);
                assert(tv.is_child(i, c));
            }
        }
    }
}

/// Raising timestamps along a walk from the root keeps each parent's timestamp at least its children's.
pub proof fn lemma_raise_keeps_timestamps(tv: TreeView, t: (int, int), now: int, nodes: Seq<NodeView>)
    requires
        tv.wf(),
        tv.timestamps_ok(),
        nodes.len() == tv.nodes.len(),
        forall|i: int| 0 <= i < tv.nodes.len() ==> #[trigger] nodes[i] == (if tv.descent(t).contains(i) { raised(tv.nodes[i], now) } else { tv.nodes[i] }) || (
            nodes[i] == colored(raised(tv.nodes[i], now), nodes[i].color->0) && tv.descent(t).contains(i)),
    ensures
        (TreeView { nodes, ..tv }).timestamps_ok(),
{
    let path = tv.descent(t);
    let tw = TreeView { nodes, ..tv };
    lemma_descent_steps(tv, Set::empty(), tv.root, t, 0);
    assert forall|p: int, c: int| #[trigger] tw.is_child(p, c) implies tw.nodes[c].timestamp <= tw.nodes[p].timestamp by {
        assert(tv.is_child(p, c));
        assert(tv.nodes[c].timestamp <= tv.nodes[p].timestamp);
        if path.contains(c) {
            let k = choose|k: int| 0 <= k < path.len() && path[k] == c;
            if k == 0 {
                lemma_unique_parent(tv, Set::empty(), p, p, c);
            } else {
                let j = k - 1;
                assert(tv.is_child(path[j], path[j + 1]));
                lemma_unique_parent(tv, Set::empty(), p, path[j], c);
                assert(path.contains(p));
            }
        }
    }
}

/// The distance between two points in the maximum norm.
pub open spec fn max_norm_distance(a: (int, int), b: (int, int)) -> int {
    let dr = if a.0 - b.0 < 0 { b.0 - a.0 } else { a.0 - b.0 };
    let di = if a.1 - b.1 < 0 { b.1 - a.1 } else { a.1 - b.1 };
    if dr > di { dr } else { di }
}

/// The color a node offers for drawing: its own, or the placeholder for uncolored nodes.
pub open spec fn offered_color(n: NodeView, uncolored: Option<u32>) -> Option<u32> {
    match n.color {
        Some(c) => Some(c),
        None => uncolored,
    }
}

/// The sample closest to `t` among the nodes of `path` (which must start at a colored node),
/// as (distance, color); on a tie the earlier node wins.
pub open spec fn closest_sample(tv: TreeView, path: Seq<int>, t: (int, int), uncolored: Option<u32>) -> (int, u32)
    decreases path.len(),
{
    if path.len() <= 1 {
        (max_norm_distance(t, tv.nodes[path[0]].dom.mid()), tv.nodes[path[0]].color->0)
    } else {
        let prev = closest_sample(tv, path.drop_last(), t, uncolored);
        let n = tv.nodes[path.last()];
        let dist = max_norm_distance(t, n.dom.mid());
        if dist < prev.0 && offered_color(n, uncolored) is Some {
            (dist, offered_color(n, uncolored)->0)
        } else {
            prev
        }
    }
}

/// The radius of the nodes at depth `d` of the tree.
pub open spec fn rad_at_depth(d: int) -> int {
    pow2((60 - d) as nat) as int
}

/// The least depth from `d` on at which nodes have a radius of at most `rad`, or 60, the depth of
/// the smallest nodes, if none is that small.
pub open spec fn least_depth_for_rad(rad: int, d: int) -> int
    decreases 60 - d,
{
    if d >= 60 || rad_at_depth(d) <= rad {
        d
    } else {
        least_depth_for_rad(rad, d + 1)
    }
}

/// Bringing the heights up to date, then raising the timestamps on the walk toward the center of
/// the node at the end of `path`, which retraces the path, settles the tree.
proof fn lemma_settle_result(sv: TreeView, hv: TreeView, fv: TreeView, path: Seq<int>, now: int, raise: bool)
    requires
        hv.wf(),
        hv.nodes.len() == sv.nodes.len(),
        hv.live == sv.live,
        hv.root == sv.root,
        hv.free == sv.free,
        forall|i: int| 0 <= i < sv.nodes.len() ==> {
            &&& (#[trigger] hv.nodes[i]).dom == sv.nodes[i].dom
            &&& hv.nodes[i].children == sv.nodes[i].children
            &&& hv.nodes[i].color == sv.nodes[i].color
            &&& hv.nodes[i].timestamp == sv.nodes[i].timestamp
            &&& !path.contains(i) ==> hv.nodes[i] == sv.nodes[i]
        },
        hv.descent(hv.nodes[path.last()].dom.mid()) == path,
        raise ==> {
            &&& fv.wf()
            &&& fv.nodes == Seq::new(
                hv.nodes.len(),
                |i: int|
                    if hv.descent(hv.nodes[path.last()].dom.mid()).contains(i) {
                        raised(hv.nodes[i], now)
                    } else {
                        hv.nodes[i]
                    },
            )
            &&& fv.live == hv.live
            &&& fv.root == hv.root
            &&& fv.free == hv.free
        },
        !raise ==> fv == hv,
    ensures
        fv.settled_from(sv, path, now, raise),
{
    let sp = sv;
    assert forall|i: int| 0 <= i < sp.nodes.len() implies {
        &&& (#[trigger] fv.nodes[i]).dom == sp.nodes[i].dom
        &&& fv.nodes[i].children == sp.nodes[i].children
        &&& fv.nodes[i].color == sp.nodes[i].color
        &&& fv.nodes[i].timestamp == (if raise && path.contains(i) {
            raised(sp.nodes[i], now).timestamp
        } else {
            sp.nodes[i].timestamp
        })
        &&& !path.contains(i) ==> fv.nodes[i].min_height == sp.nodes[i].min_height
            && fv.nodes[i].max_height == sp.nodes[i].max_height
    } by {
        assert(hv.nodes[i].dom == sv.nodes[i].dom);
    }
}

/// Two aligned blocks that share a node are the same block.
pub proof fn lemma_aligned_blocks(a: int, b: int, i: int)
    requires
        block_index_ok(a),
        block_index_ok(b),
        a <= i < a + 4,
        b <= i < b + 4,
    ensures
        a == b,
{
}

/// The nodes of a detached block lie below no other detached block.
pub proof fn lemma_detached_apart(tv: TreeView, b: int, d: int, k: int)
    requires
        tv.wf(),
        tv.is_detached(b),
        tv.is_detached(d),
        d != b,
        0 <= k < 4,
    ensures
        !tv.below_block(b, d + k),
{
    if tv.below_block(b, d + k) {
        let path = choose|path: Seq<int>| #[trigger] tv.block_path(b, path) && path.last() == d + k;
        if path.len() == 1 {
            lemma_aligned_blocks(b, d, d + k);
        } else {
            let m = path.len() - 2;
            assert(tv.is_child(path[m], path[m + 1]));
            let p = path[m];
            assert(tv.node_ok(p));
            let c = tv.nodes[p].children->0;
            lemma_aligned_blocks(c, d, d + k);
        }
    }
}

/// The blocks freeing still has to return to the free list, when `stack` holds the blocks still
/// to free: those below the top one first.
spec fn stack_walk(tv: TreeView, stack: Seq<BlockHandle>) -> Seq<int>
    decreases stack.len(),
{
    if stack.len() == 0 {
        seq![]
    } else {
        block_walk(tv, stack.last()@) + stack_walk(tv, stack.drop_last())
    }
}

/// In a tree, the blocks below a node are smaller than the node's own block.
proof fn lemma_walk_shrinks(tv: TreeView, sb: int, k: int, c: int)
    requires
        tv.wf(),
        0 <= k < 4,
        forall|j: int| 0 <= j < 4 ==> #[trigger] tv.live.contains(sb + j),
        tv.nodes[sb + k].children == Some(c),
    ensures
        0 <= block_rad(tv, c) < block_rad(tv, sb),
        children_walk(tv, sb, k + 1) == block_walk(tv, c) + children_walk(tv, sb, k),
{
    assert(tv.live.contains(sb + k));
    assert(tv.node_ok(sb + k));
    let d = tv.nodes[sb + k].dom;
    assert(tv.nodes[c + 0].dom == d.child(0));
    assert(tv.nodes[c + 1].dom == d.child(1));
    assert(tv.nodes[c + 2].dom == d.child(2));
    assert(tv.nodes[c + 3].dom == d.child(3));
    assert(block_rad(tv, c) == d.rad / 2);
    assert(tv.nodes[sb + k].dom.rad <= block_rad(tv, sb));
    assert(sb + (k + 1) - 1 == sb + k);
}

/// What freeing the block `bb` from the tree `tv0` keeps while it walks down: `done` holds the
/// nodes freed so far, and `stack` the detached blocks still to free, below which lies every node
/// left to free.
spec fn free_inv(tv0: TreeView, bb: int, tv: TreeView, done: Set<int>, stack: Seq<BlockHandle>) -> bool {
    &&& tv0.wf()
    &&& tv0.is_detached(bb)
    &&& tv.wf()
    &&& tv.root == tv0.root
    &&& tv.nodes.len() == tv0.nodes.len()
    &&& tv.live.finite()
    &&& forall|i: int| #[trigger] tv.live.contains(i) <==> tv0.live.contains(i) && !done.contains(i)
    &&& forall|i: int| #[trigger] tv.live.contains(i) ==> tv.nodes[i] == tv0.nodes[i]
    &&& forall|i: int| #[trigger] done.contains(i) ==> {
        &&& tv.nodes[i] == uninit_node()
        &&& tv0.live.contains(i)
        &&& tv0.below_block(bb, i)
    }
    &&& forall|j: int, i: int|
        #![trigger done.contains(i), tv0.nodes[j]]
        done.contains(i) && tv0.live.contains(j) && tv0.nodes[j].children == Some(i - i % 4) ==> done.contains(j)
    &&& forall|x: int| 0 <= x < stack.len() ==> {
        &&& tv.is_detached(#[trigger] stack[x]@)
        &&& forall|k: int| 0 <= k < 4 ==> #[trigger] tv0.below_block(bb, stack[x]@ + k)
        &&& forall|j: int| #[trigger] tv0.live.contains(j) && tv0.nodes[j].children == Some(stack[x]@) ==> done.contains(j)
    }
    &&& forall|x: int, y: int| 0 <= x < y < stack.len() ==> stack[x]@ != stack[y]@
    &&& forall|i: int| tv0.live.contains(i) && #[trigger] tv0.below_block(bb, i) && !done.contains(i) ==>
        exists|x: int| 0 <= x < stack.len() && tv0.below_block(#[trigger] stack[x]@, i)
    &&& tv.free.len() >= tv0.free.len()
    &&& tv.free.subrange(0, tv0.free.len() as int) == tv0.free
    &&& forall|x: int| tv0.free.len() <= x < tv.free.len() ==> #[trigger] done.contains(tv.free[x])
    &&& forall|i: int| #[trigger] done.contains(i) ==> exists|x: int|
        tv0.free.len() <= x < tv.free.len() && #[trigger] tv.free[x] == i - i % 4
}

/// One step of freeing: the block `sb` on top of the stack is freed, and the children blocks of
/// its nodes, those `from` names in order, take its place.
#[verifier::spinoff_prover]
#[verifier::rlimit(50)]
proof fn lemma_free_step(
    tv0: TreeView,
    bb: int,
    cur: TreeView,
    nv: TreeView,
    sb: int,
    done: Set<int>,
    old_stack: Seq<BlockHandle>,
    pushed: Seq<BlockHandle>,
    from: Seq<int>,
)
    requires
        free_inv(tv0, bb, cur, done, old_stack),
        old_stack.len() > 0,
        old_stack.last()@ == sb,
        pushed.len() == old_stack.len() - 1 + from.len(),
        pushed.subrange(0, old_stack.len() - 1) == old_stack.drop_last(),
        forall|y: int| 0 <= y < from.len() ==> 0 <= #[trigger] from[y] < 4
            && cur.nodes[sb + from[y]].children == Some(pushed[old_stack.len() - 1 + y]@),
        forall|y: int, z: int| 0 <= y < z < from.len() ==> from[y] < from[z],
        forall|k: int| 0 <= k < 4 && (#[trigger] cur.nodes[sb + k]).children is Some ==> exists|y: int| 0 <= y < from.len() && from[y] == k,
        nv.nodes.len() == cur.nodes.len(),
        forall|i: int| 0 <= i < cur.nodes.len() ==> #[trigger] nv.nodes[i] == (if sb <= i < sb + 4 { uninit_node() } else { cur.nodes[i] }),
        nv.live == cur.live.remove(sb).remove(sb + 1).remove(sb + 2).remove(sb + 3),
        nv.root == cur.root,
        nv.free == cur.free.push(sb),
    ensures
        free_inv(tv0, bb, nv, done.union(Set::new(|i: int| sb <= i < sb + 4)), pushed),
        nv.live.len() < cur.live.len(),
{
    let nd = done.union(Set::new(|i: int| sb <= i < sb + 4));
    let n0 = old_stack.len() - 1;
    let top = n0;
    assert(old_stack[top]@ == sb);
    assert(cur.is_detached(sb));
    assert(forall|k: int| 0 <= k < 4 ==> #[trigger] tv0.below_block(bb, sb + k));
    // the freed nodes were live
    assert(cur.live.contains(sb) && cur.live.contains(sb + 1) && cur.live.contains(sb + 2) && cur.live.contains(sb + 3)) by {
        assert(cur.live.contains(sb + 0));
    }
    // the live set shrinks by the four nodes
    assert(nv.live.finite() && nv.live.len() == cur.live.len() - 4) by {
        let l1 = cur.live.remove(sb);
        let l2 = l1.remove(sb + 1);
        let l3 = l2.remove(sb + 2);
        assert(l1.len() == cur.live.len() - 1);
        assert(l2.len() == l1.len() - 1);
        assert(l3.len() == l2.len() - 1);
        assert(nv.live.len() == l3.len() - 1);
    }
    assert forall|i: int| #[trigger] nv.live.contains(i) <==> cur.live.contains(i) && !(sb <= i < sb + 4) by {}
    lemma_free_step_wf(cur, nv, sb);
    assert forall|i: int| #[trigger] nv.live.contains(i) <==> tv0.live.contains(i) && !nd.contains(i) by {}
    assert forall|i: int| #[trigger] nv.live.contains(i) implies nv.nodes[i] == tv0.nodes[i] by {
        assert(cur.node_ok(i));
    }
    assert forall|i: int| #[trigger] nd.contains(i) implies {
        &&& nv.nodes[i] == uninit_node()
        &&& tv0.live.contains(i)
        &&& tv0.below_block(bb, i)
    } by {
        if sb <= i < sb + 4 {
            assert(tv0.below_block(bb, sb + (i - sb)));
            assert(cur.live.contains(i));
        } else {
            assert(done.contains(i));
            assert(tv0.live.contains(i));
            assert(nv.nodes[i] == cur.nodes[i]);
        }
    }
    assert forall|j: int, i: int|
        #![trigger nd.contains(i), tv0.nodes[j]]
        nd.contains(i) && tv0.live.contains(j) && tv0.nodes[j].children == Some(i - i % 4) implies nd.contains(j) by {
        if sb <= i < sb + 4 {
            assert(i - i % 4 == sb);
            assert(tv0.live.contains(j) && tv0.nodes[j].children == Some(old_stack[top]@));
        } else {
            assert(done.contains(i));
        }
    }
    lemma_free_step_stack(tv0, bb, cur, nv, sb, done, old_stack, pushed, from);
    lemma_free_step_complete(tv0, bb, cur, sb, done, old_stack, pushed, from);
    // the free list gains the block
    assert(nv.free.subrange(0, tv0.free.len() as int) =~= tv0.free) by {
        assert(cur.free.subrange(0, tv0.free.len() as int) == tv0.free);
        assert forall|x: int| 0 <= x < tv0.free.len() implies nv.free[x] == tv0.free[x] by {
            assert(cur.free.subrange(0, tv0.free.len() as int)[x] == cur.free[x]);
        }
    }
    assert forall|x: int| tv0.free.len() <= x < nv.free.len() implies #[trigger] nd.contains(nv.free[x]) by {
        if x < cur.free.len() {
            assert(done.contains(cur.free[x]));
        } else {
            assert(nv.free[x] == sb);
        }
    }
    assert forall|i: int| #[trigger] nd.contains(i) implies exists|x: int|
        tv0.free.len() <= x < nv.free.len() && #[trigger] nv.free[x] == i - i % 4 by {
        if sb <= i < sb + 4 {
            assert(nv.free[cur.free.len() as int] == i - i % 4);
        } else {
            let x = choose|x: int| tv0.free.len() <= x < cur.free.len() && #[trigger] cur.free[x] == i - i % 4;
            assert(nv.free[x] == i - i % 4);
        }
    }
}

/// Freeing a detached block keeps the tree well-formed.
proof fn lemma_free_step_wf(cur: TreeView, nv: TreeView, sb: int)
    requires
        cur.wf(),
        cur.is_detached(sb),
        nv.nodes.len() == cur.nodes.len(),
        forall|i: int| 0 <= i < cur.nodes.len() ==> #[trigger] nv.nodes[i] == (if sb <= i < sb + 4 { uninit_node() } else { cur.nodes[i] }),
        forall|i: int| #[trigger] nv.live.contains(i) <==> cur.live.contains(i) && !(sb <= i < sb + 4),
        nv.root == cur.root,
        nv.free == cur.free.push(sb),
    ensures
        nv.wf(),
{
    assert(cur.live.contains(cur.root));
    assert(cur.node_ok(cur.root));
    if sb <= cur.root < sb + 4 {
        lemma_aligned_blocks(sb, cur.root, cur.root);
    }
    // a live node never has the freed block as children, so its children stay live
    assert forall|i: int| #[trigger] nv.live.contains(i) implies nv.node_ok(i) by {
        assert(cur.node_ok(i));
        assert(nv.nodes[i] == cur.nodes[i]);
        if cur.nodes[i].children is Some {
            let c = cur.nodes[i].children->0;
            assert(c != sb);
            assert forall|k: int| 0 <= k < 4 implies #[trigger] nv.live.contains(c + k) by {
                assert(cur.live.contains(c + k));
                if sb <= c + k < sb + 4 {
                    lemma_aligned_blocks(sb, c, c + k);
                }
            }
            assert forall|k: int| 0 <= k < 4 implies #[trigger] nv.nodes[c + k].dom == nv.nodes[i].dom.child(k) by {
                assert(cur.live.contains(c + k));
                assert(nv.live.contains(c + k));
                assert(cur.nodes[c + k].dom == cur.nodes[i].dom.child(k));
            }
        }
    }
    assert forall|i: int| #[trigger] nv.live.contains(i) implies nv.heights_ok(i) by {
        assert(cur.node_ok(i));
        assert(cur.heights_ok(i));
        if cur.nodes[i].children is Some {
            let c = cur.nodes[i].children->0;
            assert(nv.live.contains(c + 0));
            assert(nv.live.contains(c + 1));
            assert(nv.live.contains(c + 2));
            assert(nv.live.contains(c + 3));
            assert(nv.nodes[c] == nv.nodes[c + 0]);
        }
    }
    assert forall|i: int, j: int|
        #![trigger nv.live.contains(i), nv.live.contains(j)]
        nv.live.contains(i) && nv.live.contains(j) && nv.nodes[i].children is Some
            && nv.nodes[i].children == nv.nodes[j].children implies i == j by {
        assert(cur.live.contains(i) && cur.live.contains(j));
        assert(cur.node_ok(i));
        assert(cur.node_ok(j));
    }
    assert forall|i: int| #[trigger] nv.live.contains(i) implies nv.nodes[i].children != Some(nv.root) by {
        assert(cur.live.contains(i));
        assert(cur.node_ok(i));
    }
    let last = cur.free.len() as int;
    assert forall|x: int| 0 <= x < nv.free.len() implies {
        &&& block_index_ok(#[trigger] nv.free[x])
        &&& nv.free[x] + 4 <= nv.nodes.len()
    } by {
        if x < last {
            assert(nv.free[x] == cur.free[x]);
        }
    }
    assert forall|x: int, k: int| 0 <= x < nv.free.len() && 0 <= k < 4 implies !#[trigger] nv.live.contains(nv.free[x] + k) by {
        if x < last {
            assert(nv.free[x] == cur.free[x]);
            assert(!cur.live.contains(cur.free[x] + k));
        }
    }
    assert forall|x: int, y: int| 0 <= x < y < nv.free.len() implies nv.free[x] != nv.free[y] by {
        assert(nv.free[x] == cur.free[x]);
        if y < last {
            assert(nv.free[y] == cur.free[y]);
        } else {
            assert(!cur.live.contains(cur.free[x] + 0));
            assert(cur.live.contains(sb + 0));
        }
    }
}

/// A node right below one below a block is below the block too.
proof fn lemma_below_extend(tv: TreeView, b: int, i: int, c: int)
    requires
        tv.below_block(b, i),
        tv.is_child(i, c),
    ensures
        tv.below_block(b, c),
{
    let path = choose|path: Seq<int>| #[trigger] tv.block_path(b, path) && path.last() == i;
    let q = path.push(c);
    assert forall|k: int| 0 <= k < q.len() - 1 implies #[trigger] tv.is_child(q[k], q[k + 1]) by {
        if k < path.len() - 1 {
            assert(tv.is_child(path[k], path[k + 1]));
        }
    }
    assert(tv.block_path(b, q));
}

/// The blocks pushed in a step of freeing are detached, lie below the freed block, and are new
/// to the stack.
#[verifier::spinoff_prover]
#[verifier::rlimit(50)]
proof fn lemma_free_step_stack(
    tv0: TreeView,
    bb: int,
    cur: TreeView,
    nv: TreeView,
    sb: int,
    done: Set<int>,
    old_stack: Seq<BlockHandle>,
    pushed: Seq<BlockHandle>,
    from: Seq<int>,
)
    requires
        free_inv(tv0, bb, cur, done, old_stack),
        old_stack.len() > 0,
        old_stack.last()@ == sb,
        pushed.len() == old_stack.len() - 1 + from.len(),
        pushed.subrange(0, old_stack.len() - 1) == old_stack.drop_last(),
        forall|y: int| 0 <= y < from.len() ==> 0 <= #[trigger] from[y] < 4
            && cur.nodes[sb + from[y]].children == Some(pushed[old_stack.len() - 1 + y]@),
        forall|y: int, z: int| 0 <= y < z < from.len() ==> from[y] < from[z],
        nv.nodes.len() == cur.nodes.len(),
        forall|i: int| 0 <= i < cur.nodes.len() ==> #[trigger] nv.nodes[i] == (if sb <= i < sb + 4 { uninit_node() } else { cur.nodes[i] }),
        forall|i: int| #[trigger] nv.live.contains(i) <==> cur.live.contains(i) && !(sb <= i < sb + 4),
        nv.root == cur.root,
    ensures
        ({
            let nd = done.union(Set::new(|i: int| sb <= i < sb + 4));
            &&& forall|x: int| 0 <= x < pushed.len() ==> {
                &&& nv.is_detached(#[trigger] pushed[x]@)
                &&& forall|k: int| 0 <= k < 4 ==> #[trigger] tv0.below_block(bb, pushed[x]@ + k)
                &&& forall|j: int| #[trigger] tv0.live.contains(j) && tv0.nodes[j].children == Some(pushed[x]@) ==> nd.contains(j)
            }
            &&& forall|x: int, y: int| 0 <= x < y < pushed.len() ==> pushed[x]@ != pushed[y]@
        }),
{
    let nd = done.union(Set::new(|i: int| sb <= i < sb + 4));
    let n0 = old_stack.len() - 1;
    assert(old_stack[n0]@ == sb);
    assert(cur.is_detached(sb));
    assert forall|x: int| 0 <= x < pushed.len() implies {
        &&& nv.is_detached(#[trigger] pushed[x]@)
        &&& forall|k: int| 0 <= k < 4 ==> #[trigger] tv0.below_block(bb, pushed[x]@ + k)
        &&& forall|j: int| #[trigger] tv0.live.contains(j) && tv0.nodes[j].children == Some(pushed[x]@) ==> nd.contains(j)
    } by {
        let e = pushed[x]@;
        if x < n0 {
            assert(pushed[x] == pushed.subrange(0, n0)[x]);
            assert(pushed[x] == old_stack[x]);
            assert(old_stack[x]@ != old_stack[n0]@);
            assert(cur.is_detached(e));
            assert forall|k: int| 0 <= k < 4 implies #[trigger] nv.live.contains(e + k) by {
                assert(cur.live.contains(e + k));
                if sb <= e + k < sb + 4 {
                    lemma_aligned_blocks(sb, e, e + k);
                }
            }
            assert forall|i: int| #[trigger] nv.live.contains(i) implies nv.nodes[i].children != Some(e) by {
                assert(cur.live.contains(i));
                assert(cur.node_ok(i));
            }
            assert forall|j: int| #[trigger] tv0.live.contains(j) && tv0.nodes[j].children == Some(pushed[x]@) implies nd.contains(j) by {
                assert(tv0.live.contains(j) && tv0.nodes[j].children == Some(old_stack[x]@));
            }
        } else {
            let y = x - n0;
            let f = from[y];
            let p = sb + f;
            assert(cur.live.contains(sb + f));
            assert(cur.node_ok(p));
            assert(cur.nodes[p].children == Some(e));
            assert(tv0.live.contains(p));
            assert(tv0.nodes[p] == cur.nodes[p]);
            // the children of a node are smaller than it, so they are not its own block
            assert(cur.nodes[e + f].dom == cur.nodes[p].dom.child(f));
            assert(e != sb);
            assert forall|k: int| 0 <= k < 4 implies #[trigger] nv.live.contains(e + k) by {
                assert(cur.live.contains(e + k));
                if sb <= e + k < sb + 4 {
                    lemma_aligned_blocks(sb, e, e + k);
                }
            }
            assert forall|i: int| #[trigger] nv.live.contains(i) implies nv.nodes[i].children != Some(e) by {
                assert(cur.live.contains(i));
                assert(cur.node_ok(i));
                assert(cur.live.contains(p) && cur.live.contains(i));
            }
            assert(cur.live.contains(cur.root));
            assert(nv.is_detached(e));
            assert forall|k: int| 0 <= k < 4 implies #[trigger] tv0.below_block(bb, e + k) by {
                assert(tv0.below_block(bb, sb + f));
                assert(tv0.is_child(p, e + k));
                lemma_below_extend(tv0, bb, p, e + k);
            }
            assert forall|j: int| #[trigger] tv0.live.contains(j) && tv0.nodes[j].children == Some(pushed[x]@) implies nd.contains(j) by {
                assert(tv0.node_ok(j));
                assert(tv0.node_ok(p));
                assert(tv0.live.contains(j) && tv0.live.contains(p));
                assert(nd.contains(p));
            }
        }
    }
    assert forall|x: int, y: int| 0 <= x < y < pushed.len() implies pushed[x]@ != pushed[y]@ by {
        if y < n0 {
            assert(pushed[x] == pushed.subrange(0, n0)[x]);
            assert(pushed[y] == pushed.subrange(0, n0)[y]);
            assert(pushed[x] == old_stack[x]);
            assert(pushed[y] == old_stack[y]);
        } else {
            let p = sb + from[y - n0];
            assert(cur.live.contains(sb + from[y - n0]));
            assert(tv0.live.contains(p));
            assert(tv0.nodes[p] == cur.nodes[p]);
            assert(!done.contains(p));
            if x < n0 {
                assert(pushed[x] == pushed.subrange(0, n0)[x]);
                assert(pushed[x] == old_stack[x]);
                let e = old_stack[x]@;
                if e == pushed[y]@ {
                    assert(tv0.live.contains(p) && tv0.nodes[p].children == Some(old_stack[x]@));
                }
            } else {
                let q = sb + from[x - n0];
                assert(cur.live.contains(sb + from[x - n0]));
                assert(from[x - n0] < from[y - n0]);
                assert(cur.live.contains(q) && cur.live.contains(p));
            }
        }
    }
}

/// Every node left to free lies below a block on the stack after a step of freeing.
proof fn lemma_free_step_complete(
    tv0: TreeView,
    bb: int,
    cur: TreeView,
    sb: int,
    done: Set<int>,
    old_stack: Seq<BlockHandle>,
    pushed: Seq<BlockHandle>,
    from: Seq<int>,
)
    requires
        free_inv(tv0, bb, cur, done, old_stack),
        old_stack.len() > 0,
        old_stack.last()@ == sb,
        pushed.len() == old_stack.len() - 1 + from.len(),
        pushed.subrange(0, old_stack.len() - 1) == old_stack.drop_last(),
        forall|y: int| 0 <= y < from.len() ==> 0 <= #[trigger] from[y] < 4
            && cur.nodes[sb + from[y]].children == Some(pushed[old_stack.len() - 1 + y]@),
        forall|k: int| 0 <= k < 4 && (#[trigger] cur.nodes[sb + k]).children is Some ==> exists|y: int| 0 <= y < from.len() && from[y] == k,
    ensures
        ({
            let nd = done.union(Set::new(|i: int| sb <= i < sb + 4));
            forall|i: int| tv0.live.contains(i) && #[trigger] tv0.below_block(bb, i) && !nd.contains(i) ==>
                exists|x: int| 0 <= x < pushed.len() && tv0.below_block(#[trigger] pushed[x]@, i)
        }),
{
    let nd = done.union(Set::new(|i: int| sb <= i < sb + 4));
    let n0 = old_stack.len() - 1;
    assert(old_stack[n0]@ == sb);
    assert(cur.is_detached(sb));
    assert forall|i: int| tv0.live.contains(i) && #[trigger] tv0.below_block(bb, i) && !nd.contains(i) implies
        exists|x: int| 0 <= x < pushed.len() && tv0.below_block(#[trigger] pushed[x]@, i) by {
        let x0 = choose|x: int| 0 <= x < old_stack.len() && tv0.below_block(#[trigger] old_stack[x]@, i);
        if x0 < n0 {
            assert(pushed[x0] == pushed.subrange(0, n0)[x0]);
            assert(pushed[x0] == old_stack[x0]);
        } else {
            let path = choose|path: Seq<int>| #[trigger] tv0.block_path(sb, path) && path.last() == i;
            assert(path.len() >= 2);
            let z: int = 0;
            assert(tv0.is_child(path[z], path[z + 1]));
            let f = path[0] - sb;
            assert(cur.live.contains(sb + f));
            assert(tv0.nodes[sb + f] == cur.nodes[sb + f]);
            let c = cur.nodes[sb + f].children->0;
            let y = choose|y: int| 0 <= y < from.len() && from[y] == f;
            assert(pushed[n0 + y]@ == c);
            let q = path.subrange(1, path.len() as int);
            assert forall|k: int| 0 <= k < q.len() - 1 implies #[trigger] tv0.is_child(q[k], q[k + 1]) by {
                let j = k + 1;
                assert(tv0.is_child(path[j], path[j + 1]));
            }
            assert(tv0.block_path(c, q));
            assert(tv0.below_block(pushed[n0 + y]@, i));
        }
    }
}

/// A node right below one below `h` is below `h` too.
pub(crate) proof fn lemma_below_node_extend(tv: TreeView, h: int, i: int, c: int)
    requires
        tv.below_node(h, i),
        tv.is_child(i, c),
    ensures
        tv.below_node(h, c),
{
    let path = choose|path: Seq<int>| #[trigger] tv.node_path(h, path) && path.last() == i;
    let q = path.push(c);
    assert forall|k: int| 0 <= k < q.len() - 1 implies #[trigger] tv.is_child(q[k], q[k + 1]) by {
        if k < path.len() - 1 {
            assert(tv.is_child(path[k], path[k + 1]));
        }
    }
    assert(tv.node_path(h, q));
}

/// The nodes of the tree are live.
pub(crate) proof fn lemma_tree_nodes_live(tv: TreeView, i: int)
    requires
        tv.wf(),
        tv.below_node(tv.root, i),
    ensures
        tv.live.contains(i),
{
    let path = choose|path: Seq<int>| #[trigger] tv.node_path(tv.root, path) && path.last() == i;
    assert(tv.valid_path(path));
    lemma_path_node(tv, Set::empty(), path, path.len() - 1);
}

/// The centers of the quadrants of a splittable node lie in the default domain.
pub proof fn lemma_refined_children_inside(tv: TreeView, path: Seq<int>)
    requires
        tv.wf(),
        tv.valid_path(path),
        tv.nodes[path.last()].dom.can_split(),
    ensures
        forall|k: int| 0 <= k < 4 ==> default_domain().contains(#[trigger] tv.nodes[path.last()].dom.child(k).mid()),
{
    lemma_path_node(tv, Set::empty(), path, path.len() - 1);
    let d = tv.nodes[path.last()].dom;
    assert forall|k: int| 0 <= k < 4 implies default_domain().contains(#[trigger] d.child(k).mid()) by {
        lemma_child_inside(d, k);
    }
}

/// Inserting a sample keeps every detached block detached: it only changes colors and timestamps.
pub proof fn lemma_insert_keeps_detached(tv: TreeView, t: (int, int), color: u32, now: int, d: int)
    requires
        tv.wf(),
        tv.is_detached(d),
    ensures
        tv.inserted(t, color, now).is_detached(d),
{
    let nv = tv.inserted(t, color, now);
    assert forall|i: int| #[trigger] nv.live.contains(i) implies nv.nodes[i].children != Some(d) by {
        assert(tv.live.contains(i));
        assert(tv.node_ok(i));
        assert(nv.nodes[i].children == tv.nodes[i].children);
    }
}

/// Refining keeps every detached block detached: the split leaf takes a block that held no live
/// node.
pub proof fn lemma_refine_keeps_detached(before: TreeView, after: TreeView, path: Seq<int>, now: int, raise: bool, d: int)
    requires
        before.wf(),
        before.valid_path(path),
        after.refined_from(before, path, now, raise),
        before.is_detached(d),
    ensures
        after.is_detached(d),
{
    let s = before.split_at(path.last(), now);
    let b = before.next_block();
    lemma_path_node(before, Set::empty(), path, path.len() - 1);
    // the block the leaf takes held no live node, so it is not `d`
    assert(b != d) by {
        assert(before.live.contains(d + 0));
        if before.free.len() > 0 {
            assert(!before.live.contains(before.free[before.free.len() - 1] + 0));
        } else {
            assert(before.node_ok(d + 0));
        }
    }
    assert forall|k: int| 0 <= k < 4 implies #[trigger] after.live.contains(d + k) by {
        assert(before.live.contains(d + k));
    }
    assert forall|i: int| #[trigger] after.live.contains(i) implies after.nodes[i].children != Some(d) by {
        if before.live.contains(i) {
            assert(before.node_ok(i));
            assert(after.nodes[i].children == s.nodes[i].children);
        } else {
            assert(b <= i < b + 4);
            assert(after.nodes[i].children == s.nodes[i].children);
        }
    }
}

/// Retiring keeps every detached block detached: the node that lets go of its children hung from
/// nothing but them.
pub proof fn lemma_retire_keeps_detached(before: TreeView, after: TreeView, path: Seq<int>, now: int, d: int)
    requires
        before.wf(),
        before.valid_path(path),
        after.retired_from(before, path, now),
        before.is_detached(d),
    ensures
        after.is_detached(d),
{
    let s = before.pruned_at(path.last());
    lemma_path_node(before, Set::empty(), path, path.len() - 1);
    assert forall|i: int| #[trigger] after.live.contains(i) implies after.nodes[i].children != Some(d) by {
        assert(before.node_ok(i));
        assert(after.nodes[i].children == s.nodes[i].children);
    }
}

/// The least depth for a radius is at most 60.
pub proof fn lemma_least_depth_bounded(rad: int, d: int)
    requires
        0 <= d <= 60,
    ensures
        d <= least_depth_for_rad(rad, d) <= 60,
    decreases 60 - d,
{
    if d < 60 && rad_at_depth(d) > rad {
        lemma_least_depth_bounded(rad, d + 1);
    }
}

/// The depth at which nodes are small enough to retire for the window: their radius must be at
/// most `scale` times the window's real radius. `None` if there is no scale, if that radius is not
/// representable or not positive.
pub open spec fn depth_for_window(w: WindowView, scale: Option<int>) -> Option<int> {
    match scale {
        None => None,
        Some(s) => {
            let rad = mul_floor(s, (w.real_hi - w.real_lo) / 2);
            if fits_i64(rad) && rad > 0 {
                Some(least_depth_for_rad(rad, 0))
            } else {
                None
            }
        },
    }
}

/// The depth at which retiring takes blocks for the window (see `depth_for_window`), or -1, a depth
/// no node has, if there is none.
pub open spec fn retire_depth(w: WindowView, scale: Option<int>) -> int {
    match depth_for_window(w, scale) {
        Some(d) => d,
        None => -1,
    }
}

/// The position of an optional block.
pub open spec fn block_views(b: Option<BlockHandle>) -> Option<int> {
    match b {
        Some(b) => Some(b@),
        None => None,
    }
}

/// The values of four optional points.
pub open spec fn point_views(m: Option<[(Real, Imag); 4]>) -> Option<Seq<(int, int)>> {
    match m {
        Some(m) => Some(Seq::new(4, |k: int| (m[k].0@, m[k].1@))),
        None => None,
    }
}

/// A depth bound: the depth given, or `u16::MAX` if there is none.
pub open spec fn depth_bound(d: Option<u16>) -> int {
    match d {
        Some(d) => d as int,
        None => u16::MAX as int,
    }
}

/// The views of an optional window.
pub open spec fn window_views(w: Option<Window>) -> Option<WindowView> {
    match w {
        Some(w) => Some(w@),
        None => None,
    }
}

/// The values of an optional fixed-point number.
pub open spec fn fixed_views(x: Option<Fixed>) -> Option<int> {
    match x {
        Some(x) => Some(x@),
        None => None,
    }
}

/// The depth from which refining leaves nodes alone, because they would be retired at once:
/// none when `split_retirable` is set or there is no retire window.
pub open spec fn refine_depth_bound(retire_window: Option<WindowView>, scale: Option<int>, split_retirable: bool) -> int {
    let d = if split_retirable {
        None
    } else {
        match retire_window {
            None => None,
            Some(w) => depth_for_window(w, scale),
        }
    };
    match d {
        Some(d) => d,
        None => u16::MAX as int,
    }
}

/// Why no depth could be computed for a window.
#[derive(Clone, Copy, PartialEq, Eq, Structural, Debug)]
pub enum DepthError {
    /// The scale of the retire window could not be represented.
    ScaleOutOfDomain,
    /// The window is too big or too small to reclaim anything.
    RadOutOfRange,
    /// The depth needed is deeper than a domain can be.
    TooDeep,
}

/// The children of a node on a path are not on the path before it.
pub proof fn lemma_child_not_earlier(tv: TreeView, stale: Set<int>, path: Seq<int>, i: int, c: int, k: int)
    requires
        tv.wf_except(stale),
        tv.valid_path(path),
        0 <= k <= i < path.len(),
        tv.is_child(path[i], c),
    ensures
        c != path[k],
{
    lemma_path_node(tv, stale, path, i);
    lemma_path_node(tv, stale, path, k);
    let p = path[i];
    let b = tv.nodes[p].children->0;
    assert(tv.nodes[b + (c - b)].dom == tv.nodes[p].dom.child(c - b));
    if k < i {
        vstd::arithmetic::power2::lemma_pow2_strictly_increases(k as nat, i as nat);
        lemma_pow2_pos(k as nat);
        let rk = tv.nodes[path[k]].dom.rad;
        let ri = tv.nodes[p].dom.rad;
        assert(rk > ri) by (nonlinear_arith)
            requires
                rk * pow2(k as nat) == ri * pow2(i as nat),
                pow2(k as nat) < pow2(i as nat),
                pow2(k as nat) > 0,
                ri > 0,
        {
        }
    }
}

/// The heights computed for a node from its children respect the bounds every live node keeps.
proof fn lemma_heights_bounds(tv: TreeView, stale: Set<int>, i: int)
    requires
        tv.wf_except(stale),
        tv.live.contains(i),
        tv.nodes[i].children is Some,
    ensures
        ({
            let b = tv.nodes[i].children->0;
            let mn = 1 + min4(tv.nodes[b].min_height, tv.nodes[b + 1].min_height, tv.nodes[b + 2].min_height, tv.nodes[b + 3].min_height);
            let mx = 1 + max4(tv.nodes[b].max_height, tv.nodes[b + 1].max_height, tv.nodes[b + 2].max_height, tv.nodes[b + 3].max_height);
            &&& 1 <= mn <= mx < 64
            &&& pow2(mx as nat) <= tv.nodes[i].dom.rad
        }),
{
    assert(tv.node_ok(i));
    let b = tv.nodes[i].children->0;
    let r = tv.nodes[i].dom.rad;
    assert(tv.live.contains(b + 0));
    assert(tv.live.contains(b + 1));
    assert(tv.live.contains(b + 2));
    assert(tv.live.contains(b + 3));
    assert(tv.node_ok(b));
    assert(tv.node_ok(b + 1));
    assert(tv.node_ok(b + 2));
    assert(tv.node_ok(b + 3));
    assert(tv.nodes[b + 0].dom == tv.nodes[i].dom.child(0));
    assert(tv.nodes[b + 1].dom == tv.nodes[i].dom.child(1));
    assert(tv.nodes[b + 2].dom == tv.nodes[i].dom.child(2));
    assert(tv.nodes[b + 3].dom == tv.nodes[i].dom.child(3));
    let mc = max4(tv.nodes[b].max_height, tv.nodes[b + 1].max_height, tv.nodes[b + 2].max_height, tv.nodes[b + 3].max_height);
    assert(pow2(mc as nat) <= r / 2);
    vstd::arithmetic::power2::lemma_pow2_unfold((mc + 1) as nat);
    assert(pow2((mc + 1) as nat) <= r);
    lemma2_to64();
    lemma2_to64_rest();
    if mc + 1 >= 64 {
        lemma_pow2_le(64, (mc + 1) as nat);
    }
}

/// The weight of a stack entry at depth `d`, larger than four entries one level deeper.
pub open spec fn dfs_weight(d: int) -> nat
    decreases 61 - d,
{
    if d >= 61 {
        1
    } else {
        5 * dfs_weight(d + 1)
    }
}

/// The total weight of the entries of a search stack; it drops whenever an entry is replaced by
/// its children, so searches end.
pub open spec fn stack_weight(s: Seq<(usize, u16)>) -> nat
    decreases s.len(),
{
    if s.len() == 0 {
        0
    } else {
        stack_weight(s.drop_last()) + dfs_weight(s.last().1 as int)
    }
}

proof fn lemma_dfs_weight_pos(d: int)
    ensures
        dfs_weight(d) >= 1,
    decreases 61 - d,
{
    if d < 61 {
        lemma_dfs_weight_pos(d + 1);
    }
}

proof fn lemma_stack_weight_push(s: Seq<(usize, u16)>, e: (usize, u16))
    ensures
        stack_weight(s.push(e)) == stack_weight(s) + dfs_weight(e.1 as int),
{
    assert(s.push(e).drop_last() =~= s);
}

/// Replacing the last entry, at depth `d < 61`, by four entries at depth `d + 1` lowers the weight.
proof fn lemma_stack_weight_children(s: Seq<(usize, u16)>, e: (usize, u16), c: Seq<(usize, u16)>)
    requires
        s.len() > 0,
        s.last().1 < 61,
        c.len() == 4,
        forall|k: int| 0 <= k < 4 ==> (#[trigger] c[k]).1 == s.last().1 + 1,
    ensures
        stack_weight(s.drop_last() + c) < stack_weight(s),
{
    let base = s.drop_last();
    let d = s.last().1 as int;
    lemma_dfs_weight_pos(d + 1);
    assert(base + c =~= base.push(c[0]).push(c[1]).push(c[2]).push(c[3]));
    lemma_stack_weight_push(base, c[0]);
    lemma_stack_weight_push(base.push(c[0]), c[1]);
    lemma_stack_weight_push(base.push(c[0]).push(c[1]), c[2]);
    lemma_stack_weight_push(base.push(c[0]).push(c[1]).push(c[2]), c[3]);
    assert(dfs_weight(d) == 5 * dfs_weight(d + 1));
}

/// A leaf below a node on a path is at least the node's `min_height` levels below it,
/// and at most its `max_height` levels below it.
pub proof fn lemma_leaf_depth_bounds(tv: TreeView, path: Seq<int>, k: int)
    requires
        tv.wf(),
        tv.valid_path(path),
        0 <= k < path.len(),
        tv.is_leaf(path.last()),
    ensures
        path.len() - 1 - k >= tv.nodes[path[k]].min_height,
        path.len() - 1 - k <= tv.nodes[path[k]].max_height,
    decreases path.len() - k,
{
    let m = path.len() - 1;
    lemma_path_node(tv, Set::empty(), path, k);
    assert(tv.heights_ok(path[k]));
    if k < m {
        lemma_leaf_depth_bounds(tv, path, k + 1);
        lemma_path_step(tv, Set::empty(), path, k);
        let b = tv.nodes[path[k]].children->0;
        assert(b <= path[k + 1] < b + 4);
    }
}

/// The closest leaf below a node is exactly `min_height` levels below it: a path to the node
/// extends to a leaf at that depth.
pub proof fn lemma_min_height_reached(tv: TreeView, path: Seq<int>) -> (q: Seq<int>)
    requires
        tv.wf(),
        tv.valid_path(path),
    ensures
        tv.valid_path(q),
        q.len() == path.len() + tv.nodes[path.last()].min_height,
        q.subrange(0, path.len() as int) == path,
        tv.is_leaf(q.last()),
    decreases tv.nodes[path.last()].min_height,
{
    let n = path.len() - 1;
    let h = path.last();
    lemma_path_node(tv, Set::empty(), path, n);
    assert(tv.heights_ok(h));
    if tv.is_leaf(h) {
        assert(path.subrange(0, path.len() as int) =~= path);
        path
    } else {
        let b = tv.nodes[h].children->0;
        let m0 = tv.nodes[b].min_height;
        let m1 = tv.nodes[b + 1].min_height;
        let m2 = tv.nodes[b + 2].min_height;
        let m3 = tv.nodes[b + 3].min_height;
        let mn = min4(m0, m1, m2, m3);
        let c = if m0 == mn { b } else if m1 == mn { b + 1 } else if m2 == mn { b + 2 } else { b + 3 };
        assert(tv.live.contains(b + (c - b)));
        assert(tv.is_child(h, c));
        let p2 = path.push(c);
        assert(tv.valid_path(p2)) by {
            assert forall|k: int| 0 <= k < p2.len() - 1 implies #[trigger] tv.is_child(p2[k], p2[k + 1]) by {
                if k < n {
                    assert(tv.is_child(path[k], path[k + 1]));
                }
            }
        }
        assert(tv.node_ok(c));
        let q = lemma_min_height_reached(tv, p2);
        assert(q.subrange(0, path.len() as int) =~= q.subrange(0, p2.len() as int).subrange(0, path.len() as int));
        assert(p2.subrange(0, path.len() as int) =~= path);
        q
    }
}

/// A window that overlaps a square inside a domain overlaps the domain; one that contains a
/// domain overlaps every square inside it.
pub proof fn lemma_window_nested(w: WindowView, d: DomainView, e: DomainView)
    requires
        d.contains_domain(e),
        e.rad > 0,
    ensures
        w.overlaps(window_of_domain(e)) ==> w.overlaps(window_of_domain(d)),
        w.contains(window_of_domain(d)) ==> w.overlaps(window_of_domain(e)),
{
}

/// Some entry of a search stack lies on `path`, at the depth it was pushed with.
pub open spec fn stack_meets(stack: Seq<(usize, u16)>, path: Seq<int>) -> bool {
    exists|x: int|
        0 <= x < stack.len() && (#[trigger] stack[x]).1 < path.len() && path[stack[x].1 as int] == stack[x].0 as int
}

/// Each entry of a search stack is a node of the tree, at the depth it was pushed with,
/// reached by the path `paths[x]`.
pub open spec fn stack_paths_ok(tv: TreeView, stack: Seq<(usize, u16)>, paths: Seq<Seq<int>>) -> bool {
    &&& stack.len() == paths.len()
    &&& forall|x: int| 0 <= x < stack.len() ==> {
        &&& tv.valid_path(#[trigger] paths[x])
        &&& paths[x].len() == stack[x].1 + 1
        &&& paths[x].last() == stack[x].0
    }
}

/// The walk down the tree meets the path `a` before the path `b`: where they first part, `a`
/// takes a later child. The walks of refining and retiring look at the last quadrant first.
pub open spec fn walks_before(a: Seq<int>, b: Seq<int>) -> bool {
    exists|k: int| 0 <= k < a.len() && k < b.len() && #[trigger] a[k] > #[trigger] b[k] && a.subrange(0, k) == b.subrange(0, k)
}

/// The paths of a search stack, from the bottom up, are met by the walk later and later.
pub open spec fn stack_ordered(paths: Seq<Seq<int>>) -> bool {
    forall|x: int, y: int| #![trigger paths[x], paths[y]] 0 <= x < y < paths.len() ==> walks_before(paths[y], paths[x])
}

/// Paths that extend paths met in order are met in the same order.
proof fn lemma_walks_before_extend(a: Seq<int>, b: Seq<int>, a2: Seq<int>, b2: Seq<int>)
    requires
        walks_before(a, b),
        a.len() <= a2.len(),
        a2.subrange(0, a.len() as int) == a,
        b.len() <= b2.len(),
        b2.subrange(0, b.len() as int) == b,
    ensures
        walks_before(a2, b2),
{
    let k = choose|k: int| 0 <= k < a.len() && k < b.len() && #[trigger] a[k] > #[trigger] b[k] && a.subrange(0, k) == b.subrange(0, k);
    assert(a2[k] == a2.subrange(0, a.len() as int)[k]);
    assert(b2[k] == b2.subrange(0, b.len() as int)[k]);
    assert(a2.subrange(0, k) =~= a.subrange(0, k));
    assert(b2.subrange(0, k) =~= b.subrange(0, k));
}

/// Two paths from the root that end at the same node agree on their last `t + 1` nodes.
proof fn lemma_root_paths_agree(tv: TreeView, p: Seq<int>, q: Seq<int>, t: int)
    requires
        tv.wf(),
        tv.valid_path(p),
        tv.valid_path(q),
        p.last() == q.last(),
        0 <= t < p.len(),
        t < q.len(),
    ensures
        p[p.len() - 1 - t] == q[q.len() - 1 - t],
    decreases t,
{
    if t > 0 {
        lemma_root_paths_agree(tv, p, q, t - 1);
        let a = p.len() - 1 - t;
        let c = q.len() - 1 - t;
        assert(tv.is_child(p[a], p[a + 1]));
        assert(tv.is_child(q[c], q[c + 1]));
        lemma_unique_parent(tv, Set::empty(), p[a], q[c], p[a + 1]);
    }
}

/// A node is reached from the root by one path only.
proof fn lemma_one_path(tv: TreeView, p: Seq<int>, q: Seq<int>)
    requires
        tv.wf(),
        tv.valid_path(p),
        tv.valid_path(q),
        p.last() == q.last(),
    ensures
        p == q,
{
    if p.len() < q.len() {
        // the root would be the child of a node of `q`
        lemma_root_paths_agree(tv, p, q, p.len() - 1);
        let c = q.len() - p.len();
        let d = c - 1;
        assert(tv.is_child(q[d], q[d + 1]));
        lemma_unique_parent(tv, Set::empty(), q[d], q[d], tv.root);
    } else if q.len() < p.len() {
        lemma_root_paths_agree(tv, q, p, q.len() - 1);
        let c = p.len() - q.len();
        let d = c - 1;
        assert(tv.is_child(p[d], p[d + 1]));
        lemma_unique_parent(tv, Set::empty(), p[d], p[d], tv.root);
    } else {
        assert forall|i: int| 0 <= i < p.len() implies p[i] == q[i] by {
            lemma_root_paths_agree(tv, p, q, p.len() - 1 - i);
        }
        assert(p =~= q);
    }
}

/// A path from the root of the same length as the path on top of the search stack, met by the
/// stack, is that path or is met by the walk after it.
proof fn lemma_first_met(tv: TreeView, stack: Seq<(usize, u16)>, paths: Seq<Seq<int>>, q: Seq<int>)
    requires
        tv.wf(),
        stack_paths_ok(tv, stack, paths),
        stack_ordered(paths),
        stack.len() > 0,
        tv.valid_path(q),
        stack_meets(stack, q),
        q.len() == paths.last().len(),
        q != paths.last(),
    ensures
        walks_before(paths.last(), q),
{
    let top = stack.len() - 1;
    let x = choose|x: int| 0 <= x < stack.len() && (#[trigger] stack[x]).1 < q.len() && q[stack[x].1 as int] == stack[x].0 as int;
    let d = stack[x].1 as int;
    let px = paths[x];
    assert(tv.valid_path(px));
    let qp = q.subrange(0, d + 1);
    assert forall|k: int| 0 <= k < qp.len() - 1 implies #[trigger] tv.is_child(qp[k], qp[k + 1]) by {
        assert(tv.is_child(q[k], q[k + 1]));
    }
    assert(tv.valid_path(qp));
    lemma_one_path(tv, qp, px);
    if x == top {
        assert(tv.valid_path(paths[top]));
        assert(qp =~= q);
    } else {
        assert(walks_before(paths[top], paths[x]));
        assert(paths[top].subrange(0, paths[top].len() as int) =~= paths[top]);
        lemma_walks_before_extend(paths[top], px, paths[top], q);
    }
}

/// Popping the top of an ordered search stack and pushing the four children of the node it
/// reached, the last child on top, keeps the stack ordered.
proof fn lemma_push_keeps_order(paths: Seq<Seq<int>>, b: int)
    requires
        stack_ordered(paths),
        paths.len() > 0,
    ensures
        stack_ordered(paths.drop_last() + Seq::new(4, |k: int| paths.last().push(b + k))),
{
    let hp = paths.last();
    let top = paths.len() - 1;
    let rest = paths.drop_last();
    let cp = Seq::new(4, |k: int| hp.push(b + k));
    let np = rest + cp;
    assert forall|x: int, y: int| #![trigger np[x], np[y]] 0 <= x < y < np.len() implies walks_before(np[y], np[x]) by {
        if y < rest.len() {
            assert(np[x] == paths[x] && np[y] == paths[y]);
        } else if x < rest.len() {
            let k = y - rest.len();
            assert(np[y] == hp.push(b + k));
            assert(np[x] == paths[x]);
            assert(walks_before(paths[top], paths[x]));
            assert(hp.push(b + k).subrange(0, hp.len() as int) =~= hp);
            assert(paths[x].subrange(0, paths[x].len() as int) =~= paths[x]);
            lemma_walks_before_extend(hp, paths[x], hp.push(b + k), paths[x]);
        } else {
            let kx = x - rest.len();
            let ky = y - rest.len();
            let a = hp.push(b + ky);
            let c = hp.push(b + kx);
            assert(np[y] == a && np[x] == c);
            let i = hp.len() as int;
            assert(a[i] > c[i]);
            assert(a.subrange(0, i) =~= c.subrange(0, i));
        }
    }
}

/// Pushing the four children of the node reached by `path`, one level deeper.
proof fn lemma_push_children(tv: TreeView, stack: Seq<(usize, u16)>, paths: Seq<Seq<int>>, path: Seq<int>, b: int)
    -> (r: (Seq<(usize, u16)>, Seq<Seq<int>>))
    requires
        tv.wf(),
        stack_paths_ok(tv, stack, paths),
        tv.valid_path(path),
        path.len() <= 61,
        tv.nodes[path.last()].children == Some(b),
        tv.live.contains(path.last()),
        b + 3 <= usize::MAX,
    ensures
        r.0 == stack + seq![(b as usize, (path.len()) as u16), ((b + 1) as usize, (path.len()) as u16),
            ((b + 2) as usize, (path.len()) as u16), ((b + 3) as usize, (path.len()) as u16)],
        stack_paths_ok(tv, r.0, r.1),
        r.1 == paths + Seq::new(4, |k: int| path.push(b + k)),
{
    let c = seq![(b as usize, (path.len()) as u16), ((b + 1) as usize, (path.len()) as u16),
        ((b + 2) as usize, (path.len()) as u16), ((b + 3) as usize, (path.len()) as u16)];
    let cp = Seq::new(4, |k: int| path.push(b + k));
    let s2 = stack + c;
    let p2 = paths + cp;
    assert forall|k: int| 0 <= k < 4 implies tv.valid_path(#[trigger] cp[k]) by {
        let q = path.push(b + k);
        assert(cp[k] == q);
        assert(tv.is_child(path.last(), b + k));
        assert forall|j: int| 0 <= j < q.len() - 1 implies #[trigger] tv.is_child(q[j], q[j + 1]) by {
            if j < path.len() - 1 {
                assert(tv.is_child(path[j], path[j + 1]));
            }
        }
    }
    assert forall|x: int| 0 <= x < s2.len() implies {
        &&& tv.valid_path(#[trigger] p2[x])
        &&& p2[x].len() == s2[x].1 + 1
        &&& p2[x].last() == s2[x].0
    } by {
        if x < stack.len() {
            assert(p2[x] == paths[x]);
            assert(s2[x] == stack[x]);
        } else {
            let k = x - stack.len();
            assert(p2[x] == cp[k]);
            assert(s2[x] == c[k]);
            assert(tv.valid_path(cp[k]));
        }
    }
    (s2, p2)
}

/// The nodes of the tree and the blocks free for reuse.
#[derive(Debug)]
pub(crate) struct Alloc {
    pub(crate) nodes: Vec<Node>,
    pub(crate) free_list: Vec<BlockHandle>,
}

impl Alloc {
    /// An arena with no nodes.
    pub(crate) fn new() -> (r: Self)
        ensures
            r.nodes@.len() == 0,
            r.free_list@.len() == 0,
    {
        Alloc { nodes: Vec::new(), free_list: Vec::new() }
    }

    /// Hands out a block of four nodes: the most recently freed one, or else four new uninit nodes.
    pub(crate) fn alloc_block(&mut self) -> (r: BlockHandle)
        requires
            old(self).nodes@.len() % 4 == 0,
            forall|x: int| 0 <= x < old(self).free_list@.len() ==> block_index_ok(#[trigger] old(self).free_list@[x]@) && old(self).free_list@[x]@ + 4 <= old(self).nodes@.len(),
        ensures
            block_index_ok(r@),
            r@ + 4 <= final(self).nodes@.len(),
            final(self).nodes@.len() % 4 == 0,
            old(self).free_list@.len() > 0 ==> {
                &&& r == old(self).free_list@.last()
                &&& final(self).free_list@ == old(self).free_list@.drop_last()
                &&& final(self).nodes@ == old(self).nodes@
            },
            old(self).free_list@.len() == 0 ==> {
                &&& r@ == old(self).nodes@.len()
                &&& final(self).free_list@ == old(self).free_list@
                &&& final(self).nodes@.len() == old(self).nodes@.len() + 4
                &&& final(self).nodes@.subrange(0, old(self).nodes@.len() as int) == old(self).nodes@
            },
    {
        match self.free_list.pop() {
            Some(b) => {
                return b;
            },
            None => {},
        }
        let first = self.nodes.len();
        self.nodes.push(Node::uninit());
        self.nodes.push(Node::uninit());
        self.nodes.push(Node::uninit());
        self.nodes.push(Node::uninit());
        assert(self.nodes@.subrange(0, first as int) =~= old(self).nodes@);
        match BlockHandle::try_from_node(NodeHandle::new(first)) {
            Ok(b) => b,
            Err(_) => BlockHandle::uninit(),
        }
    }
}

impl Alloc {
    /// Puts the block back for reuse, after filling its four nodes with placeholders.
    pub(crate) fn free_block(&mut self, b: BlockHandle)
        requires
            block_index_ok(b@),
            b@ + 4 <= old(self).nodes@.len(),
        ensures
            final(self).nodes@.len() == old(self).nodes@.len(),
            forall|i: int| 0 <= i < old(self).nodes@.len() ==> (#[trigger] final(self).nodes@[i])@ == (if b@ <= i < b@ + 4 {
                uninit_node()
            } else {
                old(self).nodes@[i]@
            }),
            final(self).free_list@ == old(self).free_list@.push(b),
    {
        self.nodes.set(b.offset(0).0, Node::uninit());
        self.nodes.set(b.offset(1).0, Node::uninit());
        self.nodes.set(b.offset(2).0, Node::uninit());
        self.nodes.set(b.offset(3).0, Node::uninit());
        self.free_list.push(b);
    }
}

/// The distance between two points of the default domain in the maximum norm.
fn distance(a: (Real, Imag), b: (Real, Imag)) -> (r: Fixed)
    requires
        default_domain().contains((a.0@, a.1@)),
        default_domain().contains((b.0@, b.1@)),
    ensures
        r@ == max_norm_distance((a.0@, a.1@), (b.0@, b.1@)),
{
    proof {
        lemma2_to64();
        lemma2_to64_rest();
    }
    let real_delta = a.0.sub(b.0);
    let imag_delta = a.1.sub(b.1);
    real_delta.abs().max(imag_delta.abs())
}

/// A quadtree of color samples over the default domain.
pub struct Tree {
    dom: Domain,
    arena: Alloc,
    root: NodeHandle,
    live: Ghost<Set<int>>,
}

impl View for Tree {
    type V = TreeView;

    closed spec fn view(&self) -> TreeView {
        TreeView {
            nodes: self.arena.nodes@.map_values(|n: Node| n@),
            root: self.root.0 as int,
            live: self.live@,
            free: self.arena.free_list@.map_values(|b: BlockHandle| b@),
        }
    }
}

impl Tree {
    /// The well-formedness of the tree.
    pub closed spec fn wf(&self) -> bool {
        &&& self@.wf()
        &&& self.dom@ == default_domain()
        &&& self.arena.nodes@.len() % 4 == 0
    }

    /// A well-formed tree has a well-formed view.
    pub proof fn lemma_view_wf(&self)
        requires
            self.wf(),
        ensures
            self@.wf(),
    {
    }

    /// A tree with a single leaf, the root, over the default domain, colored by the sample
    /// taken at the domain's center.
    pub fn new(color: Rgb) -> (r: Self)
        ensures
            r.wf(),
            r@.is_leaf(r@.root),
            r@.node(r@.root).color == Some(color.0),
            r@.node(r@.root).timestamp == 0,
            r@.live == set![r@.root],
    {
        proof {
            lemma2_to64();
        }
        let dom = Domain::default_domain();
        let mut arena = Alloc::new();
        let block = arena.alloc_block();
        let root = block.to_node();
        assert(root.0 == 0);
        arena.nodes.set(0, Node {
            dom,
            children: None,
            color: Some(color),
            min_height: 0,
            max_height: 0,
            timestamp: RenderMoment::min_moment(),
        });
        let ghost live = Set::empty().insert(0int);
        let tree = Tree { dom, arena, root, live: Ghost(live) };
        assert(tree@.node_ok(0));
        tree
    }

    /// Walks down from the root toward `t`, raising the timestamp of each node visited to at
    /// least `now`; returns the position of the last node visited.
    fn descend_raising(&mut self, t: (Real, Imag), now: RenderMoment) -> (last: usize)
        requires
            old(self).wf(),
            !old(self)@.is_leaf(old(self)@.root) ==> default_domain().contains((t.0@, t.1@)),
        ensures
            final(self).wf(),
            last == old(self)@.descent((t.0@, t.1@)).last(),
            final(self)@ == ({
                let path = old(self)@.descent((t.0@, t.1@));
                TreeView {
                    nodes: Seq::new(
                        old(self)@.nodes.len(),
                        |i: int| if path.contains(i) { raised(old(self)@.nodes[i], now.0 as int) } else { old(self)@.nodes[i] },
                    ),
                    ..old(self)@
                }
            }),
            final(self).dom == old(self).dom,
            final(self).root == old(self).root,
    {
        let ghost tv = self@;
        let ghost tp = (t.0@, t.1@);
        let ghost mut visited: Seq<int> = seq![];
        let mut cur: usize = self.root.0;
        proof {
            assert(tv.valid_path(seq![cur as int]));
            assert(tv.descent(tp) == visited + tv.descent_from(cur as int, tp, 0));
        }
        loop
            invariant_except_break
                tv == old(self)@,
                tp == (t.0@, t.1@),
                tv.wf(),
                self.dom == old(self).dom,
                self.root == old(self).root,
                self.arena.nodes@.len() == tv.nodes.len(),
                self.arena.free_list == old(self).arena.free_list,
                self.live == old(self).live,
                tv.valid_path(visited.push(cur as int)),
                tv.descent(tp) == visited + tv.descent_from(cur as int, tp, visited.len() as int),
                !tv.is_leaf(tv.root) ==> tv.nodes[cur as int].dom.contains(tp),
                forall|i: int| 0 <= i < tv.nodes.len() ==> #[trigger] self@.nodes[i] == if visited.contains(i) { raised(tv.nodes[i], now.0 as int) } else { tv.nodes[i] },
            ensures
                self.dom == old(self).dom,
                self.root == old(self).root,
                self.arena.nodes@.len() == tv.nodes.len(),
                self.arena.free_list == old(self).arena.free_list,
                self.live == old(self).live,
                cur as int == tv.descent(tp).last(),
                forall|i: int| 0 <= i < tv.nodes.len() ==> #[trigger] self@.nodes[i] == if tv.descent(tp).contains(i) { raised(tv.nodes[i], now.0 as int) } else { tv.nodes[i] },
            decreases 64 - visited.len(),
        {
            let ghost path = visited.push(cur as int);
            let ghost d = visited.len() as int;
            proof {
                lemma_path_node(tv, Set::empty(), path, d);
                assert(path[d] == cur);
                assert forall|j: int| 0 <= j < visited.len() implies visited[j] != cur by {
                    lemma_path_distinct(tv, Set::empty(), path, j, d);
                }
            }
            let ghost before = self@;
            assert(!visited.contains(cur as int));
            assert(before.nodes[cur as int] == tv.nodes[cur as int]);
            let mut node = self.arena.nodes[cur];
            assert(node@ == tv.nodes[cur as int]);
            let _ = node.update_timestamp(now);
            assert(node.dom@ == tv.nodes[cur as int].dom);
            assert(node@.children == tv.nodes[cur as int].children);
            self.arena.nodes.set(cur, node);
            assert(self@.nodes[cur as int] == raised(tv.nodes[cur as int], now.0 as int));
            assert forall|i: int| 0 <= i < tv.nodes.len() && i != cur implies #[trigger] self@.nodes[i] == before.nodes[i] by {
                assert(self.arena.nodes@[i] == old(self).arena.nodes@[i] || true);
            }
            let m = node.dom.mid();
            let found = m.0.0 == t.0.0 && m.1.0 == t.1.0;
            let ghost visited2 = visited.push(cur as int);
            proof {
                assert forall|i: int| 0 <= i < tv.nodes.len() implies #[trigger] self@.nodes[i] == if visited2.contains(i) { raised(tv.nodes[i], now.0 as int) } else { tv.nodes[i] } by {
                    if i == cur {
                        assert(visited2.contains(i));
                    } else {
                        assert(visited2.contains(i) == visited.contains(i)) by {
                            if visited2.contains(i) {
                                let j = choose|j: int| 0 <= j < visited2.len() && visited2[j] == i;
                                assert(visited[j] == i);
                            }
                            if visited.contains(i) {
                                let j = choose|j: int| 0 <= j < visited.len() && visited[j] == i;
                                assert(visited2[j] == i);
                            }
                        }
                    }
                }
            }
            assert((m.0@, m.1@) == tv.nodes[cur as int].dom.mid());
            assert(found ==> tv.nodes[cur as int].dom.mid() == tp);
            assert(d < 64);
            if found {
                proof {
                    assert(tv.nodes[cur as int].dom.mid() == tp);
                    assert(tv.descent_from(cur as int, tp, d) == seq![cur as int]);
                    assert(tv.descent(tp) =~= visited2);
                }
                break;
            }
            match node.children {
                None => {
                    proof {
                        assert(tv.descent_from(cur as int, tp, d) == seq![cur as int]);
                        assert(tv.descent(tp) =~= visited2);
                    }
                    break;
                },
                Some(b) => {
                    proof {
                        if d > 0 {
                            assert(tv.is_child(path[0], path[1]));
                        }
                        assert(!tv.is_leaf(tv.root));
                        lemma_split_partitions(tv.nodes[cur as int].dom, tp);
                    }
                    let off = node.dom.child_offset_containing(t);
                    let next = b.offset(off);
                    proof {
                        let bb = b@;
                        assert(tv.nodes[cur as int].children == Some(bb));
                        assert(tv.is_child(cur as int, next.0 as int));
                        let p2 = visited2.push(next.0 as int);
                        assert forall|k: int| 0 <= k < p2.len() - 1 implies #[trigger] tv.is_child(p2[k], p2[k + 1]) by {
                            if k < p2.len() - 2 {
                                assert(tv.is_child(path[k], path[k + 1]));
                            }
                        }
                        assert(tv.descent_from(cur as int, tp, d) == seq![cur as int] + tv.descent_from(next.0 as int, tp, d + 1));
                        assert(tv.descent(tp) =~= visited2 + tv.descent_from(next.0 as int, tp, d + 1));
                        lemma_path_node(tv, Set::empty(), path, d);
                        assert(tv.nodes[next.0 as int].dom == tv.nodes[cur as int].dom.child(off as int));
                    }
                    proof {
                        visited = visited2;
                    }
                    cur = next.0;
                },
            }
        }
        proof {
            lemma_frame(tv, self@, Set::empty());
            assert(self@.nodes =~= Seq::new(
                tv.nodes.len(),
                |i: int| if tv.descent(tp).contains(i) { raised(tv.nodes[i], now.0 as int) } else { tv.nodes[i] },
            ));
        }
        cur
    }

    /// Stores the color of the sample taken at `p`: walks down from the root toward `p`,
    /// raising the timestamp of each node on the way to at least `now`, and colors the node
    /// centered at `p` if the walk reaches it (it may not, if that node was reclaimed).
    pub fn insert(&mut self, p: (Real, Imag), color: Rgb, now: RenderMoment)
        requires
            old(self).wf(),
            !old(self)@.is_leaf(old(self)@.root) ==> default_domain().contains((p.0@, p.1@)),
        ensures
            final(self).wf(),
            final(self)@ == old(self)@.inserted((p.0@, p.1@), color.0, now.0 as int),
            old(self)@.timestamps_ok() ==> final(self)@.timestamps_ok(),
    {
        let ghost tv = self@;
        let ghost tp = (p.0@, p.1@);
        let last = self.descend_raising(p, now);
        let ghost mid = self@;
        let ghost path = tv.descent(tp);
        proof {
            lemma_descent_steps(tv, Set::empty(), tv.root, tp, 0);
            assert(tv.live.contains(path[path.len() - 1]));
            assert(tv.live.contains(last as int));
            assert(tv.node_ok(last as int));
            assert(path.contains(last as int));
        }
        let mut node = self.arena.nodes[last];
        let m = node.dom.mid();
        proof {
            assert(node@ == mid.nodes[last as int]);
            assert(node@ == raised(tv.nodes[last as int], now.0 as int));
        }
        if m.0.0 == p.0.0 && m.1.0 == p.1.0 {
            node.color = Some(color);
            self.arena.nodes.set(last, node);
            proof {
                assert(tv.nodes[last as int].dom.mid() == tp);
                assert(self@.nodes[last as int] == colored(raised(tv.nodes[last as int], now.0 as int), color.0));
                assert forall|i: int| 0 <= i < tv.nodes.len() && i != last implies #[trigger] self@.nodes[i] == mid.nodes[i] by {
                    assert(self.arena.nodes@[i] == self.arena.nodes@[i]);
                }
                assert(self@.nodes =~= tv.inserted(tp, color.0, now.0 as int).nodes);
                lemma_frame(tv, self@, Set::empty());
            }
        } else {
            proof {
                assert(self@.nodes =~= tv.inserted(tp, color.0, now.0 as int).nodes);
            }
        }
        proof {
            if tv.timestamps_ok() {
                lemma_raise_keeps_timestamps(tv, tp, now.0 as int, self@.nodes);
                assert(self@ == (TreeView { nodes: self@.nodes, ..tv }));
            }
        }
    }

    /// Raises the timestamps of the node `h` and of all its ancestors to at least `now`:
    /// walks down from the root toward the center of `h`.
    pub fn update_ancestor_timestamps(&mut self, h: NodeHandle, now: RenderMoment)
        requires
            old(self).wf(),
            old(self)@.live.contains(h.0 as int),
        ensures
            final(self).wf(),
            final(self)@.nodes == Seq::new(
                old(self)@.nodes.len(),
                |i: int|
                    if old(self)@.descent(old(self)@.nodes[h.0 as int].dom.mid()).contains(i) {
                        raised(old(self)@.nodes[i], now.0 as int)
                    } else {
                        old(self)@.nodes[i]
                    },
            ),
            final(self)@.live == old(self)@.live,
            final(self)@.root == old(self)@.root,
            final(self)@.free == old(self)@.free,
            old(self)@.timestamps_ok() ==> final(self)@.timestamps_ok(),
    {
        let ghost tv = self@;
        assert(tv.node_ok(h.0 as int));
        let target = self.arena.nodes[h.0].dom.mid();
        let ghost tp = (target.0@, target.1@);
        let _ = self.descend_raising(target, now);
        proof {
            if tv.timestamps_ok() {
                lemma_raise_keeps_timestamps(tv, tp, now.0 as int, self@.nodes);
                assert(self@ == (TreeView { nodes: self@.nodes, ..tv }));
            }
        }
    }

    /// Recomputes the heights of the node `h` and of all its ancestors, bottom up, from their
    /// children: the node is found by walking down from the root toward its center.
    /// Only the nodes of `path`, the path from the root to `h`, may have stale heights. Afterwards
    /// each node on the path records, as a leaf, heights of zero, and otherwise one more than the
    /// least and the greatest of its children's; the nodes off the path are left as they were,
    /// and of those on it only the heights change.
    fn update_ancestor_heights(&mut self, h: NodeHandle, Ghost(path): Ghost<Seq<int>>)
        requires
            old(self)@.wf_except(path.to_set()),
            old(self).dom@ == default_domain(),
            old(self).arena.nodes@.len() % 4 == 0,
            old(self)@.valid_path(path),
            path.last() == h.0,
        ensures
            final(self).wf(),
            final(self)@.nodes.len() == old(self)@.nodes.len(),
            final(self)@.live == old(self)@.live,
            final(self)@.root == old(self)@.root,
            final(self)@.free == old(self)@.free,
            forall|i: int| 0 <= i < old(self)@.nodes.len() ==> {
                &&& (#[trigger] final(self)@.nodes[i]).dom == old(self)@.nodes[i].dom
                &&& final(self)@.nodes[i].children == old(self)@.nodes[i].children
                &&& final(self)@.nodes[i].color == old(self)@.nodes[i].color
                &&& final(self)@.nodes[i].timestamp == old(self)@.nodes[i].timestamp
                &&& !path.contains(i) ==> final(self)@.nodes[i] == old(self)@.nodes[i]
            },
            forall|k: int| 0 <= k < path.len() ==> #[trigger] final(self)@.heights_ok(path[k]),
    {
        let ghost tv = self@;
        let ghost n = path.len() as int;
        proof {
            lemma_path_node(tv, path.to_set(), path, n - 1);
        }
        let target = self.arena.nodes[h.0].dom.mid();
        let ghost tp = (target.0@, target.1@);
        proof {
            lemma_descent_follows_path(tv, path.to_set(), path, 0);
            assert(path.subrange(0, n) =~= path);
        }
        let mut stack: Vec<usize> = Vec::new();
        let mut cur = self.root.0;
        // collect the path down to the node, top down
        loop
            invariant_except_break
                tv == self@,
                tp == tv.nodes[path.last()].dom.mid(),
                tp == (target.0@, target.1@),
                tv.wf_except(path.to_set()),
                tv.valid_path(path),
                n == path.len(),
                stack@.len() < n,
                forall|k: int| 0 <= k < stack@.len() ==> #[trigger] stack@[k] == path[k],
                cur == path[stack@.len() as int],
            ensures
                stack@.len() == n,
                forall|k: int| 0 <= k < stack@.len() ==> #[trigger] stack@[k] == path[k],
            decreases n - stack@.len(),
        {
            let ghost k = stack@.len() as int;
            proof {
                lemma_path_node(tv, path.to_set(), path, k);
                lemma_descent_follows_path(tv, path.to_set(), path, k);
            }
            stack.push(cur);
            let node = self.arena.nodes[cur];
            let m = node.dom.mid();
            if m.0.0 == target.0.0 && m.1.0 == target.1.0 {
                proof {
                    if k < n - 1 {
                        assert(tv.descent_from(path[k], tp, k) == path.subrange(k, n));
                        assert(tv.descent_from(path[k], tp, k) == seq![path[k]]);
                        assert(path.subrange(k, n).len() == n - k);
                    }
                }
                break;
            }
            proof {
                assert(k < n - 1) by {
                    if k == n - 1 {
                        assert(tv.nodes[path[k]].dom.mid() == tp);
                    }
                }
                lemma_path_step(tv, path.to_set(), path, k);
                assert(tv.descent_from(path[k], tp, k) == path.subrange(k, n));
                assert(path.subrange(k, n)[1] == path[k + 1]);
                lemma_descent_follows_path(tv, path.to_set(), path, k + 1);
            }
            match node.children {
                Some(b) => {
                    proof {
                        let bb = b@;
                        lemma_path_nested(tv, path.to_set(), path, k, n - 1);
                        lemma_path_node(tv, path.to_set(), path, n - 1);
                        assert(tv.nodes[path[k]].dom.contains(tp));
                    }
                    let off = node.dom.child_offset_containing(target);
                    proof {
                        let bb = b@;
                        assert(tv.nodes[path[k]].dom.mid() != tp);
                        assert(tv.descent_from(path[k], tp, k) == seq![path[k]] + tv.descent_from(bb + tv.nodes[path[k]].dom.quadrant(tp), tp, k + 1));
                        assert(path[k + 1] == bb + off);
                    }
                    cur = b.offset(off).0;
                },
                None => {
                    break;
                },
            }
        }
        // recompute the heights, bottom up
        let mut i = stack.len();
        while i > 0
            invariant
                tv.valid_path(path),
                tv.wf_except(path.to_set()),
                n == path.len(),
                i <= n,
                stack@.len() == n,
                forall|k: int| 0 <= k < stack@.len() ==> #[trigger] stack@[k] == path[k],
                self@.wf_except(path.subrange(0, i as int).to_set()),
                self.dom@ == default_domain(),
                self.arena.nodes@.len() % 4 == 0,
                self@.nodes.len() == tv.nodes.len(),
                self@.live == tv.live,
                self@.root == tv.root,
                self@.free == tv.free,
                forall|j: int| 0 <= j < tv.nodes.len() ==> {
                    &&& (#[trigger] self@.nodes[j]).dom == tv.nodes[j].dom
                    &&& self@.nodes[j].children == tv.nodes[j].children
                    &&& self@.nodes[j].color == tv.nodes[j].color
                    &&& self@.nodes[j].timestamp == tv.nodes[j].timestamp
                    &&& !path.contains(j) ==> self@.nodes[j] == tv.nodes[j]
                },
            decreases i,
        {
            i = i - 1;
            let ghost sv = self@;
            let ghost stale = path.subrange(0, i as int + 1).to_set();
            let ghost stale2 = path.subrange(0, i as int).to_set();
            let x = stack[i];
            proof {
                assert forall|j: int| #[trigger] tv.live.contains(j) implies 0 <= j < tv.nodes.len() by {
                    assert(tv.node_ok(j));
                }
                lemma_same_shape(tv, sv);
                lemma_path_node(sv, stale, path, i as int);
            }
            let mut node = self.arena.nodes[x];
            let (mn, mx) = match node.children {
                None => (0u16, 0u16),
                Some(b) => {
                    proof {
                        lemma_heights_bounds(sv, stale, x as int);
                        assert(sv.node_ok(x as int));
                    }
                    let c0 = self.arena.nodes[b.offset(0).0];
                    let c1 = self.arena.nodes[b.offset(1).0];
                    let c2 = self.arena.nodes[b.offset(2).0];
                    let c3 = self.arena.nodes[b.offset(3).0];
                    let mn01 = if c0.min_height < c1.min_height { c0.min_height } else { c1.min_height };
                    let mn23 = if c2.min_height < c3.min_height { c2.min_height } else { c3.min_height };
                    let mn = if mn01 < mn23 { mn01 } else { mn23 };
                    let mx01 = if c0.max_height > c1.max_height { c0.max_height } else { c1.max_height };
                    let mx23 = if c2.max_height > c3.max_height { c2.max_height } else { c3.max_height };
                    let mx = if mx01 > mx23 { mx01 } else { mx23 };
                    proof {
                        let bb = b@;
                        assert(c0@ == sv.nodes[bb]);
                        assert(c1@ == sv.nodes[bb + 1]);
                        assert(c2@ == sv.nodes[bb + 2]);
                        assert(c3@ == sv.nodes[bb + 3]);
                        assert(mn + 1 == 1 + min4(sv.nodes[bb].min_height, sv.nodes[bb + 1].min_height, sv.nodes[bb + 2].min_height, sv.nodes[bb + 3].min_height));
                        assert(mx + 1 == 1 + max4(sv.nodes[bb].max_height, sv.nodes[bb + 1].max_height, sv.nodes[bb + 2].max_height, sv.nodes[bb + 3].max_height));
                    }
                    (mn + 1, mx + 1)
                },
            };
            node.min_height = mn;
            node.max_height = mx;
            self.arena.nodes.set(x, node);
            proof {
                let nv = self@;
                assert forall|j: int| 0 <= j < tv.nodes.len() && j != x implies #[trigger] nv.nodes[j] == sv.nodes[j] by {
                    assert(self.arena.nodes@[j] == self.arena.nodes@[j]);
                }
                assert(path.subrange(0, i as int + 1).to_set() == stale);
                assert(path.contains(x as int)) by {
                    assert(path[i as int] == x);
                }
                // the node now records the right heights, and only its parent may be stale
                assert(nv.heights_ok(x as int)) by {
                    if node.children is Some {
                        let b = sv.nodes[x as int].children->0;
                        assert(sv.is_child(x as int, b));
                        assert(sv.is_child(x as int, b + 1));
                        assert(sv.is_child(x as int, b + 2));
                        assert(sv.is_child(x as int, b + 3));
                        lemma_child_not_earlier(sv, stale, path, i as int, b, i as int);
                        lemma_child_not_earlier(sv, stale, path, i as int, b + 1, i as int);
                        lemma_child_not_earlier(sv, stale, path, i as int, b + 2, i as int);
                        lemma_child_not_earlier(sv, stale, path, i as int, b + 3, i as int);
                    }
                }
                assert forall|j: int| #[trigger] nv.live.contains(j) implies nv.node_ok(j) by {
                    assert(sv.node_ok(j));
                    lemma2_to64();
                    if j == x {
                        if node.children is Some {
                            lemma_heights_bounds(sv, stale, x as int);
                        }
                    }
                    if sv.nodes[j].children is Some {
                        let b = sv.nodes[j].children->0;
                        assert forall|k: int| 0 <= k < 4 implies #[trigger] nv.nodes[b + k].dom == nv.nodes[j].dom.child(k) by {
                            assert(sv.nodes[b + k].dom == sv.nodes[j].dom.child(k));
                        }
                    }
                }
                assert forall|j: int| #[trigger] nv.live.contains(j) && !stale2.contains(j) implies nv.heights_ok(j) by {
                    if j != x {
                        assert(!stale.contains(j)) by {
                            let sub = path.subrange(0, i as int + 1);
                            if stale.contains(j) {
                                assert(sub.contains(j));
                                let k = choose|k: int| 0 <= k < sub.len() && #[trigger] sub[k] == j;
                                assert(path[k] == j);
                                if k < i {
                                    assert(path.subrange(0, i as int)[k] == j);
                                }
                            }
                        }
                        assert(sv.heights_ok(j));
                        if sv.nodes[j].children is Some {
                            let b = sv.nodes[j].children->0;
                            assert(sv.node_ok(j));
                            // if x were a child of j, j would be x's parent, which is stale
                            if b <= x < b + 4 {
                                assert(sv.is_child(j, x as int));
                                if i == 0 {
                                    lemma_unique_parent(sv, stale, j, j, x as int);
                                } else {
                                    let pi = i - 1;
                                    assert(sv.is_child(path[pi as int], path[pi + 1]));
                                    lemma_unique_parent(sv, stale, j, path[pi as int], x as int);
                                    assert(path.subrange(0, i as int)[pi as int] == j);
                                }
                            }
                            assert(nv.nodes[b] == sv.nodes[b]);
                            assert(nv.nodes[b + 1] == sv.nodes[b + 1]);
                            assert(nv.nodes[b + 2] == sv.nodes[b + 2]);
                            assert(nv.nodes[b + 3] == sv.nodes[b + 3]);
                        }
                    }
                }
                assert(nv.wf_except(stale2));
            }
        }
        proof {
            assert(path.subrange(0, 0).to_set() =~= Set::<int>::empty());
            assert forall|k: int| 0 <= k < path.len() implies #[trigger] self@.heights_ok(path[k]) by {
                lemma_path_node(tv, path.to_set(), path, k);
                assert(self@.live.contains(path[k]));
            }
        }
    }

    /// The depth of the shallowest leaf that overlaps the window, if it is less than `bound`
    /// (`retire_depth`, or `u16::MAX` when there is none); `None` if there is no such leaf.
    fn depth_of_shallowest_leaf_overlapping_window(&self, window: Window, retire_depth: Option<u16>) -> (r: Option<u16>)
        requires
            self.wf(),
        ensures
            ({
                let bound = match retire_depth {
                    Some(d) => d as int,
                    None => u16::MAX as int,
                };
                &&& r is None ==> forall|p: Seq<int>| #[trigger] self@.is_candidate(window@, p) ==> p.len() - 1 >= bound
                &&& r matches Some(d) ==> {
                    &&& d < bound
                    &&& exists|p: Seq<int>| #[trigger] self@.is_candidate(window@, p) && p.len() - 1 == d
                    &&& forall|p: Seq<int>| #[trigger] self@.is_candidate(window@, p) ==> p.len() - 1 >= d
                }
            }),
    {
        let ghost tv = self@;
        let ghost w = window@;
        let initial_bound: u16 = match retire_depth {
            Some(d) => d,
            None => u16::MAX,
        };
        let mut stack: Vec<(usize, u16)> = Vec::new();
        stack.push((self.root.0, 0));
        let ghost mut paths: Seq<Seq<int>> = seq![seq![tv.root]];
        let ghost mut witness: Seq<int> = seq![];
        let mut shallowest = initial_bound;
        proof {
            assert(tv.valid_path(seq![tv.root]));
            assert forall|p: Seq<int>| #[trigger] tv.is_candidate(w, p) && p.len() - 1 < shallowest implies stack_meets(stack@, p) by {
                assert(stack@[0].1 < p.len() && p[0] == stack@[0].0 as int);
            }
        }
        loop
            invariant
                tv == self@,
                w == window@,
                self.wf(),
                stack_paths_ok(tv, stack@, paths),
                shallowest <= initial_bound,
                shallowest < initial_bound ==> tv.is_candidate(w, witness) && witness.len() - 1 == shallowest,
                forall|p: Seq<int>| #[trigger] tv.is_candidate(w, p) && p.len() - 1 < shallowest ==> stack_meets(stack@, p),
            ensures
                stack@.len() == 0,
            decreases stack_weight(stack@),
        {
            let ghost old_stack = stack@;
            let (h, depth) = match stack.pop() {
                Some(e) => e,
                None => {
                    break;
                },
            };
            let ghost top = old_stack.len() - 1;
            let ghost hp = paths[top];
            proof {
                assert(old_stack.drop_last() == stack@);
                assert(tv.valid_path(hp));
                lemma_path_node(tv, Set::empty(), hp, depth as int);
                paths = paths.drop_last();
                assert(stack_weight(stack@) < stack_weight(old_stack)) by {
                    lemma_dfs_weight_pos(depth as int);
                }
            }
            // every candidate shallower than the bound that the popped entry was covering
            let ghost covered = |p: Seq<int>| depth < p.len() && p[depth as int] == h as int;
            proof {
                assert forall|p: Seq<int>| #[trigger] tv.is_candidate(w, p) && p.len() - 1 < shallowest && !covered(p) implies stack_meets(stack@, p) by {
                    assert(stack_meets(old_stack, p));
                    let x = choose|x: int| 0 <= x < old_stack.len() && (#[trigger] old_stack[x]).1 < p.len() && p[old_stack[x].1 as int] == old_stack[x].0 as int;
                    assert(x != top);
                    assert(stack@[x] == old_stack[x]);
                }
            }
            if depth >= shallowest {
                proof {
                    assert forall|p: Seq<int>| #[trigger] tv.is_candidate(w, p) && p.len() - 1 < shallowest implies stack_meets(stack@, p) by {
                        assert(!covered(p));
                    }
                }
                continue;
            }
            let node = self.arena.nodes[h];
            let dom = node.dom;
            if !window.overlaps(Window::from_domain(dom)) {
                proof {
                    assert forall|p: Seq<int>| #[trigger] tv.is_candidate(w, p) && p.len() - 1 < shallowest implies stack_meets(stack@, p) by {
                        if covered(p) {
                            lemma_path_nested(tv, Set::empty(), p, depth as int, p.len() - 1);
                            lemma_path_node(tv, Set::empty(), p, p.len() - 1);
                            lemma_window_nested(w, tv.nodes[h as int].dom, tv.nodes[p.last()].dom);
                        }
                    }
                }
                continue;
            }
            match node.children {
                Some(b) => {
                    proof {
                        assert(tv.heights_ok(h as int));
                        lemma_heights_bounds(tv, Set::empty(), h as int);
                    }
                    let shallowest_descendant_leaf_depth = node.min_height + depth;
                    let ghost covered_deep = |p: Seq<int>| tv.is_candidate(w, p) && covered(p) ==> p.len() - 1 >= shallowest_descendant_leaf_depth;
                    proof {
                        assert forall|p: Seq<int>| #[trigger] tv.is_candidate(w, p) && covered(p) implies p.len() - 1 >= shallowest_descendant_leaf_depth by {
                            lemma_leaf_depth_bounds(tv, p, depth as int);
                        }
                    }
                    if shallowest_descendant_leaf_depth >= shallowest {
                        proof {
                            assert forall|p: Seq<int>| #[trigger] tv.is_candidate(w, p) && p.len() - 1 < shallowest implies stack_meets(stack@, p) by {
                                assert(!covered(p));
                            }
                        }
                        continue;
                    }
                    if window.contains(Window::from_domain(dom)) {
                        proof {
                            let q = lemma_min_height_reached(tv, hp);
                            lemma_path_node(tv, Set::empty(), q, q.len() - 1);
                            assert(q[depth as int] == h) by {
                                assert(q.subrange(0, hp.len() as int)[depth as int] == hp[depth as int]);
                            }
                            lemma_path_nested(tv, Set::empty(), q, depth as int, q.len() - 1);
                            lemma_window_nested(w, tv.nodes[h as int].dom, tv.nodes[q.last()].dom);
                            witness = q;
                            assert forall|p: Seq<int>| #[trigger] tv.is_candidate(w, p) && p.len() - 1 < shallowest_descendant_leaf_depth implies stack_meets(stack@, p) by {
                                assert(!covered(p));
                            }
                        }
                        shallowest = shallowest_descendant_leaf_depth;
                        continue;
                    }
                    let ghost pre = stack@;
                    stack.push((b.offset(0).0, depth + 1));
                    stack.push((b.offset(1).0, depth + 1));
                    stack.push((b.offset(2).0, depth + 1));
                    stack.push((b.offset(3).0, depth + 1));
                    proof {
                        let bb = b@;
                        let r = lemma_push_children(tv, pre, paths, hp, bb);
                        assert(stack@ =~= r.0);
                        paths = r.1;
                        assert(old_stack.last() == (h, depth));
                        lemma_stack_weight_children(old_stack, (h, depth), stack@.subrange(pre.len() as int, stack@.len() as int));
                        assert(old_stack.drop_last() + stack@.subrange(pre.len() as int, stack@.len() as int) =~= stack@);
                        assert forall|p: Seq<int>| #[trigger] tv.is_candidate(w, p) && p.len() - 1 < shallowest implies stack_meets(stack@, p) by {
                            if covered(p) {
                                let dd = depth as int;
                                assert(dd < p.len() - 1) by {
                                    if dd == p.len() - 1 {
                                        assert(tv.is_leaf(p.last()));
                                    }
                                }
                                assert(tv.is_child(p[dd], p[dd + 1]));
                                let k = p[dd + 1] - bb;
                                let x = pre.len() + k;
                                assert(stack@[x] == ((bb + k) as usize, (depth + 1) as u16));
                                assert(stack@[x].1 < p.len() && p[stack@[x].1 as int] == stack@[x].0 as int);
                            } else {
                                assert(stack_meets(pre, p));
                                let x = choose|x: int| 0 <= x < pre.len() && (#[trigger] pre[x]).1 < p.len() && p[pre[x].1 as int] == pre[x].0 as int;
                                assert(stack@[x] == pre[x]);
                            }
                        }
                    }
                },
                None => {
                    proof {
                        witness = hp;
                        assert forall|p: Seq<int>| #[trigger] tv.is_candidate(w, p) && p.len() - 1 < depth implies stack_meets(stack@, p) by {
                            if covered(p) {
                                let dd = depth as int;
                                if dd < p.len() - 1 {
                                    assert(tv.is_child(p[dd], p[dd + 1]));
                                }
                            }
                        }
                    }
                    shallowest = depth;
                },
            }
        }
        proof {
            assert forall|p: Seq<int>| #[trigger] tv.is_candidate(w, p) implies p.len() - 1 >= shallowest by {
                if p.len() - 1 < shallowest {
                    assert(stack_meets(stack@, p));
                }
            }
        }
        if shallowest == initial_bound {
            None
        } else {
            Some(shallowest)
        }
    }

    /// Splits the leaf `leaf`, at the end of `path`: takes the next block for its children and
    /// fills it with four uncolored leaves over its quadrants, stamped `now`. Only the heights on
    /// the path are left stale.
    fn split_leaf(&mut self, leaf: usize, now: RenderMoment, Ghost(path): Ghost<Seq<int>>) -> (b: BlockHandle)
        requires
            old(self).wf(),
            old(self)@.valid_path(path),
            path.last() == leaf,
            old(self)@.is_leaf(leaf as int),
            old(self)@.nodes[leaf as int].dom.can_split(),
        ensures
            final(self)@ == old(self)@.split_at(leaf as int, now.0 as int),
            b@ == old(self)@.next_block(),
            forall|k: int| 0 <= k < 4 ==> !#[trigger] old(self)@.live.contains(b@ + k),
            final(self)@.wf_except(path.to_set()),
            final(self).dom == old(self).dom,
            final(self).arena.nodes@.len() % 4 == 0,
    {
        let ghost tv = self@;
        let ghost n = path.len() - 1;
        proof {
            lemma_path_node(tv, Set::empty(), path, n);
        }
        let mut leaf_node = self.arena.nodes[leaf];
        proof {
            assert forall|x: int| 0 <= x < self.arena.free_list@.len() implies
                block_index_ok(#[trigger] self.arena.free_list@[x]@) && self.arena.free_list@[x]@ + 4 <= self.arena.nodes@.len() by {
                assert(tv.free[x] == self.arena.free_list@[x]@);
            }
        }
        let b = self.arena.alloc_block();
        let ghost bb = b@;
        let ghost mid = self.arena.nodes@;
        proof {
            assert(bb == tv.next_block());
            // the block holds no live node
            assert forall|k: int| 0 <= k < 4 implies !#[trigger] tv.live.contains(bb + k) by {
                if tv.free.len() > 0 {
                    assert(tv.free[tv.free.len() - 1] == bb);
                } else if tv.live.contains(bb + k) {
                    assert(tv.node_ok(bb + k));
                }
            }
            assert(leaf_node@ == tv.nodes[leaf as int]);
        }
        let doms = leaf_node.dom.split().unwrap();
        self.arena.nodes.set(b.offset(0).0, Node { dom: doms[0], children: None, color: None, min_height: 0, max_height: 0, timestamp: now });
        self.arena.nodes.set(b.offset(1).0, Node { dom: doms[1], children: None, color: None, min_height: 0, max_height: 0, timestamp: now });
        self.arena.nodes.set(b.offset(2).0, Node { dom: doms[2], children: None, color: None, min_height: 0, max_height: 0, timestamp: now });
        self.arena.nodes.set(b.offset(3).0, Node { dom: doms[3], children: None, color: None, min_height: 0, max_height: 0, timestamp: now });
        leaf_node.children = Some(b);
        self.arena.nodes.set(leaf, leaf_node);
        self.live = Ghost(self.live@.union(Set::new(|i: int| bb <= i < bb + 4)));
        proof {
            let sp = tv.split_at(leaf as int, now.0 as int);
            let nv = self@;
            assert(!tv.live.contains(bb + 0));
            assert(leaf != bb + 0 && leaf != bb + 1 && leaf != bb + 2 && leaf != bb + 3) by {
                assert(!tv.live.contains(bb + 1));
                assert(!tv.live.contains(bb + 2));
                assert(!tv.live.contains(bb + 3));
            }
            assert forall|i: int| 0 <= i < sp.nodes.len() implies #[trigger] nv.nodes[i] == sp.nodes[i] by {
                if i == leaf {
                } else if bb <= i < bb + 4 {
                    assert(doms[i - bb]@ == tv.nodes[leaf as int].dom.child(i - bb));
                } else {
                    assert(self.arena.nodes@[i] == mid[i]);
                    if tv.free.len() == 0 {
                        assert(i < tv.nodes.len());
                        assert(mid[i] == old(self).arena.nodes@[i]);
                    }
                }
            }
            assert(nv.nodes =~= sp.nodes);
            assert(nv.free =~= sp.free);
            assert(nv == sp);
            let blk = Set::new(|i: int| bb <= i < bb + 4);
            assert(nv.live == tv.live.union(blk));
            let ld = tv.nodes[leaf as int].dom;
            assert(tv.heights_ok(leaf as int));
            // the old live nodes keep everything but the leaf's children
            assert forall|j: int| #[trigger] tv.live.contains(j) implies {
                &&& nv.nodes[j].dom == tv.nodes[j].dom
                &&& nv.nodes[j].min_height == tv.nodes[j].min_height
                &&& nv.nodes[j].max_height == tv.nodes[j].max_height
                &&& j != leaf ==> nv.nodes[j] == tv.nodes[j]
                &&& !blk.contains(j)
            } by {
                assert(tv.node_ok(j));
                if bb <= j < bb + 4 {
                    assert(tv.live.contains(bb + (j - bb)));
                }
            }
            assert forall|i: int| #[trigger] nv.live.contains(i) implies nv.node_ok(i) by {
                if blk.contains(i) {
                    let k = i - bb;
                    lemma_child_inside(ld, k);
                    assert(nv.nodes[i] == new_leaf(ld.child(k), now.0 as int));
                    assert(pow2(0) == 1) by {
                        lemma2_to64();
                    }
                } else {
                    assert(tv.live.contains(i));
                    assert(tv.node_ok(i));
                    if i == leaf {
                        assert forall|k: int| 0 <= k < 4 implies #[trigger] nv.live.contains(bb + k) by {
                            assert(blk.contains(bb + k));
                        }
                        assert forall|k: int| 0 <= k < 4 implies #[trigger] nv.nodes[bb + k].dom == nv.nodes[i].dom.child(k) by {
                            assert(nv.nodes[bb + k] == new_leaf(ld.child(k), now.0 as int));
                        }
                    } else if tv.nodes[i].children is Some {
                        let c = tv.nodes[i].children->0;
                        assert forall|k: int| 0 <= k < 4 implies #[trigger] nv.live.contains(c + k) by {
                            assert(tv.live.contains(c + k));
                        }
                        assert forall|k: int| 0 <= k < 4 implies #[trigger] nv.nodes[c + k].dom == nv.nodes[i].dom.child(k) by {
                            assert(tv.live.contains(c + k));
                            assert(tv.nodes[c + k].dom == tv.nodes[i].dom.child(k));
                        }
                    }
                }
            }
            assert(path.to_set().contains(leaf as int)) by {
                assert(path[n] == leaf);
            }
            assert forall|i: int| #[trigger] nv.live.contains(i) && !path.to_set().contains(i) implies nv.heights_ok(i) by {
                if blk.contains(i) {
                    assert(nv.nodes[i] == new_leaf(ld.child(i - bb), now.0 as int));
                } else {
                    assert(tv.live.contains(i));
                    assert(tv.node_ok(i));
                    assert(tv.heights_ok(i));
                    if tv.nodes[i].children is Some {
                        let c = tv.nodes[i].children->0;
                        assert(tv.live.contains(c + 0));
                        assert(tv.live.contains(c + 1));
                        assert(tv.live.contains(c + 2));
                        assert(tv.live.contains(c + 3));
                        assert(nv.nodes[c] == nv.nodes[c + 0]);
                    }
                }
            }
            assert forall|i: int, j: int|
                #![trigger nv.live.contains(i), nv.live.contains(j)]
                nv.live.contains(i) && nv.live.contains(j) && nv.nodes[i].children is Some
                    && nv.nodes[i].children == nv.nodes[j].children implies i == j by {
                if blk.contains(i) {
                    assert(nv.nodes[i] == new_leaf(ld.child(i - bb), now.0 as int));
                } else if blk.contains(j) {
                    assert(nv.nodes[j] == new_leaf(ld.child(j - bb), now.0 as int));
                } else if i == leaf && j != leaf {
                    assert(tv.node_ok(j));
                    assert(tv.live.contains(tv.nodes[j].children->0 + 0));
                } else if j == leaf && i != leaf {
                    assert(tv.node_ok(i));
                    assert(tv.live.contains(tv.nodes[i].children->0 + 0));
                } else {
                    assert(tv.live.contains(i) && tv.live.contains(j));
                }
            }
            assert(tv.live.contains(tv.root));
            assert forall|i: int| #[trigger] nv.live.contains(i) implies nv.nodes[i].children != Some(nv.root) by {
                if blk.contains(i) {
                    assert(nv.nodes[i] == new_leaf(ld.child(i - bb), now.0 as int));
                } else if i != leaf {
                    assert(tv.live.contains(i));
                }
            }
            if tv.free.len() > 0 {
                let last = tv.free.len() - 1;
                assert forall|x: int| 0 <= x < nv.free.len() implies {
                    &&& block_index_ok(#[trigger] nv.free[x])
                    &&& nv.free[x] + 4 <= nv.nodes.len()
                } by {
                    assert(nv.free[x] == tv.free[x]);
                }
                assert forall|x: int, k: int| 0 <= x < nv.free.len() && 0 <= k < 4 implies !#[trigger] nv.live.contains(nv.free[x] + k) by {
                    assert(nv.free[x] == tv.free[x]);
                    assert(!tv.live.contains(tv.free[x] + k));
                    assert(tv.free[x] != tv.free[last]);
                    assert(block_index_ok(tv.free[x]));
                    assert(block_index_ok(tv.free[last]));
                }
                assert forall|x: int, y: int| 0 <= x < y < nv.free.len() implies nv.free[x] != nv.free[y] by {
                    assert(nv.free[x] == tv.free[x]);
                    assert(nv.free[y] == tv.free[y]);
                }
            } else {
                assert(nv.free.len() == 0);
            }
            assert(nv.wf_except(path.to_set()));

        }
        b
    }

    /// The first leaf met in a depth-first walk that overlaps the window, lies at depth `target`,
    /// and can be split, with the path to it; `None` if there is none.
    fn select_leaf_to_split(&self, window: Window, target: u16) -> (r: Option<(usize, Ghost<Seq<int>>)>)
        requires
            self.wf(),
        ensures
            r matches Some(x) ==> {
                let p = x.1@;
                &&& self@.is_candidate(window@, p)
                &&& p.len() - 1 == target
                &&& p.last() == x.0
                &&& self@.nodes[p.last()].dom.can_split()
                &&& forall|q: Seq<int>|
                    #[trigger] self@.is_candidate(window@, q) && q.len() - 1 == target && self@.nodes[q.last()].dom.can_split()
                        && q != p ==> walks_before(p, q)
            },
            r is None ==> forall|p: Seq<int>|
                #[trigger] self@.is_candidate(window@, p) && p.len() - 1 == target ==> !self@.nodes[p.last()].dom.can_split(),
    {
        let ghost tv = self@;
        let ghost w = window@;
        let mut stack: Vec<(usize, u16)> = Vec::new();
        stack.push((self.root.0, 0));
        let ghost mut paths: Seq<Seq<int>> = seq![seq![tv.root]];
        proof {
            assert(tv.valid_path(seq![tv.root]));
            assert forall|p: Seq<int>|
                #[trigger] tv.is_candidate(w, p) && p.len() - 1 == target && tv.nodes[p.last()].dom.can_split() implies stack_meets(stack@, p) by {
                assert(stack@[0].1 < p.len() && p[0] == stack@[0].0 as int);
            }
        }
        loop
            invariant
                tv == self@,
                w == window@,
                self.wf(),
                stack_paths_ok(tv, stack@, paths),
                stack_ordered(paths),
                forall|p: Seq<int>|
                    #[trigger] tv.is_candidate(w, p) && p.len() - 1 == target && tv.nodes[p.last()].dom.can_split() ==> stack_meets(stack@, p),
            ensures
                stack@.len() == 0,
            decreases stack_weight(stack@),
        {
            let ghost old_stack = stack@;
            let (h, depth) = match stack.pop() {
                Some(e) => e,
                None => {
                    break;
                },
            };
            let ghost top = old_stack.len() - 1;
            let ghost hp = paths[top];
            let ghost old_paths = paths;
            proof {
                assert(old_stack.drop_last() == stack@);
                assert(tv.valid_path(hp));
                lemma_path_node(tv, Set::empty(), hp, depth as int);
                paths = paths.drop_last();
                assert(stack_weight(stack@) < stack_weight(old_stack)) by {
                    lemma_dfs_weight_pos(depth as int);
                }
            }
            let ghost covered = |p: Seq<int>| depth < p.len() && p[depth as int] == h as int;
            proof {
                assert forall|p: Seq<int>|
                    #[trigger] tv.is_candidate(w, p) && p.len() - 1 == target && tv.nodes[p.last()].dom.can_split() && !covered(p)
                    implies stack_meets(stack@, p) by {
                    assert(stack_meets(old_stack, p));
                    let x = choose|x: int| 0 <= x < old_stack.len() && (#[trigger] old_stack[x]).1 < p.len() && p[old_stack[x].1 as int] == old_stack[x].0 as int;
                    assert(x != top);
                    assert(stack@[x] == old_stack[x]);
                }
            }
            let node = self.arena.nodes[h];
            let dom = node.dom;
            if !window.overlaps(Window::from_domain(dom)) {
                proof {
                    assert forall|p: Seq<int>|
                        #[trigger] tv.is_candidate(w, p) && p.len() - 1 == target && tv.nodes[p.last()].dom.can_split()
                        implies stack_meets(stack@, p) by {
                        if covered(p) {
                            lemma_path_nested(tv, Set::empty(), p, depth as int, p.len() - 1);
                            lemma_path_node(tv, Set::empty(), p, p.len() - 1);
                            lemma_window_nested(w, tv.nodes[h as int].dom, tv.nodes[p.last()].dom);
                        }
                    }
                }
                continue;
            }
            match node.children {
                Some(b) => {
                    proof {
                        assert(tv.heights_ok(h as int));
                        lemma_heights_bounds(tv, Set::empty(), h as int);
                    }
                    let shallowest_descendant_leaf_depth = node.min_height + depth;
                    if shallowest_descendant_leaf_depth > target {
                        proof {
                            assert forall|p: Seq<int>|
                                #[trigger] tv.is_candidate(w, p) && p.len() - 1 == target && tv.nodes[p.last()].dom.can_split()
                                implies stack_meets(stack@, p) by {
                                if covered(p) {
                                    lemma_leaf_depth_bounds(tv, p, depth as int);
                                }
                            }
                        }
                        continue;
                    }
                    let ghost pre = stack@;
                    stack.push((b.offset(0).0, depth + 1));
                    stack.push((b.offset(1).0, depth + 1));
                    stack.push((b.offset(2).0, depth + 1));
                    stack.push((b.offset(3).0, depth + 1));
                    proof {
                        let bb = b@;
                        let r = lemma_push_children(tv, pre, paths, hp, bb);
                        assert(stack@ =~= r.0);
                        paths = r.1;
                        lemma_push_keeps_order(old_paths, bb);
                        assert(paths =~= old_paths.drop_last() + Seq::new(4, |k: int| old_paths.last().push(bb + k)));
                        assert(old_stack.last() == (h, depth));
                        lemma_stack_weight_children(old_stack, (h, depth), stack@.subrange(pre.len() as int, stack@.len() as int));
                        assert(old_stack.drop_last() + stack@.subrange(pre.len() as int, stack@.len() as int) =~= stack@);
                        assert forall|p: Seq<int>|
                            #[trigger] tv.is_candidate(w, p) && p.len() - 1 == target && tv.nodes[p.last()].dom.can_split()
                            implies stack_meets(stack@, p) by {
                            if covered(p) {
                                let dd = depth as int;
                                assert(dd < p.len() - 1) by {
                                    if dd == p.len() - 1 {
                                        assert(tv.is_leaf(p.last()));
                                    }
                                }
                                assert(tv.is_child(p[dd], p[dd + 1]));
                                let k = p[dd + 1] - bb;
                                let x = pre.len() + k;
                                assert(stack@[x] == ((bb + k) as usize, (depth + 1) as u16));
                                assert(stack@[x].1 < p.len() && p[stack@[x].1 as int] == stack@[x].0 as int);
                            } else {
                                assert(stack_meets(pre, p));
                                let x = choose|x: int| 0 <= x < pre.len() && (#[trigger] pre[x]).1 < p.len() && p[pre[x].1 as int] == pre[x].0 as int;
                                assert(stack@[x] == pre[x]);
                            }
                        }
                    }
                },
                None => {
                    let splittable = match dom.split() {
                        Some(_) => true,
                        None => false,
                    };
                    if depth == target && splittable {
                        proof {
                            assert(tv.is_leaf(hp.last()));
                            assert(tv.is_candidate(w, hp));
                            assert forall|q: Seq<int>|
                                #[trigger] tv.is_candidate(w, q) && q.len() - 1 == target && tv.nodes[q.last()].dom.can_split()
                                    && q != hp implies walks_before(hp, q) by {
                                lemma_first_met(tv, old_stack, old_paths, q);
                            }
                        }
                        return Some((h, Ghost(hp)));
                    }
                    proof {
                        assert forall|p: Seq<int>|
                            #[trigger] tv.is_candidate(w, p) && p.len() - 1 == target && tv.nodes[p.last()].dom.can_split()
                            implies stack_meets(stack@, p) by {
                            if covered(p) {
                                let dd = depth as int;
                                if dd < p.len() - 1 {
                                    assert(tv.is_child(p[dd], p[dd + 1]));
                                }
                            }
                        }
                    }
                },
            }
        }
        proof {
            assert forall|p: Seq<int>|
                #[trigger] tv.is_candidate(w, p) && p.len() - 1 == target implies !tv.nodes[p.last()].dom.can_split() by {
                if tv.nodes[p.last()].dom.can_split() {
                    assert(stack_meets(stack@, p));
                }
            }
        }
        None
    }

    /// The first node met in a depth-first walk that has children and lies at depth `target`,
    /// with the path to it; `None` if there is none.
    fn select_node_to_retire(&self, target: u16) -> (r: Option<(usize, Ghost<Seq<int>>)>)
        requires
            self.wf(),
        ensures
            r matches Some(x) ==> self@.is_retirable(target as int, x.1@) && x.1@.last() == x.0,
            r matches Some(x) ==> forall|q: Seq<int>|
                #[trigger] self@.is_retirable(target as int, q) && q != x.1@ ==> walks_before(x.1@, q),
            r is None ==> forall|p: Seq<int>| !#[trigger] self@.is_retirable(target as int, p),
    {
        let ghost tv = self@;
        let mut stack: Vec<(usize, u16)> = Vec::new();
        stack.push((self.root.0, 0));
        let ghost mut paths: Seq<Seq<int>> = seq![seq![tv.root]];
        proof {
            assert(tv.valid_path(seq![tv.root]));
            assert forall|p: Seq<int>| #[trigger] tv.is_retirable(target as int, p) implies stack_meets(stack@, p) by {
                assert(stack@[0].1 < p.len() && p[0] == stack@[0].0 as int);
            }
        }
        loop
            invariant
                tv == self@,
                self.wf(),
                stack_paths_ok(tv, stack@, paths),
                stack_ordered(paths),
                forall|x: int| 0 <= x < stack@.len() ==> (#[trigger] stack@[x]).1 <= target,
                forall|p: Seq<int>| #[trigger] tv.is_retirable(target as int, p) ==> stack_meets(stack@, p),
            ensures
                stack@.len() == 0,
            decreases stack_weight(stack@),
        {
            let ghost old_stack = stack@;
            let (h, depth) = match stack.pop() {
                Some(e) => e,
                None => {
                    break;
                },
            };
            let ghost top = old_stack.len() - 1;
            let ghost hp = paths[top];
            let ghost old_paths = paths;
            proof {
                assert(old_stack.drop_last() == stack@);
                assert(tv.valid_path(hp));
                assert(old_stack[top] == (h, depth));
                lemma_path_node(tv, Set::empty(), hp, depth as int);
                paths = paths.drop_last();
                assert(stack_weight(stack@) < stack_weight(old_stack)) by {
                    lemma_dfs_weight_pos(depth as int);
                }
            }
            let ghost covered = |p: Seq<int>| depth < p.len() && p[depth as int] == h as int;
            proof {
                assert forall|p: Seq<int>| #[trigger] tv.is_retirable(target as int, p) && !covered(p) implies stack_meets(stack@, p) by {
                    assert(stack_meets(old_stack, p));
                    let x = choose|x: int| 0 <= x < old_stack.len() && (#[trigger] old_stack[x]).1 < p.len() && p[old_stack[x].1 as int] == old_stack[x].0 as int;
                    assert(x != top);
                    assert(stack@[x] == old_stack[x]);
                }
            }
            let node = self.arena.nodes[h];
            match node.children {
                None => {
                    proof {
                        assert forall|p: Seq<int>| #[trigger] tv.is_retirable(target as int, p) implies stack_meets(stack@, p) by {
                            if covered(p) {
                                let dd = depth as int;
                                if dd < p.len() - 1 {
                                    assert(tv.is_child(p[dd], p[dd + 1]));
                                }
                            }
                        }
                    }
                },
                Some(b) => {
                    if depth >= target {
                        proof {
                            assert(depth == target);
                            assert(tv.is_retirable(target as int, hp));
                            assert forall|q: Seq<int>| #[trigger] tv.is_retirable(target as int, q) && q != hp
                                implies walks_before(hp, q) by {
                                lemma_first_met(tv, old_stack, old_paths, q);
                            }
                        }
                        return Some((h, Ghost(hp)));
                    }
                    proof {
                        assert(tv.heights_ok(h as int));
                        lemma_heights_bounds(tv, Set::empty(), h as int);
                    }
                    let deepest_descendant_leaf_depth = node.max_height + depth;
                    if deepest_descendant_leaf_depth > target {
                        let ghost pre = stack@;
                        stack.push((b.offset(0).0, depth + 1));
                        stack.push((b.offset(1).0, depth + 1));
                        stack.push((b.offset(2).0, depth + 1));
                        stack.push((b.offset(3).0, depth + 1));
                        proof {
                            let bb = b@;
                            let r = lemma_push_children(tv, pre, paths, hp, bb);
                            assert(stack@ =~= r.0);
                            paths = r.1;
                            lemma_push_keeps_order(old_paths, bb);
                            assert(paths =~= old_paths.drop_last() + Seq::new(4, |k: int| old_paths.last().push(bb + k)));
                            lemma_stack_weight_children(old_stack, (h, depth), stack@.subrange(pre.len() as int, stack@.len() as int));
                            assert(old_stack.drop_last() + stack@.subrange(pre.len() as int, stack@.len() as int) =~= stack@);
                            assert forall|x: int| 0 <= x < stack@.len() implies (#[trigger] stack@[x]).1 <= target by {
                                if x < pre.len() {
                                    assert(stack@[x] == pre[x]);
                                    assert(pre[x] == old_stack[x]);
                                }
                            }
                            assert forall|p: Seq<int>| #[trigger] tv.is_retirable(target as int, p) implies stack_meets(stack@, p) by {
                                if covered(p) {
                                    let dd = depth as int;
                                    assert(tv.is_child(p[dd], p[dd + 1]));
                                    let k = p[dd + 1] - bb;
                                    let x = pre.len() + k;
                                    assert(stack@[x] == ((bb + k) as usize, (depth + 1) as u16));
                                    assert(stack@[x].1 < p.len() && p[stack@[x].1 as int] == stack@[x].0 as int);
                                } else {
                                    assert(stack_meets(pre, p));
                                    let x = choose|x: int| 0 <= x < pre.len() && (#[trigger] pre[x]).1 < p.len() && p[pre[x].1 as int] == pre[x].0 as int;
                                    assert(stack@[x] == pre[x]);
                                }
                            }
                        }
                    } else {
                        proof {
                            assert forall|p: Seq<int>| #[trigger] tv.is_retirable(target as int, p) implies stack_meets(stack@, p) by {
                                if covered(p) {
                                    // a leaf lies below the end of `p`, deeper than `target`
                                    let q = lemma_min_height_reached(tv, p);
                                    lemma_path_node(tv, Set::empty(), p, p.len() - 1);
                                    assert(tv.heights_ok(p.last()));
                                    assert(q[depth as int] == h) by {
                                        assert(q.subrange(0, p.len() as int)[depth as int] == p[depth as int]);
                                    }
                                    lemma_leaf_depth_bounds(tv, q, depth as int);
                                }
                            }
                        }
                    }
                },
            }
        }
        proof {
            assert forall|p: Seq<int>| !#[trigger] tv.is_retirable(target as int, p) by {
                if tv.is_retirable(target as int, p) {
                    assert(stack_meets(stack@, p));
                }
            }
        }
        None
    }

    /// Makes the node `h`, at the end of `path`, let go of its children; returns their block, which
    /// stays live, detached. Only the heights on the path are left stale.
    fn detach_children(&mut self, h: usize, Ghost(path): Ghost<Seq<int>>) -> (b: BlockHandle)
        requires
            old(self).wf(),
            old(self)@.valid_path(path),
            path.last() == h,
            !old(self)@.is_leaf(h as int),
        ensures
            final(self)@ == old(self)@.pruned_at(h as int),
            old(self)@.nodes[h as int].children == Some(b@),
            final(self)@.wf_except(path.to_set()),
            final(self)@.is_detached(b@),
            final(self).dom == old(self).dom,
            final(self).arena.nodes@.len() % 4 == 0,
    {
        let ghost tv = self@;
        proof {
            lemma_path_node(tv, Set::empty(), path, path.len() - 1);
        }
        let mut node = self.arena.nodes[h];
        let b = match node.children {
            Some(b) => b,
            None => BlockHandle::uninit(),
        };
        node.children = None;
        self.arena.nodes.set(h, node);
        proof {
            let nv = self@;
            let pv = tv.pruned_at(h as int);
            assert(nv.nodes =~= pv.nodes) by {
                assert forall|i: int| 0 <= i < nv.nodes.len() implies nv.nodes[i] == pv.nodes[i] by {
                    if i != h {
                        assert(self.arena.nodes@[i] == old(self).arena.nodes@[i]);
                    }
                }
            }
            assert(nv == pv);
            assert(path.to_set().contains(h as int)) by {
                assert(path[path.len() - 1] == h);
            }
            assert forall|i: int| #[trigger] nv.live.contains(i) implies nv.node_ok(i) by {
                assert(tv.node_ok(i));
                if i != h && tv.nodes[i].children is Some {
                    let c = tv.nodes[i].children->0;
                    assert forall|k: int| 0 <= k < 4 implies #[trigger] nv.nodes[c + k].dom == nv.nodes[i].dom.child(k) by {
                        assert(tv.nodes[c + k].dom == tv.nodes[i].dom.child(k));
                    }
                }
            }
            assert forall|i: int| #[trigger] nv.live.contains(i) && !path.to_set().contains(i) implies nv.heights_ok(i) by {
                assert(tv.heights_ok(i));
                assert(tv.node_ok(i));
                if tv.nodes[i].children is Some {
                    let c = tv.nodes[i].children->0;
                    assert(nv.nodes[c] == nv.nodes[c + 0]);
                }
            }
            assert forall|i: int, j: int|
                #![trigger nv.live.contains(i), nv.live.contains(j)]
                nv.live.contains(i) && nv.live.contains(j) && nv.nodes[i].children is Some
                    && nv.nodes[i].children == nv.nodes[j].children implies i == j by {
                assert(tv.live.contains(i) && tv.live.contains(j));
            }
            assert(nv.wf_except(path.to_set()));
            assert(tv.node_ok(h as int));
            assert forall|i: int| #[trigger] nv.live.contains(i) implies nv.nodes[i].children != Some(b@) by {
                if i != h {
                    assert(tv.live.contains(h as int) && tv.live.contains(i));
                }
            }
            assert forall|k: int| 0 <= k < 4 implies #[trigger] nv.live.contains(b@ + k) by {
                assert(tv.live.contains(b@ + k));
            }
        }
        b
    }

    /// Retiring with the depth given: the block of the first node with children met at depth
    /// `target` in a depth-first walk, with the path to that node.
    fn retire_below(&mut self, target: u16, now: RenderMoment) -> (r: (Option<BlockHandle>, Ghost<Seq<int>>))
        requires
            old(self).wf(),
        ensures
            final(self).wf(),
            r.0 is None ==> final(self)@ == old(self)@,
            r.0 is None ==> forall|q: Seq<int>| !#[trigger] old(self)@.is_retirable(target as int, q),
            r.0 matches Some(b) ==> {
                let p = r.1@;
                &&& old(self)@.is_retirable(target as int, p)
                &&& forall|q: Seq<int>| #[trigger] old(self)@.is_retirable(target as int, q) && q != p ==> walks_before(p, q)
                &&& old(self)@.nodes[p.last()].children == Some(b@)
                &&& final(self)@.retired_from(old(self)@, p, now.0 as int)
                &&& final(self)@.is_detached(b@)
            },
    {
        let ghost tv = self@;
        let (h, Ghost(path)) = match self.select_node_to_retire(target) {
            Some(x) => x,
            None => {
                return (None, Ghost(Seq::empty()));
            },
        };
        let b = self.detach_children(h, Ghost(path));
        let ghost sv = self@;
        proof {
            let n = path.len() - 1;
            assert forall|k: int| 0 <= k < n implies path[k] != h by {
                lemma_path_distinct(tv, Set::empty(), path, k, n);
            }
            assert forall|k: int| 0 <= k < path.len() - 1 implies #[trigger] sv.is_child(path[k], path[k + 1]) by {
                assert(tv.is_child(path[k], path[k + 1]));
                lemma_path_node(tv, Set::empty(), path, k);
                assert(path[k] != h);
                lemma_path_node(tv, Set::empty(), path, n);
                assert(sv.nodes[path[k]] == tv.nodes[path[k]]);
            }
            assert(sv.valid_path(path));
        }
        self.update_ancestor_heights(NodeHandle::new(h), Ghost(path));
        let ghost hv = self@;
        proof {
            assert forall|i: int| #[trigger] sv.live.contains(i) implies 0 <= i < sv.nodes.len() by {
                assert(sv.node_ok(i));
            }
            lemma_same_shape(sv, hv);
            assert(hv.valid_path(path));
            lemma_descent_follows_path(hv, Set::empty(), path, 0);
            assert(path.subrange(0, path.len() as int) =~= path);
            assert(hv.live.contains(h as int)) by {
                lemma_path_node(hv, Set::empty(), path, path.len() - 1);
            }
        }
        self.update_ancestor_timestamps(NodeHandle::new(h), now);
        proof {
            let fv = self@;
            assert(hv.descent(hv.nodes[h as int].dom.mid()) == path);
            lemma_settle_result(sv, hv, fv, path, now.0 as int, true);
            assert(fv.is_detached(b@)) by {
                assert forall|i: int| #[trigger] fv.live.contains(i) implies fv.nodes[i].children != Some(b@) by {
                    assert(sv.live.contains(i));
                }
                assert forall|k: int| 0 <= k < 4 implies #[trigger] fv.live.contains(b@ + k) by {
                    assert(sv.live.contains(b@ + k));
                }
            }
        }
        (Some(b), Ghost(path))
    }

    /// Retires a block, to keep the tree from growing without bound where the window no longer
    /// looks: the children of the first node met in a depth-first walk (last quadrant first) that
    /// has children and lies at the depth where nodes are small enough to retire for the window
    /// (see `retire_depth`).
    /// That node becomes a leaf; the heights above it are brought up to date, and the timestamps on
    /// the way to it are raised to `now`, so it gets redrawn. The block stays live, detached, until
    /// it is freed; it is returned, or `None`, leaving the tree as it was, if there is nothing to
    /// retire.
    pub fn retire(&mut self, window: Window, retire_scale: Option<Fixed>, now: RenderMoment) -> (r: Option<BlockHandle>)
        requires
            old(self).wf(),
            fits_i64(window@.real_hi - window@.real_lo),
        ensures
            final(self).wf(),
            final(self)@.retire_outcome(old(self)@, retire_depth(window@, fixed_views(retire_scale)), now.0 as int, block_views(r)),
    {
        let ghost tv = self@;
        let ghost rd = retire_depth(window@, fixed_views(retire_scale));
        let target = match self.depth_needed_for_window(window, retire_scale) {
            Ok(d) => d,
            Err(_) => {
                proof {
                    assert forall|q: Seq<int>| !#[trigger] tv.is_retirable(rd, q) by {}
                    assert(self@.retire_outcome(tv, rd, now.0 as int, None));
                }
                return None;
            },
        };
        let res = self.retire_below(target, now);
        proof {
            if res.0 is Some {
                assert(tv.is_retirable(rd, res.1@));
            } else {
                assert forall|q: Seq<int>| !#[trigger] tv.is_retirable(rd, q) by {}
            }
            assert(self@.retire_outcome(tv, rd, now.0 as int, block_views(res.0)));
        }
        res.0
    }

    /// Pushes the children block of the node `i`, if it has one.
    fn push_children_of(&self, stack: &mut Vec<BlockHandle>, i: usize)
        requires
            i < self.arena.nodes@.len(),
        ensures
            self@.nodes[i as int].children is None ==> final(stack)@ == old(stack)@,
            self@.nodes[i as int].children matches Some(c) ==> {
                &&& final(stack)@.len() == old(stack)@.len() + 1
                &&& final(stack)@.drop_last() == old(stack)@
                &&& final(stack)@.last()@ == c
            },
    {
        match self.arena.nodes[i].children {
            Some(c) => {
                stack.push(c);
                proof {
                    assert(stack@.drop_last() =~= old(stack)@);
                }
            },
            None => {},
        }
    }

    /// Frees the detached block `b` and everything below it: their nodes are filled with
    /// placeholders and leave the live set, and each block goes onto the free list, depth first: a
    /// block, then the blocks below its last node, and so on to those below its first (see
    /// `block_walk`); the next split takes the last.
    pub fn free(&mut self, b: BlockHandle)
        requires
            old(self).wf(),
            old(self)@.is_detached(b@),
        ensures
            final(self).wf(),
            final(self)@.freed_from(old(self)@, b@),
    {
        let ghost tv0 = self@;
        let ghost bb = b@;
        proof {
            assert(self@.live.subset_of(vstd::set_lib::set_int_range(0, tv0.nodes.len() as int))) by {
                assert forall|i: int| #[trigger] tv0.live.contains(i) implies 0 <= i < tv0.nodes.len() by {
                    assert(tv0.node_ok(i));
                }
            }
            vstd::set_lib::lemma_int_range(0, tv0.nodes.len() as int);
            vstd::set_lib::lemma_len_subset(self@.live, vstd::set_lib::set_int_range(0, tv0.nodes.len() as int));
            assert forall|k: int| 0 <= k < 4 implies #[trigger] tv0.below_block(bb, bb + k) by {
                assert(tv0.block_path(bb, seq![bb + k]));
            }
        }
        let mut stack: Vec<BlockHandle> = Vec::new();
        stack.push(b);
        let ghost mut done: Set<int> = Set::empty();
        proof {
            assert(stack@[0]@ == bb);
            assert(self@.free.subrange(0, tv0.free.len() as int) =~= tv0.free);
            assert forall|i: int| tv0.live.contains(i) && #[trigger] tv0.below_block(bb, i) && !done.contains(i) implies
                exists|x: int| 0 <= x < stack@.len() && tv0.below_block(#[trigger] stack@[x]@, i) by {
                assert(tv0.below_block(stack@[0]@, i));
            }
            assert(free_inv(tv0, bb, self@, done, stack@));
            assert(stack@.drop_last() =~= Seq::<BlockHandle>::empty());
            assert(stack_walk(tv0, stack@.drop_last()) =~= Seq::<int>::empty());
            assert(stack_walk(tv0, stack@) =~= block_walk(tv0, bb));
            assert(tv0.free + block_walk(tv0, bb) =~= self@.free + stack_walk(tv0, stack@));
        }
        loop
            invariant
                self.wf(),
                free_inv(tv0, bb, self@, done, stack@),
                tv0.free + block_walk(tv0, bb) == self@.free + stack_walk(tv0, stack@),
            ensures
                stack@.len() == 0,
            decreases self@.live.len(),
        {
            let ghost cur = self@;
            let ghost old_stack = stack@;
            let s = match stack.pop() {
                Some(s) => s,
                None => {
                    break;
                },
            };
            let ghost sb = s@;
            let ghost pre = stack@;
            proof {
                assert(old_stack.drop_last() == pre);
                assert(old_stack[old_stack.len() - 1] == s);
                assert(cur.is_detached(sb));
                assert forall|j: int| 0 <= j < 4 implies #[trigger] tv0.live.contains(sb + j)
                    && cur.nodes[sb + j] == tv0.nodes[sb + j] by {
                    assert(cur.live.contains(sb + j));
                }
                assert(stack_walk(tv0, old_stack) == block_walk(tv0, sb) + stack_walk(tv0, pre));
                assert(children_walk(tv0, sb, 0) =~= Seq::<int>::empty());
                assert(stack_walk(tv0, stack@) =~= children_walk(tv0, sb, 0) + stack_walk(tv0, pre));
            }
            let ghost mut from: Seq<int> = Seq::empty();
            let mut k: usize = 0;
            while k < 4
                invariant
                    0 <= k <= 4,
                    self@ == cur,
                    self.wf(),
                    block_index_ok(sb),
                    sb + 4 <= cur.nodes.len(),
                    s@ == sb,
                    stack@.len() == pre.len() + from.len(),
                    stack@.subrange(0, pre.len() as int) == pre,
                    forall|y: int| 0 <= y < from.len() ==> 0 <= #[trigger] from[y] < k
                        && cur.nodes[sb + from[y]].children == Some(stack@[pre.len() + y]@),
                    forall|y: int, z: int| 0 <= y < z < from.len() ==> from[y] < from[z],
                    forall|j: int| 0 <= j < k && (#[trigger] cur.nodes[sb + j]).children is Some ==> exists|y: int| 0 <= y < from.len() && from[y] == j,
                    tv0.wf(),
                    forall|j: int| 0 <= j < 4 ==> #[trigger] tv0.live.contains(sb + j) && cur.nodes[sb + j] == tv0.nodes[sb + j],
                    stack_walk(tv0, stack@) == children_walk(tv0, sb, k as int) + stack_walk(tv0, pre),
                decreases 4 - k,
            {
                let ghost before = stack@;
                self.push_children_of(&mut stack, s.offset(k).0);
                proof {
                    let old_from = from;
                    let kk = k as int;
                    assert(tv0.live.contains(sb + kk));
                    assert(cur.nodes[sb + kk] == tv0.nodes[sb + kk]);
                    match cur.nodes[sb + k].children {
                        Some(c) => {
                            lemma_walk_shrinks(tv0, sb, k as int, c);
                            assert(stack@.drop_last() == before);
                            assert(stack_walk(tv0, stack@) == block_walk(tv0, c) + stack_walk(tv0, before));
                            assert(stack_walk(tv0, stack@) =~= children_walk(tv0, sb, k + 1) + stack_walk(tv0, pre));
                        },
                        None => {
                            assert(sb + (k + 1) - 1 == sb + k);
                            assert(children_walk(tv0, sb, k + 1) == children_walk(tv0, sb, k as int));
                        },
                    }
                    if cur.nodes[sb + k].children is Some {
                        from = from.push(k as int);
                        assert(stack@.subrange(0, pre.len() as int) =~= before.subrange(0, pre.len() as int));
                        assert forall|y: int| 0 <= y < from.len() implies 0 <= #[trigger] from[y] < k + 1
                            && cur.nodes[sb + from[y]].children == Some(stack@[pre.len() + y]@) by {
                            if y < from.len() - 1 {
                                assert(stack@[pre.len() + y] == before[pre.len() + y]);
                            }
                        }
                        assert forall|j: int| 0 <= j < k + 1 && (#[trigger] cur.nodes[sb + j]).children is Some
                            implies exists|y: int| 0 <= y < from.len() && from[y] == j by {
                            if j == k {
                                assert(from[from.len() - 1] == j);
                            } else {
                                let y = choose|y: int| 0 <= y < old_from.len() && old_from[y] == j;
                                assert(from[y] == j);
                            }
                        }
                    }
                }
                k = k + 1;
            }
            let ghost pushed = stack@;
            self.arena.free_block(s);
            self.live = Ghost(self.live@.remove(sb).remove(sb + 1).remove(sb + 2).remove(sb + 3));
            proof {
                assert(self@.free =~= cur.free.push(sb));
                lemma_free_step(tv0, bb, cur, self@, sb, done, old_stack, pushed, from);
                assert(block_walk(tv0, sb) == seq![sb] + children_walk(tv0, sb, 4));
                assert(tv0.free + block_walk(tv0, bb) =~= self@.free + stack_walk(tv0, stack@));
                done = done.union(Set::new(|i: int| sb <= i < sb + 4));
            }
        }
        proof {
            assert forall|i: int| #[trigger] self@.live.contains(i) <==> tv0.live.contains(i) && !tv0.below_block(bb, i) by {
                if tv0.live.contains(i) && tv0.below_block(bb, i) && !done.contains(i) {
                    let x = choose|x: int| 0 <= x < stack@.len() && tv0.below_block(#[trigger] stack@[x]@, i);
                }
            }
            assert forall|d: int| #[trigger] tv0.is_detached(d) && d != bb implies self@.is_detached(d) by {
                assert forall|k: int| 0 <= k < 4 implies #[trigger] self@.live.contains(d + k) by {
                    lemma_detached_apart(tv0, bb, d, k);
                    assert(tv0.live.contains(d + k));
                }
                assert forall|i: int| #[trigger] self@.live.contains(i) implies self@.nodes[i].children != Some(d) by {
                    assert(tv0.live.contains(i));
                }
            }
            assert forall|x: int| tv0.free.len() <= x < self@.free.len() implies {
                &&& tv0.live.contains(#[trigger] self@.free[x])
                &&& tv0.below_block(bb, self@.free[x])
            } by {
                assert(done.contains(self@.free[x]));
            }
            assert(self@.free =~= self@.free + stack_walk(tv0, stack@));
            assert(self@.freed_from(tv0, bb));
        }
    }

    /// Whether a row of pixels may need redrawing: some leaf meets the horizontal segment from
    /// `real_lo` to `real_hi` at height `imag`, and neither it nor any node above it is older than
    /// `prev_frame_start`.
    pub fn any_on_line_needs_redraw(&self, real_lo: Real, real_hi: Real, imag: Imag, prev_frame_start: RenderMoment) -> (r: bool)
        requires
            self.wf(),
            real_lo@ <= real_hi@,
        ensures
            r == exists|p: Seq<int>| #[trigger] self@.is_stale_on_line(p, real_lo@, real_hi@, imag@, prev_frame_start.0 as int),
    {
        let ghost tv = self@;
        let ghost since = prev_frame_start.0 as int;
        let mut stack: Vec<(usize, u16)> = Vec::new();
        stack.push((self.root.0, 0));
        let ghost mut paths: Seq<Seq<int>> = seq![seq![tv.root]];
        proof {
            assert(tv.valid_path(seq![tv.root]));
            assert forall|p: Seq<int>| #[trigger] tv.is_stale_on_line(p, real_lo@, real_hi@, imag@, since) implies stack_meets(stack@, p) by {
                assert(stack@[0].1 < p.len() && p[0] == stack@[0].0 as int);
            }
        }
        loop
            invariant
                tv == self@,
                since == prev_frame_start.0 as int,
                self.wf(),
                stack_paths_ok(tv, stack@, paths),
                forall|x: int, k: int| 0 <= x < stack@.len() && 0 <= k < paths[x].len() - 1 ==>
                    #[trigger] tv.nodes[paths[x][k]].timestamp >= since,
                forall|p: Seq<int>| #[trigger] tv.is_stale_on_line(p, real_lo@, real_hi@, imag@, since) ==> stack_meets(stack@, p),
            ensures
                stack@.len() == 0,
            decreases stack_weight(stack@),
        {
            let ghost old_stack = stack@;
            let ghost old_paths = paths;
            let (h, depth) = match stack.pop() {
                Some(e) => e,
                None => {
                    break;
                },
            };
            let ghost top = old_stack.len() - 1;
            let ghost hp = paths[top];
            proof {
                assert(old_stack.drop_last() == stack@);
                assert(tv.valid_path(hp));
                assert(old_stack[top] == (h, depth));
                lemma_path_node(tv, Set::empty(), hp, depth as int);
                paths = paths.drop_last();
                assert(stack_weight(stack@) < stack_weight(old_stack)) by {
                    lemma_dfs_weight_pos(depth as int);
                }
                assert forall|x: int, k: int| 0 <= x < stack@.len() && 0 <= k < paths[x].len() - 1 implies
                    #[trigger] tv.nodes[paths[x][k]].timestamp >= since by {
                    assert(paths[x] == old_paths[x]);
                }
            }
            let ghost covered = |p: Seq<int>| depth < p.len() && p[depth as int] == h as int;
            proof {
                assert forall|p: Seq<int>| #[trigger] tv.is_stale_on_line(p, real_lo@, real_hi@, imag@, since) && !covered(p)
                    implies stack_meets(stack@, p) by {
                    assert(stack_meets(old_stack, p));
                    let x = choose|x: int| 0 <= x < old_stack.len() && (#[trigger] old_stack[x]).1 < p.len() && p[old_stack[x].1 as int] == old_stack[x].0 as int;
                    assert(x != top);
                    assert(stack@[x] == old_stack[x]);
                }
            }
            let node = self.arena.nodes[h];
            let dom = node.dom;
            if dom.imag_lo().0 > imag.0 || dom.imag_hi().0 < imag.0 || dom.real_hi().0 < real_lo.0 || dom.real_lo().0 > real_hi.0 {
                proof {
                    assert forall|p: Seq<int>| #[trigger] tv.is_stale_on_line(p, real_lo@, real_hi@, imag@, since)
                        implies stack_meets(stack@, p) by {
                        if covered(p) {
                            lemma_path_nested(tv, Set::empty(), p, depth as int, p.len() - 1);
                        }
                    }
                }
                continue;
            }
            if node.timestamp.0 < prev_frame_start.0 {
                proof {
                    assert forall|p: Seq<int>| #[trigger] tv.is_stale_on_line(p, real_lo@, real_hi@, imag@, since)
                        implies stack_meets(stack@, p) by {
                        if covered(p) {
                            assert(tv.nodes[p[depth as int]].timestamp >= since);
                        }
                    }
                }
                continue;
            }
            match node.children {
                Some(b) => {
                    let ghost pre = stack@;
                    let ghost pre_paths = paths;
                    stack.push((b.offset(0).0, depth + 1));
                    stack.push((b.offset(1).0, depth + 1));
                    stack.push((b.offset(2).0, depth + 1));
                    stack.push((b.offset(3).0, depth + 1));
                    proof {
                        let bb = b@;
                        let r = lemma_push_children(tv, pre, paths, hp, bb);
                        assert(stack@ =~= r.0);
                        paths = r.1;
                        lemma_stack_weight_children(old_stack, (h, depth), stack@.subrange(pre.len() as int, stack@.len() as int));
                        assert(old_stack.drop_last() + stack@.subrange(pre.len() as int, stack@.len() as int) =~= stack@);
                        assert forall|x: int, k: int| 0 <= x < stack@.len() && 0 <= k < paths[x].len() - 1 implies
                            #[trigger] tv.nodes[paths[x][k]].timestamp >= since by {
                            if x < pre.len() {
                                assert(paths[x] == pre_paths[x]);
                            } else {
                                assert(paths[x] == hp.push(bb + (x - pre.len())));
                                if k < hp.len() - 1 {
                                    assert(old_paths[top][k] == hp[k]);
                                } else {
                                    assert(paths[x][k] == h);
                                }
                            }
                        }
                        assert forall|p: Seq<int>| #[trigger] tv.is_stale_on_line(p, real_lo@, real_hi@, imag@, since)
                            implies stack_meets(stack@, p) by {
                            if covered(p) {
                                let dd = depth as int;
                                assert(dd < p.len() - 1) by {
                                    if dd == p.len() - 1 {
                                        assert(tv.is_leaf(p.last()));
                                    }
                                }
                                assert(tv.is_child(p[dd], p[dd + 1]));
                                let k = p[dd + 1] - bb;
                                let x = pre.len() + k;
                                assert(stack@[x] == ((bb + k) as usize, (depth + 1) as u16));
                                assert(stack@[x].1 < p.len() && p[stack@[x].1 as int] == stack@[x].0 as int);
                            } else {
                                assert(stack_meets(pre, p));
                                let x = choose|x: int| 0 <= x < pre.len() && (#[trigger] pre[x]).1 < p.len() && p[pre[x].1 as int] == pre[x].0 as int;
                                assert(stack@[x] == pre[x]);
                            }
                        }
                    }
                },
                None => {
                    proof {
                        assert forall|k: int| 0 <= k < hp.len() implies #[trigger] tv.nodes[hp[k]].timestamp >= since by {
                            if k < hp.len() - 1 {
                                assert(old_paths[top][k] == hp[k]);
                            }
                        }
                        assert(tv.is_stale_on_line(hp, real_lo@, real_hi@, imag@, since));
                    }
                    return true;
                },
            }
        }
        proof {
            assert forall|p: Seq<int>| !#[trigger] tv.is_stale_on_line(p, real_lo@, real_hi@, imag@, since) by {
                if tv.is_stale_on_line(p, real_lo@, real_hi@, imag@, since) {
                    assert(stack_meets(stack@, p));
                }
            }
        }
        false
    }

    /// The depth from which refining leaves nodes alone (see `refine_depth_bound`), or `None` for
    /// no bound.
    fn refine_retire_depth(&self, retire_window: Option<Window>, retire_scale: Option<Fixed>, split_retirable: bool) -> (r: Option<u16>)
        requires
            self.wf(),
            retire_window matches Some(w) ==> fits_i64(w@.real_hi - w@.real_lo),
        ensures
            refine_depth_bound(window_views(retire_window), fixed_views(retire_scale), split_retirable) == depth_bound(r),
    {
        if split_retirable {
            return None;
        }
        match retire_window {
            Some(w) => match self.depth_needed_for_window(w, retire_scale) {
                Ok(depth) => {
                    proof {
                        let scale = match retire_scale {
                            Some(s) => Some(s@),
                            None => None::<int>,
                        };
                        let rad = mul_floor(scale->0, (w@.real_hi - w@.real_lo) / 2);
                        lemma_least_depth_bounded(rad, 0);
                    }
                    Some(depth)
                },
                Err(_) => None,
            },
            None => None,
        }
    }

    /// Splits a leaf where the sample window looks, so that the tree gets finer there: of the
    /// shallowest leaves that overlap the window, shallower than the depth from which nodes would
    /// be retired at once (see `refine_depth_bound`), that can be split, the first met by a
    /// depth-first walk that looks at the last quadrant first. Its four new children are
    /// uncolored leaves stamped `now`; the heights above are brought up to date, and, when
    /// `draw_uncolored` is set, the timestamps on the way to the leaf are raised to `now`, so the
    /// uncolored children get drawn. Without it the timestamps above the leaf are left as they
    /// were: raising them is `insert`'s work, when the children's samples arrive; drawing the
    /// uncolored children is the one reason to raise them here. Returns the centers of the
    /// children, to be sampled, or `None`, leaving the tree as it was, if there is no such leaf.
    pub fn refine(
        &mut self,
        sample_window: Window,
        retire_window: Option<Window>,
        retire_scale: Option<Fixed>,
        split_retirable: bool,
        draw_uncolored: bool,
        now: RenderMoment,
    ) -> (r: Option<[(Real, Imag); 4]>)
        requires
            old(self).wf(),
            retire_window matches Some(w) ==> fits_i64(w@.real_hi - w@.real_lo),
        ensures
            final(self).wf(),
            final(self)@.refine_outcome(
                old(self)@,
                sample_window@,
                refine_depth_bound(window_views(retire_window), fixed_views(retire_scale), split_retirable),
                now.0 as int,
                draw_uncolored,
                point_views(r),
            ),
    {
        let ghost tv = self@;
        let ghost w = sample_window@;
        let retire_depth = self.refine_retire_depth(retire_window, retire_scale, split_retirable);
        let ghost bound = depth_bound(retire_depth);
        let res = self.refine_below(sample_window, retire_depth, draw_uncolored, now);
        proof {
            let path = res.1@;
            if res.0 is None {
                assert forall|q: Seq<int>| !#[trigger] tv.is_refinable(w, bound, q) by {}
            } else {
                assert(tv.is_refinable(w, bound, path));
                let m = point_views(res.0)->0;
                assert forall|k: int| 0 <= k < 4 implies #[trigger] m[k] == tv.nodes[path.last()].dom.child(k).mid() by {
                    let mids = res.0->0;
                    assert((mids[k].0@, mids[k].1@) == tv.nodes[path.last()].dom.child(k).mid());
                }
            }
            assert(self@.refine_outcome(tv, w, bound, now.0 as int, draw_uncolored, point_views(res.0)));
        }
        res.0
    }

    /// Refining with the depth bound given: `retire_depth`, or `u16::MAX` if there is none.
    #[verifier::spinoff_prover]
    #[verifier::rlimit(40)]
    fn refine_below(&mut self, sample_window: Window, retire_depth: Option<u16>, draw_uncolored: bool, now: RenderMoment)
        -> (r: (Option<[(Real, Imag); 4]>, Ghost<Seq<int>>))
        requires
            old(self).wf(),
        ensures
            final(self).wf(),
            ({
                let tv = old(self)@;
                let bound = depth_bound(retire_depth);
                let p = r.1@;
                &&& r.0 is None ==> final(self)@ == tv
                &&& r.0 is None ==> forall|q: Seq<int>| !#[trigger] tv.is_refinable(sample_window@, bound, q)
                &&& r.0 matches Some(mids) ==> {
                    &&& tv.is_refinable(sample_window@, bound, p)
                    &&& forall|q: Seq<int>| #[trigger] tv.is_refinable(sample_window@, bound, q) && q != p ==> walks_before(p, q)
                    &&& final(self)@.refined_from(tv, p, now.0 as int, draw_uncolored)
                    &&& forall|k: int| 0 <= k < 4 ==> (#[trigger] mids[k].0@, mids[k].1@) == tv.nodes[p.last()].dom.child(k).mid()
                }
            }),
    {
        let ghost tv = self@;
        let ghost w = sample_window@;
        let ghost bound = depth_bound(retire_depth);
        let shallowest = match self.depth_of_shallowest_leaf_overlapping_window(sample_window, retire_depth) {
            Some(d) => d,
            None => {
                proof {
                    assert forall|p: Seq<int>| !#[trigger] tv.is_refinable(w, bound, p) by {
                        if tv.is_refinable(w, bound, p) {
                            assert(tv.is_candidate(w, p));
                        }
                    }
                }
                return (None, Ghost(Seq::empty()));
            },
        };
        let (leaf, Ghost(path)) = match self.select_leaf_to_split(sample_window, shallowest) {
            Some(x) => x,
            None => {
                proof {
                    let q = choose|q: Seq<int>| #[trigger] tv.is_candidate(w, q) && q.len() - 1 == shallowest;
                    assert forall|p: Seq<int>| !#[trigger] tv.is_refinable(w, bound, p) by {
                        if tv.is_refinable(w, bound, p) {
                            assert(tv.is_candidate(w, q));
                            assert(tv.is_candidate(w, p));
                        }
                    }
                }
                return (None, Ghost(Seq::empty()));
            },
        };
        proof {
            assert forall|q: Seq<int>| #[trigger] tv.is_candidate(w, q) implies q.len() >= path.len() by {}
            assert(tv.is_refinable(w, bound, path));
            assert forall|q: Seq<int>| #[trigger] tv.is_refinable(w, bound, q) && q != path implies walks_before(path, q) by {
                assert(tv.is_candidate(w, q));
                assert(tv.is_candidate(w, path));
            }
            lemma_path_node(tv, Set::empty(), path, path.len() - 1);
        }
        let b = self.split_leaf(leaf, now, Ghost(path));
        let ghost sv = self@;
        proof {
            let n = path.len() - 1;
            assert forall|k: int| 0 <= k < n implies path[k] != leaf by {
                lemma_path_distinct(tv, Set::empty(), path, k, n);
            }
            assert forall|k: int| 0 <= k < path.len() - 1 implies #[trigger] sv.is_child(path[k], path[k + 1]) by {
                assert(tv.is_child(path[k], path[k + 1]));
                lemma_path_node(tv, Set::empty(), path, k);
                if b@ <= path[k] < b@ + 4 {
                    assert(!tv.live.contains(b@ + (path[k] - b@)));
                }
                assert(sv.nodes[path[k]] == tv.nodes[path[k]]);
            }
            assert(sv.valid_path(path));
        }
        self.update_ancestor_heights(NodeHandle::new(leaf), Ghost(path));
        let ghost hv = self@;
        proof {
            assert forall|i: int| #[trigger] sv.live.contains(i) implies 0 <= i < sv.nodes.len() by {
                assert(sv.node_ok(i));
            }
            lemma_same_shape(sv, hv);
            assert(hv.valid_path(path));
            lemma_descent_follows_path(hv, Set::empty(), path, 0);
            assert(path.subrange(0, path.len() as int) =~= path);
            assert(hv.live.contains(leaf as int)) by {
                lemma_path_node(hv, Set::empty(), path, path.len() - 1);
            }
        }
        if draw_uncolored {
            self.update_ancestor_timestamps(NodeHandle::new(leaf), now);
        }
        let m0 = self.arena.nodes[b.offset(0).0].dom.mid();
        let m1 = self.arena.nodes[b.offset(1).0].dom.mid();
        let m2 = self.arena.nodes[b.offset(2).0].dom.mid();
        let m3 = self.arena.nodes[b.offset(3).0].dom.mid();
        let mids = [m0, m1, m2, m3];
        proof {
            let fv = self@;
            let bb = b@;
            assert(hv.descent(hv.nodes[leaf as int].dom.mid()) == path);
            lemma_settle_result(sv, hv, fv, path, now.0 as int, draw_uncolored);
            assert forall|k: int| 0 <= k < 4 implies (#[trigger] mids[k].0@, mids[k].1@) == tv.nodes[path.last()].dom.child(k).mid() by {
                assert(fv.nodes[bb + k].dom == sv.nodes[bb + k].dom);
            }
            assert(tv.is_refinable(w, bound, path));
        }
        (Some(mids), Ghost(path))
    }

    /// The least depth at which nodes have a radius of at most `retire_rad`,
    /// or `None` if no domain is that small.
    pub fn depth_needed_for_rad(&self, retire_rad: Real) -> (r: Option<u16>)
        requires
            self.wf(),
        ensures
            r.is_some() <==> retire_rad@ > 0,
            r matches Some(d) ==> d <= 60 && rad_at_depth(d as int) <= retire_rad@ && (d > 0 ==> rad_at_depth(d - 1) > retire_rad@),
            r matches Some(d) ==> d == least_depth_for_rad(retire_rad@, 0),
    {
        proof {
            lemma2_to64();
            lemma2_to64_rest();
        }
        let mut depth: u16 = 0;
        let mut rad = self.dom.rad();
        while rad.0 > retire_rad.0
            invariant
                depth <= 60,
                rad@ == rad_at_depth(depth as int),
                depth > 0 ==> rad_at_depth(depth - 1) > retire_rad@,
                least_depth_for_rad(retire_rad@, 0) == least_depth_for_rad(retire_rad@, depth as int),
            decreases 60 - depth,
        {
            proof {
                lemma2_to64();
            }
            if depth == 60 {
                assert(rad@ == 1);
                return None;
            }
            proof {
                vstd::arithmetic::power2::lemma_pow2_unfold((60 - depth) as nat);
            }
            assert(least_depth_for_rad(retire_rad@, depth as int) == least_depth_for_rad(retire_rad@, depth + 1));
            rad = match rad.div2_exact_checked() {
                Some(h) => h,
                None => {
                    return None;
                },
            };
            depth = depth + 1;
        }
        proof {
            lemma_pow2_pos((60 - depth) as nat);
        }
        Some(depth)
    }

    /// The least depth at which nodes are small enough to retire for the window:
    /// their radius must be at most `retire_scale` times the window's real radius.
    /// `retire_scale` is `None` if it could not be represented.
    pub fn depth_needed_for_window(&self, retire_window: Window, retire_scale: Option<Fixed>) -> (r: Result<u16, DepthError>)
        requires
            self.wf(),
            fits_i64(retire_window@.real_hi - retire_window@.real_lo),
        ensures
            ({
                let scale = match retire_scale {
                    Some(s) => Some(s@),
                    None => None::<int>,
                };
                match r {
                    Ok(d) => depth_for_window(retire_window@, scale) == Some(d as int),
                    Err(_) => depth_for_window(retire_window@, scale) is None,
                }
            }),
            retire_scale is None ==> r == Err::<u16, DepthError>(DepthError::ScaleOutOfDomain),
            retire_scale matches Some(s) ==> {
                let rad = crate::complex::fixed::mul_floor(s@, (retire_window@.real_hi - retire_window@.real_lo) / 2);
                &&& !fits_i64(rad) ==> r == Err::<u16, DepthError>(DepthError::RadOutOfRange)
                &&& fits_i64(rad) && rad <= 0 ==> r == Err::<u16, DepthError>(DepthError::TooDeep)
                &&& fits_i64(rad) && rad > 0 ==> (r matches Ok(d) && d <= 60 && rad_at_depth(d as int) <= rad && (d > 0 ==> rad_at_depth(d - 1) > rad))
            },
    {
        let retire_scale = match retire_scale {
            Some(s) => s,
            None => {
                return Err(DepthError::ScaleOutOfDomain);
            },
        };
        let retire_rad = match retire_scale.mul_checked(retire_window.real_rad()) {
            Some(v) => v,
            None => {
                return Err(DepthError::RadOutOfRange);
            },
        };
        match self.depth_needed_for_rad(retire_rad) {
            Some(depth) => Ok(depth),
            None => Err(DepthError::TooDeep),
        }
    }

    /// The color to draw for the pixel: walks down from the root to the leaf containing the
    /// pixel's center and returns the color of the sample closest to it, or `None` if a node on
    /// the way proves (by a timestamp older than `prev_frame_start`) that nothing changed since the
    /// last frame. White if the center is outside the tree's domain. Uncolored nodes offer yellow
    /// when `draw_uncolored` is set, and nothing otherwise.
    pub fn color_of_pixel(&self, pixel: Window, prev_frame_start: RenderMoment, draw_uncolored: bool) -> (r: Option<Rgb>)
        requires
            self.wf(),
            pixel@.sums_fit(),
            self@.node(self@.root).color is Some,
        ensures
            match r {
                Some(c) => self@.pixel_color(pixel@, prev_frame_start.0 as int, draw_uncolored) == Some(c.0),
                None => self@.pixel_color(pixel@, prev_frame_start.0 as int, draw_uncolored) is None,
            },
    {
        let ghost tv = self@;
        let pixel_mid = pixel.mid();
        let ghost t = (pixel_mid.0@, pixel_mid.1@);
        if !self.dom.contains_point(pixel_mid) {
            return Some(Rgb::new(255, 255, 255));
        }
        let mut node_handle = self.root.0;
        let root_mid = self.dom.mid();
        let mut closest_sample_dist = distance(pixel_mid, root_mid);
        let mut closest_sample_color = match self.arena.nodes[node_handle].color {
            Some(c) => c,
            None => Rgb::uninit(),
        };
        let uncolored_node_color = if draw_uncolored {
            Some(Rgb::new(255, 255, 0))
        } else {
            None
        };
        let ghost uncolored = if draw_uncolored { Some(crate::tree::rgb::pack_rgb(255, 255, 0)) } else { None::<u32> };
        let ghost mut visited: Seq<int> = seq![];
        proof {
            assert(tv.valid_path(seq![node_handle as int]));
            assert(tv.descent_to_leaf(tv.root, t, 0) == visited + tv.descent_to_leaf(node_handle as int, t, 0));
        }
        loop
            invariant_except_break
                tv == self@,
                self.wf(),
                t == (pixel_mid.0@, pixel_mid.1@),
                t == ((pixel@.real_hi + pixel@.real_lo) / 2, (pixel@.imag_hi + pixel@.imag_lo) / 2),
                default_domain().contains(t),
                uncolored == (if draw_uncolored { Some(crate::tree::rgb::pack_rgb(255, 255, 0)) } else { None::<u32> }),
                uncolored_node_color matches Some(c) ==> uncolored == Some(c.0),
                uncolored_node_color is None ==> uncolored is None,
                tv.valid_path(visited.push(node_handle as int)),
                tv.descent_to_leaf(tv.root, t, 0) == visited + tv.descent_to_leaf(node_handle as int, t, visited.len() as int),
                tv.nodes[node_handle as int].dom.contains(t),
                forall|k: int| 0 <= k < visited.len() ==> #[trigger] tv.nodes[visited[k]].timestamp >= prev_frame_start.0,
                visited.len() == 0 ==> closest_sample_dist@ == max_norm_distance(t, tv.nodes[tv.root].dom.mid()) && closest_sample_color.0 == tv.nodes[tv.root].color->0,
                visited.len() > 0 ==> (closest_sample_dist@, closest_sample_color.0) == closest_sample(tv, visited, t, uncolored),
            ensures
                ({
                    let path = tv.descent_to_leaf(tv.root, t, 0);
                    &&& forall|k: int| 0 <= k < path.len() ==> #[trigger] tv.nodes[path[k]].timestamp >= prev_frame_start.0
                    &&& closest_sample_color.0 == closest_sample(tv, path, t, uncolored).1
                }),
            decreases 64 - visited.len(),
        {
            let ghost path = visited.push(node_handle as int);
            let ghost d = visited.len() as int;
            proof {
                lemma_path_node(tv, Set::empty(), path, d);
            }
            let node = self.arena.nodes[node_handle];
            if node.timestamp.0 < prev_frame_start.0 {
                proof {
                    let full = tv.descent_to_leaf(tv.root, t, 0);
                    assert(tv.descent_to_leaf(node_handle as int, t, d)[0] == node_handle);
                    assert(full[d] == node_handle);
                    assert(self@.nodes[full[d]].timestamp < prev_frame_start.0);
                    assert(0 <= d < full.len());
                }
                return None;
            }
            let ghost visited2 = path;
            let m = node.dom.mid();
            let dist = distance(pixel_mid, m);
            let offered = match node.color {
                Some(c) => Some(c),
                None => uncolored_node_color,
            };
            if dist.0 < closest_sample_dist.0 {
                match offered {
                    Some(c) => {
                        closest_sample_dist = dist;
                        closest_sample_color = c;
                    },
                    None => {},
                }
            }
            proof {
                if d == 0 {
                    assert(visited2 =~= seq![tv.root]);
                } else {
                    assert(visited2.drop_last() =~= visited);
                }
                assert(visited2.last() == node_handle);
            }
            match node.children {
                None => {
                    proof {
                        assert(tv.descent_to_leaf(node_handle as int, t, d) == seq![node_handle as int]);
                        assert(tv.descent_to_leaf(tv.root, t, 0) =~= visited2);
                        assert forall|k: int| 0 <= k < visited2.len() implies #[trigger] tv.nodes[visited2[k]].timestamp >= prev_frame_start.0 by {
                            if k < d {
                                assert(visited2[k] == visited[k]);
                            }
                        }
                    }
                    break;
                },
                Some(b) => {
                    proof {
                        lemma_split_partitions(tv.nodes[node_handle as int].dom, t);
                    }
                    let off = node.dom.child_offset_containing(pixel_mid);
                    let next = b.offset(off);
                    proof {
                        assert(tv.is_child(node_handle as int, next.0 as int));
                        let p2 = visited2.push(next.0 as int);
                        assert forall|k: int| 0 <= k < p2.len() - 1 implies #[trigger] tv.is_child(p2[k], p2[k + 1]) by {
                            if k < p2.len() - 2 {
                                assert(tv.is_child(path[k], path[k + 1]));
                            }
                        }
                        assert(tv.descent_to_leaf(node_handle as int, t, d) == seq![node_handle as int] + tv.descent_to_leaf(next.0 as int, t, d + 1));
                        assert(tv.descent_to_leaf(tv.root, t, 0) =~= visited2 + tv.descent_to_leaf(next.0 as int, t, d + 1));
                        assert(tv.nodes[next.0 as int].dom == tv.nodes[node_handle as int].dom.child(off as int));
                        assert forall|k: int| 0 <= k < visited2.len() implies #[trigger] tv.nodes[visited2[k]].timestamp >= prev_frame_start.0 by {
                            if k < d {
                                assert(visited2[k] == visited[k]);
                            }
                        }
                        visited = visited2;
                    }
                    node_handle = next.0;
                },
            }
        }
        proof {
            let path = tv.descent_to_leaf(tv.root, t, 0);
            assert(!(exists|k: int| 0 <= k < path.len() && #[trigger] tv.nodes[path[k]].timestamp < prev_frame_start.0));
        }
        Some(closest_sample_color)
    }

    /// The domain the tree covers, the default domain.
    pub fn dom(&self) -> (r: Domain)
        requires
            self.wf(),
        ensures
            r@ == default_domain(),
    {
        self.dom
    }

    /// Whether the root has a color, as it has from the moment the tree is made.
    pub fn root_colored(&self) -> (r: bool)
        requires
            self.wf(),
        ensures
            r == self@.nodes[self@.root].color is Some,
    {
        self.arena.nodes[self.root.0].color.is_some()
    }

    /// The distance from the root to the closest leaf.
    pub fn min_height(&self) -> (r: u16)
        requires
            self.wf(),
        ensures
            r == self@.node(self@.root).min_height,
    {
        self.arena.nodes[self.root.0].min_height
    }

    /// The distance from the root to the farthest leaf.
    pub fn max_height(&self) -> (r: u16)
        requires
            self.wf(),
        ensures
            r == self@.node(self@.root).max_height,
    {
        self.arena.nodes[self.root.0].max_height
    }
}

} // verus!
