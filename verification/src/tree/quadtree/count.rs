//! Counting the nodes of the tree.
use vstd::prelude::*;
use crate::tree::quadtree::{Tree, TreeView, lemma_below_node_extend, lemma_tree_nodes_live, lemma_unique_parent};

verus! {

/// What counting the nodes of the tree keeps while it walks down: `visited` holds the nodes counted
/// so far, and `stack` nodes of the tree still to count, below which lies every node left.
#[verifier::opaque]
spec fn count_inv(tv: TreeView, visited: Set<int>, stack: Seq<usize>) -> bool {
    &&& tv.wf()
    &&& visited.finite()
    &&& visited.subset_of(tv.live)
    &&& forall|i: int| #[trigger] visited.contains(i) ==> tv.below_node(tv.root, i)
    &&& forall|u: int, i: int| #[trigger] visited.contains(i) && #[trigger] tv.is_child(u, i) ==> visited.contains(u)
    &&& forall|x: int| 0 <= x < stack.len() ==> {
        &&& tv.below_node(tv.root, #[trigger] stack[x] as int)
        &&& !visited.contains(stack[x] as int)
        &&& forall|u: int| #[trigger] tv.is_child(u, stack[x] as int) ==> visited.contains(u)
    }
    &&& forall|x: int, y: int| 0 <= x < y < stack.len() ==> stack[x] != stack[y]
    &&& forall|i: int| #[trigger] tv.below_node(tv.root, i) && !visited.contains(i) ==>
        exists|x: int| 0 <= x < stack.len() && tv.below_node(#[trigger] stack[x] as int, i)
}

/// The node on top of the counting stack is a live node not counted yet.
proof fn lemma_count_top(tv: TreeView, visited: Set<int>, stack: Seq<usize>)
    requires
        count_inv(tv, visited, stack),
        stack.len() > 0,
    ensures
        tv.live.contains(stack.last() as int),
        !visited.contains(stack.last() as int),
{
    reveal(count_inv);
    assert(tv.below_node(tv.root, stack[stack.len() - 1] as int));
    lemma_tree_nodes_live(tv, stack.last() as int);
}

/// One step of counting: the node on top of the stack is counted, and its children, if any, take
/// its place.
#[verifier::spinoff_prover]
#[verifier::rlimit(50)]
proof fn lemma_count_step(tv: TreeView, visited: Set<int>, old_stack: Seq<usize>, stack: Seq<usize>)
    requires
        count_inv(tv, visited, old_stack),
        old_stack.len() > 0,
        ({
            let h = old_stack.last() as int;
            let pre = old_stack.drop_last();
            match tv.nodes[h].children {
                None => stack == pre,
                Some(b) => stack == pre + seq![b as usize, (b + 1) as usize, (b + 2) as usize, (b + 3) as usize],
            }
        }),
    ensures
        count_inv(tv, visited.insert(old_stack.last() as int), stack),
        !visited.contains(old_stack.last() as int),
        visited.insert(old_stack.last() as int).subset_of(tv.live),
        visited.insert(old_stack.last() as int).finite(),
        visited.insert(old_stack.last() as int).len() == visited.len() + 1,
{
    reveal(count_inv);
    let top = old_stack.len() - 1;
    let h = old_stack[top] as int;
    let pre = old_stack.drop_last();
    let nvis = visited.insert(h);
    lemma_tree_nodes_live(tv, h);
    assert(tv.node_ok(h));
    assert forall|x: int| 0 <= x < pre.len() implies pre[x] == old_stack[x] && pre[x] != h by {
        assert(old_stack[x] != old_stack[top]);
    }
    assert forall|u: int, i: int| #[trigger] nvis.contains(i) && #[trigger] tv.is_child(u, i) implies nvis.contains(u) by {
        if i == h {
            assert(tv.is_child(u, old_stack[top] as int));
        }
    }
    match tv.nodes[h].children {
        None => {
            assert forall|x: int| 0 <= x < stack.len() implies {
                &&& tv.below_node(tv.root, #[trigger] stack[x] as int)
                &&& !nvis.contains(stack[x] as int)
                &&& forall|u: int| #[trigger] tv.is_child(u, stack[x] as int) ==> nvis.contains(u)
            } by {
                assert(old_stack[x] == stack[x]);
            }
            assert forall|i: int| #[trigger] tv.below_node(tv.root, i) && !nvis.contains(i) implies
                exists|x: int| 0 <= x < stack.len() && tv.below_node(#[trigger] stack[x] as int, i) by {
                let x0 = choose|x: int| 0 <= x < old_stack.len() && tv.below_node(#[trigger] old_stack[x] as int, i);
                if x0 < top {
                    assert(stack[x0] == old_stack[x0]);
                } else {
                    let path = choose|path: Seq<int>| #[trigger] tv.node_path(h, path) && path.last() == i;
                    let z: int = 0;
                    if path.len() >= 2 {
                        assert(tv.is_child(path[z], path[z + 1]));
                    }
                }
            }
        },
        Some(b) => {
            let n0 = pre.len();
            assert forall|k: int| 0 <= k < 4 implies #[trigger] tv.is_child(h, b + k) by {}
            assert forall|x: int| n0 <= x < stack.len() implies stack[x] == b + (x - n0) by {}
            assert forall|x: int| 0 <= x < n0 implies stack[x] == pre[x] by {}
            // the only parent of a child of the counted node is that node, which was not counted
            assert forall|k: int, u: int| 0 <= k < 4 && #[trigger] tv.is_child(u, b + k) implies u == h by {
                lemma_unique_parent(tv, Set::empty(), u, h, b + k);
            }
            assert forall|k: int| 0 <= k < 4 implies {
                &&& !visited.contains(#[trigger] (b + k))
                &&& forall|x: int| 0 <= x < n0 ==> pre[x] != b + k
            } by {
                assert(tv.is_child(h, b + k));
                assert forall|x: int| 0 <= x < n0 implies pre[x] != b + k by {
                    if pre[x] == b + k {
                        assert(old_stack[x] == pre[x]);
                        assert(tv.is_child(h, old_stack[x] as int));
                    }
                }
            }
            assert forall|x: int| 0 <= x < stack.len() implies {
                &&& tv.below_node(tv.root, #[trigger] stack[x] as int)
                &&& !nvis.contains(stack[x] as int)
                &&& forall|u: int| #[trigger] tv.is_child(u, stack[x] as int) ==> nvis.contains(u)
            } by {
                if x < n0 {
                    assert(old_stack[x] == stack[x]);
                } else {
                    let k = x - n0;
                    assert(stack[x] == b + k);
                    assert(tv.below_node(tv.root, old_stack[top] as int));
                    lemma_below_node_extend(tv, tv.root, h, b + k);
                    assert(!visited.contains(b + k));
                    assert forall|u: int| #[trigger] tv.is_child(u, stack[x] as int) implies nvis.contains(u) by {
                        assert(tv.is_child(u, b + k));
                    }
                }
            }
            assert forall|x: int, y: int| 0 <= x < y < stack.len() implies stack[x] != stack[y] by {
                if y < n0 {
                    assert(old_stack[x] == pre[x]);
                    assert(old_stack[y] == pre[y]);
                } else if x < n0 {
                    assert(stack[y] == b + (y - n0));
                }
            }
            assert forall|i: int| #[trigger] tv.below_node(tv.root, i) && !nvis.contains(i) implies
                exists|x: int| 0 <= x < stack.len() && tv.below_node(#[trigger] stack[x] as int, i) by {
                let x0 = choose|x: int| 0 <= x < old_stack.len() && tv.below_node(#[trigger] old_stack[x] as int, i);
                if x0 < top {
                    assert(stack[x0] == old_stack[x0]);
                } else {
                    let path = choose|path: Seq<int>| #[trigger] tv.node_path(h, path) && path.last() == i;
                    assert(path.len() >= 2);
                    let z: int = 0;
                    assert(tv.is_child(path[z], path[z + 1]));
                    let k = path[1] - b;
                    let q = path.subrange(1, path.len() as int);
                    assert forall|m: int| 0 <= m < q.len() - 1 implies #[trigger] tv.is_child(q[m], q[m + 1]) by {
                        let j = m + 1;
                        assert(tv.is_child(path[j], path[j + 1]));
                    }
                    assert(tv.node_path(b + k, q));
                    assert(stack[n0 + k] == b + k);
                    assert(tv.below_node(stack[n0 + k] as int, i));
                }
            }
        },
    }
}

impl Tree {
    /// The number of nodes in the tree.
    pub fn node_count(&self) -> (r: usize)
        requires
            self.wf(),
        ensures
            self@.tree_nodes().finite(),
            r == self@.tree_nodes().len(),
    {
        let ghost tv = self@;
        let arena_len = self.arena.nodes.len();
        proof {
            assert(tv.live.subset_of(vstd::set_lib::set_int_range(0, tv.nodes.len() as int))) by {
                assert forall|i: int| #[trigger] tv.live.contains(i) implies 0 <= i < tv.nodes.len() by {
                    assert(tv.node_ok(i));
                }
            }
            vstd::set_lib::lemma_int_range(0, tv.nodes.len() as int);
            vstd::set_lib::lemma_len_subset(tv.live, vstd::set_lib::set_int_range(0, tv.nodes.len() as int));
            assert(tv.node_path(tv.root, seq![tv.root]));
        }
        let mut count: usize = 0;
        let mut stack: Vec<usize> = Vec::new();
        stack.push(self.root.0);
        let ghost mut visited: Set<int> = Set::empty();
        proof {
            reveal(count_inv);
            assert forall|i: int| #[trigger] tv.below_node(tv.root, i) && !visited.contains(i) implies
                exists|x: int| 0 <= x < stack@.len() && tv.below_node(#[trigger] stack@[x] as int, i) by {
                assert(tv.below_node(stack@[0] as int, i));
            }
            assert(count_inv(tv, visited, stack@));
        }
        loop
            invariant
                tv == self@,
                self.wf(),
                arena_len == tv.nodes.len(),
                tv.live.finite(),
                tv.live.len() <= tv.nodes.len(),
                count == visited.len(),
                count_inv(tv, visited, stack@),
            ensures
                stack@.len() == 0,
            decreases tv.live.len() - visited.len(),
        {
            let ghost old_stack = stack@;
            let h = match stack.pop() {
                Some(h) => h,
                None => {
                    break;
                },
            };
            let ghost old_visited = visited;
            proof {
                lemma_count_top(tv, visited, old_stack);
                assert(tv.node_ok(h as int));
            }
            let node = self.arena.nodes[h];
            match node.children {
                Some(b) => {
                    stack.push(b.offset(0).0);
                    stack.push(b.offset(1).0);
                    stack.push(b.offset(2).0);
                    stack.push(b.offset(3).0);
                },
                None => {},
            }
            proof {
                assert(tv.node_ok(h as int));
                match node.children {
                    Some(b) => {
                        assert(stack@ =~= old_stack.drop_last() + seq![b@ as usize, (b@ + 1) as usize, (b@ + 2) as usize, (b@ + 3) as usize]);
                    },
                    None => {},
                }
                assert(old_stack.drop_last() == stack@ || true);
                lemma_count_step(tv, old_visited, old_stack, stack@);
                visited = visited.insert(h as int);
                vstd::set_lib::lemma_len_subset(visited, tv.live);
            }
            count = count + 1;
        }
        proof {
            reveal(count_inv);
            assert(visited =~= tv.tree_nodes());
        }
        count
    }

}

} // verus!
