//! Handles to the nodes of the tree's arena, and to blocks of four sibling nodes.
use vstd::prelude::*;
use crate::complex::domain::Offset;

verus! {

/// The position of a node in the arena.
#[derive(Clone, Copy, PartialEq, Eq, Structural, Debug)]
pub struct NodeHandle(pub usize);

/// A block of four sibling nodes, which sit next to each other in the arena;
/// stored as the position of the first of them, a multiple of four.
#[derive(Clone, Copy, PartialEq, Eq, Structural, Debug)]
pub struct BlockHandle(NodeHandle);

/// Why a node handle is not the start of a block.
#[derive(Clone, Copy, PartialEq, Eq, Structural, Debug)]
pub enum BlockHandleError {
    /// The position is not a multiple of four.
    Unaligned,
}

impl View for BlockHandle {
    type V = int;

    /// The position of the first sibling.
    closed spec fn view(&self) -> int {
        self.0.0 as int
    }
}

/// Two block handles with the same view are the same handle.
pub broadcast proof fn lemma_block_view_injective(a: BlockHandle, b: BlockHandle)
    ensures
        #[trigger] a@ == #[trigger] b@ ==> a == b,
{
}

/// A block handle is always aligned and leaves room for its four siblings.
pub open spec fn block_index_ok(i: int) -> bool {
    i % 4 == 0 && 0 <= i && i + 3 <= usize::MAX
}

impl NodeHandle {
    /// A recognizable placeholder for storage that holds no handle.
    pub fn uninit() -> (r: Self)
        ensures
            r.0 == 0xABCD_EFAB,
    {
        NodeHandle(0xABCD_EFAB)
    }

    /// The handle of the node at the given position.
    pub fn new(index: usize) -> (r: Self)
        ensures
            r.0 == index,
    {
        NodeHandle(index)
    }

    /// The position of the node.
    pub fn to_index(self) -> (r: usize)
        ensures
            r == self.0,
    {
        self.0
    }

    /// The block the node belongs to, whose first sibling is at the position rounded down to a multiple of four.
    pub fn to_block(self) -> (r: BlockHandle)
        ensures
            r@ == self.0 - self.0 % 4,
            block_index_ok(r@),
    {
        BlockHandle(NodeHandle(self.0 - self.0 % 4))
    }
}

impl BlockHandle {
    /// A recognizable placeholder for storage that holds no block.
    pub fn uninit() -> (r: Self)
        ensures
            r@ == 0xABCD_EFA8,
    {
        BlockHandle(NodeHandle(0xABCD_EFA8))
    }

    /// The block that starts at the node, or an error if the node's position is not a multiple of four.
    pub fn try_from_node(node: NodeHandle) -> (r: Result<Self, BlockHandleError>)
        ensures
            r.is_ok() <==> node.0 % 4 == 0,
            r matches Ok(b) ==> b@ == node.0,
    {
        if node.0 % 4 != 0 {
            return Err(BlockHandleError::Unaligned);
        }
        Ok(BlockHandle(node))
    }

    /// The first sibling of the block.
    pub fn to_node(self) -> (r: NodeHandle)
        ensures
            r.0 == self@,
    {
        self.0
    }

    /// The sibling at `offset`, equivalent to `self.siblings()[offset]`.
    pub fn offset(self, offset: Offset) -> (r: NodeHandle)
        requires
            offset < 4,
            self@ + 3 <= usize::MAX,
        ensures
            r.0 == self@ + offset,
    {
        NodeHandle(self.0.0 + offset)
    }

    /// The four siblings, in order.
    pub fn siblings(self) -> (r: [NodeHandle; 4])
        requires
            self@ + 3 <= usize::MAX,
        ensures
            forall|k: int| 0 <= k < 4 ==> #[trigger] r[k].0 == self@ + k,
    {
        let i = self.0.0;
        [NodeHandle(i), NodeHandle(i + 1), NodeHandle(i + 2), NodeHandle(i + 3)]
    }
}

} // verus!
