use vstd::prelude::*;
use crate::function::BasicBlock;

verus! {

/// What a pass decides for a visited block.
#[derive(Debug)]
pub enum BlockRewriterAction {
    /// Keep the block, as the pass may have changed it.
    Keep(BasicBlock),
    /// Put another block in its place.
    Replace(BasicBlock),
    /// Drop the block.
    Remove,
}

/// The blocks that an action leaves in place of the visited one.
pub open spec fn action_blocks(a: BlockRewriterAction) -> Seq<BasicBlock> {
    match a {
        BlockRewriterAction::Keep(b) => seq![b],
        BlockRewriterAction::Replace(b) => seq![b],
        BlockRewriterAction::Remove => Seq::empty(),
    }
}

/// Walks the blocks of a body in order and lets a pass keep, replace or
/// remove each one, and register new blocks. Nothing is written back until
/// `finish`, which returns the rewritten blocks followed by the new ones;
/// predecessors and block order are then recomputed by `initialize_hir`.
#[derive(Debug)]
pub struct BlockRewriter {
    /// The blocks not yet visited, last to be visited first.
    pending: Vec<BasicBlock>,
    rewritten: Vec<BasicBlock>,
    added: Vec<BasicBlock>,
}

impl BlockRewriter {
    /// The blocks not yet visited, in visiting order.
    pub closed spec fn remaining(&self) -> Seq<BasicBlock> {
        Seq::new(self.pending@.len(), |i: int| self.pending@[self.pending@.len() - 1 - i])
    }

    /// What the actions committed so far left, in visiting order.
    pub closed spec fn rewritten(&self) -> Seq<BasicBlock> {
        self.rewritten@
    }

    /// The new blocks registered so far.
    pub closed spec fn added(&self) -> Seq<BasicBlock> {
        self.added@
    }

    pub fn new(blocks: Vec<BasicBlock>) -> (r: BlockRewriter)
        ensures
            r.remaining() == blocks@,
            r.rewritten() == Seq::<BasicBlock>::empty(),
            r.added() == Seq::<BasicBlock>::empty(),
    {
        let ghost b0 = blocks@;
        let mut blocks = blocks;
        let mut pending: Vec<BasicBlock> = Vec::new();
        while blocks.len() > 0
            invariant
                blocks@.len() + pending@.len() == b0.len(),
                blocks@ == b0.take(blocks@.len() as int),
                forall|m: int| 0 <= m < pending@.len() ==> #[trigger] pending@[m] == b0[b0.len() - 1 - m],
            decreases blocks@.len(),
        {
            let b = blocks.pop().unwrap();
            pending.push(b);
            proof {
                assert(blocks@ =~= b0.take(blocks@.len() as int));
            }
        }
        let r = BlockRewriter { pending, rewritten: Vec::new(), added: Vec::new() };
        proof {
            assert(r.remaining() =~= b0);
        }
        r
    }

    /// Hands out the next block to visit, if any is left.
    pub fn next_block(&mut self) -> (r: Option<BasicBlock>)
        ensures
            old(self).remaining().len() == 0 ==> r is None && final(self).remaining() == old(self).remaining(),
            old(self).remaining().len() > 0 ==> r == Some(old(self).remaining()[0])
                && final(self).remaining() == old(self).remaining().drop_first(),
            final(self).rewritten() == old(self).rewritten(),
            final(self).added() == old(self).added(),
    {
        let r = self.pending.pop();
        proof {
            if old(self).remaining().len() > 0 {
                assert(self.remaining() =~= old(self).remaining().drop_first());
            } else {
                assert(self.remaining() =~= old(self).remaining());
            }
        }
        r
    }

    /// Applies a pass's decision for the block it was last handed.
    pub fn commit(&mut self, action: BlockRewriterAction)
        ensures
            final(self).rewritten() == old(self).rewritten() + action_blocks(action),
            final(self).remaining() == old(self).remaining(),
            final(self).added() == old(self).added(),
    {
        match action {
            BlockRewriterAction::Keep(b) => self.rewritten.push(b),
            BlockRewriterAction::Replace(b) => self.rewritten.push(b),
            BlockRewriterAction::Remove => {},
        }
        proof {
            assert(self.rewritten() =~= old(self).rewritten() + action_blocks(action));
        }
    }

    /// Registers a new block, merged in when the walk finishes.
    pub fn add_block(&mut self, block: BasicBlock)
        ensures
            final(self).added() == old(self).added().push(block),
            final(self).remaining() == old(self).remaining(),
            final(self).rewritten() == old(self).rewritten(),
    {
        self.added.push(block);
    }

    /// The new block map: the rewritten blocks, the blocks left unvisited, and
    /// the new blocks, in that order.
    pub fn finish(self) -> (r: Vec<BasicBlock>)
        ensures
            r@ == self.rewritten() + self.remaining() + self.added(),
    {
        let ghost s = self;
        let BlockRewriter { mut pending, mut rewritten, added } = self;
        while pending.len() > 0
            invariant
                rewritten@ + Seq::new(pending@.len(), |i: int| pending@[pending@.len() - 1 - i]) == s.rewritten()
                    + s.remaining(),
            decreases pending@.len(),
        {
            let ghost before = pending@;
            let b = pending.pop().unwrap();
            let ghost r0 = rewritten@;
            rewritten.push(b);
            proof {
                let old_rest = Seq::new(before.len(), |i: int| before[before.len() - 1 - i]);
                let new_rest = Seq::new(pending@.len(), |i: int| pending@[pending@.len() - 1 - i]);
                assert(old_rest =~= seq![b] + new_rest);
                assert(rewritten@ + new_rest =~= r0 + old_rest);
            }
        }
        let ghost mid = rewritten@;
        let mut added = added;
        let mut tail = crate::merge::reversed(added);
        while tail.len() > 0
            invariant
                rewritten@ + Seq::new(tail@.len(), |i: int| tail@[tail@.len() - 1 - i]) == mid + s.added(),
            decreases tail@.len(),
        {
            let ghost before = tail@;
            let b = tail.pop().unwrap();
            let ghost r0 = rewritten@;
            rewritten.push(b);
            proof {
                let old_rest = Seq::new(before.len(), |i: int| before[before.len() - 1 - i]);
                let new_rest = Seq::new(tail@.len(), |i: int| tail@[tail@.len() - 1 - i]);
                assert(old_rest =~= seq![b] + new_rest);
                assert(rewritten@ + new_rest =~= r0 + old_rest);
            }
        }
        proof {
            assert(rewritten@ =~= rewritten@ + Seq::new(tail@.len(), |i: int| tail@[tail@.len() - 1 - i]));
        }
        rewritten
    }
}

} // verus!
