//! The operations that end a block: a return, a branch, or a conditional
//! with its two branches.

use crate::builder::Builder;
use crate::data::{
    Block, BlockHandle, InstData, InstKind, Instruction, TermData, Type, BLOCK_MAX,
};
use crate::util::{False, True};
use std::marker::PhantomData;
use vstd::prelude::*;

verus! {

/// The state of a builder after the marker of a conditional: `Done` records
/// whether the first of its two branches has been emitted.
pub struct IfBuilder<'a, Done, Seal> {
    builder: Builder<'a, Seal>,
    _p: PhantomData<Done>,
}

impl<'a, Done, Seal> IfBuilder<'a, Done, Seal> {
    /// The builder that the state holds.
    pub closed spec fn inner(&self) -> Builder<'a, Seal> {
        self.builder
    }
}

impl<'a, Seal> Builder<'a, Seal> {
    /// Appends the run of arguments and a branch to `target` that passes it.
    pub(crate) fn jump(&mut self, target: Block, args: &[Instruction])
        requires
            old(self).unit().open_at(old(self).at()),
            old(self).unit().instructions.len() < u32::MAX,
            old(self).unit().data.len() + args@.len() <= u32::MAX,
            old(self).unit().emitted(args@),
            target.0 == BLOCK_MAX || target.0 < old(self).unit().blocks.len(),
        ensures
            final(self).unit().open_at(old(self).at()),
            final(self).at() == old(self).at(),
            final(self).unit() == old(self).unit().push_branch(
                old(self).at(),
                target,
                args@,
            ),
            mut_ref_future(final(self).target()) == mut_ref_future(old(self).target()),
    {
        let run = self.store_run(args);
        let inst = InstData {
            block: self.index(),
            typing: Type::Void,
            kind: InstKind::Terminator(TermData::Branch(target, run[0], run[1])),
        };
        proof {
            assert(self.unit().data.subrange(run[0].0 as int, run[1].0 as int) =~= args@);
        }
        let _ = self.emit(inst);
    }

    /// Appends a return of the given instructions of the unit.
    pub(crate) fn ret_inner(&mut self, args: &[Instruction])
        requires
            old(self).unit().open_at(old(self).at()),
            old(self).unit().instructions.len() < u32::MAX,
            old(self).unit().data.len() + args@.len() <= u32::MAX,
            old(self).unit().emitted(args@),
        ensures
            final(self).unit().open_at(old(self).at()),
            final(self).at() == old(self).at(),
            final(self).unit() == old(self).unit().push_branch(
                old(self).at(),
                Block(BLOCK_MAX),
                args@,
            ),
            mut_ref_future(final(self).target()) == mut_ref_future(old(self).target()),
    {
        self.jump(Block::max(), args)
    }

    /// Appends a branch to a block of the unit that passes the given
    /// instructions of the unit.
    pub(crate) fn branch_inner<T>(&mut self, block: &BlockHandle<T, False>, args: &[Instruction])
        requires
            old(self).unit().open_at(old(self).at()),
            old(self).unit().instructions.len() < u32::MAX,
            old(self).unit().data.len() + args@.len() <= u32::MAX,
            old(self).unit().emitted(args@),
            block.block().0 < old(self).unit().blocks.len(),
        ensures
            final(self).unit().open_at(old(self).at()),
            final(self).at() == old(self).at(),
            final(self).unit() == old(self).unit().push_branch(
                old(self).at(),
                block.block(),
                args@,
            ),
            mut_ref_future(final(self).target()) == mut_ref_future(old(self).target()),
    {
        self.jump(block.index(), args)
    }

    /// Ends the block with a return of the given instructions of the unit.
    pub fn ret(self, args: &[Instruction]) -> (out: BlockHandle<True, Seal>)
        requires
            self.writing(),
            self.unit().instructions.len() < u32::MAX,
            self.unit().data.len() + args@.len() <= u32::MAX,
            self.unit().emitted(args@),
        ensures
            out.block() == self.at(),
            mut_ref_future(self.target())@ == self.unit().push_branch(
                self.at(),
                Block(BLOCK_MAX),
                args@,
            ),
            mut_ref_future(self.target())@.closed_at(self.at()),
    {
        let mut this = self;
        this.ret_inner(args);
        this.terminate()
    }

    /// Ends the block with a branch to a block of the unit that passes the
    /// given instructions of the unit.
    pub fn branch<T>(self, block: &BlockHandle<T, False>, args: &[Instruction]) -> (out:
        BlockHandle<True, Seal>)
        requires
            self.writing(),
            self.unit().instructions.len() < u32::MAX,
            self.unit().data.len() + args@.len() <= u32::MAX,
            self.unit().emitted(args@),
            block.block().0 < self.unit().blocks.len(),
        ensures
            out.block() == self.at(),
            mut_ref_future(self.target())@ == self.unit().push_branch(self.at(), block.block(), args@),
            mut_ref_future(self.target())@.closed_at(self.at()),
    {
        let mut this = self;
        this.branch_inner(block, args);
        this.terminate()
    }

    /// Emits the marker of a conditional on an instruction of the unit. The
    /// block is finished by the two terminators that follow: the first is
    /// taken where the condition holds, the second where it does not.
    pub fn do_if(self, condition: Instruction) -> (state: IfBuilder<'a, False, Seal>)
        requires
            self.writing(),
            self.unit().instructions.len() < u32::MAX,
            condition.0 < self.unit().instructions.len(),
        ensures
            state.inner().at() == self.at(),
            state.inner().unit() == self.unit().push_do_if(self.at(), condition),
            mut_ref_future(state.inner().target()) == mut_ref_future(self.target()),
            state.inner().awaiting_first(),
    {
        let inst = InstData {
            block: self.index(),
            typing: Type::Void,
            kind: InstKind::Terminator(TermData::DoIf(condition)),
        };
        let mut this = self;
        let _ = this.emit(inst);
        IfBuilder { builder: this, _p: PhantomData }
    }
}

impl<'a, Seal> IfBuilder<'a, False, Seal> {
    /// The first branch of the conditional: a return of the given
    /// instructions of the unit.
    pub fn ret(self, args: &[Instruction]) -> (state: IfBuilder<'a, True, Seal>)
        requires
            self.inner().awaiting_first(),
            self.inner().unit().instructions.len() < u32::MAX,
            self.inner().unit().data.len() + args@.len() <= u32::MAX,
            self.inner().unit().emitted(args@),
        ensures
            state.inner().at() == self.inner().at(),
            state.inner().unit() == self.inner().unit().push_branch(
                self.inner().at(),
                Block(BLOCK_MAX),
                args@,
            ),
            mut_ref_future(state.inner().target()) == mut_ref_future(self.inner().target()),
            state.inner().awaiting_second(),
    {
        let mut this = self;
        this.builder.ret_inner(args);
        this.next()
    }

    /// The first branch of the conditional: a branch to a block of the unit
    /// that passes the given instructions of the unit.
    pub fn branch<T>(self, block: &BlockHandle<T, False>, args: &[Instruction]) -> (state:
        IfBuilder<'a, True, Seal>)
        requires
            self.inner().awaiting_first(),
            self.inner().unit().instructions.len() < u32::MAX,
            self.inner().unit().data.len() + args@.len() <= u32::MAX,
            self.inner().unit().emitted(args@),
            block.block().0 < self.inner().unit().blocks.len(),
        ensures
            state.inner().at() == self.inner().at(),
            state.inner().unit() == self.inner().unit().push_branch(
                self.inner().at(),
                block.block(),
                args@,
            ),
            mut_ref_future(state.inner().target()) == mut_ref_future(self.inner().target()),
            state.inner().awaiting_second(),
    {
        let mut this = self;
        this.builder.branch_inner(block, args);
        this.next()
    }

    /// The state in which the second branch is awaited.
    fn next(self) -> (state: IfBuilder<'a, True, Seal>)
        ensures
            state.inner() == self.inner(),
    {
        IfBuilder { builder: self.builder, _p: PhantomData }
    }
}

impl<'a, Seal> IfBuilder<'a, True, Seal> {
    /// The second branch of the conditional, which finishes the block: a
    /// return of the given instructions of the unit.
    pub fn ret(self, args: &[Instruction]) -> (out: BlockHandle<True, Seal>)
        requires
            self.inner().awaiting_second(),
            self.inner().unit().instructions.len() < u32::MAX,
            self.inner().unit().data.len() + args@.len() <= u32::MAX,
            self.inner().unit().emitted(args@),
        ensures
            out.block() == self.inner().at(),
            mut_ref_future(self.inner().target())@ == self.inner().unit().push_branch(
                self.inner().at(),
                Block(BLOCK_MAX),
                args@,
            ),
            mut_ref_future(self.inner().target())@.closed_at(self.inner().at()),
    {
        let mut this = self;
        this.builder.ret_inner(args);
        this.builder.terminate()
    }

    /// The second branch of the conditional, which finishes the block: a
    /// branch to a block of the unit that passes the given instructions of
    /// the unit.
    pub fn branch<T>(self, block: &BlockHandle<T, False>, args: &[Instruction]) -> (out:
        BlockHandle<True, Seal>)
        requires
            self.inner().awaiting_second(),
            self.inner().unit().instructions.len() < u32::MAX,
            self.inner().unit().data.len() + args@.len() <= u32::MAX,
            self.inner().unit().emitted(args@),
            block.block().0 < self.inner().unit().blocks.len(),
        ensures
            out.block() == self.inner().at(),
            mut_ref_future(self.inner().target())@ == self.inner().unit().push_branch(
                self.inner().at(),
                block.block(),
                args@,
            ),
            mut_ref_future(self.inner().target())@.closed_at(self.inner().at()),
    {
        let mut this = self;
        this.builder.branch_inner(block, args);
        this.builder.terminate()
    }
}

} // verus!
