//! The operations of a builder that emit a value.

use crate::builder::Builder;
use crate::data::{DataPart, InstData, InstKind, Instruction, Type};
use vstd::prelude::*;

verus! {

impl<'a, Seal> Builder<'a, Seal> {
    /// Emits the read of the block's parameter at `index`. Its type is that of
    /// the parameter.
    pub fn fetch_arg(&mut self, index: usize) -> (inst: Instruction)
        requires
            old(self).writing(),
            old(self).unit().instructions.len() < u32::MAX,
            index < old(self).unit().arity(old(self).at().0 as int),
        ensures
            final(self).writing(),
            final(self).appended(
                old(self),
                InstData {
                    block: old(self).at(),
                    typing: old(self).unit().signatures[old(self).unit().blocks[old(
                        self,
                    ).at().0 as int].sig_start.0 + index],
                    kind: InstKind::FetchArg(index),
                },
            ),
            mut_ref_future(final(self).target()) == mut_ref_future(old(self).target()),
            inst.0 == old(self).unit().instructions.len(),
    {
        let block = *self.peek().blocks.index(self.index());
        proof {
            assert(self.unit().block_ok(self.at().0 as int));
        }
        let at: usize = block.sig_start.0 as usize + index;
        let t = *self.peek().signatures.index(crate::data::SignaturePart(at as u32));
        self.emit(InstData { block: self.index(), typing: t, kind: InstKind::FetchArg(index) })
    }

    /// Emits an integer constant of a type.
    pub fn iconst(&mut self, t: Type, number: isize) -> (inst: Instruction)
        requires
            old(self).writing(),
            old(self).unit().instructions.len() < u32::MAX,
        ensures
            final(self).writing(),
            final(self).appended(
                old(self),
                InstData { block: old(self).at(), typing: t, kind: InstKind::IConst(number) },
            ),
            mut_ref_future(final(self).target()) == mut_ref_future(old(self).target()),
            inst.0 == old(self).unit().instructions.len(),
    {
        self.emit(InstData { block: self.index(), typing: t, kind: InstKind::IConst(number) })
    }

    /// Emits the comparison "first less than second" of two instructions of
    /// the unit. Its type is that of the first.
    pub fn less(&mut self, args: [Instruction; 2]) -> (inst: Instruction)
        requires
            old(self).writing(),
            old(self).unit().instructions.len() < u32::MAX,
            old(self).unit().emitted(args@),
        ensures
            final(self).writing(),
            final(self).appended(
                old(self),
                InstData {
                    block: old(self).at(),
                    typing: old(self).unit().instructions[args[0].0 as int].typing,
                    kind: InstKind::Less(args[0], args[1]),
                },
            ),
            mut_ref_future(final(self).target()) == mut_ref_future(old(self).target()),
            inst.0 == old(self).unit().instructions.len(),
    {
        let t = self.peek().instructions.index(args[0]).typing;
        self.emit(
            InstData { block: self.index(), typing: t, kind: InstKind::Less(args[0], args[1]) },
        )
    }

    /// Emits the comparison "first more than second" of two instructions of
    /// the unit. Its type is that of the first.
    pub fn more(&mut self, args: [Instruction; 2]) -> (inst: Instruction)
        requires
            old(self).writing(),
            old(self).unit().instructions.len() < u32::MAX,
            old(self).unit().emitted(args@),
        ensures
            final(self).writing(),
            final(self).appended(
                old(self),
                InstData {
                    block: old(self).at(),
                    typing: old(self).unit().instructions[args[0].0 as int].typing,
                    kind: InstKind::More(args[0], args[1]),
                },
            ),
            mut_ref_future(final(self).target()) == mut_ref_future(old(self).target()),
            inst.0 == old(self).unit().instructions.len(),
    {
        let t = self.peek().instructions.index(args[0]).typing;
        self.emit(
            InstData { block: self.index(), typing: t, kind: InstKind::More(args[0], args[1]) },
        )
    }

    /// Emits the sum of two instructions of the unit. Its type is that of the
    /// first.
    pub fn add(&mut self, args: [Instruction; 2]) -> (inst: Instruction)
        requires
            old(self).writing(),
            old(self).unit().instructions.len() < u32::MAX,
            old(self).unit().emitted(args@),
        ensures
            final(self).writing(),
            final(self).appended(
                old(self),
                InstData {
                    block: old(self).at(),
                    typing: old(self).unit().instructions[args[0].0 as int].typing,
                    kind: InstKind::Add(args[0], args[1]),
                },
            ),
            mut_ref_future(final(self).target()) == mut_ref_future(old(self).target()),
            inst.0 == old(self).unit().instructions.len(),
    {
        let t = self.peek().instructions.index(args[0]).typing;
        self.emit(
            InstData { block: self.index(), typing: t, kind: InstKind::Add(args[0], args[1]) },
        )
    }

    /// Emits the difference of two instructions of the unit. Its type is that
    /// of the first.
    pub fn sub(&mut self, args: [Instruction; 2]) -> (inst: Instruction)
        requires
            old(self).writing(),
            old(self).unit().instructions.len() < u32::MAX,
            old(self).unit().emitted(args@),
        ensures
            final(self).writing(),
            final(self).appended(
                old(self),
                InstData {
                    block: old(self).at(),
                    typing: old(self).unit().instructions[args[0].0 as int].typing,
                    kind: InstKind::Sub(args[0], args[1]),
                },
            ),
            mut_ref_future(final(self).target()) == mut_ref_future(old(self).target()),
            inst.0 == old(self).unit().instructions.len(),
    {
        let t = self.peek().instructions.index(args[0]).typing;
        self.emit(
            InstData { block: self.index(), typing: t, kind: InstKind::Sub(args[0], args[1]) },
        )
    }

    /// Emits a call of the unit itself with the given instructions of the
    /// unit as arguments. Its type is the unit's return type, or `Void` while
    /// none is declared.
    pub fn recurse(&mut self, args: &[Instruction]) -> (inst: Instruction)
        requires
            old(self).writing(),
            old(self).unit().instructions.len() < u32::MAX,
            old(self).unit().data.len() + args@.len() <= u32::MAX,
            old(self).unit().emitted(args@),
        ensures
            final(self).writing(),
            final(self).at() == old(self).at(),
            final(self).unit() == old(self).unit().push_run(args@).push_inst(
                InstData {
                    block: old(self).at(),
                    typing: match old(self).unit().retsig {
                        Some(t) => t,
                        None => Type::Void,
                    },
                    kind: InstKind::Recur(
                        DataPart(old(self).unit().data.len() as u32),
                        DataPart((old(self).unit().data.len() + args@.len()) as u32),
                    ),
                },
            ),
            mut_ref_future(final(self).target()) == mut_ref_future(old(self).target()),
            inst.0 == old(self).unit().instructions.len(),
    {
        let run = self.store_run(args);
        let t = match self.peek().retsig {
            Some(t) => t,
            None => Type::Void,
        };
        let inst = InstData {
            block: self.index(),
            typing: t,
            kind: InstKind::Recur(run[0], run[1]),
        };
        proof {
            assert(self.unit().data.subrange(run[0].0 as int, run[1].0 as int) =~= args@);
        }
        self.emit(inst)
    }
}

} // verus!
