//! The builder protocol: blocks are created, written once through a builder
//! that ends with a terminator, and the unit is finalized.

use crate::data::{
    Block, BlockData, BlockHandle, DataPart, InstData, InstKind, Instruction, SignaturePart,
    TermData, Type, Unit, UnitView,
};
use crate::frame::{
    lemma_carries_same_arenas, lemma_frame_graph, lemma_frame_tags, lemma_frame_used,
    lemma_frame_uses, lemma_frame_wf, lemma_terminated_carried, lemma_wf_carried,
};
use crate::laws::{lemma_sweep_keeps_all_terminated, lemma_sweep_keeps_dominance};
use crate::util::{False, True};
use vstd::prelude::*;

pub mod instructions;
pub mod terminators;

verus! {

/// Why a unit could not be finalized.
#[derive(Debug, Clone, Copy, PartialEq, Eq, Structural)]
pub enum FinalizeError {
    /// The first instruction reads the second, which another block computes,
    /// and control may reach the reader without passing that block.
    Dependency(Instruction, Instruction),
    /// The unit is volatile and nothing uses the instruction, which is no
    /// terminator.
    Unused(Instruction),
}

/// Write access to one block. Each operation appends one instruction to the
/// unit; a terminator consumes the builder.
pub struct Builder<'a, Seal> {
    block: BlockHandle<False, Seal>,
    handle: &'a mut Unit,
}

impl UnitView {
    /// Block `b` is being written: its range is empty and starts where the
    /// committed instructions end, every instruction behind that was emitted
    /// into it, and the blocks written before are finished blocks.
    pub open spec fn open_at(self, b: Block) -> bool {
        &&& b.0 < self.blocks.len()
        &&& self.blocks[b.0 as int].end == self.blocks[b.0 as int].start
        &&& self.wf_upto(self.blocks[b.0 as int].start.0 as int)
        &&& self.all_terminated()
        &&& forall|i: int|
            self.blocks[b.0 as int].start.0 <= i < self.instructions.len() ==> (
            #[trigger] self.instructions[i]).block == b
    }

    /// The unit with one more instruction.
    pub open spec fn push_inst(self, inst: InstData) -> UnitView {
        UnitView { instructions: self.instructions.push(inst), ..self }
    }

    /// The unit with one more run of operands.
    pub open spec fn push_run(self, args: Seq<Instruction>) -> UnitView {
        UnitView { data: self.data + args, ..self }
    }

    /// The unit with one more run of operands and, in block `b`, a branch to
    /// `target` that passes them.
    pub open spec fn push_branch(self, b: Block, target: Block, args: Seq<Instruction>) -> UnitView {
        self.push_run(args).push_inst(
            InstData {
                block: b,
                typing: Type::Void,
                kind: InstKind::Terminator(
                    TermData::Branch(
                        target,
                        DataPart(self.data.len() as u32),
                        DataPart((self.data.len() + args.len()) as u32),
                    ),
                ),
            },
        )
    }

    /// The unit with, in block `b`, the marker of a conditional on `condition`.
    pub open spec fn push_do_if(self, b: Block, condition: Instruction) -> UnitView {
        self.push_inst(
            InstData {
                block: b,
                typing: Type::Void,
                kind: InstKind::Terminator(TermData::DoIf(condition)),
            },
        )
    }

    /// Block `b` is open, and what was emitted into it is a finished block.
    pub open spec fn closed_at(self, b: Block) -> bool {
        &&& self.open_at(b)
        &&& self.terminated(self.blocks[b.0 as int].start.0 as int, self.instructions.len() as int)
    }

    /// Every one of `args` is an instruction of the unit.
    pub open spec fn emitted(self, args: Seq<Instruction>) -> bool {
        forall|k: int| 0 <= k < args.len() ==> (#[trigger] args[k]).0 < self.instructions.len()
    }

    /// `inst` may be appended to block `b`: it names only what exists and
    /// reads only instructions that exist.
    pub open spec fn accepts(self, b: Block, inst: InstData) -> bool {
        &&& inst.block == b
        &&& self.instructions.len() < u32::MAX
        &&& inst.kind.run_within(self.data.len())
        &&& inst.kind.target_within(self.blocks.len())
        &&& (inst.kind matches InstKind::FetchArg(k) ==> k < self.arity(b.0 as int))
        &&& self.emitted(inst.kind.operands(self.data))
    }

    /// The unit with the return type declared.
    pub open spec fn declared(self, sig: Type) -> UnitView {
        UnitView { retsig: Some(sig), ..self }
    }

    /// The unit with one more block, whose parameters have the types `sig`
    /// and which has no instructions yet.
    pub open spec fn with_new_block(self, sig: Seq<Type>) -> UnitView {
        UnitView {
            signatures: self.signatures + sig,
            blocks: self.blocks.push(
                BlockData {
                    sig_start: SignaturePart(self.signatures.len() as u32),
                    sig_end: SignaturePart((self.signatures.len() + sig.len()) as u32),
                    start: Instruction(0),
                    end: Instruction(0),
                },
            ),
            ..self
        }
    }

    /// The unit in which the range of block `b` is empty and lies behind the
    /// instructions emitted so far: the state in which the block is written.
    pub open spec fn begin(self, b: Block) -> UnitView {
        UnitView {
            blocks: self.blocks.update(
                b.0 as int,
                BlockData {
                    start: Instruction(self.instructions.len() as u32),
                    end: Instruction(self.instructions.len() as u32),
                    ..self.blocks[b.0 as int]
                },
            ),
            ..self
        }
    }

    /// The unit in which the range of block `b` ends behind the instructions
    /// emitted so far: the state after the block was written.
    pub open spec fn commit(self, b: Block) -> UnitView {
        UnitView {
            blocks: self.blocks.update(
                b.0 as int,
                BlockData {
                    end: Instruction(self.instructions.len() as u32),
                    ..self.blocks[b.0 as int]
                },
            ),
            ..self
        }
    }
}

impl<'a, Seal> Builder<'a, Seal> {
    /// The unit that the builder writes to.
    pub closed spec fn target(&self) -> &'a mut Unit {
        self.handle
    }

    /// The block that the builder writes.
    pub closed spec fn at(&self) -> Block {
        self.block.block()
    }

    /// The unit as the builder sees it now.
    pub open spec fn unit(&self) -> UnitView {
        mut_ref_current(self.target())@
    }

    /// The first instruction of the block being written.
    pub open spec fn start(&self) -> int {
        self.unit().blocks[self.at().0 as int].start.0 as int
    }

    /// The builder's block is open and no terminator has been emitted into it.
    pub open spec fn writing(&self) -> bool {
        &&& self.unit().open_at(self.at())
        &&& self.unit().plain(self.start(), self.unit().instructions.len() as int)
    }

    /// The builder's block is open and ends in the marker of a conditional,
    /// the first terminator emitted into it.
    pub open spec fn awaiting_first(&self) -> bool {
        let len = self.unit().instructions.len() as int;
        &&& self.unit().open_at(self.at())
        &&& self.start() < len
        &&& self.unit().plain(self.start(), len - 1)
        &&& self.unit().instructions[len - 1].kind.is_do_if()
    }

    /// The builder's block is open and ends in the marker of a conditional and
    /// one branch, the first terminators emitted into it.
    pub open spec fn awaiting_second(&self) -> bool {
        let len = self.unit().instructions.len() as int;
        &&& self.unit().open_at(self.at())
        &&& self.start() + 2 <= len
        &&& self.unit().plain(self.start(), len - 2)
        &&& self.unit().instructions[len - 2].kind.is_do_if()
        &&& self.unit().instructions[len - 1].kind.is_branch()
    }

    /// This builder is `prev` after `inst` was appended to its block.
    pub open spec fn appended(&self, prev: &Self, inst: InstData) -> bool {
        &&& self.at() == prev.at()
        &&& self.unit() == prev.unit().push_inst(inst)
    }

    /// Appends an instruction that the unit accepts.
    pub(crate) fn emit(&mut self, inst: InstData) -> (key: Instruction)
        requires
            old(self).unit().open_at(old(self).at()),
            old(self).unit().accepts(old(self).at(), inst),
        ensures
            final(self).unit().open_at(old(self).at()),
            final(self).appended(old(self), inst),
            mut_ref_future(final(self).target()) == mut_ref_future(old(self).target()),
            key.0 == old(self).unit().instructions.len(),
    {
        proof {
            lemma_push_inst_open(self.unit(), self.at(), inst);
        }
        self.handle.instructions.push(inst)
    }

    /// Appends a run of operands and returns the key of its first and the key
    /// behind its last.
    pub(crate) fn store_run(&mut self, args: &[Instruction]) -> (run: [DataPart; 2])
        requires
            old(self).unit().open_at(old(self).at()),
            old(self).unit().data.len() + args@.len() <= u32::MAX,
        ensures
            final(self).unit().open_at(old(self).at()),
            final(self).at() == old(self).at(),
            final(self).unit() == old(self).unit().push_run(args@),
            mut_ref_future(final(self).target()) == mut_ref_future(old(self).target()),
            run[0] == DataPart(old(self).unit().data.len() as u32),
            run[1] == DataPart((old(self).unit().data.len() + args@.len()) as u32),
    {
        proof {
            lemma_push_run_open(self.unit(), self.at(), args@);
        }
        self.handle.data.push_slice(args)
    }

    /// The block that the builder writes.
    pub(crate) fn index(&self) -> (index: Block)
        ensures
            index == self.at(),
    {
        self.block.index()
    }

    /// Read access to the unit that the builder writes to.
    pub(crate) fn peek(&self) -> (unit: &Unit)
        ensures
            unit@ == self.unit(),
    {
        &*self.handle
    }

    /// Gives up the write access and hands out the handle of the block, now
    /// written.
    pub(crate) fn terminate(self) -> (out: BlockHandle<True, Seal>)
        ensures
            out.block() == self.at(),
            mut_ref_future(self.target()) == mut_ref_current(self.target()),
    {
        BlockHandle::new(self.block.index())
    }
}

/// Appending an instruction that the unit accepts to the block being written
/// leaves that block open.
pub proof fn lemma_push_inst_open(u: UnitView, b: Block, inst: InstData)
    requires
        u.open_at(b),
        u.accepts(b, inst),
    ensures
        u.push_inst(inst).open_at(b),
{
    let v = u.push_inst(inst);
    let s = u.blocks[b.0 as int].start.0 as int;
    assert(v.data.subrange(0, u.data.len() as int) == u.data);
    assert(v.instructions.subrange(0, u.instructions.len() as int) == u.instructions);
    assert forall|c: int| 0 <= c < u.blocks.len() implies #[trigger] v.params_kept(u, c) by {}
    lemma_carries_same_arenas(u, v);
    assert forall|i: int| u.instructions.len() <= i < v.instructions.len() implies #[trigger] v.inst_ok(
        i,
    ) by {
        assert(v.operands_of(i) == inst.kind.operands(u.data));
    }
    assert forall|i: int| 0 <= i < s implies v.range_kept(u, u.instructions[i].block.0 as int) by {
        assert(u.inst_ok(i));
    }
    lemma_wf_carried(u, v, s, s);
    lemma_terminated_carried(u, v, s);
}

/// Appending a run of operands changes nothing in what the unit holds
/// already.
pub proof fn lemma_push_run_open(u: UnitView, b: Block, args: Seq<Instruction>)
    requires
        u.open_at(b),
        u.data.len() + args.len() <= u32::MAX,
    ensures
        u.push_run(args).open_at(b),
{
    let v = u.push_run(args);
    let s = u.blocks[b.0 as int].start.0 as int;
    assert(v.data.subrange(0, u.data.len() as int) == u.data);
    assert(v.instructions.subrange(0, u.instructions.len() as int) == u.instructions);
    assert forall|c: int| 0 <= c < u.blocks.len() implies #[trigger] v.params_kept(u, c) by {}
    lemma_carries_same_arenas(u, v);
    assert forall|i: int| 0 <= i < s implies v.range_kept(u, u.instructions[i].block.0 as int) by {
        assert(u.inst_ok(i));
    }
    lemma_wf_carried(u, v, s, s);
    lemma_terminated_carried(u, v, s);
}

/// Opening a block that has not been written gives a unit in which that
/// block is open.
pub proof fn lemma_begin_open(u: UnitView, b: Block)
    requires
        u.consistent(),
        b.0 < u.blocks.len(),
        !u.written(b.0 as int),
    ensures
        u.begin(b).open_at(b),
        u.begin(b).plain(u.instructions.len() as int, u.instructions.len() as int),
{
    let v = u.begin(b);
    let n = u.instructions.len() as int;
    assert(u.block_ok(b.0 as int));
    assert(v.data.subrange(0, u.data.len() as int) == u.data);
    assert(v.instructions.subrange(0, n) == u.instructions);
    assert forall|c: int| 0 <= c < u.blocks.len() implies #[trigger] v.params_kept(u, c) by {}
    lemma_carries_same_arenas(u, v);
    assert forall|i: int| 0 <= i < n implies v.range_kept(u, u.instructions[i].block.0 as int) by {
        assert(u.inst_ok(i));
        assert(u.placed(i));
    }
    lemma_wf_carried(u, v, n, n);
    lemma_terminated_carried(u, v, n);
}

/// Closing a block that is open and holds a finished block gives a
/// consistent unit.
pub proof fn lemma_commit_consistent(u: UnitView, b: Block)
    requires
        u.closed_at(b),
    ensures
        u.commit(b).consistent(),
        u.commit(b).written(b.0 as int),
{
    let v = u.commit(b);
    let s = u.blocks[b.0 as int].start.0 as int;
    let n = u.instructions.len() as int;
    assert(u.block_ok(b.0 as int));
    assert(v.data.subrange(0, u.data.len() as int) == u.data);
    assert(v.instructions.subrange(0, n) == u.instructions);
    assert forall|c: int| 0 <= c < u.blocks.len() implies #[trigger] v.params_kept(u, c) by {}
    lemma_carries_same_arenas(u, v);
    assert forall|i: int| 0 <= i < s implies v.range_kept(u, u.instructions[i].block.0 as int) by {
        assert(u.inst_ok(i));
        assert(u.placed(i));
    }
    lemma_wf_carried(u, v, s, n);
    lemma_terminated_carried(u, v, s);
}

impl<Init> BlockHandle<Init, False> {
    /// Seals the block: no branch to it is accepted from now on.
    pub fn seal(self) -> (sealed: BlockHandle<Init, True>)
        ensures
            sealed.block() == self.block(),
    {
        BlockHandle::new(self.index())
    }
}

impl Unit {
    /// Creates a block whose parameters have the given types and returns its
    /// handle. The block has no instructions until it is written.
    pub fn new_block(&mut self, sig: &[Type]) -> (block: BlockHandle<False, False>)
        requires
            old(self)@.consistent(),
            old(self)@.blocks.len() < u32::MAX,
            old(self)@.signatures.len() + sig@.len() <= u32::MAX,
        ensures
            final(self)@.consistent(),
            final(self)@ == old(self)@.with_new_block(sig@),
            block.block().0 == old(self)@.blocks.len(),
    {
        let ghost u = self@;
        let idx = self.blocks.next_idx();
        let run = self.signatures.push_slice(sig);
        let _ = self.blocks.push(BlockData::new(run[0], run[1]));
        proof {
            let v = self@;
            let n = u.instructions.len() as int;
            assert(v == u.with_new_block(sig@));
            assert(v.data.subrange(0, u.data.len() as int) == u.data);
            assert(v.instructions.subrange(0, n) == u.instructions);
            assert forall|c: int| 0 <= c < u.blocks.len() implies #[trigger] v.params_kept(
                u,
                c,
            ) by {}
            assert forall|i: int| 0 <= i < n implies #[trigger] v.kept_or_removed(u, i) by {}
            assert forall|c: int| 0 <= c < u.blocks.len() implies #[trigger] v.range_kept(
                u,
                c,
            ) by {}
            assert forall|i: int| 0 <= i < n implies v.range_kept(
                u,
                u.instructions[i].block.0 as int,
            ) by {
                assert(u.inst_ok(i));
            }
            lemma_wf_carried(u, v, n, n);
            lemma_terminated_carried(u, v, n);
        }
        BlockHandle::new(idx)
    }

    /// Writes a block that has not been written: `f` gets a builder for the
    /// block, appends instructions through it and ends with a terminator,
    /// which hands out the handle of the block, now written, that `f`
    /// returns. The block's range is then what `f` appended.
    pub fn with_block<Seal, F>(&mut self, b: BlockHandle<False, Seal>, f: F) -> (out: BlockHandle<
        True,
        Seal,
    >) where F: FnOnce(Builder<Seal>) -> BlockHandle<True, Seal>
        requires
            old(self)@.consistent(),
            b.block().0 < old(self)@.blocks.len(),
            !old(self)@.written(b.block().0 as int),
            forall|w: Builder<Seal>|
                w.at() == b.block() && w.unit() == old(self)@.begin(b.block()) ==> call_requires(f, (w,)),
            forall|w: Builder<Seal>, r: BlockHandle<True, Seal>|
                w.at() == b.block() && w.unit() == old(self)@.begin(b.block()) && call_ensures(f, (w,), r)
                    ==> mut_ref_future(w.target())@.closed_at(b.block()) && r.block() == b.block(),
        ensures
            final(self)@.consistent(),
            final(self)@.written(b.block().0 as int),
            out.block() == b.block(),
            exists|w: Builder<Seal>|
                w.at() == b.block() && w.unit() == old(self)@.begin(b.block()) && call_ensures(f, (w,), out)
                    && final(self)@ == mut_ref_future(w.target())@.commit(b.block()),
    {
        let idx = b.index();
        let ghost u = self@;
        let next = self.instructions.next_idx();
        let mut data = *self.blocks.index(idx);
        data.start = next;
        data.end = next;
        self.blocks.set(idx, data);
        proof {
            assert(self@ == u.begin(idx));
            lemma_begin_open(u, idx);
        }
        let w = Builder { block: b, handle: self };
        let ghost w0 = w;
        assert(w.at() == b.block());
        assert(w.unit() == u.begin(idx));
        assert(call_requires(f, (w,)));
        let out = f(w);
        let ghost v = self@;
        proof {
            assert(call_ensures(f, (w0,), out));
            assert(v == mut_ref_future(w0.target())@);
            lemma_commit_consistent(v, idx);
        }
        let next = self.instructions.next_idx();
        let mut data = *self.blocks.index(idx);
        data.end = next;
        self.blocks.set(idx, data);
        proof {
            assert(self@ == v.commit(idx));
        }
        out
    }

    /// Finalizes the unit: declares its return type, checks that no value
    /// may be read before it is computed, removes what nothing uses and
    /// computes the liveness tags. The first check that fails is the error:
    /// a value that may be read too early, or, in a volatile unit, the first
    /// instruction that nothing uses. The unit that comes out has the
    /// handles of the one that went in, and every block that was a finished
    /// block is one still.
    pub fn finalize(self, sig: Type) -> (out: Result<Unit, FinalizeError>)
        requires
            self.wf(),
        ensures
            out is Ok <==> self@.dominance_holds() && !(self@.volatile && exists|i: int|
                0 <= i < self@.instructions.len() && !self@.used(i)),
            out matches Err(FinalizeError::Dependency(j, i)) ==> self@.first_undominated_use(
                j.0 as int,
                i.0 as int,
            ),
            out matches Err(FinalizeError::Unused(i)) ==> {
                &&& self@.dominance_holds()
                &&& self@.first_unused(i.0 as int)
                &&& !self@.instructions[i.0 as int].kind.is_terminator()
            },
            out matches Ok(unit) ==> {
                &&& unit.wf()
                &&& unit@ == (UnitView {
                    retsig: Some(sig),
                    liveness: unit@.liveness,
                    ..self@.sweep()
                })
                &&& unit@.blocks == self@.blocks
                &&& unit@.data == self@.data
                &&& unit@.signatures == self@.signatures
                &&& unit@.instructions.len() == self@.instructions.len()
                &&& unit@.annotated(unit@.liveness)
                &&& unit@.dominance_holds()
                &&& self@.all_terminated() ==> unit@.all_terminated()
            },
    {
        let mut unit = self;
        unit.retsig = Some(sig);
        let ghost declared = unit@;
        proof {
            assert(declared == self@.declared(sig));
            lemma_frame_wf(self@, declared);
            lemma_frame_uses(self@, declared);
            lemma_frame_used(self@, declared);
            assert forall|i: int| self@.first_unused(i) == declared.first_unused(i) by {
                if declared.first_unused(i) {
                    assert forall|j: int| 0 <= j < i implies self@.used(j) by {
                        assert(declared.used(j));
                    }
                }
                if self@.first_unused(i) {
                    assert forall|j: int| 0 <= j < i implies declared.used(j) by {
                        assert(self@.used(j));
                    }
                }
            }
        }
        match unit.check_dependencies() {
            Err((j, i)) => {
                proof {
                    assert(!self@.dominance_holds());
                    assert(self@.operands_of(j.0 as int) == declared.operands_of(j.0 as int));
                    assert(self@.first_read_of(j.0 as int, self@.owner(i.0 as int), i.0 as int));
                }
                return Err(FinalizeError::Dependency(j, i));
            },
            Ok(()) => {},
        }
        match unit.remove_unused() {
            Err(i) => {
                proof {
                    let k = choose|k: int|
                        0 <= k < declared.instructions.len() && !declared.used(k);
                    assert(!self@.used(k));
                }
                return Err(FinalizeError::Unused(i));
            },
            Ok(()) => {},
        }
        proof {
            assert(unit@ == declared.sweep());
            if self@.volatile {
                assert forall|i: int| 0 <= i < self@.instructions.len() implies self@.used(i) by {
                    assert(declared.used(i));
                }
            }
        }
        unit.annotate_liveness();
        proof {
            let swept = declared.sweep();
            lemma_frame_wf(swept, unit@);
            lemma_frame_tags(swept, unit@);
            lemma_sweep_keeps_dominance(declared);
            lemma_frame_uses(swept, unit@);
            lemma_frame_graph(swept, unit@);
            if self@.all_terminated() {
                assert forall|b: int|
                    0 <= b < declared.blocks.len() && #[trigger] declared.written(
                        b,
                    ) implies declared.terminated(
                    declared.blocks[b].start.0 as int,
                    declared.blocks[b].end.0 as int,
                ) by {
                    assert(self@.written(b));
                }
                lemma_sweep_keeps_all_terminated(declared);
                assert forall|b: int|
                    0 <= b < unit@.blocks.len() && #[trigger] unit@.written(b) implies unit@.terminated(
                    unit@.blocks[b].start.0 as int,
                    unit@.blocks[b].end.0 as int,
                ) by {
                    assert(swept.written(b));
                }
            }
        }
        Ok(unit)
    }
}

} // verus!
