//! The data model: the unit with its arenas, and the handles that address them.

use crate::util::{Key, KeyVec};
use std::collections::BTreeMap;
use std::marker::PhantomData;
use vstd::prelude::*;

verus! {

/// The type of a value that an instruction yields.
#[derive(Debug, Clone, Copy, PartialEq, Eq, Structural)]
pub enum Type {
    Int32,
    Void,
}

/// The switches of a unit.
#[derive(Debug)]
pub struct Settings {
    /// Whether an instruction that nothing uses is an error when the unit is
    /// finalized. Where it is not, such an instruction is replaced by a
    /// tombstone.
    pub volatile: bool,
}

impl Default for Settings {
    fn default() -> (settings: Self)
        ensures
            settings.volatile,
    {
        Settings { volatile: true }
    }
}

/// Addresses a position in the operand runs.
#[derive(Debug, PartialEq, Eq, PartialOrd, Ord, Default, Clone, Copy, Structural)]
pub struct DataPart(pub u32);

/// Addresses a position in the signature runs.
#[derive(Debug, PartialEq, Eq, PartialOrd, Ord, Default, Clone, Copy, Structural)]
pub struct SignaturePart(pub u32);

/// Addresses an instruction. Handles grow in the order of emission.
#[derive(Debug, PartialEq, Eq, PartialOrd, Ord, Default, Clone, Copy, Structural)]
pub struct Instruction(pub u32);

/// Addresses a block. Block 0 is the entry block.
#[derive(Debug, PartialEq, Eq, PartialOrd, Ord, Default, Clone, Copy, Structural)]
pub struct Block(pub u32);

/// The number that stands for "return" where a branch names its target. It is
/// never the number of a block.
pub const BLOCK_MAX: u32 = 0xffff_ffff;

impl Block {
    /// The target of a branch that returns from the unit.
    pub fn max() -> (target: Block)
        ensures
            target == Block(BLOCK_MAX),
    {
        Block(BLOCK_MAX)
    }
}

/// A block handle as the builder passes it around. `Init` records whether the
/// block has been written, `Seal` whether branches to it are still accepted.
pub struct BlockHandle<Init, Seal> {
    index: Block,
    _p: PhantomData<(Init, Seal)>,
}

impl<Init, Seal> BlockHandle<Init, Seal> {
    /// The block that the handle addresses.
    pub closed spec fn block(&self) -> Block {
        self.index
    }

    /// The block that the handle addresses.
    pub fn index(&self) -> (index: Block)
        ensures
            index == self.block(),
    {
        self.index
    }

    /// The handle of a block in the state that the type names. Only the
    /// builder hands out handles, so that a state is reached in one way.
    pub(crate) fn new(index: Block) -> (handle: Self)
        ensures
            handle.block() == index,
    {
        BlockHandle { index, _p: PhantomData }
    }
}

/// What the unit stores of a block.
#[derive(Debug, Clone, Copy, PartialEq, Eq, Structural)]
pub struct BlockData {
    /// The first position of the block's parameter types in the signature runs.
    pub sig_start: SignaturePart,
    /// The position behind the last of them.
    pub sig_end: SignaturePart,
    /// The handle of the block's first instruction.
    pub start: Instruction,
    /// The handle behind the block's last instruction.
    pub end: Instruction,
}

/// What the unit stores of an instruction.
#[derive(Debug, Clone, Copy, PartialEq, Eq, Structural)]
pub struct InstData {
    /// The block that the instruction was emitted into.
    pub block: Block,
    /// The type of its result; `Void` for terminators and tombstones.
    pub typing: Type,
    pub kind: InstKind,
}

#[derive(Debug, Clone, Copy, PartialEq, Eq, Structural)]
pub enum InstKind {
    /// A removed instruction.
    Tombstone,
    /// The block parameter at a position.
    FetchArg(usize),
    IConst(isize),
    Add(Instruction, Instruction),
    Sub(Instruction, Instruction),
    Less(Instruction, Instruction),
    More(Instruction, Instruction),
    /// A call of the unit itself; the arguments are a run of operands.
    Recur(DataPart, DataPart),
    Terminator(TermData),
}

#[derive(Debug, Clone, Copy, PartialEq, Eq, Structural)]
pub enum TermData {
    /// A two-way conditional. The two branches that follow it are taken when
    /// the condition holds and when it does not, in that order.
    DoIf(Instruction),
    /// A jump to a block, or a return where the target is `Block::max()`; the
    /// arguments are a run of operands.
    Branch(Block, DataPart, DataPart),
}

/// How long a value is needed in one block.
#[derive(Debug, Clone, Copy, PartialEq, Eq, Structural)]
pub enum LiveData {
    /// A block that control may reach from this one still needs it.
    Alive,
    /// The last instruction of this block that needs it.
    Partial(Instruction),
}

/// One function's intermediate representation: its blocks, instructions and
/// operand runs, and what finalizing adds to them.
pub struct Unit {
    pub settings: Settings,
    /// The operand runs: the arguments of branches and of recursive calls.
    pub data: KeyVec<DataPart, Instruction>,
    /// The signature runs: the parameter types of each block.
    pub signatures: KeyVec<SignaturePart, Type>,
    pub blocks: KeyVec<Block, BlockData>,
    pub instructions: KeyVec<Instruction, InstData>,
    /// The liveness tags, keyed by `live_key` of a block and an instruction.
    pub liveness: BTreeMap<u64, LiveData>,
    /// The type that the unit returns, once it is finalized.
    pub retsig: Option<Type>,
}

/// The key under which the liveness map holds the tag of an instruction in a
/// block.
pub open spec fn live_key(block: Block, inst: Instruction) -> u64 {
    (block.0 as int * 0x1_0000_0000 + inst.0 as int) as u64
}

/// The liveness tags by block and instruction, given the map by key.
pub open spec fn tags(by_key: Map<u64, LiveData>) -> Map<(Block, Instruction), LiveData> {
    Map::new(
        |k: (Block, Instruction)| by_key.contains_key(live_key(k.0, k.1)),
        |k: (Block, Instruction)| by_key[live_key(k.0, k.1)],
    )
}

/// A unit as a mathematical value.
pub struct UnitView {
    pub volatile: bool,
    pub data: Seq<Instruction>,
    pub signatures: Seq<Type>,
    pub blocks: Seq<BlockData>,
    pub instructions: Seq<InstData>,
    pub liveness: Map<(Block, Instruction), LiveData>,
    pub retsig: Option<Type>,
}

impl View for Unit {
    type V = UnitView;

    open spec fn view(&self) -> UnitView {
        UnitView {
            volatile: self.settings.volatile,
            data: self.data@,
            signatures: self.signatures@,
            blocks: self.blocks@,
            instructions: self.instructions@,
            liveness: tags(self.liveness@),
            retsig: self.retsig,
        }
    }
}

impl InstKind {
    /// Whether the instruction ends or helps to end a block.
    pub open spec fn is_terminator(self) -> bool {
        self is Terminator
    }

    /// Whether the instruction is a branch or a return.
    pub open spec fn is_branch(self) -> bool {
        self matches InstKind::Terminator(TermData::Branch(_, _, _))
    }

    /// Whether the instruction is the marker of a two-way conditional.
    pub open spec fn is_do_if(self) -> bool {
        self matches InstKind::Terminator(TermData::DoIf(_))
    }

    /// The instructions whose results this one reads, given the operand runs.
    pub open spec fn operands(self, data: Seq<Instruction>) -> Seq<Instruction> {
        match self {
            InstKind::Add(a, b) | InstKind::Sub(a, b) | InstKind::Less(a, b) | InstKind::More(
                a,
                b,
            ) => seq![a, b],
            InstKind::Recur(s, e) | InstKind::Terminator(TermData::Branch(_, s, e)) => data.subrange(
                s.0 as int,
                e.0 as int,
            ),
            InstKind::Terminator(TermData::DoIf(c)) => seq![c],
            _ => Seq::empty(),
        }
    }

    /// Whether the operand run that the instruction names, if it names one,
    /// lies within `len` operands.
    pub open spec fn run_within(self, len: nat) -> bool {
        match self {
            InstKind::Recur(s, e) | InstKind::Terminator(TermData::Branch(_, s, e)) => s.0 <= e.0
                <= len,
            _ => true,
        }
    }

    /// The block that the instruction jumps to: none for a return and for
    /// what is no branch.
    pub open spec fn target(self) -> Option<Block> {
        match self {
            InstKind::Terminator(TermData::Branch(t, _, _)) => if t.0 == BLOCK_MAX {
                None
            } else {
                Some(t)
            },
            _ => None,
        }
    }

    /// Whether the block that the instruction jumps to, if it jumps, is one of
    /// `blocks` blocks.
    pub open spec fn target_within(self, blocks: nat) -> bool {
        match self {
            InstKind::Terminator(TermData::Branch(t, _, _)) => t.0 == BLOCK_MAX || t.0 < blocks,
            _ => true,
        }
    }
}

impl InstKind {
    /// The block that the instruction jumps to, if it is a branch and no
    /// return.
    pub fn get_block(&self) -> (target: Option<Block>)
        ensures
            target == self.target(),
    {
        match self {
            InstKind::Terminator(TermData::Branch(t, _, _)) => {
                if t.0 == BLOCK_MAX {
                    None
                } else {
                    Some(*t)
                }
            },
            _ => None,
        }
    }

    /// The instructions whose results this one reads.
    pub fn get_insts(&self, data: &KeyVec<DataPart, Instruction>) -> (operands: Vec<Instruction>)
        requires
            self.run_within(data@.len()),
        ensures
            operands@ == self.operands(data@),
    {
        let mut operands: Vec<Instruction> = Vec::new();
        match self {
            InstKind::Add(a, b) | InstKind::Sub(a, b) | InstKind::Less(a, b) | InstKind::More(
                a,
                b,
            ) => {
                operands.push(*a);
                operands.push(*b);
            },
            InstKind::Recur(s, e) | InstKind::Terminator(TermData::Branch(_, s, e)) => {
                let mut i: u32 = s.0;
                while i < e.0
                    invariant
                        s.0 <= i <= e.0 <= data@.len(),
                        operands@ == data@.subrange(s.0 as int, i as int),
                    decreases e.0 - i,
                {
                    operands.push(*data.index(DataPart(i)));
                    i += 1;
                }
            },
            InstKind::Terminator(TermData::DoIf(c)) => {
                operands.push(*c);
            },
            _ => {},
        }
        operands
    }

    /// Whether the instruction ends or helps to end a block.
    pub fn is_term(&self) -> (term: bool)
        ensures
            term == self.is_terminator(),
    {
        match self {
            InstKind::Terminator(_) => true,
            _ => false,
        }
    }

    /// Whether the instruction is a branch or a return.
    pub fn is_jump(&self) -> (jump: bool)
        ensures
            jump == self.is_branch(),
    {
        match self {
            InstKind::Terminator(TermData::Branch(_, _, _)) => true,
            _ => false,
        }
    }

    /// Whether the instruction is the marker of a conditional.
    pub fn is_cond(&self) -> (cond: bool)
        ensures
            cond == self.is_do_if(),
    {
        match self {
            InstKind::Terminator(TermData::DoIf(_)) => true,
            _ => false,
        }
    }
}

impl UnitView {
    /// The instructions whose results instruction `i` reads.
    pub open spec fn operands_of(self, i: int) -> Seq<Instruction> {
        self.instructions[i].kind.operands(self.data)
    }

    /// The number of parameters of block `b`.
    pub open spec fn arity(self, b: int) -> int {
        self.blocks[b].sig_end.0 - self.blocks[b].sig_start.0
    }

    /// Instruction `i` names only what exists: its block, its run of
    /// operands, the block it jumps to and the parameter it fetches; and each
    /// of its operands was emitted before it.
    pub open spec fn inst_ok(self, i: int) -> bool {
        let inst = self.instructions[i];
        &&& inst.block.0 < self.blocks.len()
        &&& inst.kind.run_within(self.data.len())
        &&& inst.kind.target_within(self.blocks.len())
        &&& (inst.kind matches InstKind::FetchArg(k) ==> k < self.arity(inst.block.0 as int))
        &&& forall|k: int|
            0 <= k < self.operands_of(i).len() ==> (#[trigger] self.operands_of(i)[k]).0 < i
    }

    /// Block `b` names a run of parameter types that exists and a range of
    /// instructions that exist and were emitted into it.
    pub open spec fn block_ok(self, b: int) -> bool {
        let block = self.blocks[b];
        &&& block.sig_start.0 <= block.sig_end.0 <= self.signatures.len()
        &&& block.start.0 <= block.end.0 <= self.instructions.len()
        &&& forall|i: int|
            block.start.0 <= i < block.end.0 ==> (#[trigger] self.instructions[i]).block.0 == b
    }

    /// The range of block `b` ends within the first `committed` instructions.
    pub open spec fn ends_by(self, b: int, committed: int) -> bool {
        self.blocks[b].end.0 <= committed
    }

    /// Instruction `i` lies in the range of the block it was emitted into.
    pub open spec fn placed(self, i: int) -> bool {
        let b = self.instructions[i].block.0 as int;
        self.blocks[b].start.0 <= i < self.blocks[b].end.0
    }

    /// The unit is well formed where the first `committed` instructions are
    /// those of the blocks written so far: the arenas fit their keys, every
    /// block and instruction names only what exists, no block's range goes
    /// beyond the committed instructions, and each of these lies in the range
    /// of its block.
    pub open spec fn wf_upto(self, committed: int) -> bool {
        &&& self.data.len() <= u32::MAX
        &&& self.signatures.len() <= u32::MAX
        &&& self.blocks.len() <= u32::MAX
        &&& self.instructions.len() <= u32::MAX
        &&& 0 <= committed <= self.instructions.len()
        &&& forall|b: int| 0 <= b < self.blocks.len() ==> #[trigger] self.block_ok(b)
        &&& forall|b: int| 0 <= b < self.blocks.len() ==> #[trigger] self.ends_by(b, committed)
        &&& forall|i: int| 0 <= i < self.instructions.len() ==> #[trigger] self.inst_ok(i)
        &&& forall|i: int| 0 <= i < committed ==> #[trigger] self.placed(i)
    }

    /// The unit is well formed and no block is being written.
    pub open spec fn wf(self) -> bool {
        self.wf_upto(self.instructions.len() as int)
    }

    /// No instruction in `[from, to)` is a terminator.
    pub open spec fn plain(self, from: int, to: int) -> bool {
        forall|i: int| from <= i < to ==> !(#[trigger] self.instructions[i]).kind.is_terminator()
    }

    /// The instructions in `[from, to)` are a finished block: instructions
    /// that are no terminators, and then either one branch, or the marker of
    /// a conditional and two branches.
    pub open spec fn terminated(self, from: int, to: int) -> bool {
        ||| {
            &&& from < to
            &&& self.plain(from, to - 1)
            &&& self.instructions[to - 1].kind.is_branch()
        }
        ||| {
            &&& from + 3 <= to
            &&& self.plain(from, to - 3)
            &&& self.instructions[to - 3].kind.is_do_if()
            &&& self.instructions[to - 2].kind.is_branch()
            &&& self.instructions[to - 1].kind.is_branch()
        }
    }

    /// Block `b` has been written.
    pub open spec fn written(self, b: int) -> bool {
        self.blocks[b].start.0 < self.blocks[b].end.0
    }

    /// Every block that has been written is a finished block.
    pub open spec fn all_terminated(self) -> bool {
        forall|b: int|
            0 <= b < self.blocks.len() && #[trigger] self.written(b) ==> self.terminated(
                self.blocks[b].start.0 as int,
                self.blocks[b].end.0 as int,
            )
    }
}

impl UnitView {
    /// The state of a unit between the calls that build it: it is well
    /// formed, and every block written so far is a finished block.
    pub open spec fn consistent(self) -> bool {
        self.wf() && self.all_terminated()
    }
}

impl Unit {
    /// The unit is well formed: see `UnitView::wf`.
    pub open spec fn wf(&self) -> bool {
        self@.wf()
    }

    /// An empty unit: no blocks, no instructions, and dead code is an error.
    pub fn new() -> (unit: Self)
        ensures
            unit.wf(),
            unit@.volatile,
            unit@.data.len() == 0,
            unit@.signatures.len() == 0,
            unit@.blocks.len() == 0,
            unit@.instructions.len() == 0,
            unit@.liveness == Map::<(Block, Instruction), LiveData>::empty(),
            unit@.retsig is None,
    {
        let unit = Unit {
            settings: Settings::default(),
            data: KeyVec::new(),
            signatures: KeyVec::new(),
            blocks: KeyVec::new(),
            instructions: KeyVec::new(),
            liveness: BTreeMap::new(),
            retsig: None,
        };
        assert(unit@.liveness =~= Map::<(Block, Instruction), LiveData>::empty());
        unit
    }
}

impl BlockData {
    /// A block with the given run of parameter types and no instructions.
    pub fn new(sig_start: SignaturePart, sig_end: SignaturePart) -> (block: Self)
        ensures
            block == (BlockData { sig_start, sig_end, start: Instruction(0), end: Instruction(0) }),
    {
        BlockData { sig_start, sig_end, start: Instruction(0), end: Instruction(0) }
    }
}

impl Key for Instruction {
    open spec fn index(self) -> nat {
        self.0 as nat
    }

    fn from(index: usize) -> (key: Option<Self>) {
        if index <= 0xffff_ffff {
            Some(Instruction(index as u32))
        } else {
            None
        }
    }

    fn into(self) -> (index: usize) {
        self.0 as usize
    }
}

impl Key for Block {
    open spec fn index(self) -> nat {
        self.0 as nat
    }

    fn from(index: usize) -> (key: Option<Self>) {
        if index <= 0xffff_ffff {
            Some(Block(index as u32))
        } else {
            None
        }
    }

    fn into(self) -> (index: usize) {
        self.0 as usize
    }
}

impl Key for SignaturePart {
    open spec fn index(self) -> nat {
        self.0 as nat
    }

    fn from(index: usize) -> (key: Option<Self>) {
        if index <= 0xffff_ffff {
            Some(SignaturePart(index as u32))
        } else {
            None
        }
    }

    fn into(self) -> (index: usize) {
        self.0 as usize
    }
}

impl Key for DataPart {
    open spec fn index(self) -> nat {
        self.0 as nat
    }

    fn from(index: usize) -> (key: Option<Self>) {
        if index <= 0xffff_ffff {
            Some(DataPart(index as u32))
        } else {
            None
        }
    }

    fn into(self) -> (index: usize) {
        self.0 as usize
    }
}

} // verus!
