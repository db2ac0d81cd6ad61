//! What holds of every unit that the passes have run on.

use crate::data::{Block, InstKind, Instruction, LiveData, UnitView};
use crate::unused::{lemma_operand_used, lemma_root_used, lemma_uses_earlier};
use vstd::prelude::*;

verus! {

/// The removal renumbers nothing: the unit keeps its blocks, its runs and the
/// number of its instructions, each instruction stays in its block, and an
/// instruction that is used stays as it is.
pub proof fn lemma_sweep_keeps_handles(u: UnitView)
    ensures
        u.sweep().blocks == u.blocks,
        u.sweep().data == u.data,
        u.sweep().signatures == u.signatures,
        u.sweep().instructions.len() == u.instructions.len(),
        forall|i: int|
            0 <= i < u.instructions.len() ==> (#[trigger] u.sweep().instructions[i]).block
                == u.instructions[i].block,
        forall|i: int|
            0 <= i < u.instructions.len() && u.used(i) ==> #[trigger] u.sweep().instructions[i]
                == u.instructions[i],
        forall|i: int|
            0 <= i < u.instructions.len() && !u.used(i) ==> (#[trigger] u.sweep().instructions[i]).kind
                == InstKind::Tombstone,
{
}

/// The removal leaves every terminator as it is, and makes no instruction a
/// terminator.
pub proof fn lemma_sweep_terminators(u: UnitView, i: int)
    requires
        0 <= i < u.instructions.len(),
    ensures
        u.sweep().instructions[i].kind.is_terminator() == u.instructions[i].kind.is_terminator(),
        u.instructions[i].kind.is_terminator() ==> u.sweep().instructions[i] == u.instructions[i],
{
    if u.instructions[i].kind.is_terminator() {
        lemma_root_used(u, i);
    }
}

/// The removal does not change where control passes from a block.
pub proof fn lemma_sweep_edges(u: UnitView, a: int, b: int)
    requires
        u.wf(),
    ensures
        u.sweep().edge(a, b) == u.edge(a, b),
{
    if 0 <= a < u.blocks.len() {
        let s = u.blocks[a].start.0 as int;
        let e = u.blocks[a].end.0 as int;
        assert(u.block_ok(a));
        if s < e {
            lemma_sweep_terminators(u, e - 1);
            if s + 3 <= e {
                lemma_sweep_terminators(u, e - 2);
                lemma_sweep_terminators(u, e - 3);
            }
        }
    }
}

/// The removal does not change which blocks control may reach from which.
pub proof fn lemma_sweep_reaches(u: UnitView, from: int, to: int, avoid: int)
    requires
        u.wf(),
    ensures
        u.sweep().reaches_avoiding(from, to, avoid) == u.reaches_avoiding(from, to, avoid),
{
    let v = u.sweep();
    if v.reaches_avoiding(from, to, avoid) {
        let p = choose|p: Seq<int>| v.path_avoiding(p, from, to, avoid);
        assert forall|k: int| 0 <= k < p.len() - 1 implies u.edge(#[trigger] p[k], p[k + 1]) by {
            assert(v.edge(p[k], p[k + 1]));
            lemma_sweep_edges(u, p[k], p[k + 1]);
        }
        assert(u.path_avoiding(p, from, to, avoid));
    }
    if u.reaches_avoiding(from, to, avoid) {
        let p = choose|p: Seq<int>| u.path_avoiding(p, from, to, avoid);
        assert forall|k: int| 0 <= k < p.len() - 1 implies v.edge(#[trigger] p[k], p[k + 1]) by {
            assert(u.edge(p[k], p[k + 1]));
            lemma_sweep_edges(u, p[k], p[k + 1]);
        }
        assert(v.path_avoiding(p, from, to, avoid));
    }
}

/// After the removal an instruction reads only what it read before, and an
/// instruction that is used reads what it read before.
pub proof fn lemma_sweep_uses(u: UnitView, j: int, i: int)
    ensures
        u.sweep().uses(j, i) ==> u.uses(j, i) && u.used(j),
        u.used(j) && u.uses(j, i) ==> u.sweep().uses(j, i),
{
    let v = u.sweep();
    if 0 <= j < u.instructions.len() {
        if u.used(j) {
            assert(v.operands_of(j) == u.operands_of(j));
        } else {
            assert(v.operands_of(j) == Seq::<Instruction>::empty());
        }
    }
}

/// The first `k + 1` instructions of a chain of uses are used, before the
/// removal and after it.
proof fn lemma_sweep_chain(u: UnitView, c: Seq<int>, k: int)
    requires
        u.use_chain(c) || u.sweep().use_chain(c),
        0 <= k < c.len(),
    ensures
        u.used(c[k]),
        u.sweep().used(c[k]),
    decreases k,
{
    let v = u.sweep();
    if k == 0 {
        lemma_sweep_terminators(u, c[0]);
        lemma_root_used(u, c[0]);
        lemma_root_used(v, c[0]);
    } else {
        lemma_sweep_chain(u, c, k - 1);
        if u.use_chain(c) {
            assert(u.uses(c[k - 1], c[k - 1 + 1]));
        } else {
            assert(v.uses(c[k - 1], c[k - 1 + 1]));
        }
        lemma_sweep_uses(u, c[k - 1], c[k]);
        lemma_operand_used(u, c[k - 1], c[k]);
        lemma_operand_used(v, c[k - 1], c[k]);
    }
}

/// Removing dead code twice removes what removing it once does: the same
/// instructions are used after the removal as before, and a second removal
/// changes nothing.
pub proof fn lemma_sweep_idempotent(u: UnitView)
    ensures
        forall|i: int| #[trigger] u.sweep().used(i) == u.used(i),
        u.sweep().sweep() == u.sweep(),
{
    let v = u.sweep();
    assert forall|i: int| #[trigger] v.used(i) == u.used(i) by {
        if u.used(i) {
            let c = choose|c: Seq<int>| #[trigger] u.use_chain(c) && c[c.len() - 1] == i;
            lemma_sweep_chain(u, c, c.len() - 1);
        }
        if v.used(i) {
            let c = choose|c: Seq<int>| #[trigger] v.use_chain(c) && c[c.len() - 1] == i;
            lemma_sweep_chain(u, c, c.len() - 1);
        }
    }
    assert(v.swept() =~= v.instructions);
}

/// A unit in which no value may be read before it is computed stays so when
/// dead code is removed.
pub proof fn lemma_sweep_keeps_dominance(u: UnitView)
    requires
        u.wf(),
        u.dominance_holds(),
    ensures
        u.sweep().dominance_holds(),
{
    let v = u.sweep();
    assert forall|j: int, i: int| !#[trigger] v.undominated_use(j, i) by {
        if v.undominated_use(j, i) {
            lemma_sweep_uses(u, j, i);
            lemma_uses_earlier(u, j, i);
            lemma_sweep_reaches(u, 0, u.owner(j), u.owner(i));
            assert(u.undominated_use(j, i));
        }
    }
}

/// A finished block is a finished block after the removal of dead code: it
/// ends in one branch, or in the marker of a conditional and two branches,
/// and holds no other terminator.
pub proof fn lemma_sweep_keeps_terminated(u: UnitView, b: int)
    requires
        u.wf(),
        0 <= b < u.blocks.len(),
        u.terminated(u.blocks[b].start.0 as int, u.blocks[b].end.0 as int),
    ensures
        u.sweep().terminated(u.blocks[b].start.0 as int, u.blocks[b].end.0 as int),
{
    let v = u.sweep();
    let s = u.blocks[b].start.0 as int;
    let e = u.blocks[b].end.0 as int;
    assert(u.block_ok(b));
    assert forall|i: int| s <= i < e implies (#[trigger] v.instructions[i]).kind.is_terminator()
        == u.instructions[i].kind.is_terminator() by {
        lemma_sweep_terminators(u, i);
    }
    lemma_sweep_terminators(u, e - 1);
    if s + 3 <= e {
        lemma_sweep_terminators(u, e - 2);
        lemma_sweep_terminators(u, e - 3);
    }
    if u.plain(s, e - 1) && u.instructions[e - 1].kind.is_branch() {
        assert forall|i: int| s <= i < e - 1 implies !(#[trigger] v.instructions[i]).kind.is_terminator() by {
            assert(!u.instructions[i].kind.is_terminator());
        }
        assert(v.plain(s, e - 1));
    } else {
        assert forall|i: int| s <= i < e - 3 implies !(#[trigger] v.instructions[i]).kind.is_terminator() by {
            assert(!u.instructions[i].kind.is_terminator());
        }
        assert(v.plain(s, e - 3));
    }
}

/// A unit in which every block written is a finished block stays so when
/// dead code is removed.
pub proof fn lemma_sweep_keeps_all_terminated(u: UnitView)
    requires
        u.wf(),
        u.all_terminated(),
    ensures
        u.sweep().all_terminated(),
{
    let v = u.sweep();
    assert forall|b: int| 0 <= b < v.blocks.len() && #[trigger] v.written(b) implies v.terminated(
        v.blocks[b].start.0 as int,
        v.blocks[b].end.0 as int,
    ) by {
        assert(u.written(b));
        lemma_sweep_keeps_terminated(u, b);
    }
}

/// A value that is tagged `Alive` in a block is read in a block that control
/// may reach from one of the blocks next to that block, without passing the
/// block that computes the value.
pub proof fn lemma_alive_is_read_later(
    u: UnitView,
    m: Map<(Block, Instruction), LiveData>,
    b: Block,
    v: Instruction,
)
    requires
        u.annotated(m),
        m.contains_key((b, v)),
        m[(b, v)] == LiveData::Alive,
    ensures
        b.0 < u.blocks.len(),
        u.reachable(b.0 as int),
        exists|j: int| #[trigger]
            u.uses(j, v.0 as int) && u.reached_from(
                u.next_of(b.0 as int),
                u.owner(j),
                u.owner(v.0 as int),
            ),
{
    assert(crate::liveness::lookup(m, b, v) == Some(LiveData::Alive));
    assert(u.needed_after(b.0 as int, v.0 as int));
}

} // verus!
