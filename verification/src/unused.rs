//! The removal of dead code: an instruction is kept where it is a terminator,
//! or where an instruction that is kept reads its result. What is not kept
//! becomes a tombstone, or is an error where the unit is volatile.

use crate::data::{InstData, InstKind, Instruction, Type, Unit, UnitView};
use crate::frame::lemma_wf_carried;
use crate::traversal::cleared;
use vstd::prelude::*;

verus! {

impl UnitView {
    /// Instruction `i` is a terminator.
    pub open spec fn root(self, i: int) -> bool {
        &&& 0 <= i < self.instructions.len()
        &&& self.instructions[i].kind.is_terminator()
    }

    /// `c` starts at a terminator, and each of its instructions reads the
    /// result of the next.
    pub open spec fn use_chain(self, c: Seq<int>) -> bool {
        &&& c.len() > 0
        &&& self.root(c[0])
        &&& forall|k: int| 0 <= k < c.len() - 1 ==> self.uses(#[trigger] c[k], c[k + 1])
    }

    /// Instruction `i` is used: it is a terminator, or an instruction that is
    /// used reads its result.
    pub open spec fn used(self, i: int) -> bool {
        exists|c: Seq<int>| #[trigger] self.use_chain(c) && c[c.len() - 1] == i
    }

    /// Instruction `i` is a terminator, or an instruction at or behind
    /// position `from` that is used reads its result.
    pub open spec fn needed_from(self, i: int, from: int) -> bool {
        ||| self.root(i)
        ||| exists|m: int| from <= m && #[trigger] self.used(m) && self.uses(m, i)
    }

    /// What remains of instruction `i` when it is removed.
    pub open spec fn tombstone(self, i: int) -> InstData {
        InstData { block: self.instructions[i].block, typing: Type::Void, kind: InstKind::Tombstone }
    }

    /// The instructions after the removal: those that are used as they are, a
    /// tombstone for each of the others.
    pub open spec fn swept(self) -> Seq<InstData> {
        Seq::new(
            self.instructions.len(),
            |i: int|
                if self.used(i) {
                    self.instructions[i]
                } else {
                    self.tombstone(i)
                },
        )
    }

    /// The unit after the removal.
    pub open spec fn sweep(self) -> UnitView {
        UnitView { instructions: self.swept(), ..self }
    }

    /// Instruction `i` is the first that is not used.
    pub open spec fn first_unused(self, i: int) -> bool {
        &&& 0 <= i < self.instructions.len()
        &&& !self.used(i)
        &&& forall|j: int| 0 <= j < i ==> self.used(j)
    }
}

/// A terminator is used.
pub proof fn lemma_root_used(u: UnitView, i: int)
    requires
        u.root(i),
    ensures
        u.used(i),
{
    assert(u.use_chain(seq![i]));
    assert(seq![i][seq![i].len() - 1] == i);
}

/// What an instruction that is used reads is used.
pub proof fn lemma_operand_used(u: UnitView, j: int, i: int)
    requires
        u.used(j),
        u.uses(j, i),
    ensures
        u.used(i),
{
    let c = choose|c: Seq<int>| #[trigger] u.use_chain(c) && c[c.len() - 1] == j;
    let d = c.push(i);
    assert forall|k: int| 0 <= k < d.len() - 1 implies u.uses(#[trigger] d[k], d[k + 1]) by {
        if k < c.len() - 1 {
            assert(u.uses(c[k], c[k + 1]));
        }
    }
    assert(u.use_chain(d));
    assert(d[d.len() - 1] == i);
}

/// An instruction that is used is a terminator, or an instruction that is
/// used reads it.
pub proof fn lemma_used_why(u: UnitView, i: int)
    requires
        u.used(i),
    ensures
        u.root(i) || exists|j: int| #[trigger] u.used(j) && u.uses(j, i),
{
    let c = choose|c: Seq<int>| #[trigger] u.use_chain(c) && c[c.len() - 1] == i;
    if c.len() > 1 {
        let d = c.drop_last();
        assert forall|k: int| 0 <= k < d.len() - 1 implies u.uses(#[trigger] d[k], d[k + 1]) by {
            assert(u.uses(c[k], c[k + 1]));
        }
        assert(u.use_chain(d));
        let j = d[d.len() - 1];
        assert(u.used(j));
        assert(u.uses(c[c.len() - 2], c[c.len() - 2 + 1]));
    }
}

/// In a well-formed unit an instruction reads only what was emitted before it.
pub proof fn lemma_uses_earlier(u: UnitView, j: int, i: int)
    requires
        u.wf(),
        u.uses(j, i),
    ensures
        0 <= i < j < u.instructions.len(),
{
    assert(u.inst_ok(j));
}

/// One step of the backward scan: where the marks behind instruction `t` say
/// what is used, and the marks up to `t` what is needed from behind `t`, then
/// marking what `t` reads, if `t` is marked, extends both by one position.
pub proof fn lemma_scan_step(u: UnitView, t: int, before: Seq<bool>, after: Seq<bool>)
    requires
        u.wf(),
        0 <= t < u.instructions.len(),
        before.len() == u.instructions.len(),
        after.len() == u.instructions.len(),
        forall|j: int| t < j < before.len() ==> (before[j] <==> u.used(j)),
        forall|j: int| 0 <= j <= t ==> (before[j] <==> u.needed_from(j, t + 1)),
        forall|j: int|
            0 <= j < after.len() ==> (after[j] <==> before[j] || (before[t] && u.uses(t, j))),
    ensures
        forall|j: int| t <= j < after.len() ==> (after[j] <==> u.used(j)),
        forall|j: int| 0 <= j < t ==> (after[j] <==> u.needed_from(j, t)),
{
    assert(before[t] <==> u.used(t)) by {
        if u.needed_from(t, t + 1) {
            if u.root(t) {
                lemma_root_used(u, t);
            } else {
                let m = choose|m: int| t + 1 <= m && #[trigger] u.used(m) && u.uses(m, t);
                lemma_operand_used(u, m, t);
            }
        }
        if u.used(t) {
            lemma_used_why(u, t);
            if !u.root(t) {
                let j = choose|j: int| #[trigger] u.used(j) && u.uses(j, t);
                lemma_uses_earlier(u, j, t);
            }
        }
    }
    assert forall|j: int| t <= j < after.len() implies (after[j] <==> u.used(j)) by {
        if u.uses(t, j) {
            lemma_uses_earlier(u, t, j);
        }
    }
    assert forall|j: int| 0 <= j < t implies (after[j] <==> u.needed_from(j, t)) by {
        if u.needed_from(j, t) && !u.root(j) {
            let m = choose|m: int| t <= m && #[trigger] u.used(m) && u.uses(m, j);
            if m > t {
                assert(u.needed_from(j, t + 1));
            }
        }
        if u.needed_from(j, t + 1) && !u.root(j) {
            let m = choose|m: int| t + 1 <= m && #[trigger] u.used(m) && u.uses(m, j);
            assert(t <= m && u.used(m) && u.uses(m, j));
        }
    }
}

/// The removal keeps a unit well formed.
pub proof fn lemma_sweep_wf(u: UnitView)
    requires
        u.wf(),
    ensures
        u.sweep().wf(),
{
    let v = u.sweep();
    let n = u.instructions.len() as int;
    assert(v.data.subrange(0, u.data.len() as int) == u.data);
    assert forall|b: int| 0 <= b < u.blocks.len() implies #[trigger] v.params_kept(u, b) by {}
    assert forall|i: int| 0 <= i < n implies #[trigger] v.kept_or_removed(u, i) by {}
    assert forall|b: int| 0 <= b < v.blocks.len() implies #[trigger] v.range_kept(u, b) by {}
    assert forall|i: int| 0 <= i < n implies v.range_kept(u, u.instructions[i].block.0 as int) by {
        assert(u.inst_ok(i));
    }
    lemma_wf_carried(u, v, n, n);
}

impl Unit {
    /// Marks the terminators.
    fn mark_roots(&self) -> (marks: Vec<bool>)
        ensures
            marks@.len() == self@.instructions.len(),
            forall|i: int| 0 <= i < marks@.len() ==> (marks@[i] <==> self@.root(i)),
    {
        let n = self.instructions.len();
        let mut marks = cleared(n);
        let mut i: usize = 0;
        while i < n
            invariant
                n == self@.instructions.len(),
                marks@.len() == n,
                i <= n,
                forall|j: int|
                    #![trigger marks@[j]]
                    0 <= j < n ==> (marks@[j] <==> j < i && self@.root(j)),
            decreases n - i,
        {
            if self.instructions.iter()[i].kind.is_term() {
                marks.set(i, true);
            }
            i += 1;
        }
        marks
    }

    /// Marks what instruction `t` reads.
    fn mark_operands(&self, marks: &mut Vec<bool>, t: Instruction)
        requires
            self.wf(),
            t.0 < self@.instructions.len(),
            old(marks)@.len() == self@.instructions.len(),
        ensures
            final(marks)@.len() == old(marks)@.len(),
            forall|j: int|
                0 <= j < old(marks)@.len() ==> (final(marks)@[j] <==> old(marks)@[j] || self@.uses(
                    t.0 as int,
                    j,
                )),
    {
        proof {
            assert(self@.inst_ok(t.0 as int));
        }
        let operands = self.instructions.index(t).kind.get_insts(&self.data);
        let mut k: usize = 0;
        while k < operands.len()
            invariant
                self.wf(),
                t.0 < self@.instructions.len(),
                marks@.len() == self@.instructions.len(),
                old(marks)@.len() == marks@.len(),
                operands@ == self@.operands_of(t.0 as int),
                k <= operands@.len(),
                forall|j: int|
                    0 <= j < marks@.len() ==> (marks@[j] <==> old(marks)@[j] || exists|m: int|
                        0 <= m < k && (#[trigger] operands@[m]).0 == j),
            decreases operands@.len() - k,
        {
            proof {
                assert(self@.inst_ok(t.0 as int));
                assert(self@.operands_of(t.0 as int)[k as int].0 < t.0);
            }
            let ghost prev = marks@;
            marks.set(operands[k].0 as usize, true);
            proof {
                assert forall|j: int| 0 <= j < marks@.len() implies (marks@[j] <==> old(marks)@[j]
                    || exists|m: int| 0 <= m < k + 1 && (#[trigger] operands@[m]).0 == j) by {
                    if j == operands@[k as int].0 {
                        assert(operands@[k as int].0 == j);
                    }
                    if exists|m: int| 0 <= m < k + 1 && (#[trigger] operands@[m]).0 == j {
                        let m = choose|m: int| 0 <= m < k + 1 && (#[trigger] operands@[m]).0 == j;
                        if m < k {
                            assert(prev[j]);
                        }
                    }
                }
            }
            k += 1;
        }
    }

    /// Marks every instruction that is used, given the marks of the
    /// terminators.
    fn propagate(&self, marks: &mut Vec<bool>)
        requires
            self.wf(),
            old(marks)@.len() == self@.instructions.len(),
            forall|i: int| 0 <= i < old(marks)@.len() ==> (old(marks)@[i] <==> self@.root(i)),
        ensures
            final(marks)@.len() == old(marks)@.len(),
            forall|i: int| 0 <= i < final(marks)@.len() ==> (final(marks)@[i] <==> self@.used(i)),
    {
        let n = self.instructions.len();
        let ghost u = self@;
        let mut i: usize = n;
        proof {
            assert forall|j: int| 0 <= j < n implies (marks@[j] <==> u.needed_from(j, n as int)) by {
                if u.needed_from(j, n as int) && !u.root(j) {
                    let m = choose|m: int| n <= m && #[trigger] u.used(m) && u.uses(m, j);
                }
            }
        }
        while i > 0
            invariant
                self.wf(),
                u == self@,
                n == u.instructions.len(),
                marks@.len() == n,
                i <= n,
                forall|j: int| i <= j < n ==> (marks@[j] <==> u.used(j)),
                forall|j: int| 0 <= j < i ==> (marks@[j] <==> u.needed_from(j, i as int)),
            decreases i,
        {
            i -= 1;
            let ghost before = marks@;
            if marks[i] {
                self.mark_operands(marks, Instruction(i as u32));
            }
            proof {
                lemma_scan_step(u, i as int, before, marks@);
            }
        }
    }

    /// Removes the instructions that are not used: each becomes a tombstone
    /// of type `Void` in its block, and no handle changes. Every terminator
    /// is used, so every block keeps its end. Where the unit is volatile
    /// nothing is removed: the first instruction that is not used is the
    /// error.
    pub fn remove_unused(&mut self) -> (removed: Result<(), Instruction>)
        requires
            old(self).wf(),
        ensures
            final(self).wf(),
            removed is Err <==> old(self)@.volatile && exists|i: int|
                0 <= i < old(self)@.instructions.len() && !old(self)@.used(i),
            removed is Ok ==> final(self)@ == old(self)@.sweep(),
            removed matches Err(i) ==> {
                &&& old(self)@.first_unused(i.0 as int)
                &&& !old(self)@.instructions[i.0 as int].kind.is_terminator()
                &&& final(self)@ == old(self)@
            },
    {
        let mut marks = self.mark_roots();
        self.propagate(&mut marks);
        let ghost u = self@;
        let n = self.instructions.len();
        let volatile = self.settings.volatile;
        let mut i: usize = 0;
        while i < n
            invariant
                u.wf(),
                u == old(self)@,
                n == u.instructions.len(),
                marks@.len() == n,
                forall|j: int| 0 <= j < n ==> (marks@[j] <==> u.used(j)),
                i <= n,
                volatile == u.volatile,
                volatile ==> forall|j: int| 0 <= j < i ==> u.used(j),
                self@.instructions.len() == n,
                forall|j: int| 0 <= j < i ==> self@.instructions[j] == u.swept()[j],
                forall|j: int| i <= j < n ==> self@.instructions[j] == u.instructions[j],
                self@ == (UnitView { instructions: self@.instructions, ..u }),
            decreases n - i,
        {
            if !marks[i] {
                if volatile {
                    proof {
                        assert forall|j: int| 0 <= j < n implies self@.instructions[j]
                            == u.instructions[j] by {
                            if j < i {
                                assert(u.used(j));
                                assert(u.swept()[j] == u.instructions[j]);
                            }
                        }
                        assert(self@.instructions =~= u.instructions);
                        assert(!u.used(i as int));
                        if u.instructions[i as int].kind.is_terminator() {
                            lemma_root_used(u, i as int);
                        }
                    }
                    return Err(Instruction(i as u32));
                }
                let block = self.instructions.index(Instruction(i as u32)).block;
                self.instructions.set(
                    Instruction(i as u32),
                    InstData { block, typing: Type::Void, kind: InstKind::Tombstone },
                );
            }
            i += 1;
        }
        proof {
            assert(self@.instructions =~= u.swept());
            lemma_sweep_wf(u);
        }
        Ok(())
    }
}

} // verus!
