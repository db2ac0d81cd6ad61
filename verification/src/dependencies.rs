//! The dependency check: a value that one block defines and another uses must
//! have been computed on every way that leads from the entry to the user.

use crate::data::{Block, Instruction, Unit, UnitView};
use vstd::prelude::*;

verus! {

impl UnitView {
    /// The block that instruction `i` was emitted into.
    pub open spec fn owner(self, i: int) -> int {
        self.instructions[i].block.0 as int
    }

    /// Instruction `j` reads the result of instruction `i`.
    pub open spec fn uses(self, j: int, i: int) -> bool {
        &&& 0 <= j < self.instructions.len()
        &&& exists|k: int|
            0 <= k < self.operands_of(j).len() && (#[trigger] self.operands_of(j)[k]).0 == i
    }

    /// Instruction `j` reads the result of instruction `i` of another block,
    /// and control may reach the block of `j` from the entry without passing
    /// the block of `i`: the value may be read before it is computed.
    pub open spec fn undominated_use(self, j: int, i: int) -> bool {
        &&& self.uses(j, i)
        &&& self.owner(i) != self.owner(j)
        &&& self.reaches_avoiding(0, self.owner(j), self.owner(i))
    }

    /// Instruction `i` is the first operand of instruction `j` that block `d`
    /// computes.
    pub open spec fn first_read_of(self, j: int, d: int, i: int) -> bool {
        &&& 0 <= j < self.instructions.len()
        &&& exists|k: int|
            {
                &&& 0 <= k < self.operands_of(j).len()
                &&& (#[trigger] self.operands_of(j)[k]).0 == i
                &&& self.owner(i) == d
                &&& forall|m: int|
                    0 <= m < k ==> self.owner((#[trigger] self.operands_of(j)[m]).0 as int) != d
            }
    }

    /// Of the values that may be read before they are computed, `i` is one
    /// of the block with the least handle that computes such a value; of
    /// the instructions that read such a value of that block, `j` is the
    /// first; and of the operands of `j`, `i` is the first of that block.
    pub open spec fn first_undominated_use(self, j: int, i: int) -> bool {
        &&& self.undominated_use(j, i)
        &&& self.first_read_of(j, self.owner(i), i)
        &&& forall|r: int, v: int| #[trigger]
            self.undominated_use(r, v) ==> self.owner(i) < self.owner(v) || (self.owner(i)
                == self.owner(v) && j <= r)
    }

    /// Every block that reads a value of another block is reached from the
    /// entry only through that block.
    pub open spec fn dominance_holds(self) -> bool {
        forall|j: int, i: int| !#[trigger] self.undominated_use(j, i)
    }
}

impl Unit {
    /// The first operand of instruction `j` that block `d` defines, if there
    /// is one.
    fn reads_block(&self, j: Instruction, d: Block) -> (hit: Option<Instruction>)
        requires
            self.wf(),
            j.0 < self@.instructions.len(),
        ensures
            hit matches Some(i) ==> self@.uses(j.0 as int, i.0 as int) && self@.first_read_of(
                j.0 as int,
                d.0 as int,
                i.0 as int,
            ),
            hit is None ==> forall|i: int| #[trigger]
                self@.uses(j.0 as int, i) ==> self@.owner(i) != d.0,
    {
        proof {
            assert(self@.inst_ok(j.0 as int));
        }
        let operands = self.instructions.index(j).kind.get_insts(&self.data);
        let mut k: usize = 0;
        while k < operands.len()
            invariant
                self.wf(),
                j.0 < self@.instructions.len(),
                operands@ == self@.operands_of(j.0 as int),
                k <= operands@.len(),
                forall|m: int| 0 <= m < k ==> self@.owner((#[trigger] operands@[m]).0 as int) != d.0,
            decreases operands@.len() - k,
        {
            let i = operands[k];
            proof {
                assert(self@.inst_ok(j.0 as int));
                assert(self@.operands_of(j.0 as int)[k as int].0 < j.0);
            }
            if self.instructions.index(i).block.0 == d.0 {
                proof {
                    assert(self@.operands_of(j.0 as int)[k as int].0 == i.0);
                }
                return Some(i);
            }
            k += 1;
        }
        None
    }

    /// An instruction of a marked block that reads a value that block `d`
    /// defines, with that value, if there is one.
    fn scan_uses_of(&self, d: Block, marks: &Vec<bool>) -> (hit: Option<(Instruction, Instruction)>)
        requires
            self.wf(),
            marks@.len() == self@.blocks.len(),
        ensures
            hit matches Some((j, i)) ==> {
                &&& self@.uses(j.0 as int, i.0 as int)
                &&& self@.first_read_of(j.0 as int, d.0 as int, i.0 as int)
                &&& marks@[self@.owner(j.0 as int)]
                &&& forall|r: int, v: int|
                    0 <= r < j.0 && #[trigger] self@.uses(r, v) && self@.owner(v) == d.0
                        ==> !marks@[self@.owner(r)]
            },
            hit is None ==> forall|j: int, i: int| #[trigger]
                self@.uses(j, i) && self@.owner(i) == d.0 ==> !marks@[self@.owner(j)],
    {
        let n = self.instructions.len();
        let mut j: usize = 0;
        while j < n
            invariant
                self.wf(),
                marks@.len() == self@.blocks.len(),
                n == self@.instructions.len(),
                j <= n,
                forall|m: int, i: int|
                    0 <= m < j && #[trigger] self@.uses(m, i) && self@.owner(i) == d.0
                        ==> !marks@[self@.owner(m)],
            decreases n - j,
        {
            proof {
                assert(self@.inst_ok(j as int));
            }
            let user = Instruction(j as u32);
            if marks[self.instructions.index(user).block.0 as usize] {
                match self.reads_block(user, d) {
                    Some(i) => {
                        return Some((user, i));
                    },
                    None => {},
                }
            }
            j += 1;
        }
        None
    }

    /// Checks that every value that a block reads from another block is
    /// computed on every way from the entry to the reader. Where it is not,
    /// the error names such a reader and the value it reads.
    pub fn check_dependencies(&self) -> (checked: Result<(), (Instruction, Instruction)>)
        requires
            self.wf(),
        ensures
            checked is Ok <==> self@.dominance_holds(),
            checked matches Err((j, i)) ==> self@.first_undominated_use(j.0 as int, i.0 as int),
    {
        let n = self.blocks.len();
        let mut d: usize = 0;
        while d < n
            invariant
                self.wf(),
                n == self@.blocks.len(),
                d <= n,
                forall|j: int, i: int|
                    0 <= self@.owner(i) < d ==> !#[trigger] self@.undominated_use(j, i),
            decreases n - d,
        {
            let avoid = Block(d as u32);
            let marks = self.depth_first((Some(Block(0)), None), avoid);
            match self.scan_uses_of(avoid, &marks) {
                Some((j, i)) => {
                    proof {
                        assert(self@.inst_ok(j.0 as int));
                        assert(self@.reached_from(
                            (Some(Block(0)), None),
                            self@.owner(j.0 as int),
                            d as int,
                        ));
                        let p = choose|p: Seq<int>|
                            self@.path_avoiding(p, 0, self@.owner(j.0 as int), d as int);
                        assert(p[p.len() - 1] != d);
                        assert(self@.undominated_use(j.0 as int, i.0 as int));
                        assert forall|r: int, v: int| #[trigger]
                            self@.undominated_use(r, v) implies d < self@.owner(v) || (d
                            == self@.owner(v) && j.0 <= r) by {
                            assert(self@.inst_ok(r));
                            if self@.owner(v) == d && r < j.0 {
                                assert(self@.reached_from(
                                    (Some(Block(0)), None),
                                    self@.owner(r),
                                    d as int,
                                ));
                            }
                        }
                    }
                    return Err((j, i));
                },
                None => {
                    proof {
                        assert forall|j: int, i: int| self@.owner(i) == d implies !#[trigger] self@.undominated_use(
                            j,
                            i,
                        ) by {
                            if self@.undominated_use(j, i) {
                                assert(self@.inst_ok(j));
                                assert(self@.reached_from(
                                    (Some(Block(0)), None),
                                    self@.owner(j),
                                    d as int,
                                ));
                            }
                        }
                    }
                },
            }
            d += 1;
        }
        proof {
            assert forall|j: int, i: int| !#[trigger] self@.undominated_use(j, i) by {
                if self@.undominated_use(j, i) {
                    assert(self@.inst_ok(j));
                    let k = choose|k: int|
                        0 <= k < self@.operands_of(j).len() && (#[trigger] self@.operands_of(
                            j,
                        )[k]).0 == i;
                    assert(self@.inst_ok(i));
                }
            }
        }
        Ok(())
    }
}

} // verus!
