//! The control-flow graph of a unit as a mathematical object: the edges that
//! the terminators of its blocks give, paths, and what is reachable.

use crate::data::{Block, UnitView, BLOCK_MAX};
use vstd::prelude::*;

verus! {

impl UnitView {
    /// The blocks that control may pass to from block `b`. They are read off
    /// the end of its range: the target of a branch that ends it is the
    /// second; where the marker of a conditional and a branch stand before
    /// that branch, the target of this one is the first.
    pub open spec fn next_of(self, b: int) -> (Option<Block>, Option<Block>) {
        self.next_in(self.blocks[b].start.0 as int, self.blocks[b].end.0 as int)
    }

    /// The blocks that control may pass to from a block whose range is
    /// `[s, e)`: see `next_of`.
    pub open spec fn next_in(self, s: int, e: int) -> (Option<Block>, Option<Block>) {
        if s < e && self.instructions[e - 1].kind.is_branch() {
            if s + 3 <= e && self.instructions[e - 2].kind.is_branch() && self.instructions[e
                - 3].kind.is_do_if() {
                (self.instructions[e - 2].kind.target(), self.instructions[e - 1].kind.target())
            } else {
                (None, self.instructions[e - 1].kind.target())
            }
        } else {
            (None, None)
        }
    }

    /// Control may pass from block `a` to block `b`.
    pub open spec fn edge(self, a: int, b: int) -> bool {
        &&& 0 <= a < self.blocks.len()
        &&& 0 <= b < self.blocks.len()
        &&& (self.next_of(a).0 == Some(Block(b as u32)) || self.next_of(a).1 == Some(
            Block(b as u32),
        ))
    }

    /// `p` is a path of the graph: blocks, each an edge away from the one
    /// before.
    pub open spec fn is_path(self, p: Seq<int>) -> bool {
        &&& p.len() > 0
        &&& 0 <= p[0] < self.blocks.len()
        &&& forall|k: int| 0 <= k < p.len() - 1 ==> self.edge(#[trigger] p[k], p[k + 1])
    }

    /// `p` is a path from `from` to `to` that does not pass block `avoid`.
    pub open spec fn path_avoiding(self, p: Seq<int>, from: int, to: int, avoid: int) -> bool {
        &&& self.is_path(p)
        &&& p[0] == from
        &&& p[p.len() - 1] == to
        &&& forall|k: int| 0 <= k < p.len() ==> #[trigger] p[k] != avoid
    }

    /// Control may pass from `from` to `to`, in no step or in some, without
    /// passing block `avoid`.
    pub open spec fn reaches_avoiding(self, from: int, to: int, avoid: int) -> bool {
        exists|p: Seq<int>| self.path_avoiding(p, from, to, avoid)
    }

    /// Control may reach block `b` from the entry block.
    pub open spec fn reachable(self, b: int) -> bool {
        self.reaches_avoiding(0, b, BLOCK_MAX as int)
    }

    /// Control may pass from one of up to two blocks to `to` without passing
    /// block `avoid`.
    pub open spec fn reached_from(
        self,
        roots: (Option<Block>, Option<Block>),
        to: int,
        avoid: int,
    ) -> bool {
        ||| roots.0 matches Some(r) && self.reaches_avoiding(r.0 as int, to, avoid)
        ||| roots.1 matches Some(r) && self.reaches_avoiding(r.0 as int, to, avoid)
    }
}

/// A block reaches itself unless it is the one to avoid.
pub proof fn lemma_reaches_self(u: UnitView, b: int, avoid: int)
    requires
        0 <= b < u.blocks.len(),
        b != avoid,
    ensures
        u.reaches_avoiding(b, b, avoid),
{
    assert(u.path_avoiding(seq![b], b, b, avoid));
}

/// A path that avoids a block can be continued over an edge to another block
/// than that one.
pub proof fn lemma_reaches_step(u: UnitView, from: int, mid: int, to: int, avoid: int)
    requires
        u.reaches_avoiding(from, mid, avoid),
        u.edge(mid, to),
        to != avoid,
    ensures
        u.reaches_avoiding(from, to, avoid),
{
    let p = choose|p: Seq<int>| u.path_avoiding(p, from, mid, avoid);
    let q = p.push(to);
    assert forall|k: int| 0 <= k < q.len() - 1 implies u.edge(#[trigger] q[k], q[k + 1]) by {
        if k < p.len() - 1 {
            assert(u.edge(p[k], p[k + 1]));
        }
    }
    assert(u.path_avoiding(q, from, to, avoid));
}

/// A set of blocks that holds `from` and is closed under the edges to blocks
/// other than `avoid` holds every block that `from` reaches without passing
/// `avoid`.
pub proof fn lemma_closed_holds_reached(
    u: UnitView,
    inside: Set<int>,
    from: int,
    to: int,
    avoid: int,
)
    requires
        inside.contains(from),
        forall|a: int, b: int|
            inside.contains(a) && #[trigger] u.edge(a, b) && b != avoid ==> inside.contains(b),
        u.reaches_avoiding(from, to, avoid),
    ensures
        inside.contains(to),
{
    let p = choose|p: Seq<int>| u.path_avoiding(p, from, to, avoid);
    lemma_closed_holds_path(u, inside, p, avoid, p.len() - 1);
}

/// Induction along a path for `lemma_closed_holds_reached`.
proof fn lemma_closed_holds_path(u: UnitView, inside: Set<int>, p: Seq<int>, avoid: int, k: int)
    requires
        u.is_path(p),
        forall|j: int| 0 <= j < p.len() ==> #[trigger] p[j] != avoid,
        inside.contains(p[0]),
        forall|a: int, b: int|
            inside.contains(a) && #[trigger] u.edge(a, b) && b != avoid ==> inside.contains(b),
        0 <= k < p.len(),
    ensures
        inside.contains(p[k]),
    decreases k,
{
    if k > 0 {
        lemma_closed_holds_path(u, inside, p, avoid, k - 1);
        assert(u.edge(p[k - 1], p[k]));
    }
}

} // verus!
