//! The traversals of the control-flow graph: where control passes from a
//! block, and which blocks it may reach.

use crate::data::{Block, BlockData, Instruction, Unit, UnitView, BLOCK_MAX};
use crate::graph::{lemma_closed_holds_reached, lemma_reaches_self, lemma_reaches_step};
use vstd::prelude::*;

verus! {

impl BlockData {
    /// The blocks that control may pass to from this block of `unit`: the
    /// target where its first branch is taken, if it ends in a conditional,
    /// and the target of its last branch. A return has no target.
    pub fn get_next(&self, unit: &Unit) -> (next: (Option<Block>, Option<Block>))
        requires
            self.start.0 <= self.end.0 <= unit@.instructions.len(),
        ensures
            next == unit@.next_in(self.start.0 as int, self.end.0 as int),
    {
        let s = self.start.0;
        let e = self.end.0;
        if s < e {
            let last = unit.instructions.index(Instruction(e - 1)).kind;
            if last.is_jump() {
                if e - s >= 3 {
                    let mid = unit.instructions.index(Instruction(e - 2)).kind;
                    let first = unit.instructions.index(Instruction(e - 3)).kind;
                    if mid.is_jump() && first.is_cond() {
                        return (mid.get_block(), last.get_block());
                    }
                }
                return (None, last.get_block());
            }
        }
        (None, None)
    }
}

/// In a well-formed unit the blocks next to a block are blocks of the unit.
pub proof fn lemma_next_within(u: UnitView, b: int)
    requires
        u.wf(),
        0 <= b < u.blocks.len(),
    ensures
        u.next_of(b).0 matches Some(t) ==> t.0 < u.blocks.len(),
        u.next_of(b).1 matches Some(t) ==> t.0 < u.blocks.len(),
{
    let e = u.blocks[b].end.0 as int;
    assert(u.block_ok(b));
    if u.next_of(b).1 is Some || u.next_of(b).0 is Some {
        assert(u.inst_ok(e - 1));
        if u.next_of(b).0 is Some {
            assert(u.inst_ok(e - 2));
        }
    }
}

/// A bitmap of `n` entries of which none is set.
pub fn cleared(n: usize) -> (marks: Vec<bool>)
    ensures
        marks@.len() == n,
        forall|t: int| 0 <= t < n ==> !marks@[t],
{
    let mut marks: Vec<bool> = Vec::new();
    let mut i: usize = 0;
    while i < n
        invariant
            i <= n,
            marks@.len() == i,
            forall|t: int| 0 <= t < i ==> !marks@[t],
        decreases n - i,
    {
        marks.push(false);
        i += 1;
    }
    marks
}

/// The number of entries of a bitmap that are not set.
pub open spec fn count_false(s: Seq<bool>) -> nat
    decreases s.len(),
{
    if s.len() == 0 {
        0
    } else {
        count_false(s.drop_last()) + if s.last() {
            0nat
        } else {
            1nat
        }
    }
}

/// Setting an entry that was not set leaves one entry less that is not set.
pub proof fn lemma_count_false_set(s: Seq<bool>, k: int)
    requires
        0 <= k < s.len(),
        !s[k],
    ensures
        count_false(s.update(k, true)) + 1 == count_false(s),
    decreases s.len(),
{
    if k == s.len() - 1 {
        assert(s.update(k, true).drop_last() == s.drop_last());
    } else {
        assert(s.update(k, true).drop_last() == s.drop_last().update(k, true));
        lemma_count_false_set(s.drop_last(), k);
    }
}

/// What a visit does to the marks and the stack: `candidate` becomes marked
/// and is put on the stack, where it is a block other than `avoid` that was
/// not marked; else nothing changes.
pub open spec fn visited(
    marks0: Seq<bool>,
    stack0: Seq<Block>,
    candidate: Option<Block>,
    avoid: Block,
    marks1: Seq<bool>,
    stack1: Seq<Block>,
) -> bool {
    match candidate {
        Some(b) if b != avoid && !marks0[b.0 as int] => marks1 == marks0.update(b.0 as int, true)
            && stack1 == stack0.push(b),
        _ => marks1 == marks0 && stack1 == stack0,
    }
}

/// The state of a traversal: `avoid` is not marked, the blocks on the stack
/// are marked, and every edge from a marked block that is not on the stack
/// leads to a marked block or to `avoid`.
#[verifier::opaque]
pub open spec fn frontier(u: UnitView, marks: Seq<bool>, stack: Seq<Block>, avoid: Block) -> bool {
    &&& marks.len() == u.blocks.len()
    &&& u.blocks.len() <= u32::MAX
    &&& (avoid.0 < marks.len() ==> !marks[avoid.0 as int])
    &&& forall|x: Block| #[trigger] stack.contains(x) ==> x.0 < marks.len() && marks[x.0 as int]
    &&& forall|a: int, b: int|
        0 <= a < marks.len() && marks[a] && #[trigger] u.edge(a, b) && b != avoid.0 ==> marks[b]
            || stack.contains(Block(a as u32))
}

/// Every marked block is reached from a block marked in `seeds` without
/// passing `avoid`.
#[verifier::opaque]
pub open spec fn traced(u: UnitView, seeds: Seq<bool>, marks: Seq<bool>, avoid: Block) -> bool {
    &&& seeds.len() == marks.len()
    &&& forall|t: int|
        0 <= t < marks.len() && marks[t] ==> exists|a: int|
            0 <= a < seeds.len() && seeds[a] && #[trigger] u.reaches_avoiding(a, t, avoid.0 as int)
}

/// Taking a block off the stack and visiting the blocks next to it keeps the
/// state of the traversal.
pub proof fn lemma_frontier_step(
    u: UnitView,
    seeds: Seq<bool>,
    avoid: Block,
    marks0: Seq<bool>,
    stack0: Seq<Block>,
    marks1: Seq<bool>,
    stack1: Seq<Block>,
    marks2: Seq<bool>,
    stack2: Seq<Block>,
    a: Block,
    rest: Seq<Block>,
)
    requires
        stack0.contains(a),
        forall|x: Block| stack0.contains(x) && x != a ==> rest.contains(x),
        forall|x: Block| rest.contains(x) ==> stack0.contains(x),
        frontier(u, marks0, stack0, avoid),
        traced(u, seeds, marks0, avoid),
        u.next_of(a.0 as int).0 matches Some(b) ==> b.0 < u.blocks.len(),
        u.next_of(a.0 as int).1 matches Some(b) ==> b.0 < u.blocks.len(),
        visited(marks0, rest, u.next_of(a.0 as int).0, avoid, marks1, stack1),
        visited(marks1, stack1, u.next_of(a.0 as int).1, avoid, marks2, stack2),
    ensures
        frontier(u, marks2, stack2, avoid),
        traced(u, seeds, marks2, avoid),
        forall|t: int| 0 <= t < marks0.len() && marks0[t] ==> marks2[t],
{
    reveal(frontier);
    reveal(traced);
    let next = u.next_of(a.0 as int);
    let n = marks0.len() as int;
    let av = avoid.0 as int;
    assert forall|x: Block| rest.contains(x) implies stack1.contains(x) by {
        let k = choose|k: int| 0 <= k < rest.len() && rest[k] == x;
        assert(stack1[k] == x);
    }
    assert forall|x: Block| stack1.contains(x) implies stack2.contains(x) by {
        let k = choose|k: int| 0 <= k < stack1.len() && stack1[k] == x;
        assert(stack2[k] == x);
    }
    assert forall|x: Block| stack1.contains(x) implies rest.contains(x) || (next.0 == Some(x)
        && marks1[x.0 as int]) by {
        let k = choose|k: int| 0 <= k < stack1.len() && stack1[k] == x;
        if k < rest.len() {
            assert(rest[k] == x);
        }
    }
    assert forall|x: Block| stack2.contains(x) implies stack1.contains(x) || (next.1 == Some(x)
        && marks2[x.0 as int]) by {
        let k = choose|k: int| 0 <= k < stack2.len() && stack2[k] == x;
        if k < stack1.len() {
            assert(stack1[k] == x);
        }
    }
    assert forall|t: int| 0 <= t < n && marks1[t] && !marks0[t] implies next.0 == Some(
        Block(t as u32),
    ) && t != av && stack1.contains(Block(t as u32)) by {
        assert(stack1[stack1.len() - 1] == Block(t as u32));
    }
    assert forall|t: int| 0 <= t < n && marks2[t] && !marks1[t] implies next.1 == Some(
        Block(t as u32),
    ) && t != av && stack2.contains(Block(t as u32)) by {
        assert(stack2[stack2.len() - 1] == Block(t as u32));
    }
    assert forall|x: int, y: int|
        0 <= x < n && marks2[x] && #[trigger] u.edge(x, y) && y != av implies marks2[y]
        || stack2.contains(Block(x as u32)) by {
        if x == a.0 {
            assert(next.0 == Some(Block(y as u32)) || next.1 == Some(Block(y as u32)));
        } else if marks0[x] {
            if !marks0[y] {
                assert(stack0.contains(Block(x as u32)));
                assert(rest.contains(Block(x as u32)));
                assert(stack1.contains(Block(x as u32)));
            }
        } else if marks1[x] {
            assert(stack1.contains(Block(x as u32)));
        }
    }
    assert forall|t: int| 0 <= t < n && marks2[t] implies exists|r: int|
        0 <= r < n && seeds[r] && #[trigger] u.reaches_avoiding(r, t, av) by {
        if !marks0[t] {
            assert(marks0[a.0 as int]);
            let r = choose|r: int|
                0 <= r < n && seeds[r] && #[trigger] u.reaches_avoiding(r, a.0 as int, av);
            assert(next.0 == Some(Block(t as u32)) || next.1 == Some(Block(t as u32)));
            assert(u.edge(a.0 as int, t));
            lemma_reaches_step(u, r, a.0 as int, t, av);
        }
    }
}

/// The list holds the marked blocks, each once.
#[verifier::opaque]
pub open spec fn listed(marks: Seq<bool>, order: Seq<Block>) -> bool {
    &&& marks.len() <= u32::MAX
    &&& forall|t: int| 0 <= t < marks.len() ==> (marks[t] <==> order.contains(Block(t as u32)))
    &&& forall|k: int| 0 <= k < order.len() ==> (#[trigger] order[k]).0 < marks.len()
    &&& forall|j: int, k: int| 0 <= j < k < order.len() ==> order[j] != order[k]
}

/// A visit keeps the list of the blocks found in step with the marks: the
/// list holds each marked block once, and what lies behind position `from`
/// grows as the list does.
pub proof fn lemma_grown_order(
    marks0: Seq<bool>,
    order0: Seq<Block>,
    candidate: Option<Block>,
    avoid: Block,
    marks1: Seq<bool>,
    order1: Seq<Block>,
    from: int,
)
    requires
        0 <= from <= order0.len(),
        candidate matches Some(b) ==> b.0 < marks0.len(),
        visited(marks0, order0, candidate, avoid, marks1, order1),
        listed(marks0, order0),
    ensures
        visited(
            marks0,
            order0.subrange(from, order0.len() as int),
            candidate,
            avoid,
            marks1,
            order1.subrange(from, order1.len() as int),
        ),
        listed(marks1, order1),
        order1.len() >= order0.len(),
        order0.len() > 0 ==> order1[0] == order0[0],
{
    reveal(listed);
    if order1 == order0 {
    } else {
        let b = candidate->0;
        assert(order1 == order0.push(b));
        assert(order1.subrange(from, order1.len() as int) == order0.subrange(
            from,
            order0.len() as int,
        ).push(b));
        assert forall|t: int| 0 <= t < marks1.len() implies (marks1[t] <==> order1.contains(
            Block(t as u32),
        )) by {
            if marks1[t] {
                if marks0[t] {
                    let k = choose|k: int| 0 <= k < order0.len() && order0[k] == Block(t as u32);
                    assert(order1[k] == Block(t as u32));
                } else {
                    assert(order1[order1.len() - 1] == Block(t as u32));
                }
            }
            if order1.contains(Block(t as u32)) {
                let k = choose|k: int| 0 <= k < order1.len() && order1[k] == Block(t as u32);
                if k < order0.len() {
                    assert(order0[k] == Block(t as u32));
                }
            }
        }
        assert forall|j: int, k: int| 0 <= j < k < order1.len() implies order1[j] != order1[k] by {
            if k == order0.len() {
                if order1[j] == b {
                    assert(order0[j] == Block(b.0 as int as u32));
                    assert(order0.contains(Block(b.0 as int as u32)));
                }
            }
        }
    }
}

/// The block on top of the stack is a marked block of the unit, and the rest
/// of the stack holds the other blocks of the stack.
pub proof fn lemma_stack_top(u: UnitView, marks: Seq<bool>, stack: Seq<Block>, avoid: Block)
    requires
        frontier(u, marks, stack, avoid),
        stack.len() > 0,
    ensures
        marks.len() == u.blocks.len(),
        stack.last().0 < u.blocks.len(),
        stack.contains(stack.last()),
        forall|x: Block| stack.contains(x) && x != stack.last() ==> stack.drop_last().contains(x),
        forall|x: Block| stack.drop_last().contains(x) ==> stack.contains(x),
{
    reveal(frontier);
    let rest = stack.drop_last();
    assert(stack[stack.len() - 1] == stack.last());
    assert(stack.contains(stack.last()));
    assert forall|x: Block| stack.contains(x) && x != stack.last() implies rest.contains(x) by {
        let k = choose|k: int| 0 <= k < stack.len() && stack[k] == x;
        assert(rest[k] == x);
    }
    assert forall|x: Block| rest.contains(x) implies stack.contains(x) by {
        let k = choose|k: int| 0 <= k < rest.len() && rest[k] == x;
        assert(stack[k] == x);
    }
}

/// The block at the front of a queue is a marked block of the unit, and the
/// rest of the queue holds the other blocks of the queue.
pub proof fn lemma_queue_front(
    u: UnitView,
    marks: Seq<bool>,
    order: Seq<Block>,
    at: int,
    avoid: Block,
)
    requires
        0 <= at < order.len(),
        frontier(u, marks, order.subrange(at, order.len() as int), avoid),
    ensures
        marks.len() == u.blocks.len(),
        order[at].0 < u.blocks.len(),
        order.subrange(at, order.len() as int).contains(order[at]),
        forall|x: Block|
            order.subrange(at, order.len() as int).contains(x) && x != order[at] ==> order.subrange(
                at + 1,
                order.len() as int,
            ).contains(x),
        forall|x: Block|
            order.subrange(at + 1, order.len() as int).contains(x) ==> order.subrange(
                at,
                order.len() as int,
            ).contains(x),
{
    reveal(frontier);
    let queue = order.subrange(at, order.len() as int);
    let rest = order.subrange(at + 1, order.len() as int);
    assert(queue[0] == order[at]);
    assert(queue.contains(order[at]));
    assert forall|x: Block| queue.contains(x) && x != order[at] implies rest.contains(x) by {
        let k = choose|k: int| 0 <= k < queue.len() && queue[k] == x;
        assert(rest[k - 1] == x);
    }
    assert forall|x: Block| rest.contains(x) implies queue.contains(x) by {
        let k = choose|k: int| 0 <= k < rest.len() && rest[k] == x;
        assert(queue[k + 1] == x);
    }
}

/// A traversal that has nothing left to visit has marked exactly the blocks
/// that control may reach from the blocks it started with.
pub proof fn lemma_frontier_done(
    u: UnitView,
    seeds: Seq<bool>,
    marks: Seq<bool>,
    avoid: Block,
    from: int,
    to: int,
)
    requires
        frontier(u, marks, Seq::<Block>::empty(), avoid),
        traced(u, seeds, marks, avoid),
        0 <= from < marks.len(),
        marks[from],
        u.reaches_avoiding(from, to, avoid.0 as int),
    ensures
        0 <= to < marks.len(),
        marks[to],
{
    reveal(frontier);
    let n = marks.len() as int;
    let inside = Set::new(|t: int| 0 <= t < n && marks[t]);
    assert forall|x: int, y: int|
        inside.contains(x) && #[trigger] u.edge(x, y) && y != avoid.0 as int implies inside.contains(
        y,
    ) by {
        assert(!Seq::<Block>::empty().contains(Block(x as u32)));
    }
    assert(inside.contains(from));
    lemma_closed_holds_reached(u, inside, from, to, avoid.0 as int);
}

/// Visiting up to two blocks with nothing marked gives a state from which a
/// traversal can start.
pub proof fn lemma_frontier_seed(
    u: UnitView,
    roots: (Option<Block>, Option<Block>),
    avoid: Block,
    blank: Seq<bool>,
    marks1: Seq<bool>,
    stack1: Seq<Block>,
    marks2: Seq<bool>,
    stack2: Seq<Block>,
)
    requires
        blank.len() == u.blocks.len(),
        u.blocks.len() <= u32::MAX,
        forall|t: int| 0 <= t < blank.len() ==> !blank[t],
        roots.0 matches Some(r) ==> r.0 < u.blocks.len(),
        roots.1 matches Some(r) ==> r.0 < u.blocks.len(),
        visited(blank, Seq::<Block>::empty(), roots.0, avoid, marks1, stack1),
        visited(marks1, stack1, roots.1, avoid, marks2, stack2),
    ensures
        frontier(u, marks2, stack2, avoid),
        traced(u, marks2, marks2, avoid),
        forall|t: int|
            0 <= t < marks2.len() ==> (marks2[t] <==> t != avoid.0 && (roots.0 == Some(
                Block(t as u32),
            ) || roots.1 == Some(Block(t as u32)))),
{
    reveal(frontier);
    reveal(traced);
    let n = blank.len() as int;
    let av = avoid.0 as int;
    assert forall|t: int| 0 <= t < n && marks1[t] implies roots.0 == Some(Block(t as u32)) && t
        != av && stack1.contains(Block(t as u32)) by {
        assert(stack1[stack1.len() - 1] == Block(t as u32));
    }
    assert forall|x: Block| stack1.contains(x) implies stack2.contains(x) by {
        let k = choose|k: int| 0 <= k < stack1.len() && stack1[k] == x;
        assert(stack2[k] == x);
    }
    assert forall|t: int| 0 <= t < n && marks2[t] && !marks1[t] implies roots.1 == Some(
        Block(t as u32),
    ) && t != av && stack2.contains(Block(t as u32)) by {
        assert(stack2[stack2.len() - 1] == Block(t as u32));
    }
    assert forall|x: Block| #[trigger] stack2.contains(x) implies x.0 < n && marks2[x.0 as int] by {
        let k = choose|k: int| 0 <= k < stack2.len() && stack2[k] == x;
        if k < stack1.len() {
            assert(stack1[k] == x);
        }
    }
    assert forall|t: int| 0 <= t < n && marks2[t] implies exists|a: int|
        0 <= a < n && marks2[a] && #[trigger] u.reaches_avoiding(a, t, av) by {
        lemma_reaches_self(u, t, av);
    }
}

impl Unit {
    /// Marks `candidate` and puts it on the stack, where it is a block other
    /// than `avoid` that is not marked yet.
    fn visit(marks: &mut Vec<bool>, stack: &mut Vec<Block>, candidate: Option<Block>, avoid: Block)
        requires
            candidate matches Some(b) ==> b.0 < old(marks)@.len(),
        ensures
            final(marks)@.len() == old(marks)@.len(),
            visited(old(marks)@, old(stack)@, candidate, avoid, final(marks)@, final(stack)@),
            final(stack)@.len() > old(stack)@.len() ==> count_false(final(marks)@) + 1
                == count_false(old(marks)@),
            final(stack)@.len() <= old(stack)@.len() + 1,
            final(stack)@.len() == old(stack)@.len() ==> final(marks)@ == old(marks)@,
    {
        match candidate {
            Some(b) => {
                if b.0 != avoid.0 && !marks[b.0 as usize] {
                    proof {
                        lemma_count_false_set(marks@, b.0 as int);
                    }
                    marks.set(b.0 as usize, true);
                    stack.push(b);
                }
            },
            None => {},
        }
    }

    /// Follows the edges from the blocks on the stack, depth first, and marks
    /// every block found on the way that is not `avoid`.
    fn depth_first_internal(&self, marks: &mut Vec<bool>, stack: &mut Vec<Block>, avoid: Block)
        requires
            self.wf(),
            frontier(self@, old(marks)@, old(stack)@, avoid),
        ensures
            frontier(self@, final(marks)@, Seq::<Block>::empty(), avoid),
            traced(self@, old(marks)@, final(marks)@, avoid),
            forall|t: int| 0 <= t < old(marks)@.len() && old(marks)@[t] ==> final(marks)@[t],
    {
        let ghost u = self@;
        proof {
            reveal(frontier);
            reveal(traced);
            assert forall|t: int| 0 <= t < marks@.len() && marks@[t] implies exists|a: int|
                0 <= a < marks@.len() && marks@[a] && #[trigger] u.reaches_avoiding(
                    a,
                    t,
                    avoid.0 as int,
                ) by {
                lemma_reaches_self(u, t, avoid.0 as int);
            }
            assert(traced(u, marks@, marks@, avoid));
        }
        while stack.len() > 0
            invariant
                self.wf(),
                u == self@,
                marks@.len() == old(marks)@.len(),
                frontier(u, marks@, stack@, avoid),
                traced(u, old(marks)@, marks@, avoid),
                forall|t: int| 0 <= t < old(marks)@.len() && old(marks)@[t] ==> marks@[t],
            decreases 2 * count_false(marks@) + stack@.len(),
        {
            let ghost marks0 = marks@;
            let ghost stack0 = stack@;
            proof {
                lemma_stack_top(u, marks0, stack0, avoid);
            }
            let a = stack.pop().unwrap();
            let ghost rest = stack@;
            proof {
                assert(a == stack0.last());
                assert(rest == stack0.drop_last());
                assert(u.block_ok(a.0 as int));
            }
            let next = self.blocks.index(a).get_next(self);
            proof {
                assert(next == u.next_of(a.0 as int));
                lemma_next_within(u, a.0 as int);
            }
            Self::visit(marks, stack, next.0, avoid);
            let ghost marks1 = marks@;
            let ghost stack1 = stack@;
            Self::visit(marks, stack, next.1, avoid);
            proof {
                lemma_frontier_step(
                    u,
                    old(marks)@,
                    avoid,
                    marks0,
                    stack0,
                    marks1,
                    stack1,
                    marks@,
                    stack@,
                    a,
                    rest,
                );
            }
        }
        proof {
            assert(stack@ == Seq::<Block>::empty());
        }
    }

    /// The blocks that control may reach from up to two blocks of the unit
    /// without passing block `avoid`, as a bitmap over the blocks.
    pub fn depth_first(&self, roots: (Option<Block>, Option<Block>), avoid: Block) -> (marks: Vec<
        bool,
    >)
        requires
            self.wf(),
            roots.0 matches Some(r) ==> r.0 < self@.blocks.len(),
            roots.1 matches Some(r) ==> r.0 < self@.blocks.len(),
        ensures
            marks@.len() == self@.blocks.len(),
            forall|t: int|
                0 <= t < marks@.len() ==> (marks@[t] <==> self@.reached_from(
                    roots,
                    t,
                    avoid.0 as int,
                )),
    {
        let n = self.blocks.len();
        let mut marks = cleared(n);
        let mut stack: Vec<Block> = Vec::new();
        let ghost blank = marks@;
        Self::visit(&mut marks, &mut stack, roots.0, avoid);
        let ghost first = marks@;
        let ghost pushed = stack@;
        Self::visit(&mut marks, &mut stack, roots.1, avoid);
        let ghost seeds = marks@;
        let ghost u = self@;
        let ghost av = avoid.0 as int;
        proof {
            lemma_frontier_seed(u, roots, avoid, blank, first, pushed, seeds, stack@);
        }
        self.depth_first_internal(&mut marks, &mut stack, avoid);
        proof {
            assert(marks@.len() == n) by {
                reveal(frontier);
            }
            assert forall|t: int| 0 <= t < n implies (marks@[t] <==> u.reached_from(
                roots,
                t,
                av,
            )) by {
                if marks@[t] {
                    reveal(traced);
                    let a = choose|a: int|
                        0 <= a < n && seeds[a] && #[trigger] u.reaches_avoiding(a, t, av);
                    assert(roots.0 == Some(Block(a as u32)) || roots.1 == Some(Block(a as u32)));
                }
                if u.reached_from(roots, t, av) {
                    let r = if roots.0 matches Some(r) && u.reaches_avoiding(r.0 as int, t, av) {
                        roots.0->0
                    } else {
                        roots.1->0
                    };
                    assert(u.reaches_avoiding(r.0 as int, t, av));
                    let p = choose|p: Seq<int>| u.path_avoiding(p, r.0 as int, t, av);
                    assert(p[0] != av);
                    assert(seeds[r.0 as int]);
                    lemma_frontier_done(u, seeds, marks@, avoid, r.0 as int, t);
                }
            }
        }
        marks
    }

    /// The blocks that control may reach from the entry block, each once, in
    /// the order in which a traversal in breadth finds them.
    pub fn width_first_traversal(&self) -> (order: Vec<Block>)
        requires
            self.wf(),
        ensures
            forall|b: int|
                0 <= b < self@.blocks.len() ==> (order@.contains(Block(b as u32))
                    <==> self@.reachable(b)),
            forall|k: int| 0 <= k < order@.len() ==> (#[trigger] order@[k]).0 < self@.blocks.len(),
            forall|j: int, k: int| 0 <= j < k < order@.len() ==> order@[j] != order@[k],
            self@.blocks.len() > 0 ==> order@.len() > 0 && order@[0] == Block(0),
    {
        let n = self.blocks.len();
        let mut marks = cleared(n);
        let mut order: Vec<Block> = Vec::new();
        if n == 0 {
            return order;
        }
        let ghost u = self@;
        let ghost blank = marks@;
        let none = Block::max();
        let roots: (Option<Block>, Option<Block>) = (Some(Block(0)), None);
        Self::visit(&mut marks, &mut order, roots.0, none);
        let ghost seeds = marks@;
        proof {
            lemma_frontier_seed(u, roots, none, blank, seeds, order@, seeds, order@);
            assert(order@[0] == Block(0));
            assert(order@.subrange(0, order@.len() as int) == order@);
            assert(listed(blank, Seq::<Block>::empty())) by {
                reveal(listed);
            }
            lemma_grown_order(blank, Seq::<Block>::empty(), roots.0, none, seeds, order@, 0);
        }
        let mut at: usize = 0;
        while at < order.len()
            invariant
                self.wf(),
                u == self@,
                n == u.blocks.len(),
                none == Block(BLOCK_MAX),
                at <= order@.len(),
                order@.len() > 0,
                order@[0] == Block(0),
                marks@.len() == n,
                seeds.len() == n,
                frontier(u, marks@, order@.subrange(at as int, order@.len() as int), none),
                traced(u, seeds, marks@, none),
                forall|t: int| 0 <= t < n && seeds[t] ==> marks@[t],
                listed(marks@, order@),
            decreases 2 * count_false(marks@) + (order@.len() - at),
        {
            let ghost marks0 = marks@;
            let ghost order0 = order@;
            let ghost stack0 = order@.subrange(at as int, order@.len() as int);
            let ghost rest = order@.subrange(at as int + 1, order@.len() as int);
            let a = order[at];
            proof {
                lemma_queue_front(u, marks0, order0, at as int, none);
                assert(u.block_ok(a.0 as int));
            }
            let next = self.blocks.index(a).get_next(self);
            proof {
                assert(next == u.next_of(a.0 as int));
                lemma_next_within(u, a.0 as int);
            }
            Self::visit(&mut marks, &mut order, next.0, none);
            let ghost marks1 = marks@;
            let ghost order1 = order@;
            let ghost stack1 = order@.subrange(at as int + 1, order@.len() as int);
            Self::visit(&mut marks, &mut order, next.1, none);
            let ghost stack2 = order@.subrange(at as int + 1, order@.len() as int);
            proof {
                lemma_grown_order(marks0, order0, next.0, none, marks1, order1, at as int + 1);
                lemma_grown_order(marks1, order1, next.1, none, marks@, order@, at as int + 1);
                lemma_frontier_step(
                    u,
                    seeds,
                    none,
                    marks0,
                    stack0,
                    marks1,
                    stack1,
                    marks@,
                    stack2,
                    a,
                    rest,
                );
            }
            at += 1;
        }
        proof {
            assert(order@.subrange(at as int, order@.len() as int) == Seq::<Block>::empty());
            reveal(listed);
            assert forall|b: int| 0 <= b < n implies (order@.contains(Block(b as u32))
                <==> u.reachable(b)) by {
                if marks@[b] {
                    reveal(traced);
                    let r = choose|r: int|
                        0 <= r < n && seeds[r] && #[trigger] u.reaches_avoiding(
                            r,
                            b,
                            BLOCK_MAX as int,
                        );
                    assert(r == 0);
                }
                if u.reachable(b) {
                    assert(seeds[0]);
                    lemma_frontier_done(u, seeds, marks@, none, 0, b);
                }
            }
        }
        order
    }
}

} // verus!
