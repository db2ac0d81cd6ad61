//! The liveness tags: for each block that control may reach, which values
//! are needed behind it, and where in it each other value is read last.

use crate::data::{live_key, tags, Block, Instruction, LiveData, Unit, UnitView};
use crate::traversal::{cleared, lemma_next_within};
use std::collections::BTreeMap;
use vstd::prelude::*;

verus! {

/// The tag of an instruction in a block, if it has one.
pub open spec fn lookup(
    m: Map<(Block, Instruction), LiveData>,
    b: Block,
    v: Instruction,
) -> Option<LiveData> {
    if m.contains_key((b, v)) {
        Some(m[(b, v)])
    } else {
        None
    }
}

impl UnitView {
    /// The value of instruction `v` is needed behind block `b`: an
    /// instruction reads it whose block control may reach from a block next
    /// to `b` without passing the block that computes it.
    pub open spec fn needed_after(self, b: int, v: int) -> bool {
        exists|j: int| #[trigger]
            self.uses(j, v) && self.reached_from(self.next_of(b), self.owner(j), self.owner(v))
    }

    /// Instruction `m` of block `b`, before position `limit`, reads the value
    /// of instruction `v`.
    pub open spec fn read_at(self, b: int, v: int, m: int, limit: int) -> bool {
        &&& self.blocks[b].start.0 <= m < self.blocks[b].end.0
        &&& m < limit
        &&& self.uses(m, v)
    }

    /// `tag` is the tag of instruction `v` in block `b` where only the
    /// instructions of `b` before position `limit` count: `Alive` where the
    /// value is needed behind the block; else the last of these instructions
    /// that reads it; none where none does.
    pub open spec fn tag_upto(self, b: int, v: int, limit: int, tag: Option<LiveData>) -> bool {
        match tag {
            Some(LiveData::Alive) => self.needed_after(b, v),
            Some(LiveData::Partial(m)) => {
                &&& !self.needed_after(b, v)
                &&& self.read_at(b, v, m.0 as int, limit)
                &&& forall|k: int| m.0 < k ==> !#[trigger] self.read_at(b, v, k, limit)
            },
            None => {
                &&& !self.needed_after(b, v)
                &&& forall|k: int| !#[trigger] self.read_at(b, v, k, limit)
            },
        }
    }

    /// `tag` is the tag of instruction `v` in block `b`.
    pub open spec fn tag_of(self, b: int, v: int, tag: Option<LiveData>) -> bool {
        self.tag_upto(b, v, self.blocks[b].end.0 as int, tag)
    }

    /// `m` holds the tags of the unit: for each block that control may reach
    /// from the entry the tag of each instruction in it, and nothing else.
    pub open spec fn annotated(self, m: Map<(Block, Instruction), LiveData>) -> bool {
        forall|b: Block, v: Instruction|
            if b.0 < self.blocks.len() && self.reachable(b.0 as int) {
                self.tag_of(b.0 as int, v.0 as int, #[trigger] lookup(m, b, v))
            } else {
                lookup(m, b, v) is None
            }
    }
}

/// Two pairs of a block and an instruction with one key are one pair.
pub proof fn lemma_live_key_injective(b: Block, v: Instruction, c: Block, w: Instruction)
    requires
        live_key(b, v) == live_key(c, w),
    ensures
        b == c,
        v == w,
{
}

/// Storing a tag under the key of a pair stores it for that pair and for no
/// other.
pub proof fn lemma_tags_insert(m: Map<u64, LiveData>, b: Block, v: Instruction, tag: LiveData)
    ensures
        tags(m.insert(live_key(b, v), tag)) == tags(m).insert((b, v), tag),
{
    let left = tags(m.insert(live_key(b, v), tag));
    let right = tags(m).insert((b, v), tag);
    assert forall|k: (Block, Instruction)| left.contains_key(k) == right.contains_key(k) && (
    left.contains_key(k) ==> left[k] == right[k]) by {
        if live_key(k.0, k.1) == live_key(b, v) {
            lemma_live_key_injective(k.0, k.1, b, v);
        }
    }
    assert(left =~= right);
}

impl Unit {
    /// Stores the tag of an instruction in a block.
    fn tag(map: &mut BTreeMap<u64, LiveData>, b: Block, v: Instruction, tag: LiveData)
        ensures
            tags(final(map)@) == tags(old(map)@).insert((b, v), tag),
    {
        let key: u64 = (b.0 as u64) * 0x1_0000_0000 + (v.0 as u64);
        proof {
            assert(key == live_key(b, v));
            lemma_tags_insert(map@, b, v, tag);
        }
        let _ = map.insert(key, tag);
    }

    /// Marks what instruction `t` reads of the values that block `d`
    /// computes.
    fn mark_read_of(&self, marks: &mut Vec<bool>, t: Instruction, d: Block)
        requires
            self.wf(),
            t.0 < self@.instructions.len(),
            old(marks)@.len() == self@.instructions.len(),
        ensures
            final(marks)@.len() == old(marks)@.len(),
            forall|j: int|
                #![trigger final(marks)@[j]]
                0 <= j < old(marks)@.len() ==> (final(marks)@[j] <==> old(marks)@[j] || (
                self@.uses(t.0 as int, j) && self@.owner(j) == d.0)),
    {
        proof {
            assert(self@.inst_ok(t.0 as int));
        }
        let operands = self.instructions.index(t).kind.get_insts(&self.data);
        let mut k: usize = 0;
        while k < operands.len()
            invariant
                self.wf(),
                t.0 < self@.instructions.len(),
                marks@.len() == self@.instructions.len(),
                old(marks)@.len() == marks@.len(),
                operands@ == self@.operands_of(t.0 as int),
                k <= operands@.len(),
                forall|j: int|
                    #![trigger marks@[j]]
                    0 <= j < marks@.len() ==> (marks@[j] <==> old(marks)@[j] || (self@.owner(j)
                        == d.0 && exists|m: int| 0 <= m < k && (#[trigger] operands@[m]).0 == j)),
            decreases operands@.len() - k,
        {
            proof {
                assert(self@.inst_ok(t.0 as int));
                assert(self@.operands_of(t.0 as int)[k as int].0 < t.0);
            }
            let ghost prev = marks@;
            let read = operands[k];
            let hit = self.instructions.index(read).block.0 == d.0;
            if hit {
                marks.set(read.0 as usize, true);
            }
            proof {
                let r = read.0 as int;
                assert(hit <==> self@.owner(r) == d.0);
                assert forall|j: int| 0 <= j < marks@.len() implies (marks@[j] <==> old(marks)@[j]
                    || (self@.owner(j) == d.0 && exists|m: int|
                    0 <= m < k + 1 && (#[trigger] operands@[m]).0 == j)) by {
                    assert(marks@[j] <==> prev[j] || (hit && j == r));
                    assert(prev[j] <==> old(marks)@[j] || (self@.owner(j) == d.0 && exists|m: int|
                        0 <= m < k && (#[trigger] operands@[m]).0 == j));
                    if prev[j] && !old(marks)@[j] {
                        let m = choose|m: int| 0 <= m < k && (#[trigger] operands@[m]).0 == j;
                        assert(0 <= m < k + 1 && operands@[m].0 == j);
                    }
                    if hit && j == r {
                        assert(0 <= k < k + 1 && operands@[k as int].0 == j);
                    }
                    if self@.owner(j) == d.0 && exists|m: int|
                        0 <= m < k + 1 && (#[trigger] operands@[m]).0 == j {
                        let m = choose|m: int| 0 <= m < k + 1 && (#[trigger] operands@[m]).0 == j;
                        if m < k {
                            assert(0 <= m < k && operands@[m].0 == j);
                        } else {
                            assert(j == r);
                        }
                    }
                }
            }
            k += 1;
        }
    }

    /// Marks the values that block `d` computes and an instruction of a
    /// block marked in `reached` reads.
    fn mark_read_from(&self, live: &mut Vec<bool>, d: Block, reached: &Vec<bool>)
        requires
            self.wf(),
            reached@.len() == self@.blocks.len(),
            old(live)@.len() == self@.instructions.len(),
        ensures
            final(live)@.len() == old(live)@.len(),
            forall|v: int|
                #![trigger final(live)@[v]]
                0 <= v < old(live)@.len() ==> (final(live)@[v] <==> old(live)@[v] || (self@.owner(v)
                    == d.0 && exists|j: int| #[trigger]
                    self@.uses(j, v) && reached@[self@.owner(j)])),
    {
        let n = self.instructions.len();
        let ghost u = self@;
        let mut j: usize = 0;
        while j < n
            invariant
                self.wf(),
                u == self@,
                reached@.len() == u.blocks.len(),
                n == u.instructions.len(),
                live@.len() == n,
                old(live)@.len() == n,
                j <= n,
                forall|v: int|
                    #![trigger live@[v]]
                    0 <= v < n ==> (live@[v] <==> old(live)@[v] || (u.owner(v) == d.0
                        && exists|m: int|
                        0 <= m < j && #[trigger] u.uses(m, v) && reached@[u.owner(m)])),
            decreases n - j,
        {
            proof {
                assert(u.inst_ok(j as int));
            }
            let ghost prev = live@;
            let reader = Instruction(j as u32);
            let hit = reached[self.instructions.index(reader).block.0 as usize];
            if hit {
                self.mark_read_of(live, reader, d);
            }
            proof {
                let t = j as int;
                assert(hit <==> reached@[u.owner(t)]);
                assert forall|v: int| 0 <= v < n implies (live@[v] <==> old(live)@[v] || (u.owner(v)
                    == d.0 && exists|m: int|
                    0 <= m < j + 1 && #[trigger] u.uses(m, v) && reached@[u.owner(m)])) by {
                    assert(live@[v] <==> prev[v] || (hit && u.uses(t, v) && u.owner(v) == d.0));
                    if prev[v] && !old(live)@[v] {
                        let m = choose|m: int|
                            0 <= m < j && #[trigger] u.uses(m, v) && reached@[u.owner(m)];
                        assert(0 <= m < j + 1 && u.uses(m, v) && reached@[u.owner(m)]);
                    }
                    if hit && u.uses(t, v) && u.owner(v) == d.0 {
                        assert(0 <= t < j + 1 && u.uses(t, v) && reached@[u.owner(t)]);
                    }
                    if u.owner(v) == d.0 && exists|m: int|
                        0 <= m < j + 1 && #[trigger] u.uses(m, v) && reached@[u.owner(m)] {
                        let m = choose|m: int|
                            0 <= m < j + 1 && #[trigger] u.uses(m, v) && reached@[u.owner(m)];
                        if m < j {
                            assert(0 <= m < j && u.uses(m, v) && reached@[u.owner(m)]);
                        }
                    }
                }
            }
            j += 1;
        }
        proof {
            assert forall|v: int| 0 <= v < n implies (live@[v] <==> old(live)@[v] || (u.owner(v)
                == d.0 && exists|m: int| #[trigger] u.uses(m, v) && reached@[u.owner(m)])) by {
                if live@[v] && !old(live)@[v] {
                    let m = choose|m: int|
                        0 <= m < n && #[trigger] u.uses(m, v) && reached@[u.owner(m)];
                    assert(u.uses(m, v) && reached@[u.owner(m)]);
                }
                if exists|m: int| #[trigger] u.uses(m, v) && reached@[u.owner(m)] {
                    let m = choose|m: int| #[trigger] u.uses(m, v) && reached@[u.owner(m)];
                    assert(0 <= m < n && u.uses(m, v) && reached@[u.owner(m)]);
                }
            }
        }
    }

    /// The values that are needed behind block `b`, as a bitmap over the
    /// instructions.
    fn live_out(&self, b: Block) -> (live: Vec<bool>)
        requires
            self.wf(),
            b.0 < self@.blocks.len(),
        ensures
            live@.len() == self@.instructions.len(),
            forall|v: int| 0 <= v < live@.len() ==> (live@[v] <==> self@.needed_after(b.0 as int, v)),
    {
        let n = self.instructions.len();
        let ghost u = self@;
        let mut live = cleared(n);
        proof {
            assert(u.block_ok(b.0 as int));
            lemma_next_within(u, b.0 as int);
        }
        let next = self.blocks.index(b).get_next(self);
        let blocks = self.blocks.len();
        let mut d: usize = 0;
        while d < blocks
            invariant
                self.wf(),
                u == self@,
                n == u.instructions.len(),
                blocks == u.blocks.len(),
                live@.len() == n,
                d <= blocks,
                b.0 < blocks,
                next == u.next_of(b.0 as int),
                next.0 matches Some(r) ==> r.0 < blocks,
                next.1 matches Some(r) ==> r.0 < blocks,
                forall|v: int|
                    #![trigger live@[v]]
                    0 <= v < n ==> (live@[v] <==> u.owner(v) < d && u.needed_after(b.0 as int, v)),
            decreases blocks - d,
        {
            let reached = self.depth_first(next, Block(d as u32));
            self.mark_read_from(&mut live, Block(d as u32), &reached);
            proof {
                assert forall|v: int| 0 <= v < n implies (live@[v] <==> u.owner(v) < d + 1
                    && u.needed_after(b.0 as int, v)) by {
                    assert(u.inst_ok(v));
                    if u.owner(v) == d {
                        if u.needed_after(b.0 as int, v) {
                            let j = choose|j: int| #[trigger]
                                u.uses(j, v) && u.reached_from(next, u.owner(j), u.owner(v));
                            assert(u.inst_ok(j));
                            assert(reached@[u.owner(j)]);
                        }
                        if exists|j: int| #[trigger] u.uses(j, v) && reached@[u.owner(j)] {
                            let j = choose|j: int| #[trigger] u.uses(j, v) && reached@[u.owner(j)];
                            assert(u.inst_ok(j));
                            assert(u.uses(j, v) && u.reached_from(next, u.owner(j), u.owner(v)));
                        }
                    }
                }
            }
            d += 1;
        }
        proof {
            assert forall|v: int| 0 <= v < n implies (live@[v] <==> u.needed_after(b.0 as int, v)) by {
                assert(u.inst_ok(v));
            }
        }
        live
    }
    /// Stores the tags of the instructions in block `b`, which has none yet.
    fn annotate_block(&self, map: &mut BTreeMap<u64, LiveData>, b: Block)
        requires
            self.wf(),
            b.0 < self@.blocks.len(),
            forall|v: Instruction| lookup(tags(old(map)@), b, v) is None,
        ensures
            forall|c: Block, v: Instruction|
                c != b ==> #[trigger] lookup(tags(final(map)@), c, v) == lookup(
                    tags(old(map)@),
                    c,
                    v,
                ),
            forall|v: Instruction|
                self@.tag_of(b.0 as int, v.0 as int, #[trigger] lookup(tags(final(map)@), b, v)),
    {
        let ghost u = self@;
        let ghost bi = b.0 as int;
        let live = self.live_out(b);
        let n = self.instructions.len();
        let mut v: usize = 0;
        while v < n
            invariant
                n == u.instructions.len(),
                n <= u32::MAX,
                live@.len() == n,
                v <= n,
                forall|c: Block, w: Instruction|
                    c != b ==> #[trigger] lookup(tags(map@), c, w) == lookup(tags(old(map)@), c, w),
                forall|w: Instruction| #[trigger]
                    lookup(tags(map@), b, w) == if w.0 < v && live@[w.0 as int] {
                        Some(LiveData::Alive)
                    } else {
                        None
                    },
            decreases n - v,
        {
            let ghost prev = tags(map@);
            if live[v] {
                Self::tag(map, b, Instruction(v as u32), LiveData::Alive);
            }
            proof {
                assert forall|c: Block, w: Instruction| c != b implies #[trigger] lookup(
                    tags(map@),
                    c,
                    w,
                ) == lookup(tags(old(map)@), c, w) by {
                    assert(lookup(prev, c, w) == lookup(tags(old(map)@), c, w));
                }
                assert forall|w: Instruction| #[trigger]
                    lookup(tags(map@), b, w) == if w.0 < v + 1 && live@[w.0 as int] {
                        Some(LiveData::Alive)
                    } else {
                        None
                    } by {
                    assert(lookup(prev, b, w) == if w.0 < v && live@[w.0 as int] {
                        Some(LiveData::Alive)
                    } else {
                        None
                    });
                }
            }
            v += 1;
        }
        let block = *self.blocks.index(b);
        proof {
            assert(u.block_ok(bi));
            assert forall|w: Instruction|
                u.tag_upto(bi, w.0 as int, block.start.0 as int, #[trigger] lookup(tags(map@), b, w)) by {
                if u.needed_after(bi, w.0 as int) {
                    let j = choose|j: int| #[trigger]
                        u.uses(j, w.0 as int) && u.reached_from(
                            u.next_of(bi),
                            u.owner(j),
                            u.owner(w.0 as int),
                        );
                    crate::unused::lemma_uses_earlier(u, j, w.0 as int);
                }
            }
        }
        let mut j: u32 = block.start.0;
        while j < block.end.0
            invariant
                self.wf(),
                u == self@,
                bi == b.0,
                0 <= bi < u.blocks.len(),
                block == u.blocks[bi],
                n == u.instructions.len(),
                live@.len() == n,
                forall|w: int|
                    #![trigger live@[w]]
                    0 <= w < n ==> (live@[w] <==> u.needed_after(bi, w)),
                block.start.0 <= j <= block.end.0 <= n,
                forall|c: Block, w: Instruction|
                    c != b ==> #[trigger] lookup(tags(map@), c, w) == lookup(tags(old(map)@), c, w),
                forall|w: Instruction|
                    u.tag_upto(bi, w.0 as int, j as int, #[trigger] lookup(tags(map@), b, w)),
            decreases block.end.0 - j,
        {
            proof {
                assert(u.inst_ok(j as int));
            }
            let operands = self.instructions.index(Instruction(j)).kind.get_insts(&self.data);
            let ghost entry = tags(map@);
            let mut k: usize = 0;
            while k < operands.len()
                invariant
                    self.wf(),
                    u == self@,
                    bi == b.0,
                    0 <= bi < u.blocks.len(),
                    block == u.blocks[bi],
                    n == u.instructions.len(),
                    live@.len() == n,
                    forall|w: int|
                        #![trigger live@[w]]
                        0 <= w < n ==> (live@[w] <==> u.needed_after(bi, w)),
                    block.start.0 <= j < block.end.0 <= n,
                    operands@ == u.operands_of(j as int),
                    k <= operands@.len(),
                    forall|c: Block, w: Instruction|
                        c != b ==> #[trigger] lookup(tags(map@), c, w) == lookup(
                            tags(old(map)@),
                            c,
                            w,
                        ),
                    forall|w: Instruction|
                        u.tag_upto(bi, w.0 as int, j as int, #[trigger] lookup(entry, b, w)),
                    forall|w: Instruction| #[trigger]
                        lookup(tags(map@), b, w) == if !u.needed_after(bi, w.0 as int)
                            && exists|m: int| 0 <= m < k && #[trigger] operands@[m] == w {
                            Some(LiveData::Partial(Instruction(j)))
                        } else {
                            lookup(entry, b, w)
                        },
                decreases operands@.len() - k,
            {
                let read = operands[k];
                proof {
                    assert(u.inst_ok(j as int));
                    assert(u.operands_of(j as int)[k as int].0 < j);
                }
                let ghost prev = tags(map@);
                if !live[read.0 as usize] {
                    Self::tag(map, b, read, LiveData::Partial(Instruction(j)));
                }
                proof {
                    assert forall|c: Block, w: Instruction| c != b implies #[trigger] lookup(
                        tags(map@),
                        c,
                        w,
                    ) == lookup(tags(old(map)@), c, w) by {
                        assert(lookup(prev, c, w) == lookup(tags(old(map)@), c, w));
                    }
                    assert forall|w: Instruction| #[trigger]
                        lookup(tags(map@), b, w) == if !u.needed_after(bi, w.0 as int)
                            && exists|m: int| 0 <= m < k + 1 && #[trigger] operands@[m] == w {
                            Some(LiveData::Partial(Instruction(j)))
                        } else {
                            lookup(entry, b, w)
                        } by {
                        if w == read {
                            assert(operands@[k as int] == w);
                        }
                        if exists|m: int| 0 <= m < k + 1 && #[trigger] operands@[m] == w {
                            let m = choose|m: int| 0 <= m < k + 1 && #[trigger] operands@[m] == w;
                            if m < k {
                                assert(operands@[m] == w);
                            }
                        }
                        if exists|m: int| 0 <= m < k && #[trigger] operands@[m] == w {
                            let m = choose|m: int| 0 <= m < k && #[trigger] operands@[m] == w;
                            assert(0 <= m < k + 1 && operands@[m] == w);
                        }
                        assert(lookup(prev, b, w) == if !u.needed_after(bi, w.0 as int)
                            && exists|m: int| 0 <= m < k && #[trigger] operands@[m] == w {
                            Some(LiveData::Partial(Instruction(j)))
                        } else {
                            lookup(entry, b, w)
                        });
                    }
                }
                k += 1;
            }
            proof {
                assert forall|w: Instruction|
                    u.tag_upto(bi, w.0 as int, j + 1, #[trigger] lookup(tags(map@), b, w)) by {
                    let wi = w.0 as int;
                    let reads = exists|m: int|
                        0 <= m < operands@.len() && #[trigger] operands@[m] == w;
                    let t0 = lookup(entry, b, w);
                    let t = lookup(tags(map@), b, w);
                    assert(u.tag_upto(bi, wi, j as int, t0));
                    assert(t == if !u.needed_after(bi, wi) && reads {
                        Some(LiveData::Partial(Instruction(j)))
                    } else {
                        t0
                    });
                    if reads {
                        let m = choose|m: int|
                            0 <= m < operands@.len() && #[trigger] operands@[m] == w;
                        assert(operands@[m].0 == wi);
                        assert(u.uses(j as int, wi));
                    }
                    if u.uses(j as int, wi) {
                        let m = choose|m: int|
                            0 <= m < u.operands_of(j as int).len() && (#[trigger] u.operands_of(
                                j as int,
                            )[m]).0 == wi;
                        assert(operands@[m] == w);
                    }
                    assert(reads <==> u.uses(j as int, wi));
                    assert forall|x: int| x != j implies (u.read_at(bi, wi, x, j + 1) <==> u.read_at(
                        bi,
                        wi,
                        x,
                        j as int,
                    )) by {}
                    assert(!u.read_at(bi, wi, j as int, j as int));
                    assert(u.read_at(bi, wi, j as int, j + 1) <==> u.uses(j as int, wi));
                    if u.needed_after(bi, wi) {
                        assert(t0 == Some(LiveData::Alive));
                    } else if reads {
                        assert forall|x: int| j < x implies !#[trigger] u.read_at(bi, wi, x, j + 1) by {}
                    } else {
                        match t0 {
                            Some(LiveData::Alive) => {},
                            Some(LiveData::Partial(m)) => {
                                assert(u.read_at(bi, wi, m.0 as int, j as int));
                                assert forall|x: int| m.0 < x implies !#[trigger] u.read_at(
                                    bi,
                                    wi,
                                    x,
                                    j + 1,
                                ) by {
                                    if x != j {
                                        assert(!u.read_at(bi, wi, x, j as int));
                                    }
                                }
                            },
                            None => {
                                assert forall|x: int| !#[trigger] u.read_at(bi, wi, x, j + 1) by {
                                    if x != j {
                                        assert(!u.read_at(bi, wi, x, j as int));
                                    }
                                }
                            },
                        }
                    }
                }
            }
            j += 1;
        }
    }

    /// The tag of an instruction in a block, if it has one.
    pub fn liveness_of(&self, b: Block, v: Instruction) -> (tag: Option<LiveData>)
        ensures
            tag == lookup(self@.liveness, b, v),
    {
        let key: u64 = (b.0 as u64) * 0x1_0000_0000 + (v.0 as u64);
        proof {
            assert(key == live_key(b, v));
        }
        match self.liveness.get(&key) {
            Some(tag) => Some(*tag),
            None => None,
        }
    }

    /// Computes the liveness tags, block by block in the order of a traversal
    /// from the entry. A block that control may reach from the entry tags a
    /// value `Alive` where a block behind it needs the value;
    /// else with the last of its instructions that reads the value, where one
    /// does. The tags that the unit held before are dropped.
    pub fn annotate_liveness(&mut self)
        requires
            old(self).wf(),
        ensures
            final(self)@ == (UnitView { liveness: final(self)@.liveness, ..old(self)@ }),
            old(self)@.annotated(final(self)@.liveness),
    {
        let ghost u = self@;
        let n = self.blocks.len();
        let mut map: BTreeMap<u64, LiveData> = BTreeMap::new();
        proof {
            assert forall|c: Block, w: Instruction| #[trigger] lookup(tags(map@), c, w) is None by {}
        }
        let order = self.width_first_traversal();
        let mut k: usize = 0;
        while k < order.len()
            invariant
                self.wf(),
                u == self@,
                n == u.blocks.len(),
                n <= u32::MAX,
                k <= order@.len(),
                forall|m: int| 0 <= m < order@.len() ==> (#[trigger] order@[m]).0 < n,
                forall|j: int, m: int| 0 <= j < m < order@.len() ==> order@[j] != order@[m],
                forall|c: Block, w: Instruction|
                    if exists|m: int| 0 <= m < k && order@[m] == c {
                        u.tag_of(c.0 as int, w.0 as int, #[trigger] lookup(tags(map@), c, w))
                    } else {
                        lookup(tags(map@), c, w) is None
                    },
            decreases order@.len() - k,
        {
            let b = order[k];
            let ghost prev = tags(map@);
            proof {
                assert forall|w: Instruction| lookup(prev, b, w) is None by {
                    if exists|m: int| 0 <= m < k && order@[m] == b {
                        let m = choose|m: int| 0 <= m < k && order@[m] == b;
                        assert(order@[m] != order@[k as int]);
                    }
                }
            }
            self.annotate_block(&mut map, b);
            proof {
                assert forall|c: Block, w: Instruction|
                    if exists|m: int| 0 <= m < k + 1 && order@[m] == c {
                        u.tag_of(c.0 as int, w.0 as int, #[trigger] lookup(tags(map@), c, w))
                    } else {
                        lookup(tags(map@), c, w) is None
                    } by {
                    if c == b {
                        assert(order@[k as int] == c);
                    } else {
                        assert(lookup(tags(map@), c, w) == lookup(prev, c, w));
                        if exists|m: int| 0 <= m < k + 1 && order@[m] == c {
                            let m = choose|m: int| 0 <= m < k + 1 && order@[m] == c;
                            assert(0 <= m < k && order@[m] == c);
                        }
                        if exists|m: int| 0 <= m < k && order@[m] == c {
                            let m = choose|m: int| 0 <= m < k && order@[m] == c;
                            assert(0 <= m < k + 1 && order@[m] == c);
                        }
                    }
                }
            }
            k += 1;
        }
        proof {
            assert forall|c: Block, w: Instruction|
                if c.0 < u.blocks.len() && u.reachable(c.0 as int) {
                    u.tag_of(c.0 as int, w.0 as int, #[trigger] lookup(tags(map@), c, w))
                } else {
                    lookup(tags(map@), c, w) is None
                } by {
                if exists|m: int| 0 <= m < k && order@[m] == c {
                    let m = choose|m: int| 0 <= m < k && order@[m] == c;
                    assert(order@.contains(c));
                    assert(c == Block(c.0 as int as u32));
                }
                if c.0 < u.blocks.len() && u.reachable(c.0 as int) {
                    assert(order@.contains(Block(c.0 as int as u32)));
                    let m = choose|m: int| 0 <= m < order@.len() && order@[m] == c;
                    assert(0 <= m < k && order@[m] == c);
                }
            }
        }
        self.liveness = map;
    }
}

} // verus!
