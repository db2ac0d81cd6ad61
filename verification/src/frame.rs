//! What the passes compute depends on the code of a unit alone: its blocks,
//! instructions and runs. Two units with the same code agree on it, whatever
//! their settings, return type and liveness tags.

use crate::data::{Block, InstKind, Instruction, LiveData, TermData, UnitView};
use vstd::prelude::*;

verus! {

impl UnitView {
    /// The two units have the same blocks, instructions and runs.
    pub open spec fn same_code(self, other: UnitView) -> bool {
        &&& self.data == other.data
        &&& self.signatures == other.signatures
        &&& self.blocks == other.blocks
        &&& self.instructions == other.instructions
    }
}

impl UnitView {
    /// Block `b` has in `self` the parameters it has in `u`.
    pub open spec fn params_kept(self, u: UnitView, b: int) -> bool {
        &&& self.blocks[b].sig_start == u.blocks[b].sig_start
        &&& self.blocks[b].sig_end == u.blocks[b].sig_end
    }

    /// Block `b` is a block of `u` and has in `self` the range it has in `u`.
    pub open spec fn range_kept(self, u: UnitView, b: int) -> bool {
        &&& 0 <= b < u.blocks.len()
        &&& self.blocks[b].start == u.blocks[b].start
        &&& self.blocks[b].end == u.blocks[b].end
    }

    /// Instruction `i` is in `self` what it is in `u`, or a tombstone in the
    /// same block.
    pub open spec fn kept_or_removed(self, u: UnitView, i: int) -> bool {
        &&& self.instructions[i].block == u.instructions[i].block
        &&& (self.instructions[i].kind == u.instructions[i].kind || self.instructions[i].kind
            == InstKind::Tombstone)
    }

    /// `self` holds what `u` holds, and perhaps more: its arenas fit their
    /// keys and start with the runs, signatures and blocks of `u`, with the
    /// parameters of each block, and with each instruction of `u` as it is or
    /// as a tombstone.
    pub open spec fn carries(self, u: UnitView) -> bool {
        &&& self.data.len() <= u32::MAX
        &&& self.signatures.len() <= u32::MAX
        &&& self.blocks.len() <= u32::MAX
        &&& self.instructions.len() <= u32::MAX
        &&& u.data.len() <= self.data.len()
        &&& self.data.subrange(0, u.data.len() as int) == u.data
        &&& u.signatures.len() <= self.signatures.len()
        &&& u.blocks.len() <= self.blocks.len()
        &&& forall|b: int| 0 <= b < u.blocks.len() ==> #[trigger] self.params_kept(u, b)
        &&& u.instructions.len() <= self.instructions.len()
        &&& forall|i: int| 0 <= i < u.instructions.len() ==> #[trigger] self.kept_or_removed(u, i)
    }
}

/// A unit that differs from `u` in the ranges of some blocks at most carries
/// `u`, and keeps the range of every block but those.
pub proof fn lemma_carries_same_arenas(u: UnitView, v: UnitView)
    requires
        v.data.len() <= u32::MAX,
        v.signatures.len() <= u32::MAX,
        v.blocks.len() <= u32::MAX,
        v.instructions.len() <= u32::MAX,
        v.data.subrange(0, u.data.len() as int) == u.data,
        u.data.len() <= v.data.len(),
        v.signatures == u.signatures,
        v.blocks.len() == u.blocks.len(),
        forall|b: int| 0 <= b < u.blocks.len() ==> #[trigger] v.params_kept(u, b),
        u.instructions.len() <= v.instructions.len(),
        v.instructions.subrange(0, u.instructions.len() as int) == u.instructions,
    ensures
        v.carries(u),
        forall|b: int|
            0 <= b < u.blocks.len() && v.blocks[b] == u.blocks[b] ==> #[trigger] v.range_kept(u, b),
{
    assert forall|i: int| 0 <= i < u.instructions.len() implies #[trigger] v.kept_or_removed(
        u,
        i,
    ) by {
        assert(v.instructions.subrange(0, u.instructions.len() as int)[i] == v.instructions[i]);
    }
}

/// A unit that holds what a well-formed unit holds is well formed, where
/// what it holds more is: each block whose range is new or changed names a
/// range of instructions emitted into it, each new instruction names only
/// what exists, and each committed instruction of a block whose range is new
/// or changed lies in that range.
pub proof fn lemma_wf_carried(u: UnitView, v: UnitView, cu: int, cv: int)
    requires
        u.wf_upto(cu),
        v.carries(u),
        cu <= cv <= v.instructions.len(),
        forall|b: int|
            0 <= b < v.blocks.len() ==> #[trigger] v.range_kept(u, b) || (v.block_ok(b)
                && v.ends_by(b, cv)),
        forall|i: int|
            u.instructions.len() <= i < v.instructions.len() ==> #[trigger] v.inst_ok(i),
        forall|i: int|
            0 <= i < cv ==> (i < cu && v.range_kept(u, u.instructions[i].block.0 as int))
                || #[trigger] v.placed(i),
    ensures
        v.wf_upto(cv),
{
    assert forall|b: int| 0 <= b < v.blocks.len() implies #[trigger] v.ends_by(b, cv) by {
        if v.range_kept(u, b) {
            assert(u.ends_by(b, cu));
        }
    }
    assert forall|b: int| 0 <= b < v.blocks.len() implies #[trigger] v.block_ok(b) by {
        if v.range_kept(u, b) {
            assert(u.block_ok(b));
            assert(u.ends_by(b, cu));
            assert(v.params_kept(u, b));
            assert forall|i: int|
                v.blocks[b].start.0 <= i < v.blocks[b].end.0 implies (#[trigger] v.instructions[i]).block.0
                == b by {
                assert(v.kept_or_removed(u, i));
            }
        }
    }
    assert forall|i: int| 0 <= i < v.instructions.len() implies #[trigger] v.inst_ok(i) by {
        if i < u.instructions.len() {
            assert(u.inst_ok(i));
            assert(v.kept_or_removed(u, i));
            assert(v.params_kept(u, u.instructions[i].block.0 as int));
            if v.instructions[i].kind == u.instructions[i].kind {
                match u.instructions[i].kind {
                    InstKind::Recur(s, e) | InstKind::Terminator(TermData::Branch(_, s, e)) => {
                        assert(v.data.subrange(s.0 as int, e.0 as int) =~= v.data.subrange(
                            0,
                            u.data.len() as int,
                        ).subrange(s.0 as int, e.0 as int));
                    },
                    _ => {},
                }
                assert(v.operands_of(i) == u.operands_of(i));
            } else {
                assert(v.operands_of(i) == Seq::<Instruction>::empty());
            }
        }
    }
    assert forall|i: int| 0 <= i < cv implies #[trigger] v.placed(i) by {
        if i < cu && v.range_kept(u, u.instructions[i].block.0 as int) {
            assert(u.placed(i));
            assert(v.kept_or_removed(u, i));
        }
    }
}

/// A unit that holds the instructions of a unit whose written blocks are
/// finished blocks, as they are, has only finished blocks too, where each of
/// its written blocks whose range is new or changed is one.
pub proof fn lemma_terminated_carried(u: UnitView, v: UnitView, cu: int)
    requires
        u.wf_upto(cu),
        u.all_terminated(),
        u.instructions.len() <= v.instructions.len(),
        v.instructions.subrange(0, u.instructions.len() as int) == u.instructions,
        forall|b: int|
            0 <= b < v.blocks.len() && #[trigger] v.written(b) ==> v.range_kept(u, b)
                || v.terminated(v.blocks[b].start.0 as int, v.blocks[b].end.0 as int),
    ensures
        v.all_terminated(),
{
    assert forall|b: int| 0 <= b < v.blocks.len() && #[trigger] v.written(b) implies v.terminated(
        v.blocks[b].start.0 as int,
        v.blocks[b].end.0 as int,
    ) by {
        if v.range_kept(u, b) {
            let s = u.blocks[b].start.0 as int;
            let e = u.blocks[b].end.0 as int;
            assert(u.written(b));
            assert(u.block_ok(b));
            assert forall|i: int| 0 <= i < u.instructions.len() implies v.instructions[i]
                == u.instructions[i] by {
                assert(v.instructions.subrange(0, u.instructions.len() as int)[i]
                    == v.instructions[i]);
            }
            if u.plain(s, e - 1) && u.instructions[e - 1].kind.is_branch() {
                assert(v.plain(s, e - 1));
            } else {
                assert(v.plain(s, e - 3));
            }
        }
    }
}

/// Well-formedness depends on the code alone.
pub proof fn lemma_frame_wf(u: UnitView, v: UnitView)
    requires
        u.same_code(v),
        u.wf(),
    ensures
        v.wf(),
{
    let n = u.instructions.len() as int;
    assert(v.data.subrange(0, u.data.len() as int) == u.data);
    assert(v.instructions.subrange(0, n) == u.instructions);
    assert forall|b: int| 0 <= b < u.blocks.len() implies #[trigger] v.params_kept(u, b) by {}
    lemma_carries_same_arenas(u, v);
    assert forall|i: int| 0 <= i < n implies v.range_kept(u, u.instructions[i].block.0 as int) by {
        assert(u.inst_ok(i));
    }
    lemma_wf_carried(u, v, n, n);
}

/// Paths and what is reachable depend on the code alone.
pub proof fn lemma_frame_graph(u: UnitView, v: UnitView)
    requires
        u.same_code(v),
    ensures
        forall|a: int, b: int| #[trigger] u.edge(a, b) == v.edge(a, b),
        forall|a: int, b: int, c: int| #[trigger]
            u.reaches_avoiding(a, b, c) == v.reaches_avoiding(a, b, c),
        forall|b: int| #[trigger] u.reachable(b) == v.reachable(b),
{
    assert forall|a: int, b: int| #[trigger] u.edge(a, b) == v.edge(a, b) by {}
    assert forall|p: Seq<int>| #[trigger] u.is_path(p) == v.is_path(p) by {
        if u.is_path(p) {
            assert forall|k: int| 0 <= k < p.len() - 1 implies v.edge(#[trigger] p[k], p[k + 1]) by {
                assert(u.edge(p[k], p[k + 1]));
            }
        }
        if v.is_path(p) {
            assert forall|k: int| 0 <= k < p.len() - 1 implies u.edge(#[trigger] p[k], p[k + 1]) by {
                assert(v.edge(p[k], p[k + 1]));
            }
        }
    }
    assert forall|a: int, b: int, c: int| #[trigger]
        u.reaches_avoiding(a, b, c) == v.reaches_avoiding(a, b, c) by {
        if u.reaches_avoiding(a, b, c) {
            let p = choose|p: Seq<int>| u.path_avoiding(p, a, b, c);
            assert(u.is_path(p) == v.is_path(p));
            assert(v.path_avoiding(p, a, b, c));
        }
        if v.reaches_avoiding(a, b, c) {
            let p = choose|p: Seq<int>| v.path_avoiding(p, a, b, c);
            assert(u.is_path(p) == v.is_path(p));
            assert(u.path_avoiding(p, a, b, c));
        }
    }
}

/// Which instruction reads which, and whether a value may be read before it
/// is computed, depend on the code alone.
pub proof fn lemma_frame_uses(u: UnitView, v: UnitView)
    requires
        u.same_code(v),
    ensures
        forall|j: int, i: int| #[trigger] u.uses(j, i) == v.uses(j, i),
        forall|j: int, i: int| #[trigger] u.undominated_use(j, i) == v.undominated_use(j, i),
        u.dominance_holds() == v.dominance_holds(),
{
    lemma_frame_graph(u, v);
    assert forall|j: int, i: int| #[trigger] u.uses(j, i) == v.uses(j, i) by {
        assert(u.operands_of(j) == v.operands_of(j));
    }
    assert forall|j: int, i: int| #[trigger] u.undominated_use(j, i) == v.undominated_use(
        j,
        i,
    ) by {
        assert(u.uses(j, i) == v.uses(j, i));
        assert(u.reaches_avoiding(0, u.owner(j), u.owner(i)) == v.reaches_avoiding(
            0,
            u.owner(j),
            u.owner(i),
        ));
    }
    if u.dominance_holds() {
        assert forall|j: int, i: int| !#[trigger] v.undominated_use(j, i) by {
            assert(!u.undominated_use(j, i));
        }
    }
    if v.dominance_holds() {
        assert forall|j: int, i: int| !#[trigger] u.undominated_use(j, i) by {
            assert(!v.undominated_use(j, i));
        }
    }
}

/// Which instructions are used depends on the code alone.
pub proof fn lemma_frame_used(u: UnitView, v: UnitView)
    requires
        u.same_code(v),
    ensures
        forall|i: int| #[trigger] u.used(i) == v.used(i),
        u.swept() == v.swept(),
{
    lemma_frame_graph(u, v);
    lemma_frame_uses(u, v);
    assert forall|c: Seq<int>| #[trigger] u.use_chain(c) == v.use_chain(c) by {
        if c.len() > 0 {
            assert(u.reachable(u.owner(c[0])) == v.reachable(u.owner(c[0])));
            assert(u.root(c[0]) == v.root(c[0]));
        }
        if u.use_chain(c) {
            assert forall|k: int| 0 <= k < c.len() - 1 implies v.uses(#[trigger] c[k], c[k + 1]) by {
                assert(u.uses(c[k], c[k + 1]));
            }
        }
        if v.use_chain(c) {
            assert forall|k: int| 0 <= k < c.len() - 1 implies u.uses(#[trigger] c[k], c[k + 1]) by {
                assert(v.uses(c[k], c[k + 1]));
            }
        }
    }
    assert forall|i: int| #[trigger] u.used(i) == v.used(i) by {
        if u.used(i) {
            let c = choose|c: Seq<int>| #[trigger] u.use_chain(c) && c[c.len() - 1] == i;
            assert(v.use_chain(c));
        }
        if v.used(i) {
            let c = choose|c: Seq<int>| #[trigger] v.use_chain(c) && c[c.len() - 1] == i;
            assert(u.use_chain(c));
        }
    }
    assert(u.swept() =~= v.swept());
}

/// The liveness tags depend on the code alone.
pub proof fn lemma_frame_tags(u: UnitView, v: UnitView)
    requires
        u.same_code(v),
    ensures
        forall|b: int, w: int| #[trigger] u.needed_after(b, w) == v.needed_after(b, w),
        forall|b: int, w: int, t: Option<LiveData>| #[trigger]
            u.tag_of(b, w, t) == v.tag_of(b, w, t),
        forall|m: Map<(Block, Instruction), LiveData>| #[trigger]
            u.annotated(m) == v.annotated(m),
{
    lemma_frame_graph(u, v);
    lemma_frame_uses(u, v);
    assert forall|b: int, w: int| #[trigger] u.needed_after(b, w) == v.needed_after(b, w) by {
        assert(u.next_of(b) == v.next_of(b));
        if u.needed_after(b, w) {
            let j = choose|j: int| #[trigger]
                u.uses(j, w) && u.reached_from(u.next_of(b), u.owner(j), u.owner(w));
            assert(v.uses(j, w) && v.reached_from(v.next_of(b), v.owner(j), v.owner(w)));
        }
        if v.needed_after(b, w) {
            let j = choose|j: int| #[trigger]
                v.uses(j, w) && v.reached_from(v.next_of(b), v.owner(j), v.owner(w));
            assert(u.uses(j, w) && u.reached_from(u.next_of(b), u.owner(j), u.owner(w)));
        }
    }
    assert forall|b: int, w: int, k: int, limit: int| #[trigger]
        u.read_at(b, w, k, limit) == v.read_at(b, w, k, limit) by {
        assert(u.uses(k, w) == v.uses(k, w));
    }
    assert forall|b: int, w: int, limit: int, t: Option<LiveData>| #[trigger]
        u.tag_upto(b, w, limit, t) == v.tag_upto(b, w, limit, t) by {
        assert(u.needed_after(b, w) == v.needed_after(b, w));
        match t {
            Some(LiveData::Partial(m)) => {
                assert(u.read_at(b, w, m.0 as int, limit) == v.read_at(b, w, m.0 as int, limit));
                if u.tag_upto(b, w, limit, t) {
                    assert forall|k: int| m.0 < k implies !#[trigger] v.read_at(b, w, k, limit) by {
                        assert(!u.read_at(b, w, k, limit));
                    }
                }
                if v.tag_upto(b, w, limit, t) {
                    assert forall|k: int| m.0 < k implies !#[trigger] u.read_at(b, w, k, limit) by {
                        assert(!v.read_at(b, w, k, limit));
                    }
                }
            },
            Some(LiveData::Alive) => {},
            None => {
                if u.tag_upto(b, w, limit, t) {
                    assert forall|k: int| !#[trigger] v.read_at(b, w, k, limit) by {
                        assert(!u.read_at(b, w, k, limit));
                    }
                }
                if v.tag_upto(b, w, limit, t) {
                    assert forall|k: int| !#[trigger] u.read_at(b, w, k, limit) by {
                        assert(!v.read_at(b, w, k, limit));
                    }
                }
            },
        }
    }
    assert forall|b: int, w: int, t: Option<LiveData>| #[trigger]
        u.tag_of(b, w, t) == v.tag_of(b, w, t) by {
        assert(u.tag_upto(b, w, u.blocks[b].end.0 as int, t) == v.tag_upto(
            b,
            w,
            u.blocks[b].end.0 as int,
            t,
        ));
    }
    assert forall|m: Map<(Block, Instruction), LiveData>| #[trigger]
        u.annotated(m) == v.annotated(m) by {
        if u.annotated(m) {
            assert forall|b: Block, w: Instruction|
                if b.0 < v.blocks.len() && v.reachable(b.0 as int) {
                    v.tag_of(b.0 as int, w.0 as int, #[trigger] crate::liveness::lookup(m, b, w))
                } else {
                    crate::liveness::lookup(m, b, w) is None
                } by {
                assert(u.reachable(b.0 as int) == v.reachable(b.0 as int));
                assert(u.tag_of(b.0 as int, w.0 as int, crate::liveness::lookup(m, b, w))
                    == v.tag_of(b.0 as int, w.0 as int, crate::liveness::lookup(m, b, w)));
            }
        }
        if v.annotated(m) {
            assert forall|b: Block, w: Instruction|
                if b.0 < u.blocks.len() && u.reachable(b.0 as int) {
                    u.tag_of(b.0 as int, w.0 as int, #[trigger] crate::liveness::lookup(m, b, w))
                } else {
                    crate::liveness::lookup(m, b, w) is None
                } by {
                assert(u.reachable(b.0 as int) == v.reachable(b.0 as int));
                assert(u.tag_of(b.0 as int, w.0 as int, crate::liveness::lookup(m, b, w))
                    == v.tag_of(b.0 as int, w.0 as int, crate::liveness::lookup(m, b, w)));
            }
        }
    }
}

} // verus!
