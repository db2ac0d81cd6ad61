use unit_ir::builder::FinalizeError;
use unit_ir::data::{
    Block, BlockHandle, InstData, InstKind, Instruction, LiveData, Settings, TermData, Type, Unit,
};
use unit_ir::util::False;

/// b0 -> b1 | b2 ; b1 -> b3 ; b2 -> b3 ; b3 returns. b1 computes a value that
/// only b1 reads.
fn diamond() -> (Unit, Vec<Instruction>) {
    let mut unit = Unit::new();
    unit.settings.volatile = false;
    let b0 = unit.new_block(&[Type::Int32, Type::Int32]);
    let b1 = unit.new_block(&[]);
    let b2 = unit.new_block(&[]);
    let b3 = unit.new_block(&[Type::Int32]);
    let mut made = Vec::new();
    unit.with_block(b0, |mut block| {
        let x = block.fetch_arg(0);
        let y = block.fetch_arg(1);
        let c = block.more([x, y]);
        made.extend([x, y, c]);
        block.do_if(c).branch(&b1, &[]).branch(&b2, &[])
    });
    unit.with_block(b1, |mut block| {
        let d = block.sub([made[0], made[1]]);
        made.push(d);
        block.branch(&b3, &[d])
    });
    unit.with_block(b2, |block| block.branch(&b3, &[made[1]]));
    unit.with_block(b3, |mut block| {
        let p = block.fetch_arg(0);
        made.push(p);
        block.ret(&[p, made[0]])
    });
    (unit, made)
}

#[test]
fn settings_default_to_volatile() {
    assert!(Settings::default().volatile);
    let unit = Unit::new();
    assert!(unit.settings.volatile);
    assert_eq!(unit.blocks.len(), 0);
    assert_eq!(unit.instructions.len(), 0);
    assert_eq!(unit.data.len(), 0);
    assert_eq!(unit.signatures.len(), 0);
    assert_eq!(unit.retsig, None);
    assert!(unit.liveness.is_empty());
}

#[test]
fn blocks_and_instructions_are_stored_as_emitted() {
    let (unit, made) = diamond();
    assert_eq!(
        made,
        vec![Instruction(0), Instruction(1), Instruction(2), Instruction(6), Instruction(9)]
    );
    assert_eq!(unit.blocks.len(), 4);
    let ranges: Vec<(u32, u32)> =
        unit.blocks.iter().iter().map(|b| (b.start.0, b.end.0)).collect();
    assert_eq!(ranges, vec![(0, 6), (6, 8), (8, 9), (9, 11)]);
    let sigs: Vec<(u32, u32)> =
        unit.blocks.iter().iter().map(|b| (b.sig_start.0, b.sig_end.0)).collect();
    assert_eq!(sigs, vec![(0, 2), (2, 2), (2, 2), (2, 3)]);
    assert_eq!(
        *unit.instructions.index(Instruction(2)),
        InstData {
            block: Block(0),
            typing: Type::Int32,
            kind: InstKind::More(Instruction(0), Instruction(1))
        }
    );
    assert_eq!(
        *unit.instructions.index(Instruction(7)),
        InstData {
            block: Block(1),
            typing: Type::Void,
            kind: InstKind::Terminator(TermData::Branch(
                Block(3),
                unit_ir::data::DataPart(0),
                unit_ir::data::DataPart(1)
            ))
        }
    );
    assert_eq!(unit.data.iter().to_vec(), vec![made[3], made[1], made[4], made[0]]);
    for (i, inst) in unit.instructions.iter().iter().enumerate() {
        for read in inst.kind.get_insts(&unit.data) {
            assert!((read.0 as usize) < i);
        }
    }
}

#[test]
fn type_of_a_recursive_call_is_the_declared_return_type() {
    let mut unit = Unit::new();
    let b0 = unit.new_block(&[Type::Int32]);
    unit.retsig = Some(Type::Int32);
    let mut calls = Vec::new();
    unit.with_block(b0, |mut block| {
        let n = block.fetch_arg(0);
        let r = block.recurse(&[n, n]);
        calls.push(r);
        block.ret(&[r])
    });
    assert_eq!(unit.instructions.index(calls[0]).typing, Type::Int32);

    let mut unit = Unit::new();
    let b0 = unit.new_block(&[]);
    unit.with_block(b0, |mut block| {
        let r = block.recurse(&[]);
        block.ret(&[r])
    });
    assert_eq!(unit.instructions.index(Instruction(0)).typing, Type::Void);
    assert_eq!(
        unit.human_format(),
        "---b0[]:\n|\t@0 = recur []\n|\t@1 : ret [@0]\n"
    );
}

#[test]
fn successors_are_read_off_the_end_of_a_block() {
    let (unit, _) = diamond();
    let next: Vec<(Option<Block>, Option<Block>)> =
        unit.blocks.iter().iter().map(|b| b.get_next(&unit)).collect();
    assert_eq!(
        next,
        vec![
            (Some(Block(1)), Some(Block(2))),
            (None, Some(Block(3))),
            (None, Some(Block(3))),
            (None, None)
        ]
    );
    let kinds: Vec<InstKind> = unit.instructions.iter().iter().map(|i| i.kind).collect();
    assert_eq!(kinds[4].get_block(), Some(Block(1)));
    assert_eq!(kinds[10].get_block(), None);
    assert_eq!(kinds[3].get_block(), None);
    assert_eq!(kinds[0].get_block(), None);
    assert!(kinds[3].is_term() && kinds[3].is_cond() && !kinds[3].is_jump());
    assert!(kinds[4].is_term() && kinds[4].is_jump() && !kinds[4].is_cond());
    assert!(!kinds[2].is_term() && !kinds[2].is_jump() && !kinds[2].is_cond());
    assert_eq!(kinds[2].get_insts(&unit.data), vec![Instruction(0), Instruction(1)]);
    assert_eq!(kinds[3].get_insts(&unit.data), vec![Instruction(2)]);
    assert_eq!(kinds[10].get_insts(&unit.data), vec![Instruction(9), Instruction(0)]);
    assert_eq!(kinds[0].get_insts(&unit.data), vec![]);
}

#[test]
fn traversals_find_what_control_may_reach() {
    let (unit, _) = diamond();
    let entry = (Some(Block(0)), None);
    assert_eq!(unit.depth_first(entry, Block::max()), vec![true, true, true, true]);
    assert_eq!(unit.depth_first(entry, Block(1)), vec![true, false, true, true]);
    assert_eq!(unit.depth_first(entry, Block(3)), vec![true, true, true, false]);
    assert_eq!(unit.depth_first(entry, Block(0)), vec![false, false, false, false]);
    assert_eq!(
        unit.depth_first((Some(Block(1)), Some(Block(2))), Block(2)),
        vec![false, true, false, true]
    );
    assert_eq!(unit.depth_first((None, None), Block::max()), vec![false, false, false, false]);
    assert_eq!(
        unit.width_first_traversal(),
        vec![Block(0), Block(1), Block(2), Block(3)]
    );
    assert_eq!(Unit::new().width_first_traversal(), vec![]);
}

#[test]
fn diamond_passes_the_dependency_check() {
    let (unit, _) = diamond();
    assert_eq!(unit.check_dependencies(), Ok(()));
}

#[test]
fn first_value_read_too_early_is_reported() {
    // b3 reads two values of b1 and one of b2; b0 reaches b3 around both.
    let mut unit = Unit::new();
    let b0 = unit.new_block(&[]);
    let b1 = unit.new_block(&[]);
    let b2 = unit.new_block(&[]);
    let b3 = unit.new_block(&[]);
    let mut made = Vec::new();
    unit.with_block(b0, |mut block| {
        let c = block.iconst(Type::Int32, 1);
        block.do_if(c).branch(&b1, &[]).branch(&b2, &[])
    });
    unit.with_block(b2, |mut block| {
        made.push(block.iconst(Type::Int32, 2));
        block.branch(&b3, &[])
    });
    unit.with_block(b1, |mut block| {
        made.push(block.iconst(Type::Int32, 3));
        made.push(block.iconst(Type::Int32, 4));
        block.branch(&b3, &[])
    });
    unit.with_block(b3, |mut block| {
        let s = block.add([made[0], made[2]]);
        let t = block.add([made[2], made[1]]);
        block.ret(&[s, t])
    });
    // of the blocks whose values are read too early b1 has the least handle;
    // its first reader is the first sum, whose first operand of b1 is the second
    assert_eq!(unit.check_dependencies(), Err((Instruction(9), made[2])));
    assert_eq!(
        unit.finalize(Type::Int32).err(),
        Some(FinalizeError::Dependency(Instruction(9), Instruction(7)))
    );
}

#[test]
fn dead_code_is_removed_and_the_rest_is_kept() {
    let (mut unit, made) = diamond();
    let before = unit.instructions.iter().to_vec();
    assert_eq!(unit.remove_unused(), Ok(()));
    let after = unit.instructions.iter().to_vec();
    assert_eq!(after, before);
    let _ = made;

    let mut unit = Unit::new();
    unit.settings.volatile = false;
    let b0 = unit.new_block(&[]);
    unit.with_block(b0, |mut block| {
        let a = block.iconst(Type::Int32, 1);
        let b = block.add([a, a]);
        let c = block.add([b, a]);
        let _ = block.add([c, b]);
        block.ret(&[b])
    });
    assert_eq!(unit.remove_unused(), Ok(()));
    let kinds: Vec<InstKind> = unit.instructions.iter().iter().map(|i| i.kind).collect();
    assert_eq!(kinds[0], InstKind::IConst(1));
    assert_eq!(kinds[1], InstKind::Add(Instruction(0), Instruction(0)));
    assert_eq!(kinds[2], InstKind::Tombstone);
    assert_eq!(kinds[3], InstKind::Tombstone);
    assert!(kinds[4].is_term());
    assert_eq!(unit.instructions.index(Instruction(2)).typing, Type::Void);
    assert_eq!(unit.instructions.index(Instruction(2)).block, Block(0));
}

#[test]
fn volatile_unit_is_left_as_it_is_where_something_is_unused() {
    let mut unit = Unit::new();
    let b0 = unit.new_block(&[]);
    unit.with_block(b0, |mut block| {
        let a = block.iconst(Type::Int32, 1);
        let _ = block.iconst(Type::Int32, 2);
        let _ = block.iconst(Type::Int32, 3);
        block.ret(&[a])
    });
    let before = unit.instructions.iter().to_vec();
    assert_eq!(unit.remove_unused(), Err(Instruction(1)));
    assert_eq!(unit.instructions.iter().to_vec(), before);
    unit.settings.volatile = false;
    assert_eq!(unit.remove_unused(), Ok(()));
    unit.settings.volatile = true;
    // a tombstone is not used either
    assert_eq!(unit.remove_unused(), Err(Instruction(1)));
}

#[test]
fn liveness_tags_of_the_diamond() {
    let (mut unit, made) = diamond();
    unit.annotate_liveness();
    let (x, y, c, d, p) = (made[0], made[1], made[2], made[3], made[4]);
    // x is read by the return of b3, y by b1 and b2
    assert_eq!(unit.liveness_of(Block(0), x), Some(LiveData::Alive));
    assert_eq!(unit.liveness_of(Block(0), y), Some(LiveData::Alive));
    assert_eq!(unit.liveness_of(Block(0), c), Some(LiveData::Partial(Instruction(3))));
    assert_eq!(unit.liveness_of(Block(1), x), Some(LiveData::Alive));
    assert_eq!(unit.liveness_of(Block(1), y), Some(LiveData::Partial(Instruction(6))));
    assert_eq!(unit.liveness_of(Block(1), d), Some(LiveData::Partial(Instruction(7))));
    assert_eq!(unit.liveness_of(Block(2), x), Some(LiveData::Alive));
    assert_eq!(unit.liveness_of(Block(2), y), Some(LiveData::Partial(Instruction(8))));
    assert_eq!(unit.liveness_of(Block(3), x), Some(LiveData::Partial(Instruction(10))));
    assert_eq!(unit.liveness_of(Block(3), p), Some(LiveData::Partial(Instruction(10))));
    assert_eq!(unit.liveness_of(Block(3), y), None);
    assert_eq!(unit.liveness_of(Block(2), d), None);
    assert_eq!(unit.liveness_of(Block(0), d), None);
    assert_eq!(unit.liveness.len(), 10);
    // every value that is alive in a block is read in a block behind it
    for b in 0..4u32 {
        for v in 0..11u32 {
            if unit.liveness_of(Block(b), Instruction(v)) == Some(LiveData::Alive) {
                let behind: Vec<usize> = (0..4usize).filter(|t| *t as u32 > b).collect();
                let read_later = unit.instructions.iter().iter().any(|inst| {
                    behind.contains(&(inst.block.0 as usize))
                        && inst.kind.get_insts(&unit.data).contains(&Instruction(v))
                });
                assert!(read_later);
            }
        }
    }
    // a second run gives the same tags
    let first = unit.liveness.clone();
    unit.annotate_liveness();
    assert_eq!(unit.liveness, first);
}

#[test]
fn text_of_every_kind_of_instruction() {
    let (unit, _) = diamond();
    let unit = unit.finalize(Type::Int32).unwrap();
    assert_eq!(
        unit.human_format(),
        "---b0[Int32, Int32]:\n\
         |\t@0 = fetchArg [0]\n\
         |\t@1 = fetchArg [1]\n\
         |\t@2 = more @0, @1\n\
         |\t@3 : if @2\n\
         |\t@4 : br b1 []\n\
         |\t@5 : br b2 []\n\
         ---b1[]:\n\
         |\t@6 = sub @0, @1\n\
         |\t@7 : br b3 [@6]\n\
         ---b2[]:\n\
         |\t@8 : br b3 [@1]\n\
         ---b3[Int32]:\n\
         |\t@9 = fetchArg [0]\n\
         |\t@10 : ret [@9, @0]\n\
         ---return(Int32)\n"
    );
    let data = &unit;
    assert_eq!(InstKind::Tombstone.human_format(data), "= _");
    assert_eq!(InstKind::IConst(0).human_format(data), "= const 0");
    assert_eq!(InstKind::IConst(-1).human_format(data), "= const -1");
    assert_eq!(InstKind::IConst(1234567890).human_format(data), "= const 1234567890");
    assert_eq!(
        InstKind::IConst(isize::MIN).human_format(data),
        format!("= const {}", isize::MIN)
    );
    assert_eq!(
        InstKind::IConst(isize::MAX).human_format(data),
        format!("= const {}", isize::MAX)
    );
    assert_eq!(InstKind::FetchArg(10).human_format(data), "= fetchArg [10]");
    assert_eq!(
        InstKind::Add(Instruction(4294967295), Instruction(100)).human_format(data),
        "= add @4294967295, @100"
    );
    assert_eq!(
        InstKind::Less(Instruction(1), Instruction(2)).human_format(data),
        "= less @1, @2"
    );
    assert_eq!(TermData::DoIf(Instruction(19)).human_format(data), ": if @19");
    assert_eq!(
        unit.instructions.index(Instruction(10)).human_format(data),
        ": ret [@9, @0]"
    );
}

#[test]
fn sealed_block_can_be_written() {
    let mut unit = Unit::new();
    let entry = unit.new_block(&[]).seal();
    assert_eq!(entry.index(), Block(0));
    let written = unit.with_block(entry, |block| block.ret(&[]));
    assert_eq!(written.index(), Block(0));
    let unit = unit.finalize(Type::Void).unwrap();
    assert_eq!(unit.human_format(), "---b0[]:\n|\t@0 : ret []\n---return(Void)\n");
}

#[test]
fn handle_of_a_written_block_takes_branches() {
    let mut unit = Unit::new();
    let b0 = unit.new_block(&[]);
    let b1: BlockHandle<False, False> = unit.new_block(&[]);
    let b1 = unit.with_block(b1, |block| block.ret(&[]));
    unit.with_block(b0, |block| block.branch(&b1, &[]));
    let unit = unit.finalize(Type::Void).unwrap();
    // the entry block was written last and comes first
    assert_eq!(
        unit.human_format(),
        "---b0[]:\n|\t@1 : br b1 []\n---b1[]:\n|\t@0 : ret []\n---return(Void)\n"
    );
    assert_eq!(unit.width_first_traversal(), vec![Block(0), Block(1)]);
}
