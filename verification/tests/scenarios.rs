use unit_ir::builder::FinalizeError;
use unit_ir::data::{Block, InstKind, Instruction, LiveData, TermData, Type, Unit};

#[test]
fn fib() {
    let mut unit = Unit::new();
    let b0 = unit.new_block(&[Type::Int32]);
    let b1 = unit.new_block(&[]);
    let mut n = Default::default();
    unit.with_block(b0, |mut block| {
        n = block.fetch_arg(0);
        let two = block.iconst(Type::Int32, 2);
        let cond = block.less([n, two]);
        block.do_if(cond).ret(&[n]).branch(&b1, &[])
    });
    unit.with_block(b1, |mut block| {
        let one = block.iconst(Type::Int32, 1);
        let a = block.sub([n, one]);
        let fa = block.recurse(&[a]);
        let two = block.iconst(Type::Int32, 2);
        let b = block.sub([n, two]);
        let fb = block.recurse(&[b]);
        let o = block.add([fa, fb]);
        block.ret(&[o])
    });
    let unit = unit.finalize(Type::Int32).unwrap();
    let text = unit.human_format();
    println!("{}", text);
    let expected = "---b0[Int32]:\n\
                    |\t@0 = fetchArg [0]\n\
                    |\t@1 = const 2\n\
                    |\t@2 = less @0, @1\n\
                    |\t@3 : if @2\n\
                    |\t@4 : ret [@0]\n\
                    |\t@5 : br b1 []\n\
                    ---b1[]:\n\
                    |\t@6 = const 1\n\
                    |\t@7 = sub @0, @6\n\
                    |\t@8 = recur [@7]\n\
                    |\t@9 = const 2\n\
                    |\t@10 = sub @0, @9\n\
                    |\t@11 = recur [@10]\n\
                    |\t@12 = add @8, @11\n\
                    |\t@13 : ret [@12]\n\
                    ---return(Int32)\n";
    assert_eq!(text, expected);
    assert_eq!(text.matches("---b").count(), 2);
    assert_eq!(text.matches("recur").count(), 2);
    assert_eq!(unit.instructions.len(), 14);
    for inst in unit.instructions.iter() {
        assert_ne!(inst.kind, InstKind::Tombstone);
    }
}

#[test]
fn construct() {
    let mut unit = Unit::new();
    let b0 = unit.new_block(&[]);
    unit.with_block(b0, |mut block| {
        let p = block.iconst(Type::Int32, 1);
        let a = block.iconst(Type::Int32, 5);
        let b = block.iconst(Type::Int32, 10);
        let c = block.iconst(Type::Int32, 0);
        let d = block.add([a, b]);
        block.do_if(p).ret(&[c]).ret(&[d])
    });
    let unit = unit.finalize(Type::Int32).unwrap();
    let text = unit.human_format();
    println!("{}", text);
    let expected = "---b0[]:\n\
                    |\t@0 = const 1\n\
                    |\t@1 = const 5\n\
                    |\t@2 = const 10\n\
                    |\t@3 = const 0\n\
                    |\t@4 = add @1, @2\n\
                    |\t@5 : if @0\n\
                    |\t@6 : ret [@3]\n\
                    |\t@7 : ret [@4]\n\
                    ---return(Int32)\n";
    assert_eq!(text, expected);
}

#[test]
fn lots_unused() {
    let mut unit = Unit::new();
    unit.settings.volatile = false;
    let b0 = unit.new_block(&[]);
    unit.with_block(b0, |mut block| {
        let a = block.iconst(Type::Int32, 69);
        let _ = block.iconst(Type::Int32, 420);
        let b = block.iconst(Type::Int32, 1);
        let _ = block.add([a, b]);
        block.ret(&[])
    });
    let unit = unit.finalize(Type::Void).unwrap();
    let text = unit.human_format();
    println!("{}", text);
    let expected = "---b0[]:\n\
                    |\t@0 = _\n\
                    |\t@1 = _\n\
                    |\t@2 = _\n\
                    |\t@3 = _\n\
                    |\t@4 : ret []\n\
                    ---return(Void)\n";
    assert_eq!(text, expected);
    for i in 0..4 {
        let inst = unit.instructions.get(Instruction(i)).unwrap();
        assert_eq!(inst.kind, InstKind::Tombstone);
        assert_eq!(inst.typing, Type::Void);
        assert_eq!(inst.block, Block(0));
    }
}

#[test]
fn some_unused() {
    let mut unit = Unit::new();
    unit.settings.volatile = false;
    let b0 = unit.new_block(&[]);
    unit.with_block(b0, |mut block| {
        let _ = block.iconst(Type::Int32, 1);
        let a = block.iconst(Type::Int32, 5);
        let b = block.iconst(Type::Int32, 10);
        let _ = block.iconst(Type::Int32, 0);
        let d = block.add([a, b]);
        block.ret(&[d])
    });
    let unit = unit.finalize(Type::Void).unwrap();
    let text = unit.human_format();
    println!("{}", text);
    let expected = "---b0[]:\n\
                    |\t@0 = _\n\
                    |\t@1 = const 5\n\
                    |\t@2 = const 10\n\
                    |\t@3 = _\n\
                    |\t@4 = add @1, @2\n\
                    |\t@5 : ret [@4]\n\
                    ---return(Void)\n";
    assert_eq!(text, expected);
}

#[test]
fn invalid_use() {
    let mut unit = Unit::new();
    let b0 = unit.new_block(&[]);
    let b1 = unit.new_block(&[]);
    let b2 = unit.new_block(&[]);
    let b3 = unit.new_block(&[]);
    let mut n = Default::default();
    unit.with_block(b0, |mut block| {
        let c = block.iconst(Type::Int32, 1);
        block.do_if(c).branch(&b1, &[]).branch(&b2, &[])
    });
    unit.with_block(b1, |mut block| {
        n = block.iconst(Type::Int32, 2);
        block.branch(&b3, &[])
    });
    unit.with_block(b2, |block| block.branch(&b3, &[]));
    unit.with_block(b3, |block| block.ret(&[n]));
    let out = unit.finalize(Type::Int32);
    assert_eq!(out.err(), Some(FinalizeError::Dependency(Instruction(7), Instruction(4))));
}

#[test]
fn unused_value_in_volatile_unit_is_an_error() {
    let mut unit = Unit::new();
    assert!(unit.settings.volatile);
    let b0 = unit.new_block(&[]);
    unit.with_block(b0, |mut block| {
        let a = block.iconst(Type::Int32, 69);
        let _ = block.iconst(Type::Int32, 420);
        let b = block.iconst(Type::Int32, 1);
        let _ = block.add([a, b]);
        block.ret(&[])
    });
    let out = unit.finalize(Type::Void);
    assert_eq!(out.err(), Some(FinalizeError::Unused(Instruction(0))));
}

#[test]
fn value_of_the_entry_block_may_be_used_anywhere() {
    let mut unit = Unit::new();
    let b0 = unit.new_block(&[]);
    let b1 = unit.new_block(&[]);
    let b2 = unit.new_block(&[]);
    let b3 = unit.new_block(&[]);
    let mut n = Default::default();
    unit.with_block(b0, |mut block| {
        n = block.iconst(Type::Int32, 1);
        block.do_if(n).branch(&b1, &[]).branch(&b2, &[])
    });
    unit.with_block(b1, |block| block.branch(&b3, &[]));
    unit.with_block(b2, |block| block.branch(&b3, &[]));
    unit.with_block(b3, |block| block.ret(&[n]));
    let unit = unit.finalize(Type::Int32).unwrap();
    assert!(unit.check_dependencies().is_ok());
    // the value is needed behind the entry block and behind both branches
    assert_eq!(unit.liveness_of(Block(0), n), Some(LiveData::Alive));
    assert_eq!(unit.liveness_of(Block(1), n), Some(LiveData::Alive));
    assert_eq!(unit.liveness_of(Block(2), n), Some(LiveData::Alive));
    // the last block reads it last in its return
    assert_eq!(unit.liveness_of(Block(3), n), Some(LiveData::Partial(Instruction(6))));
    assert_eq!(unit.liveness.len(), 4);
}

#[test]
fn value_defined_on_a_cycle_is_not_safe_behind_a_way_around_it() {
    // b0 -> b1 | b2 ; b1 -> b3 ; b3 -> b2 | b4 ; b2 -> b3 ; b4 reads a value of b1.
    // The way b0, b2, b3, b4 does not pass b1.
    let mut unit = Unit::new();
    let b0 = unit.new_block(&[]);
    let b1 = unit.new_block(&[]);
    let b2 = unit.new_block(&[]);
    let b3 = unit.new_block(&[]);
    let b4 = unit.new_block(&[]);
    let mut v = Default::default();
    let mut c = Default::default();
    unit.with_block(b0, |mut block| {
        c = block.iconst(Type::Int32, 1);
        block.do_if(c).branch(&b1, &[]).branch(&b2, &[])
    });
    unit.with_block(b1, |mut block| {
        v = block.iconst(Type::Int32, 2);
        block.branch(&b3, &[])
    });
    let b3 = unit.with_block(b3, |block| block.do_if(c).branch(&b2, &[]).branch(&b4, &[]));
    unit.with_block(b2, |block| block.branch(&b3, &[]));
    unit.with_block(b4, |block| block.ret(&[v]));
    let checked = unit.check_dependencies();
    assert_eq!(checked, Err((Instruction(10), v)));
    assert!(matches!(unit.finalize(Type::Int32), Err(FinalizeError::Dependency(_, _))));
}

#[test]
fn loop_with_a_value_from_before_it() {
    // b0 -> b1 ; b1 -> b2 | b3 ; b2 -> b1 ; b1 and b3 read a value of b0.
    let mut unit = Unit::new();
    let b0 = unit.new_block(&[]);
    let b1 = unit.new_block(&[]);
    let b2 = unit.new_block(&[]);
    let b3 = unit.new_block(&[]);
    let mut v = Default::default();
    unit.with_block(b0, |mut block| {
        v = block.iconst(Type::Int32, 7);
        block.branch(&b1, &[])
    });
    let b1 = unit.with_block(b1, |mut block| {
        let one = block.iconst(Type::Int32, 1);
        let w = block.less([v, one]);
        block.do_if(w).branch(&b2, &[]).branch(&b3, &[])
    });
    unit.with_block(b2, |block| block.branch(&b1, &[]));
    unit.with_block(b3, |block| block.ret(&[v]));
    let unit = unit.finalize(Type::Int32).unwrap();
    assert_eq!(unit.width_first_traversal(), vec![Block(0), Block(1), Block(2), Block(3)]);
    assert_eq!(unit.liveness_of(Block(0), v), Some(LiveData::Alive));
    assert_eq!(unit.liveness_of(Block(1), v), Some(LiveData::Alive));
    assert_eq!(unit.liveness_of(Block(2), v), Some(LiveData::Alive));
    assert_eq!(unit.liveness_of(Block(3), v), Some(LiveData::Partial(Instruction(8))));
    // the comparison is read last by the conditional of its block
    assert_eq!(unit.liveness_of(Block(1), Instruction(3)), Some(LiveData::Partial(Instruction(4))));
    assert_eq!(unit.liveness_of(Block(1), Instruction(2)), Some(LiveData::Partial(Instruction(3))));
    assert_eq!(unit.liveness_of(Block(2), Instruction(2)), None);
    assert_eq!(unit.liveness.len(), 6);
}

#[test]
fn block_that_control_cannot_reach_keeps_its_end() {
    let mut unit = Unit::new();
    unit.settings.volatile = false;
    let b0 = unit.new_block(&[]);
    let b1 = unit.new_block(&[]);
    unit.with_block(b0, |block| block.ret(&[]));
    unit.with_block(b1, |mut block| {
        let a = block.iconst(Type::Int32, 3);
        let _ = block.iconst(Type::Int32, 4);
        block.ret(&[a])
    });
    let unit = unit.finalize(Type::Void).unwrap();
    assert_eq!(unit.instructions.len(), 4);
    assert!(matches!(
        unit.instructions.get(Instruction(0)).unwrap().kind,
        InstKind::Terminator(TermData::Branch(_, _, _))
    ));
    // the return of the second block is kept, and so is what it returns
    assert_eq!(unit.instructions.get(Instruction(1)).unwrap().kind, InstKind::IConst(3));
    assert_eq!(unit.instructions.get(Instruction(2)).unwrap().kind, InstKind::Tombstone);
    assert_eq!(unit.instructions.get(Instruction(2)).unwrap().block, Block(1));
    assert!(matches!(
        unit.instructions.get(Instruction(3)).unwrap().kind,
        InstKind::Terminator(TermData::Branch(_, _, _))
    ));
    assert_eq!(
        unit.human_format(),
        "---b0[]:\n|\t@0 : ret []\n---b1[]:\n|\t@1 = const 3\n|\t@2 = _\n|\t@3 : ret [@1]\n---return(Void)\n"
    );
    // only the blocks that control may reach are tagged
    assert_eq!(unit.liveness.len(), 0);
}

#[test]
fn two_blocks_that_only_return_keep_their_returns() {
    let mut unit = Unit::new();
    unit.settings.volatile = false;
    let b0 = unit.new_block(&[]);
    let b1 = unit.new_block(&[]);
    unit.with_block(b0, |block| block.ret(&[]));
    unit.with_block(b1, |block| block.ret(&[]));
    let unit = unit.finalize(Type::Void).unwrap();
    for i in 0..2 {
        assert!(unit.instructions.get(Instruction(i)).unwrap().kind.is_jump());
    }
    let second = unit.blocks.get(Block(1)).unwrap();
    assert_eq!((second.start, second.end), (Instruction(1), Instruction(2)));
}

#[test]
fn volatile_unit_with_a_block_that_control_cannot_reach_is_finalized() {
    let mut unit = Unit::new();
    let b0 = unit.new_block(&[]);
    let b1 = unit.new_block(&[]);
    unit.with_block(b0, |block| block.ret(&[]));
    unit.with_block(b1, |block| block.ret(&[]));
    let unit = unit.finalize(Type::Void).unwrap();
    assert_eq!(
        unit.human_format(),
        "---b0[]:\n|\t@0 : ret []\n---b1[]:\n|\t@1 : ret []\n---return(Void)\n"
    );
}

#[test]
fn dead_value_in_a_block_that_control_cannot_reach_is_an_error_in_a_volatile_unit() {
    let mut unit = Unit::new();
    let b0 = unit.new_block(&[]);
    let b1 = unit.new_block(&[]);
    unit.with_block(b0, |block| block.ret(&[]));
    unit.with_block(b1, |mut block| {
        let _ = block.iconst(Type::Int32, 3);
        block.ret(&[])
    });
    assert_eq!(unit.finalize(Type::Void).err(), Some(FinalizeError::Unused(Instruction(1))));
}

#[test]
fn unit_without_blocks_is_finalized() {
    let unit = Unit::new().finalize(Type::Void).unwrap();
    assert_eq!(unit.human_format(), "---return(Void)\n");
    assert_eq!(unit.retsig, Some(Type::Void));
}

#[test]
fn block_that_was_not_written_has_no_instructions() {
    let mut unit = Unit::new();
    let b0 = unit.new_block(&[]);
    let b1 = unit.new_block(&[Type::Int32, Type::Void]);
    unit.with_block(b0, |block| block.branch(&b1, &[]));
    let unit = unit.finalize(Type::Void).unwrap();
    assert_eq!(
        unit.human_format(),
        "---b0[]:\n|\t@0 : br b1 []\n---b1[Int32, Void]:\n---return(Void)\n"
    );
}

#[test]
fn finalized_unit_keeps_its_handles() {
    let mut unit = Unit::new();
    unit.settings.volatile = false;
    let b0 = unit.new_block(&[Type::Int32]);
    let mut handles = Vec::new();
    unit.with_block(b0, |mut block| {
        handles.push(block.fetch_arg(0));
        handles.push(block.iconst(Type::Int32, -5));
        handles.push(block.more([handles[0], handles[1]]));
        handles.push(block.iconst(Type::Int32, 9));
        block.ret(&[handles[2]])
    });
    assert_eq!(handles, vec![Instruction(0), Instruction(1), Instruction(2), Instruction(3)]);
    let before = unit.instructions.iter().to_vec();
    let unit = unit.finalize(Type::Int32).unwrap();
    assert_eq!(unit.instructions.len(), before.len());
    assert_eq!(unit.blocks.len(), 1);
    let block = unit.blocks.get(Block(0)).unwrap();
    assert_eq!((block.start, block.end), (Instruction(0), Instruction(5)));
    for (i, old) in before.iter().enumerate() {
        let new = unit.instructions.get(Instruction(i as u32)).unwrap();
        assert_eq!(new.block, old.block);
        if i == 3 {
            assert_eq!(new.kind, InstKind::Tombstone);
        } else {
            assert_eq!(new, old);
        }
    }
    assert_eq!(
        unit.human_format(),
        "---b0[Int32]:\n|\t@0 = fetchArg [0]\n|\t@1 = const -5\n|\t@2 = more @0, @1\n|\t@3 = _\n|\t@4 : ret [@2]\n---return(Int32)\n"
    );
}

#[test]
fn every_block_of_a_finalized_unit_ends_in_its_terminators() {
    let mut unit = Unit::new();
    unit.settings.volatile = false;
    let b0 = unit.new_block(&[]);
    let b1 = unit.new_block(&[]);
    unit.with_block(b0, |mut block| {
        let c = block.iconst(Type::Int32, 1);
        let _ = block.iconst(Type::Int32, 2);
        block.do_if(c).ret(&[]).branch(&b1, &[])
    });
    unit.with_block(b1, |mut block| {
        let _ = block.iconst(Type::Int32, 3);
        block.ret(&[])
    });
    let unit = unit.finalize(Type::Void).unwrap();
    let is_branch = |i: u32| {
        matches!(
            unit.instructions.get(Instruction(i)).unwrap().kind,
            InstKind::Terminator(TermData::Branch(_, _, _))
        )
    };
    let is_term = |i: u32| unit.instructions.get(Instruction(i)).unwrap().kind.is_term();
    // b0 is [0, 5): a conditional and two branches at its end, nothing else
    assert!(!is_term(0) && !is_term(1));
    assert_eq!(
        unit.instructions.get(Instruction(2)).unwrap().kind,
        InstKind::Terminator(TermData::DoIf(Instruction(0)))
    );
    assert!(is_branch(3) && is_branch(4));
    // b1 is [5, 7): one branch at its end
    assert!(!is_term(5));
    assert!(is_branch(6));
    let b0 = unit.blocks.get(Block(0)).unwrap();
    assert_eq!(b0.get_next(&unit), (None, Some(Block(1))));
    let b1 = unit.blocks.get(Block(1)).unwrap();
    assert_eq!(b1.get_next(&unit), (None, None));
}

#[test]
fn removing_dead_code_twice_removes_what_once_does() {
    let mut unit = Unit::new();
    unit.settings.volatile = false;
    let b0 = unit.new_block(&[]);
    let b1 = unit.new_block(&[]);
    let b2 = unit.new_block(&[]);
    unit.with_block(b0, |mut block| {
        let a = block.iconst(Type::Int32, 1);
        let b = block.iconst(Type::Int32, 2);
        let _ = block.sub([a, b]);
        block.do_if(a).branch(&b1, &[b]).ret(&[])
    });
    unit.with_block(b1, |mut block| {
        let x = block.iconst(Type::Int32, 3);
        block.ret(&[x])
    });
    unit.with_block(b2, |mut block| {
        let y = block.iconst(Type::Int32, 4);
        block.ret(&[y])
    });
    assert_eq!(unit.remove_unused(), Ok(()));
    let once = unit.instructions.iter().to_vec();
    assert_eq!(unit.remove_unused(), Ok(()));
    let twice = unit.instructions.iter().to_vec();
    assert_eq!(once, twice);
    let removed: Vec<usize> =
        (0..once.len()).filter(|i| once[*i].kind == InstKind::Tombstone).collect();
    assert_eq!(removed, vec![2]);
}
