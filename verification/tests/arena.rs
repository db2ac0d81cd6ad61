use unit_ir::data::{Block, DataPart, Instruction, SignaturePart, Type};
use unit_ir::util::{Key, KeyVec};

#[test]
fn keys_count_from_zero() {
    let mut arena: KeyVec<Instruction, u8> = KeyVec::new();
    assert_eq!(arena.len(), 0);
    assert_eq!(arena.next_idx(), Instruction(0));
    assert_eq!(arena.push(7), Instruction(0));
    assert_eq!(arena.push(9), Instruction(1));
    assert_eq!(arena.new_key(), Instruction(2));
    assert_eq!(arena.last_key(), Instruction(1));
    assert_eq!(arena.len(), 2);
    assert_eq!(arena.get(Instruction(1)), Some(&9));
    assert_eq!(arena.get(Instruction(2)), None);
    assert_eq!(*arena.index(Instruction(0)), 7);
    assert_eq!(arena.last(), Some(&9));
    assert_eq!(arena.iter().to_vec(), vec![7, 9]);
}

#[test]
fn values_are_replaced_in_place() {
    let mut arena: KeyVec<Block, u8> = KeyVec::new();
    assert_eq!(arena.last(), None);
    assert!(arena.last_mut().is_none());
    arena.push(1);
    arena.push(2);
    arena.set(Block(0), 5);
    *arena.last_mut().unwrap() = 6;
    assert_eq!(arena.iter().to_vec(), vec![5, 6]);
    assert_eq!(arena.len(), 2);
}

#[test]
fn runs_are_appended_whole() {
    let mut arena: KeyVec<DataPart, Instruction> = KeyVec::new();
    let first = arena.push_slice(&[Instruction(4), Instruction(5)]);
    assert_eq!(first, [DataPart(0), DataPart(2)]);
    let empty = arena.push_slice(&[]);
    assert_eq!(empty, [DataPart(2), DataPart(2)]);
    assert_eq!(arena.run(first[0], first[1]), &[Instruction(4), Instruction(5)]);
    assert_eq!(arena.run(empty[0], empty[1]), &[]);
    let (start, len) = arena.append(&[Instruction(6)]);
    assert_eq!((start, len), (DataPart(2), 1));
    let (start, len) = arena.append_from_iter(vec![Instruction(7), Instruction(8), Instruction(9)]);
    assert_eq!((start, len), (DataPart(3), 3));
    assert_eq!(arena.run(DataPart(1), DataPart(4)), &[Instruction(5), Instruction(6), Instruction(7)]);
    assert_eq!(
        arena.iter().to_vec(),
        vec![
            Instruction(4),
            Instruction(5),
            Instruction(6),
            Instruction(7),
            Instruction(8),
            Instruction(9)
        ]
    );
}

#[test]
fn keys_fit_thirty_two_bits() {
    assert_eq!(<Instruction as Key>::from(0), Some(Instruction(0)));
    assert_eq!(<Block as Key>::from(0xffff_ffff), Some(Block(0xffff_ffff)));
    assert_eq!(<SignaturePart as Key>::from(12), Some(SignaturePart(12)));
    assert_eq!(<DataPart as Key>::from(3), Some(DataPart(3)));
    if usize::BITS > 32 {
        let big = 0xffff_ffff_usize + 1;
        assert_eq!(<Instruction as Key>::from(big), None);
        assert_eq!(<Block as Key>::from(big), None);
        assert_eq!(<SignaturePart as Key>::from(big), None);
        assert_eq!(<DataPart as Key>::from(big), None);
    }
    assert_eq!(Key::into(Instruction(77)), 77);
    assert_eq!(Key::into(Block(78)), 78);
    assert_eq!(Key::into(SignaturePart(79)), 79);
    assert_eq!(Key::into(DataPart(80)), 80);
    assert_eq!(Block::max(), Block(0xffff_ffff));
}

#[test]
fn signature_types_are_stored_in_order() {
    let mut arena: KeyVec<SignaturePart, Type> = KeyVec::new();
    let run = arena.push_slice(&[Type::Int32, Type::Void, Type::Int32]);
    assert_eq!(run, [SignaturePart(0), SignaturePart(3)]);
    assert_eq!(arena.get(SignaturePart(1)), Some(&Type::Void));
}
