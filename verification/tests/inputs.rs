use vm_core::AdviceSet;
use vm_core::Felt;
use vm_core::ProgramInputs;
use vm_core::Word;
use vm_core::advice::MerkleTree;
use vm_core::field::MODULUS;
use vm_core::field::word_to_bytes;
use vm_core::inputs::AdviceMap;
use vm_core::inputs::InputError;

fn word(a: u64, b: u64, c: u64, d: u64) -> Word {
    [Felt::new(a), Felt::new(b), Felt::new(c), Felt::new(d)]
}

fn ints(w: &Word) -> [u64; 4] {
    [w[0].as_int(), w[1].as_int(), w[2].as_int(), w[3].as_int()]
}

fn tree_of(leaves: Vec<Word>) -> AdviceSet {
    AdviceSet::MerkleTree(MerkleTree::new(leaves).unwrap())
}

#[test]
fn stack_is_reversed_tape_kept_and_set_registered() {
    let set = tree_of(vec![word(1, 0, 0, 0), word(2, 0, 0, 0)]);
    let root = set.root();
    let key = word_to_bytes(&root);

    let inputs = ProgramInputs::new(&[1, 2], &[9, 9, 9], vec![set]).unwrap();
    let stack: Vec<u64> = inputs.stack_init().iter().map(|f| f.as_int()).collect();
    assert_eq!(stack, vec![2, 1]);
    let tape: Vec<u64> = inputs.advice_tape().iter().map(|f| f.as_int()).collect();
    assert_eq!(tape, vec![9, 9, 9]);

    let (_, _, _, sets) = inputs.into_parts();
    let found = sets.get(&key).expect("the set must be retrievable by its root key");
    assert_eq!(ints(&found.root()), ints(&root));
}

#[test]
fn duplicate_roots_are_rejected() {
    let a = tree_of(vec![word(1, 0, 0, 0), word(2, 0, 0, 0)]);
    let b = tree_of(vec![word(1, 0, 0, 0), word(2, 0, 0, 0)]);
    let key = word_to_bytes(&a.root());

    let r = ProgramInputs::new(&[1, 2], &[], vec![a, b]);
    match r {
        Err(InputError::DuplicateAdviceRoot(k)) => assert_eq!(k, key),
        _ => panic!("construction must fail with DuplicateAdviceRoot"),
    }
}

#[test]
fn distinct_roots_are_each_retrievable() {
    let a = tree_of(vec![word(1, 0, 0, 0), word(2, 0, 0, 0)]);
    let b = tree_of(vec![word(3, 0, 0, 0), word(4, 0, 0, 0)]);
    let key_a = word_to_bytes(&a.root());
    let key_b = word_to_bytes(&b.root());
    let root_a = ints(&a.root());
    let root_b = ints(&b.root());
    assert_ne!(key_a, key_b);

    let inputs = ProgramInputs::new(&[], &[], vec![a, b]).unwrap();
    let (_, _, _, sets) = inputs.into_parts();
    assert_eq!(sets.len(), 2);
    assert_eq!(ints(&sets.get(&key_a).unwrap().root()), root_a);
    assert_eq!(ints(&sets.get(&key_b).unwrap().root()), root_b);
}

#[test]
fn seventeen_stack_entries_are_accepted() {
    // The number of initial stack values is documented as unbounded: only
    // the first 16 land in stack registers, but construction itself accepts
    // any count.
    let values: Vec<u64> = (1..=17).collect();
    let inputs = ProgramInputs::from_stack_inputs(&values).unwrap();
    assert_eq!(inputs.stack_init().len(), 17);
    assert_eq!(inputs.stack_init()[0].as_int(), 17);
    assert_eq!(inputs.stack_init()[16].as_int(), 1);
}

#[test]
fn modulus_on_tape_is_rejected_with_tape_tag() {
    let r = ProgramInputs::new(&[1], &[5, MODULUS, 7], vec![]);
    match r {
        Err(InputError::NotFieldElement(value, name)) => {
            assert_eq!(value, MODULUS);
            assert_eq!(name, "advice tape value");
        }
        _ => panic!("construction must fail with NotFieldElement"),
    }
}

#[test]
fn modulus_on_stack_is_rejected_with_stack_tag() {
    let r = ProgramInputs::new(&[3, MODULUS], &[], vec![]);
    match r {
        Err(InputError::NotFieldElement(value, name)) => {
            assert_eq!(value, MODULUS);
            assert_eq!(name, "initial stack value");
        }
        _ => panic!("construction must fail with NotFieldElement"),
    }
}

#[test]
fn largest_field_element_is_accepted() {
    let inputs = ProgramInputs::new(&[MODULUS - 1], &[MODULUS - 1], vec![]).unwrap();
    assert_eq!(inputs.stack_init()[0].as_int(), MODULUS - 1);
    assert_eq!(inputs.advice_tape()[0].as_int(), MODULUS - 1);
}

#[test]
fn none_matches_empty_construction() {
    let none = ProgramInputs::none();
    let built = ProgramInputs::new(&[], &[], vec![]).unwrap();
    assert_eq!(none.stack_init().len(), built.stack_init().len());
    assert_eq!(none.advice_tape().len(), built.advice_tape().len());
    let (ns, nt, nm, nx) = none.into_parts();
    let (bs, bt, bm, bx) = built.into_parts();
    assert_eq!(ns.len(), bs.len());
    assert_eq!(nt.len(), bt.len());
    assert_eq!(nm.len(), bm.len());
    assert_eq!(nx.len(), bx.len());
}

#[test]
fn none_decomposes_into_empty_containers() {
    let (stack, tape, map, sets) = ProgramInputs::none().into_parts();
    assert!(stack.is_empty());
    assert!(tape.is_empty());
    assert_eq!(map.len(), 0);
    assert_eq!(sets.len(), 0);
}

#[test]
fn decompose_is_lossless() {
    let set = tree_of(vec![word(5, 0, 0, 0), word(6, 0, 0, 0)]);
    let key = word_to_bytes(&set.root());
    let mut map = AdviceMap::new();
    map.insert(vec![7u8; 32], vec![Felt::new(11), Felt::new(12)]);

    let inputs = ProgramInputs::with_advice_map(&[1, 2, 3], &[4, 5], map, vec![set]).unwrap();
    let observed_stack: Vec<u64> = inputs.stack_init().iter().map(|f| f.as_int()).collect();
    let observed_tape: Vec<u64> = inputs.advice_tape().iter().map(|f| f.as_int()).collect();

    let (stack, tape, map, sets) = inputs.into_parts();
    let part_stack: Vec<u64> = stack.iter().map(|f| f.as_int()).collect();
    let part_tape: Vec<u64> = tape.iter().map(|f| f.as_int()).collect();
    assert_eq!(part_stack, observed_stack);
    assert_eq!(part_stack, vec![3, 2, 1]);
    assert_eq!(part_tape, observed_tape);
    assert_eq!(part_tape, vec![4, 5]);
    let values = map.get(&vec![7u8; 32]).unwrap();
    assert_eq!(values.iter().map(|f| f.as_int()).collect::<Vec<u64>>(), vec![11, 12]);
    assert!(sets.get(&key).is_some());
}

#[test]
fn advice_map_insert_overwrites_existing_key() {
    let mut map = AdviceMap::new();
    map.insert(vec![1u8; 32], vec![Felt::new(10)]);
    map.insert(vec![2u8; 32], vec![Felt::new(20)]);
    assert_eq!(map.len(), 2);
    map.insert(vec![1u8; 32], vec![Felt::new(30)]);
    assert_eq!(map.len(), 2);
    let values = map.get(&vec![1u8; 32]).unwrap();
    assert_eq!(values.len(), 1);
    assert_eq!(values[0].as_int(), 30);
    assert!(map.get(&vec![3u8; 32]).is_none());
}

#[test]
fn word_encoding_is_little_endian_bytes() {
    let w = word(0x0102030405060708, 1, 0, MODULUS - 1);
    let bytes = word_to_bytes(&w);
    assert_eq!(bytes.len(), 32);
    assert_eq!(&bytes[0..8], &[8, 7, 6, 5, 4, 3, 2, 1]);
    assert_eq!(&bytes[8..16], &[1, 0, 0, 0, 0, 0, 0, 0]);
    assert_eq!(&bytes[16..24], &[0; 8]);
    // MODULUS - 1 == 2^64 - 2^32
    assert_eq!(&bytes[24..32], &[0, 0, 0, 0, 0xff, 0xff, 0xff, 0xff]);
}
