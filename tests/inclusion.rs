use merkle_mip::chip::{root_value, swap_values};
use merkle_mip::circuit::{check_inclusion, MyMIPCircuitV2};
use merkle_mip::shape::Combiner;
use merkle_mip::witness::SynthError;

/// The order of the 64-bit prime field 2^64 - 2^32 + 1.
const GOLDILOCKS: u64 = 0xffff_ffff_0000_0001;

fn known(values: &[u64]) -> Vec<Option<u64>> {
    values.iter().map(|v| Some(*v)).collect()
}

fn circuit(leaf: u64, elements: &[u64], indices: &[u64]) -> MyMIPCircuitV2 {
    MyMIPCircuitV2 {
        start_leaf: Some(leaf),
        elements: known(elements),
        indices: known(indices),
    }
}

#[test]
fn test_mymip_v2() {
    let start_leaf = 1u64;
    let elements = vec![1u64, 2, 1, 2];
    let indices = vec![0u64, 0, 0, 0];
    let root: u64 = start_leaf + elements.iter().sum::<u64>();
    let c = circuit(start_leaf, &elements, &indices);
    let public_input = vec![start_leaf, root];
    let r = check_inclusion(GOLDILOCKS, Combiner::Sum, 1 << 10, &c, &public_input);
    assert_eq!(r, Ok(true));
}

#[test]
fn test_merkle_v2() {
    let leaf = 1u64;
    let elements = vec![1u64, 1, 1, 1];
    let indices = vec![0u64, 0, 0, 0];
    let root: u64 = leaf + elements.iter().sum::<u64>();
    let c = circuit(leaf, &elements, &indices);
    let public_input = vec![leaf, root];
    let r = check_inclusion(GOLDILOCKS, Combiner::Sum, 1 << 5, &c, &public_input);
    assert_eq!(r, Ok(true));
}

#[test]
fn additive_scenario_root_is_five() {
    let c = circuit(1, &[1, 1, 1, 1], &[0, 0, 0, 0]);
    assert_eq!(
        root_value(GOLDILOCKS, Combiner::Sum, c.start_leaf, &c.elements, &c.indices),
        Some(5)
    );
    assert_eq!(check_inclusion(GOLDILOCKS, Combiner::Sum, 32, &c, &vec![1, 5]), Ok(true));
}

#[test]
fn flipping_one_bit_keeps_additive_root() {
    let c = circuit(1, &[1, 1, 1, 1], &[0, 1, 0, 0]);
    assert_eq!(check_inclusion(GOLDILOCKS, Combiner::Sum, 32, &c, &vec![1, 5]), Ok(true));
    assert_eq!(swap_values(GOLDILOCKS, Some(2), Some(1), Some(1)), (Some(1), Some(2)));
}

#[test]
fn tampered_root_is_rejected() {
    let c = circuit(1, &[1, 1, 1, 1], &[0, 0, 0, 0]);
    assert_eq!(check_inclusion(GOLDILOCKS, Combiner::Sum, 32, &c, &vec![1, 6]), Ok(false));
}

#[test]
fn tampered_leaf_is_rejected() {
    let c = circuit(1, &[1, 1, 1, 1], &[0, 0, 0, 0]);
    assert_eq!(check_inclusion(GOLDILOCKS, Combiner::Sum, 32, &c, &vec![2, 5]), Ok(false));
}

#[test]
fn missing_public_values_are_rejected() {
    let c = circuit(1, &[1, 1, 1, 1], &[0, 0, 0, 0]);
    assert_eq!(check_inclusion(GOLDILOCKS, Combiner::Sum, 32, &c, &vec![1]), Ok(false));
}

#[test]
fn root_congruent_modulo_order_is_accepted() {
    let c = circuit(1, &[1, 1], &[0, 0]);
    assert_eq!(check_inclusion(101, Combiner::Sum, 8, &c, &vec![102, 3]), Ok(true));
}

#[test]
fn empty_path_root_is_leaf() {
    let c = circuit(9, &[], &[]);
    assert_eq!(root_value(GOLDILOCKS, Combiner::Sum, Some(9), &vec![], &vec![]), Some(9));
    assert_eq!(check_inclusion(GOLDILOCKS, Combiner::Sum, 2, &c, &vec![9, 9]), Ok(true));
    assert_eq!(check_inclusion(GOLDILOCKS, Combiner::Sum, 2, &c, &vec![9, 10]), Ok(false));
}

#[test]
fn non_boolean_bit_is_rejected() {
    // The policy swaps on any non-zero bit, so the additive root is still 5;
    // the boolean gate is what refuses the bit 2.
    let c = circuit(1, &[1, 1, 1, 1], &[2, 0, 0, 0]);
    assert_eq!(
        root_value(GOLDILOCKS, Combiner::Sum, c.start_leaf, &c.elements, &c.indices),
        Some(5)
    );
    assert_eq!(check_inclusion(GOLDILOCKS, Combiner::Sum, 32, &c, &vec![1, 5]), Ok(false));
}

#[test]
fn bit_equal_to_order_minus_one_is_rejected() {
    let c = circuit(1, &[1], &[100]);
    assert_eq!(check_inclusion(101, Combiner::Sum, 8, &c, &vec![1, 2]), Ok(false));
}

#[test]
fn swap_follows_the_bit() {
    assert_eq!(swap_values(GOLDILOCKS, Some(3), Some(4), Some(0)), (Some(3), Some(4)));
    assert_eq!(swap_values(GOLDILOCKS, Some(3), Some(4), Some(1)), (Some(4), Some(3)));
    assert_eq!(swap_values(GOLDILOCKS, Some(3), Some(4), None), (None, None));
    assert_eq!(swap_values(7, Some(3), Some(4), Some(7)), (Some(3), Some(4)));
}

#[test]
fn root_is_deterministic() {
    let c = circuit(3, &[5, 8, 13], &[1, 0, 1]);
    let first = root_value(GOLDILOCKS, Combiner::Quintic, c.start_leaf, &c.elements, &c.indices);
    let second = root_value(GOLDILOCKS, Combiner::Quintic, c.start_leaf, &c.elements, &c.indices);
    assert!(first.is_some());
    assert_eq!(first, second);
}

#[test]
fn unknown_inputs_give_unknown_root() {
    let c = circuit(1, &[1, 1], &[0, 0]);
    let blank = c.without_witnesses();
    assert_eq!(blank.start_leaf, None);
    assert_eq!(blank.elements, vec![None, None]);
    assert_eq!(blank.indices, vec![None, None]);
    assert_eq!(
        root_value(GOLDILOCKS, Combiner::Sum, blank.start_leaf, &blank.elements, &blank.indices),
        None
    );
    assert_eq!(check_inclusion(GOLDILOCKS, Combiner::Sum, 8, &blank, &vec![1, 3]), Ok(false));
}

#[test]
fn quintic_combiner_is_order_sensitive() {
    // (1 + 2*2)^5 + 1 = 3126 = 96 (mod 101); (2 + 2*1)^5 + 2 = 1026 = 16 (mod 101).
    let keep = circuit(1, &[2], &[0]);
    let swap = circuit(1, &[2], &[1]);
    assert_eq!(root_value(101, Combiner::Quintic, Some(1), &keep.elements, &keep.indices), Some(96));
    assert_eq!(root_value(101, Combiner::Quintic, Some(1), &swap.elements, &swap.indices), Some(16));
    assert_eq!(check_inclusion(101, Combiner::Quintic, 8, &keep, &vec![1, 96]), Ok(true));
    assert_eq!(check_inclusion(101, Combiner::Quintic, 8, &swap, &vec![1, 16]), Ok(true));
    assert_eq!(check_inclusion(101, Combiner::Quintic, 8, &swap, &vec![1, 96]), Ok(false));
}

#[test]
fn mismatched_path_lengths_are_refused() {
    let c = circuit(1, &[1, 1], &[0]);
    assert_eq!(
        check_inclusion(GOLDILOCKS, Combiner::Sum, 32, &c, &vec![1, 3]),
        Err(SynthError::LengthMismatch)
    );
}

#[test]
fn too_few_rows_are_refused() {
    let c = circuit(1, &[1, 1, 1, 1], &[0, 0, 0, 0]);
    assert_eq!(
        check_inclusion(GOLDILOCKS, Combiner::Sum, 8, &c, &vec![1, 5]),
        Err(SynthError::NotEnoughRows)
    );
    assert_eq!(check_inclusion(GOLDILOCKS, Combiner::Sum, 9, &c, &vec![1, 5]), Ok(true));
    let empty = circuit(4, &[], &[]);
    assert_eq!(
        check_inclusion(GOLDILOCKS, Combiner::Sum, 1, &empty, &vec![4]),
        Err(SynthError::NotEnoughRows)
    );
}

#[test]
fn too_many_public_values_are_refused() {
    let c = circuit(1, &[], &[]);
    assert_eq!(
        check_inclusion(GOLDILOCKS, Combiner::Sum, 2, &c, &vec![1, 1, 1]),
        Err(SynthError::CellOutOfRange)
    );
}
