use merkle_mip::chip::MyMIPChipV2;
use merkle_mip::circuit::MyMIPCircuitV2;
use merkle_mip::field::{add_mod, is_zero_mod, mul_mod, sub_mod};
use merkle_mip::shape::{combine, Combiner, ConstraintSystem, Gate, Role, ShapeError};
use merkle_mip::witness::{Assignment, CellRef, SynthError};

#[test]
fn field_operations_reduce() {
    assert_eq!(add_mod(7, 5, 4), 2);
    assert_eq!(sub_mod(7, 2, 5), 4);
    assert_eq!(sub_mod(7, 5, 2), 3);
    assert_eq!(mul_mod(7, 3, 5), 1);
    assert_eq!(mul_mod(u64::MAX, u64::MAX - 1, 2), u64::MAX - 2);
    assert_eq!(add_mod(u64::MAX, u64::MAX - 1, u64::MAX - 1), u64::MAX - 2);
    assert!(is_zero_mod(7, 14));
    assert!(!is_zero_mod(7, 15));
}

#[test]
fn combiners_evaluate() {
    assert_eq!(combine(7, Combiner::Sum, 5, 4), 2);
    // (3 + 2*4)^5 + 3 = 161054 = 6 (mod 13)
    assert_eq!(combine(13, Combiner::Quintic, 3, 4), 161054 % 13);
    assert_ne!(combine(101, Combiner::Quintic, 1, 2), combine(101, Combiner::Quintic, 2, 1));
}

#[test]
fn wires_are_numbered_in_order() {
    let mut cs = ConstraintSystem::new(101);
    assert_eq!(cs.declare_wire(Role::Witness), 0);
    assert_eq!(cs.declare_wire(Role::Public), 1);
    assert_eq!(cs.declare_wire(Role::Fixed), 2);
    assert_eq!(cs.roles, vec![Role::Witness, Role::Public, Role::Fixed]);
    assert_eq!(cs.equality, vec![false, false, false]);
    assert_eq!(cs.enable_equality(1), Ok(()));
    assert_eq!(cs.equality, vec![false, true, false]);
    assert_eq!(cs.enable_equality(3), Err(ShapeError::UnknownWire));
}

#[test]
fn gates_on_undeclared_or_misused_wires_are_refused() {
    let mut cs = ConstraintSystem::new(101);
    let value = cs.declare_wire(Role::Witness);
    let public = cs.declare_wire(Role::Public);
    let flag = cs.declare_wire(Role::Fixed);
    assert_eq!(
        cs.declare_gate(Gate::Boolean { flag, c: 9 }),
        Err(ShapeError::UnknownWire)
    );
    assert_eq!(
        cs.declare_gate(Gate::Boolean { flag: 9, c: value }),
        Err(ShapeError::UnknownWire)
    );
    assert_eq!(
        cs.declare_gate(Gate::Boolean { flag, c: public }),
        Err(ShapeError::WrongRole)
    );
    assert_eq!(
        cs.declare_gate(Gate::Boolean { flag: value, c: value }),
        Err(ShapeError::WrongRole)
    );
    assert!(cs.gates.is_empty());
    assert_eq!(cs.declare_gate(Gate::Boolean { flag, c: value }), Ok(()));
    assert_eq!(cs.gates, vec![Gate::Boolean { flag, c: value }]);
}

#[test]
fn configured_chip_declares_three_gates() {
    let mut cs = ConstraintSystem::new(101);
    let cfg = MyMIPCircuitV2::configure(&mut cs, Combiner::Sum);
    assert_eq!(cs.gates.len(), 4);
    assert_eq!(cs.roles.len(), 7);
    assert_eq!(cs.roles[cfg.instance], Role::Public);
    assert!(cs.equality[cfg.col_a] && cs.equality[cfg.instance]);
    let chip = MyMIPChipV2::construct(cfg);
    assert_eq!(chip.config, cfg);
}

#[test]
fn boolean_gate_rejects_two() {
    let mut cs = ConstraintSystem::new(101);
    let c = cs.declare_wire(Role::Witness);
    let flag = cs.declare_wire(Role::Fixed);
    assert_eq!(cs.declare_gate(Gate::Boolean { flag, c }), Ok(()));
    let mut asg = Assignment::new(&cs, 4);
    assert!(asg.is_satisfied(&cs));
    asg.assign(CellRef { wire: flag, row: 2 }, Some(1));
    asg.assign(CellRef { wire: c, row: 2 }, Some(2));
    assert_eq!(asg.eval_gate(101, Gate::Boolean { flag, c }, 2), Some(99));
    assert!(!asg.is_satisfied(&cs));
    asg.assign(CellRef { wire: c, row: 2 }, Some(1));
    assert!(asg.is_satisfied(&cs));
    asg.assign(CellRef { wire: c, row: 2 }, Some(0));
    assert!(asg.is_satisfied(&cs));
}

#[test]
fn swap_gate_checks_the_next_row() {
    let mut cs = ConstraintSystem::new(101);
    let a = cs.declare_wire(Role::Witness);
    let b = cs.declare_wire(Role::Witness);
    let c = cs.declare_wire(Role::Witness);
    let flag = cs.declare_wire(Role::Fixed);
    let g = Gate::Swap { flag, a, b, c };
    assert_eq!(cs.declare_gate(g), Ok(()));
    let mut asg = Assignment::new(&cs, 2);
    asg.assign(CellRef { wire: flag, row: 0 }, Some(1));
    asg.assign(CellRef { wire: a, row: 0 }, Some(3));
    asg.assign(CellRef { wire: b, row: 0 }, Some(4));
    asg.assign(CellRef { wire: c, row: 0 }, Some(1));
    asg.assign(CellRef { wire: a, row: 1 }, Some(4));
    asg.assign(CellRef { wire: b, row: 1 }, Some(3));
    assert_eq!(asg.eval_gate(101, g, 0), Some(0));
    assert!(asg.is_satisfied(&cs));
    asg.assign(CellRef { wire: b, row: 1 }, Some(5));
    assert_eq!(asg.eval_gate(101, g, 0), Some(2));
    assert!(!asg.is_satisfied(&cs));
}

#[test]
fn copies_need_equality_and_range() {
    let mut cs = ConstraintSystem::new(101);
    let x = cs.declare_wire(Role::Witness);
    let y = cs.declare_wire(Role::Witness);
    assert_eq!(cs.enable_equality(x), Ok(()));
    let mut asg = Assignment::new(&cs, 2);
    let cx = CellRef { wire: x, row: 0 };
    let cy = CellRef { wire: y, row: 1 };
    assert_eq!(asg.copy(&cs, cx, cy), Err(SynthError::NotCopyable));
    assert_eq!(
        asg.copy(&cs, cx, CellRef { wire: x, row: 2 }),
        Err(SynthError::CellOutOfRange)
    );
    let cx1 = CellRef { wire: x, row: 1 };
    assert_eq!(asg.copy(&cs, cx, cx1), Ok(()));
    assert!(!asg.is_satisfied(&cs));
    asg.assign(cx, Some(5));
    asg.assign(cx1, Some(106));
    assert!(asg.is_satisfied(&cs));
}

#[test]
fn rows_are_handed_out_in_order() {
    let cs = ConstraintSystem::new(101);
    let mut asg = Assignment::new(&cs, 5);
    assert_eq!(asg.region(2), Ok(0));
    assert_eq!(asg.region(2), Ok(2));
    assert_eq!(asg.region(2), Err(SynthError::NotEnoughRows));
    assert_eq!(asg.region(1), Ok(4));
}

#[test]
fn instance_binds_only_public_wires() {
    let mut cs = ConstraintSystem::new(101);
    let w = cs.declare_wire(Role::Witness);
    let p = cs.declare_wire(Role::Public);
    let mut asg = Assignment::new(&cs, 3);
    assert_eq!(asg.bind_instance(&cs, w, &vec![1]), Err(SynthError::NotPublic));
    assert_eq!(asg.bind_instance(&cs, p, &vec![1, 2, 3, 4]), Err(SynthError::CellOutOfRange));
    assert_eq!(asg.bind_instance(&cs, p, &vec![7, 8]), Ok(()));
    assert_eq!(asg.read(p, 0), Some(7));
    assert_eq!(asg.read(p, 1), Some(8));
    assert_eq!(asg.read(p, 2), None);
}

#[test]
fn merkle_rows_are_laid_out_in_blocks() {
    let mut cs = ConstraintSystem::new(101);
    let cfg = MyMIPCircuitV2::configure(&mut cs, Combiner::Sum);
    let chip = MyMIPChipV2::construct(cfg);
    let mut asg = Assignment::new(&cs, 8);
    let leaf = chip.load_private(&cs, &mut asg, Some(10)).unwrap();
    assert_eq!(leaf, CellRef { wire: cfg.col_a, row: 0 });
    let out = chip.merkle_prove_row(&cs, &mut asg, leaf, Some(20), Some(1)).unwrap();
    assert_eq!(out, CellRef { wire: cfg.col_c, row: 2 });
    assert_eq!(asg.read(cfg.col_a, 1), Some(10));
    assert_eq!(asg.read(cfg.col_a, 2), Some(20));
    assert_eq!(asg.read(cfg.col_b, 2), Some(10));
    assert_eq!(asg.read(cfg.col_c, 2), Some(30));
    let root = chip
        .merkle_prove(&cs, &mut asg, out, &vec![Some(5)], &vec![Some(0)])
        .unwrap();
    assert_eq!(asg.read(root.wire, root.row), Some(35));
    assert_eq!(chip.expose_public(&cs, &mut asg, leaf, 0), Ok(()));
    assert_eq!(chip.expose_public(&cs, &mut asg, root, 1), Ok(()));
    assert_eq!(asg.bind_instance(&cs, cfg.instance, &vec![10, 35]), Ok(()));
    assert!(asg.is_satisfied(&cs));
}

#[test]
fn public_row_bound_twice_is_refused() {
    let mut cs = ConstraintSystem::new(101);
    let cfg = MyMIPCircuitV2::configure(&mut cs, Combiner::Sum);
    let chip = MyMIPChipV2::construct(cfg);
    let mut asg = Assignment::new(&cs, 4);
    let first = chip.load_private(&cs, &mut asg, Some(1)).unwrap();
    let second = chip.load_private(&cs, &mut asg, Some(2)).unwrap();
    assert_eq!(chip.expose_public(&cs, &mut asg, first, 0), Ok(()));
    assert_eq!(chip.expose_public(&cs, &mut asg, first, 0), Ok(()));
    assert_eq!(
        chip.expose_public(&cs, &mut asg, second, 0),
        Err(SynthError::PublicRowReused)
    );
    assert_eq!(asg.copies.len(), 2);
}

#[test]
fn synthesis_refuses_a_taken_public_row() {
    let mut cs = ConstraintSystem::new(101);
    let cfg = MyMIPCircuitV2::configure(&mut cs, Combiner::Sum);
    let chip = MyMIPChipV2::construct(cfg);
    let mut asg = Assignment::new(&cs, 16);
    let stray = chip.load_private(&cs, &mut asg, Some(7)).unwrap();
    assert_eq!(chip.expose_public(&cs, &mut asg, stray, 1), Ok(()));
    let c = MyMIPCircuitV2 {
        start_leaf: Some(1),
        elements: vec![Some(1)],
        indices: vec![Some(0)],
    };
    assert_eq!(c.synthesize(&cs, cfg, &mut asg), Err(SynthError::PublicRowReused));
}

#[test]
fn synthesis_lays_out_and_binds() {
    let mut cs = ConstraintSystem::new(101);
    let cfg = MyMIPCircuitV2::configure(&mut cs, Combiner::Sum);
    let mut asg = Assignment::new(&cs, 16);
    let c = MyMIPCircuitV2 {
        start_leaf: Some(1),
        elements: vec![Some(1), Some(2)],
        indices: vec![Some(0), Some(1)],
    };
    assert_eq!(c.synthesize(&cs, cfg, &mut asg), Ok(()));
    assert_eq!(asg.next_row, 5);
    assert_eq!(asg.copies.len(), 4);
    assert_eq!(asg.read(cfg.col_c, 4), Some(4));
    assert_eq!(asg.bind_instance(&cs, cfg.instance, &vec![1, 4]), Ok(()));
    assert!(asg.is_satisfied(&cs));
}

#[test]
fn swap_gates_fix_the_pair() {
    let mut cs = ConstraintSystem::new(101);
    let cfg = MyMIPCircuitV2::configure(&mut cs, Combiner::Sum);
    let mut asg = Assignment::new(&cs, 2);
    asg.assign(CellRef { wire: cfg.swap_selector, row: 0 }, Some(1));
    for (w, v) in [(cfg.col_a, 0u64), (cfg.col_b, 0), (cfg.col_c, 0)] {
        asg.assign(CellRef { wire: w, row: 0 }, Some(v));
    }
    asg.assign(CellRef { wire: cfg.col_a, row: 1 }, Some(1));
    asg.assign(CellRef { wire: cfg.col_b, row: 1 }, Some(1));
    let swap = Gate::Swap { flag: cfg.swap_selector, a: cfg.col_a, b: cfg.col_b, c: cfg.col_c };
    let left = Gate::SwapLeft { flag: cfg.swap_selector, a: cfg.col_a, b: cfg.col_b, c: cfg.col_c };
    assert!(asg.check_gate(101, swap, 0));
    assert!(!asg.check_gate(101, left, 0));
    assert!(!asg.is_satisfied(&cs));
    asg.assign(CellRef { wire: cfg.col_a, row: 1 }, Some(0));
    asg.assign(CellRef { wire: cfg.col_b, row: 1 }, Some(0));
    assert!(asg.check_gate(101, swap, 0));
    assert!(asg.check_gate(101, left, 0));
}

#[test]
fn shifted_pair_cannot_prove_a_false_root() {
    let mut cs = ConstraintSystem::new(101);
    let cfg = MyMIPCircuitV2::configure(&mut cs, Combiner::Sum);
    let mut asg = Assignment::new(&cs, 16);
    let c = MyMIPCircuitV2 {
        start_leaf: Some(1),
        elements: vec![Some(1); 4],
        indices: vec![Some(0); 4],
    };
    assert_eq!(c.synthesize(&cs, cfg, &mut asg), Ok(()));
    // Level 0 sits at rows 1 and 2; shift its pair by 51 and carry the
    // outputs 3, 4, 5, 6 up the path.
    let put = |asg: &mut Assignment, w: usize, row: usize, v: u64| {
        asg.assign(CellRef { wire: w, row }, Some(v))
    };
    put(&mut asg, cfg.col_a, 2, 52);
    put(&mut asg, cfg.col_b, 2, 52);
    put(&mut asg, cfg.col_c, 2, 3);
    for (level, node) in [(1usize, 3u64), (2, 4), (3, 5)] {
        let base = 1 + 2 * level;
        put(&mut asg, cfg.col_a, base, node);
        put(&mut asg, cfg.col_a, base + 1, node);
        put(&mut asg, cfg.col_c, base + 1, node + 1);
    }
    assert_eq!(asg.bind_instance(&cs, cfg.instance, &vec![1, 6]), Ok(()));
    assert!(!asg.is_satisfied(&cs));
}

#[test]
fn honest_pair_at_inner_level_follows_its_bit() {
    let mut cs = ConstraintSystem::new(101);
    let cfg = MyMIPCircuitV2::configure(&mut cs, Combiner::Sum);
    let mut asg = Assignment::new(&cs, 16);
    let c = MyMIPCircuitV2 {
        start_leaf: Some(1),
        elements: vec![Some(1); 4],
        indices: vec![Some(0), Some(1), Some(0), Some(0)],
    };
    assert_eq!(c.synthesize(&cs, cfg, &mut asg), Ok(()));
    // Level 1 sits at rows 3 and 4: node 2, sibling 1, bit 1.
    assert_eq!(asg.read(cfg.col_a, 4), Some(1));
    assert_eq!(asg.read(cfg.col_b, 4), Some(2));
    assert_eq!(asg.read(cfg.col_c, 8), Some(5));
}
