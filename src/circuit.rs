//! The circuit driver: loads the leaf, binds it to public position 0, runs
//! the path gadget and binds the computed root to public position 1.
use vstd::prelude::*;
use crate::chip::{bound_elsewhere, chip_cell, chip_gates, level_laid, config_fits, lemma_config_distinct, path_ready, path_root, rows_kept, wire_kept, MyMIPChipV2, MyMIPConfigV2};
use crate::field::is_prime;
use crate::lemmas::{lemma_boolean_enforced, lemma_known_root_known_path};
use crate::shape::{Combiner, ConstraintSystem, Gate, Role};
use crate::layout::{
    layout_sound, lemma_bound_satisfied, lemma_expose_keeps_layout, lemma_fresh_layout,
    lemma_load_keeps_layout,
};
use crate::witness::{cell_at, copy_holds, Assignment, CellRef, SynthError};

verus! {

/// One proof instance's private inputs: the leaf, one sibling per level and
/// one direction bit per level, leaf to root. `None` is a value not known
/// yet, as when only the circuit's shape is compiled.
pub struct MyMIPCircuitV2 {
    pub start_leaf: Option<u64>,
    pub elements: Vec<Option<u64>>,
    pub indices: Vec<Option<u64>>,
}

/// `n` unknown values.
pub open spec fn unknowns(n: nat) -> Seq<Option<u64>> {
    Seq::new(n, |i: int| None::<u64>)
}

fn unknown_vec(n: usize) -> (v: Vec<Option<u64>>)
    ensures
        v@ == unknowns(n as nat),
{
    let mut v: Vec<Option<u64>> = Vec::new();
    let mut i: usize = 0;
    while i < n
        invariant
            i <= n,
            v@ == unknowns(i as nat),
        decreases n - i,
    {
        v.push(None);
        proof {
            assert(v@ =~= unknowns((i + 1) as nat));
        }
        i = i + 1;
    }
    v
}

/// The cell that holds the leaf when the driver starts at row `start`.
pub open spec fn leaf_cell(config: MyMIPConfigV2, start: usize) -> CellRef {
    CellRef { wire: config.col_a, row: start }
}

/// The cell that holds the root of a path of `n` levels when the driver
/// starts at row `start`: the leaf's own cell for an empty path.
pub open spec fn root_cell(config: MyMIPConfigV2, start: usize, n: int) -> CellRef {
    if n == 0 {
        leaf_cell(config, start)
    } else {
        CellRef { wire: config.col_c, row: (start + 2 * n) as usize }
    }
}

impl MyMIPCircuitV2 {
    /// The same circuit with every input unknown: what shape-only
    /// compilation sees.
    pub fn without_witnesses(&self) -> (c: Self)
        ensures
            c.start_leaf is None,
            c.elements@ == unknowns(self.elements.len() as nat),
            c.indices@ == unknowns(self.indices.len() as nat),
    {
        MyMIPCircuitV2 {
            start_leaf: None,
            elements: unknown_vec(self.elements.len()),
            indices: unknown_vec(self.indices.len()),
        }
    }

    /// Declares three value wires and the public wire, then the chip's flags
    /// and gates.
    pub fn configure(cs: &mut ConstraintSystem, combiner: Combiner) -> (cfg: MyMIPConfigV2)
        requires
            old(cs).wf(),
            old(cs).roles.len() + 7 < usize::MAX,
        ensures
            config_fits(cfg, final(cs)),
            cfg.combiner == combiner,
            final(cs).modulus == old(cs).modulus,
            final(cs).gates@ == old(cs).gates@ + chip_gates(cfg),
    {
        let col_a = cs.declare_wire(Role::Witness);
        let col_b = cs.declare_wire(Role::Witness);
        let col_c = cs.declare_wire(Role::Witness);
        let instance = cs.declare_wire(Role::Public);
        MyMIPChipV2::configure(cs, col_a, col_b, col_c, instance, combiner)
    }

    /// Lays out this instance: the leaf in a one-row block, bound to public
    /// row 0; one two-row block per level; the root bound to public row 1.
    pub fn synthesize(&self, cs: &ConstraintSystem, config: MyMIPConfigV2, asg: &mut Assignment) -> (res:
        Result<(), SynthError>)
        requires
            config_fits(config, cs),
            old(asg).wf(cs),
            old(asg).n_rows >= 2,
        ensures
            final(asg).wf(cs),
            final(asg).n_rows == old(asg).n_rows,
            rows_kept(old(asg).cells@, final(asg).cells@, old(asg).next_row as int),
            wire_kept(old(asg).cells@, final(asg).cells@, config.instance as int),
            ({
                let n = self.elements.len() as int;
                let same_len = self.elements.len() == self.indices.len();
                let fits = old(asg).next_row + 1 + 2 * n <= old(asg).n_rows;
                let leaf = leaf_cell(config, old(asg).next_row);
                let root = root_cell(config, old(asg).next_row, n);
                let reused = bound_elsewhere(
                    old(asg).copies@,
                    CellRef { wire: config.instance, row: 0 },
                    leaf,
                ) || bound_elsewhere(
                    old(asg).copies@,
                    CellRef { wire: config.instance, row: 1 },
                    root,
                );
                &&& (res is Ok <==> same_len && fits && !reused)
                &&& (res == Err::<(), SynthError>(SynthError::LengthMismatch) <==> !same_len)
                &&& (res == Err::<(), SynthError>(SynthError::NotEnoughRows) <==> same_len && !fits)
                &&& (res == Err::<(), SynthError>(SynthError::PublicRowReused) <==> same_len && fits
                    && reused)
            }),
            res is Ok ==> {
                let k = old(asg).copies.len() as int;
                let n = self.elements.len() as int;
                let leaf = leaf_cell(config, old(asg).next_row);
                let root = root_cell(config, old(asg).next_row, n);
                &&& final(asg).next_row == old(asg).next_row + 1 + 2 * n
                &&& final(asg).copies.len() == k + n + 2
                &&& forall|j: int| 0 <= j < k ==> #[trigger] final(asg).copies[j] == old(asg).copies[j]
                &&& final(asg).copies[k] == (leaf, CellRef { wire: config.instance, row: 0 })
                &&& final(asg).copies[k + n + 1] == (root, CellRef { wire: config.instance, row: 1 })
                &&& forall|j: int|
                    k < j < k + n + 1 ==> (#[trigger] final(asg).copies[j]).1.wire == config.col_a
                &&& (layout_sound(cs, config, old(asg)) && self.start_leaf is Some && path_ready(
                    self.elements@,
                    self.indices@,
                )) ==> layout_sound(cs, config, final(asg)) && final(asg).value(root) is Some
                &&& final(asg).value(leaf) == self.start_leaf
                &&& forall|j: int|
                    0 <= j < n ==> #[trigger] level_laid(
                        cs.modulus as int,
                        config,
                        final(asg).cells@,
                        final(asg).copies@,
                        old(asg).next_row + 1,
                        k + 1,
                        leaf,
                        self.start_leaf,
                        self.elements@,
                        self.indices@,
                        j,
                    )
                &&& forall|w: int, row: int|
                    !chip_cell(config, old(asg).next_row + 1, n, w, row) && !(w == config.col_a
                        && row == old(asg).next_row) ==> #[trigger] cell_at(final(asg).cells@, w, row)
                        == cell_at(old(asg).cells@, w, row)
                &&& final(asg).value(root) == path_root(
                    cs.modulus as int,
                    config.combiner,
                    self.start_leaf,
                    self.elements@,
                    self.indices@,
                    n as nat,
                )
            },
    {
        if self.elements.len() != self.indices.len() {
            return Err(SynthError::LengthMismatch);
        }
        if !(asg.next_row < asg.n_rows && (asg.n_rows - asg.next_row - 1) / 2 >= self.elements.len()) {
            return Err(SynthError::NotEnoughRows);
        }
        let chip = MyMIPChipV2::construct(config);
        let leaf_cell = chip.load_private(cs, asg, self.start_leaf)?;
        let ghost after_load = *asg;
        chip.expose_public(cs, asg, leaf_cell, 0)?;
        let ghost after_bind = *asg;
        proof {
            if layout_sound(cs, config, old(asg)) {
                lemma_load_keeps_layout(cs, config, &old(asg), &after_load, self.start_leaf);
                lemma_expose_keeps_layout(cs, config, &after_load, &after_bind, leaf_cell, 0);
            }
            lemma_config_distinct(config);
        }
        let digest = chip.merkle_prove(cs, asg, leaf_cell, &self.elements, &self.indices)?;
        proof {
            assert(asg.value(leaf_cell) == self.start_leaf) by {
                assert(after_bind.value(leaf_cell) == self.start_leaf);
            }
            assert forall|w: int, row: int| row < old(asg).next_row implies #[trigger] cell_at(
                asg.cells@,
                w,
                row,
            ) == cell_at(old(asg).cells@, w, row) by {
                assert(cell_at(after_load.cells@, w, row) == cell_at(old(asg).cells@, w, row));
            }
            assert forall|row: int| #[trigger] cell_at(asg.cells@, config.instance as int, row)
                == cell_at(old(asg).cells@, config.instance as int, row) by {
                assert(cell_at(after_load.cells@, config.instance as int, row) == cell_at(
                    old(asg).cells@,
                    config.instance as int,
                    row,
                ));
            }
        }
        let ghost before_root = *asg;
        proof {
            let k = old(asg).copies.len() as int;
            let n = self.elements.len() as int;
            let target = CellRef { wire: config.instance, row: 1 };
            if n > 0 {
                assert(before_root.copies@.len() == k + 1 + n);
            }
            assert(digest == root_cell(config, old(asg).next_row, n));
            assert forall|j: int| k <= j < before_root.copies.len() implies (
            #[trigger] before_root.copies[j]).1 != target by {
                if j > k {
                    assert(before_root.copies[j].1.wire == config.col_a);
                } else {
                    assert(before_root.copies[j] == after_bind.copies[j]);
                }
            }
            assert forall|j: int| 0 <= j < k implies #[trigger] before_root.copies[j] == old(
                asg,
            ).copies[j] by {
                assert(before_root.copies[j] == after_bind.copies[j]);
            }
            if bound_elsewhere(before_root.copies@, target, digest) {
                let j = choose|j: int|
                    0 <= j < before_root.copies.len() && (#[trigger] before_root.copies[j]).1
                        == target && before_root.copies[j].0 != digest;
                assert(old(asg).copies[j] == before_root.copies[j]);
            }
            if bound_elsewhere(old(asg).copies@, target, digest) {
                let j = choose|j: int|
                    0 <= j < old(asg).copies.len() && (#[trigger] old(asg).copies[j]).1 == target
                        && old(asg).copies[j].0 != digest;
                assert(before_root.copies[j] == old(asg).copies[j]);
            }
        }
        chip.expose_public(cs, asg, digest, 1)?;
        proof {
            let k = old(asg).copies.len() as int;
            let n = self.elements.len() as int;
            let s = old(asg).next_row + 1;
            assert forall|j: int| 0 <= j < n implies #[trigger] level_laid(
                cs.modulus as int,
                config,
                asg.cells@,
                asg.copies@,
                s,
                k + 1,
                leaf_cell,
                self.start_leaf,
                self.elements@,
                self.indices@,
                j,
            ) by {
                assert(level_laid(
                    cs.modulus as int,
                    config,
                    before_root.cells@,
                    before_root.copies@,
                    s,
                    k + 1,
                    leaf_cell,
                    after_bind.value(leaf_cell),
                    self.elements@,
                    self.indices@,
                    j,
                ));
                assert(asg.copies@[k + 1 + j] == before_root.copies@[k + 1 + j]);
            }
            assert forall|w: int, row: int|
                !chip_cell(config, s, n, w, row) && !(w == config.col_a
                    && row == old(asg).next_row) implies #[trigger] cell_at(asg.cells@, w, row) == cell_at(
                old(asg).cells@,
                w,
                row,
            ) by {
                assert(cell_at(before_root.cells@, w, row) == cell_at(after_bind.cells@, w, row));
                assert(cell_at(after_load.cells@, w, row) == cell_at(old(asg).cells@, w, row));
            }
            assert(asg.copies[k] == after_bind.copies[k]);
            assert forall|j: int| k < j < k + n + 1 implies (#[trigger] asg.copies[j]).1.wire
                == config.col_a by {
                assert(asg.copies[j] == before_root.copies[j]);
            }
            assert forall|j: int| 0 <= j < k implies #[trigger] asg.copies[j] == old(asg).copies[j] by {
                assert(asg.copies[j] == before_root.copies[j]);
            }
            if layout_sound(cs, config, old(asg)) && self.start_leaf is Some && path_ready(
                self.elements@,
                self.indices@,
            ) {
                lemma_expose_keeps_layout(cs, config, &before_root, asg, digest, 1);
            }
        }
        Ok(())
    }
}

/// Lays out `circuit` on a fresh shape over the field of order `modulus`, in
/// a table of `n_rows` rows, binds the verifier's `public` values to the
/// public wire, and decides whether every gate and copy constraint holds.
/// Accepted public values always agree, modulo the field's order, with the
/// leaf at position 0 and the computed root at position 1.
pub fn check_inclusion(
    modulus: u64,
    combiner: Combiner,
    n_rows: usize,
    circuit: &MyMIPCircuitV2,
    public: &Vec<u64>,
) -> (r: Result<bool, SynthError>)
    requires
        is_prime(modulus as int),
        n_rows < usize::MAX,
    ensures
        r is Ok <==> (circuit.elements.len() == circuit.indices.len() && 2 <= n_rows && 1 + 2
            * circuit.elements.len() <= n_rows && public.len() <= n_rows),
        r == Err::<bool, SynthError>(SynthError::LengthMismatch) <==> circuit.elements.len()
            != circuit.indices.len(),
        r == Err::<bool, SynthError>(SynthError::NotEnoughRows) <==> (circuit.elements.len()
            == circuit.indices.len() && (n_rows < 2 || 1 + 2 * circuit.elements.len() > n_rows)),
        r == Err::<bool, SynthError>(SynthError::CellOutOfRange) <==> (circuit.elements.len()
            == circuit.indices.len() && 2 <= n_rows && 1 + 2 * circuit.elements.len() <= n_rows
            && public.len() > n_rows),
        r == Ok::<bool, SynthError>(true) ==> {
            let p = modulus as int;
            let root = path_root(
                p,
                combiner,
                circuit.start_leaf,
                circuit.elements@,
                circuit.indices@,
                circuit.elements.len() as nat,
            );
            &&& public.len() >= 2
            &&& circuit.start_leaf is Some
            &&& root is Some
            &&& public[0] as int % p == circuit.start_leaf->0 as int % p
            &&& public[1] as int % p == root->0 as int % p
        },
        (r is Ok && exists|j: int|
            0 <= j < circuit.indices.len() && (#[trigger] circuit.indices@[j]) is Some && (
            circuit.indices@[j]->0 as int) % (modulus as int) != 0 && (circuit.indices@[j]->0 as int)
                % (modulus as int) != 1) ==> r == Ok::<bool, SynthError>(false),
        r == Ok::<bool, SynthError>(true) ==> forall|j: int|
            0 <= j < circuit.indices.len() ==> (#[trigger] circuit.indices@[j]) is Some && ((
            circuit.indices@[j]->0 as int) % (modulus as int) == 0 || (circuit.indices@[j]->0 as int)
                % (modulus as int) == 1),
        (r is Ok && circuit.start_leaf is Some && path_ready(circuit.elements@, circuit.indices@))
            ==> {
            let p = modulus as int;
            let root = path_root(
                p,
                combiner,
                circuit.start_leaf,
                circuit.elements@,
                circuit.indices@,
                circuit.elements.len() as nat,
            );
            r == Ok::<bool, SynthError>(true) <==> (public.len() >= 2 && public[0] as int % p
                == circuit.start_leaf->0 as int % p && public[1] as int % p == root->0 as int % p)
        },
{
    let mut cs = ConstraintSystem::new(modulus);
    let config = MyMIPCircuitV2::configure(&mut cs, combiner);
    let mut asg = Assignment::new(&cs, n_rows);
    if circuit.elements.len() != circuit.indices.len() {
        return Err(SynthError::LengthMismatch);
    }
    if n_rows < 2 {
        return Err(SynthError::NotEnoughRows);
    }
    proof {
        lemma_fresh_layout(&cs, config, &asg);
    }
    circuit.synthesize(&cs, config, &mut asg)?;
    let ghost laid = asg;
    asg.bind_instance(&cs, config.instance, public)?;
    let ok = asg.is_satisfied(&cs);
    proof {
        lemma_config_distinct(config);
        let p = modulus as int;
        if ok && exists|j: int|
            0 <= j < circuit.indices.len() && (#[trigger] circuit.indices@[j]) is Some && (
            circuit.indices@[j]->0 as int) % p != 0 && (circuit.indices@[j]->0 as int) % p != 1 {
            let j = choose|j: int|
                0 <= j < circuit.indices.len() && (#[trigger] circuit.indices@[j]) is Some && (
                circuit.indices@[j]->0 as int) % p != 0 && (circuit.indices@[j]->0 as int) % p != 1;
            let row = 1 + 2 * j;
            assert(level_laid(
                p,
                config,
                laid.cells@,
                laid.copies@,
                1,
                1,
                CellRef { wire: config.col_a, row: 0 },
                circuit.start_leaf,
                circuit.elements@,
                circuit.indices@,
                j,
            ));
            assert(cell_at(asg.cells@, config.col_c as int, row) == cell_at(
                laid.cells@,
                config.col_c as int,
                row,
            ));
            assert(cell_at(asg.cells@, config.bool_selector as int, row) == cell_at(
                laid.cells@,
                config.bool_selector as int,
                row,
            ));
            assert(cs.gates[0] == Gate::Boolean { flag: config.bool_selector, c: config.col_c });
            lemma_boolean_enforced(&cs, &asg, 0, row);
        }
    }
    proof {
        lemma_config_distinct(config);
        let n = circuit.elements.len() as int;
        let p = modulus as int;
        let leaf = CellRef { wire: config.col_a, row: 0 };
        let root = if n == 0 {
            leaf
        } else {
            CellRef { wire: config.col_c, row: (2 * n) as usize }
        };
        if circuit.start_leaf is Some && path_ready(circuit.elements@, circuit.indices@) {
            let rv = path_root(
                p,
                combiner,
                circuit.start_leaf,
                circuit.elements@,
                circuit.indices@,
                n as nat,
            );
            if public.len() >= 2 && public[0] as int % p == circuit.start_leaf->0 as int % p
                && public[1] as int % p == rv->0 as int % p {
                assert forall|w: int, row: int| w != config.instance implies #[trigger] cell_at(
                    asg.cells@,
                    w,
                    row,
                ) == cell_at(laid.cells@, w, row) by {}
                assert(cell_at(asg.cells@, leaf.wire as int, leaf.row as int) == laid.value(leaf));
                assert(cell_at(asg.cells@, root.wire as int, root.row as int) == laid.value(root));
                assert(cell_at(asg.cells@, config.instance as int, 0) == Some(public[0]));
                assert(cell_at(asg.cells@, config.instance as int, 1) == Some(public[1]));
                assert forall|ci: int|
                    0 <= ci < asg.copies.len() && (#[trigger] asg.copies[ci]).1.wire
                        == config.instance implies copy_holds(
                    p,
                    asg.cells@,
                    asg.copies[ci].0,
                    asg.copies[ci].1,
                ) by {
                    if ci != 0 && ci != n + 1 {
                        assert(asg.copies[ci].1.wire == config.col_a);
                    }
                }
                lemma_bound_satisfied(&cs, config, &laid, &asg);
            }
        }
    }
    proof {
        if ok {
            let k = 0int;
            let n = circuit.elements.len() as int;
            let leaf = CellRef { wire: config.col_a, row: 0 };
            let root = if n == 0 {
                leaf
            } else {
                CellRef { wire: config.col_c, row: (2 * n) as usize }
            };
            assert(copy_holds(cs.modulus as int, asg.cells@, asg.copies[k].0, asg.copies[k].1));
            assert(copy_holds(
                cs.modulus as int,
                asg.cells@,
                asg.copies[k + n + 1].0,
                asg.copies[k + n + 1].1,
            ));
            assert(cell_at(asg.cells@, leaf.wire as int, leaf.row as int) == laid.value(leaf));
            assert(cell_at(asg.cells@, root.wire as int, root.row as int) == laid.value(root));
            assert(cell_at(asg.cells@, config.instance as int, 0) == if public.len() > 0 {
                Some(public[0])
            } else {
                cell_at(laid.cells@, config.instance as int, 0)
            });
            assert(cell_at(asg.cells@, config.instance as int, 1) == if public.len() > 1 {
                Some(public[1])
            } else {
                cell_at(laid.cells@, config.instance as int, 1)
            });
            assert(cell_at(laid.cells@, config.instance as int, 0) is None);
            assert(cell_at(laid.cells@, config.instance as int, 1) is None);
        }
    }
    proof {
        if ok {
            lemma_known_root_known_path(
                modulus as int,
                combiner,
                circuit.start_leaf,
                circuit.elements@,
                circuit.indices@,
                circuit.elements.len() as nat,
            );
            let p = modulus as int;
            assert forall|j: int| 0 <= j < circuit.indices.len() implies (
            #[trigger] circuit.indices@[j]) is Some && ((circuit.indices@[j]->0 as int) % p == 0 || (
            circuit.indices@[j]->0 as int) % p == 1) by {
                assert(circuit.elements@[j] is Some);
            }
        }
    }
    Ok(ok)
}

} // verus!
