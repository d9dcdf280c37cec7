//! The invariant of an honestly laid-out table, kept by every layout step:
//! the chip's gates hold on every row, the flags past the last row block are
//! off, and every copy laid down inside the blocks holds.
use vstd::prelude::*;
use crate::chip::{
    block_written, chip_gates, config_fits, lemma_config_distinct, level_spec, swap_spec,
    MyMIPConfigV2,
};
use crate::lemmas::lemma_swap_correct;
use crate::shape::{combine_spec, ConstraintSystem, Gate, Role};
use crate::witness::{cell_at, cells_updated, copy_holds, gate_holds, Assignment, CellRef};

verus! {

/// Gate `g` holds on every row below `n`.
pub open spec fn rows_hold(p: int, g: Gate, cells: Seq<Vec<Option<u64>>>, n: int) -> bool {
    forall|row: int| 0 <= row < n ==> #[trigger] gate_holds(p, g, cells, row)
}

/// The table so far is an honest layout of the chip on shape `cs`.
pub open spec fn layout_sound(cs: &ConstraintSystem, cfg: MyMIPConfigV2, asg: &Assignment) -> bool {
    let p = cs.modulus as int;
    let cells = asg.cells@;
    &&& cs.gates@ == chip_gates(cfg)
    &&& rows_hold(p, chip_gates(cfg)[0], cells, asg.n_rows as int)
    &&& rows_hold(p, chip_gates(cfg)[1], cells, asg.n_rows as int)
    &&& rows_hold(p, chip_gates(cfg)[2], cells, asg.n_rows as int)
    &&& rows_hold(p, chip_gates(cfg)[3], cells, asg.n_rows as int)
    &&& forall|row: int|
        asg.next_row <= row + 1 ==> #[trigger] cell_at(cells, cfg.swap_selector as int, row) != Some(
            1u64,
        )
    &&& forall|row: int|
        asg.next_row <= row ==> #[trigger] cell_at(cells, cfg.bool_selector as int, row) != Some(
            1u64,
        )
    &&& forall|row: int|
        asg.next_row <= row ==> #[trigger] cell_at(cells, cfg.combine_selector as int, row)
            != Some(1u64)
    &&& forall|ci: int|
        0 <= ci < asg.copies.len() && (#[trigger] asg.copies[ci]).1.wire != cfg.instance ==> {
            &&& copy_holds(p, cells, asg.copies[ci].0, asg.copies[ci].1)
            &&& asg.copies[ci].0.wire != cfg.instance
            &&& asg.copies[ci].0.row < asg.next_row
            &&& asg.copies[ci].1.row < asg.next_row
        }
}

/// Loading the leaf keeps the invariant.
pub proof fn lemma_load_keeps_layout(
    cs: &ConstraintSystem,
    cfg: MyMIPConfigV2,
    before: &Assignment,
    after: &Assignment,
    leaf: Option<u64>,
)
    requires
        config_fits(cfg, cs),
        layout_sound(cs, cfg, before),
        after.n_rows == before.n_rows,
        after.next_row == before.next_row + 1,
        after.copies@ == before.copies@,
        cells_updated(
            before.cells@,
            after.cells@,
            CellRef { wire: cfg.col_a, row: before.next_row },
            leaf,
        ),
    ensures
        layout_sound(cs, cfg, after),
{
    lemma_config_distinct(cfg);
    let p = cs.modulus as int;
    let base = before.next_row as int;
    let gs = chip_gates(cfg);
    assert forall|k: int, row: int| 0 <= k < 4 && 0 <= row < after.n_rows implies #[trigger] gate_holds(
        p,
        gs[k],
        after.cells@,
        row,
    ) by {
        assert(gate_holds(p, gs[k], before.cells@, row));
        assert(cell_at(after.cells@, cfg.bool_selector as int, row) == cell_at(before.cells@, cfg.bool_selector as int, row));
        assert(cell_at(after.cells@, cfg.swap_selector as int, row) == cell_at(before.cells@, cfg.swap_selector as int, row));
        assert(cell_at(after.cells@, cfg.combine_selector as int, row) == cell_at(before.cells@, cfg.combine_selector as int, row));
        if row != base && row + 1 != base {
            assert(cell_at(after.cells@, cfg.col_a as int, row) == cell_at(before.cells@, cfg.col_a as int, row));
            assert(cell_at(after.cells@, cfg.col_b as int, row) == cell_at(before.cells@, cfg.col_b as int, row));
            assert(cell_at(after.cells@, cfg.col_c as int, row) == cell_at(before.cells@, cfg.col_c as int, row));
            assert(cell_at(after.cells@, cfg.col_a as int, row + 1) == cell_at(before.cells@, cfg.col_a as int, row + 1));
            assert(cell_at(after.cells@, cfg.col_b as int, row + 1) == cell_at(before.cells@, cfg.col_b as int, row + 1));
        } else if row + 1 == base {
            assert(cell_at(after.cells@, cfg.col_a as int, row) == cell_at(before.cells@, cfg.col_a as int, row));
            assert(cell_at(after.cells@, cfg.col_b as int, row) == cell_at(before.cells@, cfg.col_b as int, row));
            assert(cell_at(after.cells@, cfg.col_c as int, row) == cell_at(before.cells@, cfg.col_c as int, row));
        }
    }
    assert(rows_hold(p, gs[0], after.cells@, after.n_rows as int));
    assert(rows_hold(p, gs[1], after.cells@, after.n_rows as int));
    assert(rows_hold(p, gs[2], after.cells@, after.n_rows as int));
    assert(rows_hold(p, gs[3], after.cells@, after.n_rows as int));
    assert forall|row: int| after.next_row <= row + 1 implies #[trigger] cell_at(
        after.cells@,
        cfg.swap_selector as int,
        row,
    ) != Some(1u64) by {
        assert(cell_at(before.cells@, cfg.swap_selector as int, row) != Some(1u64));
    }
    assert forall|row: int| after.next_row <= row implies #[trigger] cell_at(
        after.cells@,
        cfg.bool_selector as int,
        row,
    ) != Some(1u64) by {
        assert(cell_at(before.cells@, cfg.bool_selector as int, row) != Some(1u64));
    }
    assert forall|row: int| after.next_row <= row implies #[trigger] cell_at(
        after.cells@,
        cfg.combine_selector as int,
        row,
    ) != Some(1u64) by {
        assert(cell_at(before.cells@, cfg.combine_selector as int, row) != Some(1u64));
    }
    assert forall|ci: int|
        0 <= ci < after.copies.len() && (#[trigger] after.copies[ci]).1.wire != cfg.instance implies {
        &&& copy_holds(p, after.cells@, after.copies[ci].0, after.copies[ci].1)
        &&& after.copies[ci].0.wire != cfg.instance
        &&& after.copies[ci].0.row < after.next_row
        &&& after.copies[ci].1.row < after.next_row
    } by {
        let (x, y) = after.copies[ci];
        assert(before.copies[ci] == (x, y));
        assert(cell_at(after.cells@, x.wire as int, x.row as int) == cell_at(before.cells@, x.wire as int, x.row as int));
        assert(cell_at(after.cells@, y.wire as int, y.row as int) == cell_at(before.cells@, y.wire as int, y.row as int));
    }
}

/// Laying out one level with a known node, a known sibling and a bit of 0 or
/// 1 keeps the invariant.
pub proof fn lemma_block_keeps_layout(
    cs: &ConstraintSystem,
    cfg: MyMIPConfigV2,
    before: &Assignment,
    after: &Assignment,
    prev: CellRef,
    element: Option<u64>,
    index: Option<u64>,
)
    requires
        config_fits(cfg, cs),
        layout_sound(cs, cfg, before),
        before.next_row + 2 <= before.n_rows,
        after.n_rows == before.n_rows,
        after.next_row == before.next_row + 2,
        after.copies@ == before.copies@.push(
            (prev, CellRef { wire: cfg.col_a, row: before.next_row }),
        ),
        prev.row < before.next_row,
        prev.wire != cfg.instance,
        before.value(prev) is Some,
        element is Some,
        index == Some(0u64) || index == Some(1u64),
        ({
            let p = cs.modulus as int;
            let (l, r) = swap_spec(p, before.value(prev), element, index);
            let out = CellRef { wire: cfg.col_c, row: (before.next_row + 1) as usize };
            &&& after.value(out) == level_spec(p, cfg.combiner, before.value(prev), element, index)
            &&& block_written(
                before.cells@,
                after.cells@,
                cfg,
                before.next_row as int,
                before.value(prev),
                element,
                index,
                l,
                r,
                after.value(out),
            )
        }),
    ensures
        layout_sound(cs, cfg, after),
{
    lemma_config_distinct(cfg);
    let p = cs.modulus as int;
    let base = before.next_row as int;
    let gs = chip_gates(cfg);
    let bc = before.cells@;
    let ac = after.cells@;
    let node = before.value(prev);
    let (l, r) = swap_spec(p, node, element, index);
    let a = node->0;
    let b = element->0;
    let c = index->0;
    let (wa, wb, wc) = (cfg.col_a as int, cfg.col_b as int, cfg.col_c as int);
    let (fb, fs, fc) = (cfg.bool_selector as int, cfg.swap_selector as int, cfg.combine_selector as int);
    if c == 0 {
        lemma_swap_correct(p, a, b, c, a as int, b as int);
    } else {
        lemma_swap_correct(p, a, b, c, b as int, a as int);
    }
    assert forall|k: int, row: int| 0 <= k < 4 && 0 <= row < after.n_rows implies #[trigger] gate_holds(
        p,
        gs[k],
        ac,
        row,
    ) by {
        assert(gate_holds(p, gs[k], bc, row));
        if row == base {
            assert(cell_at(ac, fb, row) == Some(1u64));
            assert(cell_at(ac, fs, row) == Some(1u64));
            assert(cell_at(ac, fc, row) == cell_at(bc, fc, row));
            assert(cell_at(ac, wa, row) == node);
            assert(cell_at(ac, wb, row) == element);
            assert(cell_at(ac, wc, row) == index);
            assert(cell_at(ac, wa, row + 1) == l);
            assert(cell_at(ac, wb, row + 1) == r);
            assert(0int * (1 - 0int) == 0 && 1int * (1 - 1int) == 0);
            vstd::arithmetic::div_mod::lemma_small_mod(0, p as nat);
        } else if row == base + 1 {
            assert(cell_at(ac, fb, row) == cell_at(bc, fb, row));
            assert(cell_at(ac, fs, row) == cell_at(bc, fs, row));
            assert(cell_at(ac, fc, row) == Some(1u64));
            assert(cell_at(ac, wa, row) == l);
            assert(cell_at(ac, wb, row) == r);
            let outv = combine_spec(p, cfg.combiner, l->0 as int, r->0 as int);
            assert(0 <= outv < p);
            assert(cell_at(ac, wc, row) == Some(outv as u64));
            vstd::arithmetic::div_mod::lemma_small_mod(0, p as nat);
        } else {
            assert(cell_at(ac, fb, row) == cell_at(bc, fb, row));
            assert(cell_at(ac, fs, row) == cell_at(bc, fs, row));
            assert(cell_at(ac, fc, row) == cell_at(bc, fc, row));
            assert(cell_at(ac, wa, row) == cell_at(bc, wa, row));
            assert(cell_at(ac, wb, row) == cell_at(bc, wb, row));
            assert(cell_at(ac, wc, row) == cell_at(bc, wc, row));
            if row + 1 != base {
                assert(cell_at(ac, wa, row + 1) == cell_at(bc, wa, row + 1));
                assert(cell_at(ac, wb, row + 1) == cell_at(bc, wb, row + 1));
            } else {
                assert(cell_at(bc, fs, row) != Some(1u64));
            }
        }
    }
    assert(rows_hold(p, gs[0], ac, after.n_rows as int));
    assert(rows_hold(p, gs[1], ac, after.n_rows as int));
    assert(rows_hold(p, gs[2], ac, after.n_rows as int));
    assert(rows_hold(p, gs[3], ac, after.n_rows as int));
    assert forall|row: int| after.next_row <= row + 1 implies #[trigger] cell_at(ac, fs, row) != Some(
        1u64,
    ) by {
        assert(cell_at(bc, fs, row) != Some(1u64));
    }
    assert forall|row: int| after.next_row <= row implies #[trigger] cell_at(ac, fb, row) != Some(
        1u64,
    ) by {
        assert(cell_at(bc, fb, row) != Some(1u64));
    }
    assert forall|row: int| after.next_row <= row implies #[trigger] cell_at(ac, fc, row) != Some(
        1u64,
    ) by {
        assert(cell_at(bc, fc, row) != Some(1u64));
    }
    assert forall|ci: int|
        0 <= ci < after.copies.len() && (#[trigger] after.copies[ci]).1.wire != cfg.instance implies {
        &&& copy_holds(p, ac, after.copies[ci].0, after.copies[ci].1)
        &&& after.copies[ci].0.wire != cfg.instance
        &&& after.copies[ci].0.row < after.next_row
        &&& after.copies[ci].1.row < after.next_row
    } by {
        let (x, y) = after.copies[ci];
        assert(cell_at(ac, x.wire as int, x.row as int) == cell_at(bc, x.wire as int, x.row as int));
        if ci < before.copies.len() {
            assert(before.copies[ci] == (x, y));
            assert(cell_at(ac, y.wire as int, y.row as int) == cell_at(bc, y.wire as int, y.row as int));
        } else {
            assert(cell_at(ac, wa, base) == node);
        }
    }
}

/// Binding a cell to the public wire keeps the invariant.
pub proof fn lemma_expose_keeps_layout(
    cs: &ConstraintSystem,
    cfg: MyMIPConfigV2,
    before: &Assignment,
    after: &Assignment,
    cell: CellRef,
    row: usize,
)
    requires
        layout_sound(cs, cfg, before),
        after.n_rows == before.n_rows,
        after.next_row == before.next_row,
        after.cells@ == before.cells@,
        after.copies@ == before.copies@.push((cell, CellRef { wire: cfg.instance, row })),
    ensures
        layout_sound(cs, cfg, after),
{
    assert forall|ci: int|
        0 <= ci < after.copies.len() && (#[trigger] after.copies[ci]).1.wire != cfg.instance implies {
        &&& copy_holds(cs.modulus as int, after.cells@, after.copies[ci].0, after.copies[ci].1)
        &&& after.copies[ci].0.wire != cfg.instance
        &&& after.copies[ci].0.row < after.next_row
        &&& after.copies[ci].1.row < after.next_row
    } by {
        assert(before.copies[ci] == after.copies[ci]);
    }
}

/// A fresh table on a shape that holds the chip's gates alone satisfies the
/// invariant.
pub proof fn lemma_fresh_layout(cs: &ConstraintSystem, cfg: MyMIPConfigV2, asg: &Assignment)
    requires
        config_fits(cfg, cs),
        cs.gates@ == chip_gates(cfg),
        asg.wf(cs),
        asg.next_row == 0,
        asg.copies.len() == 0,
        forall|w: int, row: int|
            0 <= w < cs.roles.len() && 0 <= row < asg.n_rows ==> #[trigger] cell_at(
                asg.cells@,
                w,
                row,
            ) == if cs.roles[w] == Role::Fixed {
                Some(0u64)
            } else {
                None
            },
    ensures
        layout_sound(cs, cfg, asg),
{
    let p = cs.modulus as int;
    let gs = chip_gates(cfg);
    let (fb, fs, fc) = (cfg.bool_selector as int, cfg.swap_selector as int, cfg.combine_selector as int);
    assert forall|row: int| #[trigger] cell_at(asg.cells@, fs, row) != Some(1u64) by {
        if 0 <= row < asg.n_rows {
            assert(cell_at(asg.cells@, fs, row) == Some(0u64));
        }
    }
    assert forall|row: int| #[trigger] cell_at(asg.cells@, fb, row) != Some(1u64) by {
        if 0 <= row < asg.n_rows {
            assert(cell_at(asg.cells@, fb, row) == Some(0u64));
        }
    }
    assert forall|row: int| #[trigger] cell_at(asg.cells@, fc, row) != Some(1u64) by {
        if 0 <= row < asg.n_rows {
            assert(cell_at(asg.cells@, fc, row) == Some(0u64));
        }
    }
    assert forall|k: int, row: int| 0 <= k < 4 && 0 <= row < asg.n_rows implies #[trigger] gate_holds(
        p,
        gs[k],
        asg.cells@,
        row,
    ) by {
        assert(cell_at(asg.cells@, fs, row) != Some(1u64));
        assert(cell_at(asg.cells@, fb, row) != Some(1u64));
        assert(cell_at(asg.cells@, fc, row) != Some(1u64));
    }
    assert(rows_hold(p, gs[0], asg.cells@, asg.n_rows as int));
    assert(rows_hold(p, gs[1], asg.cells@, asg.n_rows as int));
    assert(rows_hold(p, gs[2], asg.cells@, asg.n_rows as int));
    assert(rows_hold(p, gs[3], asg.cells@, asg.n_rows as int));
}

/// A table that agrees with an honest layout off the public wire, and whose
/// copies onto the public wire all hold, is satisfied.
pub proof fn lemma_bound_satisfied(
    cs: &ConstraintSystem,
    cfg: MyMIPConfigV2,
    laid: &Assignment,
    asg: &Assignment,
)
    requires
        config_fits(cfg, cs),
        layout_sound(cs, cfg, laid),
        asg.n_rows == laid.n_rows,
        asg.copies@ == laid.copies@,
        forall|w: int, row: int|
            w != cfg.instance ==> #[trigger] cell_at(asg.cells@, w, row) == cell_at(
                laid.cells@,
                w,
                row,
            ),
        forall|ci: int|
            0 <= ci < asg.copies.len() && (#[trigger] asg.copies[ci]).1.wire == cfg.instance
                ==> copy_holds(cs.modulus as int, asg.cells@, asg.copies[ci].0, asg.copies[ci].1),
    ensures
        asg.satisfied(cs),
{
    lemma_config_distinct(cfg);
    let p = cs.modulus as int;
    let gs = chip_gates(cfg);
    let (wa, wb, wc) = (cfg.col_a as int, cfg.col_b as int, cfg.col_c as int);
    let (fb, fs, fc) = (cfg.bool_selector as int, cfg.swap_selector as int, cfg.combine_selector as int);
    assert forall|gi: int, row: int| 0 <= gi < cs.gates.len() && 0 <= row < asg.n_rows implies #[trigger] gate_holds(
        p,
        cs.gates[gi],
        asg.cells@,
        row,
    ) by {
        assert(cs.gates[gi] == gs[gi]);
        assert(gate_holds(p, gs[gi], laid.cells@, row));
        assert(cell_at(asg.cells@, fb, row) == cell_at(laid.cells@, fb, row));
        assert(cell_at(asg.cells@, fs, row) == cell_at(laid.cells@, fs, row));
        assert(cell_at(asg.cells@, fc, row) == cell_at(laid.cells@, fc, row));
        assert(cell_at(asg.cells@, wa, row) == cell_at(laid.cells@, wa, row));
        assert(cell_at(asg.cells@, wb, row) == cell_at(laid.cells@, wb, row));
        assert(cell_at(asg.cells@, wc, row) == cell_at(laid.cells@, wc, row));
        assert(cell_at(asg.cells@, wa, row + 1) == cell_at(laid.cells@, wa, row + 1));
        assert(cell_at(asg.cells@, wb, row + 1) == cell_at(laid.cells@, wb, row + 1));
    }
    assert forall|ci: int| 0 <= ci < asg.copies.len() implies copy_holds(
        p,
        asg.cells@,
        (#[trigger] asg.copies[ci]).0,
        asg.copies[ci].1,
    ) by {
        let (x, y) = asg.copies[ci];
        if y.wire != cfg.instance {
            assert(laid.copies[ci] == (x, y));
            assert(cell_at(asg.cells@, x.wire as int, x.row as int) == cell_at(laid.cells@, x.wire as int, x.row as int));
            assert(cell_at(asg.cells@, y.wire as int, y.row as int) == cell_at(laid.cells@, y.wire as int, y.row as int));
        }
    }
}

} // verus!
