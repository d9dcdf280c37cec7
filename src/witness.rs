//! One proof instance: the table of cell values, the copy constraints laid
//! down while filling it, and the check that every gate and copy holds.
use vstd::prelude::*;
use crate::field::{add_mod, mul_mod, sub_mod};
use crate::shape::{combine, combine_spec, gate_wires, ConstraintSystem, Gate, Role};
use vstd::arithmetic::div_mod::{
    lemma_add_mod_noop,
    lemma_mul_mod_noop_right,
    lemma_sub_mod_noop,
};

verus! {

/// The coordinate of one cell: a wire and a row.
#[derive(Clone, Copy, Debug, PartialEq, Eq, Structural)]
pub struct CellRef {
    pub wire: usize,
    pub row: usize,
}

/// A failure while laying out a proof instance.
#[derive(Clone, Copy, Debug, PartialEq, Eq, Structural)]
pub enum SynthError {
    /// The row blocks asked for do not fit in the table.
    NotEnoughRows,
    /// A cell outside the table.
    CellOutOfRange,
    /// A copy constraint on a wire that was not enabled for equality.
    NotCopyable,
    /// Public values bound to a wire that is not public.
    NotPublic,
    /// A path whose sibling and direction-bit sequences differ in length.
    LengthMismatch,
    /// A public position already bound to another cell.
    PublicRowReused,
}

/// The cells of one proof instance, filled row block by row block.
pub struct Assignment {
    /// The number of rows of every column.
    pub n_rows: usize,
    /// The first row not yet handed to a row block.
    pub next_row: usize,
    /// `cells[w][row]`: the value of a cell, `None` where it is unknown.
    pub cells: Vec<Vec<Option<u64>>>,
    /// Pairs of cells that must hold the same value.
    pub copies: Vec<(CellRef, CellRef)>,
}

/// The value of cell `(w, row)`, `None` where it is unknown or outside the table.
pub open spec fn cell_at(cells: Seq<Vec<Option<u64>>>, w: int, row: int) -> Option<u64> {
    if 0 <= w < cells.len() && 0 <= row < cells[w]@.len() {
        cells[w]@[row]
    } else {
        None
    }
}

/// The polynomial of `g` on `row`, reduced modulo `p`; `None` where a cell
/// it reads is unknown.
pub open spec fn gate_poly(p: int, g: Gate, cells: Seq<Vec<Option<u64>>>, row: int) -> Option<
    int,
> {
    match g {
        Gate::Boolean { c, .. } => match cell_at(cells, c as int, row) {
            Some(cv) => Some((cv as int * (1 - cv as int)) % p),
            None => None,
        },
        Gate::Swap { a, b, c, .. } => match (
            cell_at(cells, a as int, row),
            cell_at(cells, b as int, row),
            cell_at(cells, c as int, row),
            cell_at(cells, a as int, row + 1),
            cell_at(cells, b as int, row + 1),
        ) {
            (Some(av), Some(bv), Some(cv), Some(lv), Some(rv)) => Some(
                swap_poly(p, av as int, bv as int, cv as int, lv as int, rv as int),
            ),
            _ => None,
        },
        Gate::SwapLeft { a, b, c, .. } => match (
            cell_at(cells, a as int, row),
            cell_at(cells, b as int, row),
            cell_at(cells, c as int, row),
            cell_at(cells, a as int, row + 1),
        ) {
            (Some(av), Some(bv), Some(cv), Some(lv)) => Some(
                swap_left_poly(p, av as int, bv as int, cv as int, lv as int),
            ),
            _ => None,
        },
        Gate::Combine { kind, l, r, out, .. } => match (
            cell_at(cells, l as int, row),
            cell_at(cells, r as int, row),
            cell_at(cells, out as int, row),
        ) {
            (Some(lv), Some(rv), Some(ov)) => Some(
                (ov as int - combine_spec(p, kind, lv as int, rv as int)) % p,
            ),
            _ => None,
        },
    }
}

/// The swap polynomial `2c(b - a) - (l - a) - (b - r)`, reduced modulo `p`.
pub open spec fn swap_poly(p: int, a: int, b: int, c: int, l: int, r: int) -> int {
    (2 * c * (b - a) - (l - a) - (b - r)) % p
}

/// The left-selection polynomial `c(b - a) - (l - a)`, reduced modulo `p`.
pub open spec fn swap_left_poly(p: int, a: int, b: int, c: int, l: int) -> int {
    (c * (b - a) - (l - a)) % p
}

/// `g` is enabled on `row`: its flag cell holds 1.
pub open spec fn gate_enabled(g: Gate, cells: Seq<Vec<Option<u64>>>, row: int) -> bool {
    cell_at(cells, gate_wires(g)[0] as int, row) == Some(1u64)
}

/// Where `g` is enabled, its polynomial is known and zero.
pub open spec fn gate_holds(p: int, g: Gate, cells: Seq<Vec<Option<u64>>>, row: int) -> bool {
    gate_enabled(g, cells, row) ==> gate_poly(p, g, cells, row) == Some(0int)
}

/// Both cells are known and equal as field elements.
pub open spec fn copy_holds(p: int, cells: Seq<Vec<Option<u64>>>, x: CellRef, y: CellRef) -> bool {
    match (cell_at(cells, x.wire as int, x.row as int), cell_at(cells, y.wire as int, y.row as int)) {
        (Some(xv), Some(yv)) => (xv as int) % p == (yv as int) % p,
        _ => false,
    }
}

/// `after` is `before` with cell `c` set to `v`, all shapes kept.
pub open spec fn cells_updated(
    before: Seq<Vec<Option<u64>>>,
    after: Seq<Vec<Option<u64>>>,
    c: CellRef,
    v: Option<u64>,
) -> bool {
    &&& after.len() == before.len()
    &&& forall|w: int| 0 <= w < after.len() ==> (#[trigger] after[w]).len() == before[w].len()
    &&& forall|w: int, row: int| #[trigger]
        cell_at(after, w, row) == if w == c.wire && row == c.row {
            v
        } else {
            cell_at(before, w, row)
        }
}

impl Assignment {
    /// The value of a cell.
    pub open spec fn value(&self, c: CellRef) -> Option<u64> {
        cell_at(self.cells@, c.wire as int, c.row as int)
    }

    /// The cell lies inside the table.
    pub open spec fn in_table(&self, c: CellRef) -> bool {
        c.wire < self.cells.len() && c.row < self.n_rows
    }

    /// Well-formed for shape `cs`: one column per wire, each `n_rows` long.
    pub open spec fn wf(&self, cs: &ConstraintSystem) -> bool {
        &&& self.cells.len() == cs.roles.len()
        &&& self.next_row <= self.n_rows
        &&& forall|w: int| 0 <= w < self.cells.len() ==> (#[trigger] self.cells[w]).len() == self.n_rows
    }

    /// An empty table of `n_rows` rows for shape `cs`: flags off, every other
    /// cell unknown.
    pub fn new(cs: &ConstraintSystem, n_rows: usize) -> (asg: Self)
        requires
            cs.wf(),
        ensures
            asg.wf(cs),
            asg.n_rows == n_rows,
            asg.next_row == 0,
            asg.copies@ == Seq::<(CellRef, CellRef)>::empty(),
            forall|w: int, row: int|
                0 <= w < cs.roles.len() && 0 <= row < n_rows ==> #[trigger] cell_at(
                    asg.cells@,
                    w,
                    row,
                ) == if cs.roles[w] == Role::Fixed {
                    Some(0u64)
                } else {
                    None
                },
    {
        let mut cells: Vec<Vec<Option<u64>>> = Vec::new();
        let mut w: usize = 0;
        while w < cs.roles.len()
            invariant
                w <= cs.roles.len(),
                cells.len() == w,
                forall|v: int| 0 <= v < w ==> (#[trigger] cells[v]).len() == n_rows,
                forall|v: int, row: int|
                    0 <= v < w && 0 <= row < n_rows ==> #[trigger] cell_at(cells@, v, row)
                        == if cs.roles[v] == Role::Fixed {
                        Some(0u64)
                    } else {
                        None
                    },
            decreases cs.roles.len() - w,
        {
            let init: Option<u64> = if cs.roles[w] == Role::Fixed {
                Some(0)
            } else {
                None
            };
            let mut col: Vec<Option<u64>> = Vec::new();
            let mut row: usize = 0;
            while row < n_rows
                invariant
                    row <= n_rows,
                    col.len() == row,
                    forall|k: int| 0 <= k < row ==> col[k] == init,
                decreases n_rows - row,
            {
                col.push(init);
                row = row + 1;
            }
            let ghost before = cells@;
            cells.push(col);
            proof {
                assert forall|v: int, row: int|
                    0 <= v < w + 1 && 0 <= row < n_rows implies #[trigger] cell_at(
                    cells@,
                    v,
                    row,
                ) == if cs.roles[v] == Role::Fixed {
                    Some(0u64)
                } else {
                    None
                } by {
                    if v < w {
                        assert(cells@[v] == before[v]);
                        assert(cell_at(before, v, row) == cell_at(cells@, v, row));
                    } else {
                        assert(cells@[v] == col);
                        assert(col[row] == init);
                    }
                }
            }
            w = w + 1;
        }
        Assignment { n_rows, next_row: 0, cells, copies: Vec::new() }
    }

    /// Hands out the next row block of `height` rows and returns its first row.
    pub fn region(&mut self, height: usize) -> (res: Result<usize, SynthError>)
        ensures
            final(self).n_rows == old(self).n_rows,
            final(self).cells@ == old(self).cells@,
            final(self).copies@ == old(self).copies@,
            res is Ok <==> old(self).next_row + height <= old(self).n_rows,
            res is Err ==> res == Err::<usize, SynthError>(SynthError::NotEnoughRows)
                && final(self).next_row == old(self).next_row,
            res is Ok ==> res == Ok::<usize, SynthError>(old(self).next_row)
                && final(self).next_row == old(self).next_row + height,
    {
        if height <= self.n_rows && self.next_row <= self.n_rows - height {
            let base = self.next_row;
            self.next_row = base + height;
            Ok(base)
        } else {
            Err(SynthError::NotEnoughRows)
        }
    }

    /// Writes `v` into cell `c`.
    pub fn assign(&mut self, c: CellRef, v: Option<u64>)
        requires
            c.wire < old(self).cells.len(),
            c.row < old(self).cells[c.wire as int].len(),
        ensures
            final(self).n_rows == old(self).n_rows,
            final(self).next_row == old(self).next_row,
            final(self).copies@ == old(self).copies@,
            cells_updated(old(self).cells@, final(self).cells@, c, v),
    {
        self.cells[c.wire].set(c.row, v);
        proof {
            assert forall|w: int, row: int| #[trigger]
                cell_at(self.cells@, w, row) == if w == c.wire && row == c.row {
                    v
                } else {
                    cell_at(old(self).cells@, w, row)
                } by {
                if 0 <= w < self.cells.len() && w != c.wire {
                    assert(self.cells@[w] == old(self).cells@[w]);
                }
            }
        }
    }

    /// Lays down a copy constraint between cells `x` and `y`. Both must lie in
    /// the table, on wires enabled for equality.
    pub fn copy(&mut self, cs: &ConstraintSystem, x: CellRef, y: CellRef) -> (res: Result<
        (),
        SynthError,
    >)
        requires
            old(self).wf(cs),
            cs.wf(),
        ensures
            final(self).n_rows == old(self).n_rows,
            final(self).next_row == old(self).next_row,
            final(self).cells@ == old(self).cells@,
            res is Ok <==> (old(self).in_table(x) && old(self).in_table(y) && cs.equality[x.wire as int]
                && cs.equality[y.wire as int]),
            res is Ok ==> final(self).copies@ == old(self).copies@.push((x, y)),
            res is Err ==> final(self).copies@ == old(self).copies@,
            res == Err::<(), SynthError>(SynthError::CellOutOfRange) <==> !(old(self).in_table(x)
                && old(self).in_table(y)),
            res is Err ==> res == Err::<(), SynthError>(SynthError::CellOutOfRange) || res == Err::<
                (),
                SynthError,
            >(SynthError::NotCopyable),
    {
        if !(x.wire < self.cells.len() && x.row < self.n_rows && y.wire < self.cells.len() && y.row
            < self.n_rows) {
            return Err(SynthError::CellOutOfRange);
        }
        if !(cs.equality[x.wire] && cs.equality[y.wire]) {
            return Err(SynthError::NotCopyable);
        }
        self.copies.push((x, y));
        Ok(())
    }

    /// Reads cell `(w, row)`.
    pub fn read(&self, w: usize, row: usize) -> (r: Option<u64>)
        ensures
            r == cell_at(self.cells@, w as int, row as int),
    {
        if w < self.cells.len() && row < self.cells[w].len() {
            self.cells[w][row]
        } else {
            None
        }
    }

    /// The polynomial of `g` on `row`, reduced modulo `p`.
    pub fn eval_gate(&self, p: u64, g: Gate, row: usize) -> (r: Option<u64>)
        requires
            p >= 1,
            row < usize::MAX,
        ensures
            match r {
                Some(x) => gate_poly(p as int, g, self.cells@, row as int) == Some(x as int),
                None => gate_poly(p as int, g, self.cells@, row as int) is None,
            },
    {
        let ghost pi = p as int;
        match g {
            Gate::Boolean { c, .. } => match self.read(c, row) {
                Some(cv) => {
                    let omc = sub_mod(p, 1, cv);
                    let v = mul_mod(p, cv, omc);
                    proof {
                        lemma_mul_mod_noop_right(cv as int, 1 - cv as int, pi);
                    }
                    Some(v)
                },
                None => None,
            },
            Gate::Swap { a, b, c, .. } => {
                match (
                    self.read(a, row),
                    self.read(b, row),
                    self.read(c, row),
                    self.read(a, row + 1),
                    self.read(b, row + 1),
                ) {
                    (Some(av), Some(bv), Some(cv), Some(lv), Some(rv)) => {
                        let d1 = sub_mod(p, bv, av);
                        let m1 = mul_mod(p, cv, d1);
                        let ghost x1 = cv as int * (bv as int - av as int);
                        proof {
                            lemma_mul_mod_noop_right(cv as int, bv as int - av as int, pi);
                        }
                        let m2 = add_mod(p, m1, m1);
                        let ghost x2 = 2 * cv as int * (bv as int - av as int);
                        assert(m2 == x2 % pi) by {
                            lemma_add_mod_noop(x1, x1, pi);
                            assert(x1 + x1 == x2) by (nonlinear_arith)
                                requires
                                    x1 == cv as int * (bv as int - av as int),
                                    x2 == 2 * cv as int * (bv as int - av as int),
                            ;
                        }
                        let d2 = sub_mod(p, lv, av);
                        let s1 = sub_mod(p, m2, d2);
                        let ghost x3 = x2 - (lv as int - av as int);
                        assert(s1 == x3 % pi) by {
                            lemma_sub_mod_noop(x2, lv as int - av as int, pi);
                        }
                        let d3 = sub_mod(p, bv, rv);
                        let s2 = sub_mod(p, s1, d3);
                        assert(s2 == (x3 - (bv as int - rv as int)) % pi) by {
                            lemma_sub_mod_noop(x3, bv as int - rv as int, pi);
                        }
                        Some(s2)
                    },
                    _ => None,
                }
            },
            Gate::SwapLeft { a, b, c, .. } => {
                match (
                    self.read(a, row),
                    self.read(b, row),
                    self.read(c, row),
                    self.read(a, row + 1),
                ) {
                    (Some(av), Some(bv), Some(cv), Some(lv)) => {
                        let d1 = sub_mod(p, bv, av);
                        let m1 = mul_mod(p, cv, d1);
                        let ghost x1 = cv as int * (bv as int - av as int);
                        proof {
                            lemma_mul_mod_noop_right(cv as int, bv as int - av as int, pi);
                        }
                        let d2 = sub_mod(p, lv, av);
                        let s1 = sub_mod(p, m1, d2);
                        assert(s1 == (x1 - (lv as int - av as int)) % pi) by {
                            lemma_sub_mod_noop(x1, lv as int - av as int, pi);
                        }
                        Some(s1)
                    },
                    _ => None,
                }
            },
            Gate::Combine { kind, l, r, out, .. } => {
                match (self.read(l, row), self.read(r, row), self.read(out, row)) {
                    (Some(lv), Some(rv), Some(ov)) => {
                        let cv = combine(p, kind, lv, rv);
                        Some(sub_mod(p, ov, cv))
                    },
                    _ => None,
                }
            },
        }
    }

    /// Whether gate `g` holds on `row`.
    pub fn check_gate(&self, p: u64, g: Gate, row: usize) -> (r: bool)
        requires
            p >= 1,
            row < usize::MAX,
        ensures
            r == gate_holds(p as int, g, self.cells@, row as int),
    {
        let flag = match g {
            Gate::Boolean { flag, .. } => flag,
            Gate::Swap { flag, .. } => flag,
            Gate::SwapLeft { flag, .. } => flag,
            Gate::Combine { flag, .. } => flag,
        };
        if self.read(flag, row) == Some(1u64) {
            match self.eval_gate(p, g, row) {
                Some(v) => v == 0,
                None => false,
            }
        } else {
            true
        }
    }

    /// Whether cells `x` and `y` are known and equal modulo `p`.
    pub fn check_copy(&self, p: u64, x: CellRef, y: CellRef) -> (r: bool)
        requires
            p >= 1,
        ensures
            r == copy_holds(p as int, self.cells@, x, y),
    {
        match (self.read(x.wire, x.row), self.read(y.wire, y.row)) {
            (Some(xv), Some(yv)) => xv % p == yv % p,
            _ => false,
        }
    }

    /// Decides whether the table satisfies shape `cs`: every enabled gate on
    /// every row, and every copy constraint.
    pub fn is_satisfied(&self, cs: &ConstraintSystem) -> (r: bool)
        requires
            cs.wf(),
            self.n_rows < usize::MAX,
        ensures
            r == self.satisfied(cs),
    {
        let p = cs.modulus;
        let mut gi: usize = 0;
        while gi < cs.gates.len()
            invariant
                gi <= cs.gates.len(),
                p == cs.modulus,
                p >= 2,
                self.n_rows < usize::MAX,
                forall|gj: int, row: int|
                    0 <= gj < gi && 0 <= row < self.n_rows ==> #[trigger] gate_holds(
                        p as int,
                        cs.gates[gj],
                        self.cells@,
                        row,
                    ),
            decreases cs.gates.len() - gi,
        {
            let g = cs.gates[gi];
            let mut row: usize = 0;
            while row < self.n_rows
                invariant
                    row <= self.n_rows,
                    gi < cs.gates.len(),
                    g == cs.gates[gi as int],
                    p == cs.modulus,
                    p >= 2,
                    self.n_rows < usize::MAX,
                    forall|gj: int, r: int|
                        0 <= gj < gi && 0 <= r < self.n_rows ==> #[trigger] gate_holds(
                            p as int,
                            cs.gates[gj],
                            self.cells@,
                            r,
                        ),
                    forall|r: int| 0 <= r < row ==> #[trigger] gate_holds(p as int, g, self.cells@, r),
                decreases self.n_rows - row,
            {
                if !self.check_gate(p, g, row) {
                    return false;
                }
                row = row + 1;
            }
            proof {
                assert forall|gj: int, r: int|
                    0 <= gj < gi + 1 && 0 <= r < self.n_rows implies #[trigger] gate_holds(
                    p as int,
                    cs.gates[gj],
                    self.cells@,
                    r,
                ) by {
                    if gj == gi {
                        assert(gate_holds(p as int, g, self.cells@, r));
                    }
                }
            }
            gi = gi + 1;
        }
        let mut ci: usize = 0;
        while ci < self.copies.len()
            invariant
                ci <= self.copies.len(),
                p == cs.modulus,
                p >= 2,
                forall|gj: int, row: int|
                    0 <= gj < cs.gates.len() && 0 <= row < self.n_rows ==> #[trigger] gate_holds(
                        p as int,
                        cs.gates[gj],
                        self.cells@,
                        row,
                    ),
                forall|cj: int|
                    0 <= cj < ci ==> copy_holds(
                        p as int,
                        self.cells@,
                        (#[trigger] self.copies[cj]).0,
                        self.copies[cj].1,
                    ),
            decreases self.copies.len() - ci,
        {
            let (x, y) = self.copies[ci];
            if !self.check_copy(p, x, y) {
                return false;
            }
            ci = ci + 1;
        }
        true
    }

    /// Binds the verifier's public values to public wire `w`: row `i` gets
    /// `values[i]`, the other rows keep their cells.
    pub fn bind_instance(&mut self, cs: &ConstraintSystem, w: usize, values: &Vec<u64>) -> (res:
        Result<(), SynthError>)
        requires
            old(self).wf(cs),
        ensures
            final(self).wf(cs),
            final(self).n_rows == old(self).n_rows,
            final(self).next_row == old(self).next_row,
            final(self).copies@ == old(self).copies@,
            res is Ok <==> (w < cs.roles.len() && values.len() <= old(self).n_rows && cs.roles[w as int]
                == Role::Public),
            res is Err ==> final(self).cells@ == old(self).cells@,
            res == Err::<(), SynthError>(SynthError::CellOutOfRange) <==> !(w < cs.roles.len()
                && values.len() <= old(self).n_rows),
            res is Err ==> res == Err::<(), SynthError>(SynthError::CellOutOfRange) || res == Err::<
                (),
                SynthError,
            >(SynthError::NotPublic),
            res is Ok ==> forall|v: int, row: int| #[trigger]
                cell_at(final(self).cells@, v, row) == if v == w && 0 <= row < values.len() {
                    Some(values[row])
                } else {
                    cell_at(old(self).cells@, v, row)
                },
    {
        if !(w < self.cells.len() && values.len() <= self.n_rows) {
            return Err(SynthError::CellOutOfRange);
        }
        if cs.roles[w] != Role::Public {
            return Err(SynthError::NotPublic);
        }
        let mut i: usize = 0;
        while i < values.len()
            invariant
                i <= values.len(),
                values.len() <= self.n_rows,
                w < self.cells.len(),
                self.wf(cs),
                self.n_rows == old(self).n_rows,
                self.next_row == old(self).next_row,
                self.copies@ == old(self).copies@,
                forall|v: int, row: int| #[trigger]
                    cell_at(self.cells@, v, row) == if v == w && 0 <= row < i {
                        Some(values[row])
                    } else {
                        cell_at(old(self).cells@, v, row)
                    },
            decreases values.len() - i,
        {
            let ghost before = self.cells@;
            self.assign(CellRef { wire: w, row: i }, Some(values[i]));
            proof {
                assert forall|v: int, row: int| #[trigger]
                    cell_at(self.cells@, v, row) == if v == w && 0 <= row < i + 1 {
                        Some(values[row])
                    } else {
                        cell_at(old(self).cells@, v, row)
                    } by {
                    assert(cell_at(before, v, row) == cell_at(before, v, row));
                }
                assert forall|v: int| 0 <= v < self.cells.len() implies (
                #[trigger] self.cells[v]).len() == self.n_rows by {
                    assert(before[v].len() == self.n_rows);
                }
            }
            i = i + 1;
        }
        Ok(())
    }

    /// Every enabled gate of `cs` holds on every row, and every copy holds.
    pub open spec fn satisfied(&self, cs: &ConstraintSystem) -> bool {
        &&& forall|gi: int, row: int|
            0 <= gi < cs.gates.len() && 0 <= row < self.n_rows ==> #[trigger] gate_holds(
                cs.modulus as int,
                cs.gates[gi],
                self.cells@,
                row,
            )
        &&& forall|ci: int|
            0 <= ci < self.copies.len() ==> copy_holds(
                cs.modulus as int,
                self.cells@,
                (#[trigger] self.copies[ci]).0,
                self.copies[ci].1,
            )
    }
}

} // verus!
