//! The Merkle inclusion chip: per tree level, one row block that constrains
//! the direction bit to be boolean, orders the node and its sibling by that
//! bit, and combines the ordered pair into the parent node.
//!
//! Layout of the block for one level, starting at row `base`:
//!
//! | row        | a        | b       | c     | flags          |
//! |------------|----------|---------|-------|----------------|
//! | `base`     | node     | sibling | bit   | boolean, swap  |
//! | `base + 1` | left     | right   | out   | combine        |
use vstd::prelude::*;
use crate::field::is_zero_mod;
use crate::shape::{
    combine, combine_spec, gate_roles_fit, Combiner, ConstraintSystem, Gate, Role,
};
use crate::witness::{cell_at, cells_updated, Assignment, CellRef, SynthError};
use crate::layout::layout_sound;

verus! {

/// The wires and gates of the chip.
#[derive(Clone, Copy, Debug, PartialEq, Eq, Structural)]
pub struct MyMIPConfigV2 {
    pub col_a: usize,
    pub col_b: usize,
    pub col_c: usize,
    pub bool_selector: usize,
    pub swap_selector: usize,
    pub combine_selector: usize,
    pub instance: usize,
    pub combiner: Combiner,
}

/// The chip, holding its configuration.
#[derive(Clone, Copy, Debug)]
pub struct MyMIPChipV2 {
    pub config: MyMIPConfigV2,
}

/// The direction-bit policy: a zero bit keeps `(node, sibling)`, any other
/// bit swaps them; an unknown bit leaves both unknown.
pub open spec fn swap_spec(p: int, a: Option<u64>, b: Option<u64>, c: Option<u64>) -> (
    Option<u64>,
    Option<u64>,
) {
    match c {
        None => (None, None),
        Some(cv) => if cv as int % p == 0 {
            (a, b)
        } else {
            (b, a)
        },
    }
}

/// The parent of `node` at one level: order by the bit, then combine.
pub open spec fn level_spec(
    p: int,
    kind: Combiner,
    node: Option<u64>,
    sibling: Option<u64>,
    bit: Option<u64>,
) -> Option<u64> {
    match swap_spec(p, node, sibling, bit) {
        (Some(l), Some(r)) => Some(combine_spec(p, kind, l as int, r as int) as u64),
        _ => None,
    }
}

/// The node reached from `leaf` after the first `n` levels of the path.
pub open spec fn path_root(
    p: int,
    kind: Combiner,
    leaf: Option<u64>,
    elements: Seq<Option<u64>>,
    indices: Seq<Option<u64>>,
    n: nat,
) -> Option<u64>
    decreases n,
{
    if n == 0 {
        leaf
    } else {
        level_spec(
            p,
            kind,
            path_root(p, kind, leaf, elements, indices, (n - 1) as nat),
            elements[n - 1],
            indices[n - 1],
        )
    }
}

/// The seven wires of the configuration are pairwise distinct.
pub open spec fn config_wires_distinct(cfg: MyMIPConfigV2) -> bool {
    let ws = seq![
        cfg.col_a,
        cfg.col_b,
        cfg.col_c,
        cfg.bool_selector,
        cfg.swap_selector,
        cfg.combine_selector,
        cfg.instance,
    ];
    forall|i: int, j: int| 0 <= i < j < 7 ==> ws[i] != ws[j]
}

/// The four gates the chip declares, in order.
pub open spec fn chip_gates(cfg: MyMIPConfigV2) -> Seq<Gate> {
    seq![
        Gate::Boolean { flag: cfg.bool_selector, c: cfg.col_c },
        Gate::Swap { flag: cfg.swap_selector, a: cfg.col_a, b: cfg.col_b, c: cfg.col_c },
        Gate::Combine {
            flag: cfg.combine_selector,
            kind: cfg.combiner,
            l: cfg.col_a,
            r: cfg.col_b,
            out: cfg.col_c,
        },
        Gate::SwapLeft { flag: cfg.swap_selector, a: cfg.col_a, b: cfg.col_b, c: cfg.col_c },
    ]
}

/// The pairwise distinctness of the configuration's wires, spelled out.
pub proof fn lemma_config_distinct(cfg: MyMIPConfigV2)
    requires
        config_wires_distinct(cfg),
    ensures
        cfg.col_a != cfg.col_b && cfg.col_a != cfg.col_c && cfg.col_b != cfg.col_c,
        cfg.col_a != cfg.bool_selector && cfg.col_a != cfg.swap_selector && cfg.col_a
            != cfg.combine_selector && cfg.col_a != cfg.instance,
        cfg.col_b != cfg.bool_selector && cfg.col_b != cfg.swap_selector && cfg.col_b
            != cfg.combine_selector && cfg.col_b != cfg.instance,
        cfg.col_c != cfg.bool_selector && cfg.col_c != cfg.swap_selector && cfg.col_c
            != cfg.combine_selector && cfg.col_c != cfg.instance,
        cfg.bool_selector != cfg.swap_selector && cfg.bool_selector != cfg.combine_selector
            && cfg.bool_selector != cfg.instance,
        cfg.swap_selector != cfg.combine_selector && cfg.swap_selector != cfg.instance,
        cfg.combine_selector != cfg.instance,
{
    let ws = seq![
        cfg.col_a,
        cfg.col_b,
        cfg.col_c,
        cfg.bool_selector,
        cfg.swap_selector,
        cfg.combine_selector,
        cfg.instance,
    ];
    assert(ws[0] != ws[1] && ws[0] != ws[2] && ws[0] != ws[3] && ws[0] != ws[4] && ws[0] != ws[5]
        && ws[0] != ws[6]);
    assert(ws[1] != ws[2] && ws[1] != ws[3] && ws[1] != ws[4] && ws[1] != ws[5] && ws[1] != ws[6]);
    assert(ws[2] != ws[3] && ws[2] != ws[4] && ws[2] != ws[5] && ws[2] != ws[6]);
    assert(ws[3] != ws[4] && ws[3] != ws[5] && ws[3] != ws[6]);
    assert(ws[4] != ws[5] && ws[4] != ws[6]);
    assert(ws[5] != ws[6]);
}

/// The configuration describes shape `cs`: the wires exist with their roles,
/// the value wires and the public wire take copies, and the three gates are
/// declared.
pub open spec fn config_fits(cfg: MyMIPConfigV2, cs: &ConstraintSystem) -> bool {
    &&& cs.wf()
    &&& config_wires_distinct(cfg)
    &&& cfg.col_a < cs.roles.len() && cs.roles[cfg.col_a as int] == Role::Witness
    &&& cfg.col_b < cs.roles.len() && cs.roles[cfg.col_b as int] == Role::Witness
    &&& cfg.col_c < cs.roles.len() && cs.roles[cfg.col_c as int] == Role::Witness
    &&& cfg.bool_selector < cs.roles.len() && cs.roles[cfg.bool_selector as int] == Role::Fixed
    &&& cfg.swap_selector < cs.roles.len() && cs.roles[cfg.swap_selector as int] == Role::Fixed
    &&& cfg.combine_selector < cs.roles.len() && cs.roles[cfg.combine_selector as int]
        == Role::Fixed
    &&& cfg.instance < cs.roles.len() && cs.roles[cfg.instance as int] == Role::Public
    &&& cs.equality[cfg.col_a as int] && cs.equality[cfg.col_b as int]
    &&& cs.equality[cfg.col_c as int] && cs.equality[cfg.instance as int]
    &&& cs.gates@.contains(Gate::Boolean { flag: cfg.bool_selector, c: cfg.col_c })
    &&& cs.gates@.contains(
        Gate::Swap { flag: cfg.swap_selector, a: cfg.col_a, b: cfg.col_b, c: cfg.col_c },
    )
    &&& cs.gates@.contains(
        Gate::SwapLeft { flag: cfg.swap_selector, a: cfg.col_a, b: cfg.col_b, c: cfg.col_c },
    )
    &&& cs.gates@.contains(
        Gate::Combine {
            flag: cfg.combine_selector,
            kind: cfg.combiner,
            l: cfg.col_a,
            r: cfg.col_b,
            out: cfg.col_c,
        },
    )
}

/// Every cell on a row before `row` is the same in both tables.
pub open spec fn rows_kept(before: Seq<Vec<Option<u64>>>, after: Seq<Vec<Option<u64>>>, row: int) -> bool {
    forall|w: int, r: int| r < row ==> #[trigger] cell_at(after, w, r) == cell_at(before, w, r)
}

/// `after` is `before` with one level's block written at rows `base` and
/// `base + 1` (see the layout above), every other cell kept.
pub open spec fn block_written(
    before: Seq<Vec<Option<u64>>>,
    after: Seq<Vec<Option<u64>>>,
    cfg: MyMIPConfigV2,
    base: int,
    node: Option<u64>,
    sibling: Option<u64>,
    bit: Option<u64>,
    l: Option<u64>,
    r: Option<u64>,
    out: Option<u64>,
) -> bool {
    forall|w: int, row: int| #[trigger]
        cell_at(after, w, row) == if row == base && w == cfg.col_a {
            node
        } else if row == base && w == cfg.col_b {
            sibling
        } else if row == base && w == cfg.col_c {
            bit
        } else if row == base && (w == cfg.bool_selector || w == cfg.swap_selector) {
            Some(1u64)
        } else if row == base + 1 && w == cfg.col_a {
            l
        } else if row == base + 1 && w == cfg.col_b {
            r
        } else if row == base + 1 && w == cfg.col_c {
            out
        } else if row == base + 1 && w == cfg.combine_selector {
            Some(1u64)
        } else {
            cell_at(before, w, row)
        }
}

/// Every sibling is known and every direction bit is 0 or 1.
pub open spec fn path_ready(elements: Seq<Option<u64>>, indices: Seq<Option<u64>>) -> bool {
    &&& elements.len() == indices.len()
    &&& forall|i: int| 0 <= i < elements.len() ==> (#[trigger] elements[i]) is Some
    &&& forall|i: int|
        0 <= i < indices.len() ==> #[trigger] indices[i] == Some(0u64) || indices[i] == Some(1u64)
}

/// Some copy in `copies` binds public cell `target` to a cell other than `cell`.
pub open spec fn bound_elsewhere(copies: Seq<(CellRef, CellRef)>, target: CellRef, cell: CellRef) -> bool {
    exists|j: int| 0 <= j < copies.len() && (#[trigger] copies[j]).1 == target && copies[j].0 != cell
}

/// Level `i` of a path laid out from row `s`, its copy at `copies[k + i]`:
/// the node, sibling, bit and both first-row flags at row `s + 2i`; the
/// ordered pair, the combined output and the combine flag at the next row;
/// and the copy that links the previous output (`start` for level 0) to the
/// node cell.
pub open spec fn level_laid(
    p: int,
    cfg: MyMIPConfigV2,
    cells: Seq<Vec<Option<u64>>>,
    copies: Seq<(CellRef, CellRef)>,
    s: int,
    k: int,
    start: CellRef,
    leaf: Option<u64>,
    elements: Seq<Option<u64>>,
    indices: Seq<Option<u64>>,
    i: int,
) -> bool {
    let base = s + 2 * i;
    let node = path_root(p, cfg.combiner, leaf, elements, indices, i as nat);
    let pair = swap_spec(p, node, elements[i], indices[i]);
    let prev = if i == 0 {
        start
    } else {
        CellRef { wire: cfg.col_c, row: (base - 1) as usize }
    };
    &&& cell_at(cells, cfg.col_a as int, base) == node
    &&& cell_at(cells, cfg.col_b as int, base) == elements[i]
    &&& cell_at(cells, cfg.col_c as int, base) == indices[i]
    &&& cell_at(cells, cfg.bool_selector as int, base) == Some(1u64)
    &&& cell_at(cells, cfg.swap_selector as int, base) == Some(1u64)
    &&& cell_at(cells, cfg.col_a as int, base + 1) == pair.0
    &&& cell_at(cells, cfg.col_b as int, base + 1) == pair.1
    &&& cell_at(cells, cfg.col_c as int, base + 1) == path_root(
        p,
        cfg.combiner,
        leaf,
        elements,
        indices,
        (i + 1) as nat,
    )
    &&& cell_at(cells, cfg.combine_selector as int, base + 1) == Some(1u64)
    &&& copies[k + i] == (prev, CellRef { wire: cfg.col_a, row: base as usize })
}

/// Cell `(w, row)` is one that the first `m` levels of a path laid out from
/// row `s` write.
pub open spec fn chip_cell(cfg: MyMIPConfigV2, s: int, m: int, w: int, row: int) -> bool {
    &&& s <= row < s + 2 * m
    &&& if (row - s) % 2 == 0 {
        w == cfg.col_a || w == cfg.col_b || w == cfg.col_c || w == cfg.bool_selector || w
            == cfg.swap_selector
    } else {
        w == cfg.col_a || w == cfg.col_b || w == cfg.col_c || w == cfg.combine_selector
    }
}

/// Decides [`bound_elsewhere`].
pub fn is_bound_elsewhere(copies: &Vec<(CellRef, CellRef)>, target: CellRef, cell: CellRef) -> (r:
    bool)
    ensures
        r == bound_elsewhere(copies@, target, cell),
{
    let mut j: usize = 0;
    while j < copies.len()
        invariant
            j <= copies.len(),
            forall|k: int| 0 <= k < j ==> !((#[trigger] copies[k]).1 == target && copies[k].0 != cell),
        decreases copies.len() - j,
    {
        let (x, y) = copies[j];
        if y == target && x != cell {
            assert(copies[j as int] == (x, y));
            return true;
        }
        j = j + 1;
    }
    false
}

/// Every cell of wire `w` is the same in both tables.
pub open spec fn wire_kept(before: Seq<Vec<Option<u64>>>, after: Seq<Vec<Option<u64>>>, w: int) -> bool {
    forall|r: int| #[trigger] cell_at(after, w, r) == cell_at(before, w, r)
}

/// Orders `(a, b)` by the direction bit `c`, following [`swap_spec`].
pub fn swap_values(p: u64, a: Option<u64>, b: Option<u64>, c: Option<u64>) -> (r: (
    Option<u64>,
    Option<u64>,
))
    requires
        p >= 1,
    ensures
        r == swap_spec(p as int, a, b, c),
{
    match c {
        None => (None, None),
        Some(cv) => if is_zero_mod(p, cv) {
            (a, b)
        } else {
            (b, a)
        },
    }
}

/// The parent of `node` at one level, following [`level_spec`].
pub fn level_value(
    p: u64,
    kind: Combiner,
    node: Option<u64>,
    sibling: Option<u64>,
    bit: Option<u64>,
) -> (r: Option<u64>)
    requires
        p >= 1,
    ensures
        r == level_spec(p as int, kind, node, sibling, bit),
{
    match swap_values(p, node, sibling, bit) {
        (Some(l), Some(r)) => Some(combine(p, kind, l, r)),
        _ => None,
    }
}

/// The root reached from `leaf` along the whole path: the value that a run
/// of the chip commits to its output cell.
pub fn root_value(
    p: u64,
    kind: Combiner,
    leaf: Option<u64>,
    elements: &Vec<Option<u64>>,
    indices: &Vec<Option<u64>>,
) -> (r: Option<u64>)
    requires
        p >= 1,
        elements.len() == indices.len(),
    ensures
        r == path_root(p as int, kind, leaf, elements@, indices@, elements.len() as nat),
{
    let mut node = leaf;
    let mut i: usize = 0;
    while i < elements.len()
        invariant
            p >= 1,
            elements.len() == indices.len(),
            i <= elements.len(),
            node == path_root(p as int, kind, leaf, elements@, indices@, i as nat),
        decreases elements.len() - i,
    {
        node = level_value(p, kind, node, elements[i], indices[i]);
        i = i + 1;
    }
    node
}

impl MyMIPChipV2 {
    /// A chip over a configuration.
    pub fn construct(config: MyMIPConfigV2) -> (chip: Self)
        ensures
            chip.config == config,
    {
        MyMIPChipV2 { config }
    }

    /// Adds the chip's flags and gates to `cs` over the given value wires and
    /// public wire, and enables them for copies.
    pub fn configure(
        cs: &mut ConstraintSystem,
        col_a: usize,
        col_b: usize,
        col_c: usize,
        instance: usize,
        combiner: Combiner,
    ) -> (cfg: MyMIPConfigV2)
        requires
            old(cs).wf(),
            old(cs).roles.len() + 3 < usize::MAX,
            col_a < old(cs).roles.len() && old(cs).roles[col_a as int] == Role::Witness,
            col_b < old(cs).roles.len() && old(cs).roles[col_b as int] == Role::Witness,
            col_c < old(cs).roles.len() && old(cs).roles[col_c as int] == Role::Witness,
            instance < old(cs).roles.len() && old(cs).roles[instance as int] == Role::Public,
            col_a != col_b && col_b != col_c && col_a != col_c,
        ensures
            config_fits(cfg, final(cs)),
            cfg.col_a == col_a && cfg.col_b == col_b && cfg.col_c == col_c,
            cfg.instance == instance && cfg.combiner == combiner,
            final(cs).modulus == old(cs).modulus,
            final(cs).roles@ == old(cs).roles@ + seq![Role::Fixed, Role::Fixed, Role::Fixed],
            final(cs).gates@ == old(cs).gates@ + chip_gates(cfg),
    {
        let bool_selector = cs.declare_wire(Role::Fixed);
        let swap_selector = cs.declare_wire(Role::Fixed);
        let combine_selector = cs.declare_wire(Role::Fixed);
        let _ = cs.enable_equality(col_a);
        let _ = cs.enable_equality(col_b);
        let _ = cs.enable_equality(col_c);
        let _ = cs.enable_equality(instance);
        let g_bool = Gate::Boolean { flag: bool_selector, c: col_c };
        let g_swap = Gate::Swap { flag: swap_selector, a: col_a, b: col_b, c: col_c };
        let g_comb = Gate::Combine {
            flag: combine_selector,
            kind: combiner,
            l: col_a,
            r: col_b,
            out: col_c,
        };
        let g_left = Gate::SwapLeft { flag: swap_selector, a: col_a, b: col_b, c: col_c };
        let ghost roles = cs.roles@;
        assert(gate_roles_fit(g_left, roles));
        assert(gate_roles_fit(g_bool, roles));
        assert(gate_roles_fit(g_swap, roles));
        assert(gate_roles_fit(g_comb, roles));
        let _ = cs.declare_gate(g_bool);
        let _ = cs.declare_gate(g_swap);
        let _ = cs.declare_gate(g_comb);
        let _ = cs.declare_gate(g_left);
        let cfg = MyMIPConfigV2 {
            col_a,
            col_b,
            col_c,
            bool_selector,
            swap_selector,
            combine_selector,
            instance,
            combiner,
        };
        proof {
            let gs = cs.gates@;
            let n = gs.len();
            assert(gs[n - 4] == g_bool);
            assert(gs[n - 3] == g_swap);
            assert(gs[n - 2] == g_comb);
            assert(gs[n - 1] == g_left);
            assert(cs.roles@ =~= old(cs).roles@ + seq![Role::Fixed, Role::Fixed, Role::Fixed]);
            assert(cs.gates@ =~= old(cs).gates@ + chip_gates(cfg));
        }
        cfg
    }

    /// Loads the private leaf into column `a` of a fresh one-row block and
    /// returns its cell.
    pub fn load_private(&self, cs: &ConstraintSystem, asg: &mut Assignment, leaf: Option<u64>) -> (res:
        Result<CellRef, SynthError>)
        requires
            config_fits(self.config, cs),
            old(asg).wf(cs),
        ensures
            final(asg).wf(cs),
            final(asg).n_rows == old(asg).n_rows,
            final(asg).copies@ == old(asg).copies@,
            rows_kept(old(asg).cells@, final(asg).cells@, old(asg).next_row as int),
            wire_kept(old(asg).cells@, final(asg).cells@, self.config.instance as int),
            res is Ok <==> old(asg).next_row < old(asg).n_rows,
            res is Err ==> res == Err::<CellRef, SynthError>(SynthError::NotEnoughRows)
                && final(asg).cells@ == old(asg).cells@ && final(asg).next_row == old(asg).next_row,
            res is Ok ==> {
                let cell = res->Ok_0;
                &&& cell == CellRef { wire: self.config.col_a, row: old(asg).next_row }
                &&& final(asg).next_row == old(asg).next_row + 1
                &&& final(asg).value(cell) == leaf
                &&& cells_updated(old(asg).cells@, final(asg).cells@, cell, leaf)
            },
    {
        let base = asg.region(1)?;
        let cell = CellRef { wire: self.config.col_a, row: base };
        asg.assign(cell, leaf);
        Ok(cell)
    }

    /// Binds `cell` to row `row` of the public wire. A public row already
    /// bound to another cell is refused.
    pub fn expose_public(
        &self,
        cs: &ConstraintSystem,
        asg: &mut Assignment,
        cell: CellRef,
        row: usize,
    ) -> (res: Result<(), SynthError>)
        requires
            config_fits(self.config, cs),
            old(asg).wf(cs),
        ensures
            final(asg).wf(cs),
            final(asg).n_rows == old(asg).n_rows,
            final(asg).next_row == old(asg).next_row,
            final(asg).cells@ == old(asg).cells@,
            res is Ok <==> (old(asg).in_table(cell) && row < old(asg).n_rows
                && cs.equality[cell.wire as int] && !bound_elsewhere(
                old(asg).copies@,
                CellRef { wire: self.config.instance, row },
                cell,
            )),
            res == Err::<(), SynthError>(SynthError::PublicRowReused) <==> bound_elsewhere(
                old(asg).copies@,
                CellRef { wire: self.config.instance, row },
                cell,
            ),
            res is Ok ==> final(asg).copies@ == old(asg).copies@.push(
                (cell, CellRef { wire: self.config.instance, row }),
            ),
            res is Err ==> final(asg).copies@ == old(asg).copies@,
    {
        let target = CellRef { wire: self.config.instance, row };
        if is_bound_elsewhere(&asg.copies, target, cell) {
            return Err(SynthError::PublicRowReused);
        }
        asg.copy(cs, cell, target)
    }

    /// Lays out one tree level in a fresh two-row block: copies the incoming
    /// node `prev` into `a`, the sibling into `b` and the bit into `c`, enables
    /// the boolean and swap gates, writes the ordered pair on the next row and
    /// the combined parent into its `c` cell, which it returns.
    pub fn merkle_prove_row(
        &self,
        cs: &ConstraintSystem,
        asg: &mut Assignment,
        prev: CellRef,
        element: Option<u64>,
        index: Option<u64>,
    ) -> (res: Result<CellRef, SynthError>)
        requires
            config_fits(self.config, cs),
            old(asg).wf(cs),
            old(asg).in_table(prev),
            prev.row < old(asg).next_row,
            cs.equality[prev.wire as int],
        ensures
            final(asg).wf(cs),
            final(asg).n_rows == old(asg).n_rows,
            rows_kept(old(asg).cells@, final(asg).cells@, old(asg).next_row as int),
            wire_kept(old(asg).cells@, final(asg).cells@, self.config.instance as int),
            res is Ok <==> old(asg).next_row + 2 <= old(asg).n_rows,
            res is Err ==> res == Err::<CellRef, SynthError>(SynthError::NotEnoughRows)
                && final(asg).cells@ == old(asg).cells@ && final(asg).next_row == old(asg).next_row
                && final(asg).copies@ == old(asg).copies@,
            res is Ok ==> {
                let out = res->Ok_0;
                let base = old(asg).next_row;
                &&& out == CellRef { wire: self.config.col_c, row: (base + 1) as usize }
                &&& final(asg).next_row == base + 2
                &&& final(asg).copies@ == old(asg).copies@.push(
                    (prev, CellRef { wire: self.config.col_a, row: base }),
                )
                &&& final(asg).value(out) == level_spec(
                    cs.modulus as int,
                    self.config.combiner,
                    old(asg).value(prev),
                    element,
                    index,
                )
                &&& {
                    let (l, r) = swap_spec(cs.modulus as int, old(asg).value(prev), element, index);
                    block_written(
                        old(asg).cells@,
                        final(asg).cells@,
                        self.config,
                        base as int,
                        old(asg).value(prev),
                        element,
                        index,
                        l,
                        r,
                        final(asg).value(out),
                    )
                }
            },
    {
        let cfg = self.config;
        let p = cs.modulus;
        let node = asg.read(prev.wire, prev.row);
        let base = asg.region(2)?;
        let ghost c0 = asg.cells@;
        let a0 = CellRef { wire: cfg.col_a, row: base };
        asg.assign(a0, node);
        let ghost c1 = asg.cells@;
        let copied = asg.copy(cs, prev, a0);
        assert(copied is Ok);
        asg.assign(CellRef { wire: cfg.col_b, row: base }, element);
        let ghost c2 = asg.cells@;
        asg.assign(CellRef { wire: cfg.col_c, row: base }, index);
        let ghost c3 = asg.cells@;
        asg.assign(CellRef { wire: cfg.bool_selector, row: base }, Some(1));
        let ghost c4 = asg.cells@;
        asg.assign(CellRef { wire: cfg.swap_selector, row: base }, Some(1));
        let ghost c5 = asg.cells@;
        asg.assign(CellRef { wire: cfg.combine_selector, row: base + 1 }, Some(1));
        let ghost c6 = asg.cells@;
        let (l, r) = swap_values(p, node, element, index);
        asg.assign(CellRef { wire: cfg.col_a, row: base + 1 }, l);
        let ghost c7 = asg.cells@;
        asg.assign(CellRef { wire: cfg.col_b, row: base + 1 }, r);
        let ghost c8 = asg.cells@;
        let out_val = match (l, r) {
            (Some(lv), Some(rv)) => Some(combine(p, cfg.combiner, lv, rv)),
            _ => None,
        };
        let out = CellRef { wire: cfg.col_c, row: base + 1 };
        asg.assign(out, out_val);
        proof {
            assert(cell_at(asg.cells@, out.wire as int, out.row as int) == out_val);
            assert forall|w: int, row: int| #[trigger]
                cell_at(asg.cells@, w, row) == if row == base && w == cfg.col_a {
                    node
                } else if row == base && w == cfg.col_b {
                    element
                } else if row == base && w == cfg.col_c {
                    index
                } else if row == base && (w == cfg.bool_selector || w == cfg.swap_selector) {
                    Some(1u64)
                } else if row == base + 1 && w == cfg.col_a {
                    l
                } else if row == base + 1 && w == cfg.col_b {
                    r
                } else if row == base + 1 && w == cfg.col_c {
                    out_val
                } else if row == base + 1 && w == cfg.combine_selector {
                    Some(1u64)
                } else {
                    cell_at(old(asg).cells@, w, row)
                } by {
                lemma_config_distinct(cfg);
                assert(cell_at(c0, w, row) == cell_at(old(asg).cells@, w, row));
                assert(cell_at(c1, w, row) == if w == cfg.col_a && row == base {
                    node
                } else {
                    cell_at(c0, w, row)
                });
                assert(cell_at(c2, w, row) == if w == cfg.col_b && row == base {
                    element
                } else {
                    cell_at(c1, w, row)
                });
                assert(cell_at(c3, w, row) == if w == cfg.col_c && row == base {
                    index
                } else {
                    cell_at(c2, w, row)
                });
                assert(cell_at(c4, w, row) == if w == cfg.bool_selector && row == base {
                    Some(1u64)
                } else {
                    cell_at(c3, w, row)
                });
                assert(cell_at(c5, w, row) == if w == cfg.swap_selector && row == base {
                    Some(1u64)
                } else {
                    cell_at(c4, w, row)
                });
                assert(cell_at(c6, w, row) == if w == cfg.combine_selector && row == base + 1 {
                    Some(1u64)
                } else {
                    cell_at(c5, w, row)
                });
                assert(cell_at(c7, w, row) == if w == cfg.col_a && row == base + 1 {
                    l
                } else {
                    cell_at(c6, w, row)
                });
                assert(cell_at(c8, w, row) == if w == cfg.col_b && row == base + 1 {
                    r
                } else {
                    cell_at(c7, w, row)
                });
                assert(cell_at(asg.cells@, w, row) == if w == cfg.col_c && row == base + 1 {
                    out_val
                } else {
                    cell_at(c8, w, row)
                });
            }
            assert forall|row: int| #[trigger] cell_at(asg.cells@, cfg.instance as int, row)
                == cell_at(old(asg).cells@, cfg.instance as int, row) by {
                lemma_config_distinct(cfg);
            }
            assert forall|w: int, row: int| row < base implies #[trigger] cell_at(asg.cells@, w, row)
                == cell_at(old(asg).cells@, w, row) by {}
        }
        Ok(out)
    }

    /// Chains one row block per tree level, leaf to root, threading each
    /// block's output into the next block's node, and returns the cell of the
    /// computed root. A path of length zero returns `start` itself.
    pub fn merkle_prove(
        &self,
        cs: &ConstraintSystem,
        asg: &mut Assignment,
        start: CellRef,
        elements: &Vec<Option<u64>>,
        indices: &Vec<Option<u64>>,
    ) -> (res: Result<CellRef, SynthError>)
        requires
            config_fits(self.config, cs),
            old(asg).wf(cs),
            old(asg).in_table(start),
            start.row < old(asg).next_row,
            cs.equality[start.wire as int],
            elements.len() == indices.len(),
        ensures
            final(asg).wf(cs),
            final(asg).n_rows == old(asg).n_rows,
            rows_kept(old(asg).cells@, final(asg).cells@, old(asg).next_row as int),
            wire_kept(old(asg).cells@, final(asg).cells@, self.config.instance as int),
            res is Ok <==> old(asg).next_row + 2 * elements.len() <= old(asg).n_rows,
            res is Err ==> res == Err::<CellRef, SynthError>(SynthError::NotEnoughRows),
            ({
                let s = old(asg).next_row as int;
                let k = old(asg).copies.len() as int;
                let m = (final(asg).next_row - s) / 2;
                &&& final(asg).next_row == s + 2 * m
                &&& 0 <= m <= elements.len()
                &&& final(asg).copies.len() == k + m
                &&& res is Ok ==> m == elements.len()
                &&& res is Err ==> m < elements.len() && final(asg).next_row + 2 > final(asg).n_rows
                &&& forall|j: int|
                    0 <= j < m ==> #[trigger] level_laid(
                        cs.modulus as int,
                        self.config,
                        final(asg).cells@,
                        final(asg).copies@,
                        s,
                        k,
                        start,
                        old(asg).value(start),
                        elements@,
                        indices@,
                        j,
                    )
                &&& forall|w: int, row: int|
                    !chip_cell(self.config, s, m, w, row) ==> #[trigger] cell_at(
                        final(asg).cells@,
                        w,
                        row,
                    ) == cell_at(old(asg).cells@, w, row)
            }),
            elements.len() == 0 ==> res == Ok::<CellRef, SynthError>(start) && final(asg).cells@
                == old(asg).cells@ && final(asg).copies@ == old(asg).copies@,
            res is Ok ==> {
                let root = res->Ok_0;
                &&& final(asg).next_row == old(asg).next_row + 2 * elements.len()
                &&& final(asg).copies.len() == old(asg).copies.len() + elements.len()
                &&& forall|j: int|
                    0 <= j < old(asg).copies.len() ==> #[trigger] final(asg).copies[j]
                        == old(asg).copies[j]
                &&& forall|j: int|
                    old(asg).copies.len() <= j < final(asg).copies.len() ==> (#[trigger] final(asg).copies[j]).1.wire == self.config.col_a
                &&& (layout_sound(cs, self.config, old(asg)) && old(asg).value(start) is Some
                    && start.wire != self.config.instance && path_ready(elements@, indices@))
                    ==> layout_sound(cs, self.config, final(asg)) && final(asg).value(root) is Some
                &&& elements.len() > 0 ==> root == (CellRef {
                    wire: self.config.col_c,
                    row: (old(asg).next_row + 2 * elements.len() - 1) as usize,
                })
                &&& final(asg).in_table(root)
                &&& root.row < final(asg).next_row
                &&& cs.equality[root.wire as int]
                &&& final(asg).value(root) == path_root(
                    cs.modulus as int,
                    self.config.combiner,
                    old(asg).value(start),
                    elements@,
                    indices@,
                    elements.len() as nat,
                )
            },
    {
        let ghost ready = layout_sound(cs, self.config, old(asg)) && old(asg).value(start) is Some
            && start.wire != self.config.instance && path_ready(elements@, indices@);
        let mut cur = start;
        let mut i: usize = 0;
        while i < elements.len()
            invariant
                ready == (layout_sound(cs, self.config, old(asg)) && old(asg).value(start) is Some
                    && start.wire != self.config.instance && path_ready(elements@, indices@)),
                ready ==> layout_sound(cs, self.config, asg) && asg.value(cur) is Some && cur.wire
                    != self.config.instance,
                forall|j: int|
                    old(asg).copies.len() <= j < asg.copies.len() ==> (#[trigger] asg.copies[j]).1.wire
                        == self.config.col_a,
                config_fits(self.config, cs),
                elements.len() == indices.len(),
                i <= elements.len(),
                forall|j: int|
                    0 <= j < i ==> #[trigger] level_laid(
                        cs.modulus as int,
                        self.config,
                        asg.cells@,
                        asg.copies@,
                        old(asg).next_row as int,
                        old(asg).copies.len() as int,
                        start,
                        old(asg).value(start),
                        elements@,
                        indices@,
                        j,
                    ),
                forall|w: int, row: int|
                    !chip_cell(self.config, old(asg).next_row as int, i as int, w, row)
                        ==> #[trigger] cell_at(asg.cells@, w, row) == cell_at(
                        old(asg).cells@,
                        w,
                        row,
                    ),
                asg.wf(cs),
                asg.n_rows == old(asg).n_rows,
                asg.next_row == old(asg).next_row + 2 * i,
                asg.copies.len() == old(asg).copies.len() + i,
                wire_kept(old(asg).cells@, asg.cells@, self.config.instance as int),
                forall|j: int|
                    0 <= j < old(asg).copies.len() ==> #[trigger] asg.copies[j]
                        == old(asg).copies[j],
                rows_kept(old(asg).cells@, asg.cells@, old(asg).next_row as int),
                asg.in_table(cur),
                cur.row < asg.next_row,
                i > 0 ==> cur == (CellRef {
                    wire: self.config.col_c,
                    row: (old(asg).next_row + 2 * i - 1) as usize,
                }),
                cs.equality[cur.wire as int],
                i == 0 ==> cur == start && asg.cells@ == old(asg).cells@
                    && asg.copies@ == old(asg).copies@,
                asg.value(cur) == path_root(
                    cs.modulus as int,
                    self.config.combiner,
                    old(asg).value(start),
                    elements@,
                    indices@,
                    i as nat,
                ),
            decreases elements.len() - i,
        {
            let ghost before = asg.cells@;
            let ghost copies_before = asg.copies@;
            let ghost asg_before = *asg;
            let r = self.merkle_prove_row(cs, asg, cur, elements[i], indices[i]);
            match r {
                Ok(next) => {
                    proof {
                        assert forall|w: int, row: int| row < old(asg).next_row implies #[trigger] cell_at(
                            asg.cells@,
                            w,
                            row,
                        ) == cell_at(old(asg).cells@, w, row) by {
                            assert(cell_at(before, w, row) == cell_at(old(asg).cells@, w, row));
                        }
                        assert forall|row: int| #[trigger] cell_at(
                            asg.cells@,
                            self.config.instance as int,
                            row,
                        ) == cell_at(old(asg).cells@, self.config.instance as int, row) by {
                            assert(cell_at(before, self.config.instance as int, row) == cell_at(
                                old(asg).cells@,
                                self.config.instance as int,
                                row,
                            ));
                        }
                        assert forall|j: int| 0 <= j < old(asg).copies.len() implies #[trigger]
                            asg.copies[j] == old(asg).copies[j] by {
                            assert(asg.copies[j] == copies_before[j]);
                        }
                        assert forall|j: int|
                            old(asg).copies.len() <= j < asg.copies.len() implies (
                            #[trigger] asg.copies[j]).1.wire == self.config.col_a by {
                            if j < copies_before.len() {
                                assert(asg.copies[j] == copies_before[j]);
                            }
                        }
                        lemma_config_distinct(self.config);
                        let s = old(asg).next_row as int;
                        let k = old(asg).copies.len() as int;
                        let p = cs.modulus as int;
                        let base = s + 2 * i;
                        assert forall|j: int| 0 <= j < i + 1 implies #[trigger] level_laid(
                            p,
                            self.config,
                            asg.cells@,
                            asg.copies@,
                            s,
                            k,
                            start,
                            old(asg).value(start),
                            elements@,
                            indices@,
                            j,
                        ) by {
                            if j < i {
                                assert(level_laid(
                                    p,
                                    self.config,
                                    before,
                                    copies_before,
                                    s,
                                    k,
                                    start,
                                    old(asg).value(start),
                                    elements@,
                                    indices@,
                                    j,
                                ));
                                let b = s + 2 * j;
                                assert(cell_at(asg.cells@, self.config.col_a as int, b) == cell_at(before, self.config.col_a as int, b));
                                assert(cell_at(asg.cells@, self.config.col_b as int, b) == cell_at(before, self.config.col_b as int, b));
                                assert(cell_at(asg.cells@, self.config.col_c as int, b) == cell_at(before, self.config.col_c as int, b));
                                assert(cell_at(asg.cells@, self.config.bool_selector as int, b) == cell_at(before, self.config.bool_selector as int, b));
                                assert(cell_at(asg.cells@, self.config.swap_selector as int, b) == cell_at(before, self.config.swap_selector as int, b));
                                assert(cell_at(asg.cells@, self.config.col_a as int, b + 1) == cell_at(before, self.config.col_a as int, b + 1));
                                assert(cell_at(asg.cells@, self.config.col_b as int, b + 1) == cell_at(before, self.config.col_b as int, b + 1));
                                assert(cell_at(asg.cells@, self.config.col_c as int, b + 1) == cell_at(before, self.config.col_c as int, b + 1));
                                assert(cell_at(asg.cells@, self.config.combine_selector as int, b + 1) == cell_at(before, self.config.combine_selector as int, b + 1));
                                assert(asg.copies@[k + j] == copies_before[k + j]);
                            } else {
                                assert(cell_at(asg.cells@, self.config.col_a as int, base) == asg_before.value(cur));
                                assert(cell_at(asg.cells@, self.config.col_b as int, base) == elements@[i as int]);
                                assert(cell_at(asg.cells@, self.config.col_c as int, base) == indices@[i as int]);
                                assert(cell_at(asg.cells@, self.config.bool_selector as int, base) == Some(1u64));
                                assert(cell_at(asg.cells@, self.config.swap_selector as int, base) == Some(1u64));
                                assert(cell_at(asg.cells@, self.config.combine_selector as int, base + 1) == Some(1u64));
                                assert(asg.copies@[k + j] == (cur, CellRef { wire: self.config.col_a, row: base as usize }));
                            }
                        }
                        assert forall|w: int, row: int|
                            !chip_cell(self.config, s, i + 1, w, row) implies #[trigger] cell_at(
                            asg.cells@,
                            w,
                            row,
                        ) == cell_at(old(asg).cells@, w, row) by {
                            assert(!chip_cell(self.config, s, i as int, w, row));
                            assert(cell_at(before, w, row) == cell_at(old(asg).cells@, w, row));
                            if row == base {
                                assert((row - s) % 2 == 0);
                            } else if row == base + 1 {
                                assert((row - s) % 2 == 1);
                            }
                        }
                        if ready {
                            crate::layout::lemma_block_keeps_layout(
                                cs,
                                self.config,
                                &asg_before,
                                asg,
                                cur,
                                elements@[i as int],
                                indices@[i as int],
                            );
                        }
                    }
                    cur = next;
                },
                Err(e) => {
                    assert(old(asg).next_row + 2 * elements.len() > old(asg).n_rows);
                    return Err(e);
                },
            }
            i = i + 1;
        }
        Ok(cur)
    }
}

} // verus!
