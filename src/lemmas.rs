//! What the gadget guarantees, stated over the specifications of the
//! builder, the table and the chip.
use vstd::prelude::*;
use crate::chip::{path_root, swap_spec};
use crate::field::lemma_no_zero_divisors;
use crate::shape::{Combiner, ConstraintSystem};
use crate::witness::{cell_at, gate_enabled, gate_holds, swap_left_poly, swap_poly, Assignment};
use vstd::arithmetic::div_mod::{lemma_mod_equivalence, lemma_mul_mod_noop, lemma_sub_mod_noop};

verus! {

/// A table in which a Boolean gate is enabled on a row
/// whose bit cell holds an element other than 0 and 1 is not satisfied.
pub proof fn lemma_boolean_enforced(cs: &ConstraintSystem, asg: &Assignment, gi: int, row: int)
    requires
        cs.wf(),
        0 <= gi < cs.gates.len(),
        cs.gates[gi] is Boolean,
        0 <= row < asg.n_rows,
        gate_enabled(cs.gates[gi], asg.cells@, row),
        cell_at(asg.cells@, cs.gates[gi]->Boolean_c as int, row) is Some,
        cell_at(asg.cells@, cs.gates[gi]->Boolean_c as int, row)->0 as int % (cs.modulus as int)
            != 0,
        cell_at(asg.cells@, cs.gates[gi]->Boolean_c as int, row)->0 as int % (cs.modulus as int)
            != 1,
    ensures
        !asg.satisfied(cs),
{
    let p = cs.modulus as int;
    let g = cs.gates[gi];
    let cv = cell_at(asg.cells@, g->Boolean_c as int, row)->0 as int;
    let x = cv % p;
    let y = (1 - cv) % p;
    lemma_sub_mod_noop(1, cv, p);
    vstd::arithmetic::div_mod::lemma_small_mod(1, p as nat);
    assert(y == (1 - x) % p);
    assert(y == p + 1 - x) by {
        vstd::arithmetic::div_mod::lemma_mod_add_multiples_vanish(1 - x, p);
        vstd::arithmetic::div_mod::lemma_small_mod((p + 1 - x) as nat, p as nat);
    }
    lemma_mul_mod_noop(cv, 1 - cv, p);
    lemma_no_zero_divisors(p, x, y);
    assert(!gate_holds(p, g, asg.cells@, row));
}

/// For a bit `c` in {0, 1}, the witness policy orders `(a, b)` as `(a, b)`
/// when `c = 0` and as `(b, a)` when `c = 1`, and the two swap polynomials
/// both vanish on a next-row pair `(l, r)` exactly when it is that pair, as
/// field elements.
pub proof fn lemma_swap_correct(p: int, a: u64, b: u64, c: u64, l: int, r: int)
    requires
        p >= 2,
        c == 0 || c == 1,
    ensures
        swap_spec(p, Some(a), Some(b), Some(c)) == if c == 0 {
            (Some(a), Some(b))
        } else {
            (Some(b), Some(a))
        },
        ({
            let (bl, br) = if c == 0 {
                (a as int, b as int)
            } else {
                (b as int, a as int)
            };
            (swap_poly(p, a as int, b as int, c as int, l, r) == 0 && swap_left_poly(
                p,
                a as int,
                b as int,
                c as int,
                l,
            ) == 0) <==> (l % p == bl % p && r % p == br % p)
        }),
{
    vstd::arithmetic::div_mod::lemma_small_mod(1, p as nat);
    vstd::arithmetic::div_mod::lemma_small_mod(0, p as nat);
    let (ai, bi, ci) = (a as int, b as int, c as int);
    if c == 0 {
        assert(2 * ci * (bi - ai) - (l - ai) - (bi - r) == (r - bi) - (l - ai)) by (nonlinear_arith)
            requires
                ci == 0,
        ;
        assert(ci * (bi - ai) - (l - ai) == 0 - (l - ai)) by (nonlinear_arith)
            requires
                ci == 0,
        ;
        lemma_mod_equivalence(r - bi, l - ai, p);
        lemma_mod_equivalence(0, l - ai, p);
        lemma_mod_equivalence(l, ai, p);
        lemma_mod_equivalence(r, bi, p);
    } else {
        assert(2 * ci * (bi - ai) - (l - ai) - (bi - r) == (r - ai) - (l - bi)) by (nonlinear_arith)
            requires
                ci == 1,
        ;
        assert(ci * (bi - ai) - (l - ai) == bi - l) by (nonlinear_arith)
            requires
                ci == 1,
        ;
        lemma_mod_equivalence(r - ai, l - bi, p);
        lemma_mod_equivalence(bi, l, p);
        lemma_mod_equivalence(l, bi, p);
        lemma_mod_equivalence(r, ai, p);
        lemma_mod_equivalence(l - bi, 0, p);
    }
}

/// The root depends on the leaf and on the first `n` siblings and bits
/// alone: two runs on the same inputs reach the same root.
pub proof fn lemma_root_deterministic(
    p: int,
    kind: Combiner,
    leaf: Option<u64>,
    elements1: Seq<Option<u64>>,
    indices1: Seq<Option<u64>>,
    elements2: Seq<Option<u64>>,
    indices2: Seq<Option<u64>>,
    n: nat,
)
    requires
        n <= elements1.len() && n <= elements2.len(),
        n <= indices1.len() && n <= indices2.len(),
        elements1.take(n as int) == elements2.take(n as int),
        indices1.take(n as int) == indices2.take(n as int),
    ensures
        path_root(p, kind, leaf, elements1, indices1, n) == path_root(
            p,
            kind,
            leaf,
            elements2,
            indices2,
            n,
        ),
    decreases n,
{
    if n > 0 {
        let m = (n - 1) as nat;
        assert(elements1.take(m as int) == elements1.take(n as int).take(m as int));
        assert(elements2.take(m as int) == elements2.take(n as int).take(m as int));
        assert(indices1.take(m as int) == indices1.take(n as int).take(m as int));
        assert(indices2.take(m as int) == indices2.take(n as int).take(m as int));
        assert(elements1[m as int] == elements1.take(n as int)[m as int]);
        assert(elements2[m as int] == elements2.take(n as int)[m as int]);
        assert(indices1[m as int] == indices1.take(n as int)[m as int]);
        assert(indices2[m as int] == indices2.take(n as int)[m as int]);
        lemma_root_deterministic(p, kind, leaf, elements1, indices1, elements2, indices2, m);
    }
}

/// A known root comes only from a known leaf, known siblings and known bits.
pub proof fn lemma_known_root_known_path(
    p: int,
    kind: Combiner,
    leaf: Option<u64>,
    elements: Seq<Option<u64>>,
    indices: Seq<Option<u64>>,
    n: nat,
)
    requires
        n <= elements.len(),
        n <= indices.len(),
        path_root(p, kind, leaf, elements, indices, n) is Some,
    ensures
        leaf is Some,
        forall|j: int| 0 <= j < n ==> (#[trigger] elements[j]) is Some && indices[j] is Some,
    decreases n,
{
    if n > 0 {
        let m = (n - 1) as nat;
        let node = path_root(p, kind, leaf, elements, indices, m);
        assert(swap_spec(p, node, elements[m as int], indices[m as int]).0 is Some);
        lemma_known_root_known_path(p, kind, leaf, elements, indices, m);
    }
}

/// A path of length zero has the leaf as its root.
pub proof fn lemma_empty_path(
    p: int,
    kind: Combiner,
    leaf: Option<u64>,
    elements: Seq<Option<u64>>,
    indices: Seq<Option<u64>>,
)
    requires
        elements.len() == 0,
        indices.len() == 0,
    ensures
        path_root(p, kind, leaf, elements, indices, elements.len()) == leaf,
{
}

} // verus!
