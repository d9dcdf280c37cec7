//! The circuit shape: wires with their roles, gates, and the wires that may
//! take part in copy constraints. A shape is built once and then shared by
//! every proof instance.
use vstd::prelude::*;
use crate::field::{add_mod, is_prime, mul_mod};
use vstd::arithmetic::div_mod::{lemma_add_mod_noop, lemma_mul_mod_noop};

verus! {

/// What a wire carries.
#[derive(Clone, Copy, Debug, PartialEq, Eq, Structural)]
pub enum Role {
    /// Private values supplied by the prover.
    Witness,
    /// Values exchanged between prover and verifier.
    Public,
    /// Gate-enable flags chosen by the circuit layout (0 or 1 per row).
    Fixed,
}

/// A two-to-one combiner used as the hash step of a Merkle path. Neither
/// variant is a cryptographic hash; the path gadget relies only on the
/// combiner being a function of the ordered pair, checked by one gate.
#[derive(Clone, Copy, Debug, PartialEq, Eq, Structural)]
pub enum Combiner {
    /// `l + r`: a placeholder, not binding in any cryptographic sense.
    Sum,
    /// `(l + 2r)^5 + l`: order-sensitive, built on the power map `x -> x^5`,
    /// which permutes every field whose order minus one is prime to 5.
    Quintic,
}

/// A polynomial constraint, active on the rows where its flag wire holds 1.
#[derive(Clone, Copy, Debug, PartialEq, Eq, Structural)]
pub enum Gate {
    /// `c * (1 - c) = 0` on the current row.
    Boolean { flag: usize, c: usize },
    /// `2c(b - a) - (l - a) - (b - r) = 0`, with `a, b, c` on the current row
    /// and `l, r` read from wires `a, b` on the next row. Alone it fixes only
    /// `l - r`; together with [`Gate::SwapLeft`] on the same rows it fixes the
    /// pair.
    Swap { flag: usize, a: usize, b: usize, c: usize },
    /// `c(b - a) - (l - a) = 0`, that is `l = a + c(b - a)`, with `a, b, c` on
    /// the current row and `l` read from wire `a` on the next row.
    SwapLeft { flag: usize, a: usize, b: usize, c: usize },
    /// `out - combine(l, r) = 0` on the current row.
    Combine { flag: usize, kind: Combiner, l: usize, r: usize, out: usize },
}

/// A malformed circuit shape.
#[derive(Clone, Copy, Debug, PartialEq, Eq, Structural)]
pub enum ShapeError {
    /// A wire index that was never declared.
    UnknownWire,
    /// A declared wire whose role does not fit its place in a gate.
    WrongRole,
}

/// The combiner's output on two field elements, as an integer in `[0, p)`.
pub open spec fn combine_spec(p: int, kind: Combiner, l: int, r: int) -> int {
    match kind {
        Combiner::Sum => (l + r) % p,
        Combiner::Quintic => {
            let t = l + 2 * r;
            (t * t * t * t * t + l) % p
        },
    }
}

/// Evaluates the combiner modulo `p`.
pub fn combine(p: u64, kind: Combiner, l: u64, r: u64) -> (out: u64)
    requires
        p >= 1,
    ensures
        out as int == combine_spec(p as int, kind, l as int, r as int),
{
    match kind {
        Combiner::Sum => add_mod(p, l, r),
        Combiner::Quintic => {
            let ghost pi = p as int;
            let t1 = add_mod(p, l, r);
            let t = add_mod(p, t1, r);
            let ghost ti = l + 2 * r;
            assert(t == ti % pi) by {
                lemma_add_mod_noop(l + r, r as int, pi);
                lemma_add_mod_noop(t1 as int, r as int, pi);
                vstd::arithmetic::div_mod::lemma_small_mod(t1 as nat, p as nat);
            }
            let s2 = mul_mod(p, t, t);
            assert(s2 == (ti * ti) % pi) by {
                lemma_mul_mod_noop(ti, ti, pi);
            }
            let s4 = mul_mod(p, s2, s2);
            assert(s4 == (ti * ti * (ti * ti)) % pi) by {
                lemma_mul_mod_noop(ti * ti, ti * ti, pi);
            }
            let s5 = mul_mod(p, s4, t);
            assert(s5 == (ti * ti * (ti * ti) * ti) % pi) by {
                lemma_mul_mod_noop(ti * ti * (ti * ti), ti, pi);
            }
            let out = add_mod(p, s5, l);
            assert(out == (ti * ti * (ti * ti) * ti + l) % pi) by {
                lemma_add_mod_noop(ti * ti * (ti * ti) * ti, l as int, pi);
                lemma_add_mod_noop(s5 as int, l as int, pi);
                vstd::arithmetic::div_mod::lemma_small_mod(s5 as nat, p as nat);
            }
            assert(ti * ti * (ti * ti) * ti == ti * ti * ti * ti * ti) by (nonlinear_arith);
            out
        },
    }
}

/// The wires that a gate reads, flag first.
pub open spec fn gate_wires(g: Gate) -> Seq<usize> {
    match g {
        Gate::Boolean { flag, c } => seq![flag, c],
        Gate::Swap { flag, a, b, c } => seq![flag, a, b, c],
        Gate::SwapLeft { flag, a, b, c } => seq![flag, a, b, c],
        Gate::Combine { flag, l, r, out, .. } => seq![flag, l, r, out],
    }
}

/// Every wire that `g` reads has been declared.
pub open spec fn gate_wires_declared(g: Gate, n: nat) -> bool {
    forall|i: int| 0 <= i < gate_wires(g).len() ==> (#[trigger] gate_wires(g)[i]) < n
}

/// The flag of `g` is a fixed wire and every other wire it reads is a witness
/// wire: public values enter gates only through copies.
pub open spec fn gate_roles_fit(g: Gate, roles: Seq<Role>) -> bool {
    &&& gate_wires_declared(g, roles.len())
    &&& roles[gate_wires(g)[0] as int] == Role::Fixed
    &&& forall|i: int|
        1 <= i < gate_wires(g).len() ==> roles[(#[trigger] gate_wires(g)[i]) as int]
            == Role::Witness
}

/// A circuit shape under construction.
pub struct ConstraintSystem {
    /// The field's order, a prime; values are residues modulo it.
    pub modulus: u64,
    /// The role of each declared wire, indexed by wire id.
    pub roles: Vec<Role>,
    /// Whether each wire may take part in copy constraints.
    pub equality: Vec<bool>,
    /// The declared gates.
    pub gates: Vec<Gate>,
}

impl ConstraintSystem {
    /// Well-formed: one equality mark per wire, and every gate fits the wires.
    pub open spec fn wf(&self) -> bool {
        &&& is_prime(self.modulus as int)
        &&& self.roles.len() == self.equality.len()
        &&& forall|i: int|
            0 <= i < self.gates.len() ==> gate_roles_fit(#[trigger] self.gates[i], self.roles@)
    }

    /// An empty shape over the field of order `modulus`, a prime.
    pub fn new(modulus: u64) -> (cs: Self)
        requires
            is_prime(modulus as int),
        ensures
            cs.wf(),
            cs.modulus == modulus,
            cs.roles@ == Seq::<Role>::empty(),
            cs.equality@ == Seq::<bool>::empty(),
            cs.gates@ == Seq::<Gate>::empty(),
    {
        ConstraintSystem { modulus, roles: Vec::new(), equality: Vec::new(), gates: Vec::new() }
    }

    /// Declares a new wire of the given role and returns its id.
    pub fn declare_wire(&mut self, role: Role) -> (w: usize)
        requires
            old(self).wf(),
            old(self).roles.len() < usize::MAX,
        ensures
            final(self).wf(),
            w == old(self).roles.len(),
            final(self).modulus == old(self).modulus,
            final(self).roles@ == old(self).roles@.push(role),
            final(self).equality@ == old(self).equality@.push(false),
            final(self).gates@ == old(self).gates@,
    {
        let w = self.roles.len();
        self.roles.push(role);
        self.equality.push(false);
        proof {
            assert forall|i: int| 0 <= i < self.gates.len() implies gate_roles_fit(
                #[trigger] self.gates[i],
                self.roles@,
            ) by {
                let g = self.gates[i];
                assert(gate_roles_fit(g, old(self).roles@));
                assert forall|j: int| 1 <= j < gate_wires(g).len() implies self.roles@[(
                #[trigger] gate_wires(g)[j]) as int] == Role::Witness by {
                    assert(gate_wires(g)[j] < old(self).roles.len());
                }
            }
        }
        w
    }

    /// Marks wire `w` as eligible for copy constraints.
    pub fn enable_equality(&mut self, w: usize) -> (res: Result<(), ShapeError>)
        requires
            old(self).wf(),
        ensures
            final(self).wf(),
            final(self).modulus == old(self).modulus,
            final(self).roles@ == old(self).roles@,
            final(self).gates@ == old(self).gates@,
            res is Ok <==> w < old(self).roles.len(),
            res is Err ==> res == Err::<(), ShapeError>(ShapeError::UnknownWire),
            res is Ok ==> final(self).equality@ == old(self).equality@.update(w as int, true),
            res is Err ==> final(self).equality@ == old(self).equality@,
    {
        if w < self.equality.len() {
            self.equality.set(w, true);
            Ok(())
        } else {
            Err(ShapeError::UnknownWire)
        }
    }

    /// Registers a gate. A gate that reads an undeclared wire, or a wire of the
    /// wrong role, is refused and the shape is left as it was.
    pub fn declare_gate(&mut self, g: Gate) -> (res: Result<(), ShapeError>)
        requires
            old(self).wf(),
        ensures
            final(self).wf(),
            final(self).modulus == old(self).modulus,
            final(self).roles@ == old(self).roles@,
            final(self).equality@ == old(self).equality@,
            res is Ok <==> gate_roles_fit(g, old(self).roles@),
            res == Err::<(), ShapeError>(ShapeError::UnknownWire) <==> !gate_wires_declared(
                g,
                old(self).roles.len() as nat,
            ),
            res is Ok ==> final(self).gates@ == old(self).gates@.push(g),
            res is Err ==> final(self).gates@ == old(self).gates@,
    {
        let n = self.roles.len();
        let (flag, rest) = match g {
            Gate::Boolean { flag, c } => (flag, vec![c]),
            Gate::Swap { flag, a, b, c } => (flag, vec![a, b, c]),
            Gate::SwapLeft { flag, a, b, c } => (flag, vec![a, b, c]),
            Gate::Combine { flag, l, r, out, .. } => (flag, vec![l, r, out]),
        };
        assert(gate_wires(g) =~= seq![flag].add(rest@));
        let mut declared = flag < n;
        let mut i: usize = 0;
        while i < rest.len()
            invariant
                i <= rest.len(),
                declared == (flag < n && forall|j: int| 0 <= j < i ==> rest@[j] < n),
            decreases rest.len() - i,
        {
            if rest[i] >= n {
                declared = false;
            }
            i = i + 1;
        }
        if !declared {
            proof {
                if gate_wires_declared(g, n as nat) {
                    assert(gate_wires(g)[0] == flag);
                    assert forall|j: int| 0 <= j < rest.len() implies rest@[j] < n by {
                        assert(gate_wires(g)[j + 1] == rest@[j]);
                    }
                }
            }
            return Err(ShapeError::UnknownWire);
        }
        assert(gate_wires_declared(g, n as nat)) by {
            assert forall|j: int| 0 <= j < gate_wires(g).len() implies (
            #[trigger] gate_wires(g)[j]) < n by {
                if j > 0 {
                    assert(gate_wires(g)[j] == rest@[j - 1]);
                }
            }
        }
        let mut fits = self.roles[flag] == Role::Fixed;
        let mut i: usize = 0;
        while i < rest.len()
            invariant
                i <= rest.len(),
                forall|j: int| 0 <= j < rest.len() ==> rest@[j] < n,
                n == self.roles.len(),
                fits == (self.roles@[flag as int] == Role::Fixed && forall|j: int|
                    0 <= j < i ==> self.roles@[rest@[j] as int] == Role::Witness),
            decreases rest.len() - i,
        {
            if self.roles[rest[i]] != Role::Witness {
                fits = false;
            }
            i = i + 1;
        }
        proof {
            assert(fits == gate_roles_fit(g, self.roles@)) by {
                if fits {
                    assert forall|j: int| 1 <= j < gate_wires(g).len() implies self.roles@[(
                    #[trigger] gate_wires(g)[j]) as int] == Role::Witness by {
                        assert(gate_wires(g)[j] == rest@[j - 1]);
                    }
                } else if gate_roles_fit(g, self.roles@) {
                    assert(gate_wires(g)[0] == flag);
                    assert forall|j: int| 0 <= j < rest.len() implies self.roles@[rest@[
                    j] as int] == Role::Witness by {
                        assert(gate_wires(g)[j + 1] == rest@[j]);
                    }
                }
            }
        }
        if !fits {
            return Err(ShapeError::WrongRole);
        }
        self.gates.push(g);
        proof {
            assert forall|i: int| 0 <= i < self.gates.len() implies gate_roles_fit(
                #[trigger] self.gates[i],
                self.roles@,
            ) by {
                if i < old(self).gates.len() {
                    assert(self.gates[i] == old(self).gates[i]);
                }
            }
        }
        Ok(())
    }
}

} // verus!
