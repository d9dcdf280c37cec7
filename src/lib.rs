//! Merkle inclusion gadget over an arithmetic constraint system.
//!
//! A circuit shape (wires, gates, equality-enabled wires) is built once with
//! [`shape::ConstraintSystem`]. Each proof instance fills a
//! [`witness::Assignment`], row block by row block, through the chip in
//! [`chip`], driven by [`circuit::MyMIPCircuitV2`]. Then
//! [`witness::Assignment::is_satisfied`] decides whether the filled table
//! meets every gate and copy constraint, and [`circuit::check_inclusion`]
//! runs the whole flow against the verifier's public leaf and root.
//!
//! Field elements are `u64` residues modulo the shape's order `p`.
//! [`lemmas`] and [`layout`] hold what the gadget guarantees: a non-boolean
//! direction bit makes a table unsatisfiable when `p` is prime, the swap gate
//! follows the bit, the root depends on the path alone, and an honest layout
//! is accepted exactly with its own leaf and root as public values.
pub mod field;
pub mod shape;
pub mod witness;
pub mod chip;
pub mod circuit;
pub mod lemmas;
pub mod layout;
