//! Finite-field arithmetic and the group law on short Weierstrass
//! elliptic curves, with machine-checked contracts.
//!
//! The crate has two layers. The field layer gives residue-class
//! arithmetic modulo a prime: [`field_element::FieldElement`] carries its
//! modulus at run time, [`finite_field_element::FiniteFieldElement`]
//! carries it as a const parameter. The curve layer,
//! [`point::Point`], implements point addition on a curve
//! `y^2 = x^3 + a*x + b` with plain integer coordinates.
//!
//! The algebraic laws of both layers are stated and proved alongside the
//! operations: commutativity, associativity and identity of field
//! addition, the reduction of exponents modulo the group order, the
//! inverse law backed by Fermat's little theorem ([`fermat`]), and the
//! identity, inverse and commutativity laws of the point group together
//! with closure of the group law on the curve.

pub mod errors;
pub mod fermat;
pub mod field_element;
pub mod finite_field_element;
pub mod modular;
pub mod point;
pub mod primality;
