//! Canonical (minimal) covers of functional dependencies.
//!
//! A functional dependency (FD) states that one set of attribute names, the
//! determinant, determines another, the dependent.  This crate computes the
//! attribute closure of a set under a collection of FDs and derives a
//! canonical cover: an equivalent collection with minimal determinants and no
//! redundant member.

pub mod fd;
pub mod fdlist;
pub mod model;
pub mod parse;
