//! Helpers for turning stored session rows into model inputs.
//!
//! The relational store itself, the float feature formulas and the
//! label heuristics live outside this crate; what the model consumes
//! from them here is the project-slot reduction.

use vstd::prelude::*;
use vstd::string::StringSliceAdditionalSpecFns;
use crate::tokenizer::{fnv1a, fnv1a_hash};

verus! {

/// The project-conditioning slot of a session: the FNV-1a hash of the
/// project name reduced modulo the slot count, and slot zero when no
/// non-empty name is present.
pub fn project_to_slot(project: Option<&str>, num_slots: usize) -> (r: usize)
    requires
        num_slots > 0,
    ensures
        match project {
            Some(p) => if p@.len() == 0 {
                r == 0
            } else {
                r == fnv1a(p.spec_bytes()) as int % num_slots as int
            },
            None => r == 0,
        },
        r < num_slots,
{
    match project {
        Some(p) => {
            if p.is_empty() {
                0
            } else {
                let h = fnv1a_hash(p.as_bytes());
                (h % (num_slots as u64)) as usize
            }
        },
        None => 0,
    }
}

} // verus!
