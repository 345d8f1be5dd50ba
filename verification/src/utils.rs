use vstd::prelude::*;

verus! {

/// The operand of `lgdt` / `lidt`: the table's byte limit and its linear address.
#[derive(Clone, Copy, Default)]
pub struct DescTablePtr {
    pub limit: u16,
    pub ptr: usize,
}

} // verus!
