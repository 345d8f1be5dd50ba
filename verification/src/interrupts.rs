//! Interrupt descriptor table entries and the table the kernel loads.

use vstd::prelude::*;
use crate::utils::DescTablePtr;

verus! {

/// Vector of the keyboard interrupt once the PIC is remapped.
pub const INT_KEYBOARD: u8 = 0x21;

/// Entries in the interrupt descriptor table.
pub const ENTRIES: usize = 256;

/// Type and attributes of every gate: present, DPL 0, 64-bit trap gate.
pub const GATE_ATTRIBUTES: u16 = 0b1000111100000000;

/// A 64-bit interrupt gate descriptor (16 bytes in memory).
#[derive(Clone, Copy)]
pub struct Idte {
    pub offset0: u16,
    pub cs: u16,
    pub attributes: u16,
    pub offset16: u16,
    pub offset32: u32,
    pub rsvd: u32,
}

/// The handler address a gate's three offset fields spell.
pub open spec fn gate_offset(offset0: u16, offset16: u16, offset32: u32) -> u64 {
    ((offset32 as u64) << 32u64) | ((offset16 as u64) << 16u64) | (offset0 as u64)
}

/// A gate gives back the handler address it was built with: splitting an
/// address into the three offset fields as `Idte::new` does and joining
/// them as `Idte::get_offset` does is the identity.
pub proof fn lemma_offset_round_trip(offset: u64)
    ensures
        gate_offset(offset as u16, (offset >> 16u64) as u16, (offset >> 32u64) as u32) == offset,
{
    let o0 = offset as u16;
    let o16 = (offset >> 16u64) as u16;
    let o32 = (offset >> 32u64) as u32;
    assert(((o32 as u64) << 32u64) | ((o16 as u64) << 16u64) | (o0 as u64) == offset) by (bit_vector)
        requires
            o0 == offset as u16,
            o16 == (offset >> 16u64) as u16,
            o32 == (offset >> 32u64) as u32,
    ;
}

impl Idte {
    /// A gate to handler `offset` in code segment `cs`.
    pub fn new(offset: u64, cs: u16, attributes: u16) -> (r: Self)
        ensures
            r.cs == cs,
            r.attributes == attributes,
            r.rsvd == 0,
            r.offset0 == offset as u16,
            r.offset16 == (offset >> 16u64) as u16,
            r.offset32 == (offset >> 32u64) as u32,
            gate_offset(r.offset0, r.offset16, r.offset32) == offset,
    {
        let r = Self {
            cs,
            attributes,
            rsvd: 0,
            offset0: offset as u16,
            offset16: (offset >> 16) as u16,
            offset32: (offset >> 32) as u32,
        };
        proof {
            lemma_offset_round_trip(offset);
        }
        r
    }

    /// The handler address.
    pub fn get_offset(&self) -> (r: u64)
        ensures
            r == gate_offset(self.offset0, self.offset16, self.offset32),
    {
        ((self.offset32 as u64) << 32) | ((self.offset16 as u64) << 16) | (self.offset0 as u64)
    }

    /// The descriptor as its two little-endian quadwords.
    pub fn to_qwords(&self) -> (r: (u64, u64))
        ensures
            r.0 == (self.offset0 as u64) | ((self.cs as u64) << 16u64) | ((self.attributes as u64)
                << 32u64) | ((self.offset16 as u64) << 48u64),
            r.1 == (self.offset32 as u64) | ((self.rsvd as u64) << 32u64),
    {
        (
            (self.offset0 as u64) | ((self.cs as u64) << 16) | ((self.attributes as u64) << 32) | ((
            self.offset16 as u64) << 48),
            (self.offset32 as u64) | ((self.rsvd as u64) << 32),
        )
    }
}

/// The exception vectors for which the CPU pushes an error code.
pub open spec fn pushes_error_code(vector: int) -> bool {
    vector == 8 || vector == 10 || vector == 11 || vector == 12 || vector == 13 || vector == 14
        || vector == 17 || vector == 21
}

/// The handler each vector gets: the keyboard handler for the keyboard
/// vector, the error-code handler for exceptions that push one, and the
/// plain handler otherwise.
pub open spec fn handler_for(vector: int, none: u64, none_error: u64, keyboard: u64) -> u64 {
    if vector == INT_KEYBOARD as int {
        keyboard
    } else if pushes_error_code(vector) {
        none_error
    } else {
        none
    }
}

/// The interrupt descriptor table: 256 gates in code segment `cs`.
pub fn build_idt(none: u64, none_error: u64, keyboard: u64, cs: u16) -> (r: Vec<Idte>)
    ensures
        r@.len() == ENTRIES,
        forall|i: int|
            0 <= i < ENTRIES ==> {
                &&& #[trigger] r@[i].cs == cs
                &&& r@[i].attributes == GATE_ATTRIBUTES
                &&& r@[i].rsvd == 0
                &&& gate_offset(r@[i].offset0, r@[i].offset16, r@[i].offset32) == handler_for(
                    i,
                    none,
                    none_error,
                    keyboard,
                )
            },
{
    let mut idt: Vec<Idte> = Vec::new();
    let mut i: usize = 0;
    while i < ENTRIES
        invariant
            0 <= i <= ENTRIES,
            idt@.len() == i,
            forall|j: int|
                0 <= j < i ==> {
                    &&& #[trigger] idt@[j].cs == cs
                    &&& idt@[j].attributes == GATE_ATTRIBUTES
                    &&& idt@[j].rsvd == 0
                    &&& gate_offset(idt@[j].offset0, idt@[j].offset16, idt@[j].offset32) == (
                    if pushes_error_code(j) {
                        none_error
                    } else {
                        none
                    })
                },
        decreases ENTRIES - i,
    {
        let handler = if i == 8 || i == 10 || i == 11 || i == 12 || i == 13 || i == 14 || i == 17 || i
            == 21 {
            none_error
        } else {
            none
        };
        idt.push(Idte::new(handler, cs, GATE_ATTRIBUTES));
        i = i + 1;
    }
    let ghost before = idt@;
    idt.set(INT_KEYBOARD as usize, Idte::new(keyboard, cs, GATE_ATTRIBUTES));
    assert forall|i: int| 0 <= i < ENTRIES implies {
        &&& #[trigger] idt@[i].cs == cs
        &&& idt@[i].attributes == GATE_ATTRIBUTES
        &&& idt@[i].rsvd == 0
        &&& gate_offset(idt@[i].offset0, idt@[i].offset16, idt@[i].offset32) == handler_for(
            i,
            none,
            none_error,
            keyboard,
        )
    } by {
        if i != 0x21 {
            assert(idt@[i] == before[i]);
        }
    }
    idt
}

/// The `lidt` operand for a table of `ENTRIES` gates at `ptr`.
pub fn idt_pointer(ptr: usize) -> (r: DescTablePtr)
    ensures
        r.limit == 4095,
        r.ptr == ptr,
{
    DescTablePtr { limit: (ENTRIES * 16 - 1) as u16, ptr }
}

/// The PIC mask with IRQ1 (the keyboard) unmasked.
pub fn unmask_keyboard(mask: u8) -> (r: u8)
    ensures
        r == mask & 0xFD,
{
    mask & 0xFD
}

} // verus!
