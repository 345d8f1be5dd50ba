use kernel::interrupts::{build_idt, idt_pointer, unmask_keyboard, Idte, ENTRIES, GATE_ATTRIBUTES, INT_KEYBOARD};

#[test]
fn gate_gives_back_its_offset() {
    let gate = Idte::new(0xFFFF_8000_1234_5678, 8, GATE_ATTRIBUTES);
    assert_eq!(gate.get_offset(), 0xFFFF_8000_1234_5678);
    assert_eq!(gate.offset0, 0x5678);
    assert_eq!(gate.offset16, 0x1234);
    assert_eq!(gate.offset32, 0xFFFF_8000);
    assert_eq!(gate.cs, 8);
    assert_eq!(gate.rsvd, 0);
}

#[test]
fn gate_offset_round_trip_at_the_edges() {
    for offset in [0u64, 1, 0xFFFF, 0x1_0000, 0xFFFF_FFFF, 0x1_0000_0000, u64::MAX] {
        assert_eq!(Idte::new(offset, 0, 0).get_offset(), offset);
    }
}

#[test]
fn gate_quadwords() {
    let gate = Idte::new(0x1122_3344_5566_7788, 0x0008, 0x8F00);
    let (low, high) = gate.to_qwords();
    assert_eq!(low, 0x5566_8F00_0008_7788);
    assert_eq!(high, 0x1122_3344);
}

#[test]
fn idt_has_a_gate_per_vector() {
    let idt = build_idt(0x1000, 0x2000, 0x3000, 8);
    assert_eq!(idt.len(), ENTRIES);
    for (vector, gate) in idt.iter().enumerate() {
        let expected = if vector == INT_KEYBOARD as usize {
            0x3000
        } else if [8, 10, 11, 12, 13, 14, 17, 21].contains(&vector) {
            0x2000
        } else {
            0x1000
        };
        assert_eq!(gate.get_offset(), expected, "vector {}", vector);
        assert_eq!(gate.cs, 8);
        assert_eq!(gate.attributes, GATE_ATTRIBUTES);
    }
}

#[test]
fn idt_pointer_limit() {
    let p = idt_pointer(0x5000);
    let limit = p.limit;
    let ptr = p.ptr;
    assert_eq!(limit, 4095);
    assert_eq!(ptr, 0x5000);
}

#[test]
fn keyboard_irq_unmasked() {
    assert_eq!(unmask_keyboard(0xFF), 0xFD);
    assert_eq!(unmask_keyboard(0x00), 0x00);
    assert_eq!(unmask_keyboard(0xB8), 0xB8);
}
