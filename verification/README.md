# kernel

The logic of a small x86-64 UEFI kernel, verified with Verus: physical page
bookkeeping, four-level page tables, the kernel heap, I/O windows, the
interrupt table and a text console on a linear frame buffer.

Hardware and firmware stay outside the library. Physical memory is handed
in as a slice of machine words (word `w` holds the bytes at `8 * w`), the
frame buffer as a slice of pixels, and register values (CR3, CR4, CPUID)
as plain integers.

- `src/` — the verified library.
  - `mem/paging/` — page uses (`phy`), table walks and mapping (`level4`),
    allocating, freeing and moving linear pages (`allocate`, `free`,
    `realloc`), when a run of pages can be mapped without fail
    (`mappable`), copying the firmware's tables (`clone_tables`), set-up
    from the firmware's memory map (`init`) and I/O windows (`mmio`).
  - `mem/heap.rs` — slots of six sizes and blocks of whole pages.
  - `mem/wrappers/` — `Vec`, `String`, `Box` and `Rc` of the kernel.
  - `interrupts.rs`, `output.rs`, `utils.rs`.
- `tests/` — tests of the library on small simulated machines.
- `app/` — the UEFI entry point and the glue: firmware calls, registers,
  raw memory and the state kept between calls.
