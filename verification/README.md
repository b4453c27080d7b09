# mmu_interruption

Interrupts running stores by way of the MMU. Compiled code loads from an
interrupt page at its checkpoints; when the page is rendered unreadable, the
load faults, and the store yields.

`TimingWheelInterrupter` is a timing wheel that hands out the pages. Stores that
start between the same two ticks share a page, and each store runs for at least
the number of full tick intervals that the wheel was made for.

- `src/wheel.rs`: the wheel. A tick is a sequence of steps with a system call
  between each two; acquiring and releasing a page are one step each.
- `src/page.rs`: a page, with the reached bit and the refcount in one word.
- `src/calls.rs`: the system calls that the steps ask for, as plain values.
- `src/interrupter.rs`: the traits `PageHandle` and `MmuInterrupter`.
- `src/model.rs`, `src/system.rs`: the wheel as a mathematical state, and the
  wheel together with the protection of memory, under any interleaving of ticks,
  acquisitions and releases.
- `src/schedule.rs`, `src/upkeep.rs`, `src/laws.rs`: what is proved of them.
- `app/`: the wheel behind a lock, on real memory.
