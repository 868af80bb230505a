# tm-metal core

The verified core of a tape-register accelerator: a register machine (a head in `0..=4`,
a queue of odd digits and a positive value) run to a terminal register, in two ways that
are proved to agree, plus the tables that let the machine skip ahead.

`src/` is the library, verified with Verus:

- `machine.rs` — the register machine as spec functions: one operation, terminal
  registers.
- `scalar.rs` — the normalizer on an explicit value held as limbs.
- `prefix.rs` — the normalizer on a value of which only low bits are known; every
  operation it takes is the machine's operation on every value those bits allow.
- `paths.rs` — the machine's single path, and the laws that the prefix normalizer (fed
  all at once or chunk by chunk) stops where the scalar normalizer stops, and that
  accelerator rows whose recorded jumps hold give the same summary.
- `normalizer.rs` — modes and summaries of terminal registers, and the combination of
  accelerator row summaries into a summary.
- `transducer.rs` — the byte transducer: the states reachable by feeding whole bytes,
  their edges, a hash table of them, and the byte layout of the table.
- `linear.rs`, `stack.rs`, `derivation.rs` — counts linear in a symbolic `n`, symbolic
  tape sides, and the gap-tape derivation of the final and middle transition rows.
- `contents.rs` — the digits a tape side holds at a given `n`, and the laws that popping,
  normalizing and prepending read and keep them, that normalizing gives a canonical form,
  that runs read back from the boundary built from them (wherever their counts, a run
  of ones' doubled, compare in 128 bits), and what the shape checks
  (aligned blocks, pairs, paired sides, the final shape) mean digit by digit.
- `map.rs` — the plain-value decisions of the root map: how a finished register is
  closed, and the small register an odd root's long middle run starts from.
- `bits.rs`, `limbs.rs` — facts about machine words and limb sequences.

`app/` is the program around it: big integers (GMP), affine expressions in the root, the
step map's arithmetic on them, and the Metal accelerator, all reached through C interfaces.
The Metal shader is read at start-up from `TM_METAL_SHADER` (default `register.metal`).

`tests/` runs the library on concrete values.
