# streaming_garbler

A circuit garbler that processes each gate as it is emitted, verified with Verus.

- `builder`: what a circuit builder is, and which gates every builder folds away.
- `adapter`: a builder that keeps every gate in memory.
- `plan`: a first pass of a build, which counts how often each wire is read.
- `streaming`: the garbling pass. With a plan it releases a wire's slot after the
  wire's last read.
- `gate`, `label`: garbling and evaluating one gate; wire labels.
- `chunked`: a growable array that never moves what it holds.
- `hash`: BLAKE3 and random bytes. The contracts in this module are trusted.
- `circuit`, `evaluation`, `reuse`: whole builds, and the laws that hold of them:
  that a planned pass is never refused as long as its wires can be counted in a
  `usize` and its non-free gates in a `u32`, that every live wire has the value of
  the truth tables, that an evaluator recovers every label, that reusing slots
  changes nothing that is put out, and that the slots taken are the most wires ever
  live at once.
- `session`, `inputs`: any calls on a builder, in any order. A garbler stays valid
  and keeps the wires it still holds in slots of their own. Whatever values are
  given, and whenever, the passes see the same wires and, within the same limits,
  none is refused; and inputs may get their values in later calls, as long as no
  gate has been handed them before.
