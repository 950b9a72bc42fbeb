# Lumen

A small deep learning core with dynamic differentiation and a CPU runtime for
Llama-style decoders, verified with Verus.

- `src/` is the library. Every item in it is verified. Elements of tensors are bit
  patterns; widening, narrowing, ordering and moving them is proved, and rounding
  arithmetic comes in through the trait `fpu::Fpu`. A contract says of a computed
  element which operations were applied to which operands, and in which order; but
  where a whole list is handed to the processor (`sum`, `dot`, `dot_bytes`), the order
  of the additions is the processor's, and the gradient of a norm's weight is summed
  over the rows in an order that is left open.
  Laws that compare the results of two computations name what they need of the
  arithmetic as a premise: that the same operation on the same operands has one result
  (`fpu::fixed_answers`), that zeros vanish from sums (`causal::zeros_vanish`), that
  rounding keeps order (`shares::keeps_order`).
- `tests/` runs the library with the arithmetic of the machine.
- `app/` is the program around it: arguments, files, random numbers, the console.

Where to begin in `src/`:

| module | what it holds |
| --- | --- |
| `dims`, `array` | extents, indices, row-major arrays |
| `float_bits`, `precision`, `fpu` | number formats and arithmetic |
| `autograd`, `graph`, `trace`, `tape`, `live` | tensors, records, backward passes |
| `ops`, `layers`, `loss`, `optim`, `module` | operations, layers, training |
| `kv_cache`, `models` | caches and the extents of a model |
| `loader` | weights from safetensors files |
| `args`, `chat`, `generation`, `sampling` | what the program decides |
| `laws`, `layers::shares` | what holds across functions |
| `causal`, `parts`, `steps` in `layers::attention` | what attention sees, and tokens taken in parts or one by one |
| `fixed` | results that are fixed by their operands |
