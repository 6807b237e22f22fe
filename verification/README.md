# nodestor_inference

The core of an engine that runs language models on a single machine.

`src/` is a library whose functions carry contracts and are proved against them
with Verus. It holds what can be reasoned about exactly:

- memory: paged attention, prefix caches, tiers of memory, budgets, schedulers
- decoding: drafts from the context, tries, trees and heads; their verification
  against the model; sampling decisions
- files: adapters, weight stores, compressed tiles, snapshots, training data
- experts: routing, streaming from disks, caches
- text: tokenizers, prompts, tools, chunks, reports

Numbers with a fraction appear in it as bit patterns: they are compared and
ordered, never computed with. Outside crates are called through a few small
functions whose contracts say what is relied upon.

`app/` is ordinary Rust around the library: floating-point arithmetic, files,
threads and the asynchronous pipeline. What belongs to a model or a device comes
in through traits.

`tests/` runs the library on concrete values.
