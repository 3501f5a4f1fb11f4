# phobos_gguf

The part of a GGUF model runner that decides: how a file's weights are read and
folded, what a layer asks of the machine it runs on, which kernels a card
compiles and launches, and what the reference backend computes on the host.

* `src/` is the library. Every function in it carries a contract that Verus
  proves; what relates several of them stands beside them as a proof function.
  * `gguf`, `meta`, `quant`, `experts`, `hadamard`, `bpe`: what a file holds.
  * `layers`: projections, feed-forwards and caches, as the calls they come to,
    and what those calls leave in the buffers.
  * `backend::host`: the reference arithmetic, over whatever numbers it is given.
  * `backend::device`: kernel sources, projection plans, handles and reports.
  * `backend::fuse`: whole decode steps as single kernels.
  * `transform`, `single`, `text`: the Walsh-Hadamard transform, singles by their
    bits, and text from templates.
* `tests/` runs the library, in single precision where the arithmetic is.
* `app/` carries the library's decisions out: single precision, the environment,
  and a card's driver.

A single-precision parameter is held as its bit pattern, and host arithmetic takes
its sums and products as functions, so that what is computed, and in which order,
is proved whatever the numbers are.
