# orx_parallel

Parallel iterator pipelines over vectors whose results are proved with Verus.

A pipeline is an input vector, the parameters of the computation (number of
threads, chunk size, collect ordering) and a transformation of each input element
built from `map`, `filter`, `filter_map`, `flat_map` and `inspect` steps. Every
computation (collect, count, reduce, sum, min, max, first, find, any, all) is
specified over the outputs of the transformation in input order, so that neither
the number of threads, nor the chunk size, nor the order in which chunks are
processed can change a result.

Fallible pipelines (`into_fallible_result`, `into_fallible_option`) transform only
the successes and end with the first failure.

Layout:

- `src/` the verified library: parameters, element transformations (`xap`), the
  sequential and chunked runners, the merge of chunk outputs back into input order,
  reductions, fallible pipelines, and the laws relating them.
- `tests/` tests on concrete values.
- `app/` running pipelines on threads through a concurrent iterator (collecting, and
  reducing chunk by chunk with the chunk results combined in chunk order), and
  collecting into pinned vectors.

Collections:

- The input of a pipeline is a `Vec` (or references to the elements of one), and
  results are collected into a `Vec`. The concurrent iterators, concurrent bags and
  pinned vectors (`SplitVec`, `FixedVec`) of the `orx-*` crates are generic
  containers whose contents could only be stated to Verus through a name fixed to
  one element type, while the library is generic in its element types. The
  verified library therefore works on `Vec`: outputs arrive in a bag
  (`Vec<Option<T>>`) together with the position of each input's outputs, and are
  merged back into input order (`merge`). `app/` converts to and from the pinned
  vectors and hands inputs out to threads through `orx-concurrent-iter`.
