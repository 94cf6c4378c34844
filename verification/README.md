# copc_converter

A converter from LAS/LAZ point clouds to COPC (Cloud-Optimized Point Cloud), with
its logic verified by Verus.

- `src/` is the library: file formats, octree construction, thinning, chunk
  planning, validation of inputs, paged hierarchy and temporal index. Every
  function states its result in an `ensures`, and the laws that relate functions
  are public proof functions whose names begin with `law_`. `conservation.rs`
  ends in the law that the finished octree holds every point of the chunks
  exactly once, in a voxel that the point lies in. `chunk_files.rs` goes from the
  batches that are read to the chunks, and `build_run.rs` through the steps of a
  build: the list of nodes that a build ends with counts as many points as the
  batches hold, and each node as many as the store holds for it.
- `app/` is the program around it: command line, file access, threads and
  floating-point geometry. Under the name `preview_chunking` it prints how an
  input would be divided into chunks.
- `tests/` runs the library, with the crates it calls, on concrete values.

Doubles pass through the library as bit patterns; `fbits.rs` says how they
compare.
