# profilers

The GC survivors profiler of Dr-Dotnet: after an induced garbage collection it
builds the tree of what the GC roots retain, grouped by class, down to a
maximum retention depth; it drops the branches that retain fewer objects or
bytes than the thresholds, sorts the rest by inclusive size (or count), and
writes an HTML report.

- `src/` is the library, verified with Verus: the tree building, the
  thresholds, the sorting, the report text, the profiler's decisions on the
  runtime's callbacks, and the laws in `src/laws.rs`.
- `app/` binds it to the runtime: the queries to the profiling API (behind the
  `ClrProfilerInfo` trait), the session files on disk, threads and timers.
  The runtime's answers reach the library as a `HeapSnapshot`, which `app/`
  fills with the objects that `GCSurvivorsProfiler2::missing_objects` asks for.
- The session's parameters are read into `ProfilerSettings` by the verified
  `ProfilerSettings::from_parameters`.
- `tests/` runs the library on concrete heaps.
