# bazel_jdt

The native core of a bridge between Bazel and the Eclipse JDT language
server, written in Verus.

- `src/` is the verified library: parsing of IntelliJ aspect output
  (`text_proto`, `ide_info`), the dependency graph (`graph`, over a
  `petgraph` graph declared in `digraph`), classpath computation
  (`classpath`, `jars`), BUILD file parsing and rule extraction
  (`starlark`, which reads the module `starlark_syntax` parses and prints
  back, `build_file`, `model`),
  change detection (`change_detector`), Bazel command lines and their
  output (`query`), the bundled aspect (`aspect`, `hashing`), the
  decisions of an incremental sync (`state`) and the steps of a classpath
  request (`request`).
- `app/` is the unverified shell: JNI entry points, the redb cache, running
  Bazel, reading and walking files, and the BUILD file watcher.
- `tests/` exercises the library on concrete values.
