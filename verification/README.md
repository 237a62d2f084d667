# sem_embedded

Semantic diffs, entity graphs and review plans for host applications.

The library works on plain values. A host parses files, diffs entities, builds
entity graphs and hashes contents; the library decides which contents are
needed, and makes analyses, indexes, focus resolutions, impact contexts, review
layers and cache keys from what the host found. It reads no file and writes
none.

* `src/` is the library, verified with Verus. Each function's contract says
  what it returns over the mathematical view of its arguments. Public proof
  functions whose names begin with `law_` state what holds of the library as a
  whole.
* `tests/` runs it on written-out values and with a small host.
* `app/` binds it to a host and to the file system, and holds the serialized
  forms of its values.
