# perl_core

Perl's values, verified with Verus: strings with their utf8 flag and taint, scalars, arrays and hashes.

- `src/` is the library. `string.rs` holds `PString`, an octet string that is stored in the value itself where one of
  the inline, packed or identifier forms holds it (`inline_form.rs`, `packed.rs`, `uuid.rs`, `hex.rs`) and in a shared
  heap buffer, a view of one or an image otherwise. What is known of the bytes is a scan state (`scan.rs`), and the type
  invariant says that it is true of them. `compare.rs` and `digest.rs` hold equality, order and hashing, which go by
  characters whatever the flags; `display.rs`, `content_debug.rs` and `warning.rs` hold the renderings. `scalar.rs`
  holds the mutable and the frozen cell, `array.rs` and `containers.rs` the two array engines, and `hash.rs` the hash
  over its three engines.
- The collections of `hashbrown`, `indexmap` and `imbl` stand behind `bucket_table.rs`, `ordered_map.rs`, `key_tree.rs`
  and `slot_tree.rs`, whose contracts say what is relied on.
- The proof functions named `law_*` state what holds across several functions.
- `app/` adds what is not verified: shared handles with locks, the formatting traits, floating point.
