# xi_editor

Verified pieces of the xi editor, written in Verus.

- `src/breaks.rs`, `src/breaks_model.rs`: sets of line breaks kept as
  bounded leaves, with their builder, metrics and edits, specified over a
  model of a length and a sequence of (offset, width) pairs.
- `src/trace.rs`: traces of work across processes, sorted stably by time
  and reported tree by tree.
- `src/plugin.rs`: reading the requests that a plugin receives.
- `src/rpc.rs`: the front-end commands, and the parts of their JSON form
  that are the protocol's own (positional parameters, edit parameters).
- `src/text.rs`: decimal numbers and padding.

`app/` holds what Verus does not see: the serde forms of the protocol types,
reading JSON parameters into the library's types, and printing the trace
report.

The plugin context (`PluginCtx`), the `Handler` trait and the plugin main
loop are not here: they run over xi's own RPC crate (`xi_rpc`), which is not
available to this crate. What `PluginCtx::get_data` decides from a reply is
`plugin::data_from_reply`. The clock that stamps traces (`timestamp_now`,
a platform call) and `Trace::new`, which reads it, are in `app/trace.rs`; the
library's `Trace::at` builds the trace from the clock reading.
