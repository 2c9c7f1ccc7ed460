# iced_keyed

A verified model of a keyed stack widget: a container whose children carry
keys, so that the state tree of each child can follow its key when the list of
children changes.

- `src/keyed/stack.rs`: the `Stack` container, its builders, the keyed `diff`
  of its children's state trees, the stack as a widget of its own, and the
  decisions it takes while laying out, updating and drawing its layers.
- `src/keyed/reconcile.rs`: what a keyed diff produces, stated over sequences:
  the state of every key follows the key.
- `src/length.rs`, `src/mouse.rs`, `src/window.rs`, `src/widget.rs`: the sizing
  strategies, cursor, window vocabulary and child widget interface the stack
  relies on.

Rendering, floating-point layout arithmetic, widget operations, overlays and
the run-time type tags of state trees belong to the host toolkit and are not
part of this crate; its functions take the answers of the children (their
mouse interactions, whether an event was captured) as arguments.
