# sofkit

Reactive state for GTK widget trees. States notify their subscribers; the
notifications run in passes of a scheduler, which batches changes made in one
pass and reports work that keeps scheduling itself; app data is found through
a stack of contexts; new widgets join the innermost scope.

- `src/` is the library, verified with Verus: the scheduler and its cycle
  tracer (`scheduler`), batch gates (`batching`), states, subscriptions and
  mapped states (`state`), the id-keyed callback maps they share with
  fields (`id_map`), app data and fields (`appdata`), the
  scope stack (`runtime`), the frame clock (`frames`), widget data
  (`state_ext`) and the update decisions of bound widgets (`binding`).
- `app/` runs it on the GTK main loop: thread-local instances, `Rc`/`Weak`
  sharing, idle callbacks, async channels and the widgets, with a demo window.
- `tests/` exercise the library on concrete values.
