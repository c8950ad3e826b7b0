# signalkit

SignalKit for Kindle and the Kindle Substrate tooling, as a Verus library.

`src/` holds the verified logic. Public functions state their results in
`ensures`, except those of `ExitHandle`, whose flag is shared between handles
through a cell that the contracts cannot follow; the properties that span
several calls are proof functions named `law_*`.

- `geometry`, `widget`, `node`, `layout`, `tree`, `render`, `app`: integer
  pixel geometry, the retained widget tree and its declarative description,
  the stack layout solver, identity assignment, painting, damage tracking and
  the e-ink refresh policy of a frame.
- `signal`, `disposable`, `keyed`: observable values with coalesced
  re-entrant writes, one-shot teardown handles, keyed child lists.
- `demo`: the demo screen's widget tree, its state (counter and rows) and
  the labels of its rows.
- `input`: evdev touch decoding, calibration, touchscreen discovery.
- `symbols`, `logos`, `tooling`: the firmware symbol database, the
  Logos-style tweak preprocessor, and the `ksub` developer tool's formats.
- `filters`, `supervisor`, `hooks`, `elf`: tweak filters, the session
  supervisor's decisions, the hooking engine's bookkeeping, and ELF jump-slot
  lookup for import hooks.
- `text`: the string and number parsing the modules share.

`app/` is the program around the library: the command-line tools, the
supervisor daemon's loop, the tweak bootstrap, the engine's C interface, the
touch event loop and the demo screen. It does the I/O and calls the library
for every decision.

`tests/` exercises the library on concrete values.
