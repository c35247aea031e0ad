# vibecheat

A process memory scanner and editor for Linux, with a launcher that starts
games again with a speed library preloaded.

The logic is a library verified with Verus; the window and the system calls
are a thin program around it.

## Layout

- `src/` — the verified library:
  - `scan_type`, `value`: the scanned types, their byte encodings, value
    parsing and printing, and the comparisons that filter candidates
    (integers exactly, floats on their IEEE 754 bit patterns);
  - `scanner`: the scanner state, the initial scan as a state machine that
    asks for the reads it needs (in chunks of at most 16 MiB), and the
    filtering scan;
  - `maps`, `procfs`: reading `/proc/<pid>/maps`, `cmdline`, `environ` and
    `status` texts;
  - `saved`: the list of saved addresses, locking and writing;
  - `cheat_table`: reading and writing Cheat Engine `.CT` tables (parsing
    through `roxmltree`);
  - `processes`: the process list, its stable sort and its search;
  - `launcher`, `speedhack`, `session`: the decisions of a relaunch, the
    paths of the speed library and its pipe, and the command that elevates
    the program with its display session;
  - `script`: the script engine's state machine;
  - `text`: the text helpers the rest is built on.
- `tests/` — tests of the library on concrete values.
- `app/` — the program: the egui window, `process_vm_readv`/`writev`, file
  and process I/O, the Lua interpreter, the hotkey listener, the text form of
  floating-point values, and the C source of the speed library.
