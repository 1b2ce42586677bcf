# os_projects

Three small operating-systems exercises, with their logic verified by Verus:

- a Unix shell (`lee_shell`): a line is expanded (`${NAME}`), trimmed and
  parsed into a pipeline of commands with redirections; `!!` and `! n` rerun a
  history entry; builtins, executable lookup in `$PATH` and the wiring of
  pipelines are planned by the library and carried out by the program;
- inter-process communication (`ipc_practice`): a file's lines that contain a
  word are sent through pipes, a socket or shared memory and filtered;
- threads (`multi_thread_programming`): a sudoku solution is checked by rows,
  columns and boxes, and numbers are merge-sorted.

Layout:

- `src/` is the verified library: `text` (string helpers), `command`,
  `lsh_parser`, `history`, `kernel`, `runner` and `ui` (the shell),
  `text_roundtrip` (printing a command group and parsing it back),
  `ipc` (word filtering, worker ranges, length-prefixed frames) and
  `multi_thread` (sudoku checking, merge sort).
- `app/` is the program: reading input, processes, pipes, sockets, shared
  memory, threads and logging, following what the library decides.
- `tests/` runs the library on concrete inputs.
