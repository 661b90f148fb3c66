# fuckport

A small command-line tool that stops processes by PID (`1234`), by name
(`chrome`), or by listening port (`:3000`), gracefully first and with a
forced kill as fallback.

The library under `src/` holds the tool's logic, verified with Verus:

- `input`: reading command-line targets (PID, `:port`, or name).
- `process`: the catalog of processes and socket ports, name matching with
  smart case, resolving targets to PIDs, and the sorted process listing.
- `killer`: the backoff schedule of waits, and a kill run as a state machine
  whose actions (look up, terminate, kill, sleep, print) the caller performs.
- `interactive`: the lines of the interactive picker and the PIDs of a
  selection.
- `cli`: the arguments and the decisions taken from them.
- `text`: string building, decimal numbers, joining, padding, substring
  search and ordering.

`app/main.rs` is the program around it: argument parsing with clap, reading
processes with sysinfo and sockets with netstat2, the dialoguer picker, and
the loop that performs the actions of a kill run.
