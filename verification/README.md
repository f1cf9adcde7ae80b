# ZCode speed panel

A panel that shows how fast a coding assistant generates tokens, measured while it generates.
The assistant streams what it generates through pipes, and the system counts the bytes that a
process has written. The panel cleans these counters, learns from every completed call how many
bytes a token takes, and shows the bytes per second divided by that.

`src/` is the library: everything that is computed or decided, verified with Verus. Numbers are
integers throughout: speeds are fractions or millionths, bytes of a stream are thousandths.

| Modules | What they do |
| --- | --- |
| `stream`, `probe`, `pulse`, `breakdown`, `live` | from counters to a speed, and to the speed of each task |
| `calibration`, `attribution`, `settle` | what is learned from completed calls |
| `call`, `aggregate`, `history`, `chart`, `inflight`, `engine`, `figures` | the calls of a day, their figures and charts |
| `net`, `tables`, `ckpt`, `procs` | traffic, connections, snapshots of workspaces, processes |
| `guard` | protection of the directory of snapshots |
| `panel` | one step of the panel: measurement, network and figures in one |
| `window`, `updater`, `autostart`, `export`, `journal` | the window, updates, start with the system, reports, the log |
| `text`, `json`, `clock`, `order`, `strmap`, `latest`, `rate` | what the others are made of |

Proof functions whose names begin with `law_` state what holds of the library as a whole.

`app/` is the program around it: it reads the database, the counters and the files, asks for
releases, and drives the window. `tests/` runs the library.
