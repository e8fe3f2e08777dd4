# rbackup

A small desktop backup tool for Windows: pick source folders and destination
folders on external drives, and it copies the files that are new or changed,
keeping each file's original path under the destination.

`src/` is the verified library (Verus): Windows path rules and where each
source is mirrored (`winpath`, and `verbatim` for destinations written as
`\\?\` paths; `inside` proves the mirrored folder stays inside the
destination), the settings file (`config`), the copy
decisions and when a file counts as unchanged (`sync`), the destination list
the window shows (`dests`), the text it shows (`format`) and the window's
identity and placement (`window`). `app/` is the program around it: the
window, the file system, threads and timers. `tests/` runs the library.
