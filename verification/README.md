# ports

Which process holds which port: a command line tool for Linux and macOS, with its logic verified
by Verus.

- `src/` is the library. Every item in it is verified, but for five functions of the standard
  library whose contracts are trusted: `String::push` (in `text`), `SystemTime::elapsed` (behind
  `since_epoch` in `fmt`), `u32::to_ne_bytes` (behind `ne_bytes` in `sys::addr`),
  `String::from_utf8_lossy` and `String::from_utf8` (behind `lossy` and `strict` in `sys::bytes`).
  - `text`, `num`, `fmt`: texts, numbers, display widths, wrapping, times and colours.
  - `model`: what a scan finds.
  - `sys`: what the kernels report, from the tables of `/proc/net` and the links of
    `/proc/<pid>/fd` on Linux and from the structures of `libproc` on macOS.
  - `render`: merging rows, the table, the details of one port, JSON.
  - `cli`, `run`, `kill`: the command line, from a query to its answer, and killing step by step.
  - `laws`: what holds across functions, such as that JSON output reads back, that no signal is
    sent without consent, that colours change nothing but escape sequences, and that nothing that
    was asked for is left out.
- `tests/` runs the library.
- `app/` is the program around it: arguments, files, system calls and output.

Functions whose result depends on the clock or on the byte order of the machine come in pairs: one
that takes the time or the order as an argument and has an exact contract (`table_at`,
`parse_net_in`), and one that asks for it and does the same with the answer (`table`, `parse_net`).
