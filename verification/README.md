# hack_rs

Three small systems, each verified with Verus:

- a Hack computer built up from NAND: gates, adders and the ALU, flip-flops,
  registers, RAM and the program counter, and the decoding and encoding of
  Hack instruction words (`gates`, `arithmetic`, `memory`, `instruction`);
- a page-based storage engine: slotted pages, a heap file, record encoding,
  a hash index, a byte-backed B+Tree leaf page, a table and sequential-scan
  executors, plus the tab-separated fixture format (`db`);
- a memory lab: a tiny RAM and CPU, a bump arena, access patterns over arrays
  and linked lists, the resident-set size read out of a process status text,
  and the text the lab prints (`memory_lab`).

`src/` is the verified library. Each module states its behaviour in
`requires`/`ensures` clauses over mathematical models (`Seq`, `Map`, integers),
and the properties that relate several operations (read after write, round
trips, priorities, permutations) are proof functions beside them.

`app/` is the command-line front end: `app hack`, `app db [fixture-file]` and
`app lab [dayNN | all]`. It does the printing, timing, file reading and the
operating-system probes, and calls the library for everything else.

`tests/` exercises the library on concrete values.
