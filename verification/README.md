# dosdis

A disassembler and annotation database for 16-bit DOS executables, with its
core written in Verus and proved against its contracts.

- `src/` is the verified library:
  - `segofs`, `xref`, `text`, `order`: addresses, cross references and their
    text forms, with proofs that printing and parsing are inverse;
  - `insn`: the instruction decoder (iced-x86) behind trusted wrappers;
  - `dis`: following control flow from an entry point into basic blocks;
  - `eval`: tracking known register values through a block to find the
    memory that instructions touch;
  - `ir`: translating instructions into a small statement language;
  - `function`, `fnfile`: functions and their text file, with the proof that
    reading a written file gives the function back;
  - `db`, `crawl`, `load`: the project database, kept in address order;
  - `web`: the data the web interface serves;
  - `ai`: choosing the next task for the language model and taking its
    answers in.
- `tests/` runs the library on concrete programs.
- `app/` is the command-line program: files, the web server, the model calls.
