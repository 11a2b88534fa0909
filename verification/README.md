# book_renewer

Turns a scanned Hebrew book (a PDF) into a Typst book, one chapter file per
episode, with language models doing the reading and the formatting.

- `src/` is the verified library (Verus): fence stripping, heading and
  page-count parsing, the integration of formatted pages into numbered episodes,
  the cache of organized episodes and the state machine that applies a model's
  actions, JSON escaping repair, prompt building, file selection and ordering,
  and the Typst documents written around the chapters.
- `app/` is the program around it: command line, files, processes (`pdfinfo`,
  `pdftocairo`, `typst`), the Gemini client, and the JSON (de)serialization of
  the library's types.
- `tests/` exercises the library on concrete values.

The example image `alef-lamed.png` is read at run time from the working
directory.
