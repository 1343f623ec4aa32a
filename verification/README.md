# pdfgrep

A small command-line searcher: it prints the lines of a file, of every file
in a directory, or of standard input that contain a pattern, and for a PDF
file it prints the byte offset of each object and the root object named by
the trailer.

- `src/` is the library, verified with Verus: text handling (`text`), the
  byte-level helpers for PDF objects (`utils`), the object, content-stream,
  cross-reference and header readers (`read_pdf`), and the line and file
  filters of the searches (`read_cmd`, `read_single_file`, `read_multi_file`).
  The cross-reference readers are state machines fed one byte at a time.
- `app/` is the program around it: argument parsing, file and terminal I/O,
  and reading the PDF version as a floating-point number.
- `tests/` runs the library on concrete inputs.
