# xlsx_editor

Edits XLSX workbooks in place: cells, rows and tables, number formats, fonts, fills, merged cells and
new sheets, with the rest of the workbook left as it is.

- `src/` is the library. It works on the files of a package, held in memory as bytes, and every
  function states what it returns and what it changes. An operation that cannot be carried out on
  some workbook requires that it can; its `try_` companion gives `None` there instead.
- `src/laws/` holds what is proved of several operations together.
- `app/` reads and writes the packages on disk.
- `tests/` runs the library on small workbooks.
