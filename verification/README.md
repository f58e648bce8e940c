# csv_reader

A reader for large CSV files: the file is mapped, indexed once by the byte
offset of each record, and only the records on screen are decoded and parsed.

- `src/` is the library, verified with Verus:
  - `csv_line` — splitting a record into cells, choosing the delimiter, and
    writing cells back with the quoting the parser reads;
  - `index` — the byte-offset index of records (quote-aware, UTF-8 and
    UTF-16 in either byte order);
  - `encoding` — encoding detection, decoding of records and encoding of
    edited text;
  - `engine` — the open file, its bounded LRU cache of parsed records, row
    reads, cell edits, exports and search;
  - `edit` — what a file reads back as after a cell edit: the record index
    of the rewritten file and the records it holds (UTF-8 and UTF-16);
  - `search` — byte scans, case-folded matching and match previews;
  - `view` — the viewer's language, selections, prefetch window, size and
    colour formatting, and the export form;
  - `text`, `chars`, `desktop` — small helpers and front-end payloads.
- `app/` is the egui desktop program around the library: windows and
  drawing, file dialogs, memory-mapping, writing edited files and exports,
  and running searches on all cores.
- `tests/` run the library on concrete files held in memory.
