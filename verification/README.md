# Gestor de Documentos de Testes (DET)

A terminal tool that organises the evidence of manual tests and generates
the evidence documents (DET): it reads the exported spreadsheet, creates one
folder per test, fills a Word template with each test's data and its
screenshots, and converts and joins the documents as PDFs.

The logic is a library verified with Verus; the program around it is plain Rust.

- `src/` — the verified library:
  - `texto.rs`: characters of strings and the few Unicode predicates of std used;
  - `util.rs`: byte/text search, accents, normalisation, file-name cleaning,
    XML escaping, the natural-order key, the calendar and the small tag scanner;
  - `ordem.rs`: natural ordering and the stable sort by it;
  - `arquivo_zip.rs`: the calls into the `zip` crate (archives in memory);
  - `xlsx.rs`: the spreadsheet reader and the required headers;
  - `docx.rs`: the template engine (tokens, images, relationships, content types);
  - `acoes.rs`: the test folders, the documents of a spreadsheet, the PDF parts;
  - `workspace.rs`: the work area and the choice of folders and files by name;
  - `menu.rs`: how the answers typed in the menu are read.
- `app/` — the program: menu, file system, external PDF tools.
- `tests/` — tests of the library.
