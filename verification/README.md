# markspace

The verified core of a Markdown desktop workspace (a directory tree, tabbed
Markdown editing with live preview, and a document outline).

- `src/` is the library, verified with Verus:
  - `text` — Unicode white space, trimming and `str::lines`, over `Seq<char>`;
  - `outline` — extraction of ATX and Setext headings, skipping fenced code blocks;
  - `documents` — the set of open documents: tab order, the active document,
    unsaved changes, cached outlines, renames on disk, and where preview links lead;
  - `tree` — the directory tree: which entries are shown and in what order,
    search of a node by path, and the checks made before a rename;
  - `settings` — settings groups and font family names;
  - `std_calls` — the calls into `std` (`String::push` and `std::path::Path`)
    that the library makes, each with the contract it relies on.
- `tests/` runs the library on concrete values.
- `app/` is the desktop application around the library, built on GPUI and
  gpui-component: windows, panels, file reading and writing, directory
  scanning, configuration files (serde), and the font size and zoom factors,
  which are floating point.

The application reads its own icons and fonts at run time from an `assets/`
directory next to its executable, and falls back to the component library's
icons where a file is missing.
