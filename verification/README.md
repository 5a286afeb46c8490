# cbz_editor

A page editor for CBZ comic archives (ZIP files of page pictures plus an
optional `ComicInfo.xml`): delete, reorder, insert, merge and split pages, crop
a cover, mark duplicate pages, and save a stored ZIP with the metadata's
`PageCount` recomputed. The interface speaks French, English, Spanish, German
and Italian.

The editing logic is a library verified with Verus (`src/`); a small egui
program (`app/`) puts a window, file dialogs and disk access around it.

## Layout

- `src/text.rs` — character helpers: ASCII case folding, suffixes, decimal
  numbers, page labels.
- `src/paths.rs` — file name, extension and stem of `/`-separated paths, as
  `std::path::Path` reads them; names proposed for extracted pages and edited
  copies.
- `src/comicinfo.rs` — `ComicInfo.xml`: rewriting `<PageCount>`, reading the
  direction (right to left).
- `src/natural.rs` — natural order of page names (`page2` before `page10`),
  with its order laws.
- `src/picture.rs` — pictures through the `image` crate: decoding, resizing,
  cropping, joining side by side, JPEG encoding, over an RGB pixel model.
- `src/book.rs` — the book being edited and its operations (move, delete,
  insert, merge, split, crop, mark duplicates), each keeping page numbers
  distinct.
- `src/archive.rs` — reading an archive into pages (natural order, stable,
  within size limits) and writing a stored archive, through the `zip` crate.
- `src/save.rs` — what saving writes: metadata, cover, content pages.
- `src/reload.rs` — what a saved book reads back as.
- `src/lang.rs` — the interface language, from the locale or a remembered
  code.
- `tests/` — tests run against the compiled library with the real crates.
- `app/main.rs` — the window (egui/eframe), dialogs (rfd), files and settings;
  `app/i18n.rs` — its texts in French, English, Spanish, German and Italian.

Verus checks everything under `src/`; the tests run as ordinary Rust tests.
