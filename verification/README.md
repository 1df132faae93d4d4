# mkd

A featherweight Markdown reader and WYSIWYG editor. The editing model, the inline
parser of the editor view, the VitePress preprocessing, the document builder of the
preview, and the clipboard HTML-to-Markdown converter form a library whose behaviour is
stated in `requires` / `ensures` contracts and proved with Verus.

## Layout

- `src/` — the verified library.
  - `text.rs`: character sequences, UTF-8 / UTF-16 widths, small string helpers.
  - `line.rs`: the editor's line parser (displayed text, source map, style runs).
  - `editor.rs`, `ops.rs`, `newline.rs`, `erase.rs`, `format.rs`, `drag.rs`, `find.rs`,
    `session.rs`: the editor state and every editing operation, with undo history.
  - `laws.rs`: laws relating operations (undo, redo, merging, history cap, column maps,
    inline ranges).
  - `vitepress.rs`, `preprocess.rs`, `spans.rs`, `inline.rs`, `blocks.rs`,
    `markdown.rs`, `commonmark.rs`, `document.rs`: the preview's document model and how
    it is built from a page; `codeblock.rs`: the header and rows a code block shows.
  - `html2md.rs`: HTML (as rich-text copies hold it) to Markdown.
  - `urls.rs`, `filedrop.rs`: `file://` URLs and percent-decoding.
  - `clock.rs`: the clock that decides whether typing joins the previous undo step.
- `tests/` — tests of the library.
- `app/` — the macOS application (GPUI windows, drawing, input, file I/O) around the
  library.
