# mdbook_track

Browser-local progress tracking for mdBook workbooks. The preprocessor reads
four directives from each chapter and renders them as HTML checklists whose
state the browser keeps under stable item ids:

- `{{#track}} ... {{/track}}`: a self-contained checklist; each line is an
  item whose id is derived from its label.
- `{{#track-item id}} label {{/track-item}}`: an individually placed item
  with an explicit id.
- `{{#track-checklist}}`: the checklist of the chapter's `track-item`s.
- `{{#track-overview}}`: the workbook overview, with the manifest of all
  tracked pages.

## Layout

- `src/` is the verified library (Verus). Every function there carries a
  contract stated over `Seq<char>` views of the text:
  - `text.rs`: whitespace, trimming, splitting and joining;
  - `search.rs`: finding and replacing patterns;
  - `ids.rs`: slugs, generated ids, id validation, section names;
  - `parse.rs`: reading the checklist block and the inline items;
  - `render.rs`: escaping and the HTML of rows, checklists and the overview;
  - `chapter.rs`: chapters, page ids, sections, manifests, and the
    rewriting of a chapter's text;
  - `laws.rs`: properties that relate several operations;
  - `error.rs`: the errors and their messages.
- `app/` is the command around it: mdBook's preprocessor protocol, reading
  the configuration, the JSON manifest and writing the assets into a book.
- `tests/` runs the library on concrete chapters.
