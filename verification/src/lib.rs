//! Progress tracking for mdBook workbooks: the directives `{{#track}}`,
//! `{{#track-item}}`, `{{#track-checklist}}` and `{{#track-overview}}`, read
//! from a chapter's text and rendered as HTML checklists whose state the
//! browser keeps.
use vstd::prelude::*;

pub mod chapter;
pub mod error;
pub mod ids;
pub mod laws;
pub mod parse;
pub mod render;
pub mod search;
pub mod text;

pub use chapter::{
    Chapter, PageManifest, chapter_page_id, chapter_section, configured_book_id, normalize_path,
    page_manifest, page_manifests, process_chapter,
};
pub use error::TrackError;
pub use ids::{humanize_section, item_id, slugify, validate_track_item_id};
pub use parse::{
    InlineTrackItem, TrackItem, collect_page_items, parse_inline_track_items, parse_track_items,
};
pub use render::{
    escape_attr, escape_html, escape_script_json, render_inline_tracker, render_item_row,
    render_overview, render_tracker, replace_inline_track_items, replace_track_block,
};
pub use text::normalise_label;

verus! {

/// The preprocessor that renders the tracking directives of a book.
#[derive(Debug, Default)]
pub struct TrackPreprocessor;

impl TrackPreprocessor {
    pub fn new() -> (r: Self)
        ensures
            r == (TrackPreprocessor {}),
    {
        TrackPreprocessor
    }

    /// The name under which the book configures this preprocessor.
    pub fn name(&self) -> (r: &'static str)
        ensures
            r@ == "track"@,
    {
        "track"
    }

    /// Whether this preprocessor runs for `renderer`: only for `html`.
    pub fn supports_renderer(&self, renderer: &str) -> (r: bool)
        ensures
            r == (renderer@ == "html"@),
    {
        text::str_eq(renderer, "html")
    }
}

} // verus!
