use vstd::prelude::*;

verus! {

/// Why a chapter, a directive or the configuration was refused.
#[derive(Debug)]
pub enum TrackError {
    /// `{{#track}}` opens a block that no `{{/track}}` closes.
    UnclosedTracker,
    /// A `{{#track}}` block holds no checklist line.
    EmptyTracker,
    /// A `{{#track-item}}` directive names no id.
    MissingItemId,
    /// A `{{#track-item}}` id holds a character other than an ASCII letter,
    /// an ASCII digit, `-`, `_` or `.`.
    InvalidItemId(String),
    /// Two `{{#track-item}}` directives of one chapter share an id.
    DuplicateInlineId(String),
    /// A `{{#track-item` opening has no closing `}}`.
    UnterminatedItem,
    /// A `{{#track-item}}` directive has no `{{/track-item}}`.
    UnclosedItem(String),
    /// A `{{#track-item}}` directive has only whitespace as its label.
    EmptyItemLabel(String),
    /// Two items of one chapter (block and inline together) share an id.
    DuplicateItemId(String),
    /// A tracked chapter has neither a source path nor a path.
    NoSourcePath,
    /// A chapter holds a `{{#track-item` directive but no path.
    ItemWithoutPath,
    /// A chapter holds `{{#track-checklist}}` but no `{{#track-item}}` directive.
    ChecklistWithoutItems,
    /// A chapter holds `{{#track-checklist}}` but no path.
    ChecklistWithoutPath,
    /// The configured book id is blank.
    EmptyBookId,
}

/// The mathematical value of a [`TrackError`]: the same variants, with the
/// ids as character sequences.
pub enum ErrorKind {
    UnclosedTracker,
    EmptyTracker,
    MissingItemId,
    InvalidItemId(Seq<char>),
    DuplicateInlineId(Seq<char>),
    UnterminatedItem,
    UnclosedItem(Seq<char>),
    EmptyItemLabel(Seq<char>),
    DuplicateItemId(Seq<char>),
    NoSourcePath,
    ItemWithoutPath,
    ChecklistWithoutItems,
    ChecklistWithoutPath,
    EmptyBookId,
}

impl View for TrackError {
    type V = ErrorKind;

    open spec fn view(&self) -> ErrorKind {
        match self {
            TrackError::UnclosedTracker => ErrorKind::UnclosedTracker,
            TrackError::EmptyTracker => ErrorKind::EmptyTracker,
            TrackError::MissingItemId => ErrorKind::MissingItemId,
            TrackError::InvalidItemId(id) => ErrorKind::InvalidItemId(id@),
            TrackError::DuplicateInlineId(id) => ErrorKind::DuplicateInlineId(id@),
            TrackError::UnterminatedItem => ErrorKind::UnterminatedItem,
            TrackError::UnclosedItem(id) => ErrorKind::UnclosedItem(id@),
            TrackError::EmptyItemLabel(id) => ErrorKind::EmptyItemLabel(id@),
            TrackError::DuplicateItemId(id) => ErrorKind::DuplicateItemId(id@),
            TrackError::NoSourcePath => ErrorKind::NoSourcePath,
            TrackError::ItemWithoutPath => ErrorKind::ItemWithoutPath,
            TrackError::ChecklistWithoutItems => ErrorKind::ChecklistWithoutItems,
            TrackError::ChecklistWithoutPath => ErrorKind::ChecklistWithoutPath,
            TrackError::EmptyBookId => ErrorKind::EmptyBookId,
        }
    }
}

/// The text that reports an error to the book's author.
pub open spec fn error_message(e: ErrorKind) -> Seq<char> {
    match e {
        ErrorKind::UnclosedTracker => "found {{#track}} without matching {{/track}}"@,
        ErrorKind::EmptyTracker => "tracker block contains no checklist items"@,
        ErrorKind::MissingItemId =>
            "track-item requires a stable id, for example {#track-item read-pointers}"@,
        ErrorKind::InvalidItemId(id) => "invalid track-item id '"@ + id
            + "'; use only letters, numbers, '-', '_' or '.'"@,
        ErrorKind::DuplicateInlineId(id) => "duplicate track-item id '"@ + id + "'"@,
        ErrorKind::UnterminatedItem => "unterminated track-item directive"@,
        ErrorKind::UnclosedItem(id) => "track-item '"@ + id
            + "' has no matching {{/track-item}}"@,
        ErrorKind::EmptyItemLabel(id) => "track-item '"@ + id + "' has an empty label"@,
        ErrorKind::DuplicateItemId(id) => "duplicate track item id '"@ + id + "'"@,
        ErrorKind::NoSourcePath => "tracked chapter has no source path"@,
        ErrorKind::ItemWithoutPath => "chapter containing track-item has no source path"@,
        ErrorKind::ChecklistWithoutItems =>
            "found {{#track-checklist}} but this chapter contains no track-item directives"@,
        ErrorKind::ChecklistWithoutPath => "chapter containing track-checklist has no source path"@,
        ErrorKind::EmptyBookId => "preprocessor.track.book-id must not be empty"@,
    }
}

/// Builds `prefix`, `id` and `suffix` into one string.
fn quoted(prefix: &str, id: &String, suffix: &str) -> (r: String)
    ensures
        r@ == prefix@ + id@ + suffix@,
{
    let mut r = String::from_str(prefix);
    r.append(id.as_str());
    r.append(suffix);
    r
}

impl TrackError {
    /// The message that reports this error.
    pub fn message(&self) -> (r: String)
        ensures
            r@ == error_message(self@),
    {
        match self {
            TrackError::UnclosedTracker => String::from_str(
                "found {{#track}} without matching {{/track}}",
            ),
            TrackError::EmptyTracker => String::from_str("tracker block contains no checklist items"),
            TrackError::MissingItemId => String::from_str(
                "track-item requires a stable id, for example {#track-item read-pointers}",
            ),
            TrackError::InvalidItemId(id) => quoted(
                "invalid track-item id '",
                id,
                "'; use only letters, numbers, '-', '_' or '.'",
            ),
            TrackError::DuplicateInlineId(id) => quoted("duplicate track-item id '", id, "'"),
            TrackError::UnterminatedItem => String::from_str("unterminated track-item directive"),
            TrackError::UnclosedItem(id) => quoted(
                "track-item '",
                id,
                "' has no matching {{/track-item}}",
            ),
            TrackError::EmptyItemLabel(id) => quoted("track-item '", id, "' has an empty label"),
            TrackError::DuplicateItemId(id) => quoted("duplicate track item id '", id, "'"),
            TrackError::NoSourcePath => String::from_str("tracked chapter has no source path"),
            TrackError::ItemWithoutPath => String::from_str(
                "chapter containing track-item has no source path",
            ),
            TrackError::ChecklistWithoutItems => String::from_str(
                "found {{#track-checklist}} but this chapter contains no track-item directives",
            ),
            TrackError::ChecklistWithoutPath => String::from_str(
                "chapter containing track-checklist has no source path",
            ),
            TrackError::EmptyBookId => String::from_str(
                "preprocessor.track.book-id must not be empty",
            ),
        }
    }
}

} // verus!
