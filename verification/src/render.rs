//! The HTML that stands in a chapter in place of its directives.
use vstd::prelude::*;
use crate::error::{ErrorKind, TrackError};
use crate::ids::{decimal, decimal_string};
use crate::parse::{
    ItemView, InlineView, TRACK_CLOSE, TRACK_OPEN, TrackItem, ids_of, inline_directives,
    inline_from, inline_view, items_view, lemma_marker_lengths, scan_inline_directives,
};
use crate::search::{find, find_from, lemma_find};
use crate::text::{join, join_strings, push_char, push_range, to_chars};

verus! {

broadcast use vstd::string::group_string_axioms;

// ---------------------------------------------------------------------
// Escaping
// ---------------------------------------------------------------------
/// What one character becomes in HTML text or in an attribute value.
pub open spec fn html_char(c: char) -> Seq<char> {
    if c == '&' {
        "&amp;"@
    } else if c == '<' {
        "&lt;"@
    } else if c == '>' {
        "&gt;"@
    } else if c == '"' {
        "&quot;"@
    } else if c == '\'' {
        "&#39;"@
    } else {
        seq![c]
    }
}

/// `s` escaped for HTML: `&`, `<`, `>`, `"` and `'` written as entities.
pub open spec fn html_escaped(s: Seq<char>) -> Seq<char>
    decreases s.len(),
{
    if s.len() == 0 {
        Seq::<char>::empty()
    } else {
        html_escaped(s.drop_last()) + html_char(s.last())
    }
}

/// A character that escaped HTML never holds.
pub open spec fn is_html_special(c: char) -> bool {
    c == '<' || c == '>' || c == '"' || c == '\''
}

pub proof fn lemma_html_escaped(s: Seq<char>)
    ensures
        forall|i: int| 0 <= i < html_escaped(s).len() ==> !is_html_special(#[trigger] html_escaped(s)[i]),
    decreases s.len(),
{
    if s.len() > 0 {
        lemma_html_escaped(s.drop_last());
        reveal_strlit("&amp;");
        reveal_strlit("&lt;");
        reveal_strlit("&gt;");
        reveal_strlit("&quot;");
        reveal_strlit("&#39;");
        let a = html_escaped(s.drop_last());
        let b = html_char(s.last());
        assert forall|i: int| 0 <= i < html_escaped(s).len() implies !is_html_special(
            #[trigger] html_escaped(s)[i],
        ) by {
            if i >= a.len() {
                assert(html_escaped(s)[i] == b[i - a.len()]);
            } else {
                assert(html_escaped(s)[i] == a[i]);
            }
        }
    }
}

/// Escapes `&`, `<`, `>`, `"` and `'` as HTML entities; the result holds
/// none of `<`, `>`, `"` and `'`.
pub fn escape_html(value: &str) -> (r: String)
    ensures
        r@ == html_escaped(value@),
        forall|i: int| 0 <= i < r@.len() ==> !is_html_special(#[trigger] r@[i]),
{
    let v = to_chars(value);
    let mut r = String::new();
    let mut i: usize = 0;
    assert(v@.take(0) =~= Seq::<char>::empty());
    while i < v.len()
        invariant
            v@ == value@,
            i <= v.len(),
            r@ == html_escaped(v@.take(i as int)),
        decreases v.len() - i,
    {
        let c = v[i];
        assert(v@.take(i + 1).drop_last() =~= v@.take(i as int));
        if c == '&' {
            r.append("&amp;");
        } else if c == '<' {
            r.append("&lt;");
        } else if c == '>' {
            r.append("&gt;");
        } else if c == '"' {
            r.append("&quot;");
        } else if c == '\'' {
            r.append("&#39;");
        } else {
            push_char(&mut r, c);
        }
        i = i + 1;
    }
    assert(v@.take(v.len() as int) =~= v@);
    proof {
        lemma_html_escaped(value@);
    }
    r
}

/// Escapes an attribute value, as [`escape_html`] does.
pub fn escape_attr(value: &str) -> (r: String)
    ensures
        r@ == html_escaped(value@),
{
    escape_html(value)
}

/// `s` with each `<` written as `\u003c`.
pub open spec fn script_escaped(s: Seq<char>) -> Seq<char>
    decreases s.len(),
{
    if s.len() == 0 {
        Seq::<char>::empty()
    } else {
        script_escaped(s.drop_last()) + if s.last() == '<' {
            "\\u003c"@
        } else {
            seq![s.last()]
        }
    }
}

proof fn lemma_script_escaped(s: Seq<char>)
    ensures
        forall|i: int| 0 <= i < script_escaped(s).len() ==> #[trigger] script_escaped(s)[i] != '<',
    decreases s.len(),
{
    if s.len() > 0 {
        lemma_script_escaped(s.drop_last());
        reveal_strlit("\\u003c");
        let a = script_escaped(s.drop_last());
        assert forall|i: int| 0 <= i < script_escaped(s).len() implies #[trigger] script_escaped(
            s,
        )[i] != '<' by {
            if i < a.len() {
                assert(script_escaped(s)[i] == a[i]);
            }
        }
    }
}

/// Writes each `<` of a JSON text as `\u003c`, so that no text in it can
/// close the `<script>` element that holds it.
pub fn escape_script_json(value: &str) -> (r: String)
    ensures
        r@ == script_escaped(value@),
        forall|i: int| 0 <= i < r@.len() ==> #[trigger] r@[i] != '<',
{
    let v = to_chars(value);
    let mut r = String::new();
    let mut i: usize = 0;
    assert(v@.take(0) =~= Seq::<char>::empty());
    while i < v.len()
        invariant
            v@ == value@,
            i <= v.len(),
            r@ == script_escaped(v@.take(i as int)),
        decreases v.len() - i,
    {
        let c = v[i];
        assert(v@.take(i + 1).drop_last() =~= v@.take(i as int));
        if c == '<' {
            r.append("\\u003c");
        } else {
            push_char(&mut r, c);
        }
        i = i + 1;
    }
    assert(v@.take(v.len() as int) =~= v@);
    proof {
        lemma_script_escaped(value@);
    }
    r
}

// ---------------------------------------------------------------------
// Rendering
// ---------------------------------------------------------------------
pub const ROW_START: &'static str = r#"
<li class="mdbook-track__item"><label><input type="checkbox" data-track-item=""#;

pub const ROW_BOOK: &'static str = r#"" data-track-book-id=""#;

pub const ROW_PAGE: &'static str = r#"" data-track-page-id=""#;

pub const ROW_LABEL: &'static str =
    r#""><span class="mdbook-track__checkbox" aria-hidden="true"></span><span class="mdbook-track__label">"#;

pub const ROW_END: &'static str = r#"</span></label></li>"#;

pub const INLINE_START: &'static str = r#"<div class="mdbook-track mdbook-track--inline" data-book-id=""#;

pub const ATTR_PAGE: &'static str = r#"" data-page-id=""#;

pub const ATTR_ITEMS: &'static str = r#"" data-track-items=""#;

pub const INLINE_LIST: &'static str = r#"">
<ul class="mdbook-track__items">"#;

pub const INLINE_END: &'static str = r#"
</ul>
</div>"#;

pub const TRACKER_START: &'static str =
    r#"<section class="mdbook-track mdbook-track--checklist" data-book-id=""#;

pub const TRACKER_HEADER: &'static str = r#"">
<div class="mdbook-track__header">
<strong>Chapter checklist</strong>
<span class="mdbook-track__count" aria-live="polite">0 / "#;

pub const TRACKER_LIST: &'static str = r#" completed</span>
</div>
<ul class="mdbook-track__items">"#;

pub const TRACKER_END: &'static str = "\n</ul>\n</section>";

pub const OVERVIEW_START: &'static str = r#"<section class="mdbook-track-overview" data-book-id=""#;

pub const OVERVIEW_MANIFEST: &'static str = r#"">
<div class="mdbook-track-overview__content">Loading progress…</div>
</section>
<script type="application/json" class="mdbook-track-manifest">"#;

pub const OVERVIEW_END: &'static str = "</script>";

/// The list row of one item, with its checkbox.
pub open spec fn item_row(book_id: Seq<char>, page_id: Seq<char>, item: ItemView) -> Seq<char> {
    ROW_START@ + html_escaped(item.id) + ROW_BOOK@ + html_escaped(book_id) + ROW_PAGE@
        + html_escaped(page_id) + ROW_LABEL@ + html_escaped(item.label) + ROW_END@
}

/// Renders the list row of one item.
pub fn render_item_row(book_id: &str, page_id: &str, item: &TrackItem) -> (r: String)
    ensures
        r@ == item_row(book_id@, page_id@, item@),
{
    let mut r = String::from_str(ROW_START);
    r.append(escape_attr(item.id.as_str()).as_str());
    r.append(ROW_BOOK);
    r.append(escape_attr(book_id).as_str());
    r.append(ROW_PAGE);
    r.append(escape_attr(page_id).as_str());
    r.append(ROW_LABEL);
    r.append(escape_html(item.label.as_str()).as_str());
    r.append(ROW_END);
    r
}

/// The HTML that replaces one `{{#track-item}}` directive.
pub open spec fn inline_tracker(book_id: Seq<char>, page_id: Seq<char>, item: ItemView) -> Seq<
    char,
> {
    INLINE_START@ + html_escaped(book_id) + ATTR_PAGE@ + html_escaped(page_id) + ATTR_ITEMS@
        + html_escaped(item.id) + INLINE_LIST@ + item_row(book_id, page_id, item) + INLINE_END@
}

/// Renders the HTML that replaces one `{{#track-item}}` directive.
pub fn render_inline_tracker(book_id: &str, page_id: &str, item: &TrackItem) -> (r: String)
    ensures
        r@ == inline_tracker(book_id@, page_id@, item@),
{
    let mut r = String::from_str(INLINE_START);
    r.append(escape_attr(book_id).as_str());
    r.append(ATTR_PAGE);
    r.append(escape_attr(page_id).as_str());
    r.append(ATTR_ITEMS);
    r.append(escape_attr(item.id.as_str()).as_str());
    r.append(INLINE_LIST);
    r.append(render_item_row(book_id, page_id, item).as_str());
    r.append(INLINE_END);
    r
}

/// The rows of `items`, in order.
pub open spec fn item_rows(book_id: Seq<char>, page_id: Seq<char>, items: Seq<ItemView>) -> Seq<
    char,
>
    decreases items.len(),
{
    if items.len() == 0 {
        Seq::<char>::empty()
    } else {
        item_rows(book_id, page_id, items.drop_last()) + item_row(book_id, page_id, items.last())
    }
}

/// A chapter checklist of `items`.
pub open spec fn tracker(book_id: Seq<char>, page_id: Seq<char>, items: Seq<ItemView>) -> Seq<
    char,
> {
    TRACKER_START@ + html_escaped(book_id) + ATTR_PAGE@ + html_escaped(page_id) + ATTR_ITEMS@
        + html_escaped(join(ids_of(items), seq![','])) + TRACKER_HEADER@ + decimal(items.len())
        + TRACKER_LIST@ + item_rows(book_id, page_id, items) + TRACKER_END@
}

/// Renders a chapter checklist of `items`: a header that counts them, then
/// one row per item.
pub fn render_tracker(book_id: &str, page_id: &str, items: &Vec<TrackItem>) -> (r: String)
    ensures
        r@ == tracker(book_id@, page_id@, items_view(items@)),
{
    let ghost its = items_view(items@);
    let mut ids: Vec<String> = Vec::new();
    let mut rows = String::new();
    let mut i: usize = 0;
    assert(its.take(0) =~= Seq::<ItemView>::empty());
    assert(ids.deep_view() =~= ids_of(its.take(0)));
    while i < items.len()
        invariant
            its == items_view(items@),
            i <= items.len(),
            ids.deep_view() == ids_of(its.take(i as int)),
            rows@ == item_rows(book_id@, page_id@, its.take(i as int)),
        decreases items.len() - i,
    {
        assert(its.take(i + 1).drop_last() =~= its.take(i as int));
        let ghost before = ids.deep_view();
        ids.push(items[i].id.clone());
        assert(ids.deep_view() =~= before.push(its[i as int].id));
        assert(ids_of(its.take(i + 1)) =~= ids_of(its.take(i as int)).push(its[i as int].id));
        rows.append(render_item_row(book_id, page_id, &items[i]).as_str());
        i = i + 1;
    }
    assert(its.take(items.len() as int) =~= its);
    let joined = join_strings(&ids, ",");
    proof {
        reveal_strlit(",");
        assert(","@ =~= seq![',']);
    }
    let mut r = String::from_str(TRACKER_START);
    r.append(escape_attr(book_id).as_str());
    r.append(ATTR_PAGE);
    r.append(escape_attr(page_id).as_str());
    r.append(ATTR_ITEMS);
    r.append(escape_attr(joined.as_str()).as_str());
    r.append(TRACKER_HEADER);
    r.append(decimal_string(items.len()).as_str());
    r.append(TRACKER_LIST);
    r.append(rows.as_str());
    r.append(TRACKER_END);
    r
}

/// The workbook overview, with the manifest of every tracked page in it.
pub open spec fn overview(book_id: Seq<char>, manifest_json: Seq<char>) -> Seq<char> {
    OVERVIEW_START@ + html_escaped(book_id) + OVERVIEW_MANIFEST@ + script_escaped(manifest_json)
        + OVERVIEW_END@
}

/// Renders the workbook overview: a placeholder that the script fills, and
/// the manifest it reads.
pub fn render_overview(book_id: &str, manifest_json: &str) -> (r: String)
    ensures
        r@ == overview(book_id@, manifest_json@),
{
    let mut r = String::from_str(OVERVIEW_START);
    r.append(escape_attr(book_id).as_str());
    r.append(OVERVIEW_MANIFEST);
    r.append(escape_script_json(manifest_json).as_str());
    r.append(OVERVIEW_END);
    r
}

// ---------------------------------------------------------------------
// Replacing directives
// ---------------------------------------------------------------------
/// `content` with its first `{{#track}}` ... `{{/track}}` block replaced by
/// `replacement`; `content` itself when it has no block.
pub open spec fn block_replaced(content: Seq<char>, replacement: Seq<char>) -> Result<
    Seq<char>,
    ErrorKind,
> {
    match find(content, TRACK_OPEN@, 0) {
        None => Ok(content),
        Some(start) => match find(content, TRACK_CLOSE@, start + TRACK_OPEN@.len()) {
            None => Err(ErrorKind::UnclosedTracker),
            Some(close) => Ok(
                content.take(start) + replacement + content.skip(close + TRACK_CLOSE@.len()),
            ),
        },
    }
}

/// Replaces the first `{{#track}}` ... `{{/track}}` block of `content`,
/// markers included, by `replacement`.
pub fn replace_track_block(content: &str, replacement: &str) -> (r: Result<String, TrackError>)
    ensures
        match r {
            Ok(s) => block_replaced(content@, replacement@) == Ok::<Seq<char>, ErrorKind>(s@),
            Err(e) => block_replaced(content@, replacement@) == Err::<Seq<char>, ErrorKind>(e@),
        },
{
    let v = to_chars(content);
    let open = to_chars(TRACK_OPEN);
    let close = to_chars(TRACK_CLOSE);
    let n = v.len();
    let start = match find_from(&v, &open, 0) {
        None => return Ok(content.to_owned()),
        Some(s) => s,
    };
    proof {
        lemma_find(v@, open@, 0);
    }
    let end = match find_from(&v, &close, start + open.len()) {
        None => return Err(TrackError::UnclosedTracker),
        Some(e) => e,
    };
    proof {
        lemma_find(v@, close@, (start + open.len()) as int);
    }
    let mut out = String::new();
    push_range(&mut out, &v, 0, start);
    out.append(replacement);
    push_range(&mut out, &v, end + close.len(), n);
    assert(v@.subrange(0, start as int) =~= v@.take(start as int));
    assert(v@.subrange((end + close.len()) as int, n as int) =~= v@.skip(
        (end + close.len()) as int,
    ));
    Ok(out)
}

/// `content` from `from` on, with the directive of each of `entries`
/// replaced by its rendering.
pub open spec fn spliced(
    content: Seq<char>,
    book_id: Seq<char>,
    page_id: Seq<char>,
    entries: Seq<InlineView>,
    from: int,
) -> Seq<char>
    decreases entries.len(),
{
    if entries.len() == 0 {
        content.subrange(from, content.len() as int)
    } else {
        content.subrange(from, entries[0].start) + inline_tracker(book_id, page_id, entries[0].item)
            + spliced(content, book_id, page_id, entries.drop_first(), entries[0].end)
    }
}

/// `content` with each `{{#track-item}}` directive replaced by its
/// rendering; or why a directive is refused.
pub open spec fn inline_replaced(content: Seq<char>, book_id: Seq<char>, page_id: Seq<char>) -> Result<
    Seq<char>,
    ErrorKind,
> {
    match inline_directives(content) {
        Err(e) => Err(e),
        Ok(entries) => Ok(spliced(content, book_id, page_id, entries, 0)),
    }
}

/// The directives found from `cursor` on lie in order, each after the one
/// before it, within `content`.
pub open spec fn in_order(entries: Seq<InlineView>, cursor: int, len: int) -> bool {
    &&& forall|i: int|
        0 <= i < entries.len() ==> cursor <= (#[trigger] entries[i]).start < entries[i].end <= len
    &&& forall|i: int| 0 <= i < entries.len() - 1 ==> (#[trigger] entries[i]).end <= entries[i
        + 1].start
}

/// The directives that are read from `content` lie in order and do not
/// overlap.
pub proof fn lemma_inline_in_order(content: Seq<char>, cursor: int, seen: Seq<Seq<char>>)
    requires
        0 <= cursor,
    ensures
        inline_from(content, cursor, seen) matches Ok(es) ==> in_order(
            es,
            cursor,
            content.len() as int,
        ),
    decreases content.len() - cursor,
{
    lemma_marker_lengths();
    if cursor <= content.len() {
        if let Some(start) = find(content, crate::parse::TRACK_ITEM_OPEN@, cursor) {
            lemma_find(content, crate::parse::TRACK_ITEM_OPEN@, cursor);
            let id_start = start + crate::parse::TRACK_ITEM_OPEN@.len();
            if let Some(open_end) = find(content, crate::parse::DIRECTIVE_END@, id_start) {
                lemma_find(content, crate::parse::DIRECTIVE_END@, id_start);
                let id = crate::text::trim(content.subrange(id_start, open_end));
                let body_start = open_end + crate::parse::DIRECTIVE_END@.len();
                if let Some(close_start) = find(
                    content,
                    crate::parse::TRACK_ITEM_CLOSE@,
                    body_start,
                ) {
                    lemma_find(content, crate::parse::TRACK_ITEM_CLOSE@, body_start);
                    let end = close_start + crate::parse::TRACK_ITEM_CLOSE@.len();
                    lemma_inline_in_order(content, end, seen.push(id));
                    if let Ok(es) = inline_from(content, cursor, seen) {
                        if es.len() > 0 {
                            let rest = es.drop_first();
                            match inline_from(content, end, seen.push(id)) {
                                Ok(r) => {
                                    assert(rest =~= r);
                                },
                                Err(_) => {
                                    assert(false);
                                },
                            }
                            assert forall|i: int| 0 <= i < es.len() implies cursor <= (
                            #[trigger] es[i]).start < es[i].end <= content.len() by {
                                if i > 0 {
                                    assert(es[i] == rest[i - 1]);
                                }
                            }
                            assert forall|i: int| 0 <= i < es.len() - 1 implies (
                            #[trigger] es[i]).end <= es[i + 1].start by {
                                assert(es[i + 1] == rest[i]);
                                if i > 0 {
                                    assert(es[i] == rest[i - 1]);
                                }
                            }
                        }
                    }
                }
            }
        }
    }
}

proof fn lemma_splice_step(
    content: Seq<char>,
    book_id: Seq<char>,
    page_id: Seq<char>,
    es: Seq<InlineView>,
    i: int,
    pos: int,
)
    requires
        0 <= i < es.len(),
    ensures
        spliced(content, book_id, page_id, es.skip(i), pos) == content.subrange(pos, es[i].start)
            + inline_tracker(book_id, page_id, es[i].item) + spliced(
            content,
            book_id,
            page_id,
            es.skip(i + 1),
            es[i].end,
        ),
{
    assert(es.skip(i)[0] == es[i]);
    assert(es.skip(i).drop_first() =~= es.skip(i + 1));
}

/// Replaces each `{{#track-item id}} label {{/track-item}}` directive of
/// `content` by its rendering, and leaves the rest of the text as it is.
pub fn replace_inline_track_items(content: &str, book_id: &str, page_id: &str) -> (r: Result<
    String,
    TrackError,
>)
    ensures
        match r {
            Ok(s) => inline_replaced(content@, book_id@, page_id@) == Ok::<Seq<char>, ErrorKind>(
                s@,
            ),
            Err(e) => inline_replaced(content@, book_id@, page_id@) == Err::<
                Seq<char>,
                ErrorKind,
            >(e@),
        },
{
    let entries = match scan_inline_directives(content) {
        Err(e) => return Err(e),
        Ok(v) => v,
    };
    let v = to_chars(content);
    let ghost es = inline_view(entries@);
    proof {
        lemma_inline_in_order(v@, 0, Seq::<Seq<char>>::empty());
    }
    if entries.len() == 0 {
        assert(v@.subrange(0, v@.len() as int) =~= v@);
        return Ok(content.to_owned());
    }
    let mut out = String::new();
    let mut pos: usize = 0;
    let mut i: usize = 0;
    assert(es.skip(0) =~= es);
    while i < entries.len()
        invariant
            es == inline_view(entries@),
            in_order(es, 0, v@.len() as int),
            i <= entries.len(),
            pos <= v.len(),
            i < entries.len() ==> pos <= es[i as int].start,
            out@ + spliced(v@, book_id@, page_id@, es.skip(i as int), pos as int) == spliced(
                v@,
                book_id@,
                page_id@,
                es,
                0,
            ),
        decreases entries.len() - i,
    {
        let e = &entries[i];
        proof {
            lemma_splice_step(v@, book_id@, page_id@, es, i as int, pos as int);
            assert(es[i as int] == e@);
        }
        push_range(&mut out, &v, pos, e.start);
        out.append(render_inline_tracker(book_id, page_id, &e.item).as_str());
        pos = e.end;
        i = i + 1;
    }
    push_range(&mut out, &v, pos, v.len());
    assert(es.skip(entries.len() as int) =~= Seq::<InlineView>::empty());
    Ok(out)
}

} // verus!
