//! Properties that relate several operations of the library.
use vstd::prelude::*;
use crate::chapter::{ChapterView, PageView, book_id_of, manifest_of, page_id, processed, section};
use crate::error::ErrorKind;
use crate::parse::{
    DIRECTIVE_END, InlineView, ItemView, OVERVIEW, TRACK_CHECKLIST, TRACK_ITEM_CLOSE,
    TRACK_ITEM_OPEN, TRACK_OPEN, first_repeat, ids_of, inline_directives, inline_from,
    inline_items, lemma_marker_lengths, page_items, track_block,
};
use crate::render::{
    html_char, html_escaped, in_order, inline_tracker, item_row, item_rows, spliced, tracker,
};
use crate::search::{
    contains, find, lemma_find, lemma_find_agree, lemma_find_shift, occurs_at, replace_all,
    replace_from,
};
use crate::ids::{ascii_upper, capitalized, humanized, id_check, section_words, title_words};
use crate::text::{Separator, is_separator, join, non_empty, normalised, split, trim};

verus! {

/// A chapter that holds none of the directives is passed through as it is,
/// and accepted.
pub proof fn law_plain_chapter_unchanged(
    ch: ChapterView,
    book_id: Seq<char>,
    manifest_json: Seq<char>,
)
    requires
        !contains(ch.content, TRACK_OPEN@),
        !contains(ch.content, TRACK_ITEM_OPEN@),
        !contains(ch.content, TRACK_CHECKLIST@),
        !contains(ch.content, OVERVIEW@),
    ensures
        processed(ch, book_id, manifest_json) == (ch.content, Ok::<(), crate::error::ErrorKind>(())),
{
}

proof fn lemma_rows_hold_row(book_id: Seq<char>, page_id: Seq<char>, items: Seq<ItemView>, i: int)
    requires
        0 <= i < items.len(),
    ensures
        exists|k: int|
            occurs_at(item_rows(book_id, page_id, items), item_row(book_id, page_id, items[i]), k),
    decreases items.len(),
{
    let rows = item_rows(book_id, page_id, items);
    let prev = item_rows(book_id, page_id, items.drop_last());
    let row = item_row(book_id, page_id, items[i]);
    if i == items.len() - 1 {
        assert(rows.subrange(prev.len() as int, (prev.len() + row.len()) as int) =~= row);
        assert(occurs_at(rows, row, prev.len() as int));
    } else {
        lemma_rows_hold_row(book_id, page_id, items.drop_last(), i);
        assert(items.drop_last()[i] == items[i]);
        let k = choose|k: int| occurs_at(prev, row, k);
        assert(rows.subrange(k, k + row.len()) =~= prev.subrange(k, k + row.len()));
        assert(occurs_at(rows, row, k));
    }
}

proof fn lemma_occurs_in_concat(a: Seq<char>, b: Seq<char>, c: Seq<char>, p: Seq<char>, k: int)
    requires
        occurs_at(b, p, k),
    ensures
        occurs_at(a + b + c, p, a.len() + k),
{
    assert((a + b + c).subrange(a.len() + k, a.len() + k + p.len()) =~= b.subrange(k, k + p.len()));
}

/// The checklist of a chapter and the inline rendering of each of its
/// items show that item with the very same row: the same checkbox, with the
/// same item, book and page ids, so both stand for one stored state.
pub proof fn law_checklist_and_inline_share_rows(
    book_id: Seq<char>,
    page_id: Seq<char>,
    items: Seq<ItemView>,
    i: int,
)
    requires
        0 <= i < items.len(),
    ensures
        exists|k: int|
            occurs_at(tracker(book_id, page_id, items), item_row(book_id, page_id, items[i]), k),
        exists|k: int|
            occurs_at(
                inline_tracker(book_id, page_id, items[i]),
                item_row(book_id, page_id, items[i]),
                k,
            ),
{
    let row = item_row(book_id, page_id, items[i]);
    let rows = item_rows(book_id, page_id, items);
    lemma_rows_hold_row(book_id, page_id, items, i);
    let k = choose|k: int| occurs_at(rows, row, k);
    let t = tracker(book_id, page_id, items);
    let end = crate::render::TRACKER_END@;
    let head = t.subrange(0, t.len() - rows.len() - end.len());
    assert(t =~= head + rows + end);
    lemma_occurs_in_concat(head, rows, end, row, k);
    let it = inline_tracker(book_id, page_id, items[i]);
    let tail = crate::render::INLINE_END@;
    let before = it.subrange(0, it.len() - row.len() - tail.len());
    assert(it =~= before + row + tail);
    assert(occurs_at(row, row, 0)) by {
        assert(row.subrange(0, row.len() as int) =~= row);
    }
    lemma_occurs_in_concat(before, row, tail, row, 0);
}

/// The directives of `r` moved `d` characters on.
pub open spec fn shifted(r: Result<Seq<InlineView>, ErrorKind>, d: int) -> Result<
    Seq<InlineView>,
    ErrorKind,
> {
    match r {
        Ok(es) => Ok(
            es.map_values(
                |e: InlineView| InlineView { start: e.start + d, end: e.end + d, item: e.item },
            ),
        ),
        Err(e) => Err(e),
    }
}

/// Reading directives after a prefix `a` reads the rest of the text.
proof fn lemma_inline_shift(a: Seq<char>, t: Seq<char>, k: int, seen: Seq<Seq<char>>)
    requires
        0 <= k,
    ensures
        inline_from(a + t, a.len() + k, seen) == shifted(inline_from(t, k, seen), a.len() as int),
    decreases t.len() - k,
{
    lemma_marker_lengths();
    let c = a + t;
    let d = a.len() as int;
    let f = |e: InlineView| InlineView { start: e.start + d, end: e.end + d, item: e.item };
    assert(Seq::<InlineView>::empty().map_values(f) =~= Seq::<InlineView>::empty());
    if k <= t.len() {
        lemma_find_shift(a, t, TRACK_ITEM_OPEN@, k);
        if let Some(start) = find(t, TRACK_ITEM_OPEN@, k) {
            lemma_find(t, TRACK_ITEM_OPEN@, k);
            let id_start = start + TRACK_ITEM_OPEN@.len();
            lemma_find_shift(a, t, DIRECTIVE_END@, id_start);
            if let Some(open_end) = find(t, DIRECTIVE_END@, id_start) {
                lemma_find(t, DIRECTIVE_END@, id_start);
                assert(c.subrange(d + id_start, d + open_end) =~= t.subrange(id_start, open_end));
                let id = trim(t.subrange(id_start, open_end));
                let body_start = open_end + DIRECTIVE_END@.len();
                lemma_find_shift(a, t, TRACK_ITEM_CLOSE@, body_start);
                if let Some(close_start) = find(t, TRACK_ITEM_CLOSE@, body_start) {
                    lemma_find(t, TRACK_ITEM_CLOSE@, body_start);
                    assert(c.subrange(d + body_start, d + close_start) =~= t.subrange(
                        body_start,
                        close_start,
                    ));
                    let end = close_start + TRACK_ITEM_CLOSE@.len();
                    lemma_inline_shift(a, t, end, seen.push(id));
                    if let Ok(rest) = inline_from(t, end, seen.push(id)) {
                        let x = InlineView {
                            start,
                            end,
                            item: ItemView {
                                id,
                                label: normalised(t.subrange(body_start, close_start)),
                            },
                        };
                        assert((seq![x] + rest).map_values(f) =~= seq![f(x)] + rest.map_values(f));
                    }
                }
            }
        }
    }
}

/// `c` with the label text of a directive replaced by `label_text`: the
/// text between the `}}` that ends its opening, at `open_end`, and the
/// `{{/track-item}}` that ends at `end`.
pub open spec fn relabelled(c: Seq<char>, open_end: int, end: int, label_text: Seq<char>) -> Seq<
    char,
> {
    c.take(open_end + DIRECTIVE_END@.len()) + label_text + c.skip(end - TRACK_ITEM_CLOSE@.len())
}

/// `es2` holds the items of `es`, with the label of item `i` now `label`.
pub open spec fn same_but_label(
    es: Seq<InlineView>,
    es2: Seq<InlineView>,
    i: int,
    label: Seq<char>,
) -> bool {
    &&& es2.len() == es.len()
    &&& forall|j: int| 0 <= j < es.len() ==> (#[trigger] es2[j]).item.id == es[j].item.id
    &&& es2[i].item.label == label
    &&& forall|j: int| 0 <= j < es.len() && j != i ==> (#[trigger] es2[j]).item.label
        == es[j].item.label
}

/// The directive read first from `cursor`, taken apart.
proof fn lemma_first_directive(c: Seq<char>, cursor: int, seen: Seq<Seq<char>>) -> (r: (
    int,
    int,
    int,
))
    requires
        0 <= cursor,
        inline_from(c, cursor, seen) matches Ok(es) && es.len() > 0,
    ensures
        ({
            let (start, oe, cs) = r;
            let es = inline_from(c, cursor, seen)->Ok_0;
            let id = trim(c.subrange(start + TRACK_ITEM_OPEN@.len(), oe));
            let label = normalised(c.subrange(oe + DIRECTIVE_END@.len(), cs));
            &&& cursor <= c.len()
            &&& find(c, TRACK_ITEM_OPEN@, cursor) == Some(start)
            &&& find(c, DIRECTIVE_END@, start + TRACK_ITEM_OPEN@.len()) == Some(oe)
            &&& find(c, TRACK_ITEM_CLOSE@, oe + DIRECTIVE_END@.len()) == Some(cs)
            &&& cursor <= start
            &&& start + TRACK_ITEM_OPEN@.len() <= oe
            &&& oe + DIRECTIVE_END@.len() <= cs
            &&& cs + TRACK_ITEM_CLOSE@.len() <= c.len()
            &&& crate::ids::id_check(id) is Ok
            &&& !seen.contains(id)
            &&& label.len() > 0
            &&& es[0] == InlineView {
                start,
                end: cs + TRACK_ITEM_CLOSE@.len(),
                item: ItemView { id, label },
            }
            &&& inline_from(c, cs + TRACK_ITEM_CLOSE@.len(), seen.push(id)) == Ok::<
                Seq<InlineView>,
                ErrorKind,
            >(es.drop_first())
        }),
{
    lemma_marker_lengths();
    let es = inline_from(c, cursor, seen)->Ok_0;
    let start = find(c, TRACK_ITEM_OPEN@, cursor)->Some_0;
    lemma_find(c, TRACK_ITEM_OPEN@, cursor);
    let id_start = start + TRACK_ITEM_OPEN@.len();
    let oe = find(c, DIRECTIVE_END@, id_start)->Some_0;
    lemma_find(c, DIRECTIVE_END@, id_start);
    let id = trim(c.subrange(id_start, oe));
    let body_start = oe + DIRECTIVE_END@.len();
    let cs = find(c, TRACK_ITEM_CLOSE@, body_start)->Some_0;
    lemma_find(c, TRACK_ITEM_CLOSE@, body_start);
    let end = cs + TRACK_ITEM_CLOSE@.len();
    match inline_from(c, end, seen.push(id)) {
        Ok(r) => {
            assert(es.drop_first() =~= r);
        },
        Err(_) => {
            assert(false);
        },
    }
    (start, oe, cs)
}

/// A directive whose parts are found, followed by what the rest reads.
proof fn lemma_build_first(
    c: Seq<char>,
    cursor: int,
    seen: Seq<Seq<char>>,
    start: int,
    oe: int,
    cs: int,
    rest: Seq<InlineView>,
)
    requires
        0 <= cursor <= c.len(),
        find(c, TRACK_ITEM_OPEN@, cursor) == Some(start),
        find(c, DIRECTIVE_END@, start + TRACK_ITEM_OPEN@.len()) == Some(oe),
        find(c, TRACK_ITEM_CLOSE@, oe + DIRECTIVE_END@.len()) == Some(cs),
        crate::ids::id_check(trim(c.subrange(start + TRACK_ITEM_OPEN@.len(), oe))) is Ok,
        !seen.contains(trim(c.subrange(start + TRACK_ITEM_OPEN@.len(), oe))),
        normalised(c.subrange(oe + DIRECTIVE_END@.len(), cs)).len() > 0,
        inline_from(
            c,
            cs + TRACK_ITEM_CLOSE@.len(),
            seen.push(trim(c.subrange(start + TRACK_ITEM_OPEN@.len(), oe))),
        ) == Ok::<Seq<InlineView>, ErrorKind>(rest),
    ensures
        inline_from(c, cursor, seen) == Ok::<Seq<InlineView>, ErrorKind>(
            seq![
                InlineView {
                    start,
                    end: cs + TRACK_ITEM_CLOSE@.len(),
                    item: ItemView {
                        id: trim(c.subrange(start + TRACK_ITEM_OPEN@.len(), oe)),
                        label: normalised(c.subrange(oe + DIRECTIVE_END@.len(), cs)),
                    },
                },
            ] + rest,
        ),
{
}

/// Relabelling the first directive read from `cursor`.
proof fn lemma_relabel_first(
    c: Seq<char>,
    c2: Seq<char>,
    cursor: int,
    seen: Seq<Seq<char>>,
    es: Seq<InlineView>,
    open_end: int,
    label_text: Seq<char>,
)
    requires
        0 <= cursor,
        inline_from(c, cursor, seen) == Ok::<Seq<InlineView>, ErrorKind>(es),
        es.len() > 0,
        find(c, DIRECTIVE_END@, es[0].start + TRACK_ITEM_OPEN@.len()) == Some(open_end),
        find(label_text + TRACK_ITEM_CLOSE@, TRACK_ITEM_CLOSE@, 0) == Some(label_text.len() as int),
        normalised(label_text).len() > 0,
        c2 == relabelled(c, open_end, es[0].end, label_text),
    ensures
        inline_from(c2, cursor, seen) matches Ok(es2) && same_but_label(
            es,
            es2,
            0,
            normalised(label_text),
        ),
{
    lemma_marker_lengths();
    let (start, oe, cs) = lemma_first_directive(c, cursor, seen);
    let id = trim(c.subrange(start + TRACK_ITEM_OPEN@.len(), oe));
    let end = cs + TRACK_ITEM_CLOSE@.len();
    let m = open_end + DIRECTIVE_END@.len();
    assert(oe == open_end);
    let p = c.take(m);
    assert(c2.len() >= m);
    assert forall|j: int| 0 <= j < m implies c[j] == c2[j] by {
        assert(c2[j] == p[j]);
    }
    lemma_find_agree(c, c2, TRACK_ITEM_OPEN@, cursor, m);
    lemma_find_agree(c, c2, DIRECTIVE_END@, start + TRACK_ITEM_OPEN@.len(), m);
    assert(c2.subrange(start + TRACK_ITEM_OPEN@.len(), oe) =~= c.subrange(
        start + TRACK_ITEM_OPEN@.len(),
        oe,
    ));
    // The close of the relabelled directive follows the new text.
    let q = c.skip(end - TRACK_ITEM_CLOSE@.len());
    lemma_find(c, TRACK_ITEM_CLOSE@, oe + DIRECTIVE_END@.len());
    assert(q.take(TRACK_ITEM_CLOSE@.len() as int) =~= c.subrange(cs, end));
    let nq = label_text + q;
    let nc = label_text + TRACK_ITEM_CLOSE@;
    let n = (label_text.len() + TRACK_ITEM_CLOSE@.len()) as int;
    assert forall|j: int| 0 <= j < n implies nc[j] == nq[j] by {
        if j >= label_text.len() {
            assert(nq[j] == q[j - label_text.len()]);
            assert(q[j - label_text.len()] == q.take(TRACK_ITEM_CLOSE@.len() as int)[j
                - label_text.len()]);
        }
    }
    lemma_find_agree(nc, nq, TRACK_ITEM_CLOSE@, 0, n);
    assert(c2 =~= p + nq);
    lemma_find_shift(p, nq, TRACK_ITEM_CLOSE@, 0);
    let close2 = m + label_text.len();
    let end2 = close2 + TRACK_ITEM_CLOSE@.len();
    assert(c2.subrange(m, close2) =~= label_text);
    // Both texts go on alike after the directive.
    let tail = c.skip(end);
    assert(c =~= c.take(end) + tail);
    assert(c2.skip(end2) =~= tail);
    assert(c2 =~= c2.take(end2) + tail);
    lemma_inline_shift(c.take(end), tail, 0, seen.push(id));
    lemma_inline_shift(c2.take(end2), tail, 0, seen.push(id));
    let b = inline_from(tail, 0, seen.push(id))->Ok_0;
    let rest = es.drop_first();
    let rest2 = inline_from(c2, end2, seen.push(id))->Ok_0;
    assert(rest2.len() == rest.len());
    assert forall|j: int| 0 <= j < rest.len() implies (#[trigger] rest2[j]).item == rest[j].item by {
        assert(rest2[j].item == b[j].item);
        assert(rest[j].item == b[j].item);
    }
    lemma_build_first(c2, cursor, seen, start, oe, close2, rest2);
    let es2 = inline_from(c2, cursor, seen)->Ok_0;
    assert forall|j: int| 0 <= j < es.len() implies (#[trigger] es2[j]).item.id == es[j].item.id
        && (j != 0 ==> es2[j].item.label == es[j].item.label) by {
        if j > 0 {
            assert(es2[j] == rest2[j - 1]);
            assert(es[j] == rest[j - 1]);
        }
    }
}

proof fn lemma_relabel(
    c: Seq<char>,
    c2: Seq<char>,
    cursor: int,
    seen: Seq<Seq<char>>,
    es: Seq<InlineView>,
    i: int,
    open_end: int,
    label_text: Seq<char>,
)
    requires
        0 <= cursor,
        inline_from(c, cursor, seen) == Ok::<Seq<InlineView>, ErrorKind>(es),
        0 <= i < es.len(),
        find(c, DIRECTIVE_END@, es[i].start + TRACK_ITEM_OPEN@.len()) == Some(open_end),
        find(label_text + TRACK_ITEM_CLOSE@, TRACK_ITEM_CLOSE@, 0) == Some(label_text.len() as int),
        normalised(label_text).len() > 0,
        c2 == relabelled(c, open_end, es[i].end, label_text),
    ensures
        inline_from(c2, cursor, seen) matches Ok(es2) && same_but_label(
            es,
            es2,
            i,
            normalised(label_text),
        ),
    decreases i,
{
    if i == 0 {
        lemma_relabel_first(c, c2, cursor, seen, es, open_end, label_text);
    } else {
        lemma_marker_lengths();
        let (start, oe, cs) = lemma_first_directive(c, cursor, seen);
        let id = trim(c.subrange(start + TRACK_ITEM_OPEN@.len(), oe));
        let end = cs + TRACK_ITEM_CLOSE@.len();
        let rest = es.drop_first();
        assert(rest[i - 1] == es[i]);
        crate::render::lemma_inline_in_order(c, end, seen.push(id));
        lemma_find(c, DIRECTIVE_END@, es[i].start + TRACK_ITEM_OPEN@.len());
        let m = open_end + DIRECTIVE_END@.len();
        assert(end <= es[i].start);
        let p = c.take(m);
        assert(c2.len() >= m);
        assert forall|j: int| 0 <= j < m implies c[j] == c2[j] by {
            assert(c2[j] == p[j]);
        }
        lemma_find_agree(c, c2, TRACK_ITEM_OPEN@, cursor, m);
        lemma_find_agree(c, c2, DIRECTIVE_END@, start + TRACK_ITEM_OPEN@.len(), m);
        lemma_find_agree(c, c2, TRACK_ITEM_CLOSE@, oe + DIRECTIVE_END@.len(), m);
        assert(c2.subrange(start + TRACK_ITEM_OPEN@.len(), oe) =~= c.subrange(
            start + TRACK_ITEM_OPEN@.len(),
            oe,
        ));
        assert(c2.subrange(oe + DIRECTIVE_END@.len(), cs) =~= c.subrange(
            oe + DIRECTIVE_END@.len(),
            cs,
        ));
        lemma_relabel(c, c2, end, seen.push(id), rest, i - 1, open_end, label_text);
        let rest2 = inline_from(c2, end, seen.push(id))->Ok_0;
        lemma_build_first(c2, cursor, seen, start, oe, cs, rest2);
        let es2 = inline_from(c2, cursor, seen)->Ok_0;
        assert forall|j: int| 0 <= j < es.len() implies (#[trigger] es2[j]).item.id
            == es[j].item.id && (j != i ==> es2[j].item.label == es[j].item.label) by {
            if j > 0 {
                assert(es2[j] == rest2[j - 1]);
                assert(es[j] == rest[j - 1]);
            }
        }
        assert(es2[i] == rest2[i - 1]);
    }
}

/// Editing the label of an inline item keeps every id, so the state
/// stored under them is kept: the chapter still reads, with the same ids
/// and the other labels as they were. This holds when the new label text
/// does not itself hold `{{/track-item}}` (nor end so as to form one with
/// it) and is not blank.
pub proof fn law_label_edit_keeps_ids(
    content: Seq<char>,
    es: Seq<InlineView>,
    i: int,
    open_end: int,
    label_text: Seq<char>,
)
    requires
        inline_directives(content) == Ok::<Seq<InlineView>, ErrorKind>(es),
        0 <= i < es.len(),
        find(content, DIRECTIVE_END@, es[i].start + TRACK_ITEM_OPEN@.len()) == Some(open_end),
        find(label_text + TRACK_ITEM_CLOSE@, TRACK_ITEM_CLOSE@, 0) == Some(label_text.len() as int),
        normalised(label_text).len() > 0,
    ensures
        inline_directives(relabelled(content, open_end, es[i].end, label_text)) matches Ok(es2)
            && same_but_label(es, es2, i, normalised(label_text)),
{
    lemma_relabel(
        content,
        relabelled(content, open_end, es[i].end, label_text),
        0,
        Seq::<Seq<char>>::empty(),
        es,
        i,
        open_end,
        label_text,
    );
}

// ---------------------------------------------------------------------
// Escaping can be undone
// ---------------------------------------------------------------------
pub open spec fn amp_entity() -> Seq<char> {
    seq!['&', 'a', 'm', 'p', ';']
}

pub open spec fn lt_entity() -> Seq<char> {
    seq!['&', 'l', 't', ';']
}

pub open spec fn gt_entity() -> Seq<char> {
    seq!['&', 'g', 't', ';']
}

pub open spec fn quot_entity() -> Seq<char> {
    seq!['&', 'q', 'u', 'o', 't', ';']
}

pub open spec fn apos_entity() -> Seq<char> {
    seq!['&', '#', '3', '9', ';']
}

/// `e` starts with `p`.
pub open spec fn starts_with(e: Seq<char>, p: Seq<char>) -> bool {
    e.len() >= p.len() && e.take(p.len() as int) == p
}

/// One of the five entities that escaping writes starts at position `i`.
pub open spec fn entity_at(e: Seq<char>, i: int) -> bool {
    ||| occurs_at(e, amp_entity(), i)
    ||| occurs_at(e, lt_entity(), i)
    ||| occurs_at(e, gt_entity(), i)
    ||| occurs_at(e, quot_entity(), i)
    ||| occurs_at(e, apos_entity(), i)
}

/// `e` with the five entities decoded in one pass from left to right.
pub open spec fn html_decoded(e: Seq<char>) -> Seq<char>
    decreases e.len(),
{
    if e.len() == 0 {
        Seq::<char>::empty()
    } else if starts_with(e, amp_entity()) {
        seq!['&'] + html_decoded(e.skip(5))
    } else if starts_with(e, lt_entity()) {
        seq!['<'] + html_decoded(e.skip(4))
    } else if starts_with(e, gt_entity()) {
        seq!['>'] + html_decoded(e.skip(4))
    } else if starts_with(e, quot_entity()) {
        seq!['"'] + html_decoded(e.skip(6))
    } else if starts_with(e, apos_entity()) {
        seq!['\''] + html_decoded(e.skip(5))
    } else {
        seq![e[0]] + html_decoded(e.drop_first())
    }
}

proof fn lemma_html_char_entities(c: char)
    ensures
        c == '&' ==> html_char(c) == amp_entity(),
        c == '<' ==> html_char(c) == lt_entity(),
        c == '>' ==> html_char(c) == gt_entity(),
        c == '"' ==> html_char(c) == quot_entity(),
        c == '\'' ==> html_char(c) == apos_entity(),
{
    reveal_strlit("&amp;");
    reveal_strlit("&lt;");
    reveal_strlit("&gt;");
    reveal_strlit("&quot;");
    reveal_strlit("&#39;");
    assert("&amp;"@ =~= amp_entity());
    assert("&lt;"@ =~= lt_entity());
    assert("&gt;"@ =~= gt_entity());
    assert("&quot;"@ =~= quot_entity());
    assert("&#39;"@ =~= apos_entity());
}

proof fn lemma_escaped_concat(a: Seq<char>, b: Seq<char>)
    ensures
        html_escaped(a + b) == html_escaped(a) + html_escaped(b),
    decreases b.len(),
{
    if b.len() == 0 {
        assert(a + b =~= a);
        assert(html_escaped(a) + html_escaped(b) =~= html_escaped(a));
    } else {
        lemma_escaped_concat(a, b.drop_last());
        assert((a + b).drop_last() =~= a + b.drop_last());
        assert((a + b).last() == b.last());
        assert(html_escaped(a + b) =~= html_escaped(a) + html_escaped(b));
    }
}

proof fn lemma_decode_char(c: char, rest: Seq<char>)
    ensures
        html_decoded(html_char(c) + rest) == seq![c] + html_decoded(rest),
{
    lemma_html_char_entities(c);
    let e = html_char(c) + rest;
    if c == '&' {
        assert(e.take(5) =~= amp_entity());
        assert(e.skip(5) =~= rest);
    } else if c == '<' {
        assert(e[1] == 'l');
        assert(e.take(4) =~= lt_entity());
        assert(e.skip(4) =~= rest);
    } else if c == '>' {
        assert(e[1] == 'g');
        assert(e.take(4) =~= gt_entity());
        assert(e.skip(4) =~= rest);
    } else if c == '"' {
        assert(e[1] == 'q');
        assert(e.take(6) =~= quot_entity());
        assert(e.skip(6) =~= rest);
    } else if c == '\'' {
        assert(e[1] == '#');
        assert(e.take(5) =~= apos_entity());
        assert(e.skip(5) =~= rest);
    } else {
        assert(html_char(c) == seq![c]);
        assert(e[0] == c);
        if e.len() >= 4 {
            assert(e.take(4)[0] == c);
        }
        if e.len() >= 5 {
            assert(e.take(5)[0] == c);
        }
        if e.len() >= 6 {
            assert(e.take(6)[0] == c);
        }
        assert(e.drop_first() =~= rest);
    }
}

proof fn lemma_decode_escaped(s: Seq<char>)
    ensures
        html_decoded(html_escaped(s)) == s,
    decreases s.len(),
{
    if s.len() > 0 {
        let c = s[0];
        let rest = s.drop_first();
        assert(s =~= seq![c] + rest);
        lemma_escaped_concat(seq![c], rest);
        assert(seq![c].drop_last() =~= Seq::<char>::empty());
        assert(seq![c].last() == c);
        assert(html_escaped(Seq::<char>::empty()) == Seq::<char>::empty());
        assert(html_escaped(seq![c]) == html_escaped(seq![c].drop_last()) + html_char(c));
        assert(html_escaped(seq![c]) =~= html_char(c));
        lemma_decode_char(c, html_escaped(rest));
        lemma_decode_escaped(rest);
        assert(seq![c] + rest =~= s);
    }
}

proof fn lemma_escaped_amp(s: Seq<char>)
    ensures
        forall|i: int|
            0 <= i < html_escaped(s).len() && html_escaped(s)[i] == '&' ==> entity_at(
                html_escaped(s),
                i,
            ),
    decreases s.len(),
{
    if s.len() > 0 {
        lemma_escaped_amp(s.drop_last());
        let a = html_escaped(s.drop_last());
        let b = html_char(s.last());
        let e = html_escaped(s);
        assert(e == a + b);
        lemma_html_char_entities(s.last());
        assert forall|i: int| 0 <= i < e.len() && e[i] == '&' implies entity_at(e, i) by {
            if i < a.len() {
                assert(e[i] == a[i]);
                assert(entity_at(a, i));
                let p = if occurs_at(a, amp_entity(), i) {
                    amp_entity()
                } else if occurs_at(a, lt_entity(), i) {
                    lt_entity()
                } else if occurs_at(a, gt_entity(), i) {
                    gt_entity()
                } else if occurs_at(a, quot_entity(), i) {
                    quot_entity()
                } else {
                    apos_entity()
                };
                assert(occurs_at(a, p, i));
                assert(e.subrange(i, i + p.len()) =~= a.subrange(i, i + p.len()));
                assert(occurs_at(e, p, i));
            } else {
                let c = s.last();
                assert(e[i] == b[i - a.len()]);
                if c == '&' || c == '<' || c == '>' || c == '"' || c == '\'' {
                    if i > a.len() {
                        assert(b[i - a.len()] != '&');
                    }
                    assert(e.subrange(a.len() as int, e.len() as int) =~= b);
                } else {
                    assert(b == seq![c]);
                }
            }
        }
    }
}

/// What `escape_html` writes can be read back: it holds none of `<`, `>`,
/// `"` and `'`, every `&` in it starts one of the five entities, and
/// decoding those entities in one pass from left to right gives back the
/// text that was escaped.
pub proof fn law_escape_html_decodes(s: Seq<char>)
    ensures
        forall|i: int|
            0 <= i < html_escaped(s).len() ==> !crate::render::is_html_special(
                #[trigger] html_escaped(s)[i],
            ),
        forall|i: int|
            0 <= i < html_escaped(s).len() && html_escaped(s)[i] == '&' ==> entity_at(
                html_escaped(s),
                i,
            ),
        html_decoded(html_escaped(s)) == s,
{
    crate::render::lemma_html_escaped(s);
    lemma_escaped_amp(s);
    lemma_decode_escaped(s);
}

// ---------------------------------------------------------------------
// Section titles
// ---------------------------------------------------------------------
/// Every character of `s` is ASCII.
pub open spec fn is_ascii_text(s: Seq<char>) -> bool {
    forall|i: int| 0 <= i < s.len() ==> (#[trigger] s[i] as u32) < 128
}

/// An ASCII character other than `-` and `_`.
pub open spec fn title_char(c: char) -> bool {
    (c as u32) < 128 && c != '-' && c != '_'
}

/// Every character of `s` is a `title_char`.
pub open spec fn all_title(s: Seq<char>) -> bool {
    forall|i: int| 0 <= i < s.len() ==> title_char(#[trigger] s[i])
}

proof fn lemma_split_title(s: Seq<char>)
    requires
        is_ascii_text(s),
    ensures
        forall|i: int|
            0 <= i < split(s, Separator::DashOrUnderscore).len() ==> all_title(
                #[trigger] split(s, Separator::DashOrUnderscore)[i],
            ),
    decreases s.len(),
{
    if s.len() > 0 {
        assert(is_ascii_text(s.drop_last())) by {
            assert forall|i: int| 0 <= i < s.drop_last().len() implies (#[trigger] s.drop_last()[i]
                as u32) < 128 by {
                assert(s.drop_last()[i] == s[i]);
            }
        }
        lemma_split_title(s.drop_last());
        crate::text::lemma_split_nonempty(s.drop_last(), Separator::DashOrUnderscore);
        let p = split(s.drop_last(), Separator::DashOrUnderscore);
        let c = s.last();
        assert((c as u32) < 128);
        if !is_separator(Separator::DashOrUnderscore, c) {
            let w = p.last().push(c);
            assert(all_title(p.last()));
            assert(all_title(w)) by {
                assert forall|j: int| 0 <= j < w.len() implies title_char(#[trigger] w[j]) by {
                    if j < p.last().len() {
                        assert(w[j] == p.last()[j]);
                    }
                }
            }
            let q = p.update(p.len() - 1, w);
            assert forall|i: int| 0 <= i < q.len() implies all_title(#[trigger] q[i]) by {
                if i < p.len() - 1 {
                    assert(q[i] == p[i]);
                }
            }
        } else {
            let q = p.push(Seq::<char>::empty());
            assert forall|i: int| 0 <= i < q.len() implies all_title(#[trigger] q[i]) by {
                if i < p.len() {
                    assert(q[i] == p[i]);
                }
            }
        }
    }
}

proof fn lemma_non_empty_title(parts: Seq<Seq<char>>)
    requires
        forall|i: int| 0 <= i < parts.len() ==> all_title(#[trigger] parts[i]),
    ensures
        forall|i: int| 0 <= i < non_empty(parts).len() ==> all_title(#[trigger] non_empty(parts)[i]),
    decreases parts.len(),
{
    reveal_with_fuel(Seq::filter, 1);
    if parts.len() > 0 {
        lemma_non_empty_title(parts.drop_last());
        let sub = non_empty(parts.drop_last());
        assert(non_empty(parts) == if parts.last().len() > 0 {
            sub.push(parts.last())
        } else {
            sub
        });
        assert forall|i: int| 0 <= i < non_empty(parts).len() implies all_title(
            #[trigger] non_empty(parts)[i],
        ) by {
            if i < sub.len() {
                assert(non_empty(parts)[i] == sub[i]);
            }
        }
    }
}

proof fn lemma_capitalized_title(w: Seq<char>)
    requires
        all_title(w),
        w.len() > 0,
    ensures
        all_title(capitalized(w)),
        capitalized(w).len() == w.len(),
        capitalized(w)[0] == ascii_upper(w[0]),
{
    let c = w[0];
    assert(title_char(c));
    if 'a' <= c && c <= 'z' {
        assert(ascii_upper(c) as u32 == c as u32 - 32);
    }
    let x = capitalized(w);
    assert(x == seq![ascii_upper(c)] + w.drop_first());
    assert forall|j: int| 0 <= j < x.len() implies title_char(#[trigger] x[j]) by {
        if j > 0 {
            assert(x[j] == w[j]);
        }
    }
}

proof fn lemma_join_title(ws: Seq<Seq<char>>)
    requires
        forall|i: int| 0 <= i < ws.len() ==> all_title(#[trigger] ws[i]) && ws[i].len() > 0,
    ensures
        all_title(join(ws, seq![' '])),
        ws.len() > 0 ==> join(ws, seq![' ']).len() > 0 && join(ws, seq![' '])[0] == ws[0][0],
    decreases ws.len(),
{
    if ws.len() == 1 {
        assert(all_title(ws[0]));
    } else if ws.len() > 1 {
        let a = join(ws.drop_last(), seq![' ']);
        lemma_join_title(ws.drop_last());
        let w = ws.last();
        assert(all_title(w) && w.len() > 0);
        let j = a + seq![' '] + w;
        assert forall|i: int| 0 <= i < j.len() implies title_char(#[trigger] j[i]) by {
            if i < a.len() {
                assert(j[i] == a[i]);
            } else if i > a.len() {
                assert(j[i] == w[i - a.len() - 1]);
            }
        }
        assert(j[0] == a[0]);
        assert(ws.drop_last()[0] == ws[0]);
    }
}

proof fn lemma_split_whole(s: Seq<char>)
    requires
        forall|i: int| 0 <= i < s.len() ==> !is_separator(Separator::DashOrUnderscore, #[trigger] s[i]),
    ensures
        split(s, Separator::DashOrUnderscore) == seq![s],
    decreases s.len(),
{
    if s.len() > 0 {
        lemma_split_whole(s.drop_last());
        assert(!is_separator(Separator::DashOrUnderscore, s[s.len() - 1]));
        assert(s.drop_last().push(s.last()) =~= s);
        assert(seq![s.drop_last()].update(0, s.drop_last().push(s.last())) =~= seq![s]);
    } else {
        assert(s =~= Seq::<char>::empty());
    }
}

/// The section title made from ASCII text holds no `-` or `_`, and making a
/// section title of it again gives it back unchanged.
pub proof fn law_humanize_idempotent(value: Seq<char>)
    requires
        is_ascii_text(value),
    ensures
        forall|i: int|
            0 <= i < humanized(value).len() ==> #[trigger] humanized(value)[i] != '-'
                && humanized(value)[i] != '_',
        humanized(humanized(value)) == humanized(value),
{
    let parts = split(value, Separator::DashOrUnderscore);
    lemma_split_title(value);
    lemma_non_empty_title(parts);
    crate::text::lemma_non_empty(parts);
    let ws = section_words(value);
    let caps = title_words(value);
    assert forall|i: int| 0 <= i < caps.len() implies all_title(#[trigger] caps[i]) && caps[i].len()
        > 0 by {
        assert(caps[i] == capitalized(ws[i]));
        lemma_capitalized_title(ws[i]);
    }
    lemma_join_title(caps);
    let r = humanized(value);
    assert forall|i: int| 0 <= i < r.len() implies #[trigger] r[i] != '-' && r[i] != '_' by {
        assert(title_char(r[i]));
    }
    lemma_split_whole(r);
    reveal_with_fuel(Seq::filter, 2);
    let one: Seq<Seq<char>> = seq![r];
    assert(one.drop_last() =~= Seq::<Seq<char>>::empty());
    if r.len() == 0 {
        assert(section_words(r) =~= Seq::<Seq<char>>::empty());
        assert(title_words(r) =~= Seq::<Seq<char>>::empty());
    } else {
        assert(section_words(r) =~= one);
        assert(title_words(r) =~= seq![capitalized(r)]);
        lemma_capitalized_title(ws[0]);
        assert(r[0] == caps[0][0]);
        assert(caps[0] == capitalized(ws[0]));
        assert(title_char(r[0]));
        assert(ascii_upper(r[0]) == r[0]);
        assert(capitalized(r) =~= r);
    }
}

// ---------------------------------------------------------------------
// Sections, book ids, manifests and ids
// ---------------------------------------------------------------------
/// A chapter inside other chapters belongs to the section of the outermost
/// of them, whatever its path.
pub proof fn law_section_is_outermost_parent(ch: ChapterView)
    requires
        ch.parent_names.len() > 0,
    ensures
        section(ch) == ch.parent_names[0],
{
}

/// A configured book id that is not blank is the book id, trimmed, whatever
/// the book's title; a blank one is refused, whatever the title.
pub proof fn law_configured_book_id_wins(id: Seq<char>, title: Option<Seq<char>>)
    ensures
        trim(id).len() > 0 ==> book_id_of(Some(id), title) == Ok::<Seq<char>, ErrorKind>(trim(id)),
        trim(id).len() == 0 ==> book_id_of(Some(id), title) == Err::<Seq<char>, ErrorKind>(
            ErrorKind::EmptyBookId,
        ),
{
}

proof fn lemma_no_repeat(ids: Seq<Seq<char>>, k: int)
    requires
        0 <= k,
        ids.no_duplicates(),
    ensures
        first_repeat(ids, k) is None,
    decreases ids.len() - k,
{
    if k < ids.len() {
        assert(!ids.take(k).contains(ids[k])) by {
            if ids.take(k).contains(ids[k]) {
                let j = choose|j: int| 0 <= j < ids.take(k).len() && ids.take(k)[j] == ids[k];
                assert(ids[j] == ids[k]);
            }
        }
        lemma_no_repeat(ids, k + 1);
    }
}

/// The items of a chapter are those of its `{{#track}}` block, then those
/// of its `{{#track-item}}` directives in order, when their ids are distinct.
pub proof fn law_page_items_are_block_then_inline(
    content: Seq<char>,
    block: Option<Seq<ItemView>>,
    es: Seq<InlineView>,
)
    requires
        track_block(content) == Ok::<Option<Seq<ItemView>>, ErrorKind>(block),
        inline_directives(content) == Ok::<Seq<InlineView>, ErrorKind>(es),
        ids_of(
            match block {
                Some(b) => b,
                None => Seq::<ItemView>::empty(),
            } + inline_items(es),
        ).no_duplicates(),
    ensures
        page_items(content) == Ok::<Seq<ItemView>, ErrorKind>(
            match block {
                Some(b) => b,
                None => Seq::<ItemView>::empty(),
            } + inline_items(es),
        ),
{
    let all = match block {
        Some(b) => b,
        None => Seq::<ItemView>::empty(),
    } + inline_items(es);
    lemma_no_repeat(ids_of(all), 0);
}

/// A chapter that tracks items and has a path has a manifest entry: its
/// page id, its name as title, its section, and all its items.
pub proof fn law_tracked_chapter_has_entry(ch: ChapterView, items: Seq<ItemView>, id: Seq<char>)
    requires
        page_items(ch.content) == Ok::<Seq<ItemView>, ErrorKind>(items),
        items.len() > 0,
        page_id(ch) == Ok::<Seq<char>, ErrorKind>(id),
    ensures
        manifest_of(ch) == Ok::<Option<PageView>, ErrorKind>(
            Some(PageView { id, title: ch.name, section: section(ch), items }),
        ),
{
}

/// An id is accepted exactly when it is not empty and each of its
/// characters is an ASCII capital, an ASCII small letter, an ASCII digit,
/// `-`, `_` or `.`; any other character gets it refused by name.
pub proof fn law_id_characters(id: Seq<char>)
    ensures
        id.len() > 0 && (forall|i: int|
            0 <= i < id.len() ==> {
                let c = #[trigger] id[i];
                ||| ('A' <= c && c <= 'Z')
                ||| ('a' <= c && c <= 'z')
                ||| ('0' <= c && c <= '9')
                ||| c == '-'
                ||| c == '_'
                ||| c == '.'
            }) ==> id_check(id) is Ok,
        id.len() == 0 ==> id_check(id) == Err::<(), ErrorKind>(ErrorKind::MissingItemId),
        (exists|i: int|
            0 <= i < id.len() && {
                let c = #[trigger] id[i];
                &&& !('A' <= c && c <= 'Z')
                &&& !('a' <= c && c <= 'z')
                &&& !('0' <= c && c <= '9')
                &&& c != '-'
                &&& c != '_'
                &&& c != '.'
            }) ==> id_check(id) == Err::<(), ErrorKind>(ErrorKind::InvalidItemId(id)),
{
}

// ---------------------------------------------------------------------
// The chapter checklist
// ---------------------------------------------------------------------
/// A text that holds `p` somewhere contains it.
proof fn lemma_occurs_contains(s: Seq<char>, p: Seq<char>, k: int)
    requires
        occurs_at(s, p, k),
    ensures
        contains(s, p),
{
    lemma_find(s, p, 0);
}

proof fn lemma_occurs_in_prefix(a: Seq<char>, b: Seq<char>, p: Seq<char>, k: int)
    requires
        occurs_at(a, p, k),
    ensures
        occurs_at(a + b, p, k),
{
    assert((a + b).subrange(k, k + p.len()) =~= a.subrange(k, k + p.len()));
}

proof fn lemma_occurs_in_suffix(a: Seq<char>, b: Seq<char>, p: Seq<char>, k: int)
    requires
        occurs_at(b, p, k),
    ensures
        occurs_at(a + b, p, a.len() + k),
{
    assert((a + b).subrange(a.len() + k, a.len() + k + p.len()) =~= b.subrange(k, k + p.len()));
}

proof fn lemma_occurs_in_piece(s: Seq<char>, p: Seq<char>, k: int, from: int, to: int)
    requires
        occurs_at(s, p, k),
        0 <= from <= k,
        k + p.len() <= to <= s.len(),
    ensures
        occurs_at(s.subrange(from, to), p, k - from),
{
    assert(s.subrange(from, to).subrange(k - from, k - from + p.len()) =~= s.subrange(
        k,
        k + p.len(),
    ));
}

proof fn lemma_in_order_chain(es: Seq<InlineView>, cursor: int, len: int, i: int, j: int)
    requires
        in_order(es, cursor, len),
        0 <= i < j < es.len(),
    ensures
        es[i].end <= es[j].start,
    decreases j - i,
{
    if i + 1 < j {
        lemma_in_order_chain(es, cursor, len, i + 1, j);
        assert(es[i].end <= es[i + 1].start);
    }
}

/// Text that no directive covers is kept when the directives are rendered.
proof fn lemma_spliced_keeps(
    content: Seq<char>,
    book_id: Seq<char>,
    page_id: Seq<char>,
    es: Seq<InlineView>,
    from: int,
    p: Seq<char>,
    k: int,
)
    requires
        in_order(es, from, content.len() as int),
        0 <= from <= k,
        occurs_at(content, p, k),
        forall|j: int| 0 <= j < es.len() ==> k + p.len() <= (#[trigger] es[j]).start || es[j].end <= k,
    ensures
        exists|m: int| occurs_at(spliced(content, book_id, page_id, es, from), p, m),
    decreases es.len(),
{
    if es.len() == 0 {
        lemma_occurs_in_piece(content, p, k, from, content.len() as int);
        assert(occurs_at(spliced(content, book_id, page_id, es, from), p, k - from));
    } else {
        let e = es[0];
        let first = content.subrange(from, e.start);
        let r = inline_tracker(book_id, page_id, e.item);
        let rest = spliced(content, book_id, page_id, es.drop_first(), e.end);
        assert(spliced(content, book_id, page_id, es, from) == first + r + rest);
        if k + p.len() <= e.start {
            lemma_occurs_in_piece(content, p, k, from, e.start);
            lemma_occurs_in_prefix(first, r + rest, p, k - from);
            assert(first + r + rest =~= first + (r + rest));
            assert(occurs_at(spliced(content, book_id, page_id, es, from), p, k - from));
        } else {
            let tail = es.drop_first();
            assert forall|j: int| 0 <= j < tail.len() implies e.end <= (#[trigger] tail[j]).start
                < tail[j].end <= content.len() by {
                assert(tail[j] == es[j + 1]);
                lemma_in_order_chain(es, from, content.len() as int, 0, j + 1);
            }
            assert forall|j: int| 0 <= j < tail.len() - 1 implies (#[trigger] tail[j]).end
                <= tail[j + 1].start by {
                assert(tail[j] == es[j + 1]);
                assert(tail[j + 1] == es[j + 2]);
            }
            assert forall|j: int| 0 <= j < tail.len() implies k + p.len() <= (
            #[trigger] tail[j]).start || tail[j].end <= k by {
                assert(tail[j] == es[j + 1]);
            }
            lemma_spliced_keeps(content, book_id, page_id, tail, e.end, p, k);
            let m = choose|m: int| occurs_at(rest, p, m);
            lemma_occurs_in_suffix(first + r, rest, p, m);
            assert(occurs_at(
                spliced(content, book_id, page_id, es, from),
                p,
                (first + r).len() + m,
            ));
        }
    }
}

/// Replacing a pattern that a text holds puts the replacement in.
proof fn lemma_replace_puts(s: Seq<char>, p: Seq<char>, r: Seq<char>)
    requires
        p.len() > 0,
        contains(s, p),
    ensures
        exists|m: int| occurs_at(replace_all(s, p, r), r, m),
{
    let i = find(s, p, 0)->Some_0;
    lemma_find(s, p, 0);
    let rest = replace_from(s, p, r, i + p.len());
    let a = s.subrange(0, i);
    assert(replace_all(s, p, r) == a + r + rest);
    assert(occurs_at(r, r, 0)) by {
        assert(r.subrange(0, r.len() as int) =~= r);
    }
    lemma_occurs_in_suffix(a, r, r, 0);
    lemma_occurs_in_prefix(a + r, rest, r, a.len() as int);
}

/// Replacing a pattern keeps a piece of text that no occurrence of the
/// pattern overlaps.
proof fn lemma_replace_keeps(s: Seq<char>, p: Seq<char>, r: Seq<char>, t: Seq<char>, k: int, from: int)
    requires
        p.len() > 0,
        0 <= from <= k,
        occurs_at(s, t, k),
        forall|j: int| #[trigger] occurs_at(s, p, j) ==> j + p.len() <= k || k + t.len() <= j,
    ensures
        exists|m: int| occurs_at(replace_from(s, p, r, from), t, m),
    decreases s.len() - from,
{
    lemma_find(s, p, from);
    match find(s, p, from) {
        None => {
            lemma_occurs_in_piece(s, t, k, from, s.len() as int);
            assert(occurs_at(replace_from(s, p, r, from), t, k - from));
        },
        Some(i) => {
            let a = s.subrange(from, i);
            let rest = replace_from(s, p, r, i + p.len());
            assert(replace_from(s, p, r, from) == a + r + rest);
            assert(occurs_at(s, p, i));
            if k + t.len() <= i {
                lemma_occurs_in_piece(s, t, k, from, i);
                lemma_occurs_in_prefix(a, r + rest, t, k - from);
                assert(a + r + rest =~= a + (r + rest));
                assert(occurs_at(replace_from(s, p, r, from), t, k - from));
            } else {
                lemma_replace_keeps(s, p, r, t, k, i + p.len());
                let m = choose|m: int| occurs_at(rest, t, m);
                lemma_occurs_in_suffix(a + r, rest, t, m);
                assert(occurs_at(replace_from(s, p, r, from), t, (a + r).len() + m));
            }
        },
    }
}

proof fn lemma_tracker_ends(book_id: Seq<char>, page_id: Seq<char>, items: Seq<ItemView>)
    ensures
        tracker(book_id, page_id, items).len() > 0,
        tracker(book_id, page_id, items)[0] == '<',
        tracker(book_id, page_id, items).last() == '>',
{
    reveal_strlit(r#"<section class="mdbook-track mdbook-track--checklist" data-book-id=""#);
    reveal_strlit("\n</ul>\n</section>");
    let t = tracker(book_id, page_id, items);
    let start = crate::render::TRACKER_START@;
    let end = crate::render::TRACKER_END@;
    let mid = t.subrange(start.len() as int, t.len() - end.len());
    assert(t =~= start + mid + end);
    assert(t[0] == start[0]);
    assert(t.last() == end.last());
}

/// No occurrence of the overview marker overlaps a checklist that does not
/// itself hold the marker.
proof fn lemma_overview_misses(s: Seq<char>, t: Seq<char>, m: int)
    requires
        occurs_at(s, t, m),
        t.len() > 0,
        t[0] == '<',
        t.last() == '>',
        !contains(t, OVERVIEW@),
    ensures
        forall|j: int| #[trigger] occurs_at(s, OVERVIEW@, j) ==> j + OVERVIEW@.len() <= m || m
            + t.len() <= j,
{
    lemma_marker_lengths();
    reveal_strlit("{{#track-overview}}");
    let ov = OVERVIEW@;
    assert forall|i: int| 0 <= i < ov.len() implies ov[i] != '<' && ov[i] != '>' by {}
    lemma_find(t, ov, 0);
    assert forall|j: int| #[trigger] occurs_at(s, ov, j) implies j + ov.len() <= m || m + t.len()
        <= j by {
        if !(j + ov.len() <= m || m + t.len() <= j) {
            let w = s.subrange(j, j + ov.len());
            let u = s.subrange(m, m + t.len());
            assert(u == t);
            if j <= m {
                assert(w[m - j] == s[m]);
                assert(u[0] == s[m]);
            } else if j + ov.len() <= m + t.len() {
                assert(t.subrange(j - m, j - m + ov.len()) =~= w);
                assert(occurs_at(t, ov, j - m));
            } else {
                let l = m + t.len() - 1;
                assert(w[l - j] == s[l]);
                assert(u[t.len() - 1] == s[l]);
            }
        }
    }
}

/// A `{{#track-checklist}}` is rendered as the checklist of every item
/// that the chapter's `{{#track-item}}` directives declare, in order: the
/// rendered chapter holds that whole checklist, its count the number of
/// those items. This holds for a chapter with a page id and without a
/// `{{#track}}` block, whose marker stands outside the directives, and
/// whose checklist does not itself hold the overview marker.
pub proof fn law_checklist_lists_every_inline_item(
    ch: ChapterView,
    book_id: Seq<char>,
    manifest_json: Seq<char>,
    pid: Seq<char>,
    es: Seq<InlineView>,
    k: int,
)
    requires
        page_id(ch) == Ok::<Seq<char>, ErrorKind>(pid),
        !contains(ch.content, TRACK_OPEN@),
        inline_directives(ch.content) == Ok::<Seq<InlineView>, ErrorKind>(es),
        es.len() > 0,
        occurs_at(ch.content, TRACK_CHECKLIST@, k),
        forall|j: int|
            0 <= j < es.len() ==> k + TRACK_CHECKLIST@.len() <= (#[trigger] es[j]).start
                || es[j].end <= k,
        !contains(tracker(book_id, pid, inline_items(es)), OVERVIEW@),
    ensures
        processed(ch, book_id, manifest_json).1 == Ok::<(), ErrorKind>(()),
        exists|m: int|
            occurs_at(
                processed(ch, book_id, manifest_json).0,
                tracker(book_id, pid, inline_items(es)),
                m,
            ),
{
    lemma_marker_lengths();
    let content = ch.content;
    let t = tracker(book_id, pid, inline_items(es));
    // No block: the text is kept until the inline directives.
    assert(track_block(content) == Ok::<Option<Seq<ItemView>>, ErrorKind>(None));
    // The inline directives are rendered.
    assert(inline_from(content, 0, Seq::<Seq<char>>::empty()) == Ok::<Seq<InlineView>, ErrorKind>(
        es,
    ));
    crate::parse::lemma_inline_read_from_directive(content, 0, Seq::<Seq<char>>::empty());
    assert(crate::parse::read_from_directive(content, es[0]));
    let oe = choose|open_end: int|
        {
            &&& occurs_at(content, TRACK_ITEM_OPEN@, es[0].start)
            &&& es[0].start + TRACK_ITEM_OPEN@.len() <= open_end
            &&& occurs_at(content, DIRECTIVE_END@, open_end)
            &&& open_end + DIRECTIVE_END@.len() <= es[0].end - TRACK_ITEM_CLOSE@.len()
            &&& occurs_at(content, TRACK_ITEM_CLOSE@, es[0].end - TRACK_ITEM_CLOSE@.len())
            &&& es[0].item.id == trim(
                content.subrange(es[0].start + TRACK_ITEM_OPEN@.len(), open_end),
            )
            &&& es[0].item.label == normalised(
                content.subrange(
                    open_end + DIRECTIVE_END@.len(),
                    es[0].end - TRACK_ITEM_CLOSE@.len(),
                ),
            )
        };
    assert(occurs_at(content, TRACK_ITEM_OPEN@, es[0].start));
    lemma_occurs_contains(content, TRACK_ITEM_OPEN@, es[0].start);
    let c2 = spliced(content, book_id, pid, es, 0);
    crate::render::lemma_inline_in_order(content, 0, Seq::<Seq<char>>::empty());
    lemma_spliced_keeps(content, book_id, pid, es, 0, TRACK_CHECKLIST@, k);
    let k2 = choose|m: int| occurs_at(c2, TRACK_CHECKLIST@, m);
    lemma_occurs_contains(c2, TRACK_CHECKLIST@, k2);
    assert(inline_items(es).len() == es.len());
    // The checklist goes in.
    let c3 = replace_all(c2, TRACK_CHECKLIST@, t);
    lemma_replace_puts(c2, TRACK_CHECKLIST@, t);
    let m3 = choose|m: int| occurs_at(c3, t, m);
    // The overview, if any, leaves it whole.
    lemma_tracker_ends(book_id, pid, inline_items(es));
    if contains(c3, OVERVIEW@) {
        lemma_overview_misses(c3, t, m3);
        lemma_replace_keeps(
            c3,
            OVERVIEW@,
            crate::render::overview(book_id, manifest_json),
            t,
            m3,
            0,
        );
    }
    assert(processed(ch, book_id, manifest_json).0 == if contains(c3, OVERVIEW@) {
        replace_all(c3, OVERVIEW@, crate::render::overview(book_id, manifest_json))
    } else {
        c3
    });
}

} // verus!
