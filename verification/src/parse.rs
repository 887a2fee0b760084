//! Reading the tracked items of a chapter: the lines of its `{{#track}}`
//! block and its `{{#track-item}}` directives.
use vstd::prelude::*;
use vstd::utf8::encode_utf8;
use crate::error::{ErrorKind, TrackError};
use crate::ids::{dedupe_id, generated_id, id_check, item_id, unique_id, validate_track_item_id};
use crate::search::{find, find_from, lemma_find, occurs_at};
use crate::text::{
    Separator, normalise_label, normalised, non_empty, split, split_chars, string_of, to_chars,
    trim, trim_bounds,
};

verus! {

broadcast use vstd::string::group_string_axioms;

/// Opens a self-contained checklist block.
pub const TRACK_OPEN: &'static str = "{{#track}}";

/// Closes a self-contained checklist block.
pub const TRACK_CLOSE: &'static str = "{{/track}}";

/// Opens an individually placed item; its id and `}}` follow.
pub const TRACK_ITEM_OPEN: &'static str = "{{#track-item";

/// Closes an individually placed item.
pub const TRACK_ITEM_CLOSE: &'static str = "{{/track-item}}";

/// Ends the opening of an individually placed item.
pub const DIRECTIVE_END: &'static str = "}}";

/// Stands where the checklist of a chapter's individually placed items goes.
pub const TRACK_CHECKLIST: &'static str = "{{#track-checklist}}";

/// Stands where the overview of the whole workbook goes.
pub const OVERVIEW: &'static str = "{{#track-overview}}";

/// The lengths of the directive markers.
pub proof fn lemma_marker_lengths()
    ensures
        TRACK_OPEN@.len() == 10,
        TRACK_CLOSE@.len() == 10,
        TRACK_ITEM_OPEN@.len() == 13,
        TRACK_ITEM_CLOSE@.len() == 15,
        DIRECTIVE_END@.len() == 2,
        TRACK_CHECKLIST@.len() == 20,
        OVERVIEW@.len() == 19,
{
    reveal_strlit("{{#track}}");
    reveal_strlit("{{/track}}");
    reveal_strlit("{{#track-item");
    reveal_strlit("{{/track-item}}");
    reveal_strlit("}}");
    reveal_strlit("{{#track-checklist}}");
    reveal_strlit("{{#track-overview}}");
}

/// One tracked item: its stable id and the label shown beside its checkbox.
#[derive(Debug)]
pub struct TrackItem {
    pub id: String,
    pub label: String,
}

/// The value of a [`TrackItem`].
pub struct ItemView {
    pub id: Seq<char>,
    pub label: Seq<char>,
}

impl View for TrackItem {
    type V = ItemView;

    open spec fn view(&self) -> ItemView {
        ItemView { id: self.id@, label: self.label@ }
    }
}

impl Clone for TrackItem {
    fn clone(&self) -> (r: Self)
        ensures
            r@ == self@,
    {
        TrackItem { id: self.id.clone(), label: self.label.clone() }
    }
}

/// The values of a list of items.
pub open spec fn items_view(v: Seq<TrackItem>) -> Seq<ItemView> {
    v.map_values(|t: TrackItem| t@)
}

/// The ids of a list of item values.
pub open spec fn ids_of(v: Seq<ItemView>) -> Seq<Seq<char>> {
    v.map_values(|t: ItemView| t.id)
}

/// An individually placed item and where its directive stands in the
/// chapter: `start` and `end` are byte offsets into the chapter's text, from
/// the `{{` that opens the directive to just after the `}}` that closes it.
#[derive(Debug)]
pub struct InlineTrackItem {
    pub start: usize,
    pub end: usize,
    pub item: TrackItem,
}

/// The value of an [`InlineTrackItem`].
pub struct InlineView {
    pub start: int,
    pub end: int,
    pub item: ItemView,
}

impl View for InlineTrackItem {
    type V = InlineView;

    open spec fn view(&self) -> InlineView {
        InlineView { start: self.start as int, end: self.end as int, item: self.item@ }
    }
}

/// The values of a list of inline items.
pub open spec fn inline_view(v: Seq<InlineTrackItem>) -> Seq<InlineView> {
    v.map_values(|t: InlineTrackItem| t@)
}

/// The items of a list of inline item values.
pub open spec fn inline_items(v: Seq<InlineView>) -> Seq<ItemView> {
    v.map_values(|t: InlineView| t.item)
}

// ---------------------------------------------------------------------
// The `{{#track}}` block
// ---------------------------------------------------------------------
/// `t` without a leading `- ` or, failing that, a leading `* `.
pub open spec fn strip_bullet(t: Seq<char>) -> Seq<char> {
    if t.len() >= 2 && t[0] == '-' && t[1] == ' ' {
        t.skip(2)
    } else if t.len() >= 2 && t[0] == '*' && t[1] == ' ' {
        t.skip(2)
    } else {
        t
    }
}

/// The label a line of a checklist block gives: the line trimmed, its bullet
/// removed, trimmed again. An empty label means the line holds no item.
pub open spec fn line_label(line: Seq<char>) -> Seq<char> {
    trim(strip_bullet(trim(line)))
}

/// The label of each line of a checklist block's body.
pub open spec fn line_labels(body: Seq<char>) -> Seq<Seq<char>> {
    split(body, Separator::Newline).map_values(|l: Seq<char>| line_label(l))
}

/// The labels of the items of a checklist block's body, in order.
pub open spec fn block_labels(body: Seq<char>) -> Seq<Seq<char>> {
    non_empty(line_labels(body))
}

/// The items for `labels`: each id is generated from its label and, when an
/// earlier item took it, given the first free numeric suffix.
pub open spec fn label_items(labels: Seq<Seq<char>>) -> Seq<ItemView>
    decreases labels.len(),
{
    if labels.len() == 0 {
        Seq::<ItemView>::empty()
    } else {
        let prev = label_items(labels.drop_last());
        prev.push(
            ItemView {
                id: unique_id(generated_id(labels.last()), ids_of(prev)),
                label: labels.last(),
            },
        )
    }
}

/// The items of a checklist block with body `body`.
pub open spec fn block_items(body: Seq<char>) -> Seq<ItemView> {
    label_items(block_labels(body))
}

/// What reading the `{{#track}}` block of `content` gives: no block, the
/// items of the first block, or why the block is refused.
pub open spec fn track_block(content: Seq<char>) -> Result<Option<Seq<ItemView>>, ErrorKind> {
    match find(content, TRACK_OPEN@, 0) {
        None => Ok(None),
        Some(start) => {
            let body_start = start + TRACK_OPEN@.len();
            match find(content, TRACK_CLOSE@, body_start) {
                None => Err(ErrorKind::UnclosedTracker),
                Some(end) => {
                    let items = block_items(content.subrange(body_start, end));
                    if items.len() == 0 {
                        Err(ErrorKind::EmptyTracker)
                    } else {
                        Ok(Some(items))
                    }
                },
            }
        },
    }
}

pub proof fn lemma_label_items(labels: Seq<Seq<char>>)
    ensures
        label_items(labels).len() == labels.len(),
        forall|i: int|
            0 <= i < labels.len() ==> (#[trigger] label_items(labels)[i]).label == labels[i],
        ids_of(label_items(labels)).no_duplicates(),
        forall|i: int|
            0 <= i < labels.len() ==> id_check(#[trigger] label_items(labels)[i].id) is Ok,
    decreases labels.len(),
{
    if labels.len() > 0 {
        let prev = label_items(labels.drop_last());
        lemma_label_items(labels.drop_last());
        crate::ids::lemma_unique_id(generated_id(labels.last()), ids_of(prev));
        crate::ids::lemma_generated_id_valid(labels.last());
        crate::ids::lemma_unique_id_valid(generated_id(labels.last()), ids_of(prev));
        let all = label_items(labels);
        assert(ids_of(all) =~= ids_of(prev).push(all.last().id));
    }
}

proof fn lemma_block_items(items: Seq<TrackItem>, body: Seq<char>)
    requires
        items_view(items) == block_items(body),
    ensures
        ids_of(items_view(items)).no_duplicates(),
        forall|i: int|
            0 <= i < items.len() ==> id_check((#[trigger] items[i]).id@) is Ok
                && items[i].label@.len() > 0,
{
    let labels = block_labels(body);
    let its = label_items(labels);
    lemma_label_items(labels);
    crate::text::lemma_non_empty(line_labels(body));
    assert(items.len() == its.len());
    assert forall|i: int| 0 <= i < items.len() implies id_check((#[trigger] items[i]).id@) is Ok by {
        assert(items_view(items)[i] == items[i]@);
        assert(id_check(its[i].id) is Ok);
    }
    assert forall|i: int| 0 <= i < items.len() implies (#[trigger] items[i]).label@.len() > 0 by {
        assert(items_view(items)[i] == items[i]@);
        assert(its[i].label == labels[i]);
        assert(labels[i].len() > 0);
    }
}

proof fn lemma_split_len(s: Seq<char>, k: Separator)
    ensures
        split(s, k).len() <= s.len() + 1,
    decreases s.len(),
{
    if s.len() > 0 {
        lemma_split_len(s.drop_last(), k);
        crate::text::lemma_split_nonempty(s.drop_last(), k);
    }
}

/// Reads the first `{{#track}}` ... `{{/track}}` block of `content`: each
/// line that holds text after its `- ` or `* ` bullet becomes an item, with
/// an id derived from its label (numbered `-2`, `-3`, ... when two labels
/// give the same id).
pub fn parse_track_items(content: &str) -> (r: Result<Option<Vec<TrackItem>>, TrackError>)
    ensures
        match r {
            Ok(None) => track_block(content@) == Ok::<Option<Seq<ItemView>>, ErrorKind>(None),
            Ok(Some(v)) => track_block(content@) == Ok::<Option<Seq<ItemView>>, ErrorKind>(
                Some(items_view(v@)),
            ),
            Err(e) => track_block(content@) == Err::<Option<Seq<ItemView>>, ErrorKind>(e@),
        },
        r matches Ok(Some(v)) ==> v@.len() > 0 && ids_of(items_view(v@)).no_duplicates(),
        r matches Ok(Some(v)) ==> forall|i: int|
            0 <= i < v@.len() ==> id_check((#[trigger] v@[i]).id@) is Ok && v@[i].label@.len() > 0,
{
    proof {
        lemma_marker_lengths();
    }
    let v = to_chars(content);
    let open = to_chars(TRACK_OPEN);
    let close = to_chars(TRACK_CLOSE);
    let n = v.len();
    let start = match find_from(&v, &open, 0) {
        None => return Ok(None),
        Some(s) => s,
    };
    proof {
        lemma_find(v@, open@, 0);
        assert(start + open@.len() <= v@.len());
    }
    let body_start = start + open.len();
    let end = match find_from(&v, &close, body_start) {
        None => return Err(TrackError::UnclosedTracker),
        Some(e) => e,
    };
    proof {
        lemma_find(v@, close@, body_start as int);
    }
    let lines = split_chars(&v, body_start, end, Separator::Newline);
    let ghost body = v@.subrange(body_start as int, end as int);
    let ghost x = lines.deep_view().map_values(|l: Seq<char>| line_label(l));
    proof {
        lemma_split_len(body, Separator::Newline);
    }
    let mut items: Vec<TrackItem> = Vec::new();
    let mut seen: Vec<String> = Vec::new();
    let mut i: usize = 0;
    assert(x.take(0) =~= Seq::<Seq<char>>::empty());
    while i < lines.len()
        invariant
            lines.deep_view() == split(body, Separator::Newline),
            x == lines.deep_view().map_values(|l: Seq<char>| line_label(l)),
            lines.len() + 3 <= usize::MAX,
            i <= lines.len(),
            items.len() <= i,
            seen.len() == items.len(),
            items_view(items@) == label_items(non_empty(x.take(i as int))),
            seen.deep_view() == ids_of(items_view(items@)),
        decreases lines.len() - i,
    {
        proof {
            reveal_with_fuel(Seq::filter, 1);
            assert(x.take(i + 1).drop_last() =~= x.take(i as int));
        }
        let lv = to_chars(lines[i].as_str());
        let (a, b) = trim_bounds(&lv, 0, lv.len());
        let mut a2 = a;
        if b - a >= 2 && (lv[a] == '-' || lv[a] == '*') && lv[a + 1] == ' ' {
            a2 = a + 2;
        }
        let (c, d) = trim_bounds(&lv, a2, b);
        proof {
            assert(lv@.subrange(0, lv@.len() as int) =~= lv@);
            assert(strip_bullet(lv@.subrange(a as int, b as int)) =~= lv@.subrange(
                a2 as int,
                b as int,
            ));
            assert(x[i as int] == lv@.subrange(c as int, d as int));
        }
        if c < d {
            let label = string_of(&lv, c, d);
            let base = item_id(label.as_str());
            let id = dedupe_id(&base, &seen);
            let ghost before = items_view(items@);
            let ghost seen_before = seen.deep_view();
            items.push(TrackItem { id: id.clone(), label });
            seen.push(id);
            assert(seen.deep_view() =~= seen_before.push(id@));
            proof {
                let labs = non_empty(x.take(i + 1));
                assert(labs.drop_last() =~= non_empty(x.take(i as int)));
                assert(items_view(items@) =~= label_items(labs));
                assert(seen.deep_view() =~= ids_of(items_view(items@)));
            }
        }
        i = i + 1;
    }
    proof {
        assert(x.take(lines.len() as int) =~= x);
        assert(x =~= line_labels(body));
        lemma_block_items(items@, body);
    }
    if items.len() == 0 {
        return Err(TrackError::EmptyTracker);
    }
    Ok(Some(items))
}

// ---------------------------------------------------------------------
// `{{#track-item id}} label {{/track-item}}` directives
// ---------------------------------------------------------------------
/// The inline items of `content` from position `cursor` on, when the ids in
/// `seen` are already taken; or why a directive is refused.
pub open spec fn inline_from(content: Seq<char>, cursor: int, seen: Seq<Seq<char>>) -> Result<
    Seq<InlineView>,
    ErrorKind,
>
    decreases content.len() - cursor,
{
    if cursor < 0 || cursor > content.len() {
        Ok(Seq::<InlineView>::empty())
    } else {
        match find(content, TRACK_ITEM_OPEN@, cursor) {
            None => Ok(Seq::<InlineView>::empty()),
            Some(start) => {
                let id_start = start + TRACK_ITEM_OPEN@.len();
                match find(content, DIRECTIVE_END@, id_start) {
                    None => Err(ErrorKind::UnterminatedItem),
                    Some(open_end) => {
                        let id = trim(content.subrange(id_start, open_end));
                        match id_check(id) {
                            Err(e) => Err(e),
                            Ok(_) => {
                                if seen.contains(id) {
                                    Err(ErrorKind::DuplicateInlineId(id))
                                } else {
                                    let body_start = open_end + DIRECTIVE_END@.len();
                                    match find(content, TRACK_ITEM_CLOSE@, body_start) {
                                        None => Err(ErrorKind::UnclosedItem(id)),
                                        Some(close_start) => {
                                            let end = close_start + TRACK_ITEM_CLOSE@.len();
                                            let label = normalised(
                                                content.subrange(body_start, close_start),
                                            );
                                            if label.len() == 0 {
                                                Err(ErrorKind::EmptyItemLabel(id))
                                            } else {
                                                proof {
                                                    lemma_marker_lengths();
                                                    lemma_find(content, TRACK_ITEM_OPEN@, cursor);
                                                    lemma_find(content, DIRECTIVE_END@, id_start);
                                                    lemma_find(
                                                        content,
                                                        TRACK_ITEM_CLOSE@,
                                                        body_start,
                                                    );
                                                }
                                                match inline_from(content, end, seen.push(id)) {
                                                    Err(e) => Err(e),
                                                    Ok(rest) => Ok(
                                                        seq![
                                                            InlineView {
                                                                start,
                                                                end,
                                                                item: ItemView { id, label },
                                                            },
                                                        ] + rest,
                                                    ),
                                                }
                                            }
                                        },
                                    }
                                }
                            },
                        }
                    },
                }
            },
        }
    }
}

/// The items read from `content` have valid, distinct ids, none of them in
/// `seen`, and non-empty labels.
pub proof fn lemma_inline_items(content: Seq<char>, cursor: int, seen: Seq<Seq<char>>)
    ensures
        inline_from(content, cursor, seen) matches Ok(es) ==> {
            &&& ids_of(inline_items(es)).no_duplicates()
            &&& forall|i: int|
                0 <= i < es.len() ==> {
                    &&& id_check((#[trigger] es[i]).item.id) is Ok
                    &&& !seen.contains(es[i].item.id)
                    &&& es[i].item.label.len() > 0
                }
        },
    decreases content.len() - cursor,
{
    lemma_marker_lengths();
    if 0 <= cursor <= content.len() {
        if let Some(start) = find(content, TRACK_ITEM_OPEN@, cursor) {
            lemma_find(content, TRACK_ITEM_OPEN@, cursor);
            let id_start = start + TRACK_ITEM_OPEN@.len();
            if let Some(open_end) = find(content, DIRECTIVE_END@, id_start) {
                lemma_find(content, DIRECTIVE_END@, id_start);
                let id = trim(content.subrange(id_start, open_end));
                let body_start = open_end + DIRECTIVE_END@.len();
                if let Some(close_start) = find(content, TRACK_ITEM_CLOSE@, body_start) {
                    lemma_find(content, TRACK_ITEM_CLOSE@, body_start);
                    let end = close_start + TRACK_ITEM_CLOSE@.len();
                    lemma_inline_items(content, end, seen.push(id));
                    if let Ok(es) = inline_from(content, cursor, seen) {
                        if es.len() > 0 {
                            let rest = es.drop_first();
                            match inline_from(content, end, seen.push(id)) {
                                Ok(r) => {
                                    assert(rest =~= r);
                                },
                                Err(_) => {
                                    assert(false);
                                },
                            }
                            assert(es[0].item.id == id);
                            assert forall|i: int| 0 <= i < es.len() implies {
                                &&& id_check((#[trigger] es[i]).item.id) is Ok
                                &&& !seen.contains(es[i].item.id)
                                &&& es[i].item.label.len() > 0
                            } by {
                                if i > 0 {
                                    assert(es[i] == rest[i - 1]);
                                    if seen.contains(es[i].item.id) {
                                        let k = choose|k: int|
                                            0 <= k < seen.len() && seen[k] == es[i].item.id;
                                        assert(seen.push(id)[k] == seen[k]);
                                    }
                                }
                            }
                            let ids = ids_of(inline_items(es));
                            assert forall|i: int, j: int|
                                0 <= i < ids.len() && 0 <= j < ids.len() && i != j implies ids[i]
                                != ids[j] by {
                                if i > 0 && j > 0 {
                                    assert(ids[i] == ids_of(inline_items(rest))[i - 1]);
                                    assert(ids[j] == ids_of(inline_items(rest))[j - 1]);
                                } else if i == 0 {
                                    assert(ids[j] == rest[j - 1].item.id);
                                    assert(!seen.push(id).contains(rest[j - 1].item.id));
                                    assert(seen.push(id)[seen.len() as int] == id);
                                } else {
                                    assert(ids[i] == rest[i - 1].item.id);
                                    assert(!seen.push(id).contains(rest[i - 1].item.id));
                                    assert(seen.push(id)[seen.len() as int] == id);
                                }
                            }
                        }
                    }
                }
            }
        }
    }
}

/// The item `e` is read from its own directive in `content`: its id from
/// the text between `{{#track-item` and the first `}}` after it, its label
/// from the text between that `}}` and the `{{/track-item}}` that ends `e`.
pub open spec fn read_from_directive(content: Seq<char>, e: InlineView) -> bool {
    exists|open_end: int|
        {
            &&& occurs_at(content, TRACK_ITEM_OPEN@, e.start)
            &&& e.start + TRACK_ITEM_OPEN@.len() <= open_end
            &&& occurs_at(content, DIRECTIVE_END@, open_end)
            &&& open_end + DIRECTIVE_END@.len() <= e.end - TRACK_ITEM_CLOSE@.len()
            &&& occurs_at(content, TRACK_ITEM_CLOSE@, e.end - TRACK_ITEM_CLOSE@.len())
            &&& e.item.id == trim(content.subrange(e.start + TRACK_ITEM_OPEN@.len(), open_end))
            &&& e.item.label == normalised(
                content.subrange(open_end + DIRECTIVE_END@.len(), e.end - TRACK_ITEM_CLOSE@.len()),
            )
        }
}

/// Every inline item is read from its own directive: its id is what the
/// directive names, whatever its label says.
pub proof fn lemma_inline_read_from_directive(
    content: Seq<char>,
    cursor: int,
    seen: Seq<Seq<char>>,
)
    ensures
        inline_from(content, cursor, seen) matches Ok(es) ==> forall|i: int|
            0 <= i < es.len() ==> read_from_directive(content, #[trigger] es[i]),
    decreases content.len() - cursor,
{
    lemma_marker_lengths();
    if 0 <= cursor <= content.len() {
        if let Some(start) = find(content, TRACK_ITEM_OPEN@, cursor) {
            lemma_find(content, TRACK_ITEM_OPEN@, cursor);
            let id_start = start + TRACK_ITEM_OPEN@.len();
            if let Some(open_end) = find(content, DIRECTIVE_END@, id_start) {
                lemma_find(content, DIRECTIVE_END@, id_start);
                let id = trim(content.subrange(id_start, open_end));
                let body_start = open_end + DIRECTIVE_END@.len();
                if let Some(close_start) = find(content, TRACK_ITEM_CLOSE@, body_start) {
                    lemma_find(content, TRACK_ITEM_CLOSE@, body_start);
                    let end = close_start + TRACK_ITEM_CLOSE@.len();
                    lemma_inline_read_from_directive(content, end, seen.push(id));
                    if let Ok(es) = inline_from(content, cursor, seen) {
                        if es.len() > 0 {
                            let rest = es.drop_first();
                            match inline_from(content, end, seen.push(id)) {
                                Ok(r) => {
                                    assert(rest =~= r);
                                },
                                Err(_) => {
                                    assert(false);
                                },
                            }
                            assert(read_from_directive(content, es[0]));
                            assert forall|i: int| 0 <= i < es.len() implies read_from_directive(
                                content,
                                #[trigger] es[i],
                            ) by {
                                if i > 0 {
                                    assert(es[i] == rest[i - 1]);
                                }
                            }
                        }
                    }
                }
            }
        }
    }
}

/// What reading the inline items of `content` gives.
pub open spec fn inline_directives(content: Seq<char>) -> Result<Seq<InlineView>, ErrorKind> {
    inline_from(content, 0, Seq::<Seq<char>>::empty())
}

/// `items` followed by the items of `r`, or the error of `r`.
pub open spec fn after<T>(items: Seq<T>, r: Result<Seq<T>, ErrorKind>) -> Result<
    Seq<T>,
    ErrorKind,
> {
    match r {
        Ok(rest) => Ok(items + rest),
        Err(e) => Err(e),
    }
}

/// Reads the inline directives of `content` as [`parse_inline_track_items`]
/// does, with `start` and `end` counted in characters rather than bytes.
pub(crate) fn scan_inline_directives(content: &str) -> (r: Result<Vec<InlineTrackItem>, TrackError>)
    ensures
        match r {
            Ok(v) => inline_directives(content@) == Ok::<Seq<InlineView>, ErrorKind>(
                inline_view(v@),
            ),
            Err(e) => inline_directives(content@) == Err::<Seq<InlineView>, ErrorKind>(e@),
        },
        r matches Ok(v) ==> ids_of(inline_items(inline_view(v@))).no_duplicates(),
        r matches Ok(v) ==> forall|i: int|
            0 <= i < v@.len() ==> id_check((#[trigger] v@[i]).item.id@) is Ok
                && v@[i].item.label@.len() > 0,
        r matches Ok(v) ==> forall|i: int|
            0 <= i < v@.len() ==> read_from_directive(content@, (#[trigger] v@[i])@),
{
    proof {
        lemma_marker_lengths();
    }
    let v = to_chars(content);
    let open = to_chars(TRACK_ITEM_OPEN);
    let close = to_chars(TRACK_ITEM_CLOSE);
    let brace = to_chars(DIRECTIVE_END);
    let n = v.len();
    let mut items: Vec<InlineTrackItem> = Vec::new();
    let mut seen: Vec<String> = Vec::new();
    let mut cursor: usize = 0;
    proof {
        assert(seen.deep_view() =~= Seq::<Seq<char>>::empty());
        assert(inline_view(items@) =~= Seq::<InlineView>::empty());
        if let Ok(r) = inline_directives(v@) {
            assert(Seq::<InlineView>::empty() + r =~= r);
        }
    }
    loop
        invariant
            v@ == content@,
            open@ == TRACK_ITEM_OPEN@,
            close@ == TRACK_ITEM_CLOSE@,
            brace@ == DIRECTIVE_END@,
            n == v.len(),
            cursor <= v.len(),
            seen.deep_view() == ids_of(inline_items(inline_view(items@))),
            inline_directives(v@) == after(
                inline_view(items@),
                inline_from(v@, cursor as int, seen.deep_view()),
            ),
        decreases v.len() - cursor,
    {
        let ghost sv = seen.deep_view();
        let start = match find_from(&v, &open, cursor) {
            None => {
                assert(inline_view(items@) + Seq::<InlineView>::empty() =~= inline_view(items@));
                proof {
                    lemma_inline_items(v@, 0, Seq::<Seq<char>>::empty());
                    lemma_inline_read_from_directive(v@, 0, Seq::<Seq<char>>::empty());
                }
                assert forall|i: int| 0 <= i < items@.len() implies id_check(
                    (#[trigger] items@[i]).item.id@,
                ) is Ok && items@[i].item.label@.len() > 0 && read_from_directive(
                    content@,
                    items@[i]@,
                ) by {
                    assert(inline_view(items@)[i] == items@[i]@);
                }
                return Ok(items);
            },
            Some(s) => s,
        };
        proof {
            lemma_find(v@, open@, cursor as int);
        }
        let id_start = start + open.len();
        let open_end = match find_from(&v, &brace, id_start) {
            None => return Err(TrackError::UnterminatedItem),
            Some(e) => e,
        };
        proof {
            lemma_find(v@, brace@, id_start as int);
        }
        let (a, b) = trim_bounds(&v, id_start, open_end);
        let id = string_of(&v, a, b);
        match validate_track_item_id(id.as_str()) {
            Err(e) => return Err(e),
            Ok(_) => {},
        }
        if crate::ids::contains_string(&seen, &id) {
            return Err(TrackError::DuplicateInlineId(id));
        }
        let body_start = open_end + brace.len();
        let close_start = match find_from(&v, &close, body_start) {
            None => return Err(TrackError::UnclosedItem(id)),
            Some(c) => c,
        };
        proof {
            lemma_find(v@, close@, body_start as int);
        }
        let end = close_start + close.len();
        let body = string_of(&v, body_start, close_start);
        let label = normalise_label(body.as_str());
        if label.as_str().is_empty() {
            return Err(TrackError::EmptyItemLabel(id));
        }
        let ghost x = InlineView {
            start: start as int,
            end: end as int,
            item: ItemView { id: id@, label: label@ },
        };
        let ghost before = inline_view(items@);
        let ghost rest = inline_from(v@, end as int, sv.push(id@));
        assert(inline_from(v@, cursor as int, sv) == after(seq![x], rest));
        seen.push(id.clone());
        items.push(InlineTrackItem { start, end, item: TrackItem { id, label } });
        proof {
            assert(inline_view(items@) =~= before.push(x));
            assert(seen.deep_view() =~= sv.push(x.item.id));
            assert(ids_of(inline_items(inline_view(items@))) =~= ids_of(
                inline_items(before),
            ).push(x.item.id));
            match rest {
                Ok(r) => {
                    assert(before + (seq![x] + r) =~= before.push(x) + r);
                },
                Err(_) => {},
            }
        }
        cursor = end;
    }
}

/// The number of UTF-8 bytes in the first `k` characters of `content`.
pub open spec fn byte_offset(content: Seq<char>, k: int) -> int {
    encode_utf8(content.take(k)).len() as int
}

/// The UTF-8 bytes of two texts one after the other are the bytes of each.
pub proof fn lemma_encode_utf8_concat(a: Seq<char>, b: Seq<char>)
    ensures
        encode_utf8(a + b) == encode_utf8(a) + encode_utf8(b),
    decreases a.len(),
{
    if a.len() > 0 {
        lemma_encode_utf8_concat(a.drop_first(), b);
        assert((a + b).drop_first() =~= a.drop_first() + b);
        assert((a + b)[0] == a[0]);
        assert(encode_utf8(a + b) =~= vstd::utf8::encode_scalar(a[0] as u32) + encode_utf8(
            a.drop_first() + b,
        ));
    } else {
        assert(a + b =~= b);
    }
}

/// A prefix of a text has no more bytes than the text.
proof fn lemma_byte_offset_bound(content: Seq<char>, k: int)
    requires
        0 <= k <= content.len(),
    ensures
        byte_offset(content, k) <= encode_utf8(content).len(),
{
    lemma_encode_utf8_concat(content.take(k), content.skip(k));
    assert(content.take(k) + content.skip(k) =~= content);
}

/// Directives found in `content`, their positions counted in bytes.
pub open spec fn in_bytes(content: Seq<char>, es: Seq<InlineView>) -> Seq<InlineView> {
    es.map_values(
        |e: InlineView|
            InlineView {
                start: byte_offset(content, e.start),
                end: byte_offset(content, e.end),
                item: e.item,
            },
    )
}

/// Reads every `{{#track-item id}} label {{/track-item}}` directive of
/// `content`, in order. The id is trimmed and must be valid and not taken by
/// an earlier directive; the label has its whitespace collapsed and must not
/// be empty. Each item carries the byte offsets of its directive.
pub fn parse_inline_track_items(content: &str) -> (r: Result<Vec<InlineTrackItem>, TrackError>)
    ensures
        match r {
            Ok(v) => inline_directives(content@) matches Ok(es) && inline_view(v@) == in_bytes(
                content@,
                es,
            ),
            Err(e) => inline_directives(content@) == Err::<Seq<InlineView>, ErrorKind>(e@),
        },
        r matches Ok(v) ==> inline_directives(content@) matches Ok(es) && inline_items(
            inline_view(v@),
        ) == inline_items(es),
        r matches Ok(v) ==> ids_of(inline_items(inline_view(v@))).no_duplicates(),
        r matches Ok(v) ==> forall|i: int|
            0 <= i < v@.len() ==> id_check((#[trigger] v@[i]).item.id@) is Ok
                && v@[i].item.label@.len() > 0,
        r matches Ok(v) ==> inline_directives(content@) matches Ok(es) && forall|i: int|
            0 <= i < es.len() ==> read_from_directive(content@, #[trigger] es[i]),
{
    let entries = match scan_inline_directives(content) {
        Err(e) => return Err(e),
        Ok(v) => v,
    };
    let ghost es = inline_view(entries@);
    proof {
        crate::render::lemma_inline_in_order(content@, 0, Seq::<Seq<char>>::empty());
        assert forall|j: int| 0 <= j < entries@.len() implies (#[trigger] entries@[j]).start
            <= entries@[j].end <= content@.len() by {
            assert(es[j] == entries@[j]@);
        }
    }
    let mut out: Vec<InlineTrackItem> = Vec::new();
    let mut i: usize = 0;
    while i < entries.len()
        invariant
            es == inline_view(entries@),
            forall|j: int|
                0 <= j < entries@.len() ==> (#[trigger] entries@[j]).start <= entries@[j].end
                    <= content@.len(),
            i <= entries.len(),
            inline_view(out@) == in_bytes(content@, es).take(i as int),
        decreases entries.len() - i,
    {
        let e = &entries[i];
        let start = byte_position(content, e.start);
        let end = byte_position(content, e.end);
        let ghost before = inline_view(out@);
        out.push(InlineTrackItem { start, end, item: e.item.clone() });
        proof {
            assert(es[i as int] == e@);
            assert(inline_view(out@) =~= before.push(in_bytes(content@, es)[i as int]));
            assert(in_bytes(content@, es).take(i + 1) =~= in_bytes(content@, es).take(
                i as int,
            ).push(in_bytes(content@, es)[i as int]));
        }
        i = i + 1;
    }
    proof {
        assert(in_bytes(content@, es).take(entries.len() as int) =~= in_bytes(content@, es));
        lemma_in_bytes_items(out@, entries@, content@);
    }
    Ok(out)
}

/// The byte offset of character position `k` in `content`.
fn byte_position(content: &str, k: usize) -> (r: usize)
    requires
        k <= content@.len(),
    ensures
        r == byte_offset(content@, k as int),
{
    let _byte_len = content.as_bytes().len();
    proof {
        lemma_byte_offset_bound(content@, k as int);
        assert(content@.subrange(0, k as int) =~= content@.take(k as int));
    }
    content.substring_char(0, k).len()
}

proof fn lemma_in_bytes_items(
    out: Seq<InlineTrackItem>,
    entries: Seq<InlineTrackItem>,
    content: Seq<char>,
)
    requires
        inline_view(out) == in_bytes(content, inline_view(entries)),
    ensures
        inline_items(inline_view(out)) == inline_items(inline_view(entries)),
        forall|k: int|
            0 <= k < out.len() ==> (#[trigger] out[k]).item@ == entries[k].item@,
{
    let es = inline_view(entries);
    assert(inline_items(inline_view(out)) =~= inline_items(es));
    assert forall|k: int| 0 <= k < out.len() implies (#[trigger] out[k]).item@
        == entries[k].item@ by {
        assert(inline_view(out)[k].item == es[k].item);
    }
}

// ---------------------------------------------------------------------
// All items of a chapter
// ---------------------------------------------------------------------
/// The first position from `k` on whose id an earlier position holds.
pub open spec fn first_repeat(ids: Seq<Seq<char>>, k: int) -> Option<int>
    decreases ids.len() - k,
{
    if k < 0 || k >= ids.len() {
        None
    } else if ids.take(k).contains(ids[k]) {
        Some(k)
    } else {
        first_repeat(ids, k + 1)
    }
}

/// The items of a chapter, those of its checklist block first, then its
/// inline items; or why they are refused, a shared id among them included.
pub open spec fn page_items(content: Seq<char>) -> Result<Seq<ItemView>, ErrorKind> {
    match track_block(content) {
        Err(e) => Err(e),
        Ok(block) => match inline_directives(content) {
            Err(e) => Err(e),
            Ok(inline) => {
                let all = match block {
                    Some(b) => b,
                    None => Seq::<ItemView>::empty(),
                } + inline_items(inline);
                match first_repeat(ids_of(all), 0) {
                    Some(k) => Err(ErrorKind::DuplicateItemId(all[k].id)),
                    None => Ok(all),
                }
            },
        },
    }
}

/// Gathers the items of a chapter: those of its `{{#track}}` block, then its
/// `{{#track-item}}` directives; no two may share an id.
pub fn collect_page_items(content: &str) -> (r: Result<Vec<TrackItem>, TrackError>)
    ensures
        match r {
            Ok(v) => page_items(content@) == Ok::<Seq<ItemView>, ErrorKind>(items_view(v@)),
            Err(e) => page_items(content@) == Err::<Seq<ItemView>, ErrorKind>(e@),
        },
        r matches Ok(v) ==> ids_of(items_view(v@)).no_duplicates(),
        r matches Ok(v) ==> forall|i: int|
            0 <= i < v@.len() ==> id_check((#[trigger] v@[i]).id@) is Ok && v@[i].label@.len() > 0,
{
    let mut all: Vec<TrackItem> = match parse_track_items(content) {
        Err(e) => return Err(e),
        Ok(None) => Vec::new(),
        Ok(Some(v)) => v,
    };
    let inline = match parse_inline_track_items(content) {
        Err(e) => return Err(e),
        Ok(v) => v,
    };
    let ghost block = items_view(all@);
    let ghost inl = inline_items(inline_view(inline@));
    let mut j: usize = 0;
    while j < inline.len()
        invariant
            j <= inline.len(),
            inl == inline_items(inline_view(inline@)),
            items_view(all@) == block + inl.take(j as int),
            forall|i: int|
                0 <= i < inline@.len() ==> id_check((#[trigger] inline@[i]).item.id@) is Ok
                    && inline@[i].item.label@.len() > 0,
            forall|i: int|
                0 <= i < all@.len() ==> id_check((#[trigger] all@[i]).id@) is Ok
                    && all@[i].label@.len() > 0,
        decreases inline.len() - j,
    {
        let ghost before = items_view(all@);
        all.push(inline[j].item.clone());
        assert(items_view(all@) =~= before.push(inl[j as int]));
        assert(inl.take(j + 1) =~= inl.take(j as int).push(inl[j as int]));
        j = j + 1;
    }
    assert(inl.take(inline.len() as int) =~= inl);
    let ghost ids = ids_of(items_view(all@));
    let ghost outcome = match first_repeat(ids, 0) {
        Some(k) => Err(ErrorKind::DuplicateItemId(items_view(all@)[k].id)),
        None => Ok(items_view(all@)),
    };
    assert(page_items(content@) == outcome);
    assert(ids.len() == all.len());
    let mut seen: Vec<String> = Vec::new();
    let mut i: usize = 0;
    while i < all.len()
        invariant
            ids == ids_of(items_view(all@)),
            page_items(content@) == outcome,
            outcome == match first_repeat(ids, 0) {
                Some(k) => Err(ErrorKind::DuplicateItemId(items_view(all@)[k].id)),
                None => Ok(items_view(all@)),
            },
            i <= all.len(),
            seen.deep_view() == ids.take(i as int),
            ids.take(i as int).no_duplicates(),
            first_repeat(ids, 0) == first_repeat(ids, i as int),
            forall|k: int|
                0 <= k < all@.len() ==> id_check((#[trigger] all@[k]).id@) is Ok
                    && all@[k].label@.len() > 0,
        decreases all.len() - i,
    {
        assert(ids[i as int] == all@[i as int].id@);
        if crate::ids::contains_string(&seen, &all[i].id) {
            assert(first_repeat(ids, i as int) == Some(i as int));
            assert(items_view(all@)[i as int].id == ids[i as int]);
            return Err(TrackError::DuplicateItemId(all[i].id.clone()));
        }
        let ghost before = seen.deep_view();
        seen.push(all[i].id.clone());
        assert(seen.deep_view() =~= before.push(ids[i as int]));
        assert(ids.take(i + 1) =~= ids.take(i as int).push(ids[i as int]));
        i = i + 1;
    }
    assert(ids.take(all.len() as int) =~= ids);
    Ok(all)
}

} // verus!
