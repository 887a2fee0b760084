//! Chapters: where they stand in the book, what they track, and how their
//! text is rewritten.
use vstd::prelude::*;
use crate::error::{ErrorKind, TrackError};
use crate::ids::{humanize_section, humanized, slug, slugify};
use crate::parse::{
    ItemView, OVERVIEW, TRACK_CHECKLIST, TRACK_ITEM_OPEN, TrackItem, collect_page_items,
    inline_directives, inline_items, inline_view, items_view, page_items, parse_inline_track_items,
    parse_track_items, track_block,
};
use crate::render::{
    block_replaced, inline_replaced, overview, render_overview, render_tracker,
    replace_inline_track_items, replace_track_block, tracker,
};
use crate::search::{contains, contains_str, replace_all, replace_str};
use crate::text::{join, join_strings, to_chars, trim, trim_str};

verus! {

broadcast use vstd::string::group_string_axioms;

/// A chapter of the book, as far as tracking reads it. A path is given as
/// its components, each as `Path::components` yields it, converted to text.
#[derive(Debug)]
pub struct Chapter {
    /// The chapter's name.
    pub name: String,
    /// The chapter's text.
    pub content: String,
    /// The chapter's source file, relative to `SUMMARY.md`.
    pub source_path: Option<Vec<String>>,
    /// The chapter's location, relative to `SUMMARY.md`.
    pub path: Option<Vec<String>>,
    /// The names of the chapters above this one, outermost first.
    pub parent_names: Vec<String>,
}

/// The value of a [`Chapter`].
pub struct ChapterView {
    pub name: Seq<char>,
    pub content: Seq<char>,
    pub source_path: Option<Seq<Seq<char>>>,
    pub path: Option<Seq<Seq<char>>>,
    pub parent_names: Seq<Seq<char>>,
}

impl View for Chapter {
    type V = ChapterView;

    open spec fn view(&self) -> ChapterView {
        ChapterView {
            name: self.name@,
            content: self.content@,
            source_path: self.source_path.deep_view(),
            path: self.path.deep_view(),
            parent_names: self.parent_names.deep_view(),
        }
    }
}

/// The path that identifies a chapter: its source path, else its path.
pub open spec fn page_path(ch: ChapterView) -> Option<Seq<Seq<char>>> {
    if ch.source_path is Some {
        ch.source_path
    } else {
        ch.path
    }
}

/// A path's components joined by `/`.
pub open spec fn joined_path(components: Seq<Seq<char>>) -> Seq<char> {
    join(components, seq!['/'])
}

/// The id of a chapter's page: its path with `/` between components.
pub open spec fn page_id(ch: ChapterView) -> Result<Seq<char>, ErrorKind> {
    match page_path(ch) {
        None => Err(ErrorKind::NoSourcePath),
        Some(c) => Ok(joined_path(c)),
    }
}

/// Joins the components of a path with `/`.
pub fn normalize_path(components: &Vec<String>) -> (r: String)
    ensures
        r@ == joined_path(components.deep_view()),
{
    let r = join_strings(components, "/");
    proof {
        reveal_strlit("/");
        assert("/"@ =~= seq!['/']);
    }
    r
}

/// The id of the page of `chapter`: the path of its source file, else its
/// path, with `/` between components.
pub fn chapter_page_id(chapter: &Chapter) -> (r: Result<String, TrackError>)
    ensures
        match r {
            Ok(s) => page_id(chapter@) == Ok::<Seq<char>, ErrorKind>(s@),
            Err(e) => page_id(chapter@) == Err::<Seq<char>, ErrorKind>(e@),
        },
{
    match &chapter.source_path {
        Some(c) => Ok(normalize_path(c)),
        None => match &chapter.path {
            Some(c) => Ok(normalize_path(c)),
            None => Err(TrackError::NoSourcePath),
        },
    }
}

/// The section a chapter belongs to in the overview: the name of its
/// outermost parent chapter; else its first directory, humanized; else
/// `Other`.
pub open spec fn section(ch: ChapterView) -> Seq<char> {
    if ch.parent_names.len() > 0 {
        ch.parent_names[0]
    } else {
        match page_path(ch) {
            Some(c) => {
                let first = trim(c[0]);
                if c.len() >= 2 && first.len() > 0 && first != seq!['.'] {
                    humanized(first)
                } else {
                    "Other"@
                }
            },
            None => "Other"@,
        }
    }
}

/// The section of `chapter` in the overview.
pub fn chapter_section(chapter: &Chapter) -> (r: String)
    ensures
        r@ == section(chapter@),
{
    if chapter.parent_names.len() > 0 {
        return chapter.parent_names[0].clone();
    }
    let components = match &chapter.source_path {
        Some(c) => c,
        None => match &chapter.path {
            Some(c) => c,
            None => return String::from_str("Other"),
        },
    };
    if components.len() >= 2 {
        let first = trim_str(components[0].as_str());
        let fv = to_chars(first.as_str());
        let is_dot = fv.len() == 1 && fv[0] == '.';
        proof {
            if fv@ =~= seq!['.'] {
                assert(is_dot);
            }
        }
        if fv.len() > 0 && !is_dot {
            return humanize_section(first.as_str());
        }
    }
    String::from_str("Other")
}

/// What a page contributes to the manifest of the book.
#[derive(Debug)]
pub struct PageManifest {
    pub id: String,
    pub title: String,
    pub section: String,
    pub items: Vec<TrackItem>,
}

/// The value of a [`PageManifest`].
pub struct PageView {
    pub id: Seq<char>,
    pub title: Seq<char>,
    pub section: Seq<char>,
    pub items: Seq<ItemView>,
}

impl View for PageManifest {
    type V = PageView;

    open spec fn view(&self) -> PageView {
        PageView {
            id: self.id@,
            title: self.title@,
            section: self.section@,
            items: items_view(self.items@),
        }
    }
}

/// The manifest entry of a chapter: none when it tracks no item.
pub open spec fn manifest_of(ch: ChapterView) -> Result<Option<PageView>, ErrorKind> {
    match page_items(ch.content) {
        Err(e) => Err(e),
        Ok(items) => if items.len() == 0 {
            Ok(None)
        } else {
            match page_id(ch) {
                Err(e) => Err(e),
                Ok(id) => Ok(Some(PageView { id, title: ch.name, section: section(ch), items })),
            }
        },
    }
}

/// The manifest entry of `chapter`: its page id, title, section and items;
/// none when it tracks no item.
pub fn page_manifest(chapter: &Chapter) -> (r: Result<Option<PageManifest>, TrackError>)
    ensures
        match r {
            Ok(None) => manifest_of(chapter@) == Ok::<Option<PageView>, ErrorKind>(None),
            Ok(Some(p)) => manifest_of(chapter@) == Ok::<Option<PageView>, ErrorKind>(Some(p@)),
            Err(e) => manifest_of(chapter@) == Err::<Option<PageView>, ErrorKind>(e@),
        },
{
    let items = match collect_page_items(chapter.content.as_str()) {
        Err(e) => return Err(e),
        Ok(v) => v,
    };
    if items.len() == 0 {
        return Ok(None);
    }
    let id = match chapter_page_id(chapter) {
        Err(e) => return Err(e),
        Ok(id) => id,
    };
    let section = chapter_section(chapter);
    Ok(Some(PageManifest { id, title: chapter.name.clone(), section, items }))
}

/// The manifest entries of `chapters` in order, and the errors of the
/// chapters that were refused, in order.
pub open spec fn manifests(chapters: Seq<ChapterView>) -> (Seq<PageView>, Seq<ErrorKind>)
    decreases chapters.len(),
{
    if chapters.len() == 0 {
        (Seq::<PageView>::empty(), Seq::<ErrorKind>::empty())
    } else {
        let (pages, errors) = manifests(chapters.drop_last());
        match manifest_of(chapters.last()) {
            Ok(Some(p)) => (pages.push(p), errors),
            Ok(None) => (pages, errors),
            Err(e) => (pages, errors.push(e)),
        }
    }
}

/// The values of a list of chapters.
pub open spec fn chapters_view(v: Seq<Chapter>) -> Seq<ChapterView> {
    v.map_values(|c: Chapter| c@)
}

/// The manifest entries of the chapters that track items, and the errors
/// of those that were refused; a refused chapter contributes no entry.
pub fn page_manifests(chapters: &Vec<Chapter>) -> (r: (Vec<PageManifest>, Vec<TrackError>))
    ensures
        r.0@.map_values(|p: PageManifest| p@) == manifests(chapters_view(chapters@)).0,
        r.1@.map_values(|e: TrackError| e@) == manifests(chapters_view(chapters@)).1,
{
    let ghost cs = chapters_view(chapters@);
    let mut pages: Vec<PageManifest> = Vec::new();
    let mut errors: Vec<TrackError> = Vec::new();
    let mut i: usize = 0;
    assert(cs.take(0) =~= Seq::<ChapterView>::empty());
    assert(pages@.map_values(|p: PageManifest| p@) =~= Seq::<PageView>::empty());
    assert(errors@.map_values(|e: TrackError| e@) =~= Seq::<ErrorKind>::empty());
    while i < chapters.len()
        invariant
            cs == chapters_view(chapters@),
            i <= chapters.len(),
            pages@.map_values(|p: PageManifest| p@) == manifests(cs.take(i as int)).0,
            errors@.map_values(|e: TrackError| e@) == manifests(cs.take(i as int)).1,
        decreases chapters.len() - i,
    {
        assert(cs.take(i + 1).drop_last() =~= cs.take(i as int));
        assert(cs[i as int] == chapters@[i as int]@);
        let ghost pv = pages@.map_values(|p: PageManifest| p@);
        let ghost ev = errors@.map_values(|e: TrackError| e@);
        match page_manifest(&chapters[i]) {
            Ok(Some(p)) => {
                let ghost v = p@;
                pages.push(p);
                assert(pages@.map_values(|p: PageManifest| p@) =~= pv.push(v));
            },
            Ok(None) => {},
            Err(e) => {
                let ghost v = e@;
                errors.push(e);
                assert(errors@.map_values(|e: TrackError| e@) =~= ev.push(v));
            },
        }
        i = i + 1;
    }
    assert(cs.take(chapters.len() as int) =~= cs);
    (pages, errors)
}

/// The text of a chapter after its directives are rendered, and whether a
/// directive was refused; on refusal the text is as far as it was rewritten.
pub open spec fn processed(ch: ChapterView, book_id: Seq<char>, manifest_json: Seq<char>) -> (
    Seq<char>,
    Result<(), ErrorKind>,
) {
    let content = ch.content;
    let page = page_id(ch);
    match inline_directives(content) {
        Err(e) => (content, Err(e)),
        Ok(entries) => match track_block(content) {
            Err(e) => (content, Err(e)),
            Ok(block) => {
                let c1 = match (block, page) {
                    (Some(items), Ok(pid)) => block_replaced(content, tracker(book_id, pid, items)),
                    _ => Ok(content),
                };
                match c1 {
                    Err(e) => (content, Err(e)),
                    Ok(c1) => {
                        let c2 = if contains(c1, TRACK_ITEM_OPEN@) {
                            match page {
                                Err(_) => Err(ErrorKind::ItemWithoutPath),
                                Ok(pid) => inline_replaced(c1, book_id, pid),
                            }
                        } else {
                            Ok(c1)
                        };
                        match c2 {
                            Err(e) => (c1, Err(e)),
                            Ok(c2) => {
                                if contains(c2, TRACK_CHECKLIST@) && inline_items(entries).len()
                                    == 0 {
                                    (c2, Err(ErrorKind::ChecklistWithoutItems))
                                } else if contains(c2, TRACK_CHECKLIST@) && page is Err {
                                    (c2, Err(ErrorKind::ChecklistWithoutPath))
                                } else {
                                    let c3 = if contains(c2, TRACK_CHECKLIST@) {
                                        replace_all(
                                            c2,
                                            TRACK_CHECKLIST@,
                                            tracker(book_id, page->Ok_0, inline_items(entries)),
                                        )
                                    } else {
                                        c2
                                    };
                                    let c4 = if contains(c3, OVERVIEW@) {
                                        replace_all(c3, OVERVIEW@, overview(book_id, manifest_json))
                                    } else {
                                        c3
                                    };
                                    (c4, Ok(()))
                                }
                            },
                        }
                    },
                }
            },
        },
    }
}

/// Renders the directives of `chapter` in place: its `{{#track}}` block,
/// its `{{#track-item}}` directives, its `{{#track-checklist}}` and its
/// `{{#track-overview}}`, which shows `manifest_json`.
pub fn process_chapter(chapter: &mut Chapter, book_id: &str, manifest_json: &str) -> (r: Result<
    (),
    TrackError,
>)
    ensures
        final(chapter).content@ == processed(old(chapter)@, book_id@, manifest_json@).0,
        match r {
            Ok(_) => processed(old(chapter)@, book_id@, manifest_json@).1 == Ok::<(), ErrorKind>(()),
            Err(e) => processed(old(chapter)@, book_id@, manifest_json@).1 == Err::<(), ErrorKind>(
                e@,
            ),
        },
        final(chapter).name == old(chapter).name,
        final(chapter).source_path == old(chapter).source_path,
        final(chapter).path == old(chapter).path,
        final(chapter).parent_names == old(chapter).parent_names,
{
    proof {
        crate::parse::lemma_marker_lengths();
    }
    let page = match chapter_page_id(chapter) {
        Ok(p) => Some(p),
        Err(_) => None,
    };
    let entries = match parse_inline_track_items(chapter.content.as_str()) {
        Err(e) => return Err(e),
        Ok(v) => v,
    };
    let ghost es = inline_view(entries@);
    let mut inline: Vec<TrackItem> = Vec::new();
    let mut j: usize = 0;
    while j < entries.len()
        invariant
            j <= entries.len(),
            es == inline_view(entries@),
            items_view(inline@) == inline_items(es).take(j as int),
        decreases entries.len() - j,
    {
        let ghost before = items_view(inline@);
        inline.push(entries[j].item.clone());
        assert(items_view(inline@) =~= before.push(inline_items(es)[j as int]));
        assert(inline_items(es).take(j + 1) =~= inline_items(es).take(j as int).push(
            inline_items(es)[j as int],
        ));
        j = j + 1;
    }
    assert(inline_items(es).take(entries.len() as int) =~= inline_items(es));
    let block = match parse_track_items(chapter.content.as_str()) {
        Err(e) => return Err(e),
        Ok(b) => b,
    };
    match (&block, &page) {
        (Some(items), Some(pid)) => {
            let t = render_tracker(book_id, pid.as_str(), items);
            match replace_track_block(chapter.content.as_str(), t.as_str()) {
                Err(e) => return Err(e),
                Ok(c) => {
                    chapter.content = c;
                },
            }
        },
        _ => {},
    }
    if contains_str(chapter.content.as_str(), TRACK_ITEM_OPEN) {
        match &page {
            None => return Err(TrackError::ItemWithoutPath),
            Some(pid) => match replace_inline_track_items(
                chapter.content.as_str(),
                book_id,
                pid.as_str(),
            ) {
                Err(e) => return Err(e),
                Ok(c) => {
                    chapter.content = c;
                },
            },
        }
    }
    if contains_str(chapter.content.as_str(), TRACK_CHECKLIST) {
        if inline.len() == 0 {
            return Err(TrackError::ChecklistWithoutItems);
        }
        match &page {
            None => return Err(TrackError::ChecklistWithoutPath),
            Some(pid) => {
                let checklist = render_tracker(book_id, pid.as_str(), &inline);
                chapter.content = replace_str(
                    chapter.content.as_str(),
                    TRACK_CHECKLIST,
                    checklist.as_str(),
                );
            },
        }
    }
    if contains_str(chapter.content.as_str(), OVERVIEW) {
        let o = render_overview(book_id, manifest_json);
        chapter.content = replace_str(chapter.content.as_str(), OVERVIEW, o.as_str());
    }
    Ok(())
}

/// The book id: the configured one, trimmed; else the slug of the book's
/// title (`mdbook` when there is none), or `mdbook` when that slug is empty.
pub open spec fn book_id_of(configured: Option<Seq<char>>, title: Option<Seq<char>>) -> Result<
    Seq<char>,
    ErrorKind,
> {
    match configured {
        Some(id) => if trim(id).len() == 0 {
            Err(ErrorKind::EmptyBookId)
        } else {
            Ok(trim(id))
        },
        None => {
            let s = slug(
                trim(
                    match title {
                        Some(t) => t,
                        None => "mdbook"@,
                    },
                ),
            );
            if s.len() == 0 {
                Ok("mdbook"@)
            } else {
                Ok(s)
            }
        },
    }
}

/// The value of an optional string.
pub open spec fn opt_view(s: Option<&str>) -> Option<Seq<char>> {
    match s {
        Some(t) => Some(t@),
        None => None,
    }
}

/// Chooses the id under which the book's progress is stored, from the
/// configured `preprocessor.track.book-id` and the book's title.
pub fn configured_book_id(configured: Option<&str>, title: Option<&str>) -> (r: Result<
    String,
    TrackError,
>)
    ensures
        match r {
            Ok(s) => book_id_of(opt_view(configured), opt_view(title)) == Ok::<Seq<char>, ErrorKind>(
                s@,
            ),
            Err(e) => book_id_of(opt_view(configured), opt_view(title)) == Err::<
                Seq<char>,
                ErrorKind,
            >(e@),
        },
        r matches Ok(s) ==> s@.len() > 0,
{
    match configured {
        Some(id) => {
            let t = trim_str(id);
            if t.as_str().is_empty() {
                return Err(TrackError::EmptyBookId);
            }
            Ok(t)
        },
        None => {
            let title = match title {
                Some(t) => t,
                None => "mdbook",
            };
            let t = trim_str(title);
            let s = slugify(t.as_str());
            if s.as_str().is_empty() {
                proof {
                    reveal_strlit("mdbook");
                }
                Ok(String::from_str("mdbook"))
            } else {
                Ok(s)
            }
        },
    }
}

} // verus!
