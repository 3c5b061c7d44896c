//! Markdown notes and free-text metadata, shown as HTML on the project
//! pages. Raw HTML in the source is left out: the text may come from users,
//! so it cannot be trusted to inject markup.
use vstd::prelude::*;

use pulldown_cmark::{Event, Options, Parser};

verus! {

/// An event of `pulldown_cmark`, carried through unopened.
#[verifier::external_type_specification]
#[verifier::external_body]
pub struct ExEvent<'a>(Event<'a>);

/// The kinds of Markdown events that the rendering tells apart.
#[derive(Clone, Copy, Debug, PartialEq, Eq, Structural)]
pub enum MarkdownEventKind {
    /// A line of a raw HTML block.
    Html,
    /// A raw HTML tag inside a paragraph.
    InlineHtml,
    /// Any other event: text, code, formatting, structure.
    Other,
}

/// The Markdown extensions the pages read: tables, strikethrough and task
/// lists (the bits `pulldown_cmark::Options` gives them).
pub const MARKDOWN_OPTIONS: u32 = 26;

/// The kinds of the events that `pulldown_cmark::Parser::new_ext` reads from
/// `source` with the extensions `options`, in order.
pub uninterp spec fn markdown_events(source: Seq<char>, options: u32) -> Seq<MarkdownEventKind>;

/// The HTML that `pulldown_cmark::html::push_html` writes for the events
/// that `pulldown_cmark::Parser::new_ext` reads from `source` with the
/// extensions `options` and that stand at `places` in the parse, taken in
/// the order of `places`.
pub uninterp spec fn markdown_html(source: Seq<char>, options: u32, places: Seq<usize>) -> Seq<char>;

/// One event of a parse, with its kind and its place among the events of
/// the parse.
pub struct MarkdownEvent<'a> {
    event: Event<'a>,
    kind: MarkdownEventKind,
    place: usize,
}

/// Events of the parse of a text: all of them as read, or some of them, in
/// the order of the parse. Only `parse_markdown` makes one, and only the
/// functions of this module take events out of it.
pub struct ParsedMarkdown<'a> {
    source: &'a str,
    options: u32,
    events: Vec<MarkdownEvent<'a>>,
}

impl<'a> MarkdownEvent<'a> {
    pub closed spec fn kind(self) -> MarkdownEventKind {
        self.kind
    }

    pub closed spec fn place(self) -> usize {
        self.place
    }
}

impl<'a> ParsedMarkdown<'a> {
    /// The text parsed.
    pub closed spec fn text(self) -> Seq<char> {
        self.source@
    }

    /// The extensions it was parsed with.
    pub closed spec fn options(self) -> u32 {
        self.options
    }

    /// The kinds of the events held, in order.
    pub closed spec fn kinds(self) -> Seq<MarkdownEventKind> {
        self.events@.map_values(|e: MarkdownEvent<'a>| e.kind)
    }

    /// The places, in the parse, of the events held, in order.
    pub closed spec fn places(self) -> Seq<usize> {
        self.events@.map_values(|e: MarkdownEvent<'a>| e.place)
    }
}

/// `pulldown_cmark::Parser::new_ext`: the events read from `source` with
/// the extensions `options`, each with its kind and its place. The crate's
/// parser is taken to return on every text; nothing here shows it.
#[verifier::external_body]
fn parse_markdown<'a>(source: &'a str, options: u32) -> (r: ParsedMarkdown<'a>)
    ensures
        r.text() == source@,
        r.options() == options,
        r.kinds() == markdown_events(source@, options),
        r.places() == Seq::new(markdown_events(source@, options).len(), |i: int| i as usize),
{
    let events = Parser::new_ext(source, Options::from_bits_truncate(options))
        .enumerate()
        .map(|(place, event)| match event {
            Event::Html(_) => MarkdownEvent { event, kind: MarkdownEventKind::Html, place },
            Event::InlineHtml(_) => MarkdownEvent { event, kind: MarkdownEventKind::InlineHtml, place },
            _ => MarkdownEvent { event, kind: MarkdownEventKind::Other, place },
        })
        .collect();
    ParsedMarkdown { source, options, events }
}

/// `pulldown_cmark::html::push_html` into an empty string, of the events
/// held, in order: the HTML of the events at those places of the parse.
#[verifier::external_body]
fn render_parsed<'a>(parsed: ParsedMarkdown<'a>) -> (html: String)
    ensures
        html@ == markdown_html(parsed.text(), parsed.options(), parsed.places()),
{
    let mut html = String::new();
    pulldown_cmark::html::push_html(&mut html, parsed.events.into_iter().map(|e| e.event));
    html
}

/// Whether the rendering keeps an event: raw HTML, as a block or inline, is
/// dropped; everything else is kept.
pub open spec fn kept(kind: MarkdownEventKind) -> bool {
    kind == MarkdownEventKind::Other
}

/// Whether the rendering keeps an event: see [`kept`].
pub fn keeps_event(kind: MarkdownEventKind) -> (keep: bool)
    ensures
        keep == kept(kind),
{
    match kind {
        MarkdownEventKind::Html => false,
        MarkdownEventKind::InlineHtml => false,
        MarkdownEventKind::Other => true,
    }
}

/// The parse without its raw HTML: the events that are not raw HTML, in
/// order, and those alone.
pub fn without_raw_html<'a>(parsed: ParsedMarkdown<'a>) -> (r: ParsedMarkdown<'a>)
    ensures
        r.text() == parsed.text(),
        r.options() == parsed.options(),
        r.kinds() == parsed.kinds().filter(|k: MarkdownEventKind| kept(k)),
        r.places() == places_kept(parsed.kinds(), parsed.places()),
{
    let ParsedMarkdown { source, options, mut events } = parsed;
    let ghost all = events@;
    let n = events.len();
    assert(all.len() == n);
    let mut kept_events: Vec<MarkdownEvent<'a>> = Vec::new();
    let mut i: usize = 0;
    let ghost pred = |e: MarkdownEvent<'a>| kept(e.kind);
    proof {
        assert(all.take(0) =~= Seq::<MarkdownEvent<'a>>::empty());
        assert(events@ =~= all.skip(0));
    }
    while events.len() > 0
        invariant
            0 <= i <= all.len(),
            all.len() <= usize::MAX,
            events@ == all.skip(i as int),
            kept_events@ == all.take(i as int).filter(pred),
            pred == (|e: MarkdownEvent<'a>| kept(e.kind)),
        decreases events.len(),
    {
        let e = events.remove(0);
        proof {
            assert(all.take(i + 1) =~= all.take(i as int).push(e));
            all.take(i as int).lemma_filter_push(e, pred);
            assert(all.skip(i + 1) =~= all.skip(i as int).skip(1));
        }
        if keeps_event(e.kind) {
            kept_events.push(e);
        }
        i = i + 1;
    }
    proof {
        assert(all.take(i as int) =~= all);
        lemma_filter_views(all);
    }
    ParsedMarkdown { source, options, events: kept_events }
}

/// The places of the events whose kind is kept, in order.
pub open spec fn places_kept(kinds: Seq<MarkdownEventKind>, places: Seq<usize>) -> Seq<usize>
    decreases kinds.len(),
{
    if kinds.len() == 0 || places.len() != kinds.len() {
        Seq::empty()
    } else {
        let rest = places_kept(kinds.drop_last(), places.drop_last());
        if kept(kinds.last()) {
            rest.push(places.last())
        } else {
            rest
        }
    }
}

/// Filtering the events filters their kinds and their places alike.
proof fn lemma_filter_views<'a>(s: Seq<MarkdownEvent<'a>>)
    ensures
        s.filter(|e: MarkdownEvent<'a>| kept(e.kind)).map_values(|e: MarkdownEvent<'a>| e.kind)
            == s.map_values(|e: MarkdownEvent<'a>| e.kind).filter(|k: MarkdownEventKind| kept(k)),
        s.filter(|e: MarkdownEvent<'a>| kept(e.kind)).map_values(|e: MarkdownEvent<'a>| e.place) == places_kept(
            s.map_values(|e: MarkdownEvent<'a>| e.kind),
            s.map_values(|e: MarkdownEvent<'a>| e.place),
        ),
    decreases s.len(),
{
    let pe = |e: MarkdownEvent<'a>| kept(e.kind);
    let pk = |k: MarkdownEventKind| kept(k);
    if s.len() > 0 {
        let init = s.drop_last();
        lemma_filter_views(init);
        assert(s =~= init.push(s.last()));
        init.lemma_filter_push(s.last(), pe);
        let ks = s.map_values(|e: MarkdownEvent<'a>| e.kind);
        let ps = s.map_values(|e: MarkdownEvent<'a>| e.place);
        assert(ks =~= init.map_values(|e: MarkdownEvent<'a>| e.kind).push(s.last().kind));
        assert(ps =~= init.map_values(|e: MarkdownEvent<'a>| e.place).push(s.last().place));
        init.map_values(|e: MarkdownEvent<'a>| e.kind).lemma_filter_push(s.last().kind, pk);
        assert(ks.drop_last() =~= init.map_values(|e: MarkdownEvent<'a>| e.kind));
        assert(ps.drop_last() =~= init.map_values(|e: MarkdownEvent<'a>| e.place));
        assert(s.filter(pe).map_values(|e: MarkdownEvent<'a>| e.kind) =~= ks.filter(pk));
        assert(s.filter(pe).map_values(|e: MarkdownEvent<'a>| e.place) =~= places_kept(ks, ps));
    } else {
        assert(s.filter(pe) =~= Seq::<MarkdownEvent<'a>>::empty());
        assert(s.map_values(|e: MarkdownEvent<'a>| e.kind).filter(pk) =~= Seq::<MarkdownEventKind>::empty());
    }
}

/// The places, in the parse of `source`, of the events that are not raw
/// HTML, in order.
pub open spec fn markdown_kept_places(source: Seq<char>) -> Seq<usize> {
    let kinds = markdown_events(source, MARKDOWN_OPTIONS);
    places_kept(kinds, Seq::new(kinds.len(), |i: int| i as usize))
}

/// A Markdown text as HTML: the rendering of its events, raw HTML events
/// (blocks and inline tags) left out and every other event kept, in order.
pub fn render_markdown(source: &str) -> (html: String)
    ensures
        html@ == markdown_html(source@, MARKDOWN_OPTIONS, markdown_kept_places(source@)),
{
    let parsed = parse_markdown(source, MARKDOWN_OPTIONS);
    let kept = without_raw_html(parsed);
    render_parsed(kept)
}

} // verus!
