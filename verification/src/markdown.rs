//! The markdown event stream: pulldown-cmark's events, carried over into plain values.

use vstd::prelude::*;

use pulldown_cmark::Alignment as PdAlignment;
use pulldown_cmark::BlockQuoteKind::{Caution, Important, Note, Tip, Warning};
use pulldown_cmark::CodeBlockKind::{Fenced, Indented};
use pulldown_cmark::Event as PdEvent;
use pulldown_cmark::Event::{
    Code, DisplayMath, End, FootnoteReference, HardBreak, Html, InlineHtml, InlineMath, Rule,
    SoftBreak, Start, TaskListMarker, Text,
};
use pulldown_cmark::LinkType as PdLinkType;
use pulldown_cmark::Tag as PdTag;
use pulldown_cmark::TagEnd as PdTagEnd;
use pulldown_cmark::TagEnd::{
    BlockQuote, CodeBlock, DefinitionList, DefinitionListDefinition, DefinitionListTitle,
    Emphasis, FootnoteDefinition, Heading, HtmlBlock, Image, Item, Link, List, MetadataBlock,
    Paragraph, Strikethrough, Strong, Subscript, Superscript, Table, TableCell, TableHead,
    TableRow,
};
use pulldown_cmark::{Options as PdOptions, Parser};

verus! {

/// A table column's alignment.
#[derive(Clone, Copy, Debug, PartialEq, Eq, Structural)]
pub enum Align {
    Unset,
    Left,
    Center,
    Right,
}

/// The kind of a GitHub alert block quote (`> [!NOTE]`).
#[derive(Clone, Copy, Debug, PartialEq, Eq, Structural)]
pub enum QuoteKind {
    Note,
    Tip,
    Important,
    Warning,
    Caution,
}

/// How a link was written.
#[derive(Clone, Copy, Debug, PartialEq, Eq, Structural)]
pub enum LinkKind {
    Inline,
    Reference,
    ReferenceUnknown,
    Collapsed,
    CollapsedUnknown,
    Shortcut,
    ShortcutUnknown,
    Autolink,
    Email,
    WikiLink,
}

/// An indented code block, or a fenced one with its info string.
#[derive(Debug)]
pub enum CodeKind {
    Indented,
    Fenced(String),
}

/// The start of an element, with what the renderer needs of it.
#[derive(Debug)]
pub enum MdTag {
    Paragraph,
    /// Heading level, 1 to 6.
    Heading(u8),
    BlockQuote(Option<QuoteKind>),
    CodeBlock(CodeKind),
    HtmlBlock,
    /// An ordered list's first number, or `None` for a bullet list.
    List(Option<u64>),
    Item,
    FootnoteDefinition(String),
    DefinitionList,
    DefinitionListTitle,
    DefinitionListDefinition,
    Table(Vec<Align>),
    TableHead,
    TableRow,
    TableCell,
    Emphasis,
    Strong,
    Strikethrough,
    Superscript,
    Subscript,
    Link(LinkKind, String),
    Image(String),
    MetadataBlock,
}

/// The end of an element.
#[derive(Clone, Copy, Debug, PartialEq, Eq, Structural)]
pub enum MdTagEnd {
    Paragraph,
    Heading(u8),
    BlockQuote,
    CodeBlock,
    HtmlBlock,
    List,
    Item,
    FootnoteDefinition,
    DefinitionList,
    DefinitionListTitle,
    DefinitionListDefinition,
    Table,
    TableHead,
    TableRow,
    TableCell,
    Emphasis,
    Strong,
    Strikethrough,
    Superscript,
    Subscript,
    Link,
    Image,
    MetadataBlock,
}

/// One markdown event.
#[derive(Debug)]
pub enum MdEvent {
    Start(MdTag),
    End(MdTagEnd),
    Text(String),
    Code(String),
    InlineMath(String),
    DisplayMath(String),
    Html(String),
    InlineHtml(String),
    FootnoteReference(String),
    SoftBreak,
    HardBreak,
    Rule,
    TaskListMarker(bool),
}

/// A pulldown-cmark event with its text carried over as a `String`; a start tag is kept
/// (cloned) and an end tag as it is, for `event_of` to convert.
enum RawEvent<'a> {
    Start(PdTag<'a>),
    End(PdTagEnd),
    Text(String),
    Code(String),
    InlineMath(String),
    DisplayMath(String),
    Html(String),
    InlineHtml(String),
    FootnoteReference(String),
    SoftBreak,
    HardBreak,
    Rule,
    TaskListMarker(bool),
}

#[verifier::external_type_specification]
#[verifier::external_body]
pub struct ExMdEvent<'a>(pulldown_cmark::Event<'a>);

#[verifier::external_type_specification]
#[verifier::external_body]
pub struct ExMdTag<'a>(pulldown_cmark::Tag<'a>);

#[verifier::external_type_specification]
#[verifier::external_body]
pub struct ExMdTagEnd(pulldown_cmark::TagEnd);

#[verifier::external_type_specification]
#[verifier::external_body]
pub struct ExMdAlignment(pulldown_cmark::Alignment);

#[verifier::external_type_specification]
#[verifier::external_body]
pub struct ExMdLinkType(pulldown_cmark::LinkType);

/// The bits of the parser options (pulldown-cmark's `Options`): tables (bit 1),
/// footnotes (2), strikethrough (3), task lists (4), YAML-style (7) and plus-delimited
/// (8) metadata blocks, GFM alerts (11) and definition lists (12).
#[verifier::external_body]
pub fn parser_options() -> (r: u32)
    ensures
        r == parser_bits(),
{
    (PdOptions::ENABLE_TABLES | PdOptions::ENABLE_FOOTNOTES | PdOptions::ENABLE_STRIKETHROUGH
        | PdOptions::ENABLE_TASKLISTS | PdOptions::ENABLE_GFM | PdOptions::ENABLE_DEFINITION_LIST
        | PdOptions::ENABLE_YAML_STYLE_METADATA_BLOCKS
        | PdOptions::ENABLE_PLUSES_DELIMITED_METADATA_BLOCKS).bits()
}

/// The bits of the options that the markdown is parsed with.
pub open spec fn parser_bits() -> u32 {
    0b1_1001_1001_1110u32
}

/// pulldown-cmark's events for `src` with the options whose bits are `opts`, each
/// converted by `event_of`.
pub uninterp spec fn markdown_events(src: Seq<char>, opts: u32) -> Seq<MdEvent>;

/// The events of `Parser::new_ext` on `src`, with the options whose bits are `opts`
/// (`Options::from_bits_truncate`), each converted by `event_of` as it comes. The parser
/// is a function of the text and the options, so what it gives is too; `event_of`
/// converts every event and keeps heading levels from 1 to 6.
#[verifier::external_body]
fn md_events(src: &str, opts: u32) -> (r: Vec<MdEvent>)
    ensures
        r@ == markdown_events(src@, opts),
        events_wf(r@),
{
    Parser::new_ext(src, PdOptions::from_bits_truncate(opts)).filter_map(|e| event_of(&e)).collect()
}

/// A pulldown-cmark `Event` as a `RawEvent`, variant for variant: a start tag cloned,
/// an end tag copied, the text of a text-carrying event as a `String`.
#[verifier::external_body]
fn raw_event<'a>(e: &PdEvent<'a>) -> RawEvent<'a> {
    match e {
        Start(t) => RawEvent::Start(t.clone()), End(t) => RawEvent::End(*t),
        Text(s) => RawEvent::Text(s.to_string()), Code(s) => RawEvent::Code(s.to_string()),
        InlineMath(s) => RawEvent::InlineMath(s.to_string()),
        DisplayMath(s) => RawEvent::DisplayMath(s.to_string()),
        Html(s) => RawEvent::Html(s.to_string()), InlineHtml(s) => RawEvent::InlineHtml(s.to_string()),
        FootnoteReference(s) => RawEvent::FootnoteReference(s.to_string()),
        SoftBreak => RawEvent::SoftBreak, HardBreak => RawEvent::HardBreak, Rule => RawEvent::Rule,
        TaskListMarker(b) => RawEvent::TaskListMarker(*b),
    }
}

/// The end tag that closes a start tag (pulldown-cmark's `Tag::to_end`).
#[verifier::external_body]
fn tag_end(t: &PdTag) -> PdTagEnd {
    t.to_end()
}

/// A pulldown-cmark `TagEnd` as an `MdTagEnd`, variant for variant. A heading's level is
/// its number: pulldown-cmark numbers `HeadingLevel` from 1 to 6.
#[verifier::external_body]
fn end_tag(t: PdTagEnd) -> (r: MdTagEnd)
    ensures
        r matches MdTagEnd::Heading(l) ==> 1 <= l <= 6,
{
    match t {
        Paragraph => MdTagEnd::Paragraph, Heading(l) => MdTagEnd::Heading(l as u8),
        BlockQuote(_) => MdTagEnd::BlockQuote, CodeBlock => MdTagEnd::CodeBlock, HtmlBlock => MdTagEnd::HtmlBlock,
        List(_) => MdTagEnd::List, Item => MdTagEnd::Item, FootnoteDefinition => MdTagEnd::FootnoteDefinition,
        DefinitionList => MdTagEnd::DefinitionList, DefinitionListTitle => MdTagEnd::DefinitionListTitle,
        DefinitionListDefinition => MdTagEnd::DefinitionListDefinition, Table => MdTagEnd::Table,
        TableHead => MdTagEnd::TableHead, TableRow => MdTagEnd::TableRow, TableCell => MdTagEnd::TableCell,
        Emphasis => MdTagEnd::Emphasis, Strong => MdTagEnd::Strong, Strikethrough => MdTagEnd::Strikethrough,
        Superscript => MdTagEnd::Superscript, Subscript => MdTagEnd::Subscript, Link => MdTagEnd::Link,
        Image => MdTagEnd::Image, MetadataBlock(_) => MdTagEnd::MetadataBlock,
    }
}

/// The kind of a pulldown-cmark's `Tag::BlockQuote` that is an alert; `None` otherwise.
#[verifier::external_body]
fn quote_kind(t: &PdTag) -> Option<QuoteKind> {
    match t {
        PdTag::BlockQuote(Some(Note)) => Some(QuoteKind::Note),
        PdTag::BlockQuote(Some(Tip)) => Some(QuoteKind::Tip),
        PdTag::BlockQuote(Some(Important)) => Some(QuoteKind::Important),
        PdTag::BlockQuote(Some(Warning)) => Some(QuoteKind::Warning),
        PdTag::BlockQuote(Some(Caution)) => Some(QuoteKind::Caution),
        _ => None,
    }
}

/// The kind of a pulldown-cmark's `Tag::CodeBlock`, with a fenced block's info string; `None` for the
/// other variants.
#[verifier::external_body]
fn code_kind(t: &PdTag) -> Option<CodeKind> {
    match t {
        PdTag::CodeBlock(Fenced(info)) => Some(CodeKind::Fenced(info.to_string())),
        PdTag::CodeBlock(Indented) => Some(CodeKind::Indented),
        _ => None,
    }
}

/// The first number of a pulldown-cmark's `Tag::List` (`Some(None)` for a bullet list); `None` for the
/// other variants.
#[verifier::external_body]
fn list_start(t: &PdTag) -> Option<Option<u64>> {
    match t {
        PdTag::List(n) => Some(*n),
        _ => None,
    }
}

/// The label of a pulldown-cmark's `Tag::FootnoteDefinition`; `None` for the other variants.
#[verifier::external_body]
fn footnote_label(t: &PdTag) -> Option<String> {
    match t {
        PdTag::FootnoteDefinition(l) => Some(l.to_string()),
        _ => None,
    }
}

/// The column alignments of a pulldown-cmark's `Tag::Table`, cloned; `None` for the other variants.
#[verifier::external_body]
fn table_aligns(t: &PdTag) -> Option<Vec<PdAlignment>> {
    match t {
        PdTag::Table(a) => Some(a.clone()),
        _ => None,
    }
}

/// A pulldown-cmark `Alignment` as an `Align`.
#[verifier::external_body]
fn align_of(a: &PdAlignment) -> Align {
    match a {
        PdAlignment::None => Align::Unset,
        PdAlignment::Left => Align::Left,
        PdAlignment::Center => Align::Center,
        PdAlignment::Right => Align::Right,
    }
}

/// The link type and destination of a pulldown-cmark's `Tag::Link` or pulldown-cmark's `Tag::Image`; `None` for the
/// other variants.
#[verifier::external_body]
fn link_target(t: &PdTag) -> Option<(PdLinkType, String)> {
    match t {
        PdTag::Link { link_type, dest_url, .. } => Some((*link_type, dest_url.to_string())),
        PdTag::Image { link_type, dest_url, .. } => Some((*link_type, dest_url.to_string())),
        _ => None,
    }
}

/// A pulldown-cmark `LinkType` as a `LinkKind`.
#[verifier::external_body]
fn link_kind(k: PdLinkType) -> LinkKind {
    match k {
        PdLinkType::Inline => LinkKind::Inline, PdLinkType::Reference => LinkKind::Reference,
        PdLinkType::ReferenceUnknown => LinkKind::ReferenceUnknown,
        PdLinkType::Collapsed => LinkKind::Collapsed,
        PdLinkType::CollapsedUnknown => LinkKind::CollapsedUnknown,
        PdLinkType::Shortcut => LinkKind::Shortcut,
        PdLinkType::ShortcutUnknown => LinkKind::ShortcutUnknown,
        PdLinkType::Autolink => LinkKind::Autolink, PdLinkType::Email => LinkKind::Email,
        PdLinkType::WikiLink { .. } => LinkKind::WikiLink,
    }
}

/// A pulldown-cmark end tag as an `MdTagEnd`.
/// Every end tag has its counterpart.
fn end_of(t: PdTagEnd) -> (r: Option<MdTagEnd>)
    ensures
        r is Some,
        r matches Some(MdTagEnd::Heading(l)) ==> 1 <= l <= 6,
{
    Some(end_tag(t))
}

fn aligns_of(a: &Vec<PdAlignment>) -> (r: Vec<Align>)
    ensures
        r@.len() == a@.len(),
{
    let mut out: Vec<Align> = Vec::new();
    let mut i: usize = 0;
    while i < a.len()
        invariant
            i <= a@.len(),
            out@.len() == i,
        decreases a@.len() - i,
    {
        out.push(align_of(&a[i]));
        i += 1;
    }
    out
}

/// A pulldown-cmark start tag as an `MdTag`, of the kind of the end tag that closes it.
/// Every tag converts: pulldown-cmark gives each tag the payload of its kind, and where
/// that payload were not reported the tag would be taken with an empty one.
fn tag_of(t: &PdTag) -> (r: Option<MdTag>)
    ensures
        r is Some,
        r matches Some(MdTag::Heading(l)) ==> 1 <= l <= 6,
{
    let kind = match end_of(tag_end(t)) {
        Some(k) => k,
        None => {
            return None;
        },
    };
    match kind {
        MdTagEnd::Paragraph => Some(MdTag::Paragraph),
        MdTagEnd::Heading(l) => Some(MdTag::Heading(l)),
        MdTagEnd::BlockQuote => Some(MdTag::BlockQuote(quote_kind(t))),
        MdTagEnd::CodeBlock => match code_kind(t) {
            Some(k) => Some(MdTag::CodeBlock(k)),
            None => Some(MdTag::CodeBlock(CodeKind::Indented)),
        },
        MdTagEnd::HtmlBlock => Some(MdTag::HtmlBlock),
        MdTagEnd::List => match list_start(t) {
            Some(n) => Some(MdTag::List(n)),
            None => Some(MdTag::List(None)),
        },
        MdTagEnd::Item => Some(MdTag::Item),
        MdTagEnd::FootnoteDefinition => match footnote_label(t) {
            Some(l) => Some(MdTag::FootnoteDefinition(l)),
            None => Some(MdTag::FootnoteDefinition(String::new())),
        },
        MdTagEnd::DefinitionList => Some(MdTag::DefinitionList),
        MdTagEnd::DefinitionListTitle => Some(MdTag::DefinitionListTitle),
        MdTagEnd::DefinitionListDefinition => Some(MdTag::DefinitionListDefinition),
        MdTagEnd::Table => match table_aligns(t) {
            Some(a) => Some(MdTag::Table(aligns_of(&a))),
            None => Some(MdTag::Table(Vec::new())),
        },
        MdTagEnd::TableHead => Some(MdTag::TableHead),
        MdTagEnd::TableRow => Some(MdTag::TableRow),
        MdTagEnd::TableCell => Some(MdTag::TableCell),
        MdTagEnd::Emphasis => Some(MdTag::Emphasis),
        MdTagEnd::Strong => Some(MdTag::Strong),
        MdTagEnd::Strikethrough => Some(MdTag::Strikethrough),
        MdTagEnd::Superscript => Some(MdTag::Superscript),
        MdTagEnd::Subscript => Some(MdTag::Subscript),
        MdTagEnd::Link => match link_target(t) {
            Some((k, url)) => Some(MdTag::Link(link_kind(k), url)),
            None => Some(MdTag::Link(LinkKind::Inline, String::new())),
        },
        MdTagEnd::Image => match link_target(t) {
            Some((_, url)) => Some(MdTag::Image(url)),
            None => Some(MdTag::Image(String::new())),
        },
        MdTagEnd::MetadataBlock => Some(MdTag::MetadataBlock),
    }
}

/// A pulldown-cmark event as an `MdEvent`: every event converts, text-carrying events
/// keep their text, and tags convert by `tag_of` and `end_of`.
fn event_of(e: &PdEvent) -> (r: Option<MdEvent>)
    ensures
        r is Some,
        r matches Some(MdEvent::Start(MdTag::Heading(l))) ==> 1 <= l <= 6,
        r matches Some(MdEvent::End(MdTagEnd::Heading(l))) ==> 1 <= l <= 6,
{
    match raw_event(e) {
        RawEvent::Start(t) => match tag_of(&t) {
            Some(tag) => Some(MdEvent::Start(tag)),
            None => None,
        },
        RawEvent::End(t) => match end_of(t) {
            Some(end) => Some(MdEvent::End(end)),
            None => None,
        },
        RawEvent::Text(s) => Some(MdEvent::Text(s)),
        RawEvent::Code(s) => Some(MdEvent::Code(s)),
        RawEvent::InlineMath(s) => Some(MdEvent::InlineMath(s)),
        RawEvent::DisplayMath(s) => Some(MdEvent::DisplayMath(s)),
        RawEvent::Html(s) => Some(MdEvent::Html(s)),
        RawEvent::InlineHtml(s) => Some(MdEvent::InlineHtml(s)),
        RawEvent::FootnoteReference(s) => Some(MdEvent::FootnoteReference(s)),
        RawEvent::SoftBreak => Some(MdEvent::SoftBreak),
        RawEvent::HardBreak => Some(MdEvent::HardBreak),
        RawEvent::Rule => Some(MdEvent::Rule),
        RawEvent::TaskListMarker(b) => Some(MdEvent::TaskListMarker(b)),
    }
}

/// Headings in an event stream have a level from 1 to 6.
pub open spec fn events_wf(events: Seq<MdEvent>) -> bool {
    forall|i: int|
        0 <= i < events.len() ==> {
            &&& (#[trigger] events[i] matches MdEvent::Start(MdTag::Heading(l)) ==> 1 <= l <= 6)
            &&& (events[i] matches MdEvent::End(MdTagEnd::Heading(l)) ==> 1 <= l <= 6)
        }
}

/// The markdown events of `src`, as the parser gives them with `parser_options()`, each
/// converted.
pub fn parse(src: &str) -> (r: Vec<MdEvent>)
    ensures
        r@ == markdown_events(src@, parser_bits()),
        events_wf(r@),
{
    md_events(src, parser_options())
}

} // verus!
