//! The events of a markdown text, as `pulldown_cmark` yields them.

use vstd::prelude::*;

use crate::scan::markdown::MdEvent::{
    CodeBlockEnd, CodeBlockStart, HeadingEnd, HeadingStart, ItemEnd, ItemStart, LinkStart, ListEnd,
    ListStart, Other, ParagraphStart, TaskMarker,
};
use crate::scan::markdown::{event_views, list_balance, MdEvent, MdEventView};
use pulldown_cmark::Event::{Code, End, Start, TaskListMarker, Text};
use pulldown_cmark::{Options, Parser, Tag, TagEnd};

verus! {

/// The events that `pulldown_cmark` yields for a text with task lists enabled.
pub uninterp spec fn markdown_events(content: Seq<char>) -> Seq<MdEventView>;

/// `pulldown_cmark::Parser::new_ext` with `ENABLE_TASKLISTS`, each event converted to an
/// `MdEvent`. The events are named by `markdown_events`, a function of the text alone.
/// The crate documents that start and end events are balanced, so no prefix closes more
/// lists than it opened. Nothing else is stated of the events.
#[verifier::external_body]
pub(crate) fn md_events(content: &str) -> (r: Vec<MdEvent>)
    ensures
        event_views(r@) == markdown_events(content@),
        forall|k: int| 0 <= k <= r@.len() ==> list_balance(#[trigger] markdown_events(content@).take(k)) >= 0,
{
    Parser::new_ext(content, Options::ENABLE_TASKLISTS).map(|e| match e {
        Start(Tag::Heading { level, .. }) => HeadingStart(level as u8),
        Start(Tag::Link { dest_url, .. }) => LinkStart(dest_url.to_string()),
        Start(Tag::Paragraph) => ParagraphStart,
        Start(Tag::List(_)) => ListStart, End(TagEnd::List(_)) => ListEnd,
        Start(Tag::Item) => ItemStart, End(TagEnd::Item) => ItemEnd,
        Start(Tag::CodeBlock(_)) => CodeBlockStart, End(TagEnd::CodeBlock) => CodeBlockEnd,
        End(TagEnd::Heading(_)) => HeadingEnd,
        TaskListMarker(c) => TaskMarker(c),
        Text(t) => MdEvent::Text(t.to_string()),
        Code(t) => MdEvent::Code(t.to_string()),
        _ => Other,
    }).collect()
}

} // verus!
