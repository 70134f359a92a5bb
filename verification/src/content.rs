//! Hand-written Markdown pages: rendering them to HTML, with fenced ` ```mermaid ` blocks
//! turned into `<pre class="mermaid">` elements for the client-side renderer.
use vstd::prelude::*;

use pulldown_cmark::{CodeBlockKind, Event, Parser, Tag, TagEnd};

use crate::model::{lemma_seq_view_push, seq_view};
use crate::render::{escape_all, escape_html_char};
use crate::text::{chars_of, extend_chars, string_of};

verus! {

/// `text` with `&`, `<` and `>` escaped for HTML.
pub fn escape_html(text: &str) -> (r: String)
    ensures
        r@ == escape_all(text@),
{
    let v = chars_of(text);
    let mut out: Vec<char> = Vec::new();
    let mut i: usize = 0;
    while i < v.len()
        invariant
            i <= v.len(),
            out@ == escape_all(v@.take(i as int)),
        decreases v.len() - i,
    {
        assert(v@.take(i + 1).drop_last() =~= v@.take(i as int));
        escape_html_char(v[i], &mut out);
        i += 1;
    }
    assert(v@.take(v@.len() as int) =~= v@);
    string_of(&out)
}

/// What a Markdown event is, as far as rewriting mermaid blocks goes.
#[derive(Debug)]
pub enum MdEvent {
    /// The start of a fenced code block, with its info string.
    FencedStart(String),
    /// The end of a code block.
    CodeBlockEnd,
    /// A text node.
    Text(String),
    /// Any other event.
    Other,
}

pub enum SpecMdEvent {
    FencedStart(Seq<char>),
    CodeBlockEnd,
    Text(Seq<char>),
    Other,
}

impl View for MdEvent {
    type V = SpecMdEvent;

    open spec fn view(&self) -> SpecMdEvent {
        match self {
            MdEvent::FencedStart(l) => SpecMdEvent::FencedStart(l@),
            MdEvent::CodeBlockEnd => SpecMdEvent::CodeBlockEnd,
            MdEvent::Text(t) => SpecMdEvent::Text(t@),
            MdEvent::Other => SpecMdEvent::Other,
        }
    }
}

/// What the rewritten event stream holds at one place.
#[derive(Debug)]
pub enum MdAction {
    /// The event of that index, unchanged.
    Keep(usize),
    /// A raw HTML event with this text.
    Html(String),
}

pub enum SpecMdAction {
    Keep(nat),
    Html(Seq<char>),
}

impl View for MdAction {
    type V = SpecMdAction;

    open spec fn view(&self) -> SpecMdAction {
        match self {
            MdAction::Keep(i) => SpecMdAction::Keep(*i as nat),
            MdAction::Html(s) => SpecMdAction::Html(s@),
        }
    }
}

pub open spec fn pre_open() -> Seq<char> {
    seq!['<', 'p', 'r', 'e', ' ', 'c', 'l', 'a', 's', 's', '=', '"', 'm', 'e', 'r', 'm', 'a', 'i', 'd', '"', '>']
}

pub open spec fn pre_close() -> Seq<char> {
    seq!['<', '/', 'p', 'r', 'e', '>']
}

/// Whether the rewrite is inside a mermaid block, the text of that block so far, and the
/// rewritten stream so far.
pub type MermaidState = (bool, Seq<char>, Seq<SpecMdAction>);

/// How the event of index `i` changes the rewrite: a mermaid fence opens a block (and is
/// dropped), text inside it is collected (and dropped), the end of the block emits the
/// collected text escaped inside `<pre class="mermaid">`; any other event is kept.
pub open spec fn mermaid_step(st: MermaidState, i: nat, e: SpecMdEvent) -> MermaidState {
    let (inside, buffer, out) = st;
    match e {
        SpecMdEvent::FencedStart(lang) if lang == "mermaid"@ => (true, seq![], out),
        SpecMdEvent::CodeBlockEnd if inside => (
            false,
            buffer,
            out.push(SpecMdAction::Html(pre_open() + escape_all(buffer) + pre_close())),
        ),
        SpecMdEvent::Text(t) if inside => (inside, buffer + t, out),
        _ => (inside, buffer, out.push(SpecMdAction::Keep(i))),
    }
}

pub open spec fn mermaid_state(events: Seq<SpecMdEvent>) -> MermaidState
    decreases events.len(),
{
    if events.len() == 0 {
        (false, seq![], seq![])
    } else {
        mermaid_step(mermaid_state(events.drop_last()), (events.len() - 1) as nat, events.last())
    }
}

/// The rewritten event stream for `events`, as `mermaid_step` says.
pub fn plan_mermaid_rewrite(events: &Vec<MdEvent>) -> (r: Vec<MdAction>)
    ensures
        seq_view(r@) == mermaid_state(seq_view(events@)).2,
        forall|j: int| 0 <= j < r@.len() ==> (#[trigger] r@[j] matches MdAction::Keep(x) ==> x < events@.len()),
{
    let mut out: Vec<MdAction> = Vec::new();
    let mut inside = false;
    let mut buffer: Vec<char> = Vec::new();
    let mut i: usize = 0;
    while i < events.len()
        invariant
            i <= events.len(),
            mermaid_state(seq_view(events@).take(i as int)) == (inside, buffer@, seq_view(out@)),
            forall|j: int| 0 <= j < out@.len() ==> (#[trigger] out@[j] matches MdAction::Keep(x) ==> x < i),
        decreases events.len() - i,
    {
        assert(seq_view(events@).take(i + 1).drop_last() =~= seq_view(events@).take(i as int));
        assert(seq_view(events@).take(i + 1).last() == events@[i as int]@);
        let mut keep = true;
        match &events[i] {
            MdEvent::FencedStart(lang) => {
                let l = chars_of(lang.as_str());
                let m = chars_of("mermaid");
                if crate::text::eq_chars(l.as_slice(), m.as_slice()) {
                    inside = true;
                    buffer = Vec::new();
                    keep = false;
                }
            },
            MdEvent::CodeBlockEnd => {
                if inside {
                    inside = false;
                    let mut html: Vec<char> = Vec::new();
                    extend_chars(&mut html, &['<', 'p', 'r', 'e', ' ', 'c', 'l', 'a', 's', 's', '=', '"', 'm', 'e', 'r', 'm', 'a', 'i', 'd', '"', '>']);
                    let escaped = escape_html_chars(&buffer);
                    extend_chars(&mut html, escaped.as_slice());
                    extend_chars(&mut html, &['<', '/', 'p', 'r', 'e', '>']);
                    let a = MdAction::Html(string_of(&html));
                    proof {
                        lemma_seq_view_push(out@, a);
                    }
                    out.push(a);
                    keep = false;
                }
            },
            MdEvent::Text(t) => {
                if inside {
                    let tv = chars_of(t.as_str());
                    extend_chars(&mut buffer, tv.as_slice());
                    keep = false;
                }
            },
            MdEvent::Other => {},
        }
        if keep {
            let a = MdAction::Keep(i);
            proof {
                lemma_seq_view_push(out@, a);
            }
            out.push(a);
        }
        i += 1;
    }
    assert(seq_view(events@).take(events@.len() as int) =~= seq_view(events@));
    out
}

/// `v` with `&`, `<` and `>` escaped for HTML.
fn escape_html_chars(v: &Vec<char>) -> (r: Vec<char>)
    ensures
        r@ == escape_all(v@),
{
    let mut out: Vec<char> = Vec::new();
    let mut i: usize = 0;
    while i < v.len()
        invariant
            i <= v.len(),
            out@ == escape_all(v@.take(i as int)),
        decreases v.len() - i,
    {
        assert(v@.take(i + 1).drop_last() =~= v@.take(i as int));
        escape_html_char(v[i], &mut out);
        i += 1;
    }
    assert(v@.take(v@.len() as int) =~= v@);
    out
}

/// The events of `pulldown_cmark::Parser::new` for a Markdown text, each classified as
/// `markdown_kinds` says.
pub uninterp spec fn md_kinds(markdown: Seq<char>) -> Seq<SpecMdEvent>;

/// The HTML that `pulldown_cmark::html::push_html` writes for the event stream made from the
/// events of `Parser::new` on a Markdown text by a rewrite plan: each `Keep(i)` the `i`-th
/// event, each `Html(h)` a raw HTML event of `h`.
pub uninterp spec fn md_html(markdown: Seq<char>, plan: Seq<SpecMdAction>) -> Seq<char>;

/// The events of a Markdown text (`pulldown_cmark::Parser::new`), one for one, each as far
/// as the mermaid rewrite reads it: a fenced code block's start with its info string, a code
/// block's end, text, or any other event. The contract claims that the result depends on the
/// text alone, named `md_kinds`.
#[verifier::external_body]
fn markdown_kinds(markdown: &str) -> (r: Vec<MdEvent>)
    ensures
        seq_view(r@) == md_kinds(markdown@),
{
    Parser::new(markdown).map(|event| match event {
        Event::Start(Tag::CodeBlock(CodeBlockKind::Fenced(lang))) => MdEvent::FencedStart(lang.to_string()),
        Event::End(TagEnd::CodeBlock) => MdEvent::CodeBlockEnd,
        Event::Text(text) => MdEvent::Text(text.to_string()),
        _ => MdEvent::Other,
    }).collect()
}

/// The HTML (`pulldown_cmark::html::push_html`) of the events of `Parser::new` on `markdown`
/// rebuilt by `plan`: `Keep(i)` takes the `i`-th event (`Event::clone`), `Html(h)` gives
/// `Event::Html(h)`. The contract claims that the result depends on the text and the plan
/// alone, named `md_html`; every kept index is an event's, so no index is out of range.
#[verifier::external_body]
fn plan_html(markdown: &str, plan: &[MdAction]) -> (r: String)
    requires
        forall|j: int| 0 <= j < plan@.len() ==> (#[trigger] plan@[j] matches MdAction::Keep(x) ==> x < md_kinds(markdown@).len()),
    ensures
        r@ == md_html(markdown@, seq_view(plan@)),
{
    let events: Vec<Event> = Parser::new(markdown).collect();
    let stream = plan.iter().map(|action| match action {
        MdAction::Keep(i) => events[*i].clone(),
        MdAction::Html(h) => Event::Html(h.clone().into()),
    });
    let mut out = String::new();
    pulldown_cmark::html::push_html(&mut out, stream);
    out
}

/// Render a hand-written Markdown page to an HTML fragment (no `<html>`/`<body>` wrapper —
/// that's supplied by the page template): the HTML of the page's events with each
/// ` ```mermaid ` fence rewritten as `plan_mermaid_rewrite` says.
pub fn render_markdown(markdown: &str) -> (r: String)
    ensures
        r@ == md_html(markdown@, mermaid_state(md_kinds(markdown@)).2),
{
    let kinds = markdown_kinds(markdown);
    let plan = plan_mermaid_rewrite(&kinds);
    plan_html(markdown, plan.as_slice())
}

} // verus!
