use mkcdoc::content::{escape_html, plan_mermaid_rewrite, render_markdown, MdAction, MdEvent};

#[test]
fn renders_mermaid_fence_as_pre_mermaid() {
    let html = render_markdown("```mermaid\ngraph TD;\n  A-->B;\n```");
    assert_eq!(
        html.trim(),
        "<pre class=\"mermaid\">graph TD;\n  A--&gt;B;\n</pre>"
    );
}

#[test]
fn other_fenced_languages_render_normally() {
    let html = render_markdown("```c\nint x = 1;\n```");
    assert!(html.contains("<pre><code class=\"language-c\">"));
}

#[test]
fn plain_markdown_passes_through_the_renderer() {
    let html = render_markdown("Some *emphasis* here.");
    assert_eq!(html.trim(), "<p>Some <em>emphasis</em> here.</p>");
}

#[test]
fn escape_html_escapes_the_three_special_characters() {
    assert_eq!(escape_html("a < b && c > d"), "a &lt; b &amp;&amp; c &gt; d");
    assert_eq!(escape_html("plain"), "plain");
    assert_eq!(escape_html(""), "");
}

#[test]
fn mermaid_plan_collects_text_and_keeps_other_events() {
    let events = vec![
        MdEvent::Other,
        MdEvent::FencedStart("mermaid".to_string()),
        MdEvent::Text("a<b".to_string()),
        MdEvent::Text("\n".to_string()),
        MdEvent::CodeBlockEnd,
        MdEvent::FencedStart("c".to_string()),
        MdEvent::Text("x".to_string()),
        MdEvent::CodeBlockEnd,
    ];
    let plan = plan_mermaid_rewrite(&events);
    assert_eq!(plan.len(), 5);
    assert!(matches!(plan[0], MdAction::Keep(0)));
    match &plan[1] {
        MdAction::Html(h) => assert_eq!(h, "<pre class=\"mermaid\">a&lt;b\n</pre>"),
        other => panic!("unexpected {:?}", other),
    }
    assert!(matches!(plan[2], MdAction::Keep(5)));
    assert!(matches!(plan[3], MdAction::Keep(6)));
    assert!(matches!(plan[4], MdAction::Keep(7)));
}
