use mwkb::parser::Doc;
use mwkb::parser::InlineNode;
use mwkb::parser::MarkupNode;
use mwkb::parser::convert_batch;

fn text(s: &str) -> MarkupNode {
    MarkupNode::Text(s.to_string())
}

fn link(target: &str, display: &[&str]) -> MarkupNode {
    MarkupNode::Link {
        target: target.to_string(),
        display: display.iter().map(|s| InlineNode::Text(s.to_string())).collect(),
    }
}

fn heading(titles: &[&str]) -> MarkupNode {
    MarkupNode::Heading(titles.iter().map(|s| InlineNode::Text(s.to_string())).collect())
}

#[test]
fn ore_scenario_nodes() {
    // Text, then a link displaying "Stone", then a final period.
    let nodes = vec![
        text("Ores are found. "),
        link("stone", &["Stone"]),
        text("."),
    ];
    let doc = Doc::from_nodes(&nodes).unwrap();
    assert_eq!(doc.text, "Ores are found. Stone.");
    assert_eq!(doc.entities.len(), 1);
    let e = &doc.entities[0];
    assert_eq!(e.start, 16);
    assert_eq!(e.end, 21);
    assert_eq!(e.repr, "Stone");
    assert_eq!(e.target, "stone");
}

#[test]
fn references_heading_first() {
    // A denylisted heading as the very first node yields an empty document.
    let nodes = vec![heading(&["References"]), text("never emitted")];
    let doc = Doc::from_nodes(&nodes).unwrap();
    assert_eq!(doc.text, "");
    assert!(doc.entities.is_empty());
}

#[test]
fn no_links_concatenation() {
    // Without links: all text values and one newline per break or plain
    // heading, in source order; no entities.
    let nodes = vec![
        text("alpha "),
        MarkupNode::ParagraphBreak,
        text("beta"),
        heading(&["Usage"]),
        MarkupNode::Other,
        text("gamma"),
    ];
    let doc = Doc::from_nodes(&nodes).unwrap();
    assert_eq!(doc.text, "alpha \nbeta\ngamma");
    assert!(doc.entities.is_empty());
}

#[test]
fn every_denylisted_title_stops() {
    for title in ["References", "History", "Video", "Gallery"] {
        let nodes = vec![
            text("kept"),
            heading(&[title]),
            text("cut"),
            heading(&["Usage"]),
            link("t", &["cut too"]),
        ];
        let doc = Doc::from_nodes(&nodes).unwrap();
        assert_eq!(doc.text, "kept");
        assert!(doc.entities.is_empty());
    }
}

#[test]
fn later_nonmatching_headings_after_stop() {
    // Nothing after the first stopping heading is processed, not even later
    // harmless headings.
    let nodes = vec![
        text("a"),
        heading(&["History"]),
        heading(&["Usage"]),
        text("b"),
    ];
    let doc = Doc::from_nodes(&nodes).unwrap();
    assert_eq!(doc.text, "a");
    assert!(doc.entities.is_empty());
}

#[test]
fn usage_heading_is_one_newline() {
    // A heading that misses the denylist contributes exactly one newline and
    // does not stop the walk.
    let nodes = vec![text("a"), heading(&["Usage"]), text("b")];
    let doc = Doc::from_nodes(&nodes).unwrap();
    assert_eq!(doc.text, "a\nb");
}

#[test]
fn gate_reads_only_first_text_value() {
    // A heading stops the walk only on its leading text fragment: when that
    // fragment misses the denylist, later fragments cannot stop it.
    let nodes = vec![text("a"), heading(&["Usage", "References"]), text("b")];
    let doc = Doc::from_nodes(&nodes).unwrap();
    assert_eq!(doc.text, "a\nb");
    // When the leading fragment is denylisted, what follows cannot save it.
    let nodes = vec![text("a"), heading(&["References", "Usage"]), text("b")];
    let doc = Doc::from_nodes(&nodes).unwrap();
    assert_eq!(doc.text, "a");
}

#[test]
fn empty_heading_never_stops() {
    let nodes = vec![text("a"), MarkupNode::Heading(vec![]), text("b")];
    let doc = Doc::from_nodes(&nodes).unwrap();
    assert_eq!(doc.text, "a\nb");
    let nodes = vec![text("a"), MarkupNode::Heading(vec![InlineNode::Other]), text("b")];
    let doc = Doc::from_nodes(&nodes).unwrap();
    assert_eq!(doc.text, "a\nb");
}

#[test]
fn entity_ranges_reproduce_reprs() {
    // The round trip: text[start..end] equals repr, byte for byte, for every
    // entity; starts are non-decreasing, in source order.
    let nodes = vec![
        text("x"),
        link("first", &["ab", "cd"]),
        MarkupNode::ParagraphBreak,
        link("second", &["ef"]),
        text("tail"),
    ];
    let doc = Doc::from_nodes(&nodes).unwrap();
    assert_eq!(doc.text, "xabcd\neftail");
    assert_eq!(doc.entities.len(), 2);
    let mut prev_start = 0u32;
    for e in &doc.entities {
        let bytes = doc.text.as_bytes();
        assert_eq!(&bytes[e.start as usize..e.end as usize], e.repr.as_bytes());
        assert!(prev_start <= e.start);
        prev_start = e.start;
    }
    assert_eq!(doc.entities[0].repr, "abcd");
    assert_eq!(doc.entities[0].target, "first");
    assert_eq!(doc.entities[1].repr, "ef");
    assert_eq!(doc.entities[1].target, "second");
}

#[test]
fn offsets_count_utf8_bytes() {
    // Offsets are byte offsets of the UTF-8 encoding, not character counts:
    // "\u{e9}" is two bytes, each of the two kanji three.
    let nodes = vec![
        text("\u{e9}\u{9271}"),
        link("ore", &["\u{77f3}x"]),
    ];
    let doc = Doc::from_nodes(&nodes).unwrap();
    assert_eq!(doc.text, "\u{e9}\u{9271}\u{77f3}x");
    let e = &doc.entities[0];
    assert_eq!(e.start, 5);
    assert_eq!(e.end, 9);
    assert_eq!(&doc.text[5..9], "\u{77f3}x");
    assert_eq!(e.repr, "\u{77f3}x");
}

#[test]
fn link_display_flattens_direct_text_only() {
    // Only the direct Text children of a link's display tree contribute.
    let display = vec![
        InlineNode::Text("Sto".to_string()),
        InlineNode::Other,
        InlineNode::Text("ne".to_string()),
    ];
    let nodes = vec![MarkupNode::Link { target: "stone".to_string(), display }];
    let doc = Doc::from_nodes(&nodes).unwrap();
    assert_eq!(doc.text, "Stone");
    assert_eq!(doc.entities[0].repr, "Stone");
    assert_eq!(doc.entities[0].start, 0);
    assert_eq!(doc.entities[0].end, 5);
}

#[test]
fn empty_node_list_is_empty_doc() {
    let doc = Doc::from_nodes(&vec![]).unwrap();
    assert_eq!(doc.text, "");
    assert!(doc.entities.is_empty());
}

#[test]
fn link_with_empty_display_is_empty_span() {
    // A link whose display tree holds no text still emits its span: an empty
    // range at the current offset.
    let nodes = vec![text("ab"), link("target", &[])];
    let doc = Doc::from_nodes(&nodes).unwrap();
    assert_eq!(doc.text, "ab");
    assert_eq!(doc.entities.len(), 1);
    let e = &doc.entities[0];
    assert_eq!(e.start, 2);
    assert_eq!(e.end, 2);
    assert_eq!(e.repr, "");
    assert_eq!(e.target, "target");
}

#[test]
fn batch_outcomes_are_independent() {
    // Each document of a batch is converted on its own: the batch outcomes
    // equal the per-document outcomes, position by position.
    let docs = vec![
        vec![text("plain prose")],
        vec![text("with a "), link("stone", &["Stone"]), text(" link")],
        vec![],
    ];
    let batch = convert_batch(&docs);
    assert_eq!(batch.len(), docs.len());
    for (doc_nodes, outcome) in docs.iter().zip(batch.iter()) {
        let single = Doc::from_nodes(doc_nodes).unwrap();
        let batched = outcome.as_ref().unwrap();
        assert_eq!(single.text, batched.text);
        assert_eq!(single.entities, batched.entities);
    }
}
