use termleaf::model::{BlockKind, InlineKind};
use termleaf::xhtml::{
    convert_events, convert_xhtml, convert_xhtml_with_limits, tag_of, HtmlEvent, HtmlNode, SemanticBlock, Tag,
    XhtmlBoundsError, MAX_XHTML_NODES,
};

fn texts(blocks: &[SemanticBlock]) -> Vec<&str> {
    blocks.iter().map(|block| block.text.as_str()).collect()
}

fn plain(kind: BlockKind, text: &str) -> SemanticBlock {
    SemanticBlock { kind, text: text.to_owned(), inline: Vec::new(), cells: Vec::new() }
}

#[test]
fn epub_011_headings_paragraphs_and_breaks_convert_with_entities_decoded() {
    let source = r"<html><head><title>t</title></head><body>
            <h1>Chapter One</h1>
            <p>First &amp; foremost.</p>
            <p>line one<br/>line two</p>
            <h2>Section</h2>
            <p>tail</p>
        </body></html>";
    let blocks = convert_xhtml(source).expect("within node budget");

    assert_eq!(
        blocks,
        [
            plain(BlockKind::Heading { level: 1 }, "Chapter One"),
            plain(BlockKind::Paragraph, "First & foremost."),
            plain(BlockKind::Paragraph, "line one\nline two"),
            plain(BlockKind::Heading { level: 2 }, "Section"),
            plain(BlockKind::Paragraph, "tail"),
        ]
    );
}

#[test]
fn epub_011_inline_roles_map_emphasis_strong_code_and_links() {
    let source = r#"<body>
            <p>plain <em>tilted</em> and <strong>heavy</strong> plus
               <code>let x = 1;</code> and a <a href="chapter.xhtml#note">link text</a>.</p>
        </body>"#;
    let blocks = convert_xhtml(source).expect("within node budget");
    assert_eq!(blocks.len(), 1);
    let block = &blocks[0];
    assert_eq!(block.text, "plain tilted and heavy plus let x = 1; and a link text.");

    let expected = [
        ("plain ", None),
        ("tilted", Some(InlineKind::Emphasis)),
        (" and ", None),
        ("heavy", Some(InlineKind::Strong)),
        (" plus ", None),
        ("let x = 1;", Some(InlineKind::Code)),
        (" and a ", None),
        ("link text", Some(InlineKind::Link)),
        (".", None),
    ];
    for (fragment, kind) in expected {
        let position = block.text.find(fragment).expect("fragment present");
        let covered = block.inline.iter().any(|run| {
            run.range.start >= position
                && run.range.start + fragment.len() <= position + fragment.len()
                && run.kind == kind.unwrap_or(InlineKind::Emphasis)
                && kind.is_some()
        });
        if kind.is_some() {
            assert!(covered, "'{fragment}' carries {kind:?}");
        } else {
            let undecorated = block
                .inline
                .iter()
                .all(|run| run.range.end <= position || run.range.start >= position + fragment.len());
            assert!(undecorated, "'{fragment}' stays plain");
        }
    }
}

#[test]
fn epub_011_lists_quotes_code_separators_convert_with_structure() {
    let source = r"<body>
            <h1>Garden</h1>
            <ul><li>roses</li><li>ferns<ol><li>first</li></ol></li></ul>
            <blockquote>spoken softly here</blockquote>
            <pre>fn keep() {
    return 1;
}</pre>
            <hr/>
            <p>after the rule</p>
        </body>";
    let blocks = convert_xhtml(source).expect("within node budget");

    let kinds: Vec<BlockKind> = blocks.iter().map(|block| block.kind).collect();
    assert_eq!(
        kinds,
        [
            BlockKind::Heading { level: 1 },
            BlockKind::ListItem { depth: 0, ordered: false },
            BlockKind::ListItem { depth: 0, ordered: false },
            BlockKind::ListItem { depth: 1, ordered: true },
            BlockKind::Quote,
            BlockKind::CodeBlock,
            BlockKind::Separator,
            BlockKind::Paragraph,
        ]
    );
    assert_eq!(blocks[1].text, "roses");
    assert_eq!(blocks[2].text, "ferns", "nested list text stays out of item");
    assert_eq!(blocks[3].text, "first");
    assert_eq!(blocks[4].text, "spoken softly here");
    assert_eq!(blocks[5].text, "fn keep() {\n    return 1;\n}", "code preserves indentation and newlines");
    assert_eq!(blocks[6].text, "* * *");
}

#[test]
fn epub_011_tables_keep_every_cell_in_order_with_ranges() {
    let source = r"<body><table>
            <tr><th>Tree</th><th>Age</th></tr>
            <tr><td>Oak</td><td>300 years</td></tr>
        </table></body>";
    let blocks = convert_xhtml(source).expect("within node budget");
    assert_eq!(blocks.len(), 1);
    let table = &blocks[0];
    assert_eq!(table.kind, BlockKind::Table);
    assert_eq!(table.text, "Tree | Age\nOak | 300 years");

    let extracted: Vec<&str> = table.cells.iter().map(|range| &table.text[range.clone()]).collect();
    assert_eq!(extracted, ["Tree", "Age", "Oak", "300 years"]);
}

#[test]
fn epub_005_malformed_but_recoverable_xhtml_stays_readable() {
    let source = "<body><p>Unclosed paragraph\n   with   odd\tspacing<p>next \
                  <b>bold<i>nested</b> italic</i></p> \
                  <p>&unknownentity &#xZZ; stays literal-safe</p>";
    let blocks = convert_xhtml(source).expect("within node budget");

    assert_eq!(
        texts(&blocks),
        ["Unclosed paragraph with odd spacing", "next boldnested italic", "&unknownentity &#xZZ; stays literal-safe"]
    );
    assert!(blocks.iter().all(|block| block.kind == BlockKind::Paragraph));
}

#[test]
fn epub_009_scripts_and_styles_never_contribute_text() {
    let source = "<body><script>alert('x')</script><style>p{color:red}</style>\
                  <p>visible</p></body>";
    assert_eq!(texts(&convert_xhtml(source).expect("within node budget")), ["visible"]);
}

#[test]
fn epub_005_hostile_nesting_depth_stays_bounded_without_panic() {
    let deep = format!("{}<p>bottom</p>{}", "<div>".repeat(4_000), "</div>".repeat(4_000));
    let blocks = convert_xhtml(&deep).expect("within node budget");
    assert!(blocks.is_empty(), "{:?}", texts(&blocks));

    let shallow = format!("{}<p>kept</p>{}", "<div>".repeat(8), "</div>".repeat(8));
    assert_eq!(texts(&convert_xhtml(&shallow).expect("within node budget")), ["kept"]);
}

#[test]
fn sec_009_node_budget_rejects_before_parser_allocation_exactly_at_the_boundary() {
    let at_limit = "<".repeat(MAX_XHTML_NODES);
    convert_xhtml(&at_limit).expect("exactly the node budget still converts");

    let over = "<".repeat(MAX_XHTML_NODES + 1);
    assert_eq!(
        convert_xhtml(&over),
        Err(XhtmlBoundsError::TooManyNodes { nodes: MAX_XHTML_NODES + 1, limit: MAX_XHTML_NODES })
    );
}

#[test]
fn sec_009_injected_limits_stop_hostile_chapters_before_any_tree_allocation() {
    let hostile = "<p>".repeat(50);
    assert_eq!(convert_xhtml_with_limits(&hostile, 49), Err(XhtmlBoundsError::TooManyNodes { nodes: 50, limit: 49 }));

    let blocks = convert_xhtml_with_limits("<p>kept</p>", 2).expect("at budget");
    assert_eq!(texts(&blocks), ["kept"]);

    assert_eq!(MAX_XHTML_NODES, 1_000_000);
}

#[test]
fn epub_011_xhtml_semantics_flow_through_layout() {
    let source = "<body><ul><li>one</li><li>two</li></ul>\
                  <pre>a  b\n   c</pre><hr/><table><tr><td>P</td><td>Q</td></tr></table></body>";
    let blocks = convert_xhtml(source)
        .expect("within budget")
        .into_iter()
        .map(|block| (block.kind, block.text))
        .collect::<Vec<_>>();

    assert_eq!(
        blocks,
        [
            (BlockKind::ListItem { depth: 0, ordered: false }, "one".to_owned()),
            (BlockKind::ListItem { depth: 0, ordered: false }, "two".to_owned()),
            (BlockKind::CodeBlock, "a  b\n   c".to_owned()),
            (BlockKind::Separator, "* * *".to_owned()),
            (BlockKind::Table, "P | Q".to_owned()),
        ]
    );
}

fn open(name: &str) -> HtmlEvent {
    HtmlEvent::Open(HtmlNode::Element(name.to_owned()))
}

fn text(t: &str) -> Vec<HtmlEvent> {
    vec![HtmlEvent::Open(HtmlNode::Text(t.to_owned())), HtmlEvent::Close]
}

#[test]
fn a_walk_of_a_paragraph_with_emphasis_yields_one_decorated_block() {
    let mut events = vec![HtmlEvent::Open(HtmlNode::Other), open("p")];
    events.extend(text("  a  "));
    events.push(open("em"));
    events.extend(text("b é"));
    events.push(HtmlEvent::Close);
    events.push(HtmlEvent::Close);
    events.push(HtmlEvent::Close);
    let blocks = convert_events(&events);
    assert_eq!(blocks.len(), 1);
    assert_eq!(blocks[0].kind, BlockKind::Paragraph);
    assert_eq!(blocks[0].text, "a b é");
    // The collapsed space between "a" and "b" keeps the role of the text it
    // came from; "é" spans two bytes.
    assert_eq!(blocks[0].inline.len(), 1);
    assert_eq!(blocks[0].inline[0].range, 2..6);
    assert_eq!(blocks[0].inline[0].kind, InlineKind::Emphasis);
}

#[test]
fn empty_tables_and_blank_paragraphs_vanish() {
    let events = vec![
        HtmlEvent::Open(HtmlNode::Other),
        open("table"),
        HtmlEvent::Close,
        open("p"),
        HtmlEvent::Open(HtmlNode::Text("   ".to_owned())),
        HtmlEvent::Close,
        HtmlEvent::Close,
        HtmlEvent::Close,
    ];
    assert!(convert_events(&events).is_empty());
    assert!(convert_events(&Vec::new()).is_empty());
}

#[test]
fn nested_lists_saturate_nowhere_near_and_deepen_by_one() {
    let source = "<ul><li>a<ul><li>b<ol><li>c</li></ol></li></ul></li></ul>";
    let blocks = convert_xhtml(source).expect("within budget");
    let kinds: Vec<BlockKind> = blocks.iter().map(|block| block.kind).collect();
    assert_eq!(
        kinds,
        [
            BlockKind::ListItem { depth: 0, ordered: false },
            BlockKind::ListItem { depth: 1, ordered: false },
            BlockKind::ListItem { depth: 2, ordered: true },
        ]
    );
    assert_eq!(texts(&blocks), ["a", "b", "c"]);
}

#[test]
fn element_names_map_to_their_roles() {
    assert_eq!(tag_of(&"h3".to_owned()), Tag::Heading(3));
    assert_eq!(tag_of(&"kbd".to_owned()), Tag::Inline(InlineKind::Code));
    assert_eq!(tag_of(&"b".to_owned()), Tag::Inline(InlineKind::Strong));
    assert_eq!(tag_of(&"cite".to_owned()), Tag::Inline(InlineKind::Emphasis));
    assert_eq!(tag_of(&"a".to_owned()), Tag::Inline(InlineKind::Link));
    assert_eq!(tag_of(&"div".to_owned()), Tag::Other);
}

#[test]
fn the_rejection_names_the_count_and_the_limit() {
    let e = XhtmlBoundsError::TooManyNodes { nodes: 50, limit: 49 };
    assert_eq!(
        e.message(),
        "chapter declares about 50 markup nodes beyond the 49 node limit; the chapter may be corrupt or hostile"
    );
}

#[test]
fn line_breaks_split_collapsed_segments_and_drop_empty_ones() {
    let blocks = convert_xhtml("<p><br/>one<br/><br/>  two  </p>").expect("within budget");
    assert_eq!(texts(&blocks), ["one\ntwo"]);
}
