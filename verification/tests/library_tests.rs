use txt_to_xml_parser::grammar::{lookup_spec, root_spec};
use txt_to_xml_parser::{parse, Node, ParseError, Spec, Tree, TreeBuilder};

fn render(input: &str) -> (String, Vec<(usize, String)>) {
    let (tree, report) = parse(input);
    let issues = report
        .issues
        .iter()
        .map(|e| (e.line_no, e.message.clone()))
        .collect();
    (tree.render(), issues)
}

#[test]
fn single_person() {
    let (xml, issues) = render("P|Alice|Smith\n");
    assert!(issues.is_empty());
    assert_eq!(
        xml,
        "<people>\n  <person>\n    <firstname>Alice</firstname>\n    <lastname>Smith</lastname>\n  </person>\n</people>\n"
    );
}

#[test]
fn person_with_family() {
    let input = "P|Alice|Smith\nF|Kid|2010\nT|1|2\nA|s|c|z\n";
    let (xml, issues) = render(input);
    assert!(issues.is_empty());
    assert_eq!(
        xml,
        "<people>\n  <person>\n    <firstname>Alice</firstname>\n    <lastname>Smith</lastname>\n    <family>\n      <name>Kid</name>\n      <born>2010</born>\n      <phone>\n        <mobile>1</mobile>\n        <landline>2</landline>\n      </phone>\n      <address>\n        <street>s</street>\n        <city>c</city>\n        <zip>z</zip>\n      </address>\n    </family>\n  </person>\n</people>\n"
    );
}

#[test]
fn multi_person() {
    let (xml, issues) = render("P|A|B\nT|1|2\nP|C|D\nA|s|c|z\n");
    assert!(issues.is_empty());
    let second = xml.find("<firstname>C</firstname>").unwrap();
    assert!(xml[second..].contains("<street>s</street>"));
    assert!(xml[..second].contains("<mobile>1</mobile>"));
    assert_eq!(xml.matches("<person>").count(), 2);
}

#[test]
fn empty_fields_render_as_empty_elements() {
    let (xml, issues) = render("P|A|B\nT||08-1234\n");
    assert!(issues.is_empty());
    assert!(xml.contains("<mobile></mobile>"));
    assert!(xml.contains("<landline>08-1234</landline>"));
}

#[test]
fn empty_input_gives_empty_root() {
    let (xml, issues) = render("");
    assert!(issues.is_empty());
    assert_eq!(xml, "<people/>\n");
}

#[test]
fn whitespace_only_input_gives_empty_root() {
    let (xml, issues) = render("   \n\t\n\u{3000}\r\n\n");
    assert!(issues.is_empty());
    assert_eq!(xml, "<people/>\n");
}

#[test]
fn crlf_endings_are_handled() {
    let (xml, issues) = render("P|Alice|Smith\r\nT|1|2\r\n");
    assert!(issues.is_empty());
    assert!(xml.contains("<lastname>Smith</lastname>"));
    assert!(xml.contains("<landline>2</landline>"));
}

#[test]
fn bare_carriage_return_at_end_of_text_is_kept() {
    let (xml, _issues) = render("P|Alice|Smith\r");
    assert!(xml.contains("<lastname>Smith\r</lastname>"));
}

#[test]
fn xml_specials_are_escaped() {
    let (xml, issues) = render("P|A&B|<C>\n");
    assert!(issues.is_empty());
    assert!(xml.contains("<firstname>A&amp;B</firstname>"));
    assert!(xml.contains("<lastname>&lt;C&gt;</lastname>"));
}

#[test]
fn repeated_records_render_in_document_order() {
    let (xml, issues) = render("P|A|B\nT|1|x\nA|s1|c|z\nT|2|y\nA|s2|c|z\n");
    assert!(issues.is_empty());
    let t1 = xml.find("<mobile>1</mobile>").unwrap();
    let a1 = xml.find("<street>s1</street>").unwrap();
    let t2 = xml.find("<mobile>2</mobile>").unwrap();
    let a2 = xml.find("<street>s2</street>").unwrap();
    assert!(t1 < a1 && a1 < t2 && t2 < a2);
}

#[test]
fn mobile_only_phone_has_no_landline() {
    let (xml, issues) = render("P|A|B\nT|0700-123456\n");
    assert!(issues.is_empty());
    assert!(xml.contains("<phone>\n      <mobile>0700-123456</mobile>\n    </phone>\n"));
    assert!(!xml.contains("landline"));
}

#[test]
fn family_before_person_is_reported() {
    let (xml, issues) = render("F|Kid|2010\n");
    assert_eq!(
        issues,
        vec![(
            1,
            "F cannot be attached here (no enclosing container accepts it)".to_string()
        )]
    );
    assert_eq!(xml, "<people/>\n");
}

#[test]
fn unknown_tag_is_reported_with_quoted_tag() {
    let (_xml, issues) = render("P|A|B\nX|unknown|tag\n");
    assert_eq!(issues, vec![(2, "unknown tag \"X\"".to_string())]);
}

#[test]
fn unknown_tag_quotes_are_escaped() {
    let (_xml, issues) = render("a\"b|x\n");
    assert_eq!(issues, vec![(1, "unknown tag \"a\\\"b\"".to_string())]);
}

#[test]
fn empty_tag_is_unknown() {
    let (_xml, issues) = render("|x|y\n");
    assert_eq!(issues, vec![(1, "unknown tag \"\"".to_string())]);
}

#[test]
fn too_few_fields_are_padded_and_reported() {
    let (xml, issues) = render("P|OnlyOne\n");
    assert_eq!(issues, vec![(1, "P expects 2 fields, got 1".to_string())]);
    assert!(xml.contains("<firstname>OnlyOne</firstname>"));
    assert!(xml.contains("<lastname></lastname>"));
}

#[test]
fn too_many_fields_are_dropped_and_reported() {
    let (xml, issues) = render("P|A|B|C|D|E|F|G|H|I|J|K|L\n");
    assert_eq!(issues, vec![(1, "P expects 2 fields, got 12".to_string())]);
    assert!(xml.contains("<lastname>B</lastname>"));
    assert!(!xml.contains(">C<"));
}

#[test]
fn optional_field_range_is_reported() {
    let (xml, issues) = render("P|A|B\nT|1|2|3\n");
    assert_eq!(issues, vec![(2, "T expects 1..=2 fields, got 3".to_string())]);
    assert!(xml.contains("<landline>2</landline>"));
}

#[test]
fn row_without_pipe_is_malformed() {
    let (_xml, issues) = render("P|A|B\nnot a row\n");
    assert_eq!(issues, vec![(2, "malformed row".to_string())]);
}

#[test]
fn bad_row_gives_one_issue() {
    let (xml, issues) = render("T|a|b|c\n");
    assert_eq!(
        issues,
        vec![(
            1,
            "T cannot be attached here (no enclosing container accepts it)".to_string()
        )]
    );
    assert_eq!(xml, "<people/>\n");
    let (tree, report) = parse("T|a|b|c");
    assert_eq!(report.issues.len(), 1);
    assert_eq!(report.issues[0].line_no, 1);
    assert_eq!(tree.nodes.len(), 1);
}

#[test]
fn issue_text_names_message_line_and_context() {
    let (_tree, report) = parse("P|A|B\nA|1600 Pennsylvania Avenue|Washington, D.C\n");
    assert_eq!(
        report.issues[0].to_string(),
        "A expects 3 fields, got 2\nline 2: A|1600 Pennsylvania Avenue|Washington, D.C\n"
    );
    assert_eq!(
        report.issues[0].line_context,
        "A|1600 Pennsylvania Avenue|Washington, D.C"
    );
}

#[test]
fn parse_error_new_keeps_its_parts() {
    let e = ParseError::new(7, "ctx", "msg");
    assert_eq!(e.line_no, 7);
    assert_eq!(e.line_context, "ctx");
    assert_eq!(e.message, "msg");
    assert_eq!(e.to_string(), "msg\nline 7: ctx\n");
}

#[test]
fn spec_methods() {
    let person = Spec {
        tag_in: "P",
        tag_out: "person",
        field_names: &["firstname", "lastname"],
        min_fields: 2,
        allowed_children: &["T", "A", "F"],
    };
    let phone = Spec {
        tag_in: "T",
        tag_out: "phone",
        field_names: &["mobile", "landline"],
        min_fields: 1,
        allowed_children: &[],
    };
    assert!(person.is_container());
    assert!(!phone.is_container());
    assert!(person.accepts("F"));
    assert!(person.accepts("T"));
    assert!(!person.accepts("P"));
    assert!(!person.accepts(""));
    assert!(!phone.accepts("T"));
}

#[test]
fn builder_fed_line_by_line_matches_parse() {
    let input = "P|Alice|Smith\nF|Kid|2010\nT|1|2\n";
    let mut b = TreeBuilder::new();
    for (i, line) in input.lines().enumerate() {
        b.ingest_line(line, i + 1);
    }
    let (tree, report) = b.finish();
    let (tree2, report2) = parse(input);
    assert_eq!(tree.render(), tree2.render());
    assert_eq!(report.issues, report2.issues);
}

#[test]
fn default_builder_is_empty_root() {
    let b = TreeBuilder::default();
    let (tree, report) = b.finish();
    assert_eq!(tree.render(), "<people/>\n");
    assert!(report.issues.is_empty());
    assert_eq!(tree.nodes.len(), 1);
    assert_eq!(tree.nodes[0].tag, "people");
}

// Law: a blank line changes nothing.
#[test]
fn blank_line_changes_nothing() {
    let mut b = TreeBuilder::new();
    b.ingest_line("P|A|B", 1);
    b.ingest_line(" \t ", 2);
    b.ingest_line("T|1|2", 3);
    let (tree, report) = b.finish();
    assert!(report.issues.is_empty());
    assert!(tree.render().contains("<mobile>1</mobile>"));
}

// Law: a rejected row leaves the tree and the open containers as they were.
#[test]
fn rejected_row_changes_only_the_issues() {
    let (with_bad, issues) = render("P|A|B\nF|K|1\nA|x\nnope\nQ|1\n\nT|9|8\n");
    let (without_bad, _) = render("P|A|B\nF|K|1\nA|x\nT|9|8\n");
    assert_eq!(with_bad, without_bad);
    assert_eq!(issues.len(), 3);
}

// Law: issues come in the order of their lines, each within the text.
#[test]
fn issues_are_ordered_by_line() {
    let (_xml, issues) = render("x\nT|1\nP|1\n\nX|a\nP|a|b|c\n");
    let lines: Vec<usize> = issues.iter().map(|(l, _)| *l).collect();
    assert_eq!(lines, vec![1, 2, 3, 5, 6]);
}

// Law: every kept row has a number of fields that its type allows.
#[test]
fn kept_rows_have_allowed_field_counts() {
    let (tree, _report) = parse("P\nP|a|b|c\nA|x\n");
    for node in &tree.nodes {
        if let Some(spec) = node.spec {
            if !spec.tag_in.is_empty() {
                let fields = node
                    .children
                    .iter()
                    .filter(|&&c| tree.nodes[c].text.is_some())
                    .count();
                assert!(fields >= spec.min_fields);
                assert!(fields <= spec.field_names.len());
            }
        }
    }
}

// Law: child indices point forward, so every tree that `parse` builds renders.
#[test]
fn parsed_tree_children_point_forward() {
    let (tree, _report) = parse("P|a|b\nF|c|d\nT|1|2\nP|e|f\nA|g|h|i\n");
    for (i, node) in tree.nodes.iter().enumerate() {
        for &c in &node.children {
            assert!(i < c && c < tree.nodes.len());
        }
    }
}

// Law: escaped text holds no markup and reads back as the original text.
#[test]
fn escaped_text_holds_no_markup() {
    let (xml, _) = render("P|a<b>&c|&amp;\n");
    assert!(xml.contains("<firstname>a&lt;b&gt;&amp;c</firstname>"));
    assert!(xml.contains("<lastname>&amp;amp;</lastname>"));
}

// Law: a row that attaches adds its element and its fields, and changes no
// earlier node but the parent, which gains it as its last child.
#[test]
fn attaching_appends_to_the_parent() {
    let (tree, _report) = parse("P|a|b\nT|1|2\n");
    assert_eq!(tree.nodes.len(), 7);
    assert_eq!(tree.nodes[0].children, vec![1]);
    assert_eq!(tree.nodes[1].children, vec![2, 3, 4]);
    assert_eq!(tree.nodes[4].children, vec![5, 6]);
    assert_eq!(tree.nodes[5].text.as_deref(), Some("1"));
}

#[test]
fn hand_built_tree_renders() {
    let tree = Tree {
        nodes: vec![
            Node {
                tag: "root",
                text: None,
                children: vec![2, 1],
                spec: None,
            },
            Node {
                tag: "b",
                text: Some("x > y".to_string()),
                children: vec![],
                spec: None,
            },
            Node {
                tag: "a",
                text: None,
                children: vec![],
                spec: None,
            },
        ],
    };
    assert_eq!(
        tree.render(),
        "<root>\n  <a/>\n  <b>x &gt; y</b>\n</root>\n"
    );
}

#[test]
fn escape_replaces_markup_characters() {
    assert_eq!(
        txt_to_xml_parser::tree::escape_xml_text("a&b<c>d\"e'"),
        "a&amp;b&lt;c&gt;d\"e'"
    );
    assert_eq!(txt_to_xml_parser::tree::escape_xml_text(""), "");
}

#[test]
fn lookup_finds_only_row_types() {
    assert_eq!(lookup_spec("A").unwrap().tag_out, "address");
    assert_eq!(lookup_spec("T").unwrap().min_fields, 1);
    assert!(lookup_spec("").is_none());
    assert!(lookup_spec("p").is_none());
    assert_eq!(root_spec().tag_out, "people");
}

// Law: writing line breaks as "\r\n" gives the same tree and issues.
#[test]
fn crlf_and_lf_give_the_same_result() {
    let lf = "P|Alice|Smith\nT|1|2\nX|y\nA|s|c\n";
    let crlf = lf.replace('\n', "\r\n");
    let (xml_lf, issues_lf) = render(lf);
    let (xml_crlf, issues_crlf) = render(&crlf);
    assert_eq!(xml_lf, xml_crlf);
    assert_eq!(issues_lf, issues_crlf);
}

// Law: the tree has one parent per node, increasing children lists,
// accepted nesting, and text exactly on the leaves that are fields.
#[test]
fn parsed_tree_has_its_shape() {
    let (tree, _report) = parse("P|a|b\nF|c|d\nT|1|2\nA|x|y|z\nP|e|f\nT|3\n");
    let n = tree.nodes.len();
    assert_eq!(tree.nodes[0].tag, "people");
    let mut parents = vec![0usize; n];
    for (i, node) in tree.nodes.iter().enumerate() {
        for w in node.children.windows(2) {
            assert!(w[0] < w[1]);
        }
        for &c in &node.children {
            parents[c] += 1;
            if let (Some(p), Some(q)) = (node.spec, tree.nodes[c].spec) {
                assert!(p.accepts(q.tag_in));
            }
            assert!(i < c);
        }
        assert_eq!(node.text.is_some(), node.spec.is_none());
        if node.text.is_some() {
            assert!(node.children.is_empty());
        }
    }
    assert_eq!(parents[0], 0);
    assert!(parents[1..].iter().all(|&k| k == 1));
}

// Law: the open containers form the path to the row opened last, so a phone
// goes to the family opened last, and a person closes every family.
#[test]
fn open_containers_follow_the_last_row() {
    let (xml, issues) = render("P|a|b\nF|c|d\nF|e|f\nT|1|2\nP|g|h\nT|3|4\n");
    assert!(issues.is_empty());
    let second_family = xml.find("<name>e</name>").unwrap();
    let second_person = xml.find("<firstname>g</firstname>").unwrap();
    let phone1 = xml.find("<mobile>1</mobile>").unwrap();
    let phone3 = xml.find("<mobile>3</mobile>").unwrap();
    assert!(second_family < phone1 && phone1 < second_person && second_person < phone3);
    assert_eq!(xml.matches("</family>").count(), 2);
}

// Law: every `&` in escaped text begins an entity.
#[test]
fn ampersands_begin_entities() {
    let out = txt_to_xml_parser::tree::escape_xml_text("a&&b&lt;<&");
    assert_eq!(out, "a&amp;&amp;b&amp;lt;&lt;&amp;");
    for (i, _) in out.match_indices('&') {
        let rest = &out[i..];
        assert!(rest.starts_with("&amp;") || rest.starts_with("&lt;") || rest.starts_with("&gt;"));
    }
}

#[test]
fn text_node_children_are_not_rendered() {
    let tree = Tree {
        nodes: vec![Node {
            tag: "a",
            text: Some(String::new()),
            children: vec![7],
            spec: None,
        }],
    };
    assert_eq!(tree.render(), "<a></a>\n");
}
