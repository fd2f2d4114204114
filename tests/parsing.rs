use htmldom::{
    parse_html, Either, HtmlDom, HtmlDomElement, HtmlParser, NodeKind, Token, Tokenizer,
};

fn chars(s: &str) -> Vec<char> {
    s.chars().collect()
}

fn parsed(s: &str) -> HtmlDom {
    match parse_html(s) {
        Either::Right(dom) => dom,
        Either::Left(_) => panic!("parse failed"),
    }
}

fn name_of(dom: &HtmlDom, id: usize) -> String {
    dom.name(id).unwrap().iter().collect()
}

fn text_of(dom: &HtmlDom, id: usize) -> String {
    dom.get(id).unwrap().data.data.iter().collect()
}

#[test]
fn nested_tags_build_nested_elements() {
    let dom = parsed("<a><b></b></a>");
    let root = dom.root();
    assert_eq!(dom.children(root).unwrap().clone(), vec![1]);
    assert_eq!(name_of(&dom, 1), "a");
    assert_eq!(dom.children(1).unwrap().clone(), vec![2]);
    assert_eq!(name_of(&dom, 2), "b");
    assert!(dom.children(2).unwrap().is_empty());
    assert_eq!(dom.parent(2), Ok(1));
    assert_eq!(dom.parent(1), Ok(0));
}

#[test]
fn mismatched_end_tag_is_tolerated() {
    let dom = parsed("<a><b></a>");
    assert_eq!(dom.children(0).unwrap().clone(), vec![1]);
    assert_eq!(name_of(&dom, 1), "a");
    assert_eq!(dom.children(1).unwrap().clone(), vec![2]);
    assert_eq!(name_of(&dom, 2), "b");
    assert!(dom.children(2).unwrap().is_empty());
}

#[test]
fn unmatched_end_tag_is_ignored() {
    let dom = parsed("<a></c>x</a>");
    assert_eq!(dom.children(0).unwrap().clone(), vec![1]);
    assert_eq!(dom.children(1).unwrap().clone(), vec![2]);
    assert_eq!(text_of(&dom, 2), "x");
}

#[test]
fn script_content_is_raw_text() {
    let dom = parsed("<script><b></script>");
    assert_eq!(dom.children(0).unwrap().clone(), vec![1]);
    assert_eq!(name_of(&dom, 1), "script");
    assert_eq!(dom.children(1).unwrap().clone(), vec![2]);
    assert_eq!(dom.get(2).unwrap().data.kind, NodeKind::Text);
    assert_eq!(text_of(&dom, 2), "<b>");
    assert_eq!(dom.len(), 3);
}

#[test]
fn characters_merge_into_one_text_node() {
    let dom = parsed("<p>hello <i>big</i> world</p>");
    let p = dom.children(0).unwrap()[0];
    let kids = dom.children(p).unwrap().clone();
    assert_eq!(kids.len(), 3);
    assert_eq!(text_of(&dom, kids[0]), "hello ");
    assert_eq!(name_of(&dom, kids[1]), "i");
    assert_eq!(text_of(&dom, kids[2]), " world");
}

#[test]
fn comment_becomes_comment_node() {
    let dom = parsed("<a><!-- note --></a>");
    let c = dom.children(1).unwrap()[0];
    assert_eq!(dom.get(c).unwrap().data.kind, NodeKind::Comment);
    assert_eq!(text_of(&dom, c), " note ");
    assert!(dom.children(c).unwrap().is_empty());
}

#[test]
fn class_and_id_attributes_are_read() {
    let dom = parsed("<div class=\"x  y\" id='main' data-k=v>t</div>");
    let classes: Vec<String> = dom
        .classes(1)
        .unwrap()
        .iter()
        .map(|c| c.0.iter().collect())
        .collect();
    assert_eq!(classes, vec!["x".to_string(), "y".to_string()]);
    let id: String = dom.id_attr(1).unwrap().iter().collect();
    assert_eq!(id, "main");
    let attrs = &dom.get(1).unwrap().data.attributes;
    assert_eq!(attrs.len(), 1);
    assert_eq!(attrs[0].name.iter().collect::<String>(), "data-k");
    assert_eq!(attrs[0].value.iter().collect::<String>(), "v");
}

#[test]
fn tag_names_are_lowered() {
    let dom = parsed("<DIV><Span></SPAN></div>");
    assert_eq!(name_of(&dom, 1), "div");
    assert_eq!(name_of(&dom, 2), "span");
    assert_eq!(dom.children(1).unwrap().clone(), vec![2]);
}

#[test]
fn lone_angle_bracket_is_text() {
    let dom = parsed("a < b");
    assert_eq!(dom.children(0).unwrap().clone(), vec![1]);
    assert_eq!(text_of(&dom, 1), "a < b");
}

#[test]
fn empty_input_gives_bare_root() {
    let dom = parsed("");
    assert_eq!(dom.len(), 1);
    assert!(dom.children(0).unwrap().is_empty());
}

#[test]
fn unterminated_tag_does_not_fail() {
    let dom = parsed("<a class=\"x");
    assert_eq!(name_of(&dom, 1), "a");
}

#[test]
fn every_parsed_child_is_listed_once() {
    let dom = parsed("<a><b>x</b><c><d></d></c><!--z-->y</a><e>");
    for id in 1..dom.len() {
        if dom.is_live(id) {
            let p = dom.parent(id).unwrap();
            let n = dom.children(p).unwrap().iter().filter(|&&c| c == id).count();
            assert_eq!(n, 1);
        }
    }
}

#[test]
fn script_start_pauses_until_resumed() {
    let mut parser = HtmlParser::with_input(chars("<script>x</script><p>"));
    parser.run();
    assert!(parser.is_paused());
    assert_eq!(parser.script_nesting_level(), 1);
    assert_eq!(parser.document().len(), 2);
    parser.resume();
    parser.run();
    assert!(parser.is_finished());
    assert_eq!(parser.script_nesting_level(), 0);
    let dom = parser.document();
    assert_eq!(dom.children(0).unwrap().len(), 2);
    assert_eq!(text_of(dom, 2), "x");
}

#[test]
fn tokenizer_reads_each_kind() {
    let mut t = Tokenizer::new(chars("<a href=x/>t</a><!--c-->"));
    match t.next_token() {
        Token::StartTag { name, attributes, self_closing } => {
            assert_eq!(name, vec!['a']);
            assert_eq!(attributes.len(), 1);
            assert_eq!(attributes[0].value, vec!['x', '/']);
            assert!(!self_closing);
        }
        other => panic!("unexpected {:?}", other),
    }
    assert!(matches!(t.next_token(), Token::Character { c: 't' }));
    assert!(matches!(t.next_token(), Token::EndTag { .. }));
    match t.next_token() {
        Token::Comment { data } => assert_eq!(data, vec!['c']),
        other => panic!("unexpected {:?}", other),
    }
    assert!(matches!(t.next_token(), Token::EndOfStream));
    assert!(matches!(t.next_token(), Token::EndOfStream));
}

#[test]
fn self_closing_tag_is_flagged() {
    let mut t = Tokenizer::new(chars("<br/>"));
    match t.next_token() {
        Token::StartTag { self_closing, .. } => assert!(self_closing),
        other => panic!("unexpected {:?}", other),
    }
    assert_eq!(t.position(), 5);
}

#[test]
fn raw_text_mode_ends_at_its_end_tag() {
    let mut t = Tokenizer::new(chars("<i></STYLE >"));
    t.set_raw_text(vec!['s', 't', 'y', 'l', 'e']);
    assert!(matches!(t.next_token(), Token::Character { c: '<' }));
    assert!(matches!(t.next_token(), Token::Character { c: 'i' }));
    assert!(matches!(t.next_token(), Token::Character { c: '>' }));
    match t.next_token() {
        Token::EndTag { name } => assert_eq!(name, chars("style")),
        other => panic!("unexpected {:?}", other),
    }
    assert!(!t.in_raw_text());
    assert!(matches!(t.next_token(), Token::EndOfStream));
}

#[test]
fn node_read_access_through_element_interface() {
    let dom = parsed("<ul id=list class=menu><li></li><li></li></ul>");
    let ul = dom.get(1).unwrap();
    assert_eq!(HtmlDomElement::name(ul).clone(), chars("ul"));
    assert_eq!(HtmlDomElement::id(ul).clone(), chars("list"));
    assert_eq!(HtmlDomElement::classes(ul)[0].0, chars("menu"));
    assert_eq!(HtmlDomElement::children(ul).clone(), vec![2, 3]);
    assert_eq!(HtmlDomElement::parent(ul), 0);
}

#[test]
fn repeated_class_tokens_are_kept_once() {
    let dom = parsed("<a class=\"x y x\" id=\"q\" class='y z'></a>");
    let classes: Vec<String> = dom
        .classes(1)
        .unwrap()
        .iter()
        .map(|c| c.0.iter().collect())
        .collect();
    assert_eq!(classes, vec!["x".to_string(), "y".to_string(), "z".to_string()]);
    assert_eq!(dom.id_attr(1).unwrap().clone(), chars("q"));
}

#[test]
fn title_content_is_raw_text() {
    let dom = parsed("<title><i>x</i></title>");
    assert_eq!(dom.children(0).unwrap().clone(), vec![1]);
    assert_eq!(name_of(&dom, 1), "title");
    assert_eq!(dom.children(1).unwrap().clone(), vec![2]);
    let t = dom.get(2).unwrap();
    assert_eq!(t.data.kind, NodeKind::Text);
    assert!(t.data.name.is_empty());
    assert!(t.data.classes.is_empty());
    assert!(t.data.id.is_empty());
    assert!(t.data.attributes.is_empty());
    assert_eq!(text_of(&dom, 2), "<i>x</i>");
    assert_eq!(dom.len(), 3);
}

#[test]
fn stray_script_end_tag_leaves_state_clean() {
    let mut parser = HtmlParser::new();
    match parser.parse("</script>") {
        Either::Right(dom) => assert!(dom.children(0).unwrap().is_empty()),
        Either::Left(_) => panic!("parse failed"),
    }
    assert_eq!(parser.script_nesting_level(), 0);
    assert!(!parser.is_paused());
    assert!(parser.is_finished());
}

#[test]
fn two_parses_of_one_input_agree() {
    let s = "<div class=a><script>x<y</script><p id=k>t<!--c--></p></div>";
    let a = format!("{:?}", parsed(s));
    let _ = parsed("<other>");
    let b = format!("{:?}", parsed(s));
    assert_eq!(a, b);
}

#[test]
fn run_on_a_paused_parser_changes_nothing() {
    let mut parser = HtmlParser::with_input(chars("<script>x</script>"));
    parser.run();
    assert!(parser.is_paused());
    let before = format!("{:?}", parser.document());
    parser.run();
    assert!(parser.is_paused());
    assert_eq!(format!("{:?}", parser.document()), before);
}
