use elvis::parser::{plain, tag};
use elvis::text::chars_of;
use elvis::tree::{AttrMap, ParseError, Tree};

fn cv(s: &str) -> Vec<char> {
    s.chars().collect()
}

fn attrs_of(pairs: &[(&str, &str)]) -> AttrMap {
    let mut m = AttrMap::new();
    for (k, v) in pairs {
        m.insert(cv(k), cv(v));
    }
    m
}

fn plain_leaf(text: &str) -> Tree {
    plain(cv(text))
}

#[test]
fn round_trip_shape() {
    let t = Tree::de("<a x=\"1\"><b>hi</b></a>").unwrap();
    let expected = Tree {
        tag: cv("a"),
        attrs: attrs_of(&[("x", "1")]),
        children: vec![Tree {
            tag: cv("b"),
            attrs: AttrMap::new(),
            children: vec![plain_leaf("hi")],
        }],
    };
    assert_eq!(t, expected);
}

#[test]
fn empty_input_yields_default_tree() {
    let t = Tree::de("").unwrap();
    assert_eq!(t, Tree::default());
    let (t2, ext) = Tree::rde(&cv(""), 0).unwrap();
    assert_eq!(t2, Tree::default());
    assert!(ext.is_none());
}

#[test]
fn plain_only_input_yields_text_leaf() {
    let t = Tree::de("just text").unwrap();
    assert_eq!(t, plain_leaf("just text"));
    let (t2, ext) = Tree::rde(&cv("just text"), 0).unwrap();
    assert_eq!(t2, plain_leaf("just text"));
    assert!(ext.is_none());
}

#[test]
fn mismatched_close_tag_fails_naming_both() {
    let err = Tree::de("<a><b></a></b>").unwrap_err();
    match err {
        ParseError::MismatchedCloseTag { expected, found, .. } => {
            assert_eq!(expected, cv("b"));
            assert_eq!(found, cv("a"));
        }
        other => panic!("wrong error: {:?}", other),
    }
}

#[test]
fn attribute_parsing_is_whitespace_tolerant() {
    let h = cv("<a  x = \"1\"  y=\"2\" >");
    let (name, attrs, pos) = tag(&h, 0).unwrap();
    assert_eq!(name, cv("a"));
    assert_eq!(attrs.get(&cv("x")).unwrap(), &cv("1"));
    assert_eq!(attrs.get(&cv("y")).unwrap(), &cv("2"));
    assert_eq!(attrs.len(), 2);
    assert_eq!(pos, h.len());
}

#[test]
fn whitespace_tolerant_attributes_in_full_parse() {
    let t = Tree::de("<a  x = \"1\"  y=\"2\" >hi</a>").unwrap();
    assert_eq!(t.tag, cv("a"));
    assert_eq!(t.attrs, attrs_of(&[("x", "1"), ("y", "2")]));
    assert_eq!(t.children, vec![plain_leaf("hi")]);
}

#[test]
fn nested_siblings() {
    let t = Tree::de("<ul><li>one</li><li>two</li> </ul>").unwrap();
    assert_eq!(t.tag, cv("ul"));
    assert_eq!(t.children.len(), 2);
    assert_eq!(t.children[0].children, vec![plain_leaf("one")]);
    assert_eq!(t.children[1].children, vec![plain_leaf("two")]);
}

#[test]
fn malformed_tag_on_misplaced_equals() {
    let err = Tree::de("<=a></=a>").unwrap_err();
    match err {
        ParseError::MalformedTag { found, .. } => assert_eq!(found, Some('=')),
        other => panic!("wrong error: {:?}", other),
    }
}

#[test]
fn malformed_tag_on_unclosed_tag() {
    let err = Tree::de("<a </").unwrap_err();
    match err {
        ParseError::MalformedTag { found, .. } => assert_eq!(found, None),
        other => panic!("wrong error: {:?}", other),
    }
}

#[test]
fn unexpected_close_marker() {
    let err = Tree::de("<a>/x</a>").unwrap_err();
    match err {
        ParseError::UnexpectedCloseMarker { .. } => {}
        other => panic!("wrong error: {:?}", other),
    }
}

#[test]
fn attr_map_insert_replaces_and_get_finds() {
    let mut m = AttrMap::new();
    assert_eq!(m.len(), 0);
    m.insert(cv("k"), cv("a"));
    m.insert(cv("k"), cv("b"));
    m.insert(cv("x"), cv("y"));
    assert_eq!(m.len(), 2);
    assert_eq!(m.get(&cv("k")).unwrap(), &cv("b"));
    assert_eq!(m.get(&cv("x")).unwrap(), &cv("y"));
    assert!(m.get(&cv("missing")).is_none());
}

#[test]
fn plain_leaf_shape() {
    let t = plain_leaf("  spaced  ");
    assert_eq!(t.tag, cv("plain"));
    assert_eq!(t.attrs.get(&cv("text")).unwrap(), &cv("  spaced  "));
    assert!(t.children.is_empty());
}

#[test]
fn chars_of_round_trip() {
    assert_eq!(chars_of("héllo"), "héllo".chars().collect::<Vec<char>>());
    assert_eq!(chars_of(""), Vec::<char>::new());
}

#[test]
fn deeply_nested_elements() {
    let t = Tree::de("<a><b><c>x</c></b></a>").unwrap();
    let expected = Tree {
        tag: cv("a"),
        attrs: AttrMap::new(),
        children: vec![Tree {
            tag: cv("b"),
            attrs: AttrMap::new(),
            children: vec![Tree {
                tag: cv("c"),
                attrs: AttrMap::new(),
                children: vec![plain_leaf("x")],
            }],
        }],
    };
    assert_eq!(t, expected);
}

#[test]
fn continuation_signal_reports_unconsumed_tail() {
    let h = cv("<a></a> tail");
    let (t, ext) = Tree::rde(&h, 0).unwrap();
    assert_eq!(t.tag, cv("a"));
    assert!(t.children.is_empty());
    let e = ext.unwrap();
    assert!(!e.end);
    assert_eq!(e.pos, 6);
    assert_eq!(e.tag, cv("a"));
}

#[test]
fn close_tag_name_is_trimmed() {
    let t = Tree::de("<a>x</ a >").unwrap();
    assert_eq!(t.tag, cv("a"));
    assert_eq!(t.children, vec![plain_leaf("x")]);
}

#[test]
fn empty_tag_name_closes_against_empty_close() {
    let t = Tree::de("<>hi</>").unwrap();
    assert_eq!(t.tag, cv(""));
    assert_eq!(t.children, vec![plain_leaf("hi")]);
}

#[test]
fn camel_snake_replaces_uppercase_with_underscores() {
    assert_eq!(elvis::text::camel_snake("FontWeight"), cv("_ont_eight"));
    assert_eq!(elvis::text::camel_snake("wrap"), cv("wrap"));
    assert_eq!(elvis::text::camel_snake(""), Vec::<char>::new());
}

#[test]
fn nested_element_reaching_end_of_input_is_rescanned_and_mismatches() {
    let err = Tree::de("<a><b>x</b>").unwrap_err();
    match err {
        ParseError::MismatchedCloseTag { expected, found, .. } => {
            assert_eq!(expected, cv("a"));
            assert_eq!(found, cv("b"));
        }
        other => panic!("wrong error: {:?}", other),
    }
}

#[test]
fn trailing_space_lets_an_unclosed_outer_tag_parse() {
    let t = Tree::de("<a><b>x</b> ").unwrap();
    assert_eq!(t.tag, cv("a"));
    assert_eq!(t.children.len(), 1);
    assert_eq!(t.children[0].tag, cv("b"));
    assert_eq!(t.children[0].children, vec![plain_leaf("x")]);
}

#[test]
fn repeated_attribute_keeps_the_last_value() {
    let t = Tree::de("<a x=\"1\" x=\"2\">ok</a>").unwrap();
    assert_eq!(t.attrs.len(), 1);
    assert_eq!(t.attrs.get(&cv("x")).unwrap(), &cv("2"));
}

#[test]
fn image_src_exposes_its_bytes() {
    let src = elvis::style::ImageSrc(b"logo.png".to_vec());
    assert_eq!(src.as_bytes(), b"logo.png");
}
