use parsercomb::element::Element;
use parsercomb::text::{continues_ident, split_first, split_ident, strip_prefix, utf8_width};

#[test]
fn utf8_width_of_each_size() {
    assert_eq!(utf8_width('a'), 1);
    assert_eq!(utf8_width('\u{7f}'), 1);
    assert_eq!(utf8_width('\u{80}'), 2);
    assert_eq!(utf8_width('\u{e9}'), 2);
    assert_eq!(utf8_width('\u{7ff}'), 2);
    assert_eq!(utf8_width('\u{800}'), 3);
    assert_eq!(utf8_width('\u{20ac}'), 3);
    assert_eq!(utf8_width('\u{ffff}'), 3);
    assert_eq!(utf8_width('\u{10000}'), 4);
    assert_eq!(utf8_width('\u{1F601}'), 4);
    assert_eq!(utf8_width('\u{10ffff}'), 4);
}

#[test]
fn utf8_width_agrees_with_the_encoding() {
    for c in ['\0', 'z', '\u{df}', '\u{d7ff}', '\u{e000}', '\u{1F601}'] {
        assert_eq!(utf8_width(c), c.to_string().len());
    }
}

#[test]
fn strip_prefix_takes_the_prefix_off() {
    assert_eq!(strip_prefix("<demo-id>", "<"), Some("demo-id>"));
    assert_eq!(strip_prefix("abc", "abc"), Some(""));
    assert_eq!(strip_prefix("abc", ""), Some("abc"));
    assert_eq!(strip_prefix("\u{1F601} smile", "\u{1F601}"), Some(" smile"));
}

#[test]
fn strip_prefix_refuses_anything_else() {
    assert_eq!(strip_prefix("abc", "abd"), None);
    assert_eq!(strip_prefix("ab", "abc"), None);
    assert_eq!(strip_prefix("", "a"), None);
    assert_eq!(strip_prefix("\u{ea}", "\u{e9}"), None);
    assert_eq!(strip_prefix("Abc", "abc"), None);
}

#[test]
fn split_first_takes_one_character() {
    assert_eq!(split_first("abc"), Some(('a', "bc")));
    assert_eq!(split_first("\u{1F601} smile"), Some(('\u{1F601}', " smile")));
    assert_eq!(split_first("\u{e9}"), Some(('\u{e9}', "")));
    assert_eq!(split_first(""), None);
}

#[test]
fn split_ident_cuts_after_the_identifier() {
    assert_eq!(split_ident("demo-id>"), Some(("demo-id", ">")));
    assert_eq!(split_ident("a"), Some(("a", "")));
    assert_eq!(split_ident("a1"), Some(("a", "1")));
    assert_eq!(split_ident("\u{e9}-\u{e9} x"), Some(("\u{e9}-\u{e9}", " x")));
    assert_eq!(split_ident(""), None);
    assert_eq!(split_ident("-a"), None);
    assert_eq!(split_ident("1a"), None);
}

#[test]
fn continues_ident_takes_letters_and_hyphens() {
    assert!(continues_ident('a', true));
    assert!(continues_ident('-', false));
    assert!(!continues_ident('1', false));
    assert!(!continues_ident('_', false));
    assert!(continues_ident('-', '-'.is_alphabetic()));
    assert!(!continues_ident('1', '1'.is_alphabetic()));
}

#[test]
fn element_keeps_document_order() {
    let child = Element {
        name: String::from("child"),
        attributes: vec![],
        children: vec![],
    };
    let element = Element {
        name: String::from("parent"),
        attributes: vec![
            (String::from("b"), String::from("1")),
            (String::from("a"), String::from("2")),
            (String::from("b"), String::from("3")),
        ],
        children: vec![child],
    };
    assert_eq!(element.attributes[0].0, "b");
    assert_eq!(element.attributes[2], (String::from("b"), String::from("3")));
    assert_eq!(element.children[0].name, "child");
    assert_eq!(element, element);
}

#[test]
fn element_clone_is_the_same_tree() {
    let leaf = Element {
        name: String::from("leaf"),
        attributes: vec![(String::from("k"), String::from("v"))],
        children: vec![],
    };
    let root = Element {
        name: String::from("root"),
        attributes: vec![
            (String::from("id"), String::from("1")),
            (String::from("id"), String::from("2")),
        ],
        children: vec![
            leaf.clone(),
            Element {
                name: String::from("branch"),
                attributes: vec![],
                children: vec![leaf],
            },
        ],
    };
    let copy = root.clone();
    assert_eq!(copy, root);
    assert_eq!(copy.children[1].children[0].attributes[0].1, "v");
    assert_eq!(copy.attributes.len(), 2);
}
