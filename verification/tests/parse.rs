use config_tree::{OrderedMap, ParseError, Value};

fn text(s: &str) -> Value {
    Value::String(s.to_owned())
}

#[test]
fn parse_empty() {
    let actual = "";
    let expected = Value::Object(OrderedMap::new());
    assert_eq!(actual.parse::<Value>().unwrap(), expected);
}

#[test]
fn parse_empty2() {
    let actual = "\n";
    let expected = Value::Object(OrderedMap::new());
    assert_eq!(actual.parse::<Value>().unwrap(), expected);
}

#[test]
fn parse_empty3() {
    let actual = "\n\n\n\n\n";
    let expected = Value::Object(OrderedMap::new());
    assert_eq!(actual.parse::<Value>().unwrap(), expected);
}

#[test]
fn parse_key_and_empty_value() {
    let actual = "key\n";
    let mut internal = OrderedMap::new();
    internal.insert("key".to_owned(), Value::String("".to_owned()));
    let expected = Value::Object(internal);
    assert_eq!(actual.parse::<Value>().unwrap(), expected);
}

#[test]
fn parse_one_key_and_value() {
    let actual = "key\nvalue\nvalue";
    let mut internal = OrderedMap::new();
    internal.insert("key".to_owned(), Value::String("value\nvalue".to_owned()));
    let expected = Value::Object(internal);
    assert_eq!(actual.parse::<Value>().unwrap(), expected);
}

#[test]
fn parse_2config_key_and_value() {
    let actual = "key1\nvalue1\nvalue2\0";
    let mut internal = OrderedMap::new();
    internal.insert(
        "key1".to_owned(),
        Value::String("value1\nvalue2".to_owned()),
    );
    let expected = Value::Object(internal);
    assert_eq!(actual.parse::<Value>().unwrap(), expected);
}

#[test]
fn parse_2config_key_and_value3() {
    let actual = "key1\nvalue1\nvalue2\0key2\nvalue3";
    let mut internal = OrderedMap::new();
    internal.insert(
        "key1".to_owned(),
        Value::String("value1\nvalue2".to_owned()),
    );
    internal.insert("key2".to_owned(), Value::String("value3".to_owned()));
    let expected = Value::Object(internal);
    assert_eq!(actual.parse::<Value>().unwrap(), expected);
}

#[test]
fn parse_2keys_and_value1() {
    let actual = "key1.key2\nvalue1\nvalue2";
    let mut internal = OrderedMap::new();
    let mut internal2 = OrderedMap::new();
    internal2.insert(
        "key2".to_owned(),
        Value::String("value1\nvalue2".to_owned()),
    );
    internal.insert("key1".to_owned(), Value::Object(internal2));
    let expected = Value::Object(internal);
    assert_eq!(actual.parse::<Value>().unwrap(), expected);
}

#[test]
fn parse_key_and_value2() {
    let actual = "key1\nvalue1\nvalue2";
    let mut internal = OrderedMap::new();
    assert!(!internal.contains_key("key1"));
    let slot = internal.get_or_insert("key1".to_owned(), Value::String("value1\nvalue2".to_owned()));
    assert_eq!(*slot, Value::String("value1\nvalue2".to_owned()));
    let expected = Value::Object(internal);
    assert_eq!(actual.parse::<Value>().unwrap(), expected);
}

#[test]
fn parse_2keys_and_value2() {
    let actual = "key1.key2\nvalue1\nvalue2";
    let mut internal = OrderedMap::new();
    assert!(!internal.contains_key("key1"));
    let mut internal2 = OrderedMap::new();
    internal2.insert(
        "key2".to_owned(),
        Value::String("value1\nvalue2".to_owned()),
    );
    internal.get_or_insert("key1".to_owned(), Value::Object(internal2));
    let expected = Value::Object(internal);
    assert_eq!(actual.parse::<Value>().unwrap(), expected);
}

#[test]
fn parse_3keys_and_value1() {
    let actual = "key1.key2.key3\nvalue1\nvalue2";
    let mut internal = OrderedMap::new();
    let mut internal2 = OrderedMap::new();
    let mut internal3 = OrderedMap::new();
    internal3.insert(
        "key3".to_owned(),
        Value::String("value1\nvalue2".to_owned()),
    );
    internal2.insert("key2".to_owned(), Value::Object(internal3));
    internal.insert("key1".to_owned(), Value::Object(internal2));
    let expected = Value::Object(internal);
    assert_eq!(actual.parse::<Value>().unwrap(), expected);
}

#[test]
fn parse_3keys_and_value2() {
    let actual = "key1.key2.key3\nvalue1\nvalue2\0key1.key2.key4\nvalue3\nvalue4";
    let mut internal = OrderedMap::new();
    let mut internal2 = OrderedMap::new();
    let mut internal3 = OrderedMap::new();
    internal3.insert(
        "key3".to_owned(),
        Value::String("value1\nvalue2".to_owned()),
    );
    internal3.insert(
        "key4".to_owned(),
        Value::String("value3\nvalue4".to_owned()),
    );
    internal2.insert("key2".to_owned(), Value::Object(internal3));
    internal.insert("key1".to_owned(), Value::Object(internal2));
    let expected = Value::Object(internal);
    assert_eq!(actual.parse::<Value>().unwrap(), expected);
}

#[test]
fn parse_5keys_and_value2() {
    let actual = "key1.key2.key3.key4.key5\nvalue1
value2\0key1.key2.key3.key4.key6\nvalue3\nvalue4";
    let mut internal = OrderedMap::new();
    let mut internal2 = OrderedMap::new();
    let mut internal3 = OrderedMap::new();
    internal3.insert(
        "key5".to_owned(),
        Value::String("value1\nvalue2".to_owned()),
    );
    internal3.insert(
        "key6".to_owned(),
        Value::String("value3\nvalue4".to_owned()),
    );
    internal2.insert("key2.key3.key4".to_owned(), Value::Object(internal3));
    internal.insert("key1".to_owned(), Value::Object(internal2));
    let expected = Value::Object(internal);
    assert_eq!(actual.parse::<Value>().unwrap(), expected);
}

#[test]
fn record_without_newline_is_malformed() {
    assert_eq!(config_tree::parse("key"), Err(ParseError::MalformedInput));
    assert_eq!(config_tree::parse("section.key"), Err(ParseError::MalformedInput));
    assert_eq!(config_tree::parse(" "), Err(ParseError::MalformedInput));
    assert_eq!("key".parse::<Value>(), Err(ParseError::MalformedInput));
}

#[test]
fn later_record_without_newline_fails_the_whole_input() {
    assert_eq!(
        config_tree::parse("key1\nvalue1\nvalue2\0key2"),
        Err(ParseError::MalformedInput)
    );
    assert_eq!(config_tree::parse("a\nb\0c\0d\ne"), Err(ParseError::MalformedInput));
}

#[test]
fn separators_alone_give_the_empty_tree() {
    let empty = Value::Object(OrderedMap::new());
    assert_eq!(config_tree::parse("\0").unwrap(), empty);
    assert_eq!(config_tree::parse("\0\0\0").unwrap(), empty);
    assert_eq!(config_tree::parse("\n\0\n\n\0").unwrap(), empty);
    assert_eq!(config_tree::parse("\0\nignored value\0").unwrap(), empty);
}

#[test]
fn whitespace_before_the_newline_is_a_key() {
    let mut root = OrderedMap::new();
    root.insert(" ".to_owned(), text(""));
    assert_eq!(config_tree::parse(" \n").unwrap(), Value::Object(root));
}

#[test]
fn records_with_a_common_prefix_share_a_node() {
    let actual = "key1.key2.key3\nv1\0key1.key2.key4\nv2";
    let mut leaves = OrderedMap::new();
    leaves.insert("key3".to_owned(), text("v1"));
    leaves.insert("key4".to_owned(), text("v2"));
    let mut second = OrderedMap::new();
    second.insert("key2".to_owned(), Value::Object(leaves));
    let mut root = OrderedMap::new();
    root.insert("key1".to_owned(), Value::Object(second));
    assert_eq!(config_tree::parse(actual).unwrap(), Value::Object(root));
}

#[test]
fn middle_segments_become_one_dotted_key() {
    let actual = "key1.key2.key3.key4.key5\nv1\0key1.key2.key3.key4.key6\nv2";
    let mut leaves = OrderedMap::new();
    leaves.insert("key5".to_owned(), text("v1"));
    leaves.insert("key6".to_owned(), text("v2"));
    let mut second = OrderedMap::new();
    second.insert("key2.key3.key4".to_owned(), Value::Object(leaves));
    let mut root = OrderedMap::new();
    root.insert("key1".to_owned(), Value::Object(second));
    assert_eq!(config_tree::parse(actual).unwrap(), Value::Object(root));
}

#[test]
fn two_and_three_segments_meet_under_the_first() {
    let actual = "a.x\n1\0a.b.c\n2\0a.y\n3\0top\n4";
    let mut inner = OrderedMap::new();
    inner.insert("c".to_owned(), text("2"));
    let mut second = OrderedMap::new();
    second.insert("x".to_owned(), text("1"));
    second.insert("b".to_owned(), Value::Object(inner));
    second.insert("y".to_owned(), text("3"));
    let mut root = OrderedMap::new();
    root.insert("a".to_owned(), Value::Object(second));
    root.insert("top".to_owned(), text("4"));
    assert_eq!(config_tree::parse(actual).unwrap(), Value::Object(root));
}

#[test]
fn the_later_value_of_a_key_wins_and_keeps_its_place() {
    let parsed = config_tree::parse("a\n1\0b\n2\0a\n3").unwrap();
    let root = parsed.as_object().unwrap();
    assert_eq!(root.len(), 2);
    assert_eq!(root.get_index(0), Some((&"a".to_owned(), &text("3"))));
    assert_eq!(root.get_index(1), Some((&"b".to_owned(), &text("2"))));

    let parsed = config_tree::parse("s.k\nold\0s.k\nnew").unwrap();
    let section = parsed.as_object().unwrap().get("s").unwrap().as_object().unwrap();
    assert_eq!(section.len(), 1);
    assert_eq!(section.get("k"), Some(&text("new")));

    let parsed = config_tree::parse("s.m.k\nold\0s.m.k\nnew").unwrap();
    let section = parsed.as_object().unwrap().get("s").unwrap().as_object().unwrap();
    let inner = section.get("m").unwrap().as_object().unwrap();
    assert_eq!(inner.get("k"), Some(&text("new")));
}

#[test]
fn a_single_segment_replaces_a_whole_node() {
    let mut root = OrderedMap::new();
    root.insert("a".to_owned(), text("flat"));
    assert_eq!(config_tree::parse("a.b\nnested\0a\nflat").unwrap(), Value::Object(root));
}

#[test]
fn a_path_through_text_is_malformed() {
    assert_eq!(config_tree::parse("a\nx\0a.b\ny"), Err(ParseError::MalformedInput));
    assert_eq!(config_tree::parse("a\nx\0a.b.c\ny"), Err(ParseError::MalformedInput));
    assert_eq!(config_tree::parse("a.b\nx\0a.b.c\ny"), Err(ParseError::MalformedInput));
}

#[test]
fn a_key_path_of_dots_has_empty_segments() {
    let mut leaves = OrderedMap::new();
    leaves.insert("".to_owned(), text("v"));
    let mut second = OrderedMap::new();
    second.insert(".".to_owned(), Value::Object(leaves));
    let mut root = OrderedMap::new();
    root.insert("".to_owned(), Value::Object(second));
    assert_eq!(config_tree::parse("...\nv").unwrap(), Value::Object(root));

    let mut second = OrderedMap::new();
    second.insert("".to_owned(), text("v"));
    let mut root = OrderedMap::new();
    root.insert("".to_owned(), Value::Object(second));
    assert_eq!(config_tree::parse(".\nv").unwrap(), Value::Object(root));
}

#[test]
fn characters_beyond_ascii_are_kept() {
    let mut second = OrderedMap::new();
    second.insert("имя".to_owned(), text("значение\nещё"));
    let mut root = OrderedMap::new();
    root.insert("раздел".to_owned(), Value::Object(second));
    assert_eq!(
        config_tree::parse("раздел.имя\nзначение\nещё\0").unwrap(),
        Value::Object(root)
    );
}

#[test]
fn the_root_is_always_an_inner_node() {
    assert!(config_tree::parse("").unwrap().is_object());
    assert!(config_tree::parse("a\nb").unwrap().is_object());
    assert!(config_tree::parse("a.b.c.d\ne").unwrap().is_object());
}

#[test]
fn merge_record_changes_a_given_tree() {
    let mut root = OrderedMap::new();
    assert_eq!(config_tree::merge_record(&mut root, "user.name\nAda"), Ok(()));
    assert_eq!(config_tree::merge_record(&mut root, ""), Ok(()));
    assert_eq!(config_tree::merge_record(&mut root, "\nno key"), Ok(()));
    assert_eq!(config_tree::merge_record(&mut root, "user.email\nada@example.org"), Ok(()));
    let before = root.clone();
    assert_eq!(
        config_tree::merge_record(&mut root, "user"),
        Err(ParseError::MalformedInput)
    );
    assert_eq!(
        config_tree::merge_record(&mut root, "user.name.first\nAda"),
        Err(ParseError::MalformedInput)
    );
    assert_eq!(root, before);
    let user = root.get("user").unwrap().as_object().unwrap();
    assert_eq!(user.get("name"), Some(&text("Ada")));
    assert_eq!(user.get("email"), Some(&text("ada@example.org")));
    assert_eq!(root.len(), 1);
}

#[test]
fn merge_path_dispatches_on_the_number_of_segments() {
    let path = |parts: &[&str]| parts.iter().map(|p| p.to_string()).collect::<Vec<String>>();
    let mut root = OrderedMap::new();
    assert_eq!(
        config_tree::merge_path(&mut root, &path(&[]), "v"),
        Err(ParseError::MalformedInput)
    );
    assert!(root.is_empty());
    assert_eq!(config_tree::merge_path(&mut root, &path(&["one"]), "1"), Ok(()));
    assert_eq!(config_tree::merge_path(&mut root, &path(&["two", "x"]), "2"), Ok(()));
    assert_eq!(config_tree::merge_path(&mut root, &path(&["four", "a", "b", "x"]), "4"), Ok(()));
    assert_eq!(
        config_tree::merge_path(&mut root, &path(&["one", "x"]), "no"),
        Err(ParseError::MalformedInput)
    );
    assert_eq!(
        config_tree::parse("one\n1\0two.x\n2\0four.a.b.x\n4").unwrap(),
        Value::Object(root)
    );
}

#[test]
fn the_error_says_what_it_is() {
    let message = ParseError::MalformedInput.message();
    assert_eq!(
        message,
        "malformed input: a record needs a key path, a newline and a value"
    );
}
