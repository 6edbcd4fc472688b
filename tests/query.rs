use std::collections::HashMap;

use syntax_select::query::PickerQuery;

fn fields(q: &PickerQuery) -> HashMap<String, String> {
    q.inner
        .iter()
        .map(|f| (q.column_names[f.column].clone(), f.pattern.iter().collect::<String>()))
        .collect()
}

fn map(pairs: &[(&str, &str)]) -> HashMap<String, String> {
    pairs.iter().map(|&(k, v)| (k.to_string(), v.to_string())).collect()
}

#[test]
fn parse_query_test() {
    let mut query = PickerQuery::new(
        vec![
            "primary".to_string(),
            "field1".to_string(),
            "field2".to_string(),
            "another".to_string(),
            "anode".to_string(),
        ],
        0,
    );

    // Basic field splitting
    query.parse("hello world");
    assert_eq!(fields(&query), map(&[("primary", "hello world")]));
    query.parse("hello %field1:world %field2:!");
    assert_eq!(
        fields(&query),
        map(&[("primary", "hello"), ("field1", "world"), ("field2", "!")])
    );
    query.parse("%field1:abc %field2:def xyz");
    assert_eq!(
        fields(&query),
        map(&[("primary", "xyz"), ("field1", "abc"), ("field2", "def")])
    );

    // Trailing space is trimmed
    query.parse("hello ");
    assert_eq!(fields(&query), map(&[("primary", "hello")]));

    // Trailing fields are trimmed.
    query.parse("hello %foo");
    assert_eq!(fields(&query), map(&[("primary", "hello")]));

    // Quoting
    query.parse(r#"hello %field1:"a b c""#);
    assert_eq!(fields(&query), map(&[("primary", "hello"), ("field1", "a b c")]));

    // Escaping
    query.parse(r#"hello\ world"#);
    assert_eq!(fields(&query), map(&[("primary", r#"hello\ world"#)]));
    query.parse(r#"hello \%field1:world"#);
    assert_eq!(fields(&query), map(&[("primary", "hello %field1:world")]));
    query.parse(r#"hello %field1:"a\"b""#);
    assert_eq!(fields(&query), map(&[("primary", "hello"), ("field1", r#"a"b"#)]));
    query.parse(r#"%field1:hello\ world"#);
    assert_eq!(fields(&query), map(&[("field1", r#"hello\ world"#)]));
    query.parse(r#"%field1:"hello\ world""#);
    assert_eq!(fields(&query), map(&[("field1", r#"hello\ world"#)]));
    query.parse(r#"\bfoo\b"#);
    assert_eq!(fields(&query), map(&[("primary", r#"\bfoo\b"#)]));
    query.parse(r#"\\n"#);
    assert_eq!(fields(&query), map(&[("primary", r#"\\n"#)]));

    // Prefix
    query.parse("hello %anot:abc");
    assert_eq!(fields(&query), map(&[("primary", "hello"), ("another", "abc")]));
    query.parse("hello %ano:abc");
    assert_eq!(fields(&query), map(&[("primary", "hello"), ("anode", "abc")]));
    query.parse("hello %field1:xyz %fie:abc");
    assert_eq!(fields(&query), map(&[("primary", "hello"), ("field1", "xyz abc")]));
    query.parse("hello %fie:abc");
    assert_eq!(fields(&query), map(&[("primary", "hello"), ("field1", "abc")]));
}

#[test]
fn parse_returns_previous_fields_and_get_reads_them() {
    let mut query = PickerQuery::new(vec!["name".to_string(), "path".to_string()], 0);
    let before = query.parse("foo %path:src");
    assert!(before.is_empty());
    assert_eq!(query.get("name").map(|p| p.iter().collect::<String>()), Some("foo".to_string()));
    assert_eq!(query.get("path").map(|p| p.iter().collect::<String>()), Some("src".to_string()));
    assert_eq!(query.get("other"), None);
    let previous = query.parse("bar");
    assert_eq!(previous.len(), 2);
    assert_eq!(query.get("path"), None);
}

#[test]
fn unknown_column_goes_to_primary() {
    let mut query = PickerQuery::new(vec!["name".to_string(), "path".to_string()], 0);
    query.parse("%zzz:abc");
    assert_eq!(query.get("name").map(|p| p.iter().collect::<String>()), Some("abc".to_string()));
}
