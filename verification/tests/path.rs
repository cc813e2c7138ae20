use jsonl_peek::json::{parse, Value};
use jsonl_peek::path::{
    with_elements, with_member, FieldPath, PathError, PathErrorKind, Segment,
};

fn path(s: &str) -> FieldPath {
    FieldPath::parse(s).unwrap()
}

fn err(s: &str) -> PathError {
    FieldPath::parse(s).unwrap_err()
}

#[test]
fn parses_a_bare_key() {
    assert_eq!(path("role").segments(), &[Segment::Key("role".into())]);
}

#[test]
fn parses_a_dotted_key() {
    assert_eq!(
        path("meta.source").segments(),
        &[Segment::Key("meta".into()), Segment::Key("source".into())]
    );
}

#[test]
fn parses_an_index() {
    assert_eq!(
        path("messages[0].content").segments(),
        &[
            Segment::Key("messages".into()),
            Segment::Index(0),
            Segment::Key("content".into())
        ]
    );
}

#[test]
fn parses_a_negative_index() {
    assert_eq!(
        path("messages[-1].content").segments(),
        &[
            Segment::Key("messages".into()),
            Segment::Index(-1),
            Segment::Key("content".into())
        ]
    );
}

#[test]
fn parses_a_wildcard() {
    assert_eq!(
        path("messages[].role").segments(),
        &[Segment::Key("messages".into()), Segment::Wildcard, Segment::Key("role".into())]
    );
}

#[test]
fn parses_a_leading_index() {
    assert_eq!(
        path("[0].id").segments(),
        &[Segment::Index(0), Segment::Key("id".into())]
    );
}

#[test]
fn round_trips_through_display() {
    assert_eq!(path("messages[-1].content").to_string(), "messages[-1].content");
}

#[test]
fn rejects_the_empty_path() {
    assert_eq!(err("").kind, PathErrorKind::EmptyPath);
}

#[test]
fn rejects_empty_key_segments() {
    assert_eq!(err("a.").kind, PathErrorKind::EmptyKey);
    assert_eq!(err("a..b").kind, PathErrorKind::EmptyKey);
    assert_eq!(err(".a").kind, PathErrorKind::EmptyKey);
}

#[test]
fn rejects_broken_brackets() {
    assert_eq!(err("a[0").kind, PathErrorKind::UnterminatedIndex);
    assert_eq!(err("a[x]").kind, PathErrorKind::InvalidIndex);
    assert_eq!(err("a[-]").kind, PathErrorKind::InvalidIndex);
    assert_eq!(err("a]").kind, PathErrorKind::UnexpectedChar(']'));
}

fn doc(json: &str) -> Value {
    parse(json).unwrap()
}

#[test]
fn selects_a_top_level_key() {
    let v = doc(r#"{"role":"user"}"#);
    assert_eq!(path("role").select(&v), vec![&Value::Str("user".into())]);
}

#[test]
fn selects_a_nested_key() {
    let v = doc(r#"{"meta":{"source":"web"}}"#);
    assert_eq!(
        path("meta.source").select(&v),
        vec![&Value::Str("web".into())]
    );
}

#[test]
fn missing_keys_select_nothing() {
    let v = doc(r#"{"meta":{}}"#);
    assert!(path("meta.source").select(&v).is_empty());
    assert!(path("absent").select(&v).is_empty());
}

#[test]
fn selects_an_array_element_by_index() {
    let v = doc(r#"{"messages":[{"role":"user"},{"role":"assistant"}]}"#);
    assert_eq!(
        path("messages[0].role").select(&v),
        vec![&Value::Str("user".into())]
    );
    assert_eq!(
        path("messages[-1].role").select(&v),
        vec![&Value::Str("assistant".into())]
    );
}

#[test]
fn out_of_range_indices_select_nothing() {
    let v = doc(r#"{"messages":[{"role":"user"}]}"#);
    assert!(path("messages[5].role").select(&v).is_empty());
    assert!(path("messages[-5].role").select(&v).is_empty());
}

#[test]
fn wildcard_selects_every_element() {
    let v = doc(r#"{"messages":[{"role":"user"},{"role":"assistant"},{"role":"system"}]}"#);
    let roles: Vec<&str> = path("messages[].role")
        .select(&v)
        .into_iter()
        .filter_map(Value::as_str)
        .collect();
    assert_eq!(roles, vec!["user", "assistant", "system"]);
}

#[test]
fn indexing_a_non_array_selects_nothing() {
    let v = doc(r#"{"messages":"not an array"}"#);
    assert!(path("messages[0]").select(&v).is_empty());
    assert!(path("messages[]").select(&v).is_empty());
}

#[test]
fn a_leading_index_reads_a_top_level_array() {
    let v = doc(r#"[{"id":1},{"id":2}]"#);
    assert_eq!(path("[1].id").select(&v), vec![&Value::Int(2)]);
}

#[test]
fn path_errors_have_messages() {
    assert_eq!(err("").to_string(), "at byte 0: empty field path");
    assert_eq!(err("a..b").to_string(), "at byte 2: empty key segment");
    assert_eq!(err("a[0").to_string(), "at byte 1: unterminated '[' index");
    assert_eq!(err("a[x]").to_string(), "at byte 2: invalid index inside '[...]'");
    assert_eq!(err("a]").to_string(), "at byte 1: unexpected ']'");
}

#[test]
fn keys_may_hold_any_other_character() {
    let p = path("schlüssel mit-leerzeichen");
    assert_eq!(p.as_str(), "schlüssel mit-leerzeichen");
    assert_eq!(p.segments(), &[Segment::Key("schlüssel mit-leerzeichen".into())]);
}

#[test]
fn the_first_of_repeated_members_is_selected() {
    let v = doc(r#"{"a":1,"a":2}"#);
    assert_eq!(path("a").select(&v), vec![&Value::Int(1)]);
}

#[test]
fn extreme_indices_select_nothing() {
    let v = doc("[1,2]");
    assert_eq!(path("[+1]").select(&v), vec![&Value::Int(2)]);
    assert!(path("[9223372036854775807]").select(&v).is_empty());
    assert!(path("[-9223372036854775808]").select(&v).is_empty());
    assert_eq!(err("[9223372036854775808]").kind, PathErrorKind::InvalidIndex);
}

#[test]
fn the_roles_of_all_messages_are_selected() {
    let v = doc(r#"{"messages":[{"role":"user"},{"role":"assistant"}]}"#);
    let selected = path("messages[].role").select(&v);
    let roles: Vec<&str> = selected.into_iter().filter_map(Value::as_str).collect();
    assert_eq!(roles, vec!["user", "assistant"]);
}

#[test]
fn odd_keys_are_written_in_quotes() {
    for (text, key) in [
        (r#"["a.b"]"#, "a.b"),
        (r#"["a]"]"#, "a]"),
        (r#"["[0]"]"#, "[0]"),
        (r#"[""]"#, ""),
        (r#"["\".\\\n\u0001"]"#, "\".\\\n\u{1}"),
        (r#"["ä.→"]"#, "ä.→"),
    ] {
        assert_eq!(path(text).segments(), &[Segment::Key(key.into())], "{}", text);
        assert_eq!(path(text).as_str(), text);
    }
    assert_eq!(
        path(r#"meta["file.name"][].x["y[]"]"#).segments(),
        &[
            Segment::Key("meta".into()),
            Segment::Key("file.name".into()),
            Segment::Wildcard,
            Segment::Key("x".into()),
            Segment::Key("y[]".into()),
        ]
    );
    let v = doc(r#"{"meta":{"file.name":[{"":1},{"":2}]}}"#);
    assert_eq!(
        path(r#"meta["file.name"][][""]"#).select(&v),
        vec![&Value::Int(1), &Value::Int(2)]
    );
}

#[test]
fn broken_quotes_are_no_index() {
    assert_eq!(err(r#"a["b]"#), PathError { offset: 2, kind: PathErrorKind::InvalidIndex });
    assert_eq!(err(r#"a["b"x]"#), PathError { offset: 2, kind: PathErrorKind::InvalidIndex });
    assert_eq!(err(r#"a["\x"]"#), PathError { offset: 2, kind: PathErrorKind::InvalidIndex });
    assert_eq!(err(r#"a["b"#), PathError { offset: 1, kind: PathErrorKind::UnterminatedIndex });
    assert_eq!(err(r#"a["b."#), PathError { offset: 1, kind: PathErrorKind::UnterminatedIndex });
    // A quote is an ordinary character of a key.
    assert_eq!(path("\"a\"").segments(), &[Segment::Key("\"a\"".into())]);
}

#[test]
fn only_keys_that_need_quotes_are_in_quotes() {
    for text in [r#"x["a"]"#, r#"x["file name"]"#, r#"x["é"]"#, r#"x["\"q\""]"#, r#"x["a"].b"#] {
        assert_eq!(err(text), PathError { offset: 2, kind: PathErrorKind::InvalidIndex });
    }
    // Nor are they spelled in another way.
    for text in [r#"x["\u002e"]"#, r#"x["a.\/"]"#, r#"x["a.\u0041"]"#, r#"x["a.\u000a"]"#] {
        assert_eq!(err(text), PathError { offset: 2, kind: PathErrorKind::InvalidIndex });
    }
    assert_eq!(path(r#"x["a./"]"#).segments()[1], Segment::Key("a./".into()));
    assert_eq!(path(r#"x["a.\n"]"#).segments()[1], Segment::Key("a.\n".into()));
}

#[test]
fn paths_are_written_step_by_step() {
    assert_eq!(with_member("", "a"), "a");
    assert_eq!(with_member("a", "b"), "a.b");
    assert_eq!(with_member("a", "b.c"), "a[\"b.c\"]");
    assert_eq!(with_member("", ""), "[\"\"]");
    assert_eq!(with_member("a[]", "x[0]"), "a[][\"x[0]\"]");
    assert_eq!(with_member("a", "say \"hi\""), "a.say \"hi\"");
    assert_eq!(with_elements(""), "[]");
    assert_eq!(with_elements("a.b"), "a.b[]");
}

#[test]
fn a_step_behind_a_path_is_one_segment_more() {
    for base in ["a", "a.b", "a[]", "[0]", "[-1].x", "a[\"b.c\"]", "[\"]\"][]"] {
        let steps = path(base).segments().to_vec();
        let more = |step: Segment| -> Vec<Segment> {
            let mut all = steps.clone();
            all.push(step);
            all
        };
        for key in ["k", "ä b", "\"q\""] {
            let extended = path(&format!("{base}.{key}"));
            assert_eq!(extended.segments(), more(Segment::Key(key.into())));
        }
        for key in ["k", "", ".", "a]b[", "\\"] {
            let extended = path(&with_member(base, key));
            assert_eq!(extended.segments(), more(Segment::Key(key.into())));
        }
        assert_eq!(path(&format!("{base}[]")).segments(), more(Segment::Wildcard));
        for n in [0, 7, -1, i64::MIN, i64::MAX] {
            assert_eq!(path(&format!("{base}[{n}]")).segments(), more(Segment::Index(n)));
        }
    }
}

#[test]
fn joined_paths_select_in_turn() {
    let v = doc(
        r#"{"a":[{"b":[1,2],"c.d":[{"e":3}]},{"b":[4]},{"c.d":[{"e":5},{"e":6}]},7],"b":{"a":[8]}}"#,
    );
    for first in ["a", "a[]", "a[0]", "a[-2]", "b", "absent", "a[].b"] {
        for second in ["b", "[]", "[0]", "[\"c.d\"]", "a[]", "[\"c.d\"][].e", "[].b", "[0].b[]"] {
            let joined = if second.starts_with('[') {
                format!("{first}{second}")
            } else {
                format!("{first}.{second}")
            };
            let in_turn: Vec<&Value> = path(first)
                .select(&v)
                .into_iter()
                .flat_map(|x| path(second).select(x))
                .collect();
            assert_eq!(path(&joined).select(&v), in_turn, "{}", joined);
        }
    }
}
