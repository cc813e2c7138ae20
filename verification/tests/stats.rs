use jsonl_peek::lines::LineSplitter;
use jsonl_peek::path::FieldPath;
use jsonl_peek::stats::{Stats, StatsOptions, StatsPass, MAX_FIELD_VALUES, MAX_KEYS};

fn stats(input: &str, options: StatsOptions) -> Stats {
    Stats::from_reader(input.as_bytes(), options)
}

fn default(input: &str) -> Stats {
    stats(input, StatsOptions::default())
}

#[test]
fn counts_lines_blank_valid_and_invalid() {
    let s = default("{}\n\nnot json\n{\"a\":1}\n");
    assert_eq!(s.lines, 4);
    assert_eq!(s.blank, 1);
    assert_eq!(s.valid, 2);
    assert_eq!(s.invalid, 1);
    assert_eq!(s.bytes, "{}\n\nnot json\n{\"a\":1}\n".len() as u64);
}

#[test]
fn records_top_level_types() {
    let s = default("{}\n[1,2]\n1\n");
    let types: Vec<_> = s.top_level_types.iter();
    assert_eq!(types, vec![("object", 1), ("array", 1), ("int", 1)]);
    assert_eq!(s.top_level_types.total(), 3);
}

#[test]
fn builds_the_top_level_key_table() {
    let s = default("{\"id\":1,\"tags\":[1]}\n{\"id\":2}\n");
    let entries = s.keys.entries();
    assert_eq!(entries[0].key, "id");
    assert_eq!(entries[0].count, 2);
    assert_eq!(entries[0].types.iter(), vec![("int", 2)]);
    assert_eq!(entries[1].key, "tags");
    assert_eq!(entries[1].count, 1);
    assert!(!s.keys.truncated());
}

#[test]
fn key_table_caps_distinct_keys() {
    let mut line = String::from("{");
    for i in 0..(MAX_KEYS + 5) {
        if i > 0 {
            line.push(',');
        }
        line.push_str(&format!("\"k{i}\":1"));
    }
    line.push('}');
    let s = default(&format!("{line}\n"));
    assert_eq!(s.keys.entries().len(), MAX_KEYS);
    assert!(s.keys.truncated());
}

#[test]
fn ignores_duplicate_keys_within_one_record() {
    let s = default("{\"a\":1,\"a\":2}\n");
    assert_eq!(s.keys.entries().len(), 1);
    assert_eq!(s.keys.entries()[0].count, 1);
}

#[test]
fn profiles_a_simple_field() {
    let options = StatsOptions {
        fields: vec![FieldPath::parse("meta.source").unwrap()],
        ..StatsOptions::default()
    };
    let s = stats(
        "{\"meta\":{\"source\":\"web\"}}\n{\"meta\":{\"source\":\"web\"}}\n{\"meta\":{}}\n",
        options,
    );
    let field = &s.fields[0];
    assert_eq!(field.records_present, 2);
    assert_eq!(field.values, 2);
    assert_eq!(field.distinct(), 1);
    assert_eq!(field.top(5), vec![("\"web\"", 2)]);
}

#[test]
fn profiles_a_wildcard_field_across_array_elements() {
    let options = StatsOptions {
        fields: vec![FieldPath::parse("messages[].role").unwrap()],
        ..StatsOptions::default()
    };
    let s = stats(
        r#"{"messages":[{"role":"user"},{"role":"assistant"}]}
{"messages":[{"role":"user"}]}
"#,
        options,
    );
    let field = &s.fields[0];
    assert_eq!(field.records_present, 2);
    assert_eq!(field.values, 3);
    assert_eq!(
        field.top(5),
        vec![("\"user\"", 2), ("\"assistant\"", 1)]
    );
}

#[test]
fn field_value_table_caps_distinct_values() {
    let options = StatsOptions {
        fields: vec![FieldPath::parse("v").unwrap()],
        ..StatsOptions::default()
    };
    let mut input = String::new();
    for i in 0..(MAX_FIELD_VALUES + 5) {
        input.push_str(&format!("{{\"v\":{i}}}\n"));
    }
    let s = stats(&input, options);
    let field = &s.fields[0];
    assert_eq!(field.distinct(), MAX_FIELD_VALUES);
    assert!(field.truncated());
    assert_eq!(field.values, (MAX_FIELD_VALUES + 5) as u64);
}

#[test]
fn records_issues_with_line_and_column() {
    let s = default("{}\n{,}\n[1 2]\n");
    assert_eq!(s.issues.len(), 2);
    assert_eq!(s.issues[0].line, 2);
    assert_eq!(s.issues[0].column, 2);
    assert_eq!(s.issues[1].line, 3);
    assert_eq!(s.issues[1].column, 4);
}

#[test]
fn caps_the_number_of_recorded_issues() {
    let options = StatsOptions {
        max_errors: 1,
        ..StatsOptions::default()
    };
    let s = stats("bad one\nbad two\nbad three\n", options);
    assert_eq!(s.invalid, 3);
    assert_eq!(s.issues.len(), 1);
    assert!(s.issues_truncated);
}

#[test]
fn reports_invalid_utf8_with_its_byte_offset() {
    let mut input = b"{}\n".to_vec();
    input.extend_from_slice(b"ok\xff\n");
    let s = Stats::from_reader(&input, StatsOptions::default());
    assert_eq!(s.invalid, 1);
    assert_eq!(s.issues[0].line, 2);
    assert_eq!(s.issues[0].column, 3);
    assert_eq!(s.issues[0].reason, "invalid UTF-8");
}

#[test]
fn empty_input_yields_zeroed_stats() {
    let s = default("");
    assert_eq!(s.lines, 0);
    assert_eq!(s.valid, 0);
    assert_eq!(s.bytes, 0);
    assert!(s.fields.is_empty());
}

#[test]
fn invalid_utf8_is_located_behind_the_last_whole_character() {
    for (bytes, column) in [
        (&b"\xff"[..], 1),
        (&b"a\xc3"[..], 2),
        ("é\u{20ac}".as_bytes().get(..4).unwrap(), 3),
        (&b"ab\xe2\x82\x41"[..], 3),
        (&b"\xed\xa0\x80"[..], 1),
    ] {
        let s = Stats::from_reader(bytes, StatsOptions::default());
        assert_eq!((s.issues[0].line, s.issues[0].column), (1, column));
        assert_eq!(s.issues[0].reason, "invalid UTF-8");
    }
}

#[test]
fn every_line_is_counted_once() {
    let s = default("\u{feff}{}\r\n \t\n[\n1\n\"x\"");
    assert_eq!(s.lines, 5);
    assert_eq!(s.blank + s.valid + s.invalid, s.lines);
    assert_eq!((s.blank, s.valid, s.invalid), (1, 3, 1));
    assert_eq!(s.line_length.count(), 4);
    assert_eq!(s.line_length.sum(), 2 + 1 + 1 + 3);
    assert_eq!(s.top_level_types.total(), s.valid);
}

#[test]
fn lines_can_be_streamed() {
    let input = "{\"a\":1}\n\n{\"a\":[2]}\nbad\n";
    let fields = || vec![FieldPath::parse("a").unwrap()];
    let whole = stats(input, StatsOptions { fields: fields(), max_errors: 3 });
    let mut splitter = LineSplitter::new();
    let mut pass = StatsPass::new(StatsOptions { fields: fields(), max_errors: 3 });
    for raw in input.as_bytes().split_inclusive(|b| *b == b'\n') {
        let line = splitter.accept(raw);
        pass.take_line(&line);
    }
    let streamed = pass.finish();
    assert_eq!(format!("{:?}", streamed), format!("{:?}", whole));
}

#[test]
fn equal_counts_are_listed_by_their_text() {
    let options = StatsOptions {
        fields: vec![FieldPath::parse("v").unwrap()],
        ..StatsOptions::default()
    };
    let s = stats("{\"v\":\"b\"}\n{\"v\":10}\n{\"v\":9}\n{\"v\":\"a\"}\n{\"v\":9}\n", options);
    assert_eq!(
        s.fields[0].top(10),
        vec![("9", 2), ("\"a\"", 1), ("\"b\"", 1), ("10", 1)]
    );
    assert_eq!(s.fields[0].top(2), vec![("9", 2), ("\"a\"", 1)]);
    assert!(s.fields[0].top(0).is_empty());
}

#[test]
fn a_value_table_is_truncated_once_it_is_full() {
    let table = |values: usize| -> Stats {
        let options = StatsOptions {
            fields: vec![FieldPath::parse("v").unwrap()],
            ..StatsOptions::default()
        };
        let mut input: String = (0..values).map(|i| format!("{{\"v\":{i}}}\n")).collect();
        input.push_str("{\"v\":0}\n");
        stats(&input, options)
    };
    let s = table(MAX_FIELD_VALUES - 1);
    assert_eq!(s.fields[0].distinct(), MAX_FIELD_VALUES - 1);
    assert!(!s.fields[0].truncated());
    let s = table(MAX_FIELD_VALUES);
    assert_eq!(s.fields[0].distinct(), MAX_FIELD_VALUES);
    assert!(s.fields[0].truncated());
    assert_eq!(s.fields[0].top(1), vec![("0", 2)]);
}

#[test]
fn a_key_table_is_truncated_once_it_is_full() {
    let table = |keys: usize| -> Stats {
        let members: Vec<String> = (0..keys).map(|i| format!("\"k{i}\":1")).collect();
        default(&format!("{{{}}}\n{{\"k0\":2}}\n", members.join(",")))
    };
    let s = table(MAX_KEYS - 1);
    assert_eq!(s.keys.entries().len(), MAX_KEYS - 1);
    assert!(!s.keys.truncated());
    let s = table(MAX_KEYS);
    assert_eq!(s.keys.entries().len(), MAX_KEYS);
    assert!(s.keys.truncated());
    assert_eq!(s.keys.entries()[0].count, 2);
}

#[test]
fn a_field_is_profiled_next_to_broken_lines() {
    let data = b"{\"role\":\"user\"}\n{\"role\":\"assistant\"}\nnot json\n";
    let options = StatsOptions {
        fields: vec![FieldPath::parse("role").unwrap()],
        ..StatsOptions::default()
    };
    let stats = Stats::from_reader(&data[..], options);
    assert_eq!(stats.lines, 3);
    assert_eq!(stats.valid, 2);
    assert_eq!(stats.invalid, 1);
    assert_eq!(stats.fields[0].top(5), vec![("\"assistant\"", 1), ("\"user\"", 1)]);
}

#[test]
fn keys_are_counted_once_per_record() {
    let s = default("{\"a\":1,\"b\":2,\"a\":\"x\"}\n[1]\n{\"a\":null}\n");
    let entries = s.keys.entries();
    assert_eq!((entries[0].key.as_str(), entries[0].count), ("a", 2));
    assert_eq!(entries[0].types.iter(), vec![("int", 1), ("null", 1)]);
    assert_eq!((entries[1].key.as_str(), entries[1].count), ("b", 1));
}

#[test]
fn a_full_error_list_is_not_truncated() {
    let s = stats("bad\nbad\n", StatsOptions { max_errors: 2, ..StatsOptions::default() });
    assert_eq!(s.issues.len(), 2);
    assert!(!s.issues_truncated);
    let s = stats("bad\n", StatsOptions { max_errors: 0, ..StatsOptions::default() });
    assert!(s.issues.is_empty());
    assert!(s.issues_truncated);
}

#[test]
fn values_are_told_apart_by_their_encoding() {
    let options = StatsOptions {
        fields: vec![FieldPath::parse("v").unwrap()],
        ..StatsOptions::default()
    };
    let s = stats(
        "{\"v\":1}\n{\"v\":1.0}\n{\"v\":\"1\"}\n{\"v\":1e0}\n{\"v\":[1]}\n{\"v\": [ 1 ] }\n",
        options,
    );
    assert_eq!(s.fields[0].distinct(), 4);
    assert_eq!(
        s.fields[0].top(10),
        vec![("1.0", 2), ("[1]", 2), ("\"1\"", 1), ("1", 1)]
    );
    assert_eq!(
        s.fields[0].types.iter(),
        vec![("int", 1), ("float", 2), ("string", 1), ("array", 2)]
    );
}

#[test]
fn crlf_endings_change_nothing_but_the_bytes() {
    let input = "\u{feff}{\"a\":1,\"b\":[2,2]}\n\n{\"a\":\"x\"}\nbad\n[\n  \n{\"b\":[null]}";
    let options = || StatsOptions {
        fields: vec![FieldPath::parse("b[]").unwrap(), FieldPath::parse("a").unwrap()],
        max_errors: 1,
    };
    let a = stats(input, options());
    let b = stats(&input.replace('\n', "\r\n"), options());
    assert_eq!(b.bytes, a.bytes + 6);
    assert_eq!((b.lines, b.blank, b.valid, b.invalid), (a.lines, a.blank, a.valid, a.invalid));
    assert_eq!((a.lines, a.blank, a.valid, a.invalid), (7, 2, 3, 2));
    assert_eq!(b.line_length.count(), a.line_length.count());
    assert_eq!((b.line_length.min(), b.line_length.max()), (a.line_length.min(), a.line_length.max()));
    assert_eq!(b.line_length.mean(), a.line_length.mean());
    assert_eq!(b.top_level_types.iter(), a.top_level_types.iter());
    assert_eq!(b.keys.entries().len(), a.keys.entries().len());
    for (x, y) in b.fields.iter().zip(&a.fields) {
        assert_eq!((x.records_present, x.values), (y.records_present, y.values));
        assert_eq!(x.top(10), y.top(10));
    }
    assert_eq!(b.issues_truncated, a.issues_truncated);
    assert_eq!(
        (b.issues[0].line, b.issues[0].column, b.issues[0].reason.as_str()),
        (a.issues[0].line, a.issues[0].column, a.issues[0].reason.as_str())
    );
}

#[test]
fn the_counts_of_all_values_add_up() {
    let options = StatsOptions {
        fields: vec![FieldPath::parse("[]").unwrap()],
        ..StatsOptions::default()
    };
    let s = stats("[1,2,1,\"1\",null,[1],2]\n[]\n[1]\n{}\n", options);
    let field = &s.fields[0];
    assert_eq!((field.records_present, field.values), (2, 8));
    assert!(!field.truncated());
    let all = field.top(usize::MAX);
    assert_eq!(all.len(), field.distinct());
    assert_eq!(all.iter().map(|(_, count)| count).sum::<u64>(), field.values);
    assert_eq!(field.top(2), all[..2].to_vec());
    assert_eq!(field.types.total(), field.values);
}
