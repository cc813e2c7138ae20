use jsonl_peek::binary64::Binary64;
use jsonl_peek::json::{parse, Value};
use jsonl_peek::path::{with_elements, with_member, FieldPath};
use jsonl_peek::schema::{PathEntry, Schema, SchemaOptions, MAX_PATHS};

fn number(x: f64) -> Binary64 {
    Binary64::from_bits(x.to_bits())
}

fn schema(input: &str, options: SchemaOptions) -> Schema {
    Schema::from_reader(input.as_bytes(), options)
}

fn default(input: &str) -> Schema {
    schema(input, SchemaOptions::default())
}

fn find<'a>(schema: &'a Schema, path: &str) -> &'a PathEntry {
    schema.paths.iter().find(|p| p.path == path).unwrap_or_else(|| panic!("path {path} not found"))
}

#[test]
fn discovers_top_level_keys() {
    let s = schema(
        "{\"id\":1,\"tags\":[1,2]}\n",
        SchemaOptions { depth: 1, ..SchemaOptions::default() },
    );
    assert_eq!(s.records, 1);
    let names: Vec<&str> = s.paths.iter().map(|p| p.path.as_str()).collect();
    assert_eq!(names, vec!["id", "tags"]);
}

#[test]
fn descends_into_nested_objects_and_arrays() {
    let s = default(r#"{"messages":[{"role":"user"},{"role":"assistant"}]}"#);
    let names: Vec<&str> = s.paths.iter().map(|p| p.path.as_str()).collect();
    assert_eq!(names, vec!["messages", "messages[]", "messages[].role"]);

    let role = find(&s, "messages[].role");
    assert_eq!(role.records_present, 1);
    assert_eq!(role.values, 2);
    assert_eq!(role.types.iter(), vec![("string", 2)]);
}

#[test]
fn respects_the_depth_limit() {
    let input = r#"{"messages":[{"role":"user"}]}"#;

    let s1 = schema(input, SchemaOptions { depth: 1, ..SchemaOptions::default() });
    let names1: Vec<&str> = s1.paths.iter().map(|p| p.path.as_str()).collect();
    assert_eq!(names1, vec!["messages"]);

    let s2 = schema(input, SchemaOptions { depth: 2, ..SchemaOptions::default() });
    let names2: Vec<&str> = s2.paths.iter().map(|p| p.path.as_str()).collect();
    assert_eq!(names2, vec!["messages", "messages[]"]);

    let s3 = schema(input, SchemaOptions { depth: 3, ..SchemaOptions::default() });
    let names3: Vec<&str> = s3.paths.iter().map(|p| p.path.as_str()).collect();
    assert_eq!(names3, vec!["messages", "messages[]", "messages[].role"]);
}

#[test]
fn a_leading_wildcard_covers_a_top_level_array() {
    let s = default("[{\"id\":1},{\"id\":2}]\n");
    let names: Vec<&str> = s.paths.iter().map(|p| p.path.as_str()).collect();
    assert_eq!(names, vec!["[]", "[].id"]);

    let id = find(&s, "[].id");
    assert_eq!(id.records_present, 1);
    assert_eq!(id.values, 2);
}

#[test]
fn dedupes_duplicate_keys_within_one_record() {
    let s = default("{\"a\":1,\"a\":2}\n");
    assert_eq!(s.paths.len(), 1);
    assert_eq!(find(&s, "a").values, 1);
}

#[test]
fn filters_by_min_rate() {
    let input = "{\"meta\":{\"source\":\"web\",\"extra\":1}}\n{\"meta\":{\"source\":\"web\"}}\n{\"meta\":{}}\n";
    let s = schema(
        input,
        SchemaOptions { min_rate: number(0.5), ..SchemaOptions::default() },
    );
    let names: Vec<&str> = s.paths.iter().map(|p| p.path.as_str()).collect();
    assert_eq!(names, vec!["meta", "meta.source"]);
}

#[test]
fn caps_the_number_of_distinct_paths() {
    let mut line = String::from("{");
    for i in 0..(MAX_PATHS + 5) {
        if i > 0 {
            line.push(',');
        }
        line.push_str(&format!("\"k{i}\":1"));
    }
    line.push('}');
    let s = default(&format!("{line}\n"));
    assert_eq!(s.paths.len(), MAX_PATHS);
    assert!(s.truncated);
}

#[test]
fn skips_blank_and_unparseable_lines() {
    let s = default("{}\n\nnot json\n{\"a\":1}\n");
    assert_eq!(s.records, 2);
    assert_eq!(s.skipped, 2);
}

#[test]
fn rate_is_relative_to_all_parsed_records() {
    let s = default("{\"a\":1}\n{\"a\":1}\n{\"b\":1}\n");
    assert_eq!(find(&s, "a").rate(s.records), number(2.0 / 3.0));
    assert_eq!(find(&s, "b").rate(s.records), number(1.0 / 3.0));
}

#[test]
fn empty_input_yields_no_paths() {
    let s = default("");
    assert_eq!(s.records, 0);
    assert!(s.paths.is_empty());
    assert!(!s.truncated);
}

#[test]
fn rates_go_from_zero_to_one() {
    let s = default("{\"a\":1}\n{\"a\":1}\n[]\n");
    assert_eq!(find(&s, "a").rate(0), number(0.0));
    assert_eq!(find(&s, "a").rate(2), number(1.0));
    for (present, records) in [(0u64, 7u64), (1, 3), (6, 7), (u64::MAX - 1, u64::MAX)] {
        let entry = PathEntry {
            path: String::new(),
            records_present: present,
            values: present,
            types: Default::default(),
        };
        let rate = f64::from_bits(entry.rate(records).to_bits());
        assert!((0.0..=1.0).contains(&rate));
        assert_eq!(rate, present as f64 / records as f64);
    }
}

#[test]
fn a_share_that_is_just_reached_is_reported() {
    let input = "{\"a\":1}\n{\"b\":1}\n{\"b\":1}\n";
    let names = |min_rate: f64| -> Vec<String> {
        let options = SchemaOptions { min_rate: number(min_rate), ..SchemaOptions::default() };
        schema(input, options).paths.into_iter().map(|p| p.path).collect()
    };
    assert_eq!(names(1.0 / 3.0), vec!["a", "b"]);
    assert_eq!(names(0.34), vec!["b"]);
    assert_eq!(names(0.7), Vec::<String>::new());
    assert_eq!(names(-1.0), vec!["a", "b"]);
    assert_eq!(names(f64::NAN), vec!["a", "b"]);
}

#[test]
fn paths_are_sorted_by_their_bytes() {
    let s = default("{\"b\":1,\"a\":{\"z\":1},\"a-b\":1,\"é\":1,\"Z\":1}\n");
    let names: Vec<&str> = s.paths.iter().map(|p| p.path.as_str()).collect();
    assert_eq!(names, vec!["Z", "a", "a-b", "a.z", "b", "é"]);
}

#[test]
fn a_path_table_is_truncated_once_it_is_full() {
    let table = |paths: usize| -> Schema {
        let members: Vec<String> = (0..paths).map(|i| format!("\"k{i}\":1")).collect();
        default(&format!("{{{}}}\n{{\"k0\":2}}\n", members.join(",")))
    };
    let s = table(MAX_PATHS - 1);
    assert_eq!(s.paths.len(), MAX_PATHS - 1);
    assert!(!s.truncated);
    let s = table(MAX_PATHS);
    assert_eq!(s.paths.len(), MAX_PATHS);
    assert!(s.truncated);
    assert_eq!(find(&s, "k0").values, 2);
}

#[test]
fn a_nested_path_is_found_in_every_record() {
    let data = b"{\"meta\":{\"source\":\"web\"}}\n{\"meta\":{\"source\":\"web\"}}\n";
    let schema = Schema::from_reader(&data[..], SchemaOptions::default());
    assert_eq!(schema.records, 2);
    let path = schema.paths.iter().find(|p| p.path == "meta.source").unwrap();
    assert_eq!(path.records_present, 2);
    assert_eq!(path.rate(schema.records), number(1.0));
}

#[test]
fn the_types_at_a_path_are_counted() {
    let s = default("{\"a\":1}\n{\"a\":\"x\"}\n{\"a\":2}\n{\"a\":1.5}\n");
    assert_eq!(find(&s, "a").types.iter(), vec![("int", 2), ("string", 1), ("float", 1)]);
    assert_eq!(find(&s, "a").types.total(), 4);
}

#[test]
fn every_path_of_a_schema_can_be_parsed() {
    let s = default("{\"a]\":1}\n");
    assert_eq!(s.paths.len(), 1);
    assert_eq!(s.paths[0].path, "[\"a]\"]");
    assert!(FieldPath::parse(&s.paths[0].path).is_ok());

    let line = r#"{"":{"x":1},"a.b":{"c":[{"[0]":null},{"d":2}]},"a":{"b":{"c":3}},"p\"]":[]}"#;
    let s = schema(
        &format!("{line}\n{line}\n"),
        SchemaOptions { depth: 9, ..SchemaOptions::default() },
    );
    let names: Vec<&str> = s.paths.iter().map(|p| p.path.as_str()).collect();
    assert_eq!(
        names,
        vec![
            r#"[""]"#,
            r#"[""].x"#,
            r#"["a.b"]"#,
            r#"["a.b"].c"#,
            r#"["a.b"].c[]"#,
            r#"["a.b"].c[].d"#,
            r#"["a.b"].c[]["[0]"]"#,
            r#"["p\"]"]"#,
            "a",
            "a.b",
            "a.b.c",
        ]
    );
    let document = parse(line).unwrap();
    for entry in &s.paths {
        let selected = FieldPath::parse(&entry.path).unwrap().select(&document);
        assert_eq!(entry.records_present, 2, "{}", entry.path);
        assert_eq!(entry.values, 2 * selected.len() as u64, "{}", entry.path);
    }
}

#[test]
fn every_path_that_selects_something_is_listed() {
    let lines = [
        r#"{"a":{"b":[1,{"a":2}]},"b":[]}"#,
        r#"[{"a":[[3]]},{"b":{"a":null}}]"#,
        r#"{"b":[{"b":{"b":{"b":4}}}]}"#,
    ];
    let s = default(&format!("{}\n", lines.join("\n")));
    let documents: Vec<Value> = lines.iter().map(|l| parse(l).unwrap()).collect();
    let mut texts: Vec<String> = vec![String::new()];
    let mut expected: Vec<String> = Vec::new();
    for _ in 0..3 {
        let mut longer = Vec::new();
        for text in &texts {
            longer.push(with_member(text, "a"));
            longer.push(with_member(text, "b"));
            longer.push(with_elements(text));
        }
        for text in &longer {
            let path = FieldPath::parse(text).unwrap();
            if documents.iter().any(|d| !path.select(d).is_empty()) {
                expected.push(text.clone());
            }
        }
        texts = longer;
    }
    expected.sort();
    let names: Vec<String> = s.paths.iter().map(|p| p.path.clone()).collect();
    assert_eq!(names, expected);
}
