//! The commands from their arguments to their reports, over a small file.

use jsonl_peek::cli::{input_file, input_label, parse_args, Command};
use jsonl_peek::excerpt::{head, sample, HeadPass, SamplePass};
use jsonl_peek::json::parse;
use jsonl_peek::json_report::{schema_to_json, stats_to_json};
use jsonl_peek::lines::LineSplitter;
use jsonl_peek::report::{grouped, kibibytes, percent, print_schema, print_stats};
use jsonl_peek::{FieldPath, Schema, SchemaOptions, Stats, StatsOptions};

const SAMPLE: &str =
    "{\"id\":1,\"messages\":[{\"role\":\"user\",\"content\":\"hi\"}],\"meta\":{\"source\":\"web\"}}\n\
     {\"id\":2,\"messages\":[{\"role\":\"user\",\"content\":\"hey\"},{\"role\":\"assistant\",\"content\":\"hello\"}],\"meta\":{\"source\":\"code\"}}\n\
     {\"id\":3,\"messages\":[{\"role\":\"system\",\"content\":\"sys\"}],\"meta\":{\"source\":\"web\"}}\n\
     \n\
     {\"id\":4,}\n";

fn command(args: &[&str]) -> Result<Command, String> {
    let args: Vec<String> = args.iter().map(|a| a.to_string()).collect();
    parse_args(&args)
}

/// Runs a command over the given bytes.
fn run_on(input: &[u8], args: &[&str]) -> Result<String, String> {
    let out = match command(args)? {
        Command::Head(c) => head(input, c.n),
        Command::Sample(c) => sample(input, c.n, c.seed.unwrap_or(0)),
        Command::Stats(c) => {
            let label = input_label(&c.file).to_string();
            let options = StatsOptions { fields: c.fields, max_errors: c.max_errors };
            let stats = Stats::from_reader(input, options);
            if c.json {
                format!("{}\n", stats_to_json(&stats, c.top).to_json()).into_bytes()
            } else {
                print_stats(&label, &stats, c.top).into_bytes()
            }
        }
        Command::Schema(c) => {
            let schema =
                Schema::from_reader(input, SchemaOptions { depth: c.depth, min_rate: c.min_rate });
            if c.json {
                format!("{}\n", schema_to_json(&schema).to_json()).into_bytes()
            } else {
                print_schema(&schema).into_bytes()
            }
        }
    };
    Ok(String::from_utf8(out).unwrap())
}

fn run(args: &[&str]) -> String {
    run_on(SAMPLE.as_bytes(), args).unwrap()
}

#[test]
fn head_prints_the_first_n_lines_unchanged() {
    assert_eq!(
        run(&["head", "-n", "2", "sample.jsonl"]),
        "{\"id\":1,\"messages\":[{\"role\":\"user\",\"content\":\"hi\"}],\"meta\":{\"source\":\"web\"}}\n\
         {\"id\":2,\"messages\":[{\"role\":\"user\",\"content\":\"hey\"},{\"role\":\"assistant\",\"content\":\"hello\"}],\"meta\":{\"source\":\"code\"}}\n"
    );
}

#[test]
fn head_defaults_to_ten_lines_and_stops_at_eof() {
    // The file only has 4 non-blank lines plus one blank one; head counts
    // every line, blank included, so all 5 come out.
    assert_eq!(run(&["head", "sample.jsonl"]).lines().count(), 5);
    assert_eq!(run_on(&b"x\n".repeat(20), &["head"]).unwrap().lines().count(), 10);
}

#[test]
fn sample_is_deterministic_for_a_given_seed() {
    let args = ["sample", "-n", "2", "--seed", "7", "sample.jsonl"];
    let first = run(&args);
    let second = run(&args);
    assert_eq!(first, second);
    assert_eq!(first.lines().count(), 2);

    let non_blank = [
        "{\"id\":1,\"messages\":[{\"role\":\"user\",\"content\":\"hi\"}],\"meta\":{\"source\":\"web\"}}",
        "{\"id\":2,\"messages\":[{\"role\":\"user\",\"content\":\"hey\"},{\"role\":\"assistant\",\"content\":\"hello\"}],\"meta\":{\"source\":\"code\"}}",
        "{\"id\":3,\"messages\":[{\"role\":\"system\",\"content\":\"sys\"}],\"meta\":{\"source\":\"web\"}}",
        "{\"id\":4,}",
    ];
    for line in first.lines() {
        assert!(non_blank.contains(&line), "unexpected sampled line: {line}");
    }
}

#[test]
fn stats_reports_counts_and_field_distributions() {
    let text = run(&[
        "stats",
        "--field",
        "meta.source",
        "--field",
        "messages[].role",
        "sample.jsonl",
    ]);

    assert!(text.contains("lines   5   blank 1   invalid 1   valid 3"));
    assert!(text.contains("top level  object:3"));

    assert!(text.contains("field meta.source"));
    assert!(text.contains("present in 3 of 3 records (100.0%), 3 values, types string:3"));
    assert!(text.contains("\"web\""));
    assert!(text.contains("\"code\""));

    assert!(text.contains("field messages[].role"));
    assert!(text.contains("present in 3 of 3 records (100.0%), 4 values, types string:4"));

    assert!(text.contains("invalid lines (1 total, showing 1)"));
    assert!(text.contains("line 5 col 9: expected a quoted object key"));
}

#[test]
fn schema_discovers_paths_and_skips_broken_lines() {
    let text = run(&["schema", "sample.jsonl"]);

    assert!(text.starts_with("3 records, depth 3"));
    assert!(text.contains("2 unparseable lines skipped"));

    // Every record shares the same shape, so every discovered path sits at
    // 100%; look up each row by its leading token rather than hard-coding
    // column widths, which are an implementation detail.
    let find_entry = |name: &str| -> String {
        text.lines()
            .find(|line| line.trim_start().split_whitespace().next() == Some(name))
            .unwrap_or_else(|| panic!("path '{name}' not found in schema output:\n{text}"))
            .to_string()
    };

    let id_line = find_entry("id");
    assert!(id_line.contains("100.0%"));
    assert!(id_line.contains("int:3"));

    let role_line = find_entry("messages[].role");
    assert!(role_line.contains("100.0%"));
    assert!(role_line.contains("string:4"));

    let source_line = find_entry("meta.source");
    assert!(source_line.contains("100.0%"));
    assert!(source_line.contains("string:3"));
}

#[test]
fn reading_from_stdin_matches_reading_from_a_file() {
    let from_file = run(&["stats", "sample.jsonl"]);
    let from_stdin = run(&["stats", "-"]);

    // Both reports name their input on the first line; strip that before
    // comparing so the file path itself doesn't break the match.
    let drop_file_line = |s: &str| -> String {
        s.lines().skip(1).collect::<Vec<_>>().join("\n")
    };
    assert_eq!(drop_file_line(&from_file), drop_file_line(&from_stdin));
    assert!(from_file.starts_with("file    sample.jsonl\n"));
    assert!(from_stdin.starts_with("file    -\n"));
}

#[test]
fn unknown_subcommand_is_a_usage_error() {
    let message = command(&["frobnicate"]).unwrap_err();
    assert!(message.contains("unknown subcommand 'frobnicate'"));
}

#[test]
fn wrong_arguments_are_explained() {
    for (args, message) in [
        (&[][..], "expected a subcommand"),
        (&["head", "-n"][..], "'-n' needs a value"),
        (&["head", "-n", "-1"][..], "'-n' expects a non-negative integer, got '-1'"),
        (&["head", "a", "b"][..], "unexpected argument 'b'"),
        (&["head", "--seed"][..], ""),
        (
            &["sample", "--seed", "18446744073709551616"][..],
            "'--seed' expects a non-negative integer, got '18446744073709551616'",
        ),
        (&["stats", "--field", "a..b"][..], "--field a..b: at byte 2: empty key segment"),
        (&["stats", "--top", "many"][..], "'--top' expects a non-negative integer, got 'many'"),
        (
            &["stats", "--max-errors", ""][..],
            "'--max-errors' expects a non-negative integer, got ''",
        ),
        (&["schema", "--min-rate", "half"][..], "'--min-rate' expects a number, got 'half'"),
        (&["schema", "--depth"][..], "'--depth' needs a value"),
        (&["schema", "--min-rate"][..], "'--min-rate' needs a value"),
    ] {
        match command(args) {
            Ok(c) => assert_eq!(message, "", "{:?}", c),
            Err(e) => assert_eq!(e, message),
        }
    }
}

#[test]
fn options_override_the_defaults() {
    match command(&["head"]).unwrap() {
        Command::Head(c) => assert_eq!((c.n, c.file), (10, None)),
        other => panic!("{:?}", other),
    }
    match command(&["head", "-n", "3", "f", "-n", "+4"]).unwrap() {
        Command::Head(c) => assert_eq!((c.n, c.file.as_deref()), (4, Some("f"))),
        other => panic!("{:?}", other),
    }
    match command(&["sample", "--seed", "42", "-n", "0"]).unwrap() {
        Command::Sample(c) => assert_eq!((c.n, c.seed, c.file), (0, Some(42), None)),
        other => panic!("{:?}", other),
    }
    match command(&["stats", "--json", "--top", "1", "--field", "a[]", "--max-errors", "2"]).unwrap()
    {
        Command::Stats(c) => {
            assert_eq!((c.top, c.max_errors, c.json, c.file), (1, 2, true, None));
            assert_eq!(c.fields, vec![FieldPath::parse("a[]").unwrap()]);
        }
        other => panic!("{:?}", other),
    }
    match command(&["stats"]).unwrap() {
        Command::Stats(c) => assert_eq!((c.top, c.max_errors, c.json), (10, 10, false)),
        other => panic!("{:?}", other),
    }
    match command(&["schema", "--depth", "5", "-", "--min-rate", "0.25"]).unwrap() {
        Command::Schema(c) => {
            assert_eq!((c.depth, c.json), (5, false));
            assert_eq!(c.min_rate.to_bits(), 0.25f64.to_bits());
            assert_eq!(input_file(&c.file), None);
            assert_eq!(input_label(&c.file), "-");
        }
        other => panic!("{:?}", other),
    }
    match command(&["schema", "--json"]).unwrap() {
        Command::Schema(c) => {
            assert_eq!((c.depth, c.json, c.file), (3, true, None));
            assert_eq!(c.min_rate.to_bits(), 0);
        }
        other => panic!("{:?}", other),
    }
    let named = Some("data.jsonl".to_string());
    assert_eq!(input_file(&named), Some("data.jsonl"));
    assert_eq!(input_label(&named), "data.jsonl");
}

#[test]
fn rates_are_read_like_any_double() {
    for text in [
        "0.5", ".5", "5.", "+0.5", "-0.5", "1e-3", "1E+3", "-.5e2", "0.1", "inf", "-Infinity", "NaN",
        "1e400", "1e-400", "00.5", "123456789.123456789e-3",
    ] {
        let expected: f64 = text.parse().unwrap();
        match command(&["schema", "--min-rate", text]).unwrap() {
            Command::Schema(c) => {
                let got = f64::from_bits(c.min_rate.to_bits());
                assert!(got == expected || (got.is_nan() && expected.is_nan()), "{}", text);
                assert_eq!(got.is_sign_negative(), expected.is_sign_negative(), "{}", text);
            }
            other => panic!("{:?}", other),
        }
    }
    for text in ["", ".", "+", "-", "e5", "1e", "1e+", "1.2.3", " 1", "1 ", "0x1", "infin", "1_000"] {
        assert!(text.parse::<f64>().is_err());
        assert!(command(&["schema", "--min-rate", text]).is_err(), "{}", text);
    }
}

#[test]
fn large_numbers_are_grouped() {
    for (n, text) in [
        (0u64, "0"),
        (7, "7"),
        (999, "999"),
        (1000, "1,000"),
        (12034, "12,034"),
        (1000000, "1,000,000"),
        (u64::MAX, "18,446,744,073,709,551,615"),
    ] {
        assert_eq!(grouped(n), text);
    }
}

#[test]
fn sizes_are_rounded_to_a_tenth_of_a_kibibyte() {
    for (bytes, text) in [
        (0u64, "0.0 KiB"),
        (51, "0.0 KiB"),
        (52, "0.1 KiB"),
        (1024, "1.0 KiB"),
        (1280, "1.2 KiB"),
        (1792, "1.8 KiB"),
        (936_782, "914.8 KiB"),
    ] {
        assert_eq!(kibibytes(bytes), text);
        assert_eq!(kibibytes(bytes), format!("{:.1} KiB", bytes as f64 / 1024.0));
    }
    let huge = format!("{:.1} KiB", u64::MAX as f64 / 1024.0);
    assert_eq!(kibibytes(u64::MAX), huge);
}

#[test]
fn a_schema_report_has_plain_counts() {
    let mut input = String::new();
    for i in 0..2000 {
        if i < 1990 {
            input.push_str(&format!("{{\"id\":{i},\"tags\":[\"x\",\"y\"]}}\n"));
        } else {
            input.push_str("{\"id\":\"none\"}\n");
        }
    }
    let text = run_on(input.as_bytes(), &["schema"]).unwrap();
    assert_eq!(
        text,
        [
            "2000 records, depth 3".to_string(),
            String::new(),
            format!("  {:<40} {:>7}  types", "path", "rate"),
            format!("  {:<40} {:>7}  int:1990 string:10", "id", "100.0%"),
            format!("  {:<40} {:>7}  array:1990", "tags", "99.5%"),
            format!("  {:<40} {:>7}  string:3980", "tags[]", "99.5%"),
            String::new(),
        ]
        .join("\n")
    );
    let text = run_on(input.as_bytes(), &["stats", "--field", "id"]).unwrap();
    assert!(text.contains("lines   2,000   blank 0   invalid 0   valid 2,000\n"));
    assert!(text.contains("types int:1,990 string:10\n"));
    assert!(text.contains("top level  object:2,000\n"));
}

#[test]
fn a_printed_path_can_be_profiled() {
    let input = b"{\"a.b\":{\"]\":[1,2]}}\n{\"a.b\":{\"]\":[]}}\n{}\n";
    let schema = Schema::from_reader(input, SchemaOptions::default());
    let text = run_on(input, &["schema"]).unwrap();
    for entry in &schema.paths {
        assert!(text.contains(&entry.path));
        let options =
            StatsOptions { fields: vec![FieldPath::parse(&entry.path).unwrap()], max_errors: 0 };
        let stats = Stats::from_reader(input, options);
        assert_eq!(stats.fields[0].records_present, entry.records_present);
        assert_eq!(stats.fields[0].values, entry.values);
        assert_eq!(stats.fields[0].types.iter(), entry.types.iter());
    }
    let text = run_on(input, &["stats", "--field", "[\"a.b\"][\"]\"][]"]).unwrap();
    assert!(text.contains("present in 1 of 3 records (33.3%), 2 values, types int:2\n"));
}

#[test]
fn shares_are_rounded_to_a_tenth_of_a_percent() {
    for (part, total) in [
        (0u64, 3u64),
        (1, 3),
        (2, 3),
        (3, 3),
        (1, 8),
        (1, 16),
        (3, 16),
        (5, 2000),
        (285, 2000),
        (1, 400),
        (3, 400),
        (999, 1000),
        (1, u64::MAX),
        (u64::MAX, 1),
        (u64::MAX, u64::MAX),
    ] {
        let expected = format!("{:.1}%", part as f64 * 100.0 / total as f64);
        assert_eq!(percent(part, total), expected, "{} of {}", part, total);
    }
    assert_eq!(percent(0, 0), "0.0%");
    assert_eq!(percent(5, 0), "0.0%");
}

#[test]
fn the_statistics_report_is_laid_out_in_columns() {
    let input = "{\"id\":1}\n{\"id\":2,\"tag\":\"a\"}\nbad\n[\n";
    let text = run_on(
        input.as_bytes(),
        &["stats", "--field", "tag", "--max-errors", "1", "in.jsonl"],
    )
    .unwrap();
    let expected = [
        "file    in.jsonl".to_string(),
        "lines   4   blank 0   invalid 2   valid 2".to_string(),
        "bytes   34   (0.0 KiB)".to_string(),
        "top level  object:2".to_string(),
        String::new(),
        "line length in bytes".to_string(),
        "  min 1   p50 3   p90 18   p99 18   max 18   mean 7.5".to_string(),
        String::new(),
        "top level keys over 2 objects".to_string(),
        format!("  {:<28} {:>8}  {:>6}  types", "key", "count", "rate"),
        format!("  {:<28} {:>8}  {:>6}  {}", "id", "2", "100.0%", "int:2"),
        format!("  {:<28} {:>8}  {:>6}  {}", "tag", "1", "50.0%", "string:1"),
        String::new(),
        "field tag".to_string(),
        "  present in 1 of 2 records (50.0%), 1 values, types string:1".to_string(),
        "  1 distinct values".to_string(),
        format!("  {:>8}  {:>6}  {}", "1", "100.0%", "\"a\""),
        String::new(),
        "invalid lines (2 total, showing 1)".to_string(),
        "  line 3 col 1: unexpected 'b'".to_string(),
        "  ... 1 more not shown".to_string(),
        String::new(),
    ]
    .join("\n");
    assert_eq!(text, expected);
}

#[test]
fn a_report_without_records_is_short() {
    assert_eq!(
        run_on(b"\n", &["stats"]).unwrap(),
        "file    -\nlines   1   blank 1   invalid 0   valid 0\nbytes   1   (0.0 KiB)\ntop level  \n\n\
         line length in bytes\n  no non-blank lines\n"
    );
    assert_eq!(
        run_on(b"", &["schema"]).unwrap(),
        format!("0 records, depth 3\n\n  {:<40} {:>7}  types\n", "path", "rate")
    );
}

#[test]
fn names_are_padded_by_characters() {
    let text = run_on("{\"schlüssel→\":1}\n".as_bytes(), &["schema"]).unwrap();
    let row = format!("  {:<40} {:>7}  int:1\n", "schlüssel→", "100.0%");
    assert!(text.ends_with(&row));
    let long = "k".repeat(50);
    let text = run_on(format!("{{\"{long}\":1}}\n").as_bytes(), &["schema"]).unwrap();
    assert!(text.contains(&format!("  {long}  100.0%  int:1\n")));
}

#[test]
fn full_tables_are_announced() {
    let keys: Vec<String> = (0..513).map(|i| format!("\"k{i}\":1")).collect();
    let text = run_on(format!("{{{}}}\n", keys.join(",")).as_bytes(), &["stats"]).unwrap();
    assert!(text.ends_with("  ... key table truncated at 512 distinct keys\n"));
    let paths: Vec<String> = (0..2001).map(|i| format!("\"k{i}\":1")).collect();
    let text = run_on(format!("{{{}}}\n", paths.join(",")).as_bytes(), &["schema"]).unwrap();
    assert!(text.ends_with("  ... path table truncated at 2000 distinct paths\n"));
    let values: Vec<String> = (0..10_001).map(|i| i.to_string()).collect();
    let input = format!("[{}]\n", values.join(","));
    let text = run_on(input.as_bytes(), &["stats", "--field", "[]", "--top", "1"]).unwrap();
    assert!(text.contains("  10,000 distinct values\n"));
    assert!(text.ends_with("  ... value table truncated at 10000 distinct values\n"));
}

#[test]
fn statistics_can_be_printed_as_json() {
    let input = "{\"id\":1,\"v\":[1.5,\"x\"]}\nbad\n\n";
    let text = run_on(input.as_bytes(), &["stats", "--json", "--field", "v[]"]).unwrap();
    assert_eq!(
        text,
        "{\"lines\":3,\"blank\":1,\"valid\":1,\"invalid\":1,\"bytes\":28,\
         \"top_level_types\":{\"object\":1},\
         \"line_length\":{\"min\":3,\"p50\":3,\"p90\":22,\"p99\":22,\"max\":22,\"mean\":12.5},\
         \"keys\":[{\"key\":\"id\",\"count\":1,\"types\":{\"int\":1}},\
         {\"key\":\"v\",\"count\":1,\"types\":{\"array\":1}}],\
         \"fields\":[{\"path\":\"v[]\",\"records_present\":1,\"values\":2,\
         \"types\":{\"float\":1,\"string\":1},\"distinct\":2,\"truncated\":false,\
         \"top\":[{\"value\":\"x\",\"count\":1},{\"value\":1.5,\"count\":1}]}],\
         \"issues\":[{\"line\":2,\"column\":1,\"reason\":\"unexpected 'b'\"}],\
         \"issues_truncated\":false}\n"
    );
    assert!(parse(&text).is_ok());
    let empty = run_on(b"", &["stats", "--json"]).unwrap();
    assert!(empty.contains("\"line_length\":null"));
}

#[test]
fn schemas_can_be_printed_as_json() {
    let text = run_on(b"{\"a\":1}\n{}\n{}\nbad\n", &["schema", "--json", "--depth", "2"]).unwrap();
    assert_eq!(
        text,
        "{\"records\":3,\"depth\":2,\"truncated\":false,\"skipped\":1,\
         \"paths\":[{\"path\":\"a\",\"records_present\":1,\"values\":1,\
         \"rate\":0.3333333333333333,\"types\":{\"int\":1}}]}\n"
    );
}

#[test]
fn a_head_drops_line_endings_and_the_mark() {
    assert_eq!(head("\u{feff}a\r\n\nb".as_bytes(), 2), b"a\n\n");
    assert_eq!(head(b"a\nb", 5), b"a\nb\n");
    assert!(head(b"a\nb", 0).is_empty());
}

#[test]
fn a_large_sample_holds_every_line_that_is_not_blank() {
    assert_eq!(sample(b"a\n\nb\r\n  \nc", 10, 3), b"a\nb\nc\n");
    assert!(sample(b"a\nb\n", 0, 3).is_empty());
}

#[test]
fn samples_keep_the_order_of_the_file() {
    let input: String = (0..1000).map(|i| format!("{i}\n")).collect();
    let out = String::from_utf8(sample(input.as_bytes(), 20, 5)).unwrap();
    let picked: Vec<u64> = out.lines().map(|l| l.parse().unwrap()).collect();
    assert_eq!(picked.len(), 20);
    assert!(picked.windows(2).all(|w| w[0] < w[1]));
    assert_ne!(sample(input.as_bytes(), 20, 6), out.into_bytes());
}

#[test]
fn excerpts_can_be_streamed() {
    let input = b"a\nb\n\nc\nd\n";
    let mut splitter = LineSplitter::new();
    let mut first = HeadPass::new(2);
    let mut picked = SamplePass::new(2, 9);
    let mut out = Vec::new();
    for raw in input.split_inclusive(|b| *b == b'\n') {
        let line = splitter.accept(raw);
        if first.wants_line() {
            first.take_line(&line, &mut out);
        }
        picked.take_line(&line);
    }
    assert_eq!(out, head(input, 2));
    assert_eq!(picked.finish(), sample(input, 2, 9));
}
