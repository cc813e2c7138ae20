use jsonl_peek::lines::{LineReader, LineSplitter};

fn collect(input: &[u8]) -> Vec<(u64, String, usize)> {
    let mut reader = LineReader::new(input);
    let mut out = Vec::new();
    while let Some(line) = reader.next_line() {
        out.push((
            line.number,
            String::from_utf8_lossy(line.bytes).into_owned(),
            line.raw_len,
        ));
    }
    assert_eq!(reader.bytes_read(), input.len() as u64);
    assert_eq!(reader.lines_read(), out.len() as u64);
    out
}

#[test]
fn splits_unix_lines() {
    let got = collect(b"a\nbb\nccc\n");
    assert_eq!(
        got,
        vec![
            (1, "a".to_string(), 2),
            (2, "bb".to_string(), 3),
            (3, "ccc".to_string(), 4)
        ]
    );
}

#[test]
fn handles_crlf_and_missing_final_newline() {
    let got = collect(b"a\r\nb");
    assert_eq!(got, vec![(1, "a".to_string(), 3), (2, "b".to_string(), 1)]);
}

#[test]
fn strips_a_leading_bom_only_once() {
    let got = collect("\u{feff}first\nsecond\n".as_bytes());
    assert_eq!(got[0].1, "first");
    assert_eq!(got[1].1, "second");
    // The BOM still counts towards the bytes consumed from the file.
    assert_eq!(got[0].2, 9);
}

#[test]
fn empty_input_yields_no_lines() {
    assert!(collect(b"").is_empty());
    // A file that is a single newline still has one (blank) line.
    assert_eq!(collect(b"\n"), vec![(1, String::new(), 1)]);
}

#[test]
fn detects_blank_lines() {
    let mut reader = LineReader::new(&b"   \n{}\n"[..]);
    assert!(reader.next_line().unwrap().is_blank());
    assert!(!reader.next_line().unwrap().is_blank());
    assert!(reader.next_line().is_none());
}

#[test]
fn a_bom_only_line_is_empty_not_negative() {
    let got = collect("\u{feff}\nx\n".as_bytes());
    assert_eq!(got, vec![(1, String::new(), 4), (2, "x".to_string(), 2)]);
}

#[test]
fn a_final_newline_adds_no_line() {
    assert_eq!(collect(b"a\nb\n").len(), 2);
    assert_eq!(collect(b"a\nb").len(), 2);
    assert_eq!(collect(b"a\nb\n\n").len(), 3);
}

#[test]
fn a_carriage_return_alone_stays() {
    assert_eq!(collect(b"a\rb\n"), vec![(1, "a\rb".to_string(), 4)]);
    assert_eq!(collect(b"a\r"), vec![(1, "a\r".to_string(), 2)]);
    assert_eq!(collect(b"a\r\r\n"), vec![(1, "a\r".to_string(), 4)]);
}

#[test]
fn a_mark_further_on_is_content() {
    let got = collect("a\n\u{feff}b\n".as_bytes());
    assert_eq!(got[1].1, "\u{feff}b");
}

#[test]
fn raw_lines_can_be_taken_one_by_one() {
    let mut splitter = LineSplitter::new();
    let first = splitter.accept(b"a\r\n");
    assert_eq!((first.number, first.bytes, first.raw_len), (1, &b"a"[..], 3));
    let second = splitter.accept(b"b");
    assert_eq!((second.number, second.bytes, second.raw_len), (2, &b"b"[..], 1));
    assert_eq!(splitter.bytes_read(), 4);
    assert_eq!(splitter.lines_read(), 2);
}

#[test]
fn blank_lines_hold_ascii_white_space_only() {
    let blank = |bytes: &[u8]| LineReader::new(bytes).next_line().unwrap().is_blank();
    assert!(blank(b"\t \x0c\r\n"));
    assert!(!blank("\u{a0}\n".as_bytes()));
    assert!(!blank(b"\x0b\n"));
}

#[test]
fn a_leading_mark_adds_bytes_but_no_content() {
    for text in ["a\nb", "\n", "x", "a\r\n\nb\n"] {
        let plain: Vec<String> = collect(text.as_bytes()).into_iter().map(|l| l.1).collect();
        let marked = collect(format!("\u{feff}{text}").as_bytes());
        assert_eq!(marked.into_iter().map(|l| l.1).collect::<Vec<String>>(), plain);
    }
}
