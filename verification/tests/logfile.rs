use live_recordings::logfile::{frame_index_file, queue_lines, IndexFile};
use live_recordings::text::{chars_of, is_whitespace, lines_in, string_of, trim_range};

fn lines(content: &str) -> Vec<String> {
    match frame_index_file(content) {
        IndexFile::Lines(lines) => lines,
        other => panic!("not a log: {:?}", other),
    }
}

fn std_lines(content: &str) -> Vec<String> {
    content
        .lines()
        .map(|l| l.trim())
        .filter(|l| !l.is_empty())
        .map(|l| l.to_string())
        .collect()
}

#[test]
fn an_index_file_of_white_space_is_empty() {
    assert!(matches!(frame_index_file(""), IndexFile::Empty));
    assert!(matches!(frame_index_file(" \n\t\r\n "), IndexFile::Empty));
    assert!(matches!(frame_index_file("\u{a0}\u{3000}"), IndexFile::Empty));
}

#[test]
fn an_index_file_that_begins_with_a_bracket_is_one_array() {
    match frame_index_file("  \n[{\"a\":1},\n {\"b\":2}]\n\n") {
        IndexFile::Array(text) => assert_eq!(text, "[{\"a\":1},\n {\"b\":2}]"),
        other => panic!("not an array: {:?}", other),
    }
    match frame_index_file("[") {
        IndexFile::Array(text) => assert_eq!(text, "["),
        other => panic!("not an array: {:?}", other),
    }
}

#[test]
fn an_index_log_is_cut_into_its_lines() {
    assert_eq!(lines("{\"a\":1}\n{\"b\":2}\n"), vec!["{\"a\":1}", "{\"b\":2}"]);
    assert_eq!(lines("{\"a\":1}\r\n\r\n  {\"b\":2}  "), vec!["{\"a\":1}", "{\"b\":2}"]);
    assert_eq!(lines("\n\n x \n\n\n y\n \n"), vec!["x", "y"]);
    assert_eq!(lines("x"), vec!["x"]);
    // a bracket further down does not make an array
    assert_eq!(lines("{}\n[1]"), vec!["{}", "[1]"]);
    // a line that is cut off in the middle is still handed out, as it is
    assert_eq!(lines("{\"a\":1}\n{\"b\""), vec!["{\"a\":1}", "{\"b\""]);
}

#[test]
fn queue_lines_are_the_trimmed_lines_that_hold_something() {
    assert_eq!(queue_lines(""), Vec::<String>::new());
    assert_eq!(queue_lines("\n\n"), Vec::<String>::new());
    assert_eq!(queue_lines("a\nb"), vec!["a", "b"]);
    assert_eq!(queue_lines("  a \r\n\n\tb\n"), vec!["a", "b"]);
    // the queue is never read as an array
    assert_eq!(queue_lines("[1,\n2]"), vec!["[1,", "2]"]);
}

#[test]
fn lines_agree_with_the_standard_library() {
    for content in [
        "",
        "\n",
        "a",
        "a\n",
        "\na",
        "a\r\nb\r\n",
        "a\rb\n",
        " a b \n\u{2003}c\u{85}\n",
        "x\n\n\ny",
        "\u{feff}a\n",
        "tab\there\n \u{200b} \n",
        "é\nü\n",
    ] {
        assert_eq!(queue_lines(content), std_lines(content), "{:?}", content);
        if !content.trim().is_empty() && !content.trim().starts_with('[') {
            assert_eq!(lines(content), std_lines(content.trim()), "{:?}", content);
        }
    }
}

#[test]
fn white_space_is_what_the_standard_library_calls_white_space() {
    let mut c = 0u32;
    while c <= 0x10ffff {
        if let Some(ch) = char::from_u32(c) {
            assert_eq!(is_whitespace(ch), ch.is_whitespace(), "U+{:04X}", c);
        }
        c += 1;
    }
    assert!(!is_whitespace('\u{feff}'));
    assert!(!is_whitespace('\u{10ffff}'));
}

#[test]
fn trimming_a_range_gives_the_bounds_of_what_is_left() {
    let chars = chars_of("ab  cd \n ef  ");
    assert_eq!(chars.len(), 13);
    assert_eq!(trim_range(&chars, 0, 13), (0, 11));
    assert_eq!(trim_range(&chars, 2, 8), (4, 6));
    assert_eq!(trim_range(&chars, 2, 4), (4, 4));
    assert_eq!(trim_range(&chars, 5, 5), (5, 5));
    assert_eq!(string_of(&chars, 4, 6), "cd");
    assert_eq!(string_of(&chars, 0, 0), "");
    assert_eq!(lines_in(&chars, 2, 13), vec!["cd", "ef"]);
    assert_eq!(lines_in(&chars, 0, 5), vec!["ab  c"]);
}

#[test]
fn characters_are_counted_not_bytes() {
    let chars = chars_of("é\u{3000}ü");
    assert_eq!(chars, vec!['é', '\u{3000}', 'ü']);
    assert_eq!(string_of(&chars, 0, 3), "é\u{3000}ü");
    assert_eq!(trim_range(&chars, 1, 3), (2, 3));
}
