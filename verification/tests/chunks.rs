use deslop::chunks::split_chunks;

#[test]
fn splits_on_blank_lines() {
    let chunks = split_chunks("# Title\n\npara one\nstill one\n\npara two\n");
    assert_eq!(chunks, vec!["# Title", "para one\nstill one", "para two"]);
}

#[test]
fn keeps_code_fence_whole() {
    let chunks = split_chunks("before\n\n```rust\nlet a = 1;\n\nlet b = 2;\n```\n\nafter\n");
    assert_eq!(chunks.len(), 3);
    assert!(chunks[1].contains("let a = 1;\n\nlet b = 2;"));
}

#[test]
fn empty_input() {
    assert!(split_chunks("\n\n  \n").is_empty());
}

use deslop::text::{is_whitespace, join_lines, join_strings, lines_of, with_trailing_newline};

#[test]
fn paragraph_lines_stay_together() {
    let chunks = split_chunks("one\ntwo\nthree");
    assert_eq!(chunks, vec!["one\ntwo\nthree"]);
}

#[test]
fn several_blank_lines_separate_once() {
    let chunks = split_chunks("\n\na\n\n\n   \t\nb\n\n");
    assert_eq!(chunks, vec!["a", "b"]);
}

#[test]
fn tilde_fence_keeps_blank_lines() {
    let chunks = split_chunks("~~~\nx\n\ny\n~~~\n\nz");
    assert_eq!(chunks, vec!["~~~\nx\n\ny\n~~~", "z"]);
}

#[test]
fn fence_closes_only_with_long_enough_run() {
    let chunks = split_chunks("````\na\n```\n\nb\n````\n\nc");
    assert_eq!(chunks, vec!["````\na\n```\n\nb\n````", "c"]);
}

#[test]
fn fence_closes_only_with_same_marker() {
    let chunks = split_chunks("```\na\n~~~\n\nb\n```\n\nc");
    assert_eq!(chunks, vec!["```\na\n~~~\n\nb\n```", "c"]);
}

#[test]
fn indented_fence_is_a_fence() {
    let chunks = split_chunks("  ```\n  a\n\n  b\n  ```\n\nc");
    assert_eq!(chunks, vec!["  ```\n  a\n\n  b\n  ```", "c"]);
}

#[test]
fn two_backticks_are_no_fence() {
    let chunks = split_chunks("``a``\n\nb");
    assert_eq!(chunks, vec!["``a``", "b"]);
}

#[test]
fn unclosed_fence_runs_to_the_end() {
    let chunks = split_chunks("p\n\n```\ncode\n\nmore\n\n");
    assert_eq!(chunks, vec!["p", "```\ncode\n\nmore\n"]);
}

#[test]
fn fence_right_after_paragraph_joins_it() {
    let chunks = split_chunks("text\n```\na\n\nb\n```\nafter\n\nend");
    assert_eq!(chunks, vec!["text\n```\na\n\nb\n```\nafter", "end"]);
}

#[test]
fn crlf_line_endings() {
    let chunks = split_chunks("a\r\nb\r\n\r\nc\r\n");
    assert_eq!(chunks, vec!["a\nb", "c"]);
}

#[test]
fn unicode_whitespace_line_is_blank() {
    let chunks = split_chunks("a\n\u{a0}\u{2003}\nb");
    assert_eq!(chunks, vec!["a", "b"]);
}

#[test]
fn whitespace_only_text_has_no_chunk() {
    assert!(split_chunks("").is_empty());
    assert!(split_chunks(" \t\r\n\u{3000}\n").is_empty());
    assert!(!split_chunks(" \n x \n").is_empty());
}

#[test]
fn no_chunk_is_blank() {
    for text in ["a\n\n b \n\n```\n\n\n", "x\n  \ny", "```\n\n", "~~~\n\n~~~"] {
        for chunk in split_chunks(text) {
            assert!(!chunk.trim().is_empty(), "{:?} from {:?}", chunk, text);
        }
    }
}

#[test]
fn final_line_ending_is_optional() {
    for text in ["a\n\nb", "```\nx\n\ny", "", "one\ntwo"] {
        let with_newline = format!("{}\n", text);
        assert_eq!(split_chunks(&with_newline), split_chunks(text));
    }
}

#[test]
fn blank_line_separates_chunks() {
    let a = "x\ny";
    let c = "z\n\nw";
    let joined = format!("{}\n\n{}", a, c);
    let mut expected = split_chunks(a);
    expected.extend(split_chunks(c));
    assert_eq!(split_chunks(&joined), expected);
}

#[test]
fn lines_match_std_lines() {
    for text in [
        "", "\n", "a", "a\n", "a\r\n", "a\r", "a\r\r\n", "\r\n\r\n", "a\n\nb\r\nc\r", "\n\n\n",
        "x\ry\nz", "é\u{2028}ü\n",
    ] {
        let ours = lines_of(text);
        let std_lines: Vec<String> = text.lines().map(String::from).collect();
        assert_eq!(ours, std_lines, "{:?}", text);
    }
}

#[test]
fn whitespace_matches_std() {
    for v in 0u32..0x3100 {
        if let Some(c) = char::from_u32(v) {
            assert_eq!(is_whitespace(c), c.is_whitespace(), "{:?}", c);
        }
    }
    for c in ['\u{feff}', '\u{10ffff}', 'a', '\u{205f}', '\u{180e}'] {
        assert_eq!(is_whitespace(c), c.is_whitespace(), "{:?}", c);
    }
}

#[test]
fn join_matches_std_join() {
    let parts = vec!["a".to_string(), "".to_string(), "bc".to_string()];
    assert_eq!(join_strings(&parts, "--"), parts.join("--"));
    assert_eq!(join_lines(&parts), "a\n\nbc");
    assert_eq!(join_lines(&Vec::new()), "");
}

#[test]
fn trailing_newline_added_once() {
    assert_eq!(with_trailing_newline("abc"), "abc\n");
    assert_eq!(with_trailing_newline("abc\n"), "abc\n");
    assert_eq!(with_trailing_newline(""), "\n");
    assert_eq!(with_trailing_newline("a\r"), "a\r\n");
}

#[test]
fn chunks_round_trip() {
    for text in [
        "# Title\n\npara one\nstill one\n\npara two\n",
        "before\n\n```rust\nlet a = 1;\n\nlet b = 2;\n```\n\nafter\n",
        "a\n```\nx\n\ny\n```\nb\n\n\n\nc",
        "x\n\n```\nopen fence\n\nstill",
        "",
    ] {
        let cs = split_chunks(text);
        assert_eq!(split_chunks(&cs.join("\n\n")), cs, "{:?}", text);
    }
}

#[test]
fn every_chunk_starts_with_text() {
    for text in ["\n\n  a\nb\n\n```\n\nx\n```", "  \n\t\n~~~\n\n"] {
        for chunk in split_chunks(text) {
            let first = chunk.split('\n').next().unwrap();
            assert!(!first.trim().is_empty(), "{:?}", chunk);
        }
    }
}
