use std::collections::HashSet;
use streamsplit::splitter::{CHUNK_SIZE, ORDINAL_LIMIT};
use streamsplit::text::split_bytes;
use streamsplit::{Progress, Splitter, StreamError};

fn pieces(text: &str, sep: &str) -> Vec<String> {
    split_bytes(text.as_bytes(), sep.as_bytes())
        .into_iter()
        .map(|p| String::from_utf8(p).unwrap())
        .collect()
}

fn pass(splitter: &Splitter, input: &[u8], sep: &str) -> (Result<(), StreamError>, Vec<u8>) {
    let mut output = Vec::new();
    let res = splitter.split_stream(input, &mut output, sep);
    (res, output)
}

fn selecting(indices: &[u32], delimiter: &str) -> Splitter {
    Splitter::Indices {
        indices: indices.iter().copied().collect::<HashSet<u32>>(),
        delimiter: delimiter.to_string(),
    }
}

#[test]
fn split_bytes_cuts_at_each_occurrence() {
    assert_eq!(pieces("a,b,c", ","), vec!["a", "b", "c"]);
    assert_eq!(pieces(",a,,b,", ","), vec!["", "a", "", "b", ""]);
    assert_eq!(pieces("abc", ","), vec!["abc"]);
    assert_eq!(pieces("", ","), vec![""]);
    assert_eq!(pieces("a", "abc"), vec!["a"]);
}

#[test]
fn split_bytes_takes_occurrences_leftmost_without_overlap() {
    assert_eq!(pieces("aaa", "aa"), vec!["", "a"]);
    assert_eq!(pieces("aaaa", "aa"), vec!["", "", ""]);
    assert_eq!(pieces("xababay", "aba"), vec!["x", "bay"]);
    assert_eq!(pieces("one--two---three", "--"), vec!["one", "two", "-three"]);
}

#[test]
fn split_bytes_on_the_empty_separator_cuts_between_characters() {
    assert_eq!(pieces("ab", ""), vec!["", "a", "b", ""]);
    assert_eq!(pieces("", ""), vec!["", ""]);
    assert_eq!(pieces("a\u{e9}\u{20ac}z", ""), vec!["", "a", "\u{e9}", "\u{20ac}", "z", ""]);
}

#[test]
fn split_bytes_agrees_with_str_split() {
    let texts = ["", " ", "a b", "  a  b  ", "h\u{e9}llo w\u{f6}rld", "aaaa", "abcabcabc", "\u{1f600}x\u{1f600}"];
    let seps = ["", " ", "a", "aa", "bc", "\u{e9}", "\u{1f600}", "abcabcabcabc"];
    for text in texts {
        for sep in seps {
            let expect: Vec<String> = text.split(sep).map(|p| p.to_string()).collect();
            assert_eq!(pieces(text, sep), expect, "{:?} on {:?}", text, sep);
        }
    }
}

#[test]
fn replace_joins_every_piece() {
    let splitter = Splitter::Replace("--".to_string());
    let (res, out) = pass(&splitter, b"a b c", " ");
    assert_eq!(res, Ok(()));
    assert_eq!(out, b"a--b--c");
}

#[test]
fn replace_with_the_separator_itself_gives_the_input_back() {
    let splitter = Splitter::Replace(" ".to_string());
    let input = "hello world  what is  going on ";
    let (res, out) = pass(&splitter, input.as_bytes(), " ");
    assert_eq!(res, Ok(()));
    assert_eq!(out, input.as_bytes());
}

#[test]
fn replace_without_an_occurrence_gives_the_input_back() {
    let splitter = Splitter::Replace("\n".to_string());
    let input = "x".repeat(3 * CHUNK_SIZE + 17);
    let (res, out) = pass(&splitter, input.as_bytes(), " ");
    assert_eq!(res, Ok(()));
    assert_eq!(out, input.as_bytes());
}

#[test]
fn empty_input_writes_nothing() {
    let (res, out) = pass(&Splitter::Replace("\n".to_string()), b"", " ");
    assert_eq!(res, Ok(()));
    assert!(out.is_empty());
    let (res, out) = pass(&selecting(&[0], "\n"), b"", " ");
    assert_eq!(res, Ok(()));
    assert!(out.is_empty());
}

#[test]
fn output_is_appended() {
    let mut output = b"seen:".to_vec();
    Splitter::Replace(",".to_string())
        .split_stream(b"a b", &mut output, " ")
        .unwrap();
    assert_eq!(output, b"seen:a,b");
}

#[test]
fn indices_pick_by_ordinal() {
    let (res, out) = pass(&selecting(&[1, 3], "\n"), b"hello world what is going on", " ");
    assert_eq!(res, Ok(()));
    assert_eq!(out, b"world\nis");
    let (_, out) = pass(&selecting(&[0], "\n"), b"hello\nworld", " ");
    assert_eq!(out, b"hello\nworld");
    let (_, out) = pass(&selecting(&[0, 5], "+"), b"a b c d e f", " ");
    assert_eq!(out, b"a+f");
}

#[test]
fn indices_beyond_the_pieces_write_nothing() {
    let (res, out) = pass(&selecting(&[6, 7, 100], "\n"), b"hello world what is going on", " ");
    assert_eq!(res, Ok(()));
    assert!(out.is_empty());
    let (_, out) = pass(&selecting(&[], "\n"), b"a b c", " ");
    assert!(out.is_empty());
}

#[test]
fn indices_keep_selected_empty_pieces() {
    let (_, out) = pass(&selecting(&[0, 1, 2], "|"), b"  a", " ");
    assert_eq!(out, b"||a");
}

#[test]
fn separator_across_two_chunks_is_not_seen() {
    let mut input = "x".repeat(CHUNK_SIZE - 1).into_bytes();
    input.extend_from_slice(b"aby");
    let (res, out) = pass(&Splitter::Replace("\n".to_string()), &input, "ab");
    assert_eq!(res, Ok(()));
    assert_eq!(out, input);
}

#[test]
fn no_joiner_between_chunks_when_replacing() {
    let mut input = "x".repeat(CHUNK_SIZE - 2).into_bytes();
    input.extend_from_slice(b" zw q");
    let mut expect = "x".repeat(CHUNK_SIZE - 2).into_bytes();
    expect.extend_from_slice(b"\nzw\nq");
    let (res, out) = pass(&Splitter::Replace("\n".to_string()), &input, " ");
    assert_eq!(res, Ok(()));
    assert_eq!(out, expect);
}

#[test]
fn ordinals_run_on_across_chunks() {
    let mut input = "x".repeat(CHUNK_SIZE - 2).into_bytes();
    input.extend_from_slice(b" zw q");
    let (res, out) = pass(&selecting(&[1, 2], "\n"), &input, " ");
    assert_eq!(res, Ok(()));
    assert_eq!(out, b"z\nw");
    let (_, out) = pass(&selecting(&[3], "\n"), &input, " ");
    assert_eq!(out, b"q");
}

#[test]
fn invalid_utf8_is_a_decode_error() {
    let (res, out) = pass(&Splitter::Replace("\n".to_string()), &[b'a', b' ', 0xff, b'b'], " ");
    assert_eq!(res, Err(StreamError::Decode));
    assert!(out.is_empty());
    let (res, _) = pass(&selecting(&[0], "\n"), &[0xc3], " ");
    assert_eq!(res, Err(StreamError::Decode));
}

#[test]
fn character_across_two_chunks_is_a_decode_error() {
    let mut input = "a ".repeat(CHUNK_SIZE / 2 - 1).into_bytes();
    input.push(b'a');
    input.extend_from_slice("\u{e9}".as_bytes());
    assert_eq!(input.len(), CHUNK_SIZE + 1);
    let (res, out) = pass(&Splitter::Replace(" ".to_string()), &input, " ");
    assert_eq!(res, Err(StreamError::Decode));
    assert!(out.is_empty());
}

#[test]
fn what_was_written_before_a_decode_error_stays() {
    let mut input = "a ".repeat(CHUNK_SIZE / 2).into_bytes();
    input.extend_from_slice(&[b'b', 0x80]);
    let (res, out) = pass(&Splitter::Replace(" ".to_string()), &input, " ");
    assert_eq!(res, Err(StreamError::Decode));
    assert_eq!(out, "a ".repeat(CHUNK_SIZE / 2).into_bytes());
}

#[test]
fn chunk_steps_carry_the_state() {
    let splitter = selecting(&[1, 2], ",");
    let mut progress = Progress::new();
    let mut output = Vec::new();
    assert_eq!(progress, Progress { seen: 0, wrote: false });
    splitter.split_chunk(b"a b", " ", &mut progress, &mut output).unwrap();
    assert_eq!(progress, Progress { seen: 2, wrote: true });
    assert_eq!(output, b"b");
    splitter.split_chunk(b"c d", " ", &mut progress, &mut output).unwrap();
    assert_eq!(progress, Progress { seen: 4, wrote: true });
    assert_eq!(output, b"b,c");
}

#[test]
fn chunk_step_refuses_invalid_utf8_and_changes_nothing() {
    let splitter = selecting(&[0], ",");
    let mut progress = Progress { seen: 3, wrote: true };
    let mut output = b"kept".to_vec();
    let res = splitter.split_chunk(&[b'a', 0xe2, 0x82], " ", &mut progress, &mut output);
    assert_eq!(res, Err(StreamError::Decode));
    assert_eq!(progress, Progress { seen: 3, wrote: true });
    assert_eq!(output, b"kept");
}

#[test]
fn chunk_step_leaves_the_state_alone_when_replacing() {
    let splitter = Splitter::Replace("-".to_string());
    let mut progress = Progress::new();
    let mut output = Vec::new();
    splitter.split_chunk(b"a b", " ", &mut progress, &mut output).unwrap();
    splitter.split_chunk(b"c d", " ", &mut progress, &mut output).unwrap();
    assert_eq!(progress, Progress { seen: 0, wrote: false });
    assert_eq!(output, b"a-bc-d");
}

#[test]
fn count_stops_at_the_limit() {
    let splitter = selecting(&[u32::MAX], ",");
    let mut progress = Progress { seen: ORDINAL_LIMIT - 1, wrote: false };
    let mut output = Vec::new();
    splitter.split_chunk(b"a b c", " ", &mut progress, &mut output).unwrap();
    assert_eq!(progress, Progress { seen: ORDINAL_LIMIT, wrote: true });
    assert_eq!(output, b"a");
    splitter.split_chunk(b"d e", " ", &mut progress, &mut output).unwrap();
    assert_eq!(progress, Progress { seen: ORDINAL_LIMIT, wrote: true });
    assert_eq!(output, b"a");
}

#[test]
fn multibyte_separator_and_joiner() {
    let splitter = Splitter::Replace("\u{2192}".to_string());
    let (res, out) = pass(&splitter, "a\u{e9}b\u{e9}c".as_bytes(), "\u{e9}");
    assert_eq!(res, Ok(()));
    assert_eq!(out, "a\u{2192}b\u{2192}c".as_bytes());
}

#[test]
fn stream_error_message() {
    assert_eq!(StreamError::Decode.message(), "input is not valid UTF-8");
}
