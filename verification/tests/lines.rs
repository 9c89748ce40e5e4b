use bytescan::{fast_lines, lines_of};

fn collect(buf: &str) -> Vec<String> {
    let mut it = fast_lines(buf);
    let mut out: Vec<String> = Vec::new();
    while let Some(line) = it.next() {
        out.push(line.to_string());
    }
    out
}

#[test]
fn mixed_terminators_yield_three_lines() {
    let mut it = fast_lines("a\nb\r\nc");
    assert_eq!(it.next(), Some("a"));
    assert_eq!(it.next(), Some("b"));
    assert_eq!(it.next(), Some("c"));
    assert_eq!(it.next(), None);
}

#[test]
fn empty_buffer_yields_no_lines() {
    let mut it = fast_lines("");
    assert_eq!(it.next(), None);
    assert_eq!(it.next(), None);
}

#[test]
fn trailing_terminator_adds_no_empty_line() {
    let mut it = fast_lines("a\n");
    assert_eq!(it.next(), Some("a"));
    assert_eq!(it.next(), None);
}

#[test]
fn unterminated_buffer_is_one_whole_line() {
    let mut it = fast_lines("no terminator here");
    assert_eq!(it.next(), Some("no terminator here"));
    assert_eq!(it.next(), None);
}

#[test]
fn lone_newline_is_one_empty_line() {
    let mut it = fast_lines("\n");
    assert_eq!(it.next(), Some(""));
    assert_eq!(it.next(), None);
}

#[test]
fn exhaustion_is_permanent() {
    let mut it = fast_lines("x");
    assert_eq!(it.next(), Some("x"));
    assert_eq!(it.next(), None);
    assert_eq!(it.next(), None);
    assert_eq!(it.next(), None);
}

#[test]
fn crlf_is_stripped_as_one_terminator() {
    assert_eq!(collect("ab\r\ncd"), vec!["ab", "cd"]);
    assert_eq!(collect("\r\n"), vec![""]);
}

#[test]
fn bare_carriage_return_stays_in_the_line() {
    assert_eq!(collect("a\rb\nc"), vec!["a\rb", "c"]);
}

#[test]
fn carriage_return_only_at_line_start_is_kept() {
    assert_eq!(collect("\ra\n"), vec!["\ra"]);
}

#[test]
fn empty_lines_between_terminators() {
    assert_eq!(collect("a\n\nb"), vec!["a", "", "b"]);
}

#[test]
fn multi_byte_text_splits_cleanly() {
    // Continuation bytes of multi-byte characters never equal the
    // terminator bytes, so non-ASCII lines come through verbatim.
    assert_eq!(collect("na\u{ef}ve\r\n\u{3b1}\u{3b2}\n\u{1f600}"),
        vec!["na\u{ef}ve", "\u{3b1}\u{3b2}", "\u{1f600}"]);
}

#[test]
fn lines_of_matches_step_by_step_iteration() {
    for buf in ["", "a\nb\r\nc", "a\n", "one line", "\n\n\n", "tail\r\n"] {
        let all: Vec<String> = lines_of(buf).iter().map(|l| l.to_string()).collect();
        assert_eq!(all, collect(buf), "buffer {:?}", buf);
    }
}

#[test]
fn remaining_shrinks_to_zero() {
    let mut it = fast_lines("a\nbc");
    assert_eq!(it.remaining(), 4);
    it.next();
    assert_eq!(it.remaining(), 2);
    it.next();
    assert_eq!(it.remaining(), 0);
}

#[test]
fn round_trip_normalizes_terminators() {
    // Joining the yielded lines with a single newline reproduces the input
    // with every "\r\n" reduced to "\n", for inputs not ending in a
    // terminator and free of bare carriage returns.
    for (input, normalized) in [
        ("a\nb\r\nc", "a\nb\nc"),
        ("one", "one"),
        ("", ""),
        ("x\r\ny\r\nz", "x\ny\nz"),
    ] {
        let joined = lines_of(input).join("\n");
        assert_eq!(joined, normalized, "input {:?}", input);
    }
}
