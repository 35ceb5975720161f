use automata::hoa::{find_bytes, first_automaton_split_position};

#[test]
fn first_automaton_split_and_abort() {
    let contents = "HOA: v1\n--END--\nHOA: v1\n--ABORT--\nHOA: v1\n--END--\n";

    let first = first_automaton_split_position(contents);
    assert_eq!(first, Some(15));
}

#[test]
fn split_position_edge_cases() {
    assert_eq!(first_automaton_split_position(""), None);
    assert_eq!(first_automaton_split_position("HOA: v1\n--BODY--\n"), None);
    assert_eq!(first_automaton_split_position("--END--"), Some(7));
    assert_eq!(first_automaton_split_position("x--ABORT--y--END--"), None);
    assert_eq!(first_automaton_split_position("--END----ABORT--"), Some(7));
    assert_eq!(first_automaton_split_position("\u{e9}--END--"), Some(9));
    assert_eq!(first_automaton_split_position("--END-"), None);
    assert_eq!(find_bytes(b"abcabc", b"bc"), Some(1));
    assert_eq!(find_bytes(b"abcabc", b""), Some(0));
    assert_eq!(find_bytes(b"ab", b"abc"), None);
}
