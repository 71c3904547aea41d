use transitive_closure::loader::{parse_field, parse_line, parse_lines};

#[test]
fn a_line_is_two_numbers_and_a_tab() {
    assert_eq!(parse_line(b"1\t2"), Some((1, 2)));
    assert_eq!(parse_line(b"0\t0"), Some((0, 0)));
    assert_eq!(parse_line(b"007\t0042"), Some((7, 42)));
    assert_eq!(parse_line(b"4294967295\t4294967295"), Some((4294967295, 4294967295)));
    assert_eq!(parse_line(b"123456\t7890"), Some((123456, 7890)));
}

#[test]
fn a_number_beyond_32_bits_is_malformed() {
    assert_eq!(parse_line(b"4294967296\t1"), None);
    assert_eq!(parse_line(b"1\t4294967296"), None);
    assert_eq!(parse_line(b"99999999999999999999999999\t1"), None);
    assert_eq!(parse_line(b"00000000000000000000000001\t1"), Some((1, 1)));
}

#[test]
fn a_line_without_a_tab_is_malformed() {
    assert_eq!(parse_line(b""), None);
    assert_eq!(parse_line(b"12"), None);
    assert_eq!(parse_line(b"1 2"), None);
    assert_eq!(parse_line(b"1,2"), None);
}

#[test]
fn a_missing_field_is_malformed() {
    assert_eq!(parse_line(b"1\t"), None);
    assert_eq!(parse_line(b"\t2"), None);
    assert_eq!(parse_line(b"\t"), None);
}

#[test]
fn a_field_that_is_not_a_number_is_malformed() {
    assert_eq!(parse_line(b"a\t2"), None);
    assert_eq!(parse_line(b"1\tb"), None);
    assert_eq!(parse_line(b"-1\t2"), None);
    assert_eq!(parse_line(b"1\t2 "), None);
    assert_eq!(parse_line(b" 1\t2"), None);
    assert_eq!(parse_line(b"1\t2\t3"), None);
    assert_eq!(parse_line(b"1\t\t2"), None);
    assert_eq!(parse_line(b"1.5\t2"), None);
    assert_eq!(parse_line(b"1\t2\r"), None);
}

#[test]
fn a_field_is_read_between_its_bounds() {
    assert_eq!(parse_field(b"xx123yy", 2, 5), Some(123));
    assert_eq!(parse_field(b"xx123yy", 2, 6), None);
    assert_eq!(parse_field(b"xx123yy", 2, 2), None);
    assert_eq!(parse_field(b"9", 0, 1), Some(9));
    assert_eq!(parse_field(b"/:", 0, 1), None);
    assert_eq!(parse_field(b"/:", 1, 2), None);
}

#[test]
fn lines_give_their_edges_in_order() {
    let lines = vec![b"3\t4".to_vec(), b"1\t2".to_vec(), b"3\t4".to_vec()];
    assert_eq!(parse_lines(&lines), Some(vec![(3, 4), (1, 2), (3, 4)]));
    assert_eq!(parse_lines(&Vec::new()), Some(Vec::new()));
}

#[test]
fn one_malformed_line_fails_the_whole_list() {
    let lines = vec![b"3\t4".to_vec(), b"oops".to_vec(), b"5\t6".to_vec()];
    assert_eq!(parse_lines(&lines), None);
    let lines = vec![b"3\t4".to_vec(), b"".to_vec()];
    assert_eq!(parse_lines(&lines), None);
}
