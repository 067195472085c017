use one_line::one_line_solver;
use one_line::text::{format_trails, parse_edges, parse_i32, parse_trails, split_bytes};

#[test]
fn reads_pairs() {
    assert_eq!(parse_edges(b"1,2/2,3/3,1"), Some(vec![(1, 2), (2, 3), (3, 1)]));
    assert_eq!(parse_edges(b"-5,+7"), Some(vec![(-5, 7)]));
    assert_eq!(parse_edges(b"1,2,9/3,4"), Some(vec![(1, 2), (3, 4)]));
}

#[test]
fn rejects_malformed_pairs() {
    assert_eq!(parse_edges(b""), None);
    assert_eq!(parse_edges(b"1"), None);
    assert_eq!(parse_edges(b"1,2/"), None);
    assert_eq!(parse_edges(b"a,b"), None);
    assert_eq!(parse_edges(b"1, 2"), None);
    assert_eq!(parse_edges(b"1,2/3"), None);
}

#[test]
fn reads_integers_at_the_limits() {
    assert_eq!(parse_i32(&b"2147483647".to_vec()), Some(i32::MAX));
    assert_eq!(parse_i32(&b"-2147483648".to_vec()), Some(i32::MIN));
    assert_eq!(parse_i32(&b"2147483648".to_vec()), None);
    assert_eq!(parse_i32(&b"-2147483649".to_vec()), None);
    assert_eq!(parse_i32(&b"99999999999999999999".to_vec()), None);
    assert_eq!(parse_i32(&b"007".to_vec()), Some(7));
    assert_eq!(parse_i32(&b"-".to_vec()), None);
    assert_eq!(parse_i32(&b"+".to_vec()), None);
    assert_eq!(parse_i32(&b"".to_vec()), None);
    assert_eq!(parse_i32(&b"1-".to_vec()), None);
}

#[test]
fn splits_at_every_separator() {
    assert_eq!(split_bytes(b"", b'/'), vec![Vec::<u8>::new()]);
    assert_eq!(split_bytes(b"a//b/", b'/'), vec![b"a".to_vec(), vec![], b"b".to_vec(), vec![]]);
}

#[test]
fn writes_drawings() {
    let r = vec![vec![1, 2, 3, 1], vec![1, 3, 2, 1]];
    assert_eq!(format_trails(&r), b"1,2,3,1/1,3,2,1".to_vec());
    assert_eq!(format_trails(&vec![vec![-10, 0, 2147483647, -2147483648]]), b"-10,0,2147483647,-2147483648".to_vec());
    assert_eq!(format_trails(&Vec::new()), Vec::<u8>::new());
}

#[test]
fn drawings_round_trip() {
    let r = vec![vec![1, 2, 3, 1], vec![-4, 50, 600], vec![7]];
    let text = format_trails(&r);
    assert_eq!(parse_trails(&text), Some(r));
}

#[test]
fn solves_from_text() {
    assert_eq!(one_line_solver("1,2/2,3/3,1", 1, 0), "1,2,3,1/1,3,2,1");
    assert_eq!(one_line_solver("1,2/2,3/3,1", 1, 1), "1,2,3,1");
    assert_eq!(one_line_solver("1,2/2,3", 2, 0), "");
    assert_eq!(one_line_solver("1,2/2,3", 1, 0), "1,2,3");
    assert_eq!(one_line_solver("10,-20", -20, 0), "-20,10");
}
