use mandelbrot::parse::{find_delim, join_pair, parse_pair, parse_value, split_pair};

#[test]
fn test_parse_pair() {
    assert_eq!(parse_pair::<i32>("", ","), None);
    assert_eq!(parse_pair::<i32>("10,", ","), None);
    assert_eq!(parse_pair::<i32>("10,100", ","), Some((10, 100)));
    assert_eq!(parse_pair::<i32>(",100", ","), None);
    assert_eq!(parse_pair::<f64>("10,20xy", ","), None);
    assert_eq!(parse_pair::<f64>("0.5x1.5", "x"), Some((0.5, 1.5)));
}

#[test]
fn parse_pair_reads_pixel_bounds() {
    assert_eq!(parse_pair::<usize>("1000x750", "x"), Some((1000, 750)));
}

#[test]
fn parse_pair_reads_plane_corner() {
    assert_eq!(parse_pair::<f64>("-1.20,0.35", ","), Some((-1.20, 0.35)));
    assert_eq!(parse_pair::<f64>("-8,17.5", ","), Some((-8.0, 17.5)));
}

#[test]
fn parse_pair_without_delimiter_fails() {
    assert_eq!(parse_pair::<usize>("1000", "x"), None);
    assert_eq!(parse_pair::<usize>("1000,750", "x"), None);
}

#[test]
fn parse_pair_cuts_at_first_delimiter() {
    assert_eq!(parse_pair::<i32>("1,2,3", ","), None);
    assert_eq!(split_pair("1,2,3", ","), Some(("1", "2,3")));
}

#[test]
fn split_pair_skips_the_whole_delimiter() {
    assert_eq!(split_pair("3::4", "::"), Some(("3", "4")));
    assert_eq!(parse_pair::<u8>("3::4", "::"), Some((3, 4)));
}

#[test]
fn split_pair_keeps_empty_sides() {
    assert_eq!(split_pair(",", ","), Some(("", "")));
    assert_eq!(split_pair("ab,", ","), Some(("ab", "")));
    assert_eq!(split_pair("", ","), None);
}

#[test]
fn find_delim_gives_first_byte_position() {
    assert_eq!(find_delim("10x20x30", "x"), Some(2));
    assert_eq!(find_delim("10,20", "x"), None);
    assert_eq!(find_delim("ab", "abc"), None);
    assert_eq!(find_delim("abc", "abc"), Some(0));
    assert_eq!(find_delim("abc", ""), Some(0));
}

#[test]
fn find_delim_counts_bytes_of_wide_characters() {
    assert_eq!(find_delim("\u{e9}\u{e9}x1", "x"), Some(4));
    assert_eq!(split_pair("\u{e9}x\u{e9}", "x"), Some(("\u{e9}", "\u{e9}")));
    assert_eq!(find_delim("a\u{e9}b", "\u{e9}"), Some(1));
}

#[test]
fn join_pair_needs_both_sides() {
    assert_eq!(join_pair(Some(1), Some(2)), Some((1, 2)));
    assert_eq!(join_pair(Some(1), None), None);
    assert_eq!(join_pair::<i32>(None, Some(2)), None);
    assert_eq!(join_pair::<i32>(None, None), None);
}

#[test]
fn parse_pair_rejects_an_empty_side_even_where_it_would_parse() {
    assert_eq!("".parse::<String>(), Ok(String::new()));
    assert_eq!(parse_pair::<String>("ab,", ","), None);
    assert_eq!(parse_pair::<String>(",ab", ","), None);
    assert_eq!(parse_pair::<String>(",", ","), None);
    assert_eq!(
        parse_pair::<String>("ab,cd", ","),
        Some((String::from("ab"), String::from("cd")))
    );
}

#[test]
fn parse_pair_round_trips_formatted_pairs() {
    for &(x, y) in &[(0i32, 0i32), (10, 100), (-8, 17), (i32::MIN, i32::MAX)] {
        for delim in [",", "x"] {
            let s = format!("{}{}{}", x, delim, y);
            assert_eq!(parse_pair::<i32>(&s, delim), Some((x, y)));
        }
    }
}

#[test]
fn parse_value_reads_one_value() {
    assert_eq!(parse_value::<i32>("-42"), Some(-42));
    assert_eq!(parse_value::<i32>("4x2"), None);
    assert_eq!(parse_value::<f64>("0.25"), Some(0.25));
}
