use bitpart::parser::{COLORS_DIMENSION, NASA_DIMENSION};
use bitpart::{parse, parse_array, FileConfig, ParseError};

/// A dataset file with the given header and `lines` lines of `dims` numbers.
fn dataset(dims: usize, lines: usize, third: u64) -> String {
    let mut s = format!("{} {} {}\n", dims, lines, third);
    for i in 0..lines {
        for j in 0..dims {
            if j > 0 {
                s.push(' ');
            }
            s.push_str(if (i + j) % 2 == 0 { "1" } else { "0.5" });
        }
        s.push('\n');
    }
    s
}

#[test]
fn nasa() {
    let input = dataset(20, 40150, 1);
    let (config, vectors) = parse(input.as_bytes()).unwrap().1;

    assert_eq!(config.dimensions, 20);
    assert_eq!(config.lines, 40150);
    assert!(vectors.iter().all(|v| v.len() == config.dimensions as usize));
    assert_eq!(config.lines as usize, vectors.len());
}

#[test]
fn nasa_const() {
    let input = dataset(NASA_DIMENSION, 40150, 1);
    let (config, vectors) = parse_array::<NASA_DIMENSION>(input.as_bytes()).unwrap().1;

    assert_eq!(config.dimensions, 20);
    assert_eq!(config.lines, 40150);
    assert!(vectors.iter().all(|v| v.len() == config.dimensions as usize));
    assert_eq!(config.lines as usize, vectors.len());
}

#[test]
fn colors_const() {
    let input = dataset(COLORS_DIMENSION, 112682, 1);
    let (config, vectors) = parse_array::<COLORS_DIMENSION>(input.as_bytes()).unwrap().1;

    assert_eq!(config.dimensions, 112);
    assert_eq!(config.lines, 112682);
    assert!(vectors.iter().all(|v| v.len() == config.dimensions as usize));
    assert_eq!(config.lines as usize, vectors.len());
}

#[test]
#[should_panic]
fn colors_const_wrong_dim() {
    let input = dataset(COLORS_DIMENSION, 3, 1);
    let (_, _) = parse_array::<1111>(input.as_bytes()).unwrap().1;
}

#[test]
fn token_spans_are_exact() {
    let input = b"2 1 7\n1.5\t-2e3  \nrest";
    let (end, (config, vectors)) = parse(input).unwrap();
    assert_eq!(config, FileConfig { dimensions: 2, lines: 1, mysterious: 7 });
    assert_eq!(vectors, vec![vec![(6, 9), (10, 14)]]);
    assert_eq!(end, 17);
    assert_eq!(&input[end..], b"rest");
}

#[test]
fn reading_stops_at_first_bad_line() {
    let input = b"1 2 0\n4\n5\nx\n";
    let (end, (_, vectors)) = parse(input).unwrap();
    assert_eq!(vectors.len(), 2);
    assert_eq!(end, 10);
}

#[test]
fn blank_line_has_no_tokens() {
    let input = b"0 1 0\n   \n";
    let (_, (config, vectors)) = parse(input).unwrap();
    assert_eq!(config.dimensions, 0);
    assert_eq!(vectors, vec![Vec::<(usize, usize)>::new()]);
}

#[test]
fn header_errors() {
    assert_eq!(parse(b"").unwrap_err(), ParseError::Header);
    assert_eq!(parse(b"a 1 1\n1\n").unwrap_err(), ParseError::Header);
    assert_eq!(parse(b"1 1\n1\n").unwrap_err(), ParseError::Header);
    assert_eq!(parse(b"1 1 1 \n1\n").unwrap_err(), ParseError::Header);
    assert_eq!(parse(b"18446744073709551616 1 1\n1\n").unwrap_err(), ParseError::Header);
    let max = b"18446744073709551615 0 0\n";
    assert_eq!(parse(max).unwrap_err(), ParseError::NoLines);
}

#[test]
fn line_errors() {
    assert_eq!(parse(b"2 1 0\n1\n").unwrap_err(), ParseError::NoLines);
    assert_eq!(parse(b"1 1 0\n 1\n").unwrap_err(), ParseError::NoLines);
    assert_eq!(parse(b"1 1 0\n1").unwrap_err(), ParseError::NoLines);
    assert_eq!(
        parse(b"1 3 0\n1\n2\n").unwrap_err(),
        ParseError::LineCount { expected: 3, found: 2 }
    );
}

#[test]
fn dimension_mismatch_is_refused() {
    let input = dataset(3, 2, 0);
    assert_eq!(
        parse_array::<4>(input.as_bytes()).unwrap_err(),
        ParseError::Dimensions { wanted: 4, declared: 3 }
    );
    assert!(parse_array::<3>(input.as_bytes()).is_ok());
}
