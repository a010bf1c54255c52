use hashlife::{parse_rle, RleError};

fn cells_of(text: &str) -> Vec<(i32, i32)> {
    parse_rle(text.as_bytes()).unwrap().cells
}

#[test]
fn glider_pattern_is_read() {
    let p = parse_rle(b"#N Glider\n#C the smallest spaceship\nx = 3, y = 3, rule = B3/S23\nbo$2bo$3o!\n")
        .unwrap();
    assert_eq!(p.width, 3);
    assert_eq!(p.height, 3);
    assert_eq!(p.cells, vec![(1, 0), (2, 1), (0, 2), (1, 2), (2, 2)]);
}

#[test]
fn header_takes_blanks_at_will() {
    let p = parse_rle(b"  x=12,y=7\no!").unwrap();
    assert_eq!((p.width, p.height), (12, 7));
    let p = parse_rle(b"x   =   4   ,   y =\t5 , rule = B3/S23\n").unwrap();
    assert_eq!((p.width, p.height), (4, 5));
    assert_eq!(p.cells, vec![]);
    let p = parse_rle(b"x = 2147483647, y = 0").unwrap();
    assert_eq!((p.width, p.height), (2147483647, 0));
}

#[test]
fn missing_header_is_reported() {
    assert_eq!(parse_rle(b"").unwrap_err(), RleError::MissingHeader);
    assert_eq!(parse_rle(b"bo$2bo$3o!").unwrap_err(), RleError::MissingHeader);
    assert_eq!(parse_rle(b"#C x = 3, y = 3\n3o!").unwrap_err(), RleError::MissingHeader);
    assert_eq!(parse_rle(b"y = 3, x = 3\n3o!").unwrap_err(), RleError::MissingHeader);
}

#[test]
fn bad_header_is_reported() {
    assert_eq!(parse_rle(b"x = 3\n3o!").unwrap_err(), RleError::BadHeader);
    assert_eq!(parse_rle(b"x = , y = 3\n3o!").unwrap_err(), RleError::BadHeader);
    assert_eq!(parse_rle(b"x 3, y = 3\n3o!").unwrap_err(), RleError::BadHeader);
    assert_eq!(parse_rle(b"x = 3; y = 3\n3o!").unwrap_err(), RleError::BadHeader);
    assert_eq!(parse_rle(b"x = 3, z = 3\n3o!").unwrap_err(), RleError::BadHeader);
    assert_eq!(parse_rle(b"x = 2147483648, y = 3\n3o!").unwrap_err(), RleError::BadHeader);
    assert_eq!(parse_rle(b"x = 3, y = 99999999999999999999\n3o!").unwrap_err(), RleError::BadHeader);
    assert_eq!(parse_rle(b"x = 3, y = -3\n3o!").unwrap_err(), RleError::BadHeader);
}

#[test]
fn only_the_first_header_counts() {
    let p = parse_rle(b"x = 1, y = 2\nx = oops\no!").unwrap();
    assert_eq!((p.width, p.height), (1, 2));
    assert_eq!(p.cells, vec![(0, 0)]);
}

#[test]
fn run_counts_apply_to_the_next_tag() {
    assert_eq!(cells_of("x = 9, y = 9\n3o2b2o$$o3$2o!"), vec![
        (0, 0),
        (1, 0),
        (2, 0),
        (5, 0),
        (6, 0),
        (0, 2),
        (0, 5),
        (1, 5),
    ]);
    assert_eq!(cells_of("x = 9, y = 9\n12bo!"), vec![(12, 0)]);
    assert_eq!(cells_of("x = 9, y = 9\n0o0bo0$o!"), vec![(0, 0), (0, 1)]);
}

#[test]
fn other_bytes_are_passed_over() {
    assert_eq!(cells_of("x = 9, y = 9\n o b  o \r\n$ o !"), vec![(0, 0), (2, 0), (0, 1)]);
    assert_eq!(cells_of("x = 9, y = 9\n2 o"), vec![(0, 0), (1, 0)]);
    assert_eq!(cells_of("x = 9, y = 9\n1 2o"), vec![(0, 0), (1, 0)]);
    assert_eq!(cells_of("x = 9, y = 9\n2zzzbzo"), vec![(2, 0)]);
}

#[test]
fn data_lines_are_read_as_one() {
    assert_eq!(cells_of("x = 9, y = 9\nbo\n$2b\no$\n3o!"), vec![(1, 0), (2, 1), (0, 2), (1, 2), (2, 2)]);
    assert_eq!(cells_of("x = 9, y = 9\n1\n2bo!"), vec![(12, 0)]);
    assert_eq!(cells_of("x = 9, y = 9\n1\n#C in between\n2bo!"), vec![(12, 0)]);
    assert_eq!(cells_of("o$\nx = 9, y = 9\no!"), vec![(0, 0), (0, 1)]);
}

#[test]
fn lines_that_start_with_a_bar_or_an_equals_sign_are_no_data() {
    assert_eq!(cells_of("x = 9, y = 9\n| o\n= o\n  #o\nbo!"), vec![(1, 0)]);
}

#[test]
fn the_terminator_ends_the_pattern() {
    assert_eq!(cells_of("x = 9, y = 9\no!o$o"), vec![(0, 0)]);
    assert_eq!(cells_of("x = 9, y = 9\n!3o"), vec![]);
    assert_eq!(cells_of("x = 9, y = 9\no!99999999999o"), vec![(0, 0)]);
}

#[test]
fn too_large_is_reported() {
    assert_eq!(parse_rle(b"x = 1, y = 1\n2147483648b!").unwrap_err(), RleError::TooLarge);
    assert_eq!(parse_rle(b"x = 1, y = 1\n99999999999999999999o!").unwrap_err(), RleError::TooLarge);
    assert_eq!(parse_rle(b"x = 1, y = 1\n2147483647b1b!").unwrap_err(), RleError::TooLarge);
    assert_eq!(parse_rle(b"x = 1, y = 1\n2147483647bo!").unwrap_err(), RleError::TooLarge);
    assert_eq!(parse_rle(b"x = 1, y = 1\n2147483647$$!").unwrap_err(), RleError::TooLarge);
    assert_eq!(cells_of("x = 1, y = 1\n2147483647b!"), vec![]);
    assert_eq!(cells_of("x = 1, y = 1\n2147483646bo!"), vec![(2147483646, 0)]);
    assert_eq!(cells_of("x = 1, y = 1\n2147483647$o!"), vec![(0, 2147483647)]);
}
