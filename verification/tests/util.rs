use sbnf::cli::fmt_io_err;
use sbnf::util::str_from_iterators;

#[test]
fn str_from_iterators_between_positions() {
    let s = "héllo wörld";
    let mut start = s.chars();
    start.next();
    let mut end = s.chars();
    for _ in 0..7 {
        end.next();
    }
    assert_eq!(str_from_iterators(s, start, end), "éllo w");
}

#[test]
fn str_from_iterators_empty_and_whole() {
    let s = "abc";
    assert_eq!(str_from_iterators(s, s.chars(), s.chars()), "");
    let mut end = s.chars();
    while end.next().is_some() {}
    assert_eq!(str_from_iterators(s, s.chars(), end), "abc");
}

#[test]
fn fmt_io_err_keeps_success() {
    let r: std::io::Result<u32> = Ok(5);
    assert_eq!(fmt_io_err(r), Ok(5));
}

#[test]
fn fmt_io_err_gives_message() {
    let r: std::io::Result<u32> = Err(std::io::Error::new(std::io::ErrorKind::Other, "no such thing"));
    assert_eq!(fmt_io_err(r), Err("no such thing".to_string()));
}
