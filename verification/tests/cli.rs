use sbnf::cli::{output_destination, OutputDestination};

#[test]
fn output_to_stdout_with_dash() {
    assert_eq!(output_destination(Some("-")), OutputDestination::Stdout);
}

#[test]
fn output_to_given_path() {
    assert_eq!(output_destination(Some("out.sublime-syntax")), OutputDestination::Path("out.sublime-syntax"));
    assert_eq!(output_destination(Some("--")), OutputDestination::Path("--"));
}

#[test]
fn output_beside_input_by_default() {
    assert_eq!(output_destination(None), OutputDestination::BesideInput);
}
