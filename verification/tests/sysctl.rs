use mvitop::sysctl::arguments_after_header;
use mvitop::sysctl::{c_string, parse_process_arguments, text_value};

fn buffer(argc: i32, rest: &[u8]) -> Vec<u8> {
    let mut b = argc.to_ne_bytes().to_vec();
    b.extend_from_slice(rest);
    b
}

#[test]
fn reads_the_argument_vector() {
    let b = buffer(3, b"/bin/zsh\0\0\0zsh\0-l\0--login\0PATH=/bin\0");
    assert_eq!(parse_process_arguments(&b), vec!["zsh", "-l", "--login"]);
}

#[test]
fn stops_at_the_argument_count_and_the_end() {
    assert_eq!(parse_process_arguments(&buffer(1, b"/x\0a\0b\0")), vec!["a"]);
    assert_eq!(parse_process_arguments(&buffer(5, b"/x\0a\0b")), vec!["a", "b"]);
    assert!(parse_process_arguments(&buffer(-3, b"/x\0a\0")).is_empty());
    assert!(parse_process_arguments(&[1, 0]).is_empty());
}

#[test]
fn c_strings_end_at_the_first_nul() {
    assert_eq!(c_string(b"zsh\0garbage"), "zsh");
    assert_eq!(c_string(b"no nul"), "no nul");
    assert_eq!(c_string(b"\0"), "");
    assert_eq!(text_value(b"  Apple M4 Max \0\0"), "Apple M4 Max");
}

#[test]
fn the_header_count_limits_the_arguments() {
    let b = buffer(0, b"/bin/zsh\0zsh\0-l\0");
    assert_eq!(arguments_after_header(&b, 2), vec!["zsh", "-l"]);
    assert_eq!(arguments_after_header(&b, 1), vec!["zsh"]);
    assert!(arguments_after_header(&b, 0).is_empty());
    assert!(arguments_after_header(&b, -1).is_empty());
    assert!(arguments_after_header(b"abc", 3).is_empty());
}
