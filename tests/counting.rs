use wc::cli::plan;
use wc::cli::Invocation;
use wc::counter::count;
use wc::counter::count_all;
use wc::counter::count_all_pipe;
use wc::counter::count_file;
use wc::counter::count_file_all;
use wc::counter::count_pip;
use wc::counter::decode_text;
use wc::counter::WcResult;
use wc::mode::MyOption;
use wc::mode::WcError;

fn args(items: &[&str]) -> Vec<String> {
    items.iter().map(|s| s.to_string()).collect()
}

#[test]
fn flags_name_their_modes() {
    assert_eq!(MyOption::from_str("-c"), Ok(MyOption::Bytes));
    assert_eq!(MyOption::from_str("-l"), Ok(MyOption::Lines));
    assert_eq!(MyOption::from_str("-w"), Ok(MyOption::Words));
    assert_eq!(MyOption::from_str("-m"), Ok(MyOption::Characters));
}

#[test]
fn unknown_flag_is_refused() {
    assert_eq!(MyOption::from_str("-x"), Err(WcError::InvalidModeFlag));
    assert_eq!(MyOption::from_str("-cc"), Err(WcError::InvalidModeFlag));
    assert_eq!(MyOption::from_str(""), Err(WcError::InvalidModeFlag));
}

#[test]
fn unknown_flag_stops_before_any_file() {
    let r = plan(&args(&["wc", "-x", "/no/such/file"]), true);
    assert!(matches!(r, Err(WcError::InvalidModeFlag)));
    let r = plan(&args(&["wc", "-x"]), false);
    assert!(matches!(r, Err(WcError::InvalidModeFlag)));
}

#[test]
fn plan_follows_argument_count() {
    match plan(&args(&["wc", "-w", "notes.txt"]), true) {
        Ok(Invocation::FileSingle { mode, path }) => {
            assert_eq!(mode, MyOption::Words);
            assert_eq!(path, "notes.txt");
        }
        _ => panic!("expected a single count of a file"),
    }
    match plan(&args(&["wc", "notes.txt"]), true) {
        Ok(Invocation::FileAll { path }) => assert_eq!(path, "notes.txt"),
        _ => panic!("expected all counts of a file"),
    }
    assert!(matches!(plan(&args(&["wc"]), false), Ok(Invocation::PipeAll)));
    assert!(matches!(
        plan(&args(&["wc", "-l"]), false),
        Ok(Invocation::PipeSingle { mode: MyOption::Lines })
    ));
    assert!(matches!(plan(&args(&["wc"]), true), Ok(Invocation::Nothing)));
    assert!(matches!(plan(&args(&["wc", "a", "b", "c"]), false), Ok(Invocation::Nothing)));
}

#[test]
fn lines_count_terminated_lines_including_empty_ones() {
    assert_eq!(count("a\n\nb c\n", MyOption::Lines), 3);
    assert_eq!(count("\n\n\n\n", MyOption::Lines), 4);
    assert_eq!(count("one\ntwo", MyOption::Lines), 2);
    assert_eq!(count("x\r\ny\r\n", MyOption::Lines), 2);
}

#[test]
fn file_bytes_are_the_file_size() {
    let data = "h\u{e9}llo\nw\u{f6}rld\n".as_bytes();
    assert_eq!(count_file(data, MyOption::Bytes), Ok(14));
    assert_eq!(count_file(&[0xff, 0xfe, b'\n'], MyOption::Bytes), Ok(3));
}

#[test]
fn all_modes_single_line() {
    let r = count_all("a b c");
    assert_eq!(r.lines, 1);
    assert_eq!(r.words, 3);
    assert_eq!(r.bytes, 0);
}

#[test]
fn double_space_gives_an_empty_segment() {
    assert_eq!(count("a  b", MyOption::Words), 3);
    assert_eq!(count("a\tb", MyOption::Words), 1);
    assert_eq!(count(" ", MyOption::Words), 2);
    assert_eq!(count("\n", MyOption::Words), 1);
}

#[test]
fn counting_twice_gives_the_same() {
    let data = "alpha beta\ngamma\n".as_bytes();
    let first = count_file_all(data).unwrap();
    let second = count_file_all(data).unwrap();
    assert_eq!((first.bytes, first.lines, first.words), (second.bytes, second.lines, second.words));
    assert_eq!(count_file(data, MyOption::Words), count_file(data, MyOption::Words));
}

#[test]
fn words_match_an_independent_tokenizer() {
    let text = "one two three\nfour five\nsix\n";
    let expected: usize = text.lines().map(|l| l.split_whitespace().count()).sum();
    assert_eq!(expected, 6);
    assert_eq!(count(text, MyOption::Words), expected);
    assert_eq!(count(text, MyOption::Lines), 3);
}

#[test]
fn empty_input_counts_zero() {
    let r = count_file_all(b"").unwrap();
    assert_eq!((r.bytes, r.lines, r.words), (0, 0, 0));
    let r = count_all_pipe(b"").unwrap();
    assert_eq!((r.bytes, r.lines, r.words), (0, 0, 0));
    assert_eq!(count("", MyOption::Characters), 0);
    assert_eq!(count_pip(b"", MyOption::Bytes), Ok(0));
}

#[test]
fn characters_are_scalar_values_of_each_line() {
    assert_eq!(count("h\u{e9}llo\n", MyOption::Characters), 5);
    assert_eq!(count("ab\r\ncd\r\n", MyOption::Characters), 4);
    assert_eq!(count("ab\r", MyOption::Characters), 3);
    assert_eq!(count_file("\u{1f600}".as_bytes(), MyOption::Characters), Ok(1));
}

#[test]
fn pipe_bytes_sum_the_lines_without_terminators() {
    let data = "h\u{e9}llo\nab\r\n".as_bytes();
    assert_eq!(count_pip(data, MyOption::Bytes), Ok(8));
    assert_eq!(count_pip(data, MyOption::Lines), Ok(2));
    let r = count_all_pipe(data).unwrap();
    assert_eq!((r.bytes, r.lines, r.words), (7, 2, 2));
}

#[test]
fn file_all_counts_take_the_size() {
    let r = count_file_all("a b\r\nc\n".as_bytes()).unwrap();
    assert_eq!((r.bytes, r.lines, r.words), (7, 2, 3));
}

#[test]
fn invalid_text_is_a_decoding_error() {
    let bad: &[u8] = &[b'a', b'\n', 0xc3, 0x28, b'\n'];
    assert_eq!(count_file(bad, MyOption::Lines), Err(WcError::StreamDecodingError));
    assert_eq!(count_pip(bad, MyOption::Bytes), Err(WcError::StreamDecodingError));
    assert!(matches!(count_file_all(bad), Err(WcError::StreamDecodingError)));
    assert!(matches!(count_all_pipe(bad), Err(WcError::StreamDecodingError)));
    assert!(matches!(decode_text(bad), Err(WcError::StreamDecodingError)));
}

#[test]
fn decoding_keeps_the_text() {
    assert_eq!(decode_text("gr\u{fc}\u{df}e".as_bytes()), Ok("gr\u{fc}\u{df}e"));
}

#[test]
fn result_starts_at_zero_and_takes_bytes() {
    let mut r = WcResult::new();
    assert_eq!((r.bytes, r.lines, r.words), (0, 0, 0));
    r.lines = 4;
    r.set_bytes(42);
    assert_eq!((r.bytes, r.lines, r.words), (42, 4, 0));
}
