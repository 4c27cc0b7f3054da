use engine0::cli::{parse_generate, parse_u32, parse_usize, usage};

fn args(words: &[&str]) -> Vec<String> {
    words.iter().map(|word| word.to_string()).collect()
}

#[test]
fn numerals_take_an_optional_plus_and_ascii_digits() {
    assert_eq!(parse_usize("0"), Some(0));
    assert_eq!(parse_usize("007"), Some(7));
    assert_eq!(parse_usize("+5"), Some(5));
    assert_eq!(parse_usize(""), None);
    assert_eq!(parse_usize("+"), None);
    assert_eq!(parse_usize("-1"), None);
    assert_eq!(parse_usize("12a"), None);
    assert_eq!(parse_usize(" 1"), None);
    assert_eq!(parse_usize(&usize::MAX.to_string()), Some(usize::MAX));
    assert_eq!(parse_usize("99999999999999999999999"), None);
    assert_eq!(parse_u32("4294967295"), Some(u32::MAX));
    assert_eq!(parse_u32("4294967296"), None);
    for text in ["0", "+12", "12a", "", "4294967296", "18446744073709551615"] {
        assert_eq!(parse_usize(text), text.parse::<usize>().ok());
        assert_eq!(parse_u32(text), text.parse::<u32>().ok());
    }
}

#[test]
fn generation_options_read_flags_values_and_prompt_words() {
    let options = parse_generate(args(&[
        "--trace",
        "--max-tokens",
        "3",
        "hello",
        "--cancel-at",
        "+2",
        "world",
        "--fail-at",
        "1",
    ]))
    .unwrap();
    assert_eq!(options.prompt, "hello world");
    assert_eq!(options.max_tokens, 3);
    assert_eq!(options.cancel_at, Some(2));
    assert_eq!(options.fail_at, Some(1));
    assert!(options.trace);

    let defaults = parse_generate(args(&["lower"])).unwrap();
    assert_eq!(defaults.prompt, "lower");
    assert_eq!(defaults.max_tokens, 8);
    assert_eq!(defaults.cancel_at, None);
    assert_eq!(defaults.fail_at, None);
    assert!(!defaults.trace);
}

#[test]
fn generation_option_errors_carry_the_message_to_print() {
    assert_eq!(
        parse_generate(args(&["--max-tokens"])).unwrap_err(),
        "--max-tokens requires a value"
    );
    assert_eq!(
        parse_generate(args(&["hi", "--cancel-at", "x"])).unwrap_err(),
        "invalid --cancel-at value: x"
    );
    assert_eq!(
        parse_generate(args(&["-x", "hi"])).unwrap_err(),
        "unknown option: -x"
    );
    assert_eq!(parse_generate(args(&[])).unwrap_err(), usage());
    assert_eq!(parse_generate(args(&["hi", "--help"])).unwrap_err(), usage());
    assert_eq!(parse_generate(args(&["--trace"])).unwrap_err(), usage());
    assert!(usage().starts_with("usage:\n  engine0 [--trace]"));
}
