use text_preprocessing::preprocessing::PreprocessedInput;
use text_preprocessing::preprocessing::PreprocessingError;
use text_preprocessing::preprocessing::PreprocessingOption;
use text_preprocessing::preprocessing::PreprocessingOption::Lowercase as L;
use text_preprocessing::preprocessing::PreprocessingOption::NormalizeWhitespace as W;
use text_preprocessing::preprocessing::PreprocessingOption::RemoveDiacritics as D;
use text_preprocessing::preprocessing::PreprocessingOptions;

fn preprocess_input(option: PreprocessingOption, input: &str) -> String {
    option.run(PreprocessedInput::no_preprocessing(input)).preprocessed_input().clone()
}

#[test]
fn test_remove_diacritics() {
    assert_eq!("abc", preprocess_input(PreprocessingOption::RemoveDiacritics, "abc"));
    assert_eq!("abc", preprocess_input(PreprocessingOption::RemoveDiacritics, "abc"));
    assert_eq!("abe", preprocess_input(PreprocessingOption::RemoveDiacritics, "abé"));
    assert_eq!("오백칠십구", preprocess_input(PreprocessingOption::RemoveDiacritics, "오백칠십구"));
    assert_eq!("3eme", preprocess_input(PreprocessingOption::RemoveDiacritics, "3éme"));
}

#[test]
fn test_lowercase() {
    assert_eq!("abc", preprocess_input(PreprocessingOption::Lowercase, "aBc"));
    assert_eq!("abc", preprocess_input(PreprocessingOption::Lowercase, "ABc"));
}

#[test]
fn test_lowercase_and_remove_diacritics() {
    assert_eq!(
        "abe",
        PreprocessingOptions::new(vec![
            PreprocessingOption::Lowercase,
            PreprocessingOption::RemoveDiacritics,
        ])
        .run("aBé")
        .preprocessed_input()
    );
}

#[test]
fn test_same_result_despite_option_order() {
    let input = "fünf tausend ētė ₩ 유로 euro";
    let a = PreprocessingOptions::new(vec![
        PreprocessingOption::Lowercase,
        PreprocessingOption::RemoveDiacritics,
        PreprocessingOption::NormalizeWhitespace,
    ]);
    let b = PreprocessingOptions::new(vec![
        PreprocessingOption::Lowercase,
        PreprocessingOption::NormalizeWhitespace,
        PreprocessingOption::RemoveDiacritics,
    ]);
    let c = PreprocessingOptions::new(vec![
        PreprocessingOption::NormalizeWhitespace,
        PreprocessingOption::Lowercase,
        PreprocessingOption::RemoveDiacritics,
    ]);

    assert_eq!(a.run(input), b.run(input));
    assert_eq!(a.run(input), c.run(input));
    assert_eq!(c.run(input), b.run(input));
}

#[test]
fn test_all_six_orders_agree() {
    let input = "fünf tausend ētė ₩ 유로 euro";
    let orders = vec![
        vec![L, D, W],
        vec![L, W, D],
        vec![D, L, W],
        vec![D, W, L],
        vec![W, L, D],
        vec![W, D, L],
    ];
    let reference = PreprocessingOptions::new(vec![L, D, W]).run(input);
    for order in orders {
        let result = PreprocessingOptions::new(order).run(input);
        assert_eq!(reference, result);
        assert_eq!(reference.preprocessed_input(), result.preprocessed_input());
        assert_eq!(reference.byte_mapping(), result.byte_mapping());
    }
}

#[test]
fn test_empty_configuration_is_identity() {
    let input = "fünf tausend ētė ₩ 유로 euro";
    let result = PreprocessingOptions::new(vec![]).run(input);
    assert_eq!(input, result.preprocessed_input());
    assert_eq!(input, result.original_input());
    // every character boundary, the sentinel included, maps to itself
    let mut boundary = 0;
    for c in input.chars() {
        assert_eq!(Ok(boundary), result.map_byte(boundary));
        boundary += c.len_utf8();
    }
    assert_eq!(input.len(), boundary);
    assert_eq!(Ok(input.len()), result.map_byte(input.len()));
}

#[test]
fn test_remove_diacritics_idempotent() {
    let input = "fünf tausend ētė ₩ 유로 euro";
    let once = PreprocessingOptions::new(vec![PreprocessingOption::RemoveDiacritics]).run(input);
    let twice = PreprocessingOptions::new(vec![
        PreprocessingOption::RemoveDiacritics,
        PreprocessingOption::RemoveDiacritics,
    ])
    .run(input);
    assert_eq!(once, twice);
}

#[test]
fn test_lowercase_idempotent() {
    let input = "fünf Tausend ĒTĖ ₩ 유로 EURO";
    let once = PreprocessingOptions::new(vec![PreprocessingOption::Lowercase]).run(input);
    let twice = PreprocessingOptions::new(vec![
        PreprocessingOption::Lowercase,
        PreprocessingOption::Lowercase,
    ])
    .run(input);
    assert_eq!(once, twice);
}

#[test]
fn test_mapping_after_byte_width_change() {
    // the accented character of "Café" is two bytes wide; removing its
    // diacritic narrows it to one byte
    let result =
        PreprocessingOptions::new(vec![PreprocessingOption::RemoveDiacritics]).run("Café");
    assert_eq!("Cafe", result.preprocessed_input());
    assert_eq!(Ok(0), result.map_byte(0));
    assert_eq!(Ok(1), result.map_byte(1));
    assert_eq!(Ok(2), result.map_byte(2));
    assert_eq!(Ok(3), result.map_byte(3));
    assert_eq!(Ok(5), result.map_byte(4));
    assert_eq!(Err(PreprocessingError::InvalidBoundary), result.map_byte(5));
}

#[test]
fn test_map_byte_rejects_non_boundary() {
    let result = PreprocessingOptions::new(vec![]).run("é");
    assert_eq!(Ok(0), result.map_byte(0));
    assert_eq!(Err(PreprocessingError::InvalidBoundary), result.map_byte(1));
    assert_eq!(Ok(2), result.map_byte(2));
    assert_eq!(Err(PreprocessingError::InvalidBoundary), result.map_byte(3));
}

#[test]
fn test_whitespace_run_keeps_first_character() {
    // a tab followed by spaces collapses to the tab, not to a space
    let result = PreprocessingOptions::new(vec![PreprocessingOption::NormalizeWhitespace])
        .run("a\t  b c");
    assert_eq!("a\tb c", result.preprocessed_input());
}

#[test]
fn test_whitespace_collapse_mapping() {
    let result = PreprocessingOptions::new(vec![PreprocessingOption::NormalizeWhitespace])
        .run("a  b");
    assert_eq!("a b", result.preprocessed_input());
    assert_eq!(Ok(0), result.map_byte(0));
    assert_eq!(Ok(1), result.map_byte(1));
    assert_eq!(Ok(3), result.map_byte(2));
    assert_eq!(Ok(4), result.map_byte(3));
}

#[test]
fn test_pure_combining_mark_vanishes() {
    // U+0301 alone is a nonspacing mark: it produces no output but leaves
    // its neighbors' boundaries intact
    let result = PreprocessingOptions::new(vec![PreprocessingOption::RemoveDiacritics])
        .run("a\u{0301}b");
    assert_eq!("ab", result.preprocessed_input());
    assert_eq!(Ok(0), result.map_byte(0));
    assert_eq!(Ok(3), result.map_byte(1));
    assert_eq!(Ok(4), result.map_byte(2));
}

#[test]
fn test_lowercase_keeps_first_of_expansion() {
    // the uppercase dotted I lowercases to an "i" followed by a combining
    // mark; only the first character is kept
    assert_eq!("i", preprocess_input(PreprocessingOption::Lowercase, "\u{0130}"));
}
