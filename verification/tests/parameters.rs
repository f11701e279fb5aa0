use protoc_gen_pack::params::{split_parameters, trim_text};
use protoc_gen_pack::Args;

#[test]
fn white_space_is_trimmed_at_both_ends() {
    assert_eq!(trim_text(""), "");
    assert_eq!(trim_text("abc"), "abc");
    assert_eq!(trim_text("  a b \t"), "a b");
    assert_eq!(trim_text(" \t\n "), "");
    assert_eq!(trim_text("\nx"), "x");
    assert_eq!(trim_text("x\r\n"), "x");
    assert_eq!(trim_text("\u{a0}x\u{3000}"), "x");
    assert_eq!(trim_text("_ x _"), "_ x _");
}

#[test]
fn trim_text_agrees_with_trim_of_strings() {
    for text in ["", " ", "a", " a", "a ", " a b ", "\t\u{2003}a\u{85}", "\u{200b}a"] {
        assert_eq!(trim_text(text), text.trim());
    }
}

#[test]
fn parameter_string_is_cut_at_commas_and_spaces() {
    assert_eq!(split_parameters("prog", "-d x"), vec!["prog", "-d", "x"]);
    assert_eq!(
        split_parameters("prog", "--default-package-name=foo,--other"),
        vec!["prog", "--default-package-name=foo", "--other"]
    );
    assert_eq!(split_parameters("prog", "-d,x y"), vec!["prog", "-d", "x", "y"]);
}

#[test]
fn empty_pieces_stay_as_empty_tokens() {
    assert_eq!(split_parameters("prog", ""), vec!["prog", ""]);
    assert_eq!(split_parameters("prog", "a  b"), vec!["prog", "a", "", "b"]);
    assert_eq!(split_parameters("prog", "a,,b"), vec!["prog", "a", "", "b"]);
    assert_eq!(split_parameters("prog", ", "), vec!["prog", "", "", ""]);
    assert_eq!(split_parameters("", ""), vec!["", ""]);
}

#[test]
fn program_name_is_cut_like_the_parameters() {
    assert_eq!(split_parameters("my prog", "x"), vec!["my", "prog", "x"]);
    assert_eq!(split_parameters("prog\t", "\tx\n"), vec!["prog", "x"]);
}

#[test]
fn split_parameters_agrees_with_the_chain_of_splits() {
    for (program, parameter) in
        [("p", ""), ("p q", "a,b c"), ("p", " a , b "), ("p", "a\t,\tb"), ("", ",")]
    {
        let expected: Vec<&str> = [program]
            .into_iter()
            .chain(parameter.split(','))
            .flat_map(|piece| piece.split(' '))
            .map(|token| token.trim())
            .collect();
        assert_eq!(split_parameters(program, parameter), expected);
    }
}

#[test]
fn args_hold_the_default_package_name() {
    let args = Args { default_package_name: Some("base".to_string()) };
    assert_eq!(args.default_package_name.as_deref(), Some("base"));
    let none = Args { default_package_name: None };
    assert_eq!(none.default_package_name, None);
}
