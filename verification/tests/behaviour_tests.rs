use std::path::PathBuf;

use vdf_fmt::cli::Cli;
use vdf_fmt::formatter::{format_with_options, FormatError, Options};

fn fmt(input: &str) -> String {
    vdf_fmt::formatter::format(input).unwrap()
}

fn fmt_all(input: &str) -> String {
    format_with_options(
        input,
        Options {
            reflow_comments: true,
            bare_literals: true,
        },
    )
    .unwrap()
}

#[test]
fn error_variants_and_messages() {
    assert_eq!(
        vdf_fmt::formatter::format("key \"open").unwrap_err(),
        FormatError::UnterminatedQuotedToken
    );
    assert_eq!(
        vdf_fmt::formatter::format("a\n}\n").unwrap_err(),
        FormatError::UnmatchedClosingBrace
    );
    assert_eq!(
        vdf_fmt::formatter::format("a {\n{ }").unwrap_err(),
        FormatError::UnclosedOpeningBrace
    );
    assert_eq!(
        FormatError::UnterminatedQuotedToken.to_string(),
        "unterminated quoted token"
    );
    assert_eq!(
        FormatError::UnmatchedClosingBrace.to_string(),
        "unmatched closing brace"
    );
    assert_eq!(
        FormatError::UnclosedOpeningBrace.to_string(),
        "unclosed opening brace"
    );
}

#[test]
fn first_error_in_line_order_wins() {
    // The closing brace on the first line is reported before the open quote on the second.
    assert_eq!(
        vdf_fmt::formatter::format("}\n\"x").unwrap_err(),
        FormatError::UnmatchedClosingBrace
    );
    // Within one line the tokenizer runs first.
    assert_eq!(
        vdf_fmt::formatter::format("} \"x").unwrap_err(),
        FormatError::UnterminatedQuotedToken
    );
}

#[test]
fn empty_and_blank_inputs() {
    assert_eq!(fmt(""), "");
    assert_eq!(fmt("\n"), "\n");
    assert_eq!(fmt("\n\n\n"), "\n");
    assert_eq!(fmt("   "), "");
}

#[test]
fn carriage_returns_never_reach_the_output() {
    let out = fmt("a 1\r\rb 2\r\n// c\r");
    assert!(!out.contains('\r'));
    assert_eq!(out, "a \"1\"\n\nb \"2\"\n// c\n");
}

#[test]
fn final_line_break_follows_the_input() {
    assert!(fmt("a 1\r").ends_with('\n'));
    assert!(fmt("a 1\r\n").ends_with('\n'));
    assert!(!fmt("a 1").ends_with('\n'));
}

#[test]
fn no_line_ends_in_whitespace() {
    let out = fmt("a   1   \t\n  // note   \n b  \n{\n x 1 // c  \n}  \n");
    for line in out.split('\n') {
        assert_eq!(line, line.trim_end());
    }
}

#[test]
fn no_blank_lines_at_end() {
    let out = fmt("a 1\n\n   \n\t\n");
    assert_eq!(out, "a \"1\"\n");
    assert!(!out.ends_with("\n\n"));
}

#[test]
fn values_are_escaped_when_quoted() {
    assert_eq!(fmt("key a\\b"), "key \"a\\\\b\"");
    assert_eq!(fmt("key one \"two\""), "key \"one \\\"two\\\"\"");
}

#[test]
fn quoted_values_keep_their_quotes() {
    assert_eq!(fmt("key \"a b\""), "key \"a b\"");
    assert_eq!(fmt("\"key\" \"\""), "key \"\"");
}

#[test]
fn keys_keep_quotes_only_when_needed() {
    assert_eq!(fmt("\"a{b\" 1"), "\"a{b\" \"1\"");
    assert_eq!(fmt("\"\" 1"), "\"\" \"1\"");
    assert_eq!(fmt("\"plain\""), "plain");
}

#[test]
fn numbers_with_bare_literals() {
    assert_eq!(fmt_all("a 1.2.3"), "a \"1.2.3\"");
    assert_eq!(fmt_all("a ."), "a \".\"");
    assert_eq!(fmt_all("a -"), "a \"-\"");
    assert_eq!(fmt_all("a \"-0.\""), "a -0.");
    assert_eq!(fmt_all("a \"1e5\""), "a \"1e5\"");
}

#[test]
fn alignment_uses_utf8_byte_width() {
    // The key "é" is two bytes wide: one less than "abc", one more than "a".
    assert_eq!(fmt("é 1\nabc 2"), "é  \"1\"\nabc \"2\"");
    assert_eq!(fmt("é 1\na 2"), "é \"1\"\na  \"2\"");
}

#[test]
fn pairs_at_different_depths_align_separately() {
    assert_eq!(
        fmt("a 1\nlonger {\nb 2\n}\nc 3"),
        "a \"1\"\nlonger\n{\n    b \"2\"\n}\nc \"3\""
    );
}

#[test]
fn unicode_whitespace_separates_tokens() {
    assert_eq!(fmt("a\u{3000}1"), "a \"1\"");
}

#[test]
fn reflow_keeps_comment_after_disabled_pair() {
    let out = format_with_options(
        "//k \"v\"   // why",
        Options {
            reflow_comments: true,
            bare_literals: false,
        },
    )
    .unwrap();
    assert_eq!(out, "// k \"v\" // why");
}

#[test]
fn formatting_twice_changes_nothing() {
    let inputs = [
        "\"GameInfo\"\n{\n\tgame                            \"citadel\"\n    hidden_maps\n    {\n\"test_speakers\"         1\n    }\n}\n",
        "\"Root\" { Child { key      value } }",
        "// top\n\"Root\"\n{\n// inner\nkey    value    // tail\n\n}\n",
        "Root\n{\nx 1 // one\ny 22 // two\n\nz 333 // three\n}\n",
        "Root\n{\n//FakeReorderPct \"0.05\"\n//cl_interp \"0.01\" // Client interpolation\n//not_a_pair bare\nactive 1\n}\n",
        "key a\\b\nother one \"two\" three // c\n\"with space\" x\n",
    ];
    let all = [
        Options::default(),
        Options {
            reflow_comments: true,
            bare_literals: false,
        },
        Options {
            reflow_comments: false,
            bare_literals: true,
        },
        Options {
            reflow_comments: true,
            bare_literals: true,
        },
    ];
    for input in inputs {
        for options in all {
            let once = format_with_options(input, options).unwrap();
            let twice = format_with_options(&once, options).unwrap();
            assert_eq!(once, twice);
        }
    }
}

#[test]
fn cli_writes_in_place_when_asked_or_for_many_files() {
    let one = Cli {
        paths: vec![PathBuf::from("a.vdf")],
        write: false,
        reflow_comments: true,
        bare_literals: false,
    };
    assert!(!one.writes_in_place());
    assert_eq!(
        one.options(),
        Options {
            reflow_comments: true,
            bare_literals: false
        }
    );
    let asked = Cli {
        paths: vec![PathBuf::from("a.vdf")],
        write: true,
        reflow_comments: false,
        bare_literals: true,
    };
    assert!(asked.writes_in_place());
    let many = Cli {
        paths: vec![PathBuf::from("a.vdf"), PathBuf::from("b.vdf")],
        write: false,
        reflow_comments: false,
        bare_literals: false,
    };
    assert!(many.writes_in_place());
    assert_eq!(many.options(), Options::default());
}

#[test]
fn text_without_quotes_or_braces_always_formats() {
    for input in ["", "a", "a b c // d", "// only", "x\\y/z 1.5 -2", "\r\n\r", "é ü\t// ñ"] {
        assert!(vdf_fmt::formatter::format(input).is_ok());
    }
}

#[test]
fn lines_are_indented_four_spaces_per_depth() {
    assert_eq!(
        fmt("a{b{c{d 1}}}"),
        "a\n{\n    b\n    {\n        c\n        {\n            d \"1\"\n        }\n    }\n}"
    );
}

#[test]
fn disabled_and_active_pairs_share_a_column() {
    let out = format_with_options(
        "k 1\n//longer_key 2",
        Options {
            reflow_comments: true,
            bare_literals: false,
        },
    )
    .unwrap();
    assert_eq!(out, "k             \"1\"\n// longer_key \"2\"");
}
