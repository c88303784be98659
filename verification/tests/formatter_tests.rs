use vdf_fmt::formatter::{format_with_options, Options};

#[test]
fn formats_indentation_and_key_value_spacing() {
    let input = "\"GameInfo\"\n{\n\tgame                            \"citadel\"\n    hidden_maps\n    {\n\"test_speakers\"         1\n    }\n}\n";

    let expected = "GameInfo\n{\n    game \"citadel\"\n    hidden_maps\n    {\n        test_speakers \"1\"\n    }\n}\n";

    assert_eq!(vdf_fmt::formatter::format(input).unwrap(), expected);
}

#[test]
fn splits_braces_onto_their_own_indented_lines() {
    let input = "\"Root\" { Child { key      value } }";

    let expected = "Root\n{\n    Child\n    {\n        key \"value\"\n    }\n}";

    assert_eq!(vdf_fmt::formatter::format(input).unwrap(), expected);
}

#[test]
fn preserves_blank_lines_and_reindents_comments() {
    let input = "// top\n\"Root\"\n{\n// inner\nkey    value    // tail\n\n}\n";

    let expected = "// top\nRoot\n{\n    // inner\n    key \"value\" // tail\n\n}\n";

    assert_eq!(vdf_fmt::formatter::format(input).unwrap(), expected);
}

#[test]
fn normalizes_newlines() {
    let input = "\"Root\"\r\n{\rkey    value\r\n}\r\n";

    let expected = "Root\n{\n    key \"value\"\n}\n";

    assert_eq!(vdf_fmt::formatter::format(input).unwrap(), expected);
}

#[test]
fn reports_unterminated_quoted_tokens() {
    let err = vdf_fmt::formatter::format("\"Root").unwrap_err();

    assert!(err.to_string().contains("unterminated quoted token"));
}

#[test]
fn reports_unmatched_closing_braces() {
    let err = vdf_fmt::formatter::format("}").unwrap_err();

    assert!(err.to_string().contains("unmatched closing brace"));
}

#[test]
fn reports_unclosed_opening_braces() {
    let err = vdf_fmt::formatter::format("\"Root\"\n{").unwrap_err();

    assert!(err.to_string().contains("unclosed opening brace"));
}

#[test]
fn aligns_values_for_adjacent_pairs() {
    let input = "Root\n{\na 1\nlong_key 2\n\nnext 3\n}\n";

    let expected = "Root\n{\n    a        \"1\"\n    long_key \"2\"\n\n    next \"3\"\n}\n";

    assert_eq!(vdf_fmt::formatter::format(input).unwrap(), expected);
}

#[test]
fn only_quotes_keys_when_required() {
    let input = "\"Root\"\n{\n\"simple\" 1\n\"with space\" 2\n\"has//comment\" 3\n}\n";

    let expected = "Root\n{\n    simple         \"1\"\n    \"with space\"   \"2\"\n    \"has//comment\" \"3\"\n}\n";

    assert_eq!(vdf_fmt::formatter::format(input).unwrap(), expected);
}

#[test]
fn strips_trailing_whitespace_and_blank_line_whitespace() {
    let input = "Root   \n{\nkey value   \n   \n}\n";

    let expected = "Root\n{\n    key \"value\"\n\n}\n";

    assert_eq!(vdf_fmt::formatter::format(input).unwrap(), expected);
}

#[test]
fn strips_extra_blank_lines_at_eof() {
    let input = "Root\n{\nkey value\n}\n\n\n";
    let expected = "Root\n{\n    key \"value\"\n}\n";

    assert_eq!(vdf_fmt::formatter::format(input).unwrap(), expected);

    let input = "Root\n{\nkey value\n}\n\n";
    let expected = "Root\n{\n    key \"value\"\n}\n";

    assert_eq!(vdf_fmt::formatter::format(input).unwrap(), expected);
}

#[test]
fn aligns_comments_for_adjacent_lines() {
    let input = "Root\n{\nx 1 // one\ny 22 // two\n\nz 333 // three\n}\n";

    let expected =
        "Root\n{\n    x \"1\"  // one\n    y \"22\" // two\n\n    z \"333\" // three\n}\n";

    assert_eq!(vdf_fmt::formatter::format(input).unwrap(), expected);
}

#[test]
fn quotes_all_values() {
    let input = "Root\n{\nint \"42\"\nneg \"-7\"\ndecimal \"3.14\"\nleading_decimal \".5\"\nnegative_decimal \"-.5\"\ntrailing_decimal \"1.\"\nyes \"true\"\nno \"false\"\nword bare\ncapital \"True\"\nmany one two\n}\n";

    let expected = "Root\n{\n    int              \"42\"\n    neg              \"-7\"\n    decimal          \"3.14\"\n    leading_decimal  \".5\"\n    negative_decimal \"-.5\"\n    trailing_decimal \"1.\"\n    yes              \"true\"\n    no               \"false\"\n    word             \"bare\"\n    capital          \"True\"\n    many             \"one two\"\n}\n";

    assert_eq!(vdf_fmt::formatter::format(input).unwrap(), expected);
}

#[test]
fn leaves_literal_values_unquoted_when_enabled() {
    let input = "Root\n{\nint \"42\"\nneg -7\ndecimal \"3.14\"\nleading_decimal \".5\"\nnegative_decimal \"-.5\"\ntrailing_decimal \"1.\"\nyes \"true\"\nno false\nword bare\ncapital \"True\"\nmany one two\n}\n";

    let expected = "Root\n{\n    int              42\n    neg              -7\n    decimal          3.14\n    leading_decimal  .5\n    negative_decimal -.5\n    trailing_decimal 1.\n    yes              true\n    no               false\n    word             \"bare\"\n    capital          \"True\"\n    many             \"one two\"\n}\n";

    assert_eq!(
        format_with_options(
            input,
            Options {
                bare_literals: true,
                ..Options::default()
            },
        )
        .unwrap(),
        expected
    );
}

#[test]
fn keeps_commented_pairs_unchanged_by_default() {
    let input = "Root\n{\n//FakeReorderPct                           \"0.05\"\n//FakeJitter                               \"low\"\n}\n";

    let expected = "Root\n{\n    //FakeReorderPct                           \"0.05\"\n    //FakeJitter                               \"low\"\n}\n";

    assert_eq!(vdf_fmt::formatter::format(input).unwrap(), expected);
}

#[test]
fn reflows_commented_pairs_when_enabled() {
    let input = "Root\n{\n//FakeReorderPct                           \"0.05\"\n//FakeReorderDelay                         \"10\"\n//FakeJitter                               \"low\"\n// Turning off fake jitter for now\n// IN TESTING\n//- Boot\n//Sound debugging\n//cl_interp \"0.01\" // Client interpolation\n//r_pipeline_stats_flush_before_sleeping true\n//not_a_pair bare\n//\"cl_aggregate_particles\" \"true\"\n}\n";

    let expected = "Root\n{\n    // FakeReorderPct   \"0.05\"\n    // FakeReorderDelay \"10\"\n    // FakeJitter       \"low\"\n    // Turning off fake jitter for now\n    // IN TESTING\n    //- Boot\n    //Sound debugging\n    // cl_interp                              \"0.01\" // Client interpolation\n    // r_pipeline_stats_flush_before_sleeping \"true\"\n    //not_a_pair bare\n    // cl_aggregate_particles \"true\"\n}\n";

    assert_eq!(
        format_with_options(
            input,
            Options {
                reflow_comments: true,
                ..Options::default()
            },
        )
        .unwrap(),
        expected
    );
}

#[test]
fn reflowed_comments_share_active_pair_axis() {
    let input = "Root\n{\nactive_key 1\n//disabled_key \"2\"\n//long_disabled_key \"3\"\nnext_key 4\n}\n";

    let expected = "Root\n{\n    active_key           \"1\"\n    // disabled_key      \"2\"\n    // long_disabled_key \"3\"\n    next_key             \"4\"\n}\n";

    assert_eq!(
        format_with_options(
            input,
            Options {
                reflow_comments: true,
                ..Options::default()
            },
        )
        .unwrap(),
        expected
    );
}

#[test]
fn bare_literals_apply_to_reflowed_comments() {
    let input =
        "Root\n{\nactive_key \"1\"\n//disabled_key \"2\"\n//flag true\n//name \"bare\"\n}\n";

    let expected = "Root\n{\n    active_key      1\n    // disabled_key 2\n    // flag         true\n    // name         \"bare\"\n}\n";

    assert_eq!(
        format_with_options(
            input,
            Options {
                reflow_comments: true,
                bare_literals: true,
            },
        )
        .unwrap(),
        expected
    );
}
