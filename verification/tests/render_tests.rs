use unused::analysis::{
    OrderField, TokenAnalysis, TokenSearchResult, UsageLikelihood, UsageLikelihoodStatus,
};
use unused::config::LanguageRestriction;
use unused::render::{
    colorize, colorize_total, describe_restriction, distinct_occurrence_paths,
    distinct_token_spellings, join_comma, result_block_lines, status_color, summary_lines,
    usize_to_string, Color,
};
use unused::tags::{CtagItem, Language, TokenKind};
use unused::token::Token;

fn analysis(spelling: &str, occurrences: Vec<(String, u64)>) -> TokenAnalysis {
    let def = CtagItem {
        name: String::from(spelling),
        file_path: String::from("lib/a.rb"),
        language: Some(Language::Ruby),
        tags: Vec::new(),
        kind: TokenKind::Method,
    };
    TokenAnalysis {
        result: TokenSearchResult {
            token: Token { token: String::from(spelling), definitions: vec![def] },
            occurrences,
        },
        usage_likelihood: UsageLikelihood {
            status: UsageLikelihoodStatus::High,
            reason: String::from("never referenced"),
        },
    }
}

#[test]
fn colorize_wraps_only_when_enabled() {
    assert_eq!(colorize("token", Color::Red, true), "\u{1b}[31mtoken\u{1b}[0m");
    assert_eq!(colorize("token", Color::Red, false), "token");
    assert_eq!(colorize("5", Color::Cyan, true), "\u{1b}[36m5\u{1b}[0m");
}

#[test]
fn totals_are_green_when_zero_and_red_otherwise() {
    assert_eq!(colorize_total(0, true), "\u{1b}[32m0\u{1b}[0m");
    assert_eq!(colorize_total(12, true), "\u{1b}[31m12\u{1b}[0m");
    assert_eq!(colorize_total(12, false), "12");
}

#[test]
fn counts_render_in_decimal() {
    assert_eq!(usize_to_string(0), "0");
    assert_eq!(usize_to_string(7), "7");
    assert_eq!(usize_to_string(10), "10");
    assert_eq!(usize_to_string(90105), "90105");
}

#[test]
fn statuses_map_to_their_report_colors() {
    assert_eq!(status_color(UsageLikelihoodStatus::High), Color::Red);
    assert_eq!(status_color(UsageLikelihoodStatus::Medium), Color::Yellow);
    assert_eq!(status_color(UsageLikelihoodStatus::Low), Color::Green);
}

#[test]
fn summary_tallies_count_distinct_tokens_and_files() {
    let results = vec![
        analysis("alpha", vec![(String::from("b.rb"), 1), (String::from("a.rb"), 2)]),
        analysis("beta", vec![(String::from("a.rb"), 1)]),
        analysis("beta", Vec::new()),
    ];
    let spellings = distinct_token_spellings(&results);
    assert_eq!(spellings, vec!["alpha".to_string(), "beta".to_string()]);
    let files = distinct_occurrence_paths(&results);
    assert_eq!(files, vec!["a.rb".to_string(), "b.rb".to_string()]);
}

#[test]
fn result_blocks_list_reason_and_paths() {
    let token = String::from("name");
    let reason = String::from("never referenced");
    let defined = vec![String::from("a.rb"), String::from("b.rb")];
    let occurred = vec![String::from("c.rb")];
    let lines = result_block_lines(
        &token,
        &reason,
        UsageLikelihoodStatus::High,
        &defined,
        &occurred,
        false,
    );
    assert_eq!(
        lines,
        vec![
            "name".to_string(),
            "   Reason: never referenced".to_string(),
            "   Defined in: (2)".to_string(),
            "   * a.rb".to_string(),
            "   * b.rb".to_string(),
            "   Found in: (1)".to_string(),
            "   * c.rb".to_string(),
        ]
    );
    let without = result_block_lines(
        &token,
        &reason,
        UsageLikelihoodStatus::High,
        &defined,
        &Vec::new(),
        false,
    );
    assert_eq!(without.len(), 5);
    let colored = result_block_lines(
        &token,
        &reason,
        UsageLikelihoodStatus::High,
        &defined,
        &occurred,
        true,
    );
    assert_eq!(colored[0], "\u{1b}[31mname\u{1b}[0m");
}

#[test]
fn summaries_describe_the_active_policy() {
    let statuses = vec![UsageLikelihoodStatus::High, UsageLikelihoodStatus::Low];
    let restriction = LanguageRestriction::Only(vec![Language::Ruby, Language::Rust]);
    let profile = String::from("default");
    let lines = summary_lines(3, 0, &restriction, OrderField::TokenName, &statuses, &profile, false);
    assert_eq!(
        lines,
        vec![
            "== UNUSED SUMMARY ==".to_string(),
            "   Tokens found: 3".to_string(),
            "   Files found: 0".to_string(),
            "   Applied language filters: only rb, rs".to_string(),
            "   Sort order: token".to_string(),
            "   Usage likelihood: high, low".to_string(),
            "   Configuration setting: default".to_string(),
        ]
    );
}

#[test]
fn joins_and_restriction_descriptions() {
    assert_eq!(join_comma(&Vec::new()), "");
    assert_eq!(join_comma(&vec![String::from("one")]), "one");
    assert_eq!(
        join_comma(&vec![String::from("one"), String::from("two"), String::from("three")]),
        "one, two, three"
    );
    assert_eq!(describe_restriction(&LanguageRestriction::All), "all languages");
    assert_eq!(
        describe_restriction(&LanguageRestriction::Except(vec![Language::Markdown])),
        "except md"
    );
}

#[test]
fn policy_descriptions_use_lower_case_names() {
    assert_eq!(OrderField::Appearance.text(), "appearance");
    assert_eq!(OrderField::TokenName.text(), "token");
    assert_eq!(OrderField::Likelihood.text(), "likelihood");
    assert_eq!(Language::Ruby.extension(), "rb");
    assert_eq!(Language::Rust.extension(), "rs");
    assert_eq!(UsageLikelihoodStatus::High.text(), "high");
}
