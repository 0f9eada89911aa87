use unused::analysis::{
    AnalysisFilter, OrderField, TokenAnalysis, TokenSearchResult, TokenUsageResults,
    UsageLikelihood, UsageLikelihoodStatus,
};
use unused::config::{build_analysis_filter, build_token_search_config, Flags, LanguageRestriction};
use unused::profile::{choose_profile, ProjectConfiguration};
use unused::structured::{from_structured, to_structured};
use unused::tags::{CtagItem, Language, TokenKind};
use unused::token::Token;

fn default_flags() -> Flags {
    Flags {
        no_color: false,
        json: false,
        no_progress: false,
        all_likelihoods: false,
        likelihoods: Vec::new(),
        sort_order: OrderField::Appearance,
        reverse: false,
        only_filetypes: Vec::new(),
        except_filetypes: Vec::new(),
    }
}

fn analysis(spelling: &str, status: UsageLikelihoodStatus) -> TokenAnalysis {
    let def = CtagItem {
        name: String::from(spelling),
        file_path: String::from("app/lib.rb"),
        language: Some(Language::Ruby),
        tags: vec![(String::from("scope"), String::from("instance"))],
        kind: TokenKind::Method,
    };
    TokenAnalysis {
        result: TokenSearchResult {
            token: Token { token: String::from(spelling), definitions: vec![def] },
            occurrences: vec![(String::from("app/use.rb"), 2)],
        },
        usage_likelihood: UsageLikelihood { status, reason: String::from("rarely seen") },
    }
}

#[test]
fn only_wins_over_except_when_both_are_given() {
    let mut flags = default_flags();
    flags.only_filetypes = vec![Language::Ruby];
    flags.except_filetypes = vec![Language::Rust];
    let config = build_token_search_config(&flags);
    match config.language_restriction {
        LanguageRestriction::Only(langs) => assert_eq!(langs, vec![Language::Ruby]),
        _ => panic!("expected an only-restriction"),
    }
}

#[test]
fn except_applies_when_only_is_empty() {
    let mut flags = default_flags();
    flags.except_filetypes = vec![Language::Rust, Language::Rust, Language::Elm];
    let config = build_token_search_config(&flags);
    match config.language_restriction {
        LanguageRestriction::Except(langs) => {
            assert_eq!(langs, vec![Language::Rust, Language::Elm])
        },
        _ => panic!("expected an except-restriction"),
    }
}

#[test]
fn no_language_flags_restrict_nothing() {
    let flags = default_flags();
    let config = build_token_search_config(&flags);
    assert!(matches!(config.language_restriction, LanguageRestriction::All));
    assert!(config.display_progress);
    let mut quiet = default_flags();
    quiet.no_progress = true;
    assert!(!build_token_search_config(&quiet).display_progress);
}

#[test]
fn all_likelihoods_override_an_explicit_filter() {
    let mut flags = default_flags();
    flags.all_likelihoods = true;
    flags.likelihoods = vec![UsageLikelihoodStatus::Low];
    let filter = build_analysis_filter(&flags);
    assert_eq!(
        filter.usage_likelihood_filter,
        vec![
            UsageLikelihoodStatus::High,
            UsageLikelihoodStatus::Medium,
            UsageLikelihoodStatus::Low,
        ]
    );
}

#[test]
fn likelihood_filter_defaults_to_high() {
    let flags = default_flags();
    let filter = build_analysis_filter(&flags);
    assert_eq!(filter.usage_likelihood_filter, vec![UsageLikelihoodStatus::High]);
    assert_eq!(filter.sort_order, OrderField::Appearance);
    assert!(!filter.sort_descending);
}

#[test]
fn an_explicit_likelihood_list_replaces_the_default() {
    let mut flags = default_flags();
    flags.likelihoods = vec![UsageLikelihoodStatus::Medium, UsageLikelihoodStatus::Low];
    let filter = build_analysis_filter(&flags);
    assert_eq!(
        filter.usage_likelihood_filter,
        vec![UsageLikelihoodStatus::Medium, UsageLikelihoodStatus::Low]
    );
}

#[test]
fn filtering_by_high_keeps_the_high_results_in_order() {
    let results = TokenUsageResults::new(vec![
        analysis("delta", UsageLikelihoodStatus::Low),
        analysis("zeta", UsageLikelihoodStatus::High),
        analysis("alpha", UsageLikelihoodStatus::Medium),
        analysis("beta", UsageLikelihoodStatus::High),
    ]);
    let filter = build_analysis_filter(&default_flags());
    let surviving = results.filter(&filter);
    assert_eq!(surviving.len(), 2);
    assert_eq!(surviving[0].result.token.token, "zeta");
    assert_eq!(surviving[1].result.token.token, "beta");
}

#[test]
fn sorting_by_token_name_orders_and_reverses() {
    let mut flags = default_flags();
    flags.all_likelihoods = true;
    flags.sort_order = OrderField::TokenName;
    let filter = build_analysis_filter(&flags);
    let results = TokenUsageResults::new(vec![
        analysis("beta", UsageLikelihoodStatus::Low),
        analysis("alpha", UsageLikelihoodStatus::High),
    ]);
    let surviving = results.filter(&filter);
    assert_eq!(surviving[0].result.token.token, "alpha");
    assert_eq!(surviving[1].result.token.token, "beta");

    let mut reversed_flags = default_flags();
    reversed_flags.all_likelihoods = true;
    reversed_flags.sort_order = OrderField::TokenName;
    reversed_flags.reverse = true;
    let reversed_filter = build_analysis_filter(&reversed_flags);
    let results = TokenUsageResults::new(vec![
        analysis("beta", UsageLikelihoodStatus::Low),
        analysis("alpha", UsageLikelihoodStatus::High),
    ]);
    let surviving = results.filter(&reversed_filter);
    assert_eq!(surviving[0].result.token.token, "beta");
    assert_eq!(surviving[1].result.token.token, "alpha");
}

#[test]
fn sorting_by_likelihood_breaks_ties_by_spelling() {
    let mut flags = default_flags();
    flags.all_likelihoods = true;
    flags.sort_order = OrderField::Likelihood;
    let filter = build_analysis_filter(&flags);
    let results = TokenUsageResults::new(vec![
        analysis("zeta", UsageLikelihoodStatus::Low),
        analysis("beta", UsageLikelihoodStatus::High),
        analysis("alpha", UsageLikelihoodStatus::High),
    ]);
    let surviving = results.filter(&filter);
    assert_eq!(surviving[0].result.token.token, "alpha");
    assert_eq!(surviving[1].result.token.token, "beta");
    assert_eq!(surviving[2].result.token.token, "zeta");
}

#[test]
fn a_missing_or_corrupt_store_selects_the_default_profile() {
    let key = String::from("Rails");
    let missing = choose_profile(None, &key);
    assert_eq!(missing.name, "default");
    let absent = choose_profile(
        Some(vec![ProjectConfiguration { name: String::from("Phoenix") }]),
        &key,
    );
    assert_eq!(absent.name, "default");
    let present = choose_profile(
        Some(vec![
            ProjectConfiguration { name: String::from("Phoenix") },
            ProjectConfiguration { name: String::from("Rails") },
        ]),
        &key,
    );
    assert_eq!(present.name, "Rails");
}

#[test]
fn structured_output_round_trips_every_field() {
    let original = vec![
        analysis("alpha", UsageLikelihoodStatus::High),
        analysis("beta", UsageLikelihoodStatus::Medium),
        analysis("gamma", UsageLikelihoodStatus::Low),
    ];
    let records = to_structured(vec![
        analysis("alpha", UsageLikelihoodStatus::High),
        analysis("beta", UsageLikelihoodStatus::Medium),
        analysis("gamma", UsageLikelihoodStatus::Low),
    ]);
    assert_eq!(records[0].status, "high");
    assert_eq!(records[1].status, "medium");
    assert_eq!(records[2].status, "low");
    let recovered = from_structured(records).expect("statuses are all recognized");
    assert_eq!(recovered.len(), original.len());
    for (a, b) in original.iter().zip(recovered.iter()) {
        assert_eq!(a.result.token.token, b.result.token.token);
        assert_eq!(a.result.token.definitions.len(), b.result.token.definitions.len());
        for (da, db) in a.result.token.definitions.iter().zip(b.result.token.definitions.iter()) {
            assert_eq!(da.name, db.name);
            assert_eq!(da.file_path, db.file_path);
            assert_eq!(da.language, db.language);
            assert_eq!(da.kind, db.kind);
            assert_eq!(da.tags, db.tags);
        }
        assert_eq!(a.result.occurrences, b.result.occurrences);
        assert_eq!(a.usage_likelihood.status, b.usage_likelihood.status);
        assert_eq!(a.usage_likelihood.reason, b.usage_likelihood.reason);
    }
}

#[test]
fn an_unrecognized_status_name_recovers_nothing() {
    let mut records = to_structured(vec![analysis("alpha", UsageLikelihoodStatus::High)]);
    records[0].status = String::from("certain");
    assert!(from_structured(records).is_none());
}
