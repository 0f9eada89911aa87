use unused::tags::{CtagItem, Language, TokenKind};
use unused::token::Token;

fn entry(name: &str, file_path: &str) -> CtagItem {
    CtagItem {
        name: String::from(name),
        file_path: String::from(file_path),
        language: Some(Language::Ruby),
        tags: Vec::new(),
        kind: TokenKind::Class,
    }
}

#[test]
fn building_tokens_collapses_ctags() {
    let instance_method_spec = CtagItem {
        name: String::from("#name"),
        file_path: String::from("spec/models/person_spec.rb"),
        language: Some(Language::Ruby),
        tags: Vec::new(),
        kind: TokenKind::Class,
    };

    let instance_method = CtagItem {
        name: String::from("name"),
        file_path: String::from("app/models/person.rb"),
        language: Some(Language::Ruby),
        tags: Vec::new(),
        kind: TokenKind::Class,
    };
    let tokens = Token::build_tokens_from_outcome(vec![instance_method_spec, instance_method]);

    assert_eq!(tokens.len(), 1);
    assert_eq!(tokens.iter().nth(0).unwrap().token, "name");
}

#[test]
fn canonicalization_is_idempotent_on_samples() {
    for raw in ["", "#name", "..name", "name", "#.#", "plain"] {
        let once = unused::token::strip_prepended_punctuation(raw);
        let twice = unused::token::strip_prepended_punctuation(&once);
        assert_eq!(once, twice);
    }
    assert_eq!(unused::token::strip_prepended_punctuation(""), "");
    assert_eq!(unused::token::strip_prepended_punctuation("#.#"), "");
    assert_eq!(unused::token::strip_prepended_punctuation("#name"), "name");
}

#[test]
fn grouping_is_order_independent() {
    let forward = Token::build_tokens_from_outcome(vec![
        entry("#name", "b.rb"),
        entry("name", "a.rb"),
    ]);
    let backward = Token::build_tokens_from_outcome(vec![
        entry("name", "a.rb"),
        entry("#name", "b.rb"),
    ]);
    for tokens in [&forward, &backward] {
        assert_eq!(tokens.len(), 1);
        assert_eq!(tokens[0].token, "name");
        assert_eq!(tokens[0].definitions.len(), 2);
    }
}

#[test]
fn grouping_sorts_spellings_and_keeps_definition_order() {
    let tokens = Token::build_tokens_from_outcome(vec![
        entry("zeta", "z1.rb"),
        entry("alpha", "a1.rb"),
        entry(".zeta", "z2.rb"),
    ]);
    assert_eq!(tokens.len(), 2);
    assert_eq!(tokens[0].token, "alpha");
    assert_eq!(tokens[1].token, "zeta");
    assert_eq!(tokens[1].definitions[0].file_path, "z1.rb");
    assert_eq!(tokens[1].definitions[1].file_path, "z2.rb");
}

#[test]
fn all_absorbs_a_failed_read() {
    assert_eq!(Token::all(None).len(), 0);
    let tokens = Token::all(Some(vec![entry("one", "a.rb")]));
    assert_eq!(tokens.len(), 1);
}

#[test]
fn punctuation_only_names_group_under_the_empty_spelling() {
    let tokens = Token::build_tokens_from_outcome(vec![entry("#.", "a.rb"), entry("#", "b.rb")]);
    assert_eq!(tokens.len(), 1);
    assert_eq!(tokens[0].token, "");
    assert_eq!(tokens[0].definitions.len(), 2);
}

#[test]
fn defined_paths_deduplicates_and_sorts() {
    let tokens = Token::build_tokens_from_outcome(vec![
        entry("name", "b.rb"),
        entry("#name", "a.rb"),
        entry(".name", "b.rb"),
    ]);
    assert_eq!(tokens.len(), 1);
    let paths = tokens[0].defined_paths();
    assert_eq!(paths, vec!["a.rb".to_string(), "b.rb".to_string()]);
}

#[test]
fn first_path_is_the_smallest_path() {
    let tokens = Token::build_tokens_from_outcome(vec![
        entry("name", "c.rb"),
        entry("name", "a.rb"),
        entry("name", "b.rb"),
    ]);
    assert_eq!(tokens[0].first_path(), "a.rb");
}

#[test]
fn languages_skips_entries_without_a_language() {
    let mut with_lang = entry("name", "a.rb");
    with_lang.language = Some(Language::Ruby);
    let mut without = entry("name", "b.rs");
    without.language = None;
    let mut rust = entry("name", "c.rs");
    rust.language = Some(Language::Rust);
    let tokens = Token::build_tokens_from_outcome(vec![with_lang, without, rust]);
    assert_eq!(tokens[0].languages(), vec![Language::Ruby, Language::Rust]);
}

#[test]
fn only_ctag_checks_every_definition() {
    let tokens = Token::build_tokens_from_outcome(vec![entry("name", "a.rb"), entry("name", "b.rb")]);
    assert!(tokens[0].only_ctag(|ct: &CtagItem| ct.kind == TokenKind::Class));
    assert!(!tokens[0].only_ctag(|ct: &CtagItem| ct.file_path == "a.rb"));
}
