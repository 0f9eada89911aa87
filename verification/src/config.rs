//! User policy and its resolution into search and filter configuration.

use vstd::prelude::*;

use crate::analysis::{AnalysisFilter, OrderField, UsageLikelihoodStatus};
use crate::tags::Language;

verus! {

/// Which languages the occurrence search may consider.
pub enum LanguageRestriction {
    All,
    Only(Vec<Language>),
    Except(Vec<Language>),
}

/// Configuration handed to the occurrence search.
pub struct TokenSearchConfig {
    pub display_progress: bool,
    pub language_restriction: LanguageRestriction,
}

impl Default for TokenSearchConfig {
    fn default() -> (r: Self)
        ensures
            r.display_progress == true,
            r.language_restriction is All,
    {
        TokenSearchConfig { display_progress: true, language_restriction: LanguageRestriction::All }
    }
}

/// Validated command-line policy, one field per flag.
pub struct Flags {
    pub no_color: bool,
    pub json: bool,
    pub no_progress: bool,
    pub all_likelihoods: bool,
    pub likelihoods: Vec<UsageLikelihoodStatus>,
    pub sort_order: OrderField,
    pub reverse: bool,
    pub only_filetypes: Vec<Language>,
    pub except_filetypes: Vec<Language>,
}

/// `s` with duplicates removed, keeping each language's first occurrence.
pub open spec fn dedup_languages(s: Seq<Language>) -> Seq<Language>
    decreases s.len(),
{
    if s.len() == 0 {
        Seq::empty()
    } else {
        let rest = dedup_languages(s.drop_last());
        if s.drop_last().contains(s.last()) {
            rest
        } else {
            rest.push(s.last())
        }
    }
}

/// Deduplication keeps exactly the languages that occur.
pub proof fn lemma_dedup_languages_contains(s: Seq<Language>, l: Language)
    ensures
        dedup_languages(s).contains(l) == s.contains(l),
    decreases s.len(),
{
    if s.len() > 0 {
        lemma_dedup_languages_contains(s.drop_last(), l);
        let rest = dedup_languages(s.drop_last());
        if s.contains(l) {
            let j = choose|j: int| 0 <= j < s.len() && s[j] == l;
            if j < s.len() - 1 {
                assert(s.drop_last()[j] == l);
                assert(s.drop_last().contains(l));
            }
            if s.drop_last().contains(l) {
                assert(dedup_languages(s).contains(l)) by {
                    let k = choose|k: int| 0 <= k < rest.len() && rest[k] == l;
                    if !s.drop_last().contains(s.last()) {
                        assert(dedup_languages(s)[k] == l);
                    }
                }
            } else {
                assert(s.last() == l);
                assert(dedup_languages(s).last() == l);
            }
        } else {
            if dedup_languages(s).contains(l) {
                let k = choose|k: int|
                    0 <= k < dedup_languages(s).len() && dedup_languages(s)[k] == l;
                if s.drop_last().contains(s.last()) {
                    assert(rest.contains(l));
                } else {
                    if k < rest.len() {
                        assert(rest.contains(l));
                    } else {
                        assert(l == s.last());
                        assert(s.contains(s.last()));
                    }
                }
                assert(s.drop_last().contains(l) ==> s.contains(l)) by {
                    if s.drop_last().contains(l) {
                        let j = choose|j: int|
                            0 <= j < s.drop_last().len() && s.drop_last()[j] == l;
                        assert(s[j] == l);
                    }
                }
            }
        }
    }
}

/// Whether `l` occurs in `v`.
fn contains_language(v: &Vec<Language>, l: Language) -> (r: bool)
    ensures
        r == v@.contains(l),
{
    let mut j: usize = 0;
    while j < v.len()
        invariant
            j <= v@.len(),
            forall|k: int| 0 <= k < j ==> v@[k] != l,
        decreases v@.len() - j,
    {
        if v[j] == l {
            return true;
        }
        j = j + 1;
    }
    false
}

/// The language set named by a flag list: the list with duplicates removed,
/// first occurrences kept.
pub fn to_language_set(input: &Vec<Language>) -> (r: Vec<Language>)
    ensures
        r@ == dedup_languages(input@),
{
    let mut r: Vec<Language> = Vec::new();
    let mut j: usize = 0;
    proof {
        assert(r@ =~= dedup_languages(input@.subrange(0, 0)));
    }
    while j < input.len()
        invariant
            j <= input@.len(),
            r@ == dedup_languages(input@.subrange(0, j as int)),
        decreases input@.len() - j,
    {
        proof {
            let b = input@.subrange(0, j + 1);
            assert(b.drop_last() =~= input@.subrange(0, j as int));
            assert(b.last() == input@[j as int]);
            lemma_dedup_languages_contains(input@.subrange(0, j as int), input@[j as int]);
        }
        let seen = contains_language(&r, input[j]);
        if !seen {
            r.push(input[j]);
        }
        j = j + 1;
    }
    proof {
        assert(input@.subrange(0, input@.len() as int) =~= input@);
    }
    r
}

/// Resolves the search configuration from the flags. The defaults show
/// progress and restrict no language; a non-empty "only" list restricts to
/// exactly those languages and wins over a non-empty "except" list, which
/// otherwise excludes its languages.
pub fn build_token_search_config(cmd: &Flags) -> (r: TokenSearchConfig)
    ensures
        r.display_progress == !cmd.no_progress,
        cmd.only_filetypes@.len() > 0 ==> r.language_restriction is Only
            && r.language_restriction->Only_0@ == dedup_languages(cmd.only_filetypes@),
        cmd.only_filetypes@.len() == 0 && cmd.except_filetypes@.len() > 0
            ==> r.language_restriction is Except && r.language_restriction->Except_0@
            == dedup_languages(cmd.except_filetypes@),
        cmd.only_filetypes@.len() == 0 && cmd.except_filetypes@.len() == 0
            ==> r.language_restriction is All,
{
    let mut search_config = TokenSearchConfig::default();
    if cmd.no_progress {
        search_config.display_progress = false;
    }
    if !cmd.only_filetypes.is_empty() {
        search_config.language_restriction = LanguageRestriction::Only(
            to_language_set(&cmd.only_filetypes),
        );
    } else if !cmd.except_filetypes.is_empty() {
        search_config.language_restriction = LanguageRestriction::Except(
            to_language_set(&cmd.except_filetypes),
        );
    }
    search_config
}

/// Resolves the analysis filter from the flags: an explicit likelihood list
/// replaces the default `{high}`, the "all likelihoods" override forces all
/// three levels regardless, and sort field and direction apply verbatim.
pub fn build_analysis_filter(cmd: &Flags) -> (r: AnalysisFilter)
    ensures
        cmd.all_likelihoods ==> r.usage_likelihood_filter@ == seq![
            UsageLikelihoodStatus::High,
            UsageLikelihoodStatus::Medium,
            UsageLikelihoodStatus::Low,
        ],
        !cmd.all_likelihoods && cmd.likelihoods@.len() > 0 ==> r.usage_likelihood_filter@
            == cmd.likelihoods@,
        !cmd.all_likelihoods && cmd.likelihoods@.len() == 0 ==> r.usage_likelihood_filter@ == seq![
            UsageLikelihoodStatus::High,
        ],
        r.sort_order == cmd.sort_order,
        r.sort_descending == cmd.reverse,
{
    let mut analysis_filter = AnalysisFilter::default();
    if !cmd.likelihoods.is_empty() {
        let mut chosen: Vec<UsageLikelihoodStatus> = Vec::new();
        let mut j: usize = 0;
        while j < cmd.likelihoods.len()
            invariant
                j <= cmd.likelihoods@.len(),
                chosen@ == cmd.likelihoods@.subrange(0, j as int),
            decreases cmd.likelihoods@.len() - j,
        {
            chosen.push(cmd.likelihoods[j]);
            proof {
                assert(chosen@ =~= cmd.likelihoods@.subrange(0, j + 1));
            }
            j = j + 1;
        }
        proof {
            assert(cmd.likelihoods@.subrange(0, cmd.likelihoods@.len() as int)
                =~= cmd.likelihoods@);
        }
        analysis_filter.usage_likelihood_filter = chosen;
    }
    if cmd.all_likelihoods {
        let mut every: Vec<UsageLikelihoodStatus> = Vec::new();
        every.push(UsageLikelihoodStatus::High);
        every.push(UsageLikelihoodStatus::Medium);
        every.push(UsageLikelihoodStatus::Low);
        proof {
            assert(every@ =~= seq![
                UsageLikelihoodStatus::High,
                UsageLikelihoodStatus::Medium,
                UsageLikelihoodStatus::Low,
            ]);
        }
        analysis_filter.usage_likelihood_filter = every;
    }
    analysis_filter.set_order_field(cmd.sort_order);
    if cmd.reverse {
        analysis_filter.set_order_descending();
    }
    analysis_filter
}

} // verus!
