//! Structured, machine-readable output: a lossless rendering of classified
//! results that can be parsed back.

use vstd::prelude::*;

use crate::analysis::{
    status_text, TokenAnalysis, TokenSearchResult, UsageLikelihood, UsageLikelihoodStatus,
};
use crate::tags::{models, CtagItem, CtagItemView};
use crate::token::Token;

verus! {

broadcast use vstd::string::group_string_axioms;

/// One structured output record: the flattened fields of one classified
/// result, the status rendered as its lower-case name.
pub struct StructuredResult {
    pub token: String,
    pub definitions: Vec<CtagItem>,
    pub occurrences: Vec<(String, u64)>,
    pub status: String,
    pub reason: String,
}

/// Mathematical model of one classified result.
#[verifier::ext_equal]
pub ghost struct TokenAnalysisView {
    pub token: Seq<char>,
    pub definitions: Seq<CtagItemView>,
    pub occurrences: Seq<(Seq<char>, u64)>,
    pub status: UsageLikelihoodStatus,
    pub reason: Seq<char>,
}

impl View for TokenAnalysis {
    type V = TokenAnalysisView;

    open spec fn view(&self) -> TokenAnalysisView {
        TokenAnalysisView {
            token: self.result.token.token@,
            definitions: models(self.result.token.definitions@),
            occurrences: self.result.occurrences@.map_values(|p: (String, u64)| (p.0@, p.1)),
            status: self.usage_likelihood.status,
            reason: self.usage_likelihood.reason@,
        }
    }
}

/// Mathematical model of one structured record.
#[verifier::ext_equal]
pub ghost struct StructuredResultView {
    pub token: Seq<char>,
    pub definitions: Seq<CtagItemView>,
    pub occurrences: Seq<(Seq<char>, u64)>,
    pub status: Seq<char>,
    pub reason: Seq<char>,
}

impl View for StructuredResult {
    type V = StructuredResultView;

    open spec fn view(&self) -> StructuredResultView {
        StructuredResultView {
            token: self.token@,
            definitions: models(self.definitions@),
            occurrences: self.occurrences@.map_values(|p: (String, u64)| (p.0@, p.1)),
            status: self.status@,
            reason: self.reason@,
        }
    }
}

/// The status named by a lower-case status name, if any.
pub open spec fn status_of_text(t: Seq<char>) -> Option<UsageLikelihoodStatus> {
    if t == "high"@ {
        Some(UsageLikelihoodStatus::High)
    } else if t == "medium"@ {
        Some(UsageLikelihoodStatus::Medium)
    } else if t == "low"@ {
        Some(UsageLikelihoodStatus::Low)
    } else {
        None
    }
}

/// Law: rendering a status and parsing the name back recovers the status.
pub proof fn lemma_status_text_round_trip(s: UsageLikelihoodStatus)
    ensures
        status_of_text(status_text(s)) == Some(s),
{
    reveal_strlit("high");
    reveal_strlit("medium");
    reveal_strlit("low");
    assert("high"@.len() == 4);
    assert("medium"@.len() == 6);
    assert("low"@.len() == 3);
    assert("medium"@ != "high"@);
    assert("low"@ != "high"@);
    assert("low"@ != "medium"@);
    match s {
        UsageLikelihoodStatus::High => {
            assert(status_text(s) == "high"@);
        },
        UsageLikelihoodStatus::Medium => {
            assert(status_text(s) == "medium"@);
        },
        UsageLikelihoodStatus::Low => {
            assert(status_text(s) == "low"@);
        },
    }
}

/// The structured record of one classified result.
pub open spec fn encode_result(a: TokenAnalysisView) -> StructuredResultView {
    StructuredResultView {
        token: a.token,
        definitions: a.definitions,
        occurrences: a.occurrences,
        status: status_text(a.status),
        reason: a.reason,
    }
}

/// The classified result a structured record stands for, if its status name
/// is recognized.
pub open spec fn decode_result(s: StructuredResultView) -> Option<TokenAnalysisView> {
    match status_of_text(s.status) {
        Some(st) => Some(
            TokenAnalysisView {
                token: s.token,
                definitions: s.definitions,
                occurrences: s.occurrences,
                status: st,
                reason: s.reason,
            },
        ),
        None => None,
    }
}

/// Law: structured output is lossless — encoding one result and decoding the
/// record recovers the token spelling, every definition, every occurrence
/// bucket, and the likelihood status and reason exactly.
pub proof fn lemma_structured_round_trip(a: TokenAnalysisView)
    ensures
        decode_result(encode_result(a)) == Some(a),
{
    lemma_status_text_round_trip(a.status);
    assert(decode_result(encode_result(a))->0 =~= a);
}

/// Parses a lower-case status name.
pub fn parse_status(t: &String) -> (r: Option<UsageLikelihoodStatus>)
    ensures
        r == status_of_text(t@),
{
    let high = "high".to_owned();
    let medium = "medium".to_owned();
    let low = "low".to_owned();
    if t.eq(&high) {
        Some(UsageLikelihoodStatus::High)
    } else if t.eq(&medium) {
        Some(UsageLikelihoodStatus::Medium)
    } else if t.eq(&low) {
        Some(UsageLikelihoodStatus::Low)
    } else {
        None
    }
}

/// Renders the surviving results as structured records.
pub fn to_structured(results: Vec<TokenAnalysis>) -> (r: Vec<StructuredResult>)
    ensures
        r@.len() == results@.len(),
        forall|i: int| 0 <= i < r@.len() ==> (#[trigger] r@[i])@ == encode_result(results@[i]@),
{
    let ghost total = results@;
    let mut rest = results;
    let mut r: Vec<StructuredResult> = Vec::new();
    while rest.len() > 0
        invariant
            rest@.len() <= total.len(),
            rest@ == total.skip(total.len() - rest@.len()),
            r@.len() + rest@.len() == total.len(),
            forall|i: int|
                0 <= i < r@.len() ==> (#[trigger] r@[i])@ == encode_result(total[i]@),
        decreases rest@.len(),
    {
        let ghost j = total.len() - rest@.len();
        let a = rest.remove(0);
        proof {
            assert(a == total[j as int]);
            assert(rest@ =~= total.skip(j + 1));
        }
        let TokenAnalysis { result, usage_likelihood } = a;
        let TokenSearchResult { token, occurrences } = result;
        let Token { token: spelling, definitions } = token;
        let UsageLikelihood { status, reason } = usage_likelihood;
        let status_name = status.text();
        let s = StructuredResult {
            token: spelling,
            definitions,
            occurrences,
            status: status_name,
            reason,
        };
        proof {
            assert(s@ =~= encode_result(total[j as int]@));
        }
        r.push(s);
    }
    proof {
        assert(r@.len() == total.len());
    }
    r
}

/// Parses structured records back into classified results. Every record must
/// carry a recognized status name; otherwise nothing is recovered.
pub fn from_structured(records: Vec<StructuredResult>) -> (r: Option<Vec<TokenAnalysis>>)
    ensures
        match r {
            Some(v) => v@.len() == records@.len() && forall|i: int|
                0 <= i < v@.len() ==> decode_result(records@[i]@) == Some((#[trigger] v@[i])@),
            None => exists|i: int|
                0 <= i < records@.len() && decode_result(#[trigger] records@[i]@) is None,
        },
{
    let ghost total = records@;
    let mut rest = records;
    let mut out: Vec<TokenAnalysis> = Vec::new();
    #[verifier::loop_isolation(false)]
    while rest.len() > 0
        invariant
            rest@.len() <= total.len(),
            rest@ == total.skip(total.len() - rest@.len()),
            out@.len() + rest@.len() == total.len(),
            forall|i: int|
                0 <= i < out@.len() ==> decode_result(total[i]@) == Some(
                    (#[trigger] out@[i])@,
                ),
        decreases rest@.len(),
    {
        let ghost j = total.len() - rest@.len();
        let s = rest.remove(0);
        proof {
            assert(s == total[j as int]);
            assert(rest@ =~= total.skip(j + 1));
        }
        let parsed = parse_status(&s.status);
        match parsed {
            Some(st) => {
                let StructuredResult { token, definitions, occurrences, status, reason } = s;
                let a = TokenAnalysis {
                    result: TokenSearchResult {
                        token: Token { token, definitions },
                        occurrences,
                    },
                    usage_likelihood: UsageLikelihood { status: st, reason },
                };
                proof {
                    assert(decode_result(total[j as int]@)->0 =~= a@);
                }
                out.push(a);
            },
            None => {
                proof {
                    assert(0 <= j < total.len());
                    assert(decode_result(#[trigger] records@[j as int]@) is None);
                }
                return None;
            },
        }
    }
    Some(out)
}

} // verus!
