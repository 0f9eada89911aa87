//! Classified search results and the analysis filter that selects and orders
//! them.

use vstd::prelude::*;

use crate::strings::{
    insert_unique_sorted, lemma_seq_char_lt_connected, lemma_seq_char_lt_irreflexive,
    lemma_seq_char_lt_transitive, seq_char_lt, sorted_strict, str_lt, view_set,
};
use crate::token::Token;

verus! {

/// Heuristic confidence that a token is unused.
#[derive(Clone, Copy, PartialEq, Eq, Structural, Debug)]
pub enum UsageLikelihoodStatus {
    High,
    Medium,
    Low,
}

impl UsageLikelihoodStatus {
    /// Rank used when ordering by likelihood: high confidence first.
    pub open spec fn rank(self) -> int {
        match self {
            UsageLikelihoodStatus::High => 0,
            UsageLikelihoodStatus::Medium => 1,
            UsageLikelihoodStatus::Low => 2,
        }
    }

    /// The lower-case name of the status.
    pub fn text(&self) -> (r: String)
        ensures
            r@ == status_text(*self),
    {
        match self {
            UsageLikelihoodStatus::High => "high".to_owned(),
            UsageLikelihoodStatus::Medium => "medium".to_owned(),
            UsageLikelihoodStatus::Low => "low".to_owned(),
        }
    }
}

/// The lower-case name of a likelihood status.
pub open spec fn status_text(s: UsageLikelihoodStatus) -> Seq<char> {
    match s {
        UsageLikelihoodStatus::High => "high"@,
        UsageLikelihoodStatus::Medium => "medium"@,
        UsageLikelihoodStatus::Low => "low"@,
    }
}

/// A usage-likelihood classification: a status and the reason behind it.
pub struct UsageLikelihood {
    pub status: UsageLikelihoodStatus,
    pub reason: String,
}

/// One token's occurrence evidence, bucketed by file: each file path is
/// paired with the number of occurrences found in it.
pub struct TokenSearchResult {
    pub token: Token,
    pub occurrences: Vec<(String, u64)>,
}

/// The set of file paths holding occurrences.
pub open spec fn occurrence_path_set(occ: Seq<(String, u64)>) -> Set<Seq<char>> {
    Set::new(|x: Seq<char>| exists|j: int| 0 <= j < occ.len() && occ[j].0@ == x)
}

impl TokenSearchResult {
    /// The deduplicated set of this token's definition paths.
    pub fn defined_paths(&self) -> (r: Vec<String>)
        ensures
            sorted_strict(r@),
            view_set(r@) == crate::token::path_set(crate::tags::models(self.token.definitions@)),
    {
        self.token.defined_paths()
    }

    /// The deduplicated set of file paths in which occurrences were found,
    /// in increasing lexicographic order.
    pub fn occurred_paths(&self) -> (r: Vec<String>)
        ensures
            sorted_strict(r@),
            view_set(r@) == occurrence_path_set(self.occurrences@),
    {
        let mut r: Vec<String> = Vec::new();
        let mut j: usize = 0;
        proof {
            assert(view_set(r@) =~= occurrence_path_set(self.occurrences@.subrange(0, 0)));
        }
        while j < self.occurrences.len()
            invariant
                j <= self.occurrences@.len(),
                sorted_strict(r@),
                view_set(r@) == occurrence_path_set(self.occurrences@.subrange(0, j as int)),
            decreases self.occurrences@.len() - j,
        {
            let p = self.occurrences[j].0.clone();
            proof {
                lemma_occurrence_path_set_snoc(self.occurrences@, j as int);
            }
            insert_unique_sorted(&mut r, p);
            j = j + 1;
        }
        proof {
            assert(self.occurrences@.subrange(0, self.occurrences@.len() as int)
                =~= self.occurrences@);
        }
        r
    }
}

/// Adding one occurrence bucket adds exactly its path to the path set.
proof fn lemma_occurrence_path_set_snoc(occ: Seq<(String, u64)>, j: int)
    requires
        0 <= j < occ.len(),
    ensures
        occurrence_path_set(occ.subrange(0, j + 1)) == occurrence_path_set(
            occ.subrange(0, j),
        ).insert(occ[j].0@),
{
    let a = occ.subrange(0, j);
    let b = occ.subrange(0, j + 1);
    let c = occ[j].0@;
    assert(occurrence_path_set(b) =~= occurrence_path_set(a).insert(c)) by {
        assert forall|x: Seq<char>| occurrence_path_set(b).contains(x) implies occurrence_path_set(
            a,
        ).insert(c).contains(x) by {
            let k = choose|k: int| 0 <= k < b.len() && b[k].0@ == x;
            if k < j {
                assert(a[k] == b[k]);
                assert(occurrence_path_set(a).contains(x));
            } else {
                assert(b[k] == occ[j]);
            }
        }
        assert forall|x: Seq<char>| occurrence_path_set(a).insert(c).contains(
            x,
        ) implies occurrence_path_set(b).contains(x) by {
            if x == c {
                assert(b[j] == occ[j]);
                assert(b[j].0@ == x);
            } else {
                let k = choose|k: int| 0 <= k < a.len() && a[k].0@ == x;
                assert(b[k] == a[k]);
                assert(b[k].0@ == x);
            }
        }
    }
}

/// One classified result: a search result with its usage-likelihood verdict.
pub struct TokenAnalysis {
    pub result: TokenSearchResult,
    pub usage_likelihood: UsageLikelihood,
}

/// The full sequence of classified results for one run.
pub struct TokenUsageResults {
    pub analyses: Vec<TokenAnalysis>,
}

/// The field classified results are ordered by. `Appearance` keeps the
/// original relative order.
#[derive(Clone, Copy, PartialEq, Eq, Structural, Debug)]
pub enum OrderField {
    Appearance,
    TokenName,
    Likelihood,
}

impl Default for OrderField {
    fn default() -> (r: Self)
        ensures
            r == OrderField::Appearance,
    {
        OrderField::Appearance
    }
}

/// Policy for selecting and ordering classified results.
pub struct AnalysisFilter {
    pub usage_likelihood_filter: Vec<UsageLikelihoodStatus>,
    pub sort_order: OrderField,
    pub sort_descending: bool,
}

impl Default for AnalysisFilter {
    fn default() -> (r: Self)
        ensures
            r.usage_likelihood_filter@ == seq![UsageLikelihoodStatus::High],
            r.sort_order == OrderField::Appearance,
            r.sort_descending == false,
    {
        let mut statuses: Vec<UsageLikelihoodStatus> = Vec::new();
        statuses.push(UsageLikelihoodStatus::High);
        proof {
            assert(statuses@ =~= seq![UsageLikelihoodStatus::High]);
        }
        AnalysisFilter { usage_likelihood_filter: statuses, sort_order: OrderField::Appearance, sort_descending: false }
    }
}

impl AnalysisFilter {
    /// Chooses the sort field, leaving the rest of the policy unchanged.
    pub fn set_order_field(&mut self, field: OrderField)
        ensures
            final(self).sort_order == field,
            final(self).usage_likelihood_filter == old(self).usage_likelihood_filter,
            final(self).sort_descending == old(self).sort_descending,
    {
        self.sort_order = field;
    }

    /// Reverses the sort direction, leaving the rest of the policy unchanged.
    pub fn set_order_descending(&mut self)
        ensures
            final(self).sort_descending == true,
            final(self).usage_likelihood_filter == old(self).usage_likelihood_filter,
            final(self).sort_order == old(self).sort_order,
    {
        self.sort_descending = true;
    }
}

/// Strict order on results for one sort field; under `Appearance` nothing
/// compares below anything, so the original order is kept. Ties on the
/// likelihood rank are broken by token spelling.
pub open spec fn sort_lt(field: OrderField, a: TokenAnalysis, b: TokenAnalysis) -> bool {
    match field {
        OrderField::Appearance => false,
        OrderField::TokenName => seq_char_lt(a.result.token.token@, b.result.token.token@),
        OrderField::Likelihood => a.usage_likelihood.status.rank() < b.usage_likelihood.status.rank()
            || (a.usage_likelihood.status.rank() == b.usage_likelihood.status.rank()
                && seq_char_lt(a.result.token.token@, b.result.token.token@)),
    }
}

/// Stable insertion of `x` into `s`: `x` goes after every element it is not
/// strictly below.
pub open spec fn insert_sorted(field: OrderField, x: TokenAnalysis, s: Seq<TokenAnalysis>) -> Seq<
    TokenAnalysis,
>
    decreases s.len(),
{
    if s.len() == 0 {
        seq![x]
    } else if sort_lt(field, x, s.last()) {
        insert_sorted(field, x, s.drop_last()).push(s.last())
    } else {
        s.push(x)
    }
}

/// Stable sort of `s` by `field`: elements are inserted in input order.
pub open spec fn sort_spec(field: OrderField, s: Seq<TokenAnalysis>) -> Seq<TokenAnalysis>
    decreases s.len(),
{
    if s.len() == 0 {
        Seq::empty()
    } else {
        insert_sorted(field, s.last(), sort_spec(field, s.drop_last()))
    }
}

/// No pair of a sequence is inverted under `sort_lt`.
pub open spec fn sorted_by(field: OrderField, s: Seq<TokenAnalysis>) -> bool {
    forall|i: int, j: int| 0 <= i < j < s.len() ==> !sort_lt(field, s[j], s[i])
}

/// The order is irreflexive: nothing sorts strictly below itself.
proof fn lemma_sort_lt_irreflexive(field: OrderField, a: TokenAnalysis)
    ensures
        !sort_lt(field, a, a),
{
    match field {
        OrderField::Appearance => {},
        OrderField::TokenName => {
            lemma_seq_char_lt_irreflexive(a.result.token.token@);
        },
        OrderField::Likelihood => {
            lemma_seq_char_lt_irreflexive(a.result.token.token@);
        },
    }
}

/// The order is asymmetric.
proof fn lemma_sort_lt_asymmetric(field: OrderField, a: TokenAnalysis, b: TokenAnalysis)
    requires
        sort_lt(field, a, b),
    ensures
        !sort_lt(field, b, a),
{
    if sort_lt(field, b, a) {
        match field {
            OrderField::Appearance => {},
            OrderField::TokenName => {
                lemma_seq_char_lt_transitive(
                    a.result.token.token@,
                    b.result.token.token@,
                    a.result.token.token@,
                );
                lemma_seq_char_lt_irreflexive(a.result.token.token@);
            },
            OrderField::Likelihood => {
                if a.usage_likelihood.status.rank() == b.usage_likelihood.status.rank() {
                    lemma_seq_char_lt_transitive(
                        a.result.token.token@,
                        b.result.token.token@,
                        a.result.token.token@,
                    );
                    lemma_seq_char_lt_irreflexive(a.result.token.token@);
                }
            },
        }
    }
}

/// Whatever does not sort below `b` sorts below everything `a` does, once
/// `a` itself does not sort below `b`.
proof fn lemma_sort_lt_step(field: OrderField, a: TokenAnalysis, b: TokenAnalysis, c: TokenAnalysis)
    requires
        !sort_lt(field, a, b),
        sort_lt(field, a, c),
    ensures
        sort_lt(field, b, c),
{
    match field {
        OrderField::Appearance => {},
        OrderField::TokenName => {
            let ta = a.result.token.token@;
            let tb = b.result.token.token@;
            let tc = c.result.token.token@;
            lemma_seq_char_lt_connected(ta, tb);
            if tb != ta && seq_char_lt(tb, ta) {
                lemma_seq_char_lt_transitive(tb, ta, tc);
            }
        },
        OrderField::Likelihood => {
            let ta = a.result.token.token@;
            let tb = b.result.token.token@;
            let tc = c.result.token.token@;
            let ra = a.usage_likelihood.status.rank();
            let rb = b.usage_likelihood.status.rank();
            let rc = c.usage_likelihood.status.rank();
            if rb == ra {
                lemma_seq_char_lt_connected(ta, tb);
                if ra == rc && tb != ta && seq_char_lt(tb, ta) && seq_char_lt(ta, tc) {
                    lemma_seq_char_lt_transitive(tb, ta, tc);
                }
            }
        },
    }
}

/// Every element of a stable insertion is the inserted one or one of the
/// sequence's own.
proof fn lemma_insert_sorted_elems(field: OrderField, x: TokenAnalysis, s: Seq<TokenAnalysis>)
    ensures
        insert_sorted(field, x, s).len() == s.len() + 1,
        forall|k: int|
            0 <= k < insert_sorted(field, x, s).len() ==> insert_sorted(field, x, s)[k] == x
                || s.contains(#[trigger] insert_sorted(field, x, s)[k]),
    decreases s.len(),
{
    if s.len() > 0 && sort_lt(field, x, s.last()) {
        lemma_insert_sorted_elems(field, x, s.drop_last());
        let r = insert_sorted(field, x, s);
        let rp = insert_sorted(field, x, s.drop_last());
        assert forall|k: int| 0 <= k < r.len() implies r[k] == x || s.contains(
            #[trigger] r[k],
        ) by {
            if k < rp.len() {
                assert(r[k] == rp[k]);
                if rp[k] != x {
                    let m = choose|m: int| 0 <= m < s.drop_last().len() && s.drop_last()[m] == rp[k];
                    assert(s[m] == rp[k]);
                }
            } else {
                assert(r[k] == s.last());
                assert(s[s.len() - 1] == s.last());
            }
        }
    }
}

/// Stable insertion into a sorted sequence keeps it sorted.
proof fn lemma_insert_sorted_sorted(field: OrderField, x: TokenAnalysis, s: Seq<TokenAnalysis>)
    requires
        sorted_by(field, s),
    ensures
        sorted_by(field, insert_sorted(field, x, s)),
    decreases s.len(),
{
    if s.len() == 0 {
    } else if sort_lt(field, x, s.last()) {
        let sp = s.drop_last();
        assert(sorted_by(field, sp)) by {
            assert forall|i: int, j: int| 0 <= i < j < sp.len() implies !sort_lt(
                field,
                sp[j],
                sp[i],
            ) by {
                assert(sp[i] == s[i] && sp[j] == s[j]);
            }
        }
        lemma_insert_sorted_sorted(field, x, sp);
        lemma_insert_sorted_elems(field, x, sp);
        let rp = insert_sorted(field, x, sp);
        let r = insert_sorted(field, x, s);
        assert(r == rp.push(s.last()));
        assert forall|i: int, j: int| 0 <= i < j < r.len() implies !sort_lt(
            field,
            r[j],
            r[i],
        ) by {
            if j < rp.len() {
                assert(r[i] == rp[i] && r[j] == rp[j]);
            } else {
                assert(r[j] == s.last());
                assert(r[i] == rp[i]);
                if rp[i] == x {
                    lemma_sort_lt_asymmetric(field, x, s.last());
                } else {
                    let m = choose|m: int| 0 <= m < sp.len() && sp[m] == rp[i];
                    assert(s[m] == rp[i]);
                    assert(!sort_lt(field, s[s.len() - 1], s[m]));
                }
            }
        }
    } else {
        let r = s.push(x);
        assert forall|i: int, j: int| 0 <= i < j < r.len() implies !sort_lt(
            field,
            r[j],
            r[i],
        ) by {
            if j < s.len() {
                assert(r[i] == s[i] && r[j] == s[j]);
            } else {
                assert(r[j] == x);
                assert(r[i] == s[i]);
                if sort_lt(field, x, s[i]) {
                    lemma_sort_lt_step(field, x, s.last(), s[i]);
                    assert(s[s.len() - 1] == s.last());
                    assert(i < s.len() - 1 ==> !sort_lt(field, s.last(), s[i]));
                    lemma_sort_lt_irreflexive(field, s.last());
                }
            }
        }
    }
}

/// Law: the sort order is total over the results — stably sorting leaves no
/// pair inverted, whatever the sort field.
pub proof fn lemma_sort_spec_sorted(field: OrderField, s: Seq<TokenAnalysis>)
    ensures
        sorted_by(field, sort_spec(field, s)),
    decreases s.len(),
{
    if s.len() > 0 {
        lemma_sort_spec_sorted(field, s.drop_last());
        lemma_insert_sorted_sorted(field, s.last(), sort_spec(field, s.drop_last()));
    }
}

/// Stable insertion adds exactly the inserted element.
proof fn lemma_insert_sorted_multiset(field: OrderField, x: TokenAnalysis, s: Seq<TokenAnalysis>)
    ensures
        insert_sorted(field, x, s).to_multiset() == s.to_multiset().insert(x),
    decreases s.len(),
{
    broadcast use vstd::seq_lib::group_to_multiset_ensures;

    if s.len() == 0 {
        assert(seq![x] =~= Seq::<TokenAnalysis>::empty().push(x));
        assert(Seq::<TokenAnalysis>::empty().push(x).to_multiset() =~= Seq::<
            TokenAnalysis,
        >::empty().to_multiset().insert(x));
    } else if sort_lt(field, x, s.last()) {
        lemma_insert_sorted_multiset(field, x, s.drop_last());
        assert(s.drop_last().push(s.last()) =~= s);
        assert(insert_sorted(field, x, s).to_multiset() =~= s.to_multiset().insert(x));
    } else {
        assert(s.push(x).to_multiset() =~= s.to_multiset().insert(x));
    }
}

/// Law: sorting permutes — the sorted results are exactly the given ones.
pub proof fn lemma_sort_spec_permutes(field: OrderField, s: Seq<TokenAnalysis>)
    ensures
        sort_spec(field, s).to_multiset() == s.to_multiset(),
    decreases s.len(),
{
    broadcast use vstd::seq_lib::group_to_multiset_ensures;

    if s.len() > 0 {
        lemma_sort_spec_permutes(field, s.drop_last());
        lemma_insert_sorted_multiset(field, s.last(), sort_spec(field, s.drop_last()));
        assert(s.drop_last().push(s.last()) =~= s);
        assert(sort_spec(field, s).to_multiset() =~= s.to_multiset());
    }
}

/// Law: sorting by `Appearance` reorders nothing.
pub proof fn lemma_sort_appearance_identity(s: Seq<TokenAnalysis>)
    ensures
        sort_spec(OrderField::Appearance, s) == s,
    decreases s.len(),
{
    if s.len() > 0 {
        lemma_sort_appearance_identity(s.drop_last());
        assert(s.drop_last().push(s.last()) =~= s);
    }
}

/// The subsequence of `s` whose status is among `statuses`, in original
/// relative order.
pub open spec fn filter_by_status(
    s: Seq<TokenAnalysis>,
    statuses: Seq<UsageLikelihoodStatus>,
) -> Seq<TokenAnalysis>
    decreases s.len(),
{
    if s.len() == 0 {
        Seq::empty()
    } else {
        let rest = filter_by_status(s.drop_last(), statuses);
        if statuses.contains(s.last().usage_likelihood.status) {
            rest.push(s.last())
        } else {
            rest
        }
    }
}

/// What filtering yields: results with a selected status, stably sorted by
/// the sort field, reversed when descending.
pub open spec fn apply_filter_spec(s: Seq<TokenAnalysis>, f: AnalysisFilter) -> Seq<
    TokenAnalysis,
> {
    let kept = filter_by_status(s, f.usage_likelihood_filter@);
    let sorted = sort_spec(f.sort_order, kept);
    if f.sort_descending {
        sorted.reverse()
    } else {
        sorted
    }
}

/// Law: with no sort field chosen and no reversal, filtering yields exactly
/// the results with a selected status, in their original relative order.
pub proof fn lemma_filter_keeps_original_order(s: Seq<TokenAnalysis>, f: AnalysisFilter)
    requires
        f.sort_order == OrderField::Appearance,
        !f.sort_descending,
    ensures
        apply_filter_spec(s, f) == filter_by_status(s, f.usage_likelihood_filter@),
{
    lemma_sort_appearance_identity(filter_by_status(s, f.usage_likelihood_filter@));
}

/// Exec rank of a status, matching `rank`.
fn status_rank(s: UsageLikelihoodStatus) -> (r: u8)
    ensures
        r as int == s.rank(),
{
    match s {
        UsageLikelihoodStatus::High => 0,
        UsageLikelihoodStatus::Medium => 1,
        UsageLikelihoodStatus::Low => 2,
    }
}

/// Exec comparison matching `sort_lt`.
fn analysis_lt(field: OrderField, a: &TokenAnalysis, b: &TokenAnalysis) -> (r: bool)
    ensures
        r == sort_lt(field, *a, *b),
{
    match field {
        OrderField::Appearance => false,
        OrderField::TokenName => str_lt(a.result.token.token.as_str(), b.result.token.token.as_str()),
        OrderField::Likelihood => {
            let ra = status_rank(a.usage_likelihood.status);
            let rb = status_rank(b.usage_likelihood.status);
            if ra < rb {
                true
            } else if ra == rb {
                str_lt(a.result.token.token.as_str(), b.result.token.token.as_str())
            } else {
                false
            }
        },
    }
}

/// Inserts one result into an already-processed prefix, stably.
fn insert_sorted_exec(field: OrderField, x: TokenAnalysis, r: &mut Vec<TokenAnalysis>)
    ensures
        final(r)@ == insert_sorted(field, x, old(r)@),
    decreases old(r)@.len(),
{
    if r.len() == 0 {
        r.push(x);
        proof {
            assert(r@ =~= seq![x]);
        }
        return ;
    }
    let n = r.len();
    if analysis_lt(field, &x, &r[n - 1]) {
        let last_opt = r.pop();
        match last_opt {
            Some(last) => {
                insert_sorted_exec(field, x, r);
                r.push(last);
            },
            None => {
                proof {
                    assert(false);
                }
            },
        }
    } else {
        r.push(x);
    }
}

/// Whether `s` is among the selected statuses.
fn contains_status(v: &Vec<UsageLikelihoodStatus>, s: UsageLikelihoodStatus) -> (r: bool)
    ensures
        r == v@.contains(s),
{
    let mut j: usize = 0;
    while j < v.len()
        invariant
            j <= v@.len(),
            forall|k: int| 0 <= k < j ==> v@[k] != s,
        decreases v@.len() - j,
    {
        if v[j] == s {
            return true;
        }
        j = j + 1;
    }
    false
}

/// Reverses a result sequence.
fn reverse_analyses(v: Vec<TokenAnalysis>) -> (r: Vec<TokenAnalysis>)
    ensures
        r@ == v@.reverse(),
{
    let ghost total = v@;
    let mut rest = v;
    let mut r: Vec<TokenAnalysis> = Vec::new();
    proof {
        assert(rest@ =~= total.subrange(0, rest@.len() as int));
        assert(r@ =~= total.subrange(total.len() as int, total.len() as int).reverse());
    }
    while rest.len() > 0
        invariant
            rest@.len() <= total.len(),
            rest@ == total.subrange(0, rest@.len() as int),
            r@ == total.subrange(rest@.len() as int, total.len() as int).reverse(),
        decreases rest@.len(),
    {
        let ghost k = rest@.len() as int;
        let x_opt = rest.pop();
        match x_opt {
            Some(x) => {
                proof {
                    assert(x == total[k - 1]);
                }
                r.push(x);
                proof {
                    assert(rest@ =~= total.subrange(0, k - 1));
                    assert(r@ =~= total.subrange(k - 1, total.len() as int).reverse());
                }
            },
            None => {
                proof {
                    assert(false);
                }
            },
        }
    }
    proof {
        assert(total.subrange(0, total.len() as int) =~= total);
        assert(r@ == total.reverse());
    }
    r
}

impl TokenUsageResults {
    /// Wraps the classified results of one run.
    pub fn new(analyses: Vec<TokenAnalysis>) -> (r: TokenUsageResults)
        ensures
            r.analyses == analyses,
    {
        TokenUsageResults { analyses }
    }

    /// Retains the results whose status is selected by the policy and orders
    /// them by its sort field and direction.
    pub fn filter(self, policy: &AnalysisFilter) -> (r: Vec<TokenAnalysis>)
        ensures
            r@ == apply_filter_spec(self.analyses@, *policy),
    {
        let ghost total = self.analyses@;
        let mut rest = self.analyses;
        let mut kept: Vec<TokenAnalysis> = Vec::new();
        let ghost statuses = policy.usage_likelihood_filter@;
        let mut j: usize = 0;
        let n = rest.len();
        proof {
            assert(total.len() == n);
            assert(kept@ =~= filter_by_status(total.subrange(0, 0), statuses));
            assert(rest@ =~= total.skip(0));
        }
        while rest.len() > 0
            invariant
                j <= total.len(),
                total.len() <= usize::MAX,
                rest@ == total.skip(j as int),
                statuses == policy.usage_likelihood_filter@,
                kept@ == filter_by_status(total.subrange(0, j as int), statuses),
            decreases rest@.len(),
        {
            let x = rest.remove(0);
            proof {
                assert(x == total[j as int]);
                let b = total.subrange(0, j + 1);
                assert(b.drop_last() =~= total.subrange(0, j as int));
                assert(b.last() == total[j as int]);
                assert(rest@ =~= total.skip(j + 1));
            }
            if contains_status(&policy.usage_likelihood_filter, x.usage_likelihood.status) {
                kept.push(x);
            }
            j = j + 1;
        }
        proof {
            assert(total.subrange(0, total.len() as int) =~= total);
            assert(j == total.len());
        }
        let sorted = sort_analyses(policy.sort_order, kept);
        if policy.sort_descending {
            reverse_analyses(sorted)
        } else {
            sorted
        }
    }
}

/// Stable insertion sort of classified results by one field.
fn sort_analyses(field: OrderField, v: Vec<TokenAnalysis>) -> (r: Vec<TokenAnalysis>)
    ensures
        r@ == sort_spec(field, v@),
{
    let ghost total = v@;
    let mut rest = v;
    let mut r: Vec<TokenAnalysis> = Vec::new();
    let mut j: usize = 0;
    let n = rest.len();
    proof {
        assert(total.len() == n);
        assert(r@ =~= sort_spec(field, total.subrange(0, 0)));
        assert(rest@ =~= total.skip(0));
    }
    while rest.len() > 0
        invariant
            j <= total.len(),
            total.len() <= usize::MAX,
            rest@ == total.skip(j as int),
            r@ == sort_spec(field, total.subrange(0, j as int)),
        decreases rest@.len(),
    {
        let x = rest.remove(0);
        proof {
            assert(x == total[j as int]);
            let b = total.subrange(0, j + 1);
            assert(b.drop_last() =~= total.subrange(0, j as int));
            assert(b.last() == total[j as int]);
            assert(rest@ =~= total.skip(j + 1));
        }
        insert_sorted_exec(field, x, &mut r);
        j = j + 1;
    }
    proof {
        assert(total.subrange(0, total.len() as int) =~= total);
    }
    r
}

} // verus!
