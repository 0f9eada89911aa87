//! Logical tokens: tag entries grouped by canonical spelling.

use vstd::prelude::*;

use crate::strings::{
    insert_unique_sorted, lemma_sorted_strict_unique, seq_char_lt, sorted_strict,
    sorted_strict_views, view_set,
};
use crate::tags::{models, CtagItem, CtagItemView, Language};

verus! {

/// Canonical spelling of a raw name: the leading run of `#` and `.` markers
/// (used by some tag generators for instance-scoped members) is removed.
pub open spec fn canonical_spelling(s: Seq<char>) -> Seq<char>
    decreases s.len(),
{
    if s.len() > 0 && (s[0] == '#' || s[0] == '.') {
        canonical_spelling(s.skip(1))
    } else {
        s
    }
}

/// Law: canonicalizing is idempotent — canonicalizing an already-canonical
/// spelling leaves it unchanged, for every string including the empty one.
pub proof fn lemma_canonical_spelling_idempotent(s: Seq<char>)
    ensures
        canonical_spelling(canonical_spelling(s)) == canonical_spelling(s),
    decreases s.len(),
{
    if s.len() > 0 && (s[0] == '#' || s[0] == '.') {
        lemma_canonical_spelling_idempotent(s.skip(1));
    }
}

/// Canonicalizes the raw name of one tag entry.
pub fn strip_prepended_punctuation(input: &str) -> (r: String)
    ensures
        r@ == canonical_spelling(input@),
{
    let len = input.unicode_len();
    let mut i: usize = 0;
    proof {
        assert(input@.skip(0) =~= input@);
    }
    loop
        invariant
            i <= len,
            len == input@.len(),
            canonical_spelling(input@) == canonical_spelling(input@.skip(i as int)),
        ensures
            i <= len,
            len == input@.len(),
            canonical_spelling(input@) == canonical_spelling(input@.skip(i as int)),
            i == len || (input@[i as int] != '#' && input@[i as int] != '.'),
        decreases len - i,
    {
        if i >= len {
            break;
        }
        let c = input.get_char(i);
        if c == '#' || c == '.' {
            proof {
                assert(input@.skip(i as int)[0] == input@[i as int]);
                assert(input@.skip(i as int).skip(1) =~= input@.skip(i + 1));
            }
            i = i + 1;
        } else {
            break;
        }
    }
    proof {
        if i < len {
            assert(input@.skip(i as int)[0] == input@[i as int]);
        }
        assert(canonical_spelling(input@.skip(i as int)) == input@.skip(i as int));
    }
    let sub = input.substring_char(i, len);
    let r = sub.to_owned();
    proof {
        assert(input@.subrange(i as int, len as int) =~= input@.skip(i as int));
    }
    r
}

/// The set of canonical spellings occurring among the given entries.
pub open spec fn spelling_set(entries: Seq<CtagItemView>) -> Set<Seq<char>> {
    Set::new(
        |x: Seq<char>|
            exists|j: int| 0 <= j < entries.len() && canonical_spelling(entries[j].name) == x,
    )
}

/// The subsequence of entries whose canonical spelling is `spelling`, in
/// their original relative order.
pub open spec fn defs_with_spelling(entries: Seq<CtagItemView>, spelling: Seq<char>) -> Seq<
    CtagItemView,
>
    decreases entries.len(),
{
    if entries.len() == 0 {
        Seq::empty()
    } else {
        let rest = defs_with_spelling(entries.drop_last(), spelling);
        if canonical_spelling(entries.last().name) == spelling {
            rest.push(entries.last())
        } else {
            rest
        }
    }
}

/// Every entry selected by `defs_with_spelling` canonicalizes to `spelling`.
pub proof fn lemma_defs_with_spelling_match(entries: Seq<CtagItemView>, spelling: Seq<char>)
    ensures
        forall|i: int|
            0 <= i < defs_with_spelling(entries, spelling).len() ==> canonical_spelling(
                defs_with_spelling(entries, spelling)[i].name,
            ) == spelling,
    decreases entries.len(),
{
    if entries.len() > 0 {
        lemma_defs_with_spelling_match(entries.drop_last(), spelling);
    }
}

/// A spelling that occurs among the entries selects at least one of them.
pub proof fn lemma_defs_with_spelling_nonempty(entries: Seq<CtagItemView>, spelling: Seq<char>)
    requires
        spelling_set(entries).contains(spelling),
    ensures
        defs_with_spelling(entries, spelling).len() > 0,
    decreases entries.len(),
{
    let j = choose|j: int|
        0 <= j < entries.len() && canonical_spelling(entries[j].name) == spelling;
    if j < entries.len() - 1 {
        assert(entries.drop_last()[j] == entries[j]);
        assert(spelling_set(entries.drop_last()).contains(spelling));
        lemma_defs_with_spelling_nonempty(entries.drop_last(), spelling);
    }
}

/// A spelling that selects an entry occurs among the entries.
pub proof fn lemma_defs_with_spelling_occurs(entries: Seq<CtagItemView>, spelling: Seq<char>)
    requires
        defs_with_spelling(entries, spelling).len() > 0,
    ensures
        spelling_set(entries).contains(spelling),
    decreases entries.len(),
{
    if entries.len() > 0 {
        if canonical_spelling(entries.last().name) == spelling {
            assert(canonical_spelling(entries[entries.len() - 1].name) == spelling);
        } else {
            lemma_defs_with_spelling_occurs(entries.drop_last(), spelling);
            let j = choose|j: int|
                0 <= j < entries.drop_last().len() && canonical_spelling(
                    entries.drop_last()[j].name,
                ) == spelling;
            assert(canonical_spelling(entries[j].name) == spelling);
        }
    }
}

/// One logical token: a canonical spelling together with every definition
/// entry whose raw name canonicalizes to it.
pub struct Token {
    pub token: String,
    pub definitions: Vec<CtagItem>,
}

impl Token {
    /// Token invariant: at least one definition, and every definition's raw
    /// name canonicalizes to the token's spelling.
    pub open spec fn wf(self) -> bool {
        &&& self.definitions@.len() > 0
        &&& forall|i: int|
            0 <= i < self.definitions@.len() ==> canonical_spelling(self.definitions@[i].name@)
                == self.token@
    }
}

/// `tokens` is the grouping of `entries`: one well-formed token per distinct
/// canonical spelling, spellings strictly increasing, and each token's
/// definitions are exactly the entries with that spelling, in input order.
pub open spec fn is_grouping_of(tokens: Seq<Token>, entries: Seq<CtagItemView>) -> bool {
    &&& forall|i: int, j: int|
        0 <= i < j < tokens.len() ==> seq_char_lt(tokens[i].token@, tokens[j].token@)
    &&& forall|i: int|
        0 <= i < tokens.len() ==> models(#[trigger] tokens[i].definitions@) == defs_with_spelling(
            entries,
            tokens[i].token@,
        )
    &&& forall|i: int| 0 <= i < tokens.len() ==> (#[trigger] tokens[i]).wf()
    &&& forall|j: int|
        0 <= j < entries.len() ==> exists|i: int|
            0 <= i < tokens.len() && tokens[i].token@ == canonical_spelling(
                #[trigger] entries[j].name,
            )
}

/// The set of file paths among the given entries.
pub open spec fn path_set(entries: Seq<CtagItemView>) -> Set<Seq<char>> {
    Set::new(|x: Seq<char>| exists|j: int| 0 <= j < entries.len() && entries[j].file_path == x)
}

/// The languages of the given entries, in order, entries without one skipped.
pub open spec fn languages_of(entries: Seq<CtagItemView>) -> Seq<Language>
    decreases entries.len(),
{
    if entries.len() == 0 {
        Seq::empty()
    } else {
        let rest = languages_of(entries.drop_last());
        match entries.last().language {
            Some(l) => rest.push(l),
            None => rest,
        }
    }
}

/// Adding one entry adds exactly its file path to the path set.
proof fn lemma_path_set_snoc(entries: Seq<CtagItemView>, j: int)
    requires
        0 <= j < entries.len(),
    ensures
        path_set(entries.subrange(0, j + 1)) == path_set(entries.subrange(0, j)).insert(
            entries[j].file_path,
        ),
{
    let a = entries.subrange(0, j);
    let b = entries.subrange(0, j + 1);
    let c = entries[j].file_path;
    assert(path_set(b) =~= path_set(a).insert(c)) by {
        assert forall|x: Seq<char>| path_set(b).contains(x) implies path_set(a).insert(c).contains(
            x,
        ) by {
            let k = choose|k: int| 0 <= k < b.len() && b[k].file_path == x;
            if k < j {
                assert(a[k] == b[k]);
                assert(path_set(a).contains(x));
            } else {
                assert(b[k] == entries[j]);
            }
        }
        assert forall|x: Seq<char>| path_set(a).insert(c).contains(x) implies path_set(b).contains(
            x,
        ) by {
            if x == c {
                assert(b[j] == entries[j]);
                assert(b[j].file_path == x);
            } else {
                let k = choose|k: int| 0 <= k < a.len() && a[k].file_path == x;
                assert(b[k] == a[k]);
                assert(b[k].file_path == x);
            }
        }
    }
}

/// Law: grouping is order-independent — two token lists grouping entry
/// sequences that hold the same entries per spelling, in the same relative
/// order, agree on length, spellings, and definitions. Reordering the input
/// changes nothing but the relative order of entries that share a spelling.
pub proof fn lemma_grouping_order_independent(
    t1: Seq<Token>,
    e1: Seq<CtagItemView>,
    t2: Seq<Token>,
    e2: Seq<CtagItemView>,
)
    requires
        is_grouping_of(t1, e1),
        is_grouping_of(t2, e2),
        forall|sp: Seq<char>| #[trigger] defs_with_spelling(e1, sp) == defs_with_spelling(e2, sp),
    ensures
        t1.len() == t2.len(),
        forall|i: int| 0 <= i < t1.len() ==> (#[trigger] t1[i].token)@ == t2[i].token@,
        forall|i: int|
            0 <= i < t1.len() ==> models(#[trigger] t1[i].definitions@) == models(
                t2[i].definitions@,
            ),
{
    let s1 = Seq::new(t1.len(), |i: int| t1[i].token@);
    let s2 = Seq::new(t2.len(), |i: int| t2[i].token@);
    assert(sorted_strict_views(s1));
    assert(sorted_strict_views(s2));
    assert forall|x: Seq<char>| s1.contains(x) implies s2.contains(x) by {
        lemma_grouping_spelling_covered(t1, e1, t2, e2, x);
    }
    assert forall|x: Seq<char>| s2.contains(x) implies s1.contains(x) by {
        lemma_grouping_spelling_covered(t2, e2, t1, e1, x);
    }
    lemma_sorted_strict_unique(s1, s2);
    assert forall|i: int| 0 <= i < t1.len() implies (#[trigger] t1[i].token)@
        == t2[i].token@ by {
        assert(s1[i] == s2[i]);
    }
    assert forall|i: int| 0 <= i < t1.len() implies models(#[trigger] t1[i].definitions@)
        == models(t2[i].definitions@) by {
        assert(defs_with_spelling(e1, t1[i].token@) == defs_with_spelling(e2, t2[i].token@));
    }
}

/// Law: grouping is deterministic — any two token lists that group the same
/// entries agree on length, spellings, and definitions.
pub proof fn lemma_grouping_deterministic(t1: Seq<Token>, t2: Seq<Token>, entries: Seq<
    CtagItemView,
>)
    requires
        is_grouping_of(t1, entries),
        is_grouping_of(t2, entries),
    ensures
        t1.len() == t2.len(),
        forall|i: int| 0 <= i < t1.len() ==> (#[trigger] t1[i].token)@ == t2[i].token@,
        forall|i: int|
            0 <= i < t1.len() ==> models(#[trigger] t1[i].definitions@) == models(
                t2[i].definitions@,
            ),
{
    lemma_grouping_order_independent(t1, entries, t2, entries);
}

/// A spelling held by a grouping of `e1` is held by any grouping of an entry
/// sequence with the same entries per spelling.
proof fn lemma_grouping_spelling_covered(
    t1: Seq<Token>,
    e1: Seq<CtagItemView>,
    t2: Seq<Token>,
    e2: Seq<CtagItemView>,
    x: Seq<char>,
)
    requires
        is_grouping_of(t1, e1),
        is_grouping_of(t2, e2),
        forall|sp: Seq<char>| #[trigger] defs_with_spelling(e1, sp) == defs_with_spelling(e2, sp),
        Seq::new(t1.len(), |i: int| t1[i].token@).contains(x),
    ensures
        Seq::new(t2.len(), |i: int| t2[i].token@).contains(x),
{
    let s1 = Seq::new(t1.len(), |i: int| t1[i].token@);
    let s2 = Seq::new(t2.len(), |i: int| t2[i].token@);
    let i = choose|i: int| 0 <= i < s1.len() && s1[i] == x;
    assert(t1[i].token@ == x);
    assert(models(t1[i].definitions@) == defs_with_spelling(e1, x));
    assert(t1[i].definitions@.len() > 0);
    assert(models(t1[i].definitions@).len() > 0);
    assert(defs_with_spelling(e2, x).len() > 0);
    lemma_defs_with_spelling_occurs(e2, x);
    let j = choose|j: int| 0 <= j < e2.len() && canonical_spelling(e2[j].name) == x;
    let i2 = choose|i2: int|
        0 <= i2 < t2.len() && t2[i2].token@ == canonical_spelling(e2[j].name);
    assert(s2[i2] == x);
    assert(s2.contains(x));
}

/// Adding one entry adds exactly its canonical spelling to the spelling set.
proof fn lemma_spelling_set_snoc(entries: Seq<CtagItemView>, j: int)
    requires
        0 <= j < entries.len(),
    ensures
        spelling_set(entries.subrange(0, j + 1)) == spelling_set(entries.subrange(0, j)).insert(
            canonical_spelling(entries[j].name),
        ),
{
    let a = entries.subrange(0, j);
    let b = entries.subrange(0, j + 1);
    let c = canonical_spelling(entries[j].name);
    assert(spelling_set(b) =~= spelling_set(a).insert(c)) by {
        assert forall|x: Seq<char>| spelling_set(b).contains(x) implies spelling_set(a).insert(
            c,
        ).contains(x) by {
            let k = choose|k: int| 0 <= k < b.len() && canonical_spelling(b[k].name) == x;
            if k < j {
                assert(a[k] == b[k]);
                assert(spelling_set(a).contains(x));
            } else {
                assert(b[k] == entries[j]);
            }
        }
        assert forall|x: Seq<char>| spelling_set(a).insert(c).contains(x) implies spelling_set(
            b,
        ).contains(x) by {
            if x == c {
                assert(b[j] == entries[j]);
                assert(canonical_spelling(b[j].name) == x);
            } else {
                let k = choose|k: int| 0 <= k < a.len() && canonical_spelling(a[k].name) == x;
                assert(b[k] == a[k]);
                assert(canonical_spelling(b[k].name) == x);
            }
        }
    }
}

/// Collects, in input order, the entries whose canonical spelling is
/// `spelling`.
fn collect_defs(outcome: &Vec<CtagItem>, spelling: &String) -> (r: Vec<CtagItem>)
    ensures
        models(r@) == defs_with_spelling(models(outcome@), spelling@),
{
    let ghost m = models(outcome@);
    let mut r: Vec<CtagItem> = Vec::new();
    let mut j: usize = 0;
    proof {
        assert(models(r@) =~= defs_with_spelling(m.subrange(0, 0), spelling@));
    }
    while j < outcome.len()
        invariant
            j <= outcome@.len(),
            m == models(outcome@),
            models(r@) == defs_with_spelling(m.subrange(0, j as int), spelling@),
        decreases outcome@.len() - j,
    {
        let stripped = strip_prepended_punctuation(outcome[j].name.as_str());
        let ghost pre = r@;
        if stripped.eq(spelling) {
            r.push(outcome[j].clone());
        }
        proof {
            let b = m.subrange(0, j + 1);
            assert(b.drop_last() =~= m.subrange(0, j as int));
            assert(b.last() == m[j as int]);
            assert(m[j as int].name == outcome@[j as int].name@);
            if stripped@ == spelling@ {
                assert(models(r@) =~= models(pre).push(outcome@[j as int]@));
            } else {
                assert(models(r@) =~= models(pre));
            }
        }
        j = j + 1;
    }
    proof {
        assert(m.subrange(0, outcome@.len() as int) =~= m);
    }
    r
}

impl Token {
    /// Groups raw entries into tokens: one token per distinct canonical
    /// spelling, spellings in increasing order, each token holding exactly
    /// the entries with its spelling in their original relative order.
    pub fn build_tokens_from_outcome(outcome: Vec<CtagItem>) -> (r: Vec<Token>)
        ensures
            is_grouping_of(r@, models(outcome@)),
    {
        let ghost m = models(outcome@);
        let mut spellings: Vec<String> = Vec::new();
        let mut j: usize = 0;
        proof {
            assert(view_set(spellings@) =~= spelling_set(m.subrange(0, 0)));
        }
        while j < outcome.len()
            invariant
                j <= outcome@.len(),
                m == models(outcome@),
                sorted_strict(spellings@),
                view_set(spellings@) == spelling_set(m.subrange(0, j as int)),
            decreases outcome@.len() - j,
        {
            let s = strip_prepended_punctuation(outcome[j].name.as_str());
            proof {
                assert(m[j as int].name == outcome@[j as int].name@);
                lemma_spelling_set_snoc(m, j as int);
            }
            insert_unique_sorted(&mut spellings, s);
            j = j + 1;
        }
        proof {
            assert(m.subrange(0, outcome@.len() as int) =~= m);
        }
        let mut r: Vec<Token> = Vec::new();
        let mut i: usize = 0;
        while i < spellings.len()
            invariant
                i <= spellings@.len(),
                r@.len() == i,
                m == models(outcome@),
                sorted_strict(spellings@),
                view_set(spellings@) == spelling_set(m),
                forall|a: int| 0 <= a < i ==> (#[trigger] r@[a].token)@ == spellings@[a]@,
                forall|a: int|
                    0 <= a < i ==> models(#[trigger] r@[a].definitions@) == defs_with_spelling(
                        m,
                        spellings@[a]@,
                    ),
                forall|a: int| 0 <= a < i ==> (#[trigger] r@[a]).definitions@.len() > 0,
            decreases spellings@.len() - i,
        {
            let sp = spellings[i].clone();
            let defs = collect_defs(&outcome, &sp);
            proof {
                assert(view_set(spellings@).contains(spellings@[i as int]@));
                assert(spelling_set(m).contains(sp@));
                lemma_defs_with_spelling_nonempty(m, sp@);
                assert(models(defs@).len() == defs@.len());
            }
            r.push(Token { token: sp, definitions: defs });
            i = i + 1;
        }
        proof {
            assert forall|a: int| 0 <= a < r@.len() implies (#[trigger] r@[a]).wf() by {
                lemma_defs_with_spelling_match(m, r@[a].token@);
                assert forall|k: int| 0 <= k < r@[a].definitions@.len() implies canonical_spelling(
                    r@[a].definitions@[k].name@,
                ) == r@[a].token@ by {
                    assert(models(r@[a].definitions@)[k] == r@[a].definitions@[k]@);
                }
            }
            assert forall|j2: int| 0 <= j2 < m.len() implies exists|i2: int|
                0 <= i2 < r@.len() && r@[i2].token@ == canonical_spelling(
                    #[trigger] m[j2].name,
                ) by {
                let c = canonical_spelling(m[j2].name);
                assert(spelling_set(m).contains(c));
                assert(view_set(spellings@).contains(c));
                let k = choose|k: int| 0 <= k < spellings@.len() && spellings@[k]@ == c;
                assert(r@[k].token@ == c);
            }
        }
        r
    }

    /// The deduplicated set of this token's definition file paths, in
    /// increasing lexicographic order.
    pub fn defined_paths(&self) -> (r: Vec<String>)
        ensures
            sorted_strict(r@),
            view_set(r@) == path_set(models(self.definitions@)),
    {
        let ghost m = models(self.definitions@);
        let mut r: Vec<String> = Vec::new();
        let mut j: usize = 0;
        proof {
            assert(view_set(r@) =~= path_set(m.subrange(0, 0)));
        }
        while j < self.definitions.len()
            invariant
                j <= self.definitions@.len(),
                m == models(self.definitions@),
                sorted_strict(r@),
                view_set(r@) == path_set(m.subrange(0, j as int)),
            decreases self.definitions@.len() - j,
        {
            let p = self.definitions[j].file_path.clone();
            proof {
                assert(m[j as int].file_path == self.definitions@[j as int].file_path@);
                lemma_path_set_snoc(m, j as int);
            }
            insert_unique_sorted(&mut r, p);
            j = j + 1;
        }
        proof {
            assert(m.subrange(0, self.definitions@.len() as int) =~= m);
        }
        r
    }

    /// The lexicographically smallest definition path: a deterministic
    /// representative of `defined_paths`.
    pub fn first_path(&self) -> (r: String)
        requires
            self.definitions@.len() > 0,
        ensures
            path_set(models(self.definitions@)).contains(r@),
            forall|x: Seq<char>|
                path_set(models(self.definitions@)).contains(x) ==> x == r@ || seq_char_lt(r@, x),
    {
        let ghost m = models(self.definitions@);
        let paths = self.defined_paths();
        proof {
            assert(m[0].file_path == self.definitions@[0].file_path@);
            assert(path_set(m).contains(m[0].file_path));
            assert(view_set(paths@).contains(m[0].file_path));
            let k = choose|k: int| 0 <= k < paths@.len() && paths@[k]@ == m[0].file_path;
        }
        let r = paths[0].clone();
        proof {
            assert(view_set(paths@).contains(r@)) by {
                assert(paths@[0]@ == r@);
            }
            assert forall|x: Seq<char>| path_set(m).contains(x) implies x == r@ || seq_char_lt(
                r@,
                x,
            ) by {
                assert(view_set(paths@).contains(x));
                let k = choose|k: int| 0 <= k < paths@.len() && paths@[k]@ == x;
                if k > 0 {
                    assert(seq_char_lt(paths@[0]@, paths@[k]@));
                }
            }
        }
        r
    }

    /// The languages of this token's definitions, in definition order;
    /// entries without a language are skipped.
    pub fn languages(&self) -> (r: Vec<Language>)
        ensures
            r@ == languages_of(models(self.definitions@)),
    {
        let ghost m = models(self.definitions@);
        let mut r: Vec<Language> = Vec::new();
        let mut j: usize = 0;
        proof {
            assert(r@ =~= languages_of(m.subrange(0, 0)));
        }
        while j < self.definitions.len()
            invariant
                j <= self.definitions@.len(),
                m == models(self.definitions@),
                r@ == languages_of(m.subrange(0, j as int)),
            decreases self.definitions@.len() - j,
        {
            proof {
                let b = m.subrange(0, j + 1);
                assert(b.drop_last() =~= m.subrange(0, j as int));
                assert(b.last() == m[j as int]);
                assert(m[j as int].language == self.definitions@[j as int].language);
            }
            match self.definitions[j].language {
                Some(l) => r.push(l),
                None => (),
            }
            j = j + 1;
        }
        proof {
            assert(m.subrange(0, self.definitions@.len() as int) =~= m);
        }
        r
    }

    /// Whether every definition of this token satisfies `check`.
    pub fn only_ctag<F: Fn(&CtagItem) -> bool>(&self, check: F) -> (r: bool)
        requires
            forall|i: int|
                0 <= i < self.definitions@.len() ==> call_requires(
                    check,
                    (&self.definitions@[i],),
                ),
        ensures
            r ==> forall|i: int|
                0 <= i < self.definitions@.len() ==> call_ensures(
                    check,
                    (&self.definitions@[i],),
                    true,
                ),
            !r ==> exists|i: int|
                0 <= i < self.definitions@.len() && call_ensures(
                    check,
                    (&self.definitions@[i],),
                    false,
                ),
    {
        let mut j: usize = 0;
        while j < self.definitions.len()
            invariant
                j <= self.definitions@.len(),
                forall|i: int|
                    0 <= i < self.definitions@.len() ==> call_requires(
                        check,
                        (&self.definitions@[i],),
                    ),
                forall|i: int|
                    0 <= i < j ==> call_ensures(check, (&self.definitions@[i],), true),
            decreases self.definitions@.len() - j,
        {
            if !check(&self.definitions[j]) {
                return false;
            }
            j = j + 1;
        }
        true
    }

    /// Builds the full token list from a tag-source read outcome. A failed
    /// read or parse carries no entries and yields no tokens rather than an
    /// error.
    pub fn all(outcome: Option<Vec<CtagItem>>) -> (r: Vec<Token>)
        ensures
            match outcome {
                Some(entries) => is_grouping_of(r@, models(entries@)),
                None => r@.len() == 0,
            },
    {
        match outcome {
            Some(entries) => Self::build_tokens_from_outcome(entries),
            None => Vec::new(),
        }
    }
}

} // verus!
