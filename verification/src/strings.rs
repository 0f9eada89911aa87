//! Ordering and set helpers for strings, used to keep spellings and paths in
//! a deterministic, duplicate-free order.

use vstd::prelude::*;

verus! {

/// Strict lexicographic order on character sequences, by code point.
pub open spec fn seq_char_lt(a: Seq<char>, b: Seq<char>) -> bool
    decreases a.len(),
{
    if a.len() == 0 {
        b.len() > 0
    } else if b.len() == 0 {
        false
    } else if (a[0] as u32) < (b[0] as u32) {
        true
    } else if (b[0] as u32) < (a[0] as u32) {
        false
    } else {
        seq_char_lt(a.skip(1), b.skip(1))
    }
}

/// The order is connected: distinct sequences compare one way or the other.
pub proof fn lemma_seq_char_lt_connected(a: Seq<char>, b: Seq<char>)
    ensures
        a != b ==> seq_char_lt(a, b) || seq_char_lt(b, a),
    decreases a.len(),
{
    if a.len() == 0 {
        if b.len() == 0 {
            assert(a =~= b);
        }
    } else if b.len() == 0 {
    } else if (a[0] as u32) < (b[0] as u32) {
    } else if (b[0] as u32) < (a[0] as u32) {
    } else {
        lemma_seq_char_lt_connected(a.skip(1), b.skip(1));
        if a.skip(1) == b.skip(1) {
            vstd::utf8::char_u32_cast(a[0], a[0] as u32);
            vstd::utf8::char_u32_cast(b[0], b[0] as u32);
            assert(a[0] == b[0]);
            assert(a.skip(1).len() == b.skip(1).len());
            assert(a.len() == b.len());
            assert forall|i: int| 0 <= i < a.len() implies a[i] == b[i] by {
                if i > 0 {
                    assert(a.skip(1)[i - 1] == a[i]);
                    assert(b.skip(1)[i - 1] == b[i]);
                    assert(a.skip(1)[i - 1] == b.skip(1)[i - 1]);
                }
            }
            assert(a =~= b);
        }
    }
}

/// The order is irreflexive.
pub proof fn lemma_seq_char_lt_irreflexive(a: Seq<char>)
    ensures
        !seq_char_lt(a, a),
    decreases a.len(),
{
    if a.len() > 0 {
        lemma_seq_char_lt_irreflexive(a.skip(1));
    }
}

/// The order is transitive.
pub proof fn lemma_seq_char_lt_transitive(a: Seq<char>, b: Seq<char>, c: Seq<char>)
    requires
        seq_char_lt(a, b),
        seq_char_lt(b, c),
    ensures
        seq_char_lt(a, c),
    decreases a.len(),
{
    if a.len() == 0 {
        assert(b.len() > 0);
        assert(c.len() > 0);
    } else {
        assert(b.len() > 0);
        assert(c.len() > 0);
        if (a[0] as u32) < (b[0] as u32) {
            if (b[0] as u32) < (c[0] as u32) {
            } else {
                assert(b[0] as u32 == c[0] as u32);
            }
        } else {
            assert(a[0] as u32 == b[0] as u32);
            if (b[0] as u32) < (c[0] as u32) {
            } else {
                assert(b[0] as u32 == c[0] as u32);
                lemma_seq_char_lt_transitive(a.skip(1), b.skip(1), c.skip(1));
            }
        }
    }
}

/// Compares two strings in the lexicographic order on their characters.
pub fn str_lt(a: &str, b: &str) -> (r: bool)
    ensures
        r == seq_char_lt(a@, b@),
{
    let a_len = a.unicode_len();
    let b_len = b.unicode_len();
    let mut i: usize = 0;
    proof {
        assert(a@.skip(0) =~= a@);
        assert(b@.skip(0) =~= b@);
    }
    loop
        invariant
            i <= a_len,
            i <= b_len,
            a_len == a@.len(),
            b_len == b@.len(),
            seq_char_lt(a@, b@) == seq_char_lt(a@.skip(i as int), b@.skip(i as int)),
        decreases a_len - i,
    {
        if i >= a_len {
            return i < b_len;
        }
        if i >= b_len {
            return false;
        }
        let ca = a.get_char(i);
        let cb = b.get_char(i);
        if (ca as u32) < (cb as u32) {
            return true;
        }
        if (cb as u32) < (ca as u32) {
            return false;
        }
        proof {
            assert(a@.skip(i as int).skip(1) =~= a@.skip(i + 1));
            assert(b@.skip(i as int).skip(1) =~= b@.skip(i + 1));
        }
        i = i + 1;
    }
}

/// A sequence of character sequences that is strictly increasing.
pub open spec fn sorted_strict_views(v: Seq<Seq<char>>) -> bool {
    forall|i: int, j: int| 0 <= i < j < v.len() ==> seq_char_lt(v[i], v[j])
}

/// Two strictly increasing sequences holding the same elements are equal.
pub proof fn lemma_sorted_strict_unique(a: Seq<Seq<char>>, b: Seq<Seq<char>>)
    requires
        sorted_strict_views(a),
        sorted_strict_views(b),
        forall|x: Seq<char>| a.contains(x) <==> b.contains(x),
    ensures
        a == b,
    decreases a.len(),
{
    if a.len() == 0 {
        if b.len() > 0 {
            assert(b.contains(b[0]));
            assert(a.contains(b[0]));
        }
        assert(a =~= b);
    } else {
        assert(a.contains(a[0]));
        assert(b.contains(a[0]));
        assert(b.len() > 0);
        let k = choose|k: int| 0 <= k < b.len() && b[k] == a[0];
        assert(b.contains(b[0]));
        assert(a.contains(b[0]));
        let m = choose|m: int| 0 <= m < a.len() && a[m] == b[0];
        if k > 0 && m > 0 {
            assert(seq_char_lt(b[0], b[k]));
            assert(seq_char_lt(a[0], a[m]));
            lemma_seq_char_lt_transitive(a[0], b[0], a[0]);
            lemma_seq_char_lt_irreflexive(a[0]);
        }
        assert(a[0] == b[0]);
        let at = a.skip(1);
        let bt = b.skip(1);
        assert(sorted_strict_views(at)) by {
            assert forall|i: int, j: int| 0 <= i < j < at.len() implies seq_char_lt(
                at[i],
                at[j],
            ) by {
                assert(at[i] == a[i + 1] && at[j] == a[j + 1]);
            }
        }
        assert(sorted_strict_views(bt)) by {
            assert forall|i: int, j: int| 0 <= i < j < bt.len() implies seq_char_lt(
                bt[i],
                bt[j],
            ) by {
                assert(bt[i] == b[i + 1] && bt[j] == b[j + 1]);
            }
        }
        assert forall|x: Seq<char>| at.contains(x) implies bt.contains(x) by {
            let i = choose|i: int| 0 <= i < at.len() && at[i] == x;
            assert(a[i + 1] == x);
            assert(a.contains(x));
            assert(b.contains(x));
            let k2 = choose|k2: int| 0 <= k2 < b.len() && b[k2] == x;
            assert(seq_char_lt(a[0], x));
            if k2 == 0 {
                lemma_seq_char_lt_irreflexive(a[0]);
            }
            assert(bt[k2 - 1] == x);
            assert(bt.contains(x));
        }
        assert forall|x: Seq<char>| bt.contains(x) implies at.contains(x) by {
            let i = choose|i: int| 0 <= i < bt.len() && bt[i] == x;
            assert(b[i + 1] == x);
            assert(b.contains(x));
            assert(a.contains(x));
            let k2 = choose|k2: int| 0 <= k2 < a.len() && a[k2] == x;
            assert(seq_char_lt(b[0], x));
            if k2 == 0 {
                lemma_seq_char_lt_irreflexive(b[0]);
            }
            assert(at[k2 - 1] == x);
            assert(at.contains(x));
        }
        lemma_sorted_strict_unique(at, bt);
        assert forall|i: int| 0 <= i < a.len() implies a[i] == b[i] by {
            if i > 0 {
                assert(at[i - 1] == bt[i - 1]);
            }
        }
        assert(a =~= b);
    }
}

/// A sequence of strings whose character views are strictly increasing.
pub open spec fn sorted_strict(v: Seq<String>) -> bool {
    forall|i: int, j: int| 0 <= i < j < v.len() ==> seq_char_lt(v[i]@, v[j]@)
}

/// The set of character views held by a sequence of strings.
pub open spec fn view_set(v: Seq<String>) -> Set<Seq<char>> {
    Set::new(|x: Seq<char>| exists|i: int| 0 <= i < v.len() && v[i]@ == x)
}

/// Inserts `s` into a strictly sorted vector, keeping it sorted and free of
/// duplicates; the set of held views gains exactly `s`.
pub fn insert_unique_sorted(v: &mut Vec<String>, s: String)
    requires
        sorted_strict(old(v)@),
    ensures
        sorted_strict(final(v)@),
        view_set(final(v)@) == view_set(old(v)@).insert(s@),
{
    let ghost pre = v@;
    let mut k: usize = 0;
    loop
        invariant
            v@ == pre,
            sorted_strict(v@),
            k <= v@.len(),
            forall|i: int| 0 <= i < k ==> seq_char_lt(v@[i]@, s@),
        ensures
            v@ == pre,
            k <= v@.len(),
            forall|i: int| 0 <= i < k ==> seq_char_lt(v@[i]@, s@),
            k < v@.len() ==> !seq_char_lt(v@[k as int]@, s@),
        decreases v@.len() - k,
    {
        if k >= v.len() {
            break;
        }
        if str_lt(v[k].as_str(), s.as_str()) {
            k = k + 1;
        } else {
            break;
        }
    }
    let mut already_present = false;
    if k < v.len() {
        if v[k].eq(&s) {
            already_present = true;
        }
    }
    if already_present {
        proof {
            assert(view_set(v@).contains(s@)) by {
                assert(v@[k as int]@ == s@);
            }
            assert(view_set(v@) =~= view_set(pre).insert(s@));
        }
        return;
    }
    proof {
        if k < v@.len() {
            lemma_seq_char_lt_connected(v@[k as int]@, s@);
            assert(seq_char_lt(s@, v@[k as int]@));
        }
    }
    v.insert(k, s);
    proof {
        assert(v@ == pre.insert(k as int, s));
        assert forall|i: int, j: int| 0 <= i < j < v@.len() implies seq_char_lt(
            v@[i]@,
            v@[j]@,
        ) by {
            if j < k {
                assert(v@[i]@ == pre[i]@ && v@[j]@ == pre[j]@);
            } else if j == k {
                assert(v@[i]@ == pre[i]@);
            } else if i < k {
                assert(v@[i]@ == pre[i]@ && v@[j]@ == pre[j - 1]@);
            } else if i == k {
                assert(v@[j]@ == pre[j - 1]@);
                if j - 1 > k {
                    lemma_seq_char_lt_transitive(s@, pre[k as int]@, pre[j - 1]@);
                }
            } else {
                assert(v@[i]@ == pre[i - 1]@ && v@[j]@ == pre[j - 1]@);
            }
        }
        assert(view_set(v@) =~= view_set(pre).insert(s@)) by {
            assert forall|x: Seq<char>| view_set(v@).contains(x) implies view_set(pre).insert(
                s@,
            ).contains(x) by {
                let i = choose|i: int| 0 <= i < v@.len() && v@[i]@ == x;
                if i < k {
                    assert(pre[i]@ == x);
                } else if i > k {
                    assert(pre[i - 1]@ == x);
                }
            }
            assert forall|x: Seq<char>| view_set(pre).insert(s@).contains(x) implies view_set(
                v@,
            ).contains(x) by {
                if x == s@ {
                    assert(v@[k as int]@ == x);
                } else {
                    let i = choose|i: int| 0 <= i < pre.len() && pre[i]@ == x;
                    if i < k {
                        assert(v@[i]@ == x);
                    } else {
                        assert(v@[i + 1]@ == x);
                    }
                }
            }
        }
    }
}

} // verus!
