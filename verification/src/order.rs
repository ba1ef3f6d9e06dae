//! Lexicographic order on node names, and sorting a list of names.

use vstd::prelude::*;
use vstd::pervasive::VecAdditionalExecFns;

verus! {

/// Lexicographic order on character sequences, by Unicode scalar value.
/// This is the order in which `str` sorts.
pub open spec fn lex_le(a: Seq<char>, b: Seq<char>) -> bool
    decreases a.len(),
{
    if a.len() == 0 {
        true
    } else if b.len() == 0 {
        false
    } else if (a[0] as u32) < (b[0] as u32) {
        true
    } else if (a[0] as u32) > (b[0] as u32) {
        false
    } else {
        lex_le(a.skip(1), b.skip(1))
    }
}


pub proof fn lemma_lex_le_refl(a: Seq<char>)
    ensures
        lex_le(a, a),
    decreases a.len(),
{
    if a.len() > 0 {
        lemma_lex_le_refl(a.skip(1));
    }
}

pub proof fn lemma_lex_le_total(a: Seq<char>, b: Seq<char>)
    ensures
        lex_le(a, b) || lex_le(b, a),
    decreases a.len(),
{
    if a.len() > 0 && b.len() > 0 && (a[0] as u32) == (b[0] as u32) {
        lemma_lex_le_total(a.skip(1), b.skip(1));
    }
}

pub proof fn lemma_lex_le_antisym(a: Seq<char>, b: Seq<char>)
    requires
        lex_le(a, b),
        lex_le(b, a),
    ensures
        a =~= b,
    decreases a.len(),
{
    if a.len() > 0 && b.len() > 0 {
        assert((a[0] as u32) == (b[0] as u32));
        assert(a[0] == b[0]) by {
            vstd::utf8::char_u32_cast(a[0], a[0] as u32);
            vstd::utf8::char_u32_cast(b[0], b[0] as u32);
        }
        lemma_lex_le_antisym(a.skip(1), b.skip(1));
        assert(a =~= seq![a[0]] + a.skip(1));
        assert(b =~= seq![b[0]] + b.skip(1));
    }
}

pub proof fn lemma_lex_le_trans(a: Seq<char>, b: Seq<char>, c: Seq<char>)
    requires
        lex_le(a, b),
        lex_le(b, c),
    ensures
        lex_le(a, c),
    decreases a.len(),
{
    if a.len() > 0 && b.len() > 0 && c.len() > 0 {
        if (a[0] as u32) == (b[0] as u32) && (b[0] as u32) == (c[0] as u32) {
            lemma_lex_le_trans(a.skip(1), b.skip(1), c.skip(1));
        }
    }
}

/// Two sequences that agree on their first `i` characters compare the same
/// way as their tails from `i` on.
proof fn lemma_lex_le_common_prefix(a: Seq<char>, b: Seq<char>, i: int)
    requires
        0 <= i <= a.len(),
        0 <= i <= b.len(),
        forall|k: int| 0 <= k < i ==> a[k] == b[k],
    ensures
        lex_le(a, b) == lex_le(a.skip(i), b.skip(i)),
    decreases i,
{
    if i == 0 {
        assert(a.skip(0) =~= a);
        assert(b.skip(0) =~= b);
    } else {
        assert(a.len() > 0 && b.len() > 0 && a[0] == b[0]);
        lemma_lex_le_common_prefix(a.skip(1), b.skip(1), i - 1);
        assert(a.skip(1).skip(i - 1) =~= a.skip(i));
        assert(b.skip(1).skip(i - 1) =~= b.skip(i));
        assert(forall|k: int| 0 <= k < i - 1 ==> a.skip(1)[k] == b.skip(1)[k]);
    }
}

/// Decides `lex_le` on two string slices; `str` orders exactly this way.
pub fn str_le(a: &str, b: &str) -> (r: bool)
    ensures
        r == lex_le(a@, b@),
{
    let la = a.unicode_len();
    let lb = b.unicode_len();
    let mut i: usize = 0;
    while i < la && i < lb
        invariant
            la == a@.len(),
            lb == b@.len(),
            0 <= i <= la,
            0 <= i <= lb,
            forall|k: int| 0 <= k < i ==> a@[k] == b@[k],
        decreases la - i,
    {
        let ca = a.get_char(i);
        let cb = b.get_char(i);
        let ua = ca as u32;
        let ub = cb as u32;
        if ua < ub {
            proof {
                lemma_lex_le_common_prefix(a@, b@, i as int);
            }
            return true;
        }
        if ua > ub {
            proof {
                lemma_lex_le_common_prefix(a@, b@, i as int);
            }
            return false;
        }
        proof {
            assert(ca == cb) by {
                vstd::utf8::char_u32_cast(ca, ua);
                vstd::utf8::char_u32_cast(cb, ub);
            }
        }
        i += 1;
    }
    proof {
        lemma_lex_le_common_prefix(a@, b@, i as int);
    }
    la <= lb
}

/// How many entries of `s` are the name `x`.
pub open spec fn count_name(s: Seq<String>, x: Seq<char>) -> int
    decreases s.len(),
{
    if s.len() == 0 {
        0
    } else if s.last()@ == x {
        count_name(s.drop_last(), x) + 1
    } else {
        count_name(s.drop_last(), x)
    }
}

pub proof fn lemma_count_name_nonneg(s: Seq<String>, x: Seq<char>)
    ensures
        count_name(s, x) >= 0,
    decreases s.len(),
{
    if s.len() > 0 {
        lemma_count_name_nonneg(s.drop_last(), x);
    }
}

/// A positive count is the same as some entry holding the name.
pub proof fn lemma_count_name_index(s: Seq<String>, x: Seq<char>)
    ensures
        count_name(s, x) > 0 <==> exists|i: int| 0 <= i < s.len() && (#[trigger] s[i])@ == x,
    decreases s.len(),
{
    lemma_count_name_nonneg(s, x);
    if s.len() > 0 {
        lemma_count_name_nonneg(s.drop_last(), x);
        lemma_count_name_index(s.drop_last(), x);
        if count_name(s, x) > 0 {
            if s.last()@ == x {
                assert(s[s.len() - 1]@ == x);
            } else {
                let sd = s.drop_last();
                let i = choose|i: int| 0 <= i < sd.len() && (#[trigger] sd[i])@ == x;
                assert(s[i]@ == x);
            }
        }
        if exists|i: int| 0 <= i < s.len() && (#[trigger] s[i])@ == x {
            let i = choose|i: int| 0 <= i < s.len() && (#[trigger] s[i])@ == x;
            if i < s.len() - 1 {
                assert(s.drop_last()[i]@ == x);
                lemma_count_name_nonneg(s.drop_last(), x);
            }
        }
    }
}

/// Each entry with another name leaves the count unchanged; replacing the
/// entry at `i` adjusts the counts of the old and the new name by one.
pub proof fn lemma_count_name_update(s: Seq<String>, i: int, v: String, x: Seq<char>)
    requires
        0 <= i < s.len(),
    ensures
        count_name(s.update(i, v), x) == count_name(s, x) - (if s[i]@ == x {
            1int
        } else {
            0int
        }) + (if v@ == x {
            1int
        } else {
            0int
        }),
    decreases s.len(),
{
    let s2 = s.update(i, v);
    if i == s.len() - 1 {
        assert(s2.drop_last() =~= s.drop_last());
        assert(s2.last() == v);
    } else {
        assert(s2.drop_last() =~= s.drop_last().update(i, v));
        lemma_count_name_update(s.drop_last(), i, v, x);
        assert(s2.last() == s.last());
    }
}

/// Names in weakly ascending lexicographic order.
pub open spec fn names_sorted(s: Seq<String>) -> bool {
    forall|k1: int, k2: int| 0 <= k1 < k2 < s.len() ==> lex_le(#[trigger] s[k1]@, #[trigger] s[k2]@)
}

/// Sorts the names in place into ascending lexicographic order, keeping
/// exactly the same entries (counted with multiplicity).
pub fn sort_names(v: &mut Vec<String>)
    ensures
        final(v)@.len() == old(v)@.len(),
        names_sorted(final(v)@),
        forall|x: Seq<char>| count_name(final(v)@, x) == count_name(old(v)@, x),
{
    let n = v.len();
    let mut i: usize = 0;
    while i < n
        invariant
            n == v@.len(),
            n == old(v)@.len(),
            0 <= i <= n,
            forall|x: Seq<char>| count_name(v@, x) == count_name(old(v)@, x),
            forall|k1: int, k2: int|
                0 <= k1 < k2 < i ==> lex_le(#[trigger] v@[k1]@, #[trigger] v@[k2]@),
            forall|k1: int, k2: int|
                0 <= k1 < i <= k2 < n ==> lex_le(#[trigger] v@[k1]@, #[trigger] v@[k2]@),
        decreases n - i,
    {
        // find the least remaining name
        proof {
            lemma_lex_le_refl(v@[i as int]@);
        }
        let mut mi: usize = i;
        let mut j: usize = i + 1;
        while j < n
            invariant
                n == v@.len(),
                i <= mi < j <= n,
                forall|k: int| i <= k < j ==> lex_le(v@[mi as int]@, #[trigger] v@[k]@),
            decreases n - j,
        {
            if str_le(v[j].as_str(), v[mi].as_str()) {
                proof {
                    assert forall|k: int| i <= k < j + 1 implies lex_le(
                        v@[j as int]@,
                        #[trigger] v@[k]@,
                    ) by {
                        if k < j {
                            lemma_lex_le_trans(v@[j as int]@, v@[mi as int]@, v@[k]@);
                        } else {
                            lemma_lex_le_refl(v@[j as int]@);
                        }
                    }
                }
                mi = j;
            } else {
                proof {
                    lemma_lex_le_total(v@[j as int]@, v@[mi as int]@);
                }
            }
            j += 1;
        }
        // swap the least name into position i
        let ghost before = v@;
        if mi != i {
            let a = v[i].clone();
            let b = v[mi].clone();
            v.set(i, b);
            v.set(mi, a);
            proof {
                assert forall|x: Seq<char>| count_name(v@, x) == count_name(before, x) by {
                    lemma_count_name_update(before, i as int, before[mi as int], x);
                    lemma_count_name_update(
                        before.update(i as int, before[mi as int]),
                        mi as int,
                        before[i as int],
                        x,
                    );
                }
            }
        }
        proof {
            let after = v@;
            assert(after[i as int] == before[mi as int]);
            assert forall|k1: int, k2: int| 0 <= k1 < k2 < i + 1 implies lex_le(
                #[trigger] after[k1]@,
                #[trigger] after[k2]@,
            ) by {
                if k2 == i {
                    assert(lex_le(before[k1]@, before[mi as int]@));
                }
            }
            assert forall|k1: int, k2: int| 0 <= k1 < i + 1 <= k2 < n implies lex_le(
                #[trigger] after[k1]@,
                #[trigger] after[k2]@,
            ) by {
                if k1 == i {
                    if k2 == mi {
                        assert(lex_le(before[mi as int]@, before[i as int]@));
                    } else {
                        assert(lex_le(before[mi as int]@, before[k2]@));
                    }
                } else {
                    if k2 == mi {
                        assert(lex_le(before[k1]@, before[i as int]@));
                    } else {
                        assert(lex_le(before[k1]@, before[k2]@));
                    }
                }
            }
        }
        i += 1;
    }
}

/// No two entries hold the same name.
pub open spec fn names_distinct(s: Seq<String>) -> bool {
    forall|i: int, j: int| 0 <= i < j < s.len() ==> (#[trigger] s[i])@ != (#[trigger] s[j])@
}

pub proof fn lemma_distinct_count(s: Seq<String>, x: Seq<char>)
    requires
        names_distinct(s),
    ensures
        count_name(s, x) <= 1,
    decreases s.len(),
{
    if s.len() > 0 {
        assert(names_distinct(s.drop_last())) by {
            assert(forall|i: int, j: int|
                0 <= i < j < s.len() - 1 ==> (#[trigger] s.drop_last()[i])@ != (
                #[trigger] s.drop_last()[j])@);
        }
        lemma_distinct_count(s.drop_last(), x);
        if s.last()@ == x {
            assert(count_name(s.drop_last(), x) == 0) by {
                lemma_count_name_index(s.drop_last(), x);
                lemma_count_name_nonneg(s.drop_last(), x);
                if count_name(s.drop_last(), x) > 0 {
                    let i = choose|i: int|
                        0 <= i < s.drop_last().len() && (#[trigger] s.drop_last()[i])@ == x;
                    assert(s[i]@ == x && s[s.len() - 1]@ == x);
                }
            }
        }
    }
}

pub proof fn lemma_two_indices_count(s: Seq<String>, i: int, j: int)
    requires
        0 <= i < j < s.len(),
        s[i]@ == s[j]@,
    ensures
        count_name(s, s[i]@) >= 2,
    decreases s.len(),
{
    let x = s[i]@;
    if j == s.len() - 1 {
        assert(count_name(s, x) == count_name(s.drop_last(), x) + 1);
        lemma_count_name_index(s.drop_last(), x);
        assert(s.drop_last()[i]@ == x);
    } else {
        lemma_two_indices_count(s.drop_last(), i, j);
        lemma_count_name_nonneg(s.drop_last(), x);
    }
}

/// Counts at most one everywhere is the same as all names distinct.
pub proof fn lemma_count_distinct(s: Seq<String>)
    requires
        forall|x: Seq<char>| count_name(s, x) <= 1,
    ensures
        names_distinct(s),
{
    assert forall|i: int, j: int| 0 <= i < j < s.len() implies (#[trigger] s[i])@ != (
    #[trigger] s[j])@ by {
        if s[i]@ == s[j]@ {
            lemma_two_indices_count(s, i, j);
        }
    }
}

} // verus!
