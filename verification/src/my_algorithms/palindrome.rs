//! Palindrome tests over grapheme clusters, ignoring case and punctuation.

use vstd::prelude::*;

use unicode_segmentation::UnicodeSegmentation;

verus! {

/// What `str::to_lowercase` returns; the result depends on the characters
/// alone.
pub uninterp spec fn lower_of(s: Seq<char>) -> Seq<char>;

/// Relies on `str::to_lowercase`: the lowercase mapping of the text,
/// empty exactly for empty input.
#[verifier::external_body]
fn lowercase(s: &str) -> (r: String)
    ensures
        r@ == lower_of(s@),
        s@.len() == 0 <==> r@.len() == 0,
{
    s.to_lowercase()
}

/// What `unicode_segmentation`'s extended grapheme segmentation returns;
/// the clusters depend on the characters alone.
pub uninterp spec fn graphemes_of(s: Seq<char>) -> Seq<Seq<char>>;

/// Relies on `UnicodeSegmentation::graphemes` (extended clusters): the
/// grapheme clusters of the text in order, none for empty input only.
#[verifier::external_body]
fn grapheme_clusters(s: &str) -> (r: Vec<Vec<char>>)
    ensures
        r@.map_values(|g: Vec<char>| g@) == graphemes_of(s@),
        s@.len() == 0 <==> r@.len() == 0,
{
    s.graphemes(true).map(|g| g.chars().collect()).collect()
}

/// What `regex`'s `replace_all` with the pattern `[\W]` and an empty
/// replacement returns: the text with the non-word characters removed.
pub uninterp spec fn without_nonword_of(s: Seq<char>) -> Seq<char>;

/// Relies on `regex::Regex::replace_all` with the fixed, valid pattern
/// `[\W]`: removes every non-word character; the result depends on the
/// input alone.
#[verifier::external_body]
fn remove_nonword(s: &str) -> (r: String)
    ensures
        r@ == without_nonword_of(s@),
{
    let re = regex::Regex::new("[\\W]").unwrap();
    re.replace_all(s, "").into_owned()
}

/// The punctuation and spacing characters that the scan skips.
pub open spec fn is_excluded_char(c: char) -> bool {
    c == ' ' || c == '.' || c == ',' || c == '!' || c == ':' || c == ';' || c == '\'' || c == '’'
        || c == '"' || c == '-'
}

/// A cluster is skipped when it holds any excluded character.
pub open spec fn grapheme_excluded(g: Seq<char>) -> bool {
    exists|i: int| 0 <= i < g.len() && is_excluded_char(#[trigger] g[i])
}

/// The clusters that remain once the excluded ones are removed.
pub open spec fn filter_graphemes(gs: Seq<Seq<char>>) -> Seq<Seq<char>>
    decreases gs.len(),
{
    if gs.len() == 0 {
        Seq::empty()
    } else {
        let rest = filter_graphemes(gs.drop_last());
        if grapheme_excluded(gs.last()) {
            rest
        } else {
            rest.push(gs.last())
        }
    }
}

/// A sequence that reads the same in both directions.
pub open spec fn seq_palindrome(gs: Seq<Seq<char>>) -> bool {
    forall|i: int| 0 <= i < gs.len() ==> #[trigger] gs[i] == gs[gs.len() - 1 - i]
}

/// The text is non-empty and its lowercase grapheme clusters, punctuation
/// and spaces skipped, read the same in both directions.
pub open spec fn spec_is_palindrome(s: Seq<char>) -> bool {
    s.len() > 0 && seq_palindrome(filter_graphemes(graphemes_of(lower_of(s))))
}

/// Whether one cluster holds an excluded character.
fn cluster_excluded(g: &Vec<char>) -> (r: bool)
    ensures
        r == grapheme_excluded(g@),
{
    let n = g.len();
    let mut i: usize = 0;
    while i < n
        invariant
            n == g@.len(),
            0 <= i <= n,
            forall|k: int| 0 <= k < i ==> !is_excluded_char(#[trigger] g@[k]),
        decreases n - i,
    {
        let c = g[i];
        if c == ' ' || c == '.' || c == ',' || c == '!' || c == ':' || c == ';' || c == '\''
            || c == '’' || c == '"' || c == '-' {
            return true;
        }
        i += 1;
    }
    false
}

/// A copy of a list of characters.
fn copy_chars(v: &Vec<char>) -> (r: Vec<char>)
    ensures
        r@ == v@,
{
    let n = v.len();
    let mut out: Vec<char> = Vec::new();
    let mut i: usize = 0;
    while i < n
        invariant
            n == v@.len(),
            0 <= i <= n,
            out@ =~= v@.take(i as int),
        decreases n - i,
    {
        out.push(v[i]);
        proof {
            assert(out@ =~= v@.take(i + 1));
        }
        i += 1;
    }
    proof {
        assert(v@.take(n as int) =~= v@);
    }
    out
}

/// Whether two lists of characters are equal.
fn chars_eq(a: &Vec<char>, b: &Vec<char>) -> (r: bool)
    ensures
        r == (a@ == b@),
{
    if a.len() != b.len() {
        proof {
            assert(a@ != b@);
        }
        return false;
    }
    let n = a.len();
    let mut i: usize = 0;
    while i < n
        invariant
            n == a@.len() == b@.len(),
            0 <= i <= n,
            forall|k: int| 0 <= k < i ==> a@[k] == b@[k],
        decreases n - i,
    {
        if a[i] != b[i] {
            return false;
        }
        i += 1;
    }
    proof {
        assert(a@ =~= b@);
    }
    true
}

/// Tests whether the text is a palindrome: lowercase it, split it into
/// grapheme clusters, skip clusters with punctuation or spaces, and
/// compare the rest from both ends.  The empty text is no palindrome.
pub fn is_palindrome_raw(sample: &str) -> (r: bool)
    ensures
        r == spec_is_palindrome(sample@),
{
    let low = lowercase(sample);
    let gs = grapheme_clusters(low.as_str());
    if gs.len() == 0 {
        return false;
    }
    let ghost gsv = gs@.map_values(|g: Vec<char>| g@);
    let n = gs.len();
    let mut filtered: Vec<Vec<char>> = Vec::new();
    let mut i: usize = 0;
    while i < n
        invariant
            n == gs@.len(),
            gsv == gs@.map_values(|g: Vec<char>| g@),
            0 <= i <= n,
            filtered@.map_values(|g: Vec<char>| g@) =~= filter_graphemes(gsv.take(i as int)),
        decreases n - i,
    {
        proof {
            assert(gsv.take(i + 1).drop_last() =~= gsv.take(i as int));
            assert(gsv.take(i + 1).last() == gsv[i as int]);
            assert(gsv[i as int] == gs@[i as int]@);
        }
        if !cluster_excluded(&gs[i]) {
            let copy = copy_chars(&gs[i]);
            filtered.push(copy);
            proof {
                assert(filtered@.map_values(|g: Vec<char>| g@) =~= filter_graphemes(
                    gsv.take(i + 1),
                ));
            }
        } else {
            proof {
                assert(filtered@.map_values(|g: Vec<char>| g@) =~= filter_graphemes(
                    gsv.take(i + 1),
                ));
            }
        }
        i += 1;
    }
    proof {
        assert(gsv.take(n as int) =~= gsv);
    }
    let ghost f = filter_graphemes(gsv);
    let len = filtered.len();
    let mut lo: usize = 0;
    while lo + 1 < len - lo
        invariant
            len == filtered@.len(),
            filtered@.map_values(|g: Vec<char>| g@) == f,
            f == filter_graphemes(graphemes_of(lower_of(sample@))),
            0 <= lo,
            2 * lo <= len,
            forall|k: int| 0 <= k < lo ==> #[trigger] f[k] == f[f.len() - 1 - k],
        decreases len - 2 * lo,
    {
        if !chars_eq(&filtered[lo], &filtered[len - 1 - lo]) {
            proof {
                assert(f[lo as int] == filtered@[lo as int]@);
                assert(f[f.len() - 1 - lo] == filtered@[len - 1 - lo]@);
                assert(!seq_palindrome(f));
                assert(f == filter_graphemes(graphemes_of(lower_of(sample@))));
            }
            return false;
        }
        lo += 1;
    }
    proof {
        assert forall|k: int| 0 <= k < f.len() implies #[trigger] f[k] == f[f.len() - 1 - k] by {
            if k < lo {
            } else if f.len() - 1 - k < lo {
                assert(f[f.len() - 1 - k] == f[f.len() - 1 - (f.len() - 1 - k)]);
            } else {
                assert(k == f.len() - 1 - k);
            }
        }
    }
    true
}

/// Tests whether the text is a palindrome.
pub fn is_palindrome(sample: &str) -> (r: bool)
    ensures
        r == spec_is_palindrome(sample@),
{
    is_palindrome_raw(sample)
}

/// What a cluster list reads like backward: the clusters in reverse
/// order, flattened, starting from position `k`.
pub open spec fn concat_down(gs: Seq<Seq<char>>, k: int) -> Seq<char>
    decreases gs.len() - k,
{
    if k < 0 || k >= gs.len() {
        Seq::empty()
    } else {
        concat_down(gs, k + 1) + gs[k]
    }
}

/// Tests whether the text is a palindrome by the regex route: lowercase
/// it, strip the non-word characters, and compare the result with its
/// grapheme-wise reversal.
pub fn is_palindrome_regex(sample: &str) -> (r: bool)
    ensures
        r == ({
            let clean = without_nonword_of(lower_of(sample@));
            clean == concat_down(graphemes_of(clean), 0)
        }),
{
    let low = lowercase(sample);
    let clean = remove_nonword(low.as_str());
    let gs = grapheme_clusters(clean.as_str());
    let ghost gsv = gs@.map_values(|g: Vec<char>| g@);
    let mut reversed: Vec<char> = Vec::new();
    let mut k = gs.len();
    while k > 0
        invariant
            k <= gs@.len(),
            gsv == gs@.map_values(|g: Vec<char>| g@),
            reversed@ =~= concat_down(gsv, k as int),
        decreases k,
    {
        k -= 1;
        let g = &gs[k];
        let m = g.len();
        let mut j: usize = 0;
        while j < m
            invariant
                m == g@.len(),
                g == &gs[k as int],
                k < gs@.len(),
                gsv == gs@.map_values(|g2: Vec<char>| g2@),
                0 <= j <= m,
                reversed@ =~= concat_down(gsv, k + 1) + g@.take(j as int),
            decreases m - j,
        {
            reversed.push(g[j]);
            proof {
                assert(g@.take(j + 1) =~= g@.take(j as int).push(g@[j as int]));
            }
            j += 1;
        }
        proof {
            assert(g@.take(m as int) =~= g@);
            assert(gsv[k as int] == gs@[k as int]@);
            assert(reversed@ =~= concat_down(gsv, k as int));
        }
    }
    let clean_chars = string_chars(&clean);
    chars_eq(&clean_chars, &reversed)
}

/// The characters of a string, in order.
fn string_chars(s: &String) -> (r: Vec<char>)
    ensures
        r@ == s@,
{
    let slice = s.as_str();
    let n = slice.unicode_len();
    let mut out: Vec<char> = Vec::new();
    let mut i: usize = 0;
    while i < n
        invariant
            n == slice@.len(),
            slice@ == s@,
            0 <= i <= n,
            out@ =~= s@.take(i as int),
        decreases n - i,
    {
        out.push(slice.get_char(i));
        proof {
            assert(out@ =~= s@.take(i + 1));
        }
        i += 1;
    }
    proof {
        assert(s@.take(n as int) =~= s@);
    }
    out
}

} // verus!
