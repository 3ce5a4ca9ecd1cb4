//! Character-sequence utilities: whitespace trimming and string comparison.

use vstd::prelude::*;
use vstd::string::*;

verus! {

/// Whitespace as the sanitizer trims it: the ASCII whitespace characters
/// (space, tab, line feed, form feed, carriage return).
pub open spec fn is_ws(c: char) -> bool {
    c == ' ' || c == '\t' || c == '\n' || c == '\u{c}' || c == '\r'
}

/// Length of the longest whitespace prefix of `s`.
pub open spec fn ws_prefix_len(s: Seq<char>) -> int
    decreases s.len(),
{
    if s.len() > 0 && is_ws(s[0]) {
        1 + ws_prefix_len(s.drop_first())
    } else {
        0
    }
}

/// Index at which the longest whitespace suffix of `s` starts.
pub open spec fn ws_suffix_start(s: Seq<char>) -> int
    decreases s.len(),
{
    if s.len() > 0 && is_ws(s[s.len() - 1]) {
        ws_suffix_start(s.drop_last())
    } else {
        s.len() as int
    }
}

/// `s` with leading and trailing whitespace removed; interior whitespace
/// is preserved verbatim.
pub open spec fn trim_spec(s: Seq<char>) -> Seq<char> {
    if ws_prefix_len(s) <= ws_suffix_start(s) {
        s.subrange(ws_prefix_len(s), ws_suffix_start(s))
    } else {
        Seq::empty()
    }
}

/// The whitespace prefix ends exactly at the first non-whitespace character.
proof fn lemma_ws_prefix_len_at(s: Seq<char>, i: int)
    requires
        0 <= i <= s.len(),
        forall|m: int| 0 <= m < i ==> is_ws(s[m]),
        i < s.len() ==> !is_ws(s[i]),
    ensures
        ws_prefix_len(s) == i,
    decreases s.len(),
{
    if i == 0 {
    } else {
        assert(is_ws(s[0]));
        let t = s.drop_first();
        assert(forall|m: int| 0 <= m < i - 1 ==> s[m + 1] == t[m] && is_ws(#[trigger] t[m]));
        assert(i - 1 < t.len() ==> !is_ws(t[i - 1]));
        lemma_ws_prefix_len_at(t, i - 1);
    }
}

/// The whitespace suffix starts exactly after the last non-whitespace
/// character.
proof fn lemma_ws_suffix_start_at(s: Seq<char>, j: int)
    requires
        0 <= j <= s.len(),
        forall|m: int| j <= m < s.len() ==> is_ws(s[m]),
        j > 0 ==> !is_ws(s[j - 1]),
    ensures
        ws_suffix_start(s) == j,
    decreases s.len(),
{
    if j == s.len() {
    } else {
        assert(is_ws(s[s.len() - 1]));
        let t = s.drop_last();
        assert(forall|m: int| j <= m < t.len() ==> s[m] == t[m] && is_ws(#[trigger] t[m]));
        lemma_ws_suffix_start_at(t, j);
    }
}

/// Whether `c` is whitespace for the purposes of trimming.
pub fn is_whitespace(c: char) -> (r: bool)
    ensures
        r == is_ws(c),
{
    c == ' ' || c == '\t' || c == '\n' || c == '\u{c}' || c == '\r'
}

/// Copy `s` with leading and trailing whitespace removed.
pub fn trim(s: &str) -> (r: String)
    ensures
        r@ == trim_spec(s@),
{
    let n = s.unicode_len();
    let mut lo: usize = 0;
    loop
        invariant
            lo <= n,
            n == s@.len(),
            forall|m: int| 0 <= m < lo ==> is_ws(s@[m]),
        ensures
            lo <= n,
            forall|m: int| 0 <= m < lo ==> is_ws(s@[m]),
            lo == n || !is_ws(s@[lo as int]),
        decreases n - lo,
    {
        if lo == n {
            break ;
        }
        let c = s.get_char(lo);
        if !is_whitespace(c) {
            break ;
        }
        lo += 1;
    }
    let mut hi: usize = n;
    loop
        invariant
            lo <= hi <= n,
            n == s@.len(),
            forall|m: int| 0 <= m < lo ==> is_ws(s@[m]),
            lo == n || !is_ws(s@[lo as int]),
            forall|m: int| hi <= m < n ==> is_ws(s@[m]),
        ensures
            lo <= hi <= n,
            forall|m: int| hi <= m < n ==> is_ws(s@[m]),
            hi == lo || !is_ws(s@[hi - 1]),
        decreases hi,
    {
        if hi == lo {
            break ;
        }
        let c = s.get_char(hi - 1);
        if !is_whitespace(c) {
            break ;
        }
        hi -= 1;
    }
    if hi == lo {
        proof {
            lemma_ws_prefix_len_at(s@, s@.len() as int);
            lemma_ws_suffix_start_at(s@, 0);
            if s@.len() == 0 {
                assert(trim_spec(s@) =~= Seq::<char>::empty());
            }
        }
        String::new()
    } else {
        proof {
            lemma_ws_prefix_len_at(s@, lo as int);
            lemma_ws_suffix_start_at(s@, hi as int);
        }
        let piece = s.substring_char(lo, hi);
        piece.to_owned()
    }
}

/// Whether two string slices hold the same characters.
pub fn str_eq(a: &str, b: &str) -> (r: bool)
    ensures
        r == (a@ == b@),
{
    let na = a.unicode_len();
    let nb = b.unicode_len();
    if na != nb {
        return false;
    }
    let mut k: usize = 0;
    while k < na
        invariant
            k <= na,
            na == a@.len(),
            na == b@.len(),
            forall|m: int| 0 <= m < k ==> a@[m] == b@[m],
        decreases na - k,
    {
        if a.get_char(k) != b.get_char(k) {
            return false;
        }
        k += 1;
    }
    proof {
        assert(a@ =~= b@);
    }
    true
}

/// Whether `s` occurs among the strings of `v`.
pub fn contains_string(v: &Vec<String>, s: &str) -> (r: bool)
    ensures
        r == v.deep_view().contains(s@),
{
    let n = v.len();
    let mut k: usize = 0;
    while k < n
        invariant
            k <= n,
            n == v@.len(),
            forall|m: int| 0 <= m < k ==> v.deep_view()[m] != s@,
        decreases n - k,
    {
        if str_eq(v[k].as_str(), s) {
            proof {
                assert(v.deep_view()[k as int] == s@);
            }
            return true;
        }
        k += 1;
    }
    proof {
        assert(forall|m: int| 0 <= m < v.deep_view().len() ==> v.deep_view()[m] != s@);
    }
    false
}

} // verus!
