//! Party resolution: which candidate line is the buyer and which is the
//! seller, with a fallback that scans a window of text around the seller
//! tax identifier.

use vstd::prelude::*;

use crate::patterns::PatternLibrary;
use crate::patterns::context_keywords;
use crate::patterns::first_from;
use crate::patterns::lemma_first_from_is;
use crate::patterns::lemma_first_from_none;
use crate::text::chars_eq;
use crate::text::clone_chars;
use crate::text::contains_seq;
use crate::text::contains_sub;
use crate::text::copy_range;
use crate::text::find_sub;
use crate::text::is_space_char;
use crate::text::matches_at;
use crate::text::seq_matches_at;
use crate::text::space_char;

verus! {

/// Position of the first candidate containing the keyword.
pub open spec fn first_containing(cands: Seq<Seq<char>>, kw: Seq<char>) -> Option<int> {
    first_from(|i: int| 0 <= i < cands.len() && contains_seq(cands[i], kw), 0, cands.len() as int)
}

/// The buyer: with a non-empty keyword, the first candidate containing it;
/// otherwise, or when no candidate matches, the first candidate; empty when
/// there is none.
pub open spec fn spec_buyer(cands: Seq<Seq<char>>, kw: Seq<char>) -> Seq<char> {
    if kw.len() > 0 && first_containing(cands, kw) is Some {
        match first_containing(cands, kw) {
            Some(i) => cands[i],
            None => Seq::empty(),
        }
    } else if cands.len() > 0 {
        cands[0]
    } else {
        Seq::empty()
    }
}

/// The first candidate from position `i` on that differs from the buyer.
pub open spec fn seller_primary_from(cands: Seq<Seq<char>>, buyer: Seq<char>, i: int) -> Seq<
    char,
>
    decreases cands.len() - i,
{
    if i < 0 || i >= cands.len() {
        Seq::empty()
    } else if cands[i] != buyer {
        cands[i]
    } else {
        seller_primary_from(cands, buyer, i + 1)
    }
}

/// The primary seller choice: the first candidate differing from the buyer.
pub open spec fn spec_seller_primary(cands: Seq<Seq<char>>, buyer: Seq<char>) -> Seq<char> {
    seller_primary_from(cands, buyer, 0)
}

proof fn lemma_seller_primary_skip(cands: Seq<Seq<char>>, buyer: Seq<char>, k: int)
    requires
        0 <= k <= cands.len(),
        forall|j: int| 0 <= j < k ==> cands[j] == buyer,
    ensures
        seller_primary_from(cands, buyer, 0) == seller_primary_from(cands, buyer, k),
    decreases k,
{
    if k > 0 {
        lemma_seller_primary_skip(cands, buyer, k - 1);
        assert(seller_primary_from(cands, buyer, k - 1) == seller_primary_from(cands, buyer, k));
    }
}

pub fn resolve_buyer(cands: &Vec<Vec<char>>, kw: &Vec<char>) -> (r: Vec<char>)
    ensures
        r@ == spec_buyer(cands.deep_view(), kw@),
{
    let n = cands.len();
    let ghost cs = cands.deep_view();
    proof {
        assert(cs.len() == n);
    }
    if kw.len() > 0 {
        let mut i: usize = 0;
        while i < n
            invariant
                n == cands@.len(),
                cs == cands.deep_view(),
                cs.len() == n,
                kw@.len() > 0,
                0 <= i <= n,
                forall|j: int| 0 <= j < i ==> !contains_seq(cs[j], kw@),
            decreases n - i,
        {
            proof {
                assert(cs[i as int] == cands@[i as int]@);
            }
            if contains_sub(&cands[i], kw) {
                proof {
                    lemma_first_from_is(
                        |j: int| 0 <= j < cs.len() && contains_seq(cs[j], kw@),
                        0,
                        cs.len() as int,
                        i as int,
                    );
                }
                return clone_chars(&cands[i]);
            }
            i += 1;
        }
        proof {
            lemma_first_from_none(
                |j: int| 0 <= j < cs.len() && contains_seq(cs[j], kw@),
                0,
                cs.len() as int,
            );
        }
    }
    if n > 0 {
        proof {
            assert(cs[0] == cands@[0]@);
        }
        return clone_chars(&cands[0]);
    }
    Vec::new()
}

fn seller_primary(cands: &Vec<Vec<char>>, buyer: &Vec<char>) -> (r: Vec<char>)
    ensures
        r@ == spec_seller_primary(cands.deep_view(), buyer@),
{
    let n = cands.len();
    let ghost cs = cands.deep_view();
    let mut i: usize = 0;
    while i < n
        invariant
            n == cands@.len(),
            cs == cands.deep_view(),
            cs.len() == n,
            0 <= i <= n,
            forall|j: int| 0 <= j < i ==> cs[j] == buyer@,
        decreases n - i,
    {
        proof {
            assert(cs[i as int] == cands@[i as int]@);
        }
        if !chars_eq(&cands[i], buyer) {
            proof {
                lemma_seller_primary_skip(cs, buyer@, i as int);
            }
            return clone_chars(&cands[i]);
        }
        i += 1;
    }
    proof {
        lemma_seller_primary_skip(cs, buyer@, n as int);
    }
    Vec::new()
}

/// Position of the first occurrence of `p` in `t`.
pub open spec fn first_occurrence(t: Seq<char>, p: Seq<char>) -> Option<int> {
    first_from(|i: int| matches_at(t, p, i), 0, t.len() as int)
}

/// End of the run of non-white-space characters starting at `r`: the first
/// white-space position at or after `r`, or the end of the text.
pub open spec fn run_end_from(w: Seq<char>, r: int) -> int {
    match first_from(|j: int| 0 <= j < w.len() && is_space_char(w[j]), r, w.len() as int) {
        Some(j) => j,
        None => w.len() as int,
    }
}

/// A run of non-white-space characters reaching from `r` to the next white
/// space holds the keyword at some position strictly after `r`.
pub open spec fn run_match_at(w: Seq<char>, kw: Seq<char>, r: int) -> bool {
    &&& 0 <= r < w.len()
    &&& !is_space_char(w[r])
    &&& exists|q: int|
        r + 1 <= q && q + kw.len() <= run_end_from(w, r) && #[trigger] matches_at(w, kw, q)
}

/// Start of the first keyword-bearing run; the first position from which a
/// run of non-white-space characters contains the keyword further on.
pub open spec fn kw_run_start(w: Seq<char>, kw: Seq<char>) -> Option<int> {
    first_from(|r: int| run_match_at(w, kw, r), 0, w.len() as int)
}

/// The punctuation stripped from both ends of a fallback seller match.
pub open spec fn is_punct_char(c: char) -> bool {
    c == '*' || c == '、' || c == '。' || c == '.' || c == '\n' || c == '\t' || c == '\r'
}

/// `s` with leading punctuation removed.
pub open spec fn punct_left_spec(s: Seq<char>) -> Seq<char>
    decreases s.len(),
{
    if s.len() > 0 && is_punct_char(s[0]) {
        punct_left_spec(s.drop_first())
    } else {
        s
    }
}

/// `s` with trailing punctuation removed.
pub open spec fn punct_right_spec(s: Seq<char>) -> Seq<char>
    decreases s.len(),
{
    if s.len() > 0 && is_punct_char(s.last()) {
        punct_right_spec(s.drop_last())
    } else {
        s
    }
}

/// `s` with punctuation removed from both ends.
pub open spec fn trim_punct(s: Seq<char>) -> Seq<char> {
    punct_right_spec(punct_left_spec(s))
}

pub proof fn lemma_punct_left_at(s: Seq<char>, a: int)
    requires
        0 <= a <= s.len(),
        forall|j: int| 0 <= j < a ==> is_punct_char(s[j]),
        a == s.len() || !is_punct_char(s[a]),
    ensures
        punct_left_spec(s) == s.subrange(a, s.len() as int),
    decreases a,
{
    if a == 0 {
        assert(s.subrange(0, s.len() as int) =~= s);
    } else {
        lemma_punct_left_at(s.drop_first(), a - 1);
        assert(s.drop_first().subrange(a - 1, s.drop_first().len() as int) =~= s.subrange(
            a,
            s.len() as int,
        ));
    }
}

pub proof fn lemma_punct_right_at(s: Seq<char>, b: int)
    requires
        0 <= b <= s.len(),
        forall|j: int| b <= j < s.len() ==> is_punct_char(s[j]),
        b == 0 || !is_punct_char(s[b - 1]),
    ensures
        punct_right_spec(s) == s.subrange(0, b),
    decreases s.len() - b,
{
    if b == s.len() {
        assert(s.subrange(0, b) =~= s);
    } else {
        lemma_punct_right_at(s.drop_last(), b);
        assert(s.drop_last().subrange(0, b) =~= s.subrange(0, b));
    }
}

fn punct_char(c: char) -> (r: bool)
    ensures
        r == is_punct_char(c),
{
    c == '*' || c == '、' || c == '。' || c == '.' || c == '\n' || c == '\t' || c == '\r'
}

fn trim_punct_chars(s: &Vec<char>) -> (r: Vec<char>)
    ensures
        r@ == trim_punct(s@),
{
    let n = s.len();
    let mut a: usize = 0;
    while a < n && punct_char(s[a])
        invariant
            n == s@.len(),
            0 <= a <= n,
            forall|j: int| 0 <= j < a ==> is_punct_char(s@[j]),
        decreases n - a,
    {
        a += 1;
    }
    let mut b: usize = n;
    while b > a && punct_char(s[b - 1])
        invariant
            n == s@.len(),
            a <= b <= n,
            forall|j: int| b <= j < n ==> is_punct_char(s@[j]),
        decreases b,
    {
        b -= 1;
    }
    let r = copy_range(s, a, b);
    proof {
        lemma_punct_left_at(s@, a as int);
        let m = s@.subrange(a as int, n as int);
        lemma_punct_right_at(m, b - a);
        assert(m.subrange(0, b - a) =~= s@.subrange(a as int, b as int));
    }
    r
}

/// What the keyword yields on the window: the first keyword-bearing run,
/// trimmed of punctuation, if any run bears the keyword.
pub open spec fn fallback_candidate(w: Seq<char>, kw: Seq<char>) -> Option<Seq<char>> {
    match kw_run_start(w, kw) {
        Some(r) => Some(trim_punct(w.subrange(r, run_end_from(w, r)))),
        None => None,
    }
}

/// The fallback seller: the keywords are tried in order from index `k`; the
/// first one whose run yields a text that differs from the buyer and has
/// more than four characters wins.
pub open spec fn fallback_from(w: Seq<char>, buyer: Seq<char>, ks: Seq<Seq<char>>, k: int) -> Seq<
    char,
>
    decreases ks.len() - k,
{
    if k < 0 || k >= ks.len() {
        Seq::empty()
    } else {
        match fallback_candidate(w, ks[k]) {
            Some(s) => if s != buyer && s.len() > 4 {
                s
            } else {
                fallback_from(w, buyer, ks, k + 1)
            },
            None => fallback_from(w, buyer, ks, k + 1),
        }
    }
}

/// The window of 100 characters on each side of the first occurrence of the
/// seller tax identifier, clamped to the text bounds.
pub open spec fn fallback_window(t: Seq<char>, i: int) -> Seq<char> {
    let lo = if i - 100 > 0 {
        i - 100
    } else {
        0
    };
    let hi = if i + 100 < t.len() {
        i + 100
    } else {
        t.len() as int
    };
    t.subrange(lo, hi)
}

/// The fallback seller for the whole text: empty when the tax identifier
/// does not occur.
pub open spec fn spec_fallback_seller(t: Seq<char>, buyer: Seq<char>, tax: Seq<char>) -> Seq<
    char,
> {
    match first_occurrence(t, tax) {
        Some(i) => fallback_from(fallback_window(t, i), buyer, context_keywords(), 0),
        None => Seq::empty(),
    }
}

/// The seller: the first candidate differing from the buyer; when there is
/// none and a seller tax identifier is known, the fallback scan around that
/// identifier; otherwise empty.
pub open spec fn spec_seller(
    t: Seq<char>,
    cands: Seq<Seq<char>>,
    buyer: Seq<char>,
    seller_tax: Seq<char>,
) -> Seq<char> {
    let p = spec_seller_primary(cands, buyer);
    if p.len() > 0 {
        p
    } else if seller_tax.len() > 0 {
        spec_fallback_seller(t, buyer, seller_tax)
    } else {
        Seq::empty()
    }
}

/// A resolved seller never equals the buyer: the primary choice skips
/// candidates identical to the buyer, and the fallback only accepts a
/// differing match.
pub proof fn lemma_seller_differs_from_buyer(
    t: Seq<char>,
    cands: Seq<Seq<char>>,
    buyer: Seq<char>,
    seller_tax: Seq<char>,
)
    ensures
        spec_seller(t, cands, buyer, seller_tax).len() > 0 ==> spec_seller(
            t,
            cands,
            buyer,
            seller_tax,
        ) != buyer,
{
    let p = spec_seller_primary(cands, buyer);
    lemma_seller_primary_differs(cands, buyer, 0);
    if p.len() == 0 && seller_tax.len() > 0 {
        match first_occurrence(t, seller_tax) {
            Some(i) => {
                lemma_fallback_from_differs(fallback_window(t, i), buyer, context_keywords(), 0);
            },
            None => {},
        }
    }
}

proof fn lemma_seller_primary_differs(cands: Seq<Seq<char>>, buyer: Seq<char>, i: int)
    ensures
        seller_primary_from(cands, buyer, i).len() > 0 ==> seller_primary_from(cands, buyer, i)
            != buyer,
    decreases cands.len() - i,
{
    if 0 <= i < cands.len() && cands[i] == buyer {
        lemma_seller_primary_differs(cands, buyer, i + 1);
    }
}

proof fn lemma_fallback_from_differs(w: Seq<char>, buyer: Seq<char>, ks: Seq<Seq<char>>, k: int)
    ensures
        fallback_from(w, buyer, ks, k).len() > 0 ==> fallback_from(w, buyer, ks, k) != buyer,
    decreases ks.len() - k,
{
    if 0 <= k < ks.len() {
        lemma_fallback_from_differs(w, buyer, ks, k + 1);
    }
}

fn run_end_exec(w: &Vec<char>, r: usize) -> (e: usize)
    requires
        r <= w@.len(),
    ensures
        r <= e <= w@.len(),
        e as int == run_end_from(w@, r as int),
        forall|k: int| r <= k < e ==> !is_space_char(w@[k]),
        e < w@.len() ==> is_space_char(w@[e as int]),
{
    let n = w.len();
    let mut j: usize = r;
    while j < n && !space_char(w[j])
        invariant
            n == w@.len(),
            r <= j <= n,
            forall|k: int| r <= k < j ==> !is_space_char(w@[k]),
        decreases n - j,
    {
        j += 1;
    }
    if j < n {
        proof {
            lemma_first_from_is(
                |k: int| 0 <= k < w@.len() && is_space_char(w@[k]),
                r as int,
                w@.len() as int,
                j as int,
            );
        }
    } else {
        proof {
            lemma_first_from_none(
                |k: int| 0 <= k < w@.len() && is_space_char(w@[k]),
                r as int,
                w@.len() as int,
            );
        }
    }
    j
}

fn has_kw_in_run(w: &Vec<char>, kw: &Vec<char>, r: usize, e: usize) -> (found: bool)
    requires
        r < e <= w@.len(),
    ensures
        found == exists|q: int|
            r + 1 <= q && q + kw@.len() <= e && #[trigger] matches_at(w@, kw@, q),
{
    if kw.len() > e || e - kw.len() < r + 1 {
        proof {
            assert forall|q2: int|
                !(r + 1 <= q2 && q2 + kw@.len() <= e && #[trigger] matches_at(w@, kw@, q2)) by {}
        }
        return false;
    }
    let last = e - kw.len();
    let mut q: usize = r + 1;
    while q <= last
        invariant
            kw@.len() <= e <= w@.len(),
            last == e - kw@.len(),
            r + 1 <= q <= last + 1,
            forall|q2: int| r + 1 <= q2 < q ==> !matches_at(w@, kw@, q2) || !(q2 + kw@.len() <= e),
        decreases last + 1 - q,
    {
        if seq_matches_at(w, kw, q) {
            return true;
        }
        q += 1;
    }
    false
}

fn run_match(w: &Vec<char>, kw: &Vec<char>, r: usize) -> (found: bool)
    requires
        r < w@.len(),
    ensures
        found == run_match_at(w@, kw@, r as int),
{
    if space_char(w[r]) {
        return false;
    }
    let e = run_end_exec(w, r);
    assert(r < e) by {
        assert(!is_space_char(w@[r as int]));
    }
    has_kw_in_run(w, kw, r, e)
}

/// The first keyword-bearing run of the window, trimmed of punctuation.
fn find_fallback_candidate(w: &Vec<char>, kw: &Vec<char>) -> (r: Option<Vec<char>>)
    ensures
        match r {
            Some(s) => fallback_candidate(w@, kw@) == Some(s@),
            None => fallback_candidate(w@, kw@) is None,
        },
{
    let n = w.len();
    let mut i: usize = 0;
    while i < n
        invariant
            n == w@.len(),
            0 <= i <= n,
            forall|j: int| 0 <= j < i ==> !run_match_at(w@, kw@, j),
        decreases n - i,
    {
        if run_match(w, kw, i) {
            proof {
                lemma_first_from_is(|j: int| run_match_at(w@, kw@, j), 0, n as int, i as int);
            }
            let e = run_end_exec(w, i);
            let run = copy_range(w, i, e);
            return Some(trim_punct_chars(&run));
        }
        i += 1;
    }
    proof {
        lemma_first_from_none(|j: int| run_match_at(w@, kw@, j), 0, n as int);
    }
    None
}

/// The seller for the text: primary choice from the candidate list, then
/// the fallback scan around the seller tax identifier.
pub fn resolve_seller(
    lib: &PatternLibrary,
    t: &Vec<char>,
    cands: &Vec<Vec<char>>,
    buyer: &Vec<char>,
    seller_tax: &Vec<char>,
) -> (r: Vec<char>)
    requires
        lib.wf(),
    ensures
        r@ == spec_seller(t@, cands.deep_view(), buyer@, seller_tax@),
{
    let primary = seller_primary(cands, buyer);
    if primary.len() > 0 {
        return primary;
    }
    if seller_tax.len() == 0 {
        return Vec::new();
    }
    let n = t.len();
    match find_sub(t, seller_tax) {
        None => {
            proof {
                lemma_first_from_none(
                    |i: int| matches_at(t@, seller_tax@, i),
                    0,
                    t@.len() as int,
                );
            }
            Vec::new()
        },
        Some(i) => {
            proof {
                lemma_first_from_is(
                    |j: int| matches_at(t@, seller_tax@, j),
                    0,
                    t@.len() as int,
                    i as int,
                );
            }
            let lo: usize = if i > 100 {
                i - 100
            } else {
                0
            };
            let hi: usize = if n - i > 100 {
                i + 100
            } else {
                n
            };
            let w = copy_range(t, lo, hi);
            proof {
                assert(w@ == fallback_window(t@, i as int));
            }
            let ghost ks = context_keywords();
            let nk = lib.context.len();
            proof {
                assert(ks.len() == nk);
            }
            let mut k: usize = 0;
            loop
                invariant
                    nk == lib.context@.len(),
                    ks == context_keywords(),
                    lib.context.deep_view() == ks,
                    ks.len() == nk,
                    0 <= k <= nk,
                    spec_seller_primary(cands.deep_view(), buyer@).len() == 0,
                    seller_tax@.len() > 0,
                    first_occurrence(t@, seller_tax@) == Some(i as int),
                    w@ == fallback_window(t@, i as int),
                    fallback_from(w@, buyer@, ks, 0) == fallback_from(w@, buyer@, ks, k as int),
                ensures
                    fallback_from(w@, buyer@, ks, 0) == Seq::<char>::empty(),
                decreases nk - k,
            {
                if k == nk {
                    break;
                }
                proof {
                    assert(ks[k as int] == lib.context@[k as int]@);
                }
                match find_fallback_candidate(&w, &lib.context[k]) {
                    Some(s) => {
                        let long_enough = s.len() > 4;
                        let differs = !chars_eq(&s, buyer);
                        if differs && long_enough {
                            return s;
                        }
                    },
                    None => {},
                }
                k += 1;
            }
            Vec::new()
        },
    }
}

} // verus!
