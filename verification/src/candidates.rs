//! Candidate line collection: the lines of the text that plausibly name a
//! business party, trimmed, in first-seen order and without duplicates.

use vstd::prelude::*;

use crate::patterns::PatternLibrary;
use crate::patterns::contains_any;
use crate::patterns::contains_any_kw;
use crate::patterns::entity_keywords;
use crate::patterns::exclusion_keywords;
use crate::patterns::first_from;
use crate::patterns::item_marker_at;
use crate::patterns::lemma_first_from;
use crate::patterns::lemma_first_from_is;
use crate::patterns::lemma_first_from_none;
use crate::text::chars_eq;
use crate::text::copy_range;
use crate::text::trim_chars;
use crate::text::trim_spec;

verus! {

/// Position of the first line break of `t`.
pub open spec fn line_break(t: Seq<char>) -> Option<int> {
    first_from(|i: int| 0 <= i < t.len() && t[i] == '\n', 0, t.len() as int)
}

/// The text as newline-separated segments.  A trailing newline yields a
/// final empty segment; no such segment survives the length filter below.
pub open spec fn lines_of(t: Seq<char>) -> Seq<Seq<char>>
    decreases t.len(),
    via lines_of_decreases
{
    match line_break(t) {
        Some(i) => seq![t.subrange(0, i)] + lines_of(t.subrange(i + 1, t.len() as int)),
        None => seq![t],
    }
}

#[via_fn]
proof fn lines_of_decreases(t: Seq<char>) {
    lemma_first_from(|i: int| 0 <= i < t.len() && t[i] == '\n', 0, t.len() as int);
}

/// A trimmed line is boilerplate when it holds an item marker or one of the
/// exclusion keywords.
pub open spec fn line_excluded(s: Seq<char>) -> bool {
    (exists|i: int| item_marker_at(s, i)) || contains_any(s, exclusion_keywords())
}

/// A line is kept as a party candidate when, after trimming, it has 5 to 60
/// characters, is not boilerplate, contains a business-entity keyword and
/// does not end with the fee suffix.
pub open spec fn is_candidate_line(line: Seq<char>) -> bool {
    let s = trim_spec(line);
    &&& 5 <= s.len() <= 60
    &&& !line_excluded(s)
    &&& contains_any(s, entity_keywords())
    &&& s[s.len() - 1] != '费'
}

/// The trimmed candidate lines of `ls`, kept in order, duplicates included.
pub open spec fn kept_lines(ls: Seq<Seq<char>>) -> Seq<Seq<char>>
    decreases ls.len(),
{
    if ls.len() == 0 {
        Seq::empty()
    } else if is_candidate_line(ls.last()) {
        kept_lines(ls.drop_last()).push(trim_spec(ls.last()))
    } else {
        kept_lines(ls.drop_last())
    }
}

/// `s` with every element that already occurred earlier removed; the first
/// occurrences keep their order.
pub open spec fn dedup_seqs(s: Seq<Seq<char>>) -> Seq<Seq<char>>
    decreases s.len(),
{
    if s.len() == 0 {
        Seq::empty()
    } else {
        let p = dedup_seqs(s.drop_last());
        if p.contains(s.last()) {
            p
        } else {
            p.push(s.last())
        }
    }
}

/// The ordered candidate list of the text: trimmed candidate lines,
/// deduplicated by exact text.
pub open spec fn spec_candidates(t: Seq<char>) -> Seq<Seq<char>> {
    dedup_seqs(kept_lines(lines_of(t)))
}

fn has_item_marker(s: &Vec<char>) -> (r: bool)
    ensures
        r == exists|i: int| item_marker_at(s@, i),
{
    let n = s.len();
    let mut i: usize = 0;
    while i < n
        invariant
            n == s@.len(),
            0 <= i <= n,
            forall|j: int| 0 <= j < i ==> !item_marker_at(s@, j),
        decreases n - i,
    {
        if crate::fields::item_close(s, i).is_some() {
            assert(item_marker_at(s@, i as int));
            return true;
        }
        i += 1;
    }
    assert forall|j: int| !item_marker_at(s@, j) by {
        if item_marker_at(s@, j) {
            let e = choose|e: int| crate::patterns::item_marker_closed_at(s@, j, e);
            assert(0 <= j < n);
        }
    }
    false
}

/// The trimmed form of `line` when it is a candidate line.
fn check_candidate(lib: &PatternLibrary, line: &Vec<char>) -> (r: Option<Vec<char>>)
    requires
        lib.wf(),
    ensures
        match r {
            Some(s) => is_candidate_line(line@) && s@ == trim_spec(line@),
            None => !is_candidate_line(line@),
        },
{
    let s = trim_chars(line);
    let n = s.len();
    if n < 5 || n > 60 {
        return None;
    }
    if has_item_marker(&s) {
        return None;
    }
    if contains_any_kw(&s, &lib.exclusion) {
        return None;
    }
    if !contains_any_kw(&s, &lib.entity) {
        return None;
    }
    if s[n - 1] == '费' {
        return None;
    }
    Some(s)
}

fn contains_vec(cands: &Vec<Vec<char>>, x: &Vec<char>) -> (r: bool)
    ensures
        r == cands.deep_view().contains(x@),
{
    let mut k: usize = 0;
    while k < cands.len()
        invariant
            0 <= k <= cands@.len(),
            cands.deep_view().len() == cands@.len(),
            forall|j: int| 0 <= j < k ==> cands.deep_view()[j] != x@,
        decreases cands@.len() - k,
    {
        assert(cands.deep_view()[k as int] == cands@[k as int]@);
        if chars_eq(&cands[k], x) {
            assert(cands.deep_view().contains(x@));
            return true;
        }
        k += 1;
    }
    assert(!cands.deep_view().contains(x@));
    false
}

/// All candidate lines of the text, trimmed, deduplicated, in first-seen
/// order.
pub fn collect_candidates(lib: &PatternLibrary, t: &Vec<char>) -> (r: Vec<Vec<char>>)
    requires
        lib.wf(),
    ensures
        r.deep_view() == spec_candidates(t@),
{
    let n = t.len();
    let mut cands: Vec<Vec<char>> = Vec::new();
    let mut start: usize = 0;
    let ghost mut done: Seq<Seq<char>> = Seq::empty();
    proof {
        assert(t@.subrange(0, n as int) =~= t@);
        assert(lines_of(t@) =~= done + lines_of(t@.subrange(0, n as int)));
        assert(cands.deep_view() =~= dedup_seqs(kept_lines(done)));
    }
    loop
        invariant_except_break
            lines_of(t@) == done + lines_of(t@.subrange(start as int, n as int)),
        invariant
            n == t@.len(),
            0 <= start <= n,
            lib.wf(),
            cands.deep_view() == dedup_seqs(kept_lines(done)),
        ensures
            cands.deep_view() == dedup_seqs(kept_lines(lines_of(t@))),
        decreases n - start,
    {
        // find the next line break at or after `start`
        let mut j: usize = start;
        while j < n && t[j] != '\n'
            invariant
                n == t@.len(),
                start <= j <= n,
                forall|k: int| start <= k < j ==> t@[k] != '\n',
            decreases n - j,
        {
            j += 1;
        }
        let line = copy_range(t, start, j);
        let ghost sub = t@.subrange(start as int, n as int);
        proof {
            if j < n {
                lemma_first_from_is(
                    |i: int| 0 <= i < sub.len() && sub[i] == '\n',
                    0,
                    sub.len() as int,
                    j - start,
                );
                assert(sub.subrange(0, j - start) =~= line@);
                assert(sub.subrange(j - start + 1, sub.len() as int) =~= t@.subrange(
                    j + 1,
                    n as int,
                ));
            } else {
                lemma_first_from_none(
                    |i: int| 0 <= i < sub.len() && sub[i] == '\n',
                    0,
                    sub.len() as int,
                );
                assert(sub =~= line@);
            }
        }
        // lines_of(sub) == seq![line@] + lines_of(rest)  (rest empty when j == n)
        let ghost new_done = done + seq![line@];
        proof {
            assert(new_done.drop_last() =~= done);
            assert(new_done.last() == line@);
        }
        match check_candidate(lib, &line) {
            Some(s) => {
                proof {
                    assert(new_done.last() == line@);
                    assert(new_done.drop_last() =~= done);
                    assert(kept_lines(new_done) =~= kept_lines(done).push(trim_spec(line@)));
                }
                let is_dup = contains_vec(&cands, &s);
                if !is_dup {
                    let ghost old_deep = cands.deep_view();
                    cands.push(s);
                    proof {
                        assert(cands.deep_view() =~~= old_deep.push(trim_spec(line@)));
                        assert(kept_lines(new_done).drop_last() =~= kept_lines(done));
                        assert(dedup_seqs(kept_lines(new_done)) =~= cands.deep_view());
                    }
                } else {
                    proof {
                        assert(kept_lines(new_done).drop_last() =~= kept_lines(done));
                        assert(dedup_seqs(kept_lines(new_done)) =~= cands.deep_view());
                    }
                }
            },
            None => {
                proof {
                    assert(new_done.last() == line@);
                    assert(new_done.drop_last() =~= done);
                    assert(kept_lines(new_done) =~= kept_lines(done));
                }
            },
        }
        proof {
            done = new_done;
        }
        if j == n {
            proof {
                assert(lines_of(t@) =~= done);
            }
            break;
        }
        start = j + 1;
        proof {
            assert(lines_of(t@) =~= done + lines_of(t@.subrange(start as int, n as int)));
        }
    }
    cands
}

} // verus!
