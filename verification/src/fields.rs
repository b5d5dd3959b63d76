//! Singleton field extractors: first-match scalar fields pulled from the raw
//! text with the pattern library.  An absent field is the empty sequence.

use vstd::prelude::*;

use crate::patterns::date_at;
use crate::patterns::date_day_val;
use crate::patterns::date_month_val;
use crate::patterns::char_of_digit;
use crate::patterns::digit_val;
use crate::patterns::doc_number_at;
use crate::patterns::first_from;
use crate::patterns::formatted_date;
use crate::patterns::item_marker_at;
use crate::patterns::item_marker_closed_at;
use crate::patterns::lemma_first_from;
use crate::patterns::lemma_first_from_is;
use crate::patterns::lemma_first_from_none;
use crate::patterns::one_digit_then;
use crate::patterns::pad2;
use crate::patterns::tax_id_at;
use crate::patterns::two_digits_then;
use crate::text::copy_range;
use crate::text::digit_char;
use crate::text::is_digit_char;
use crate::text::is_tax_char;
use crate::text::is_word_char;
use crate::text::tax_char;
use crate::text::word_char;

verus! {

/// The document number: the first word-bounded 20-digit run, or empty.
pub open spec fn spec_document_number(t: Seq<char>) -> Seq<char> {
    match first_from(|i: int| doc_number_at(t, i), 0, t.len() as int) {
        Some(i) => t.subrange(i, i + 20),
        None => Seq::empty(),
    }
}

fn doc_match(t: &Vec<char>, i: usize) -> (r: bool)
    requires
        i < t@.len(),
    ensures
        r == doc_number_at(t@, i as int),
{
    let n = t.len();
    if n - i < 20 {
        return false;
    }
    if i > 0 && word_char(t[i - 1]) {
        return false;
    }
    if i + 20 < n && word_char(t[i + 20]) {
        return false;
    }
    let mut j: usize = i;
    while j - i < 20
        invariant
            i + 20 <= t@.len(),
            t@.len() == n,
            i <= j <= i + 20,
            forall|k: int| i <= k < j ==> is_digit_char(t@[k]),
        decreases i + 20 - j,
    {
        if !digit_char(t[j]) {
            return false;
        }
        j += 1;
    }
    true
}

pub fn extract_document_number(t: &Vec<char>) -> (r: Vec<char>)
    ensures
        r@ == spec_document_number(t@),
{
    let n = t.len();
    let mut i: usize = 0;
    while i < n
        invariant
            n == t@.len(),
            0 <= i <= n,
            forall|j: int| 0 <= j < i ==> !doc_number_at(t@, j),
        decreases n - i,
    {
        if doc_match(t, i) {
            proof {
                lemma_first_from_is(|k: int| doc_number_at(t@, k), 0, n as int, i as int);
            }
            return copy_range(t, i, i + 20);
        }
        i += 1;
    }
    proof {
        lemma_first_from_none(|k: int| doc_number_at(t@, k), 0, n as int);
    }
    Vec::new()
}

/// An 18-character token survives tax-id collection unless it is a valid
/// all-digit 20-character string, a shape reserved for document numbers.
pub open spec fn surviving_token(s: Seq<char>) -> bool {
    !(s.len() == 20 && forall|j: int| 0 <= j < s.len() ==> is_digit_char(s[j]))
}

/// All surviving tax-id tokens from position `i` on, in order of appearance.
pub open spec fn valid_tax_tokens_from(t: Seq<char>, i: int) -> Seq<Seq<char>>
    decreases t.len() - i,
{
    if i < 0 || i >= t.len() {
        Seq::empty()
    } else if tax_id_at(t, i) && surviving_token(t.subrange(i, i + 18)) {
        seq![t.subrange(i, i + 18)] + valid_tax_tokens_from(t, i + 1)
    } else {
        valid_tax_tokens_from(t, i + 1)
    }
}

/// The ordered list of surviving tax-id tokens of the whole text.
pub open spec fn spec_valid_taxes(t: Seq<char>) -> Seq<Seq<char>> {
    valid_tax_tokens_from(t, 0)
}

/// The buyer tax identifier: the first surviving token, or empty.
pub open spec fn spec_buyer_tax(t: Seq<char>) -> Seq<char> {
    if spec_valid_taxes(t).len() >= 1 {
        spec_valid_taxes(t)[0]
    } else {
        Seq::empty()
    }
}

/// The seller tax identifier: the second surviving token, or empty.
pub open spec fn spec_seller_tax(t: Seq<char>) -> Seq<char> {
    if spec_valid_taxes(t).len() >= 2 {
        spec_valid_taxes(t)[1]
    } else {
        Seq::empty()
    }
}

fn tax_match(t: &Vec<char>, i: usize) -> (r: bool)
    requires
        i < t@.len(),
    ensures
        r == tax_id_at(t@, i as int),
{
    let n = t.len();
    if n - i < 18 {
        return false;
    }
    if i > 0 && word_char(t[i - 1]) {
        return false;
    }
    if i + 18 < n && word_char(t[i + 18]) {
        return false;
    }
    let mut j: usize = i;
    while j - i < 18
        invariant
            i + 18 <= t@.len(),
            t@.len() == n,
            i <= j <= i + 18,
            forall|k: int| i <= k < j ==> is_tax_char(t@[k]),
        decreases i + 18 - j,
    {
        if !tax_char(t[j]) {
            return false;
        }
        j += 1;
    }
    true
}

fn token_survives(s: &Vec<char>) -> (r: bool)
    ensures
        r == surviving_token(s@),
{
    if s.len() != 20 {
        return true;
    }
    let mut j: usize = 0;
    while j < s.len()
        invariant
            0 <= j <= s@.len(),
            forall|k: int| 0 <= k < j ==> is_digit_char(s@[k]),
        decreases s@.len() - j,
    {
        if !digit_char(s[j]) {
            return true;
        }
        j += 1;
    }
    false
}

/// All surviving tax-id tokens of the text, in order of appearance.
pub fn collect_tax_tokens(t: &Vec<char>) -> (r: Vec<Vec<char>>)
    ensures
        r.deep_view() == spec_valid_taxes(t@),
{
    let n = t.len();
    let mut r: Vec<Vec<char>> = Vec::new();
    let mut i: usize = 0;
    while i < n
        invariant
            n == t@.len(),
            0 <= i <= n,
            valid_tax_tokens_from(t@, 0) == r.deep_view() + valid_tax_tokens_from(t@, i as int),
        decreases n - i,
    {
        if tax_match(t, i) {
            let tok = copy_range(t, i, i + 18);
            if token_survives(&tok) {
                let ghost old_deep = r.deep_view();
                r.push(tok);
                proof {
                    assert(r.deep_view() =~~= old_deep + seq![t@.subrange(i as int, i + 18)]);
                    assert(valid_tax_tokens_from(t@, 0) =~= r.deep_view()
                        + valid_tax_tokens_from(t@, i + 1));
                }
            }
        }
        i += 1;
    }
    proof {
        assert(valid_tax_tokens_from(t@, n as int) =~= Seq::<Seq<char>>::empty());
        assert(r.deep_view() =~= valid_tax_tokens_from(t@, 0));
    }
    r
}

/// For text holding exactly one word-bounded 20-digit run, the document
/// number is that run.
pub proof fn lemma_document_number_unique(t: Seq<char>, i: int)
    requires
        doc_number_at(t, i),
        forall|j: int| j != i ==> !doc_number_at(t, j),
    ensures
        spec_document_number(t) == t.subrange(i, i + 20),
{
    lemma_first_from_is(|k: int| doc_number_at(t, k), 0, t.len() as int, i);
}

/// For text with no word-bounded 20-digit run, the document number is
/// absent.
pub proof fn lemma_document_number_absent(t: Seq<char>)
    requires
        forall|j: int| !doc_number_at(t, j),
    ensures
        spec_document_number(t) == Seq::<char>::empty(),
{
    lemma_first_from_none(|k: int| doc_number_at(t, k), 0, t.len() as int);
}

/// A document number is empty or exactly twenty digits.
pub proof fn lemma_document_number_shape(t: Seq<char>)
    ensures
        ({
            let d = spec_document_number(t);
            d.len() == 0 || (d.len() == 20 && forall|j: int|
                0 <= j < d.len() ==> is_digit_char(#[trigger] d[j]))
        }),
{
    lemma_first_from(|k: int| doc_number_at(t, k), 0, t.len() as int);
    match first_from(|k: int| doc_number_at(t, k), 0, t.len() as int) {
        Some(i) => {
            let d = t.subrange(i, i + 20);
            assert(doc_number_at(t, i));
            assert forall|j: int| 0 <= j < d.len() implies is_digit_char(#[trigger] d[j]) by {
                assert(d[j] == t[i + j]);
            }
        },
        None => {},
    }
}

/// An issue date is empty or has the canonical ten-character form with
/// hyphens after the year and the month.
pub proof fn lemma_issue_date_shape(t: Seq<char>)
    ensures
        ({
            let d = spec_issue_date(t);
            d.len() == 0 || (d.len() == 10 && d[4] == '-' && d[7] == '-')
        }),
{
    lemma_first_from(|k: int| date_at(t, k), 0, t.len() as int);
}

/// An item summary never exceeds thirty characters.
pub proof fn lemma_item_summary_len(t: Seq<char>)
    ensures
        spec_item_summary(t).len() <= 30,
{
    lemma_first_from(|k: int| item_marker_at(t, k), 0, t.len() as int);
    match first_from(|k: int| item_marker_at(t, k), 0, t.len() as int) {
        Some(i) => {
            assert(item_marker_at(t, i));
            let e = choose|e: int| item_marker_closed_at(t, i, e);
            assert(item_marker_closed_at(t, i, e));
        },
        None => {},
    }
}

/// The shape of a tax identifier: eighteen characters, each a digit or an
/// upper-case letter.
pub open spec fn tax_token_shape(s: Seq<char>) -> bool {
    s.len() == 18 && forall|c: int| 0 <= c < s.len() ==> is_tax_char(#[trigger] s[c])
}

/// Every surviving tax-id token has the tax-identifier shape.
pub proof fn lemma_tax_tokens_shape(t: Seq<char>, k: int)
    ensures
        forall|j: int|
            0 <= j < valid_tax_tokens_from(t, k).len() ==> tax_token_shape(
                #[trigger] valid_tax_tokens_from(t, k)[j],
            ),
    decreases t.len() - k,
{
    if k < 0 || k >= t.len() {
    } else {
        lemma_tax_tokens_shape(t, k + 1);
        if tax_id_at(t, k) && surviving_token(t.subrange(k, k + 18)) {
            let tok = t.subrange(k, k + 18);
            assert(tax_token_shape(tok)) by {
                assert forall|c: int| 0 <= c < tok.len() implies is_tax_char(
                    #[trigger] tok[c],
                ) by {
                    assert(tok[c] == t[k + c]);
                }
            }
            assert forall|j: int| 0 <= j < valid_tax_tokens_from(t, k).len() implies tax_token_shape(
                #[trigger] valid_tax_tokens_from(t, k)[j],
            ) by {
                if j == 0 {
                    assert(valid_tax_tokens_from(t, k)[0] == tok);
                } else {
                    assert(valid_tax_tokens_from(t, k)[j] == valid_tax_tokens_from(t, k + 1)[j
                        - 1]);
                }
            }
        } else {
            assert forall|j: int| 0 <= j < valid_tax_tokens_from(t, k).len() implies tax_token_shape(
                #[trigger] valid_tax_tokens_from(t, k)[j],
            ) by {
                assert(valid_tax_tokens_from(t, k)[j] == valid_tax_tokens_from(t, k + 1)[j]);
            }
        }
    }
}

/// The buyer and seller tax identifiers are empty or eighteen characters
/// drawn from the tax alphabet.
pub proof fn lemma_tax_id_shape(t: Seq<char>)
    ensures
        spec_buyer_tax(t).len() == 0 || tax_token_shape(spec_buyer_tax(t)),
        spec_seller_tax(t).len() == 0 || tax_token_shape(spec_seller_tax(t)),
{
    lemma_tax_tokens_shape(t, 0);
}

/// A word-bounded 20-digit run contributes nothing to tax-id extraction:
/// no tax-id token lies within it, because every candidate position has a
/// digit as a word-character neighbour.
pub proof fn lemma_no_tax_inside_number_run(t: Seq<char>, i: int, j: int)
    requires
        doc_number_at(t, i),
        i <= j,
        j + 18 <= i + 20,
    ensures
        !tax_id_at(t, j),
{
    if tax_id_at(t, j) {
        if j == i {
            assert(is_digit_char(t[j + 18]));
        } else {
            assert(is_digit_char(t[j - 1]));
        }
    }
}

/// With tax-id tokens at exactly two positions, the earlier one becomes
/// the buyer tax identifier and the later one the seller tax identifier.
pub proof fn lemma_two_tax_tokens(t: Seq<char>, i1: int, i2: int)
    requires
        i1 < i2,
        tax_id_at(t, i1),
        tax_id_at(t, i2),
        surviving_token(t.subrange(i1, i1 + 18)),
        surviving_token(t.subrange(i2, i2 + 18)),
        forall|j: int| j != i1 && j != i2 ==> !tax_id_at(t, j),
    ensures
        spec_buyer_tax(t) == t.subrange(i1, i1 + 18),
        spec_seller_tax(t) == t.subrange(i2, i2 + 18),
{
    lemma_tax_tokens_from_two(t, i1, i2, 0);
}

proof fn lemma_tax_tokens_from_two(t: Seq<char>, i1: int, i2: int, k: int)
    requires
        0 <= k,
        i1 < i2,
        tax_id_at(t, i1),
        tax_id_at(t, i2),
        surviving_token(t.subrange(i1, i1 + 18)),
        surviving_token(t.subrange(i2, i2 + 18)),
        forall|j: int| j != i1 && j != i2 ==> !tax_id_at(t, j),
    ensures
        valid_tax_tokens_from(t, k) == if k <= i1 {
            seq![t.subrange(i1, i1 + 18), t.subrange(i2, i2 + 18)]
        } else if k <= i2 {
            seq![t.subrange(i2, i2 + 18)]
        } else {
            Seq::<Seq<char>>::empty()
        },
    decreases t.len() - k,
{
    if k >= t.len() {
        assert(k > i2) by {
            assert(i2 + 18 <= t.len());
        }
    } else {
        lemma_tax_tokens_from_two(t, i1, i2, k + 1);
        if k == i1 {
            assert(valid_tax_tokens_from(t, k) =~= seq![
                t.subrange(i1, i1 + 18),
                t.subrange(i2, i2 + 18),
            ]);
        } else if k == i2 {
            assert(valid_tax_tokens_from(t, k) =~= seq![t.subrange(i2, i2 + 18)]);
        }
    }
}

fn two_dt(t: &Vec<char>, p: usize, m: char) -> (r: bool)
    ensures
        r == two_digits_then(t@, p as int, m),
{
    let n = t.len();
    p < n && n - p > 2 && digit_char(t[p]) && digit_char(t[p + 1]) && t[p + 2] == m
}

fn one_dt(t: &Vec<char>, p: usize, m: char) -> (r: bool)
    ensures
        r == one_digit_then(t@, p as int, m),
{
    let n = t.len();
    p < n && n - p > 1 && digit_char(t[p]) && t[p + 1] == m
}

fn day_match(t: &Vec<char>, p: usize) -> (r: bool)
    ensures
        r == crate::patterns::day_part_at(t@, p as int),
{
    two_dt(t, p, '日') || one_dt(t, p, '日')
}

fn month_day_match(t: &Vec<char>, p: usize) -> (r: bool)
    ensures
        r == crate::patterns::month_day_at(t@, p as int),
{
    let n = t.len();
    if two_dt(t, p, '月') {
        assert(p + 2 < n);
        day_match(t, p + 3)
    } else if one_dt(t, p, '月') {
        assert(p + 1 < n);
        day_match(t, p + 2)
    } else {
        false
    }
}

fn date_match(t: &Vec<char>, i: usize) -> (r: bool)
    requires
        i < t@.len(),
    ensures
        r == date_at(t@, i as int),
{
    let n = t.len();
    if n - i < 5 {
        return false;
    }
    if t[i + 4] != '年' {
        return false;
    }
    let mut j: usize = i;
    while j - i < 4
        invariant
            i + 4 < t@.len(),
            t@.len() == n,
            i <= j <= i + 4,
            forall|k: int| i <= k < j ==> is_digit_char(t@[k]),
        decreases i + 4 - j,
    {
        if !digit_char(t[j]) {
            return false;
        }
        j += 1;
    }
    month_day_match(t, i + 5)
}

/// The issue date in canonical `YYYY-MM-DD` form, from the first date token,
/// or empty when the text holds no date token.
pub open spec fn spec_issue_date(t: Seq<char>) -> Seq<char> {
    match first_from(|i: int| date_at(t, i), 0, t.len() as int) {
        Some(i) => formatted_date(t, i),
        None => Seq::empty(),
    }
}

fn dval(c: char) -> (r: u32)
    requires
        is_digit_char(c),
    ensures
        r as int == digit_val(c),
{
    c as u32 - 48
}

fn digit_to_ch(v: u32) -> (r: char)
    requires
        v <= 9,
    ensures
        r == char_of_digit(v as int),
{
    ((v + 48) as u8) as char
}

fn push_pad2(out: &mut Vec<char>, v: u32)
    requires
        v <= 99,
    ensures
        final (out)@ == old(out)@ + pad2(v as int),
{
    let d1 = v / 10;
    let d2 = v % 10;
    let c1 = digit_to_ch(d1);
    let c2 = digit_to_ch(d2);
    out.push(c1);
    out.push(c2);
    proof {
        assert(out@ =~= old(out)@ + pad2(v as int));
    }
}

pub fn extract_issue_date(t: &Vec<char>) -> (r: Vec<char>)
    ensures
        r@ == spec_issue_date(t@),
{
    let n = t.len();
    let mut i: usize = 0;
    while i < n
        invariant
            n == t@.len(),
            0 <= i <= n,
            forall|j: int| 0 <= j < i ==> !date_at(t@, j),
        decreases n - i,
    {
        if date_match(t, i) {
            proof {
                lemma_first_from_is(|k: int| date_at(t@, k), 0, n as int, i as int);
            }
            let mut out = copy_range(t, i, i + 4);
            out.push('-');
            let two_month = two_dt(t, i + 5, '月');
            let mv: u32 = if two_month {
                10 * dval(t[i + 5]) + dval(t[i + 6])
            } else {
                dval(t[i + 5])
            };
            let dpos: usize = if two_month {
                i + 8
            } else {
                i + 7
            };
            push_pad2(&mut out, mv);
            out.push('-');
            let dv: u32 = if two_dt(t, dpos, '日') {
                10 * dval(t[dpos]) + dval(t[dpos + 1])
            } else {
                dval(t[dpos])
            };
            push_pad2(&mut out, dv);
            proof {
                assert(dpos as int == crate::patterns::date_day_pos(t@, i as int));
                assert(mv as int == date_month_val(t@, i as int));
                assert(dv as int == date_day_val(t@, i as int));
                assert(out@ =~= formatted_date(t@, i as int));
            }
            return out;
        }
        i += 1;
    }
    proof {
        lemma_first_from_none(|k: int| date_at(t@, k), 0, n as int);
    }
    Vec::new()
}

/// A marker opened at `i` has exactly one closing asterisk.
pub proof fn lemma_item_close_unique(t: Seq<char>, i: int, e1: int, e2: int)
    requires
        item_marker_closed_at(t, i, e1),
        item_marker_closed_at(t, i, e2),
    ensures
        e1 == e2,
{
    if e1 < e2 {
        assert(t[e1] == '*');
    } else if e2 < e1 {
        assert(t[e2] == '*');
    }
}

/// The item summary: the first asterisk-delimited marker, kept with its
/// asterisks and truncated to at most 30 characters; empty when there is
/// no marker.
pub open spec fn spec_item_summary(t: Seq<char>) -> Seq<char> {
    match first_from(|i: int| item_marker_at(t, i), 0, t.len() as int) {
        Some(i) => {
            let e = choose|e: int| item_marker_closed_at(t, i, e);
            if e + 1 - i <= 30 {
                t.subrange(i, e + 1)
            } else {
                t.subrange(i, i + 30)
            }
        },
        None => Seq::empty(),
    }
}

pub(crate) fn item_close(t: &Vec<char>, i: usize) -> (r: Option<usize>)
    requires
        i < t@.len(),
    ensures
        match r {
            Some(e) => item_marker_closed_at(t@, i as int, e as int),
            None => !item_marker_at(t@, i as int),
        },
{
    let n = t.len();
    if t[i] != '*' {
        return None;
    }
    let mut e: usize = i + 1;
    while e < n
        invariant
            n == t@.len(),
            i < e <= n,
            t@[i as int] == '*',
            forall|j: int| i < j < e ==> t@[j] != '*',
        decreases n - e,
    {
        if t[e] == '*' {
            if e - i >= 2 {
                return Some(e);
            }
            proof {
                assert forall|e2: int| !item_marker_closed_at(t@, i as int, e2) by {
                    if item_marker_closed_at(t@, i as int, e2) {
                        assert(t@[i + 1] != '*');
                    }
                }
            }
            return None;
        }
        e += 1;
    }
    None
}

pub fn extract_item_summary(t: &Vec<char>) -> (r: Vec<char>)
    ensures
        r@ == spec_item_summary(t@),
{
    let n = t.len();
    let mut i: usize = 0;
    while i < n
        invariant
            n == t@.len(),
            0 <= i <= n,
            forall|j: int| 0 <= j < i ==> !item_marker_at(t@, j),
        decreases n - i,
    {
        match item_close(t, i) {
            Some(e) => {
                proof {
                    assert(item_marker_at(t@, i as int));
                    lemma_first_from_is(|k: int| item_marker_at(t@, k), 0, n as int, i as int);
                    let e0 = choose|e0: int| item_marker_closed_at(t@, i as int, e0);
                    lemma_item_close_unique(t@, i as int, e0, e as int);
                }
                let end: usize = if e + 1 - i <= 30 {
                    e + 1
                } else {
                    i + 30
                };
                return copy_range(t, i, end);
            },
            None => {},
        }
        i += 1;
    }
    proof {
        lemma_first_from_none(|k: int| item_marker_at(t@, k), 0, n as int);
    }
    Vec::new()
}

} // verus!
