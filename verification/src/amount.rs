//! Monetary amounts: the shape of a currency numeral, its exact decimal
//! value model, and the resolution of the document total from competing
//! heuristics.

use vstd::prelude::*;

use crate::patterns::digit_val;
use crate::patterns::first_from;
use crate::patterns::lemma_first_from_is;
use crate::patterns::lemma_first_from_none;
use crate::text::copy_range;
use crate::text::digit_char;
use crate::text::is_digit_char;
use crate::text::is_space_char;
use crate::text::matches_at;
use crate::text::space_char;

verus! {

/// A character of the integral part of a numeral: a digit or a thousands
/// separator.
pub open spec fn is_num_char(c: char) -> bool {
    is_digit_char(c) || c == ','
}

fn num_char(c: char) -> (r: bool)
    ensures
        r == is_num_char(c),
{
    digit_char(c) || c == ','
}

/// First position at or after `p` that is not white space, or the end.
pub open spec fn skip_spaces(t: Seq<char>, p: int) -> int {
    match first_from(|j: int| 0 <= j < t.len() && !is_space_char(t[j]), p, t.len() as int) {
        Some(j) => j,
        None => t.len() as int,
    }
}

/// First position at or after `p` that is not a digit, or the end.
pub open spec fn digit_run_end(t: Seq<char>, p: int) -> int {
    match first_from(|j: int| 0 <= j < t.len() && !is_digit_char(t[j]), p, t.len() as int) {
        Some(j) => j,
        None => t.len() as int,
    }
}

/// First position at or after `p` that is neither digit nor separator.
pub open spec fn num_run_end(t: Seq<char>, p: int) -> int {
    match first_from(|j: int| 0 <= j < t.len() && !is_num_char(t[j]), p, t.len() as int) {
        Some(j) => j,
        None => t.len() as int,
    }
}

/// End of the numeral starting at `p`: the run of digits and separators,
/// then, if a decimal point follows it, the point and the digits after it.
pub open spec fn numeral_end(t: Seq<char>, p: int) -> int {
    let k = num_run_end(t, p);
    if k < t.len() && t[k] == '.' {
        digit_run_end(t, k + 1)
    } else {
        k
    }
}

fn skip_spaces_exec(t: &Vec<char>, p: usize) -> (r: usize)
    requires
        p <= t@.len(),
    ensures
        p <= r <= t@.len(),
        r as int == skip_spaces(t@, p as int),
        r < t@.len() ==> !is_space_char(t@[r as int]),
{
    let n = t.len();
    let mut j: usize = p;
    while j < n && space_char(t[j])
        invariant
            n == t@.len(),
            p <= j <= n,
            forall|k: int| p <= k < j ==> is_space_char(t@[k]),
        decreases n - j,
    {
        j += 1;
    }
    if j < n {
        proof {
            lemma_first_from_is(
                |k: int| 0 <= k < t@.len() && !is_space_char(t@[k]),
                p as int,
                t@.len() as int,
                j as int,
            );
        }
    } else {
        proof {
            lemma_first_from_none(
                |k: int| 0 <= k < t@.len() && !is_space_char(t@[k]),
                p as int,
                t@.len() as int,
            );
        }
    }
    j
}

pub(crate) fn digit_run_end_exec(t: &Vec<char>, p: usize) -> (r: usize)
    requires
        p <= t@.len(),
    ensures
        p <= r <= t@.len(),
        r as int == digit_run_end(t@, p as int),
        forall|k: int| p <= k < r ==> is_digit_char(t@[k]),
{
    let n = t.len();
    let mut j: usize = p;
    while j < n && digit_char(t[j])
        invariant
            n == t@.len(),
            p <= j <= n,
            forall|k: int| p <= k < j ==> is_digit_char(t@[k]),
        decreases n - j,
    {
        j += 1;
    }
    if j < n {
        proof {
            lemma_first_from_is(
                |k: int| 0 <= k < t@.len() && !is_digit_char(t@[k]),
                p as int,
                t@.len() as int,
                j as int,
            );
        }
    } else {
        proof {
            lemma_first_from_none(
                |k: int| 0 <= k < t@.len() && !is_digit_char(t@[k]),
                p as int,
                t@.len() as int,
            );
        }
    }
    j
}

fn num_run_end_exec(t: &Vec<char>, p: usize) -> (r: usize)
    requires
        p <= t@.len(),
    ensures
        p <= r <= t@.len(),
        r as int == num_run_end(t@, p as int),
        forall|k: int| p <= k < r ==> is_num_char(t@[k]),
{
    let n = t.len();
    let mut j: usize = p;
    while j < n && num_char(t[j])
        invariant
            n == t@.len(),
            p <= j <= n,
            forall|k: int| p <= k < j ==> is_num_char(t@[k]),
        decreases n - j,
    {
        j += 1;
    }
    if j < n {
        proof {
            lemma_first_from_is(
                |k: int| 0 <= k < t@.len() && !is_num_char(t@[k]),
                p as int,
                t@.len() as int,
                j as int,
            );
        }
    } else {
        proof {
            lemma_first_from_none(
                |k: int| 0 <= k < t@.len() && !is_num_char(t@[k]),
                p as int,
                t@.len() as int,
            );
        }
    }
    j
}

fn numeral_end_exec(t: &Vec<char>, p: usize) -> (r: usize)
    requires
        p <= t@.len(),
    ensures
        p <= r <= t@.len(),
        r as int == numeral_end(t@, p as int),
        forall|k: int| p <= k < r ==> is_num_char(t@[k]) || t@[k] == '.',
{
    let n = t.len();
    let k = num_run_end_exec(t, p);
    if k < n && t[k] == '.' {
        digit_run_end_exec(t, k + 1)
    } else {
        k
    }
}

/// `s` with every thousands separator removed.
pub open spec fn strip_commas(s: Seq<char>) -> Seq<char>
    decreases s.len(),
{
    if s.len() == 0 {
        Seq::empty()
    } else {
        let p = strip_commas(s.drop_last());
        if s.last() == ',' {
            p
        } else {
            p.push(s.last())
        }
    }
}

pub fn strip_commas_exec(s: &Vec<char>) -> (r: Vec<char>)
    ensures
        r@ == strip_commas(s@),
{
    let n = s.len();
    let mut r: Vec<char> = Vec::new();
    let mut i: usize = 0;
    while i < n
        invariant
            n == s@.len(),
            0 <= i <= n,
            r@ == strip_commas(s@.take(i as int)),
        decreases n - i,
    {
        let c = s[i];
        proof {
            assert(s@.take(i + 1 as int).drop_last() =~= s@.take(i as int));
        }
        if c != ',' {
            r.push(c);
        }
        i += 1;
    }
    proof {
        assert(s@.take(n as int) =~= s@);
    }
    r
}

/// Position of the decimal point of a cleaned numeral, if any.
pub open spec fn point_pos(s: Seq<char>) -> Option<int> {
    first_from(|i: int| 0 <= i < s.len() && s[i] == '.', 0, s.len() as int)
}

/// The digits before the decimal point.
pub open spec fn int_part(s: Seq<char>) -> Seq<char> {
    match point_pos(s) {
        Some(i) => s.subrange(0, i),
        None => s,
    }
}

/// The digits after the decimal point.
pub open spec fn frac_part(s: Seq<char>) -> Seq<char> {
    match point_pos(s) {
        Some(i) => s.subrange(i + 1, s.len() as int),
        None => Seq::empty(),
    }
}

/// Value contributed by one character: its digit value, or nothing.
pub open spec fn digit_val0(c: char) -> int {
    if is_digit_char(c) {
        digit_val(c)
    } else {
        0
    }
}

/// Numeric value of a digit string.
pub open spec fn digits_value(s: Seq<char>) -> int
    decreases s.len(),
{
    if s.len() == 0 {
        0
    } else {
        10 * digits_value(s.drop_last()) + digit_val0(s.last())
    }
}

/// Powers of ten.
pub open spec fn pow10(n: nat) -> int
    decreases n,
{
    if n == 0 {
        1
    } else {
        10 * pow10((n - 1) as nat)
    }
}

pub proof fn lemma_digits_value_bound(s: Seq<char>)
    ensures
        0 <= digits_value(s) < pow10(s.len()),
    decreases s.len(),
{
    if s.len() > 0 {
        lemma_digits_value_bound(s.drop_last());
        assert(digit_val0(s.last()) <= 9);
    }
}

pub proof fn lemma_pow10_monotonic(m: nat, n: nat)
    requires
        m <= n,
    ensures
        pow10(m) <= pow10(n),
    decreases n,
{
    if m < n {
        lemma_pow10_monotonic(m, (n - 1) as nat);
        assert(pow10((n - 1) as nat) >= 1) by {
            lemma_pow10_positive((n - 1) as nat);
        }
    }
}

pub proof fn lemma_pow10_positive(n: nat)
    ensures
        pow10(n) >= 1,
    decreases n,
{
    if n > 0 {
        lemma_pow10_positive((n - 1) as nat);
    }
}

/// Front decomposition: the first character carries a full power of ten.
pub proof fn lemma_digits_value_front(s: Seq<char>)
    requires
        s.len() > 0,
    ensures
        digits_value(s) == digit_val0(s[0]) * pow10((s.len() - 1) as nat) + digits_value(
            s.drop_first(),
        ),
    decreases s.len(),
{
    if s.len() == 1 {
        assert(s.drop_last() =~= Seq::<char>::empty());
        assert(s.drop_first() =~= Seq::<char>::empty());
    } else {
        let d = s.drop_last();
        lemma_digits_value_front(d);
        assert(d.drop_first() =~= s.drop_first().drop_last());
        assert(s.drop_first().last() == s.last());
        let p = pow10((d.len() - 1) as nat);
        assert(10 * (digit_val0(s[0]) * p) == digit_val0(s[0]) * (10 * p)) by (nonlinear_arith);
    }
}

/// A digit string starting with a nonzero digit is at least its leading
/// power of ten.
pub proof fn lemma_digits_value_lower(s: Seq<char>)
    requires
        s.len() > 0,
        is_digit_char(s[0]),
        s[0] != '0',
    ensures
        digits_value(s) >= pow10((s.len() - 1) as nat),
{
    lemma_digits_value_front(s);
    lemma_digits_value_bound(s.drop_first());
    assert(digit_val0(s[0]) >= 1);
    let p = pow10((s.len() - 1) as nat);
    lemma_pow10_positive((s.len() - 1) as nat);
    assert(digit_val0(s[0]) * p >= 1 * p) by (nonlinear_arith)
        requires
            digit_val0(s[0]) >= 1,
            p >= 0,
    ;
}

/// Leading zeros do not change the value.
pub proof fn lemma_digits_strip_zeros(s: Seq<char>, k: int)
    requires
        0 <= k <= s.len(),
        forall|j: int| 0 <= j < k ==> s[j] == '0',
    ensures
        digits_value(s) == digits_value(s.subrange(k, s.len() as int)),
    decreases k,
{
    if k == 0 {
        assert(s.subrange(0, s.len() as int) =~= s);
    } else {
        lemma_digits_value_front(s);
        assert(digit_val0(s[0]) == 0);
        assert(digit_val0(s[0]) * pow10((s.len() - 1) as nat) == 0) by (nonlinear_arith)
            requires
                digit_val0(s[0]) == 0,
        ;
        lemma_digits_strip_zeros(s.drop_first(), k - 1);
        assert(s.drop_first().subrange(k - 1, s.drop_first().len() as int) =~= s.subrange(
            k,
            s.len() as int,
        ));
    }
}

/// Two equal-length digit strings that first differ at position `k` compare
/// by that digit.
pub proof fn lemma_digits_cmp_at(a: Seq<char>, b: Seq<char>, k: int)
    requires
        a.len() == b.len(),
        0 <= k < a.len(),
        forall|j: int| 0 <= j < a.len() ==> is_digit_char(a[j]),
        forall|j: int| 0 <= j < b.len() ==> is_digit_char(b[j]),
        forall|j: int| 0 <= j < k ==> a[j] == b[j],
        a[k] != b[k],
    ensures
        (digits_value(a) < digits_value(b)) == (digit_val(a[k]) < digit_val(b[k])),
    decreases k,
{
    lemma_digits_value_front(a);
    lemma_digits_value_front(b);
    if k == 0 {
        lemma_digits_value_bound(a.drop_first());
        lemma_digits_value_bound(b.drop_first());
        let p = pow10((a.len() - 1) as nat);
        let da = digit_val0(a[0]);
        let db = digit_val0(b[0]);
        assert(da != db);
        if da < db {
            assert(da * p + pow10((a.len() - 1) as nat) <= db * p) by (nonlinear_arith)
                requires
                    da + 1 <= db,
                    p >= 0,
                    p == pow10((a.len() - 1) as nat),
            ;
        } else {
            assert(db * p + pow10((a.len() - 1) as nat) <= da * p) by (nonlinear_arith)
                requires
                    db + 1 <= da,
                    p >= 0,
                    p == pow10((a.len() - 1) as nat),
            ;
        }
    } else {
        lemma_digits_cmp_at(a.drop_first(), b.drop_first(), k - 1);
    }
}

/// `digits_value(a) < digits_value(b)`, decided without any bound on the
/// length of the digit strings.
pub fn digits_less(a: &Vec<char>, b: &Vec<char>) -> (r: bool)
    requires
        forall|j: int| 0 <= j < a@.len() ==> is_digit_char(a@[j]),
        forall|j: int| 0 <= j < b@.len() ==> is_digit_char(b@[j]),
    ensures
        r == (digits_value(a@) < digits_value(b@)),
{
    let na = a.len();
    let nb = b.len();
    // skip leading zeros
    let mut sa: usize = 0;
    while sa < na && a[sa] == '0'
        invariant
            na == a@.len(),
            0 <= sa <= na,
            forall|j: int| 0 <= j < sa ==> a@[j] == '0',
        decreases na - sa,
    {
        sa += 1;
    }
    let mut sb: usize = 0;
    while sb < nb && b[sb] == '0'
        invariant
            nb == b@.len(),
            0 <= sb <= nb,
            forall|j: int| 0 <= j < sb ==> b@[j] == '0',
        decreases nb - sb,
    {
        sb += 1;
    }
    let ta = copy_range(a, sa, na);
    let tb = copy_range(b, sb, nb);
    proof {
        lemma_digits_strip_zeros(a@, sa as int);
        lemma_digits_strip_zeros(b@, sb as int);
    }
    let la = na - sa;
    let lb = nb - sb;
    if la < lb {
        proof {
            lemma_digits_value_bound(ta@);
            lemma_digits_value_lower(tb@);
            lemma_pow10_monotonic(ta@.len(), (tb@.len() - 1) as nat);
        }
        return true;
    }
    if la > lb {
        proof {
            lemma_digits_value_bound(tb@);
            lemma_digits_value_lower(ta@);
            lemma_pow10_monotonic(tb@.len(), (ta@.len() - 1) as nat);
        }
        return false;
    }
    // equal stripped length: compare digit by digit
    let mut k: usize = 0;
    while k < la
        invariant
            la == ta@.len() == tb@.len(),
            ta@ == a@.subrange(sa as int, a@.len() as int),
            tb@ == b@.subrange(sb as int, b@.len() as int),
            sa + la == a@.len(),
            sb + la == b@.len(),
            digits_value(a@) == digits_value(ta@),
            digits_value(b@) == digits_value(tb@),
            forall|j: int| 0 <= j < a@.len() ==> is_digit_char(a@[j]),
            forall|j: int| 0 <= j < b@.len() ==> is_digit_char(b@[j]),
            0 <= k <= la,
            forall|j: int| 0 <= j < k ==> ta@[j] == tb@[j],
        decreases la - k,
    {
        let ca = ta[k];
        let cb = tb[k];
        if ca != cb {
            proof {
                lemma_digits_cmp_at(ta@, tb@, k as int);
            }
            return ca < cb;
        }
        k += 1;
    }
    proof {
        assert(ta@ =~= tb@);
    }
    false
}

/// `s` holds at least one digit, so it parses as a number.
pub open spec fn has_digit(s: Seq<char>) -> bool {
    exists|i: int| 0 <= i < s.len() && is_digit_char(s[i])
}

/// `s` holds a digit other than zero, so its value is positive.
pub open spec fn has_nonzero_digit(s: Seq<char>) -> bool {
    exists|i: int| 0 <= i < s.len() && is_digit_char(s[i]) && s[i] != '0'
}

/// Order on fraction digit strings, position by position; a missing digit
/// counts as zero.
pub open spec fn frac_lt(a: Seq<char>, b: Seq<char>) -> bool
    decreases a.len() + b.len(),
{
    if b.len() == 0 {
        false
    } else if a.len() == 0 {
        has_nonzero_digit(b)
    } else if digit_val0(a[0]) < digit_val0(b[0]) {
        true
    } else if digit_val0(a[0]) > digit_val0(b[0]) {
        false
    } else {
        frac_lt(a.drop_first(), b.drop_first())
    }
}

/// Exact decimal order on cleaned numerals: by the value of the integral
/// part, then by the fraction digits.
pub open spec fn dec_lt(a: Seq<char>, b: Seq<char>) -> bool {
    ||| digits_value(int_part(a)) < digits_value(int_part(b))
    ||| (digits_value(int_part(a)) == digits_value(int_part(b)) && frac_lt(
        frac_part(a),
        frac_part(b),
    ))
}

/// Every character is a digit or a decimal point: the shape of a numeral
/// after its separators are stripped.
pub open spec fn clean_numeral(s: Seq<char>) -> bool {
    forall|i: int| 0 <= i < s.len() ==> is_digit_char(s[i]) || s[i] == '.'
}

/// The shape of a raw captured numeral: digits, separators and points.
pub open spec fn numeral_shape(s: Seq<char>) -> bool {
    forall|i: int| 0 <= i < s.len() ==> is_num_char(s[i]) || s[i] == '.'
}

pub proof fn lemma_strip_clean(s: Seq<char>)
    requires
        numeral_shape(s),
    ensures
        clean_numeral(strip_commas(s)),
    decreases s.len(),
{
    if s.len() > 0 {
        assert(numeral_shape(s.drop_last()));
        lemma_strip_clean(s.drop_last());
    }
}

/// Where the decimal point of `s` stands, and that nothing before it is one.
pub proof fn lemma_point_pos_props(s: Seq<char>)
    ensures
        match point_pos(s) {
            Some(p) => 0 <= p < s.len() && s[p] == '.' && forall|j: int|
                0 <= j < p ==> s[j] != '.',
            None => forall|j: int| 0 <= j < s.len() ==> s[j] != '.',
        },
{
    let f = |i: int| 0 <= i < s.len() && s[i] == '.';
    crate::patterns::lemma_first_from(f, 0, s.len() as int);
    match point_pos(s) {
        Some(p) => {
            assert(f(p));
            assert forall|j: int| 0 <= j < p implies s[j] != '.' by {
                assert(!f(j));
            }
        },
        None => {
            assert forall|j: int| 0 <= j < s.len() implies s[j] != '.' by {
                assert(!f(j));
            }
        },
    }
}

pub proof fn lemma_int_part_digits(s: Seq<char>)
    requires
        clean_numeral(s),
    ensures
        forall|j: int| 0 <= j < int_part(s).len() ==> is_digit_char(int_part(s)[j]),
{
    lemma_point_pos_props(s);
    match point_pos(s) {
        Some(p) => {
            assert forall|j: int| 0 <= j < int_part(s).len() implies is_digit_char(
                int_part(s)[j],
            ) by {
                assert(int_part(s)[j] == s[j]);
            }
        },
        None => {
            assert forall|j: int| 0 <= j < int_part(s).len() implies is_digit_char(
                int_part(s)[j],
            ) by {
                assert(int_part(s)[j] == s[j]);
            }
        },
    }
}

fn has_nonzero_from(b: &Vec<char>, k: usize) -> (r: bool)
    requires
        k <= b@.len(),
    ensures
        r == has_nonzero_digit(b@.skip(k as int)),
{
    let n = b.len();
    let mut j: usize = k;
    while j < n
        invariant
            n == b@.len(),
            k <= j <= n,
            forall|m: int| k <= m < j ==> !(is_digit_char(b@[m]) && b@[m] != '0'),
        decreases n - j,
    {
        let c = b[j];
        if digit_char(c) && c != '0' {
            proof {
                assert(b@.skip(k as int)[j - k] == b@[j as int]);
            }
            return true;
        }
        j += 1;
    }
    proof {
        assert forall|m: int| !(0 <= m < b@.skip(k as int).len() && is_digit_char(
            b@.skip(k as int)[m],
        ) && b@.skip(k as int)[m] != '0') by {
            if 0 <= m < b@.skip(k as int).len() {
                assert(b@.skip(k as int)[m] == b@[k + m]);
            }
        }
    }
    false
}

fn dv0(c: char) -> (r: u32)
    ensures
        r as int == digit_val0(c),
{
    if digit_char(c) {
        c as u32 - 48
    } else {
        0
    }
}

fn frac_less(a: &Vec<char>, b: &Vec<char>) -> (r: bool)
    ensures
        r == frac_lt(a@, b@),
{
    let na = a.len();
    let nb = b.len();
    proof {
        assert(a@.skip(0) =~= a@);
        assert(b@.skip(0) =~= b@);
    }
    let mut k: usize = 0;
    loop
        invariant
            na == a@.len(),
            nb == b@.len(),
            0 <= k <= na,
            k <= nb,
            frac_lt(a@, b@) == frac_lt(a@.skip(k as int), b@.skip(k as int)),
        decreases na + nb - k,
    {
        if k >= nb {
            proof {
                assert(b@.skip(k as int).len() == 0);
            }
            return false;
        }
        if k >= na {
            proof {
                assert(a@.skip(k as int).len() == 0);
            }
            return has_nonzero_from(b, k);
        }
        let da = dv0(a[k]);
        let db = dv0(b[k]);
        proof {
            assert(a@.skip(k as int)[0] == a@[k as int]);
            assert(b@.skip(k as int)[0] == b@[k as int]);
            assert(a@.skip(k as int).drop_first() =~= a@.skip(k + 1));
            assert(b@.skip(k as int).drop_first() =~= b@.skip(k + 1));
        }
        if da < db {
            return true;
        }
        if da > db {
            return false;
        }
        k += 1;
    }
}

fn split_point(s: &Vec<char>) -> (r: (Vec<char>, Vec<char>))
    ensures
        r.0@ == int_part(s@),
        r.1@ == frac_part(s@),
{
    let n = s.len();
    let mut i: usize = 0;
    while i < n && s[i] != '.'
        invariant
            n == s@.len(),
            0 <= i <= n,
            forall|j: int| 0 <= j < i ==> s@[j] != '.',
        decreases n - i,
    {
        i += 1;
    }
    if i < n {
        proof {
            lemma_first_from_is(
                |j: int| 0 <= j < s@.len() && s@[j] == '.',
                0,
                s@.len() as int,
                i as int,
            );
        }
        let ip = copy_range(s, 0, i);
        let fp = copy_range(s, i + 1, n);
        (ip, fp)
    } else {
        proof {
            lemma_first_from_none(|j: int| 0 <= j < s@.len() && s@[j] == '.', 0, s@.len() as int);
        }
        let ip = crate::text::clone_chars(s);
        (ip, Vec::new())
    }
}

fn int_part_small(ia: &Vec<char>) -> (r: bool)
    requires
        forall|j: int| 0 <= j < ia@.len() ==> is_digit_char(ia@[j]),
    ensures
        r == (digits_value(ia@) < 10000000),
{
    let n = ia.len();
    let mut s0: usize = 0;
    while s0 < n && ia[s0] == '0'
        invariant
            n == ia@.len(),
            0 <= s0 <= n,
            forall|j: int| 0 <= j < s0 ==> ia@[j] == '0',
        decreases n - s0,
    {
        s0 += 1;
    }
    proof {
        reveal_with_fuel(pow10, 9);
        lemma_digits_strip_zeros(ia@, s0 as int);
        let st = ia@.subrange(s0 as int, n as int);
        if n - s0 <= 7 {
            lemma_digits_value_bound(st);
            lemma_pow10_monotonic(st.len(), 7);
        } else {
            lemma_digits_value_lower(st);
            lemma_pow10_monotonic(7, (st.len() - 1) as nat);
        }
    }
    n - s0 <= 7
}

/// A cleaned numeral names a valid amount: it parses (has a digit), its
/// value is positive, and it is below ten million.
pub open spec fn valid_amount(s: Seq<char>) -> bool {
    &&& has_digit(s)
    &&& has_nonzero_digit(s)
    &&& digits_value(int_part(s)) < 10000000
}

fn amount_valid(s: &Vec<char>) -> (r: bool)
    requires
        clean_numeral(s@),
    ensures
        r == valid_amount(s@),
{
    let n = s.len();
    let mut saw_digit = false;
    let mut saw_nonzero = false;
    let mut i: usize = 0;
    while i < n
        invariant
            n == s@.len(),
            0 <= i <= n,
            saw_digit == exists|j: int| 0 <= j < i && is_digit_char(s@[j]),
            saw_nonzero == exists|j: int| 0 <= j < i && is_digit_char(s@[j]) && s@[j] != '0',
        decreases n - i,
    {
        let c = s[i];
        if digit_char(c) {
            saw_digit = true;
            if c != '0' {
                saw_nonzero = true;
            }
        }
        i += 1;
    }
    if !saw_digit || !saw_nonzero {
        return false;
    }
    let (ip, _fp) = split_point(s);
    proof {
        lemma_int_part_digits(s@);
    }
    int_part_small(&ip)
}

fn dec_less(a: &Vec<char>, b: &Vec<char>) -> (r: bool)
    requires
        clean_numeral(a@),
        clean_numeral(b@),
    ensures
        r == dec_lt(a@, b@),
{
    let (ia, fa) = split_point(a);
    let (ib, fb) = split_point(b);
    proof {
        lemma_int_part_digits(a@);
        lemma_int_part_digits(b@);
    }
    if digits_less(&ia, &ib) {
        return true;
    }
    if digits_less(&ib, &ia) {
        return false;
    }
    frac_less(&fa, &fb)
}

/// A currency sign introduces an amount at `i` when a numeral character
/// follows it after optional white space.
pub open spec fn currency_at(t: Seq<char>, i: int) -> bool {
    &&& 0 <= i < t.len()
    &&& (t[i] == '¥' || t[i] == '￥')
    &&& {
        let j = skip_spaces(t, i + 1);
        j < t.len() && is_num_char(t[j])
    }
}

/// The numeral following the currency sign at `i`.
pub open spec fn currency_numeral(t: Seq<char>, i: int) -> Seq<char> {
    let j = skip_spaces(t, i + 1);
    t.subrange(j, numeral_end(t, j))
}

/// All currency-prefixed numerals from position `i` on, in order.
pub open spec fn currency_tokens_from(t: Seq<char>, i: int) -> Seq<Seq<char>>
    decreases t.len() - i,
{
    if i < 0 || i >= t.len() {
        Seq::empty()
    } else if currency_at(t, i) {
        seq![currency_numeral(t, i)] + currency_tokens_from(t, i + 1)
    } else {
        currency_tokens_from(t, i + 1)
    }
}

/// All currency-prefixed numerals of the text, in order of appearance.
pub open spec fn spec_currency_tokens(t: Seq<char>) -> Seq<Seq<char>> {
    currency_tokens_from(t, 0)
}

fn currency_match(t: &Vec<char>, i: usize) -> (r: Option<usize>)
    requires
        i < t@.len(),
    ensures
        match r {
            Some(j) => currency_at(t@, i as int) && j as int == skip_spaces(t@, i + 1)
                && j < t@.len(),
            None => !currency_at(t@, i as int),
        },
{
    let n = t.len();
    let c = t[i];
    if c != '¥' && c != '￥' {
        return None;
    }
    let j = skip_spaces_exec(t, i + 1);
    if j < n && num_char(t[j]) {
        Some(j)
    } else {
        None
    }
}

pub fn collect_currency_tokens(t: &Vec<char>) -> (r: Vec<Vec<char>>)
    ensures
        r.deep_view() == spec_currency_tokens(t@),
        forall|j: int|
            0 <= j < r.deep_view().len() ==> numeral_shape(#[trigger] r.deep_view()[j]),
{
    let n = t.len();
    let mut r: Vec<Vec<char>> = Vec::new();
    let mut i: usize = 0;
    while i < n
        invariant
            n == t@.len(),
            0 <= i <= n,
            currency_tokens_from(t@, 0) == r.deep_view() + currency_tokens_from(t@, i as int),
            forall|j: int|
                0 <= j < r.deep_view().len() ==> numeral_shape(#[trigger] r.deep_view()[j]),
        decreases n - i,
    {
        match currency_match(t, i) {
            Some(j) => {
                let end = numeral_end_exec(t, j);
                let tok = copy_range(t, j, end);
                let ghost old_deep = r.deep_view();
                r.push(tok);
                proof {
                    assert(numeral_shape(tok@));
                    assert(r.deep_view() =~~= old_deep + seq![currency_numeral(t@, i as int)]);
                    assert(currency_tokens_from(t@, 0) =~= r.deep_view() + currency_tokens_from(
                        t@,
                        i + 1,
                    ));
                }
            },
            None => {},
        }
        i += 1;
    }
    proof {
        assert(currency_tokens_from(t@, n as int) =~= Seq::<Seq<char>>::empty());
        assert(r.deep_view() =~= currency_tokens_from(t@, 0));
    }
    r
}

/// One step of the running-maximum fold: token `k` takes over when it is a
/// valid amount and the current best is absent or strictly smaller.  A tie
/// keeps the earlier token.
pub open spec fn best_step(toks: Seq<Seq<char>>, best: Option<int>, k: int) -> Option<int> {
    if !(0 <= k < toks.len()) || !valid_amount(strip_commas(toks[k])) {
        best
    } else {
        match best {
            None => Some(k),
            Some(b) => if 0 <= b < toks.len() && dec_lt(
                strip_commas(toks[b]),
                strip_commas(toks[k]),
            ) {
                Some(k)
            } else {
                best
            },
        }
    }
}

/// Index of the largest valid amount among the first `k` tokens, earliest
/// occurrence winning ties.
pub open spec fn best_index_upto(toks: Seq<Seq<char>>, k: int) -> Option<int>
    decreases k,
{
    if k <= 0 {
        None
    } else {
        best_step(toks, best_index_upto(toks, k - 1), k - 1)
    }
}

/// The best index is always in range and names a valid amount at least as
/// large as every other valid amount seen; when it is absent no token is a
/// valid amount.
/// A fraction order witness: the greater side holds a nonzero digit.
pub proof fn lemma_frac_lt_nonzero(a: Seq<char>, b: Seq<char>)
    requires
        frac_lt(a, b),
    ensures
        has_nonzero_digit(b),
    decreases a.len() + b.len(),
{
    if b.len() == 0 {
    } else if a.len() == 0 {
    } else if digit_val0(a[0]) < digit_val0(b[0]) {
        assert(is_digit_char(b[0]) && b[0] != '0');
    } else if digit_val0(a[0]) > digit_val0(b[0]) {
    } else {
        lemma_frac_lt_nonzero(a.drop_first(), b.drop_first());
        let j = choose|j: int|
            0 <= j < b.drop_first().len() && is_digit_char(b.drop_first()[j]) && b.drop_first()[j]
                != '0';
        assert(is_digit_char(b[j + 1]) && b[j + 1] != '0');
    }
}

/// The fraction order never relates a string to itself.
pub proof fn lemma_frac_lt_irrefl(a: Seq<char>)
    ensures
        !frac_lt(a, a),
    decreases a.len(),
{
    if a.len() > 0 {
        lemma_frac_lt_irrefl(a.drop_first());
    }
}

/// The fraction order is transitive.
pub proof fn lemma_frac_lt_trans(a: Seq<char>, b: Seq<char>, c: Seq<char>)
    requires
        frac_lt(a, b),
        frac_lt(b, c),
    ensures
        frac_lt(a, c),
    decreases a.len() + b.len() + c.len(),
{
    if a.len() == 0 {
        lemma_frac_lt_nonzero(b, c);
    } else if b.len() == 0 {
    } else if c.len() == 0 {
    } else {
        if digit_val0(a[0]) == digit_val0(b[0]) && digit_val0(b[0]) == digit_val0(c[0]) {
            lemma_frac_lt_trans(a.drop_first(), b.drop_first(), c.drop_first());
        }
    }
}

/// The decimal order never relates a numeral to itself.
pub proof fn lemma_dec_lt_irrefl(a: Seq<char>)
    ensures
        !dec_lt(a, a),
{
    lemma_frac_lt_irrefl(frac_part(a));
}

/// The decimal order is transitive.
pub proof fn lemma_dec_lt_trans(a: Seq<char>, b: Seq<char>, c: Seq<char>)
    requires
        dec_lt(a, b),
        dec_lt(b, c),
    ensures
        dec_lt(a, c),
{
    if digits_value(int_part(a)) == digits_value(int_part(b)) && digits_value(int_part(b))
        == digits_value(int_part(c)) {
        lemma_frac_lt_trans(frac_part(a), frac_part(b), frac_part(c));
    }
}

pub proof fn lemma_best_index(toks: Seq<Seq<char>>, k: int)
    requires
        k <= toks.len(),
    ensures
        match best_index_upto(toks, k) {
            Some(b) => 0 <= b < k && valid_amount(strip_commas(toks[b])) && forall|j: int|
                0 <= j < k && valid_amount(strip_commas(toks[j])) ==> !dec_lt(
                    strip_commas(toks[b]),
                    #[trigger] strip_commas(toks[j]),
                ),
            None => forall|j: int| 0 <= j < k ==> !valid_amount(#[trigger] strip_commas(toks[j])),
        },
    decreases k,
{
    if k > 0 {
        lemma_best_index(toks, k - 1);
        match best_index_upto(toks, k - 1) {
            None => {
                if valid_amount(strip_commas(toks[k - 1])) {
                    lemma_dec_lt_irrefl(strip_commas(toks[k - 1]));
                }
            },
            Some(b) => {
                if valid_amount(strip_commas(toks[k - 1])) && dec_lt(
                    strip_commas(toks[b]),
                    strip_commas(toks[k - 1]),
                ) {
                    lemma_dec_lt_irrefl(strip_commas(toks[k - 1]));
                    assert forall|j: int|
                        0 <= j < k && valid_amount(#[trigger] strip_commas(toks[j]))
                            implies !dec_lt(
                        strip_commas(toks[k - 1]),
                        strip_commas(toks[j]),
                    ) by {
                        if j < k - 1 && dec_lt(strip_commas(toks[k - 1]), strip_commas(toks[j])) {
                            lemma_dec_lt_trans(
                                strip_commas(toks[b]),
                                strip_commas(toks[k - 1]),
                                strip_commas(toks[j]),
                            );
                        }
                    }
                }
            },
        }
    }
}

/// The separator-stripped form of the largest valid currency amount, or
/// empty when no valid amount occurs.
pub open spec fn spec_best_amount(toks: Seq<Seq<char>>) -> Seq<char> {
    match best_index_upto(toks, toks.len() as int) {
        Some(b) => strip_commas(toks[b]),
        None => Seq::empty(),
    }
}

fn best_amount(toks: &Vec<Vec<char>>) -> (r: Vec<char>)
    requires
        forall|j: int|
            0 <= j < toks.deep_view().len() ==> numeral_shape(#[trigger] toks.deep_view()[j]),
    ensures
        r@ == spec_best_amount(toks.deep_view()),
{
    let ghost ts = toks.deep_view();
    let n = toks.len();
    proof {
        assert(ts.len() == n);
    }
    let mut best: Option<Vec<char>> = None;
    let ghost mut best_idx: Option<int> = None;
    let mut k: usize = 0;
    while k < n
        invariant
            n == toks@.len(),
            ts == toks.deep_view(),
            ts.len() == n,
            forall|j: int| 0 <= j < ts.len() ==> numeral_shape(#[trigger] ts[j]),
            0 <= k <= n,
            best_idx == best_index_upto(ts, k as int),
            match best {
                Some(s) => best_idx is Some && 0 <= best_idx.unwrap() < n && s@ == strip_commas(
                    ts[best_idx.unwrap()],
                ) && clean_numeral(s@),
                None => best_idx is None,
            },
        decreases n - k,
    {
        proof {
            assert(ts[k as int] == toks@[k as int]@);
        }
        let stripped = strip_commas_exec(&toks[k]);
        proof {
            lemma_strip_clean(ts[k as int]);
        }
        if amount_valid(&stripped) {
            let take_it = match &best {
                None => true,
                Some(bs) => dec_less(bs, &stripped),
            };
            if take_it {
                best = Some(stripped);
                proof {
                    best_idx = Some(k as int);
                }
            }
        }
        k += 1;
    }
    match best {
        Some(s) => s,
        None => Vec::new(),
    }
}

/// Position of the numeral that follows a rounded-total marker at `i`:
/// after the marker come optional white space, an optional currency sign
/// and optional white space again.
pub open spec fn rt_num_pos(t: Seq<char>, i: int) -> int {
    let j = skip_spaces(t, i + 2);
    if j < t.len() && (t[j] == '¥' || t[j] == '￥') {
        skip_spaces(t, j + 1)
    } else {
        j
    }
}

/// A rounded-total marker at `i`: the rounding keyword followed by a
/// numeral, with optional white space and currency sign between them.
pub open spec fn rounded_total_at(t: Seq<char>, i: int) -> bool {
    &&& matches_at(t, "圆整"@, i)
    &&& {
        let p = rt_num_pos(t, i);
        p < t.len() && is_num_char(t[p])
    }
}

/// The text holds a rounded-total marker somewhere.
pub open spec fn spec_has_rounded(t: Seq<char>) -> bool {
    exists|i: int| rounded_total_at(t, i)
}

/// The separator-stripped numeral of the first rounded-total marker.
pub open spec fn spec_rounded_amount(t: Seq<char>) -> Seq<char> {
    match first_from(|i: int| rounded_total_at(t, i), 0, t.len() as int) {
        Some(i) => {
            let p = rt_num_pos(t, i);
            strip_commas(t.subrange(p, numeral_end(t, p)))
        },
        None => Seq::empty(),
    }
}

/// The resolved amount of the text: the numeral of the first rounded-total
/// marker when one exists, otherwise the largest valid currency-prefixed
/// numeral; separators stripped either way, empty when neither applies.
pub open spec fn spec_amount(t: Seq<char>) -> Seq<char> {
    if spec_has_rounded(t) {
        spec_rounded_amount(t)
    } else {
        spec_best_amount(spec_currency_tokens(t))
    }
}

fn rounded_match(t: &Vec<char>, marker: &Vec<char>, i: usize) -> (r: Option<usize>)
    requires
        marker@ == "圆整"@,
        i < t@.len(),
    ensures
        match r {
            Some(p) => rounded_total_at(t@, i as int) && p as int == rt_num_pos(t@, i as int)
                && p < t@.len(),
            None => !rounded_total_at(t@, i as int),
        },
{
    proof {
        reveal_strlit("圆整");
    }
    let n = t.len();
    if n - i < 2 {
        return None;
    }
    if !crate::text::seq_matches_at(t, marker, i) {
        return None;
    }
    let j = skip_spaces_exec(t, i + 2);
    let p: usize = if j < n && (t[j] == '¥' || t[j] == '￥') {
        skip_spaces_exec(t, j + 1)
    } else {
        j
    };
    if p < n && num_char(t[p]) {
        Some(p)
    } else {
        None
    }
}

/// The amount of the document: rounded-total marker first, then the
/// largest currency-prefixed amount; empty when the text offers neither.
pub fn resolve_amount(t: &Vec<char>) -> (r: Vec<char>)
    ensures
        r@ == spec_amount(t@),
{
    let marker = crate::text::chars_vec("圆整");
    let n = t.len();
    let mut i: usize = 0;
    while i < n
        invariant
            n == t@.len(),
            marker@ == "圆整"@,
            0 <= i <= n,
            forall|j: int| 0 <= j < i ==> !rounded_total_at(t@, j),
        decreases n - i,
    {
        match rounded_match(t, &marker, i) {
            Some(p) => {
                proof {
                    lemma_first_from_is(|j: int| rounded_total_at(t@, j), 0, n as int, i as int);
                }
                let end = numeral_end_exec(t, p);
                let raw = copy_range(t, p, end);
                return strip_commas_exec(&raw);
            },
            None => {},
        }
        i += 1;
    }
    proof {
        lemma_first_from_none(|j: int| rounded_total_at(t@, j), 0, n as int);
        assert forall|j: int| !rounded_total_at(t@, j) by {
            if rounded_total_at(t@, j) {
                reveal_strlit("圆整");
                assert(0 <= j < n);
            }
        }
    }
    let toks = collect_currency_tokens(t);
    best_amount(&toks)
}

} // verus!
