//! The pattern library: the fixed keyword sets and the shapes of the tokens
//! that the extraction stages look for.  Everything is built once and shared
//! read-only by the stages.

use vstd::prelude::*;

use crate::text::chars_vec;
use crate::text::contains_seq;
use crate::text::contains_sub;

verus! {

/// Line-level boilerplate: a line holding any of these names a field header,
/// regulator boilerplate or a grand-total marker, never a business party.
pub open spec fn exclusion_keywords() -> Seq<Seq<char>> {
    seq![
        "项目"@,
        "规格"@,
        "单位"@,
        "数量"@,
        "单价"@,
        "金额"@,
        "税率"@,
        "税额"@,
        "合计"@,
        "备注"@,
        "开票人"@,
        "下载次数"@,
        "发票号码"@,
        "开票日期"@,
        "国家税务总局"@,
        "发票监制"@,
        "电子发票"@,
        "普通发票"@,
        "广东省税务局"@,
        "价税合计"@,
        "大写"@,
        "小写"@,
    ]
}

/// Business-entity suffixes: a candidate line must contain one of these.
pub open spec fn entity_keywords() -> Seq<Seq<char>> {
    seq![
        "有限公司"@,
        "股份有限公司"@,
        "科技"@,
        "网络"@,
        "文化"@,
        "婴童"@,
        "贸易"@,
        "酒店"@,
        "饭店"@,
        "娱乐"@,
        "百货"@,
        "商店"@,
        "餐饮店"@,
        "饮食店"@,
        "加油站"@,
        "石油化工"@,
        "商行"@,
        "电子商务商行"@,
    ]
}

/// Secondary keywords for the seller fallback that scans a window of text
/// around the seller tax identifier, tried in this priority order.
pub open spec fn context_keywords() -> Seq<Seq<char>> {
    seq![
        "店"@,
        "商行"@,
        "有限公司"@,
        "商贸"@,
        "科技"@,
        "贸易"@,
        "酒店"@,
        "饭店"@,
        "餐饮"@,
    ]
}

/// `t` contains at least one of the keywords.
pub open spec fn contains_any(t: Seq<char>, kws: Seq<Seq<char>>) -> bool {
    exists|k: int| 0 <= k < kws.len() && contains_seq(t, kws[k])
}

pub fn contains_any_kw(t: &Vec<char>, kws: &Vec<Vec<char>>) -> (r: bool)
    ensures
        r == contains_any(t@, kws.deep_view()),
{
    let mut k: usize = 0;
    while k < kws.len()
        invariant
            0 <= k <= kws@.len(),
            kws.deep_view().len() == kws@.len(),
            forall|j: int| 0 <= j < k ==> !contains_seq(t@, kws.deep_view()[j]),
        decreases kws@.len() - k,
    {
        assert(kws.deep_view()[k as int] == kws@[k as int]@);
        if contains_sub(t, &kws[k]) {
            return true;
        }
        k += 1;
    }
    false
}

/// The compiled pattern library: the keyword sets above as character vectors,
/// built once at pipeline start and passed by reference to every stage.
pub struct PatternLibrary {
    pub exclusion: Vec<Vec<char>>,
    pub entity: Vec<Vec<char>>,
    pub context: Vec<Vec<char>>,
}

impl PatternLibrary {
    /// The library holds exactly the fixed keyword sets.
    pub open spec fn wf(&self) -> bool {
        &&& self.exclusion.deep_view() == exclusion_keywords()
        &&& self.entity.deep_view() == entity_keywords()
        &&& self.context.deep_view() == context_keywords()
    }

    pub fn new() -> (r: Self)
        ensures
            r.wf(),
    {
        let mut exclusion: Vec<Vec<char>> = Vec::new();
        exclusion.push(chars_vec("项目"));
        exclusion.push(chars_vec("规格"));
        exclusion.push(chars_vec("单位"));
        exclusion.push(chars_vec("数量"));
        exclusion.push(chars_vec("单价"));
        exclusion.push(chars_vec("金额"));
        exclusion.push(chars_vec("税率"));
        exclusion.push(chars_vec("税额"));
        exclusion.push(chars_vec("合计"));
        exclusion.push(chars_vec("备注"));
        exclusion.push(chars_vec("开票人"));
        exclusion.push(chars_vec("下载次数"));
        exclusion.push(chars_vec("发票号码"));
        exclusion.push(chars_vec("开票日期"));
        exclusion.push(chars_vec("国家税务总局"));
        exclusion.push(chars_vec("发票监制"));
        exclusion.push(chars_vec("电子发票"));
        exclusion.push(chars_vec("普通发票"));
        exclusion.push(chars_vec("广东省税务局"));
        exclusion.push(chars_vec("价税合计"));
        exclusion.push(chars_vec("大写"));
        exclusion.push(chars_vec("小写"));
        let mut entity: Vec<Vec<char>> = Vec::new();
        entity.push(chars_vec("有限公司"));
        entity.push(chars_vec("股份有限公司"));
        entity.push(chars_vec("科技"));
        entity.push(chars_vec("网络"));
        entity.push(chars_vec("文化"));
        entity.push(chars_vec("婴童"));
        entity.push(chars_vec("贸易"));
        entity.push(chars_vec("酒店"));
        entity.push(chars_vec("饭店"));
        entity.push(chars_vec("娱乐"));
        entity.push(chars_vec("百货"));
        entity.push(chars_vec("商店"));
        entity.push(chars_vec("餐饮店"));
        entity.push(chars_vec("饮食店"));
        entity.push(chars_vec("加油站"));
        entity.push(chars_vec("石油化工"));
        entity.push(chars_vec("商行"));
        entity.push(chars_vec("电子商务商行"));
        let mut context: Vec<Vec<char>> = Vec::new();
        context.push(chars_vec("店"));
        context.push(chars_vec("商行"));
        context.push(chars_vec("有限公司"));
        context.push(chars_vec("商贸"));
        context.push(chars_vec("科技"));
        context.push(chars_vec("贸易"));
        context.push(chars_vec("酒店"));
        context.push(chars_vec("饭店"));
        context.push(chars_vec("餐饮"));
        let r = PatternLibrary { exclusion, entity, context };
        proof {
            assert(r.exclusion.deep_view() =~~= exclusion_keywords());
            assert(r.entity.deep_view() =~~= entity_keywords());
            assert(r.context.deep_view() =~~= context_keywords());
        }
        r
    }
}

/// The position of the first index in `[i, end)` satisfying `f`, if any.
pub open spec fn first_from(f: spec_fn(int) -> bool, i: int, end: int) -> Option<int>
    decreases end - i,
{
    if i >= end {
        None
    } else if f(i) {
        Some(i)
    } else {
        first_from(f, i + 1, end)
    }
}

/// The first index satisfying `f` is `k` when `f(k)` holds and no index
/// before `k` satisfies `f`.
pub proof fn lemma_first_from_is(f: spec_fn(int) -> bool, i: int, end: int, k: int)
    requires
        i <= k < end,
        f(k),
        forall|j: int| i <= j < k ==> !#[trigger] f(j),
    ensures
        first_from(f, i, end) == Some(k),
    decreases k - i,
{
    if i < k {
        lemma_first_from_is(f, i + 1, end, k);
    }
}

/// No index satisfies `f`, so there is no first one.
pub proof fn lemma_first_from_none(f: spec_fn(int) -> bool, i: int, end: int)
    requires
        forall|j: int| i <= j < end ==> !#[trigger] f(j),
    ensures
        first_from(f, i, end) is None,
    decreases end - i,
{
    if i < end {
        lemma_first_from_none(f, i + 1, end);
    }
}

pub proof fn lemma_first_from(f: spec_fn(int) -> bool, i: int, end: int)
    ensures
        match first_from(f, i, end) {
            Some(k) => i <= k < end && f(k) && forall|j: int| i <= j < k ==> !#[trigger] f(j),
            None => forall|j: int| i <= j < end ==> !#[trigger] f(j),
        },
    decreases end - i,
{
    if i >= end {
    } else if f(i) {
    } else {
        lemma_first_from(f, i + 1, end);
    }
}

/// A word-bounded run of exactly 20 digits starts at `i`: the twenty
/// characters from `i` are digits and the neighbours on both sides, where
/// they exist, are not word characters.
pub open spec fn doc_number_at(t: Seq<char>, i: int) -> bool {
    &&& 0 <= i
    &&& i + 20 <= t.len()
    &&& forall|j: int| i <= j < i + 20 ==> crate::text::is_digit_char(t[j])
    &&& i == 0 || !crate::text::is_word_char(t[i - 1])
    &&& i + 20 == t.len() || !crate::text::is_word_char(t[i + 20])
}

/// A word-bounded run of exactly 18 digits or upper-case letters starts at
/// `i`: the shape of a tax identifier.
pub open spec fn tax_id_at(t: Seq<char>, i: int) -> bool {
    &&& 0 <= i
    &&& i + 18 <= t.len()
    &&& forall|j: int| i <= j < i + 18 ==> crate::text::is_tax_char(t[j])
    &&& i == 0 || !crate::text::is_word_char(t[i - 1])
    &&& i + 18 == t.len() || !crate::text::is_word_char(t[i + 18])
}

/// `e` closes an asterisk-delimited item marker opened at `i`: at least one
/// character stands strictly between the two asterisks, and none of the
/// characters between them is an asterisk.
pub open spec fn item_marker_closed_at(t: Seq<char>, i: int, e: int) -> bool {
    &&& 0 <= i
    &&& i + 2 <= e < t.len()
    &&& t[i] == '*'
    &&& t[e] == '*'
    &&& forall|j: int| i < j < e ==> t[j] != '*'
}

/// An asterisk-delimited item marker starts at `i`.
pub open spec fn item_marker_at(t: Seq<char>, i: int) -> bool {
    exists|e: int| item_marker_closed_at(t, i, e)
}

/// Numeric value of a digit character.
pub open spec fn digit_val(c: char) -> int {
    c as int - '0' as int
}

/// The digit character for a value in `0..=9`.
pub open spec fn char_of_digit(v: int) -> char {
    (v + '0' as int) as char
}

/// Two digits followed by the marker character.
pub open spec fn two_digits_then(t: Seq<char>, p: int, m: char) -> bool {
    &&& 0 <= p
    &&& p + 2 < t.len()
    &&& crate::text::is_digit_char(t[p])
    &&& crate::text::is_digit_char(t[p + 1])
    &&& t[p + 2] == m
}

/// A single digit followed by the marker character.
pub open spec fn one_digit_then(t: Seq<char>, p: int, m: char) -> bool {
    &&& 0 <= p
    &&& p + 1 < t.len()
    &&& crate::text::is_digit_char(t[p])
    &&& t[p + 1] == m
}

/// A day field (one or two digits and the day marker) starts at `p`.  A
/// two-digit day is preferred; the two shapes cannot hold at once, since the
/// character after the first digit is either a digit or the marker.
pub open spec fn day_part_at(t: Seq<char>, p: int) -> bool {
    two_digits_then(t, p, '日') || one_digit_then(t, p, '日')
}

/// A month field and then a day field start at `p`.
pub open spec fn month_day_at(t: Seq<char>, p: int) -> bool {
    ||| two_digits_then(t, p, '月') && day_part_at(t, p + 3)
    ||| one_digit_then(t, p, '月') && day_part_at(t, p + 2)
}

/// A full date token `YYYY年M[M]月D[D]日` starts at `i`.
pub open spec fn date_at(t: Seq<char>, i: int) -> bool {
    &&& 0 <= i
    &&& i + 4 < t.len()
    &&& forall|j: int| i <= j < i + 4 ==> crate::text::is_digit_char(t[j])
    &&& t[i + 4] == '年'
    &&& month_day_at(t, i + 5)
}

/// Value of the month field of a date token starting at `i`.
pub open spec fn date_month_val(t: Seq<char>, i: int) -> int {
    if two_digits_then(t, i + 5, '月') {
        10 * digit_val(t[i + 5]) + digit_val(t[i + 6])
    } else {
        digit_val(t[i + 5])
    }
}

/// Position of the day field of a date token starting at `i`.
pub open spec fn date_day_pos(t: Seq<char>, i: int) -> int {
    if two_digits_then(t, i + 5, '月') {
        i + 8
    } else {
        i + 7
    }
}

/// Value of the day field of a date token starting at `i`.
pub open spec fn date_day_val(t: Seq<char>, i: int) -> int {
    let p = date_day_pos(t, i);
    if two_digits_then(t, p, '日') {
        10 * digit_val(t[p]) + digit_val(t[p + 1])
    } else {
        digit_val(t[p])
    }
}

/// A value in `0..=99` as exactly two digits.
pub open spec fn pad2(v: int) -> Seq<char> {
    seq![char_of_digit(v / 10), char_of_digit(v % 10)]
}

/// The canonical `YYYY-MM-DD` form of the date token starting at `i`: the
/// year verbatim, month and day zero-padded to two digits.
pub open spec fn formatted_date(t: Seq<char>, i: int) -> Seq<char> {
    t.subrange(i, i + 4) + seq!['-'] + pad2(date_month_val(t, i)) + seq!['-'] + pad2(
        date_day_val(t, i),
    )
}

} // verus!
