//! Batch aggregation: every file of a traversal becomes one entry, image
//! files backfill their amount from the file name, the entries are ordered
//! by folder and file name, and recognition statistics are computed.

use vstd::prelude::*;

use vstd::multiset::Multiset;

use crate::filename::image_filename_amount;
use crate::filename::spec_image_name_amount;
use crate::patterns::PatternLibrary;
use crate::record::InvoiceInfo;
use crate::record::InvoiceModel;
use crate::record::extract_invoice_info;
use crate::record::kw_view;
use crate::record::spec_empty_record;
use crate::record::spec_extract;
use crate::text::chars_eq;
use crate::text::chars_vec;
use crate::text::ends_with;
use crate::text::ends_with_spec;
use crate::text::string_from_chars;
use crate::text::to_upper_chars;
use crate::text::upper_seq;

verus! {

/// Model of one batch entry.
pub ghost struct FileModel {
    pub folder: Seq<char>,
    pub filename: Seq<char>,
    pub file_type: Seq<char>,
    pub info: InvoiceModel,
}

/// One file of the batch with its assembled record.
pub struct InvoiceFile {
    pub folder: String,
    pub filename: String,
    pub file_type: String,
    pub info: InvoiceInfo,
}

impl View for InvoiceFile {
    type V = FileModel;

    open spec fn view(&self) -> FileModel {
        FileModel {
            folder: self.folder@,
            filename: self.filename@,
            file_type: self.file_type@,
            info: self.info@,
        }
    }
}

/// Model of one file handed in by the traversal collaborator.
pub ghost struct SourceModel {
    pub folder: Seq<char>,
    pub filename: Seq<char>,
    pub file_type: Seq<char>,
    pub text: Option<Result<Seq<char>, Seq<char>>>,
}

/// One file found by the traversal collaborator: its relative folder, its
/// name, its upper-cased extension, and, for document files, the text the
/// extraction collaborator recovered or its failure description.
pub struct SourceFile {
    pub folder: String,
    pub filename: String,
    pub file_type: String,
    pub text: Option<Result<String, String>>,
}

impl View for SourceFile {
    type V = SourceModel;

    open spec fn view(&self) -> SourceModel {
        SourceModel {
            folder: self.folder@,
            filename: self.filename@,
            file_type: self.file_type@,
            text: match self.text {
                Some(Ok(t)) => Some(Ok(t@)),
                Some(Err(e)) => Some(Err(e@)),
                None => None,
            },
        }
    }
}

/// The record assembled for one source file: extraction for document
/// files, the empty record otherwise, with the image-name amount
/// backfilled when the amount is still absent and the file name does not
/// carry the document extension.
pub open spec fn spec_assemble(src: SourceModel, kw: Seq<char>) -> FileModel {
    let base = if src.file_type == "PDF"@ {
        match src.text {
            Some(tr) => spec_extract(tr, kw, src.filename),
            None => spec_empty_record(),
        }
    } else {
        spec_empty_record()
    };
    let info = if base.amount.len() == 0 && !ends_with_spec(upper_seq(src.filename), ".PDF"@) {
        InvoiceModel { amount: spec_image_name_amount(upper_seq(src.filename)), ..base }
    } else {
        base
    };
    FileModel { folder: src.folder, filename: src.filename, file_type: src.file_type, info }
}

/// Lexicographic order on character sequences, by code point.
pub open spec fn seq_le(a: Seq<char>, b: Seq<char>) -> bool
    decreases a.len() + b.len(),
{
    if a.len() == 0 {
        true
    } else if b.len() == 0 {
        false
    } else if a[0] == b[0] {
        seq_le(a.drop_first(), b.drop_first())
    } else {
        a[0] < b[0]
    }
}

pub proof fn lemma_seq_le_refl(a: Seq<char>)
    ensures
        seq_le(a, a),
    decreases a.len(),
{
    if a.len() > 0 {
        lemma_seq_le_refl(a.drop_first());
    }
}

pub proof fn lemma_seq_le_total(a: Seq<char>, b: Seq<char>)
    ensures
        seq_le(a, b) || seq_le(b, a),
    decreases a.len() + b.len(),
{
    if a.len() > 0 && b.len() > 0 && a[0] == b[0] {
        lemma_seq_le_total(a.drop_first(), b.drop_first());
    }
}

pub proof fn lemma_seq_le_antisym(a: Seq<char>, b: Seq<char>)
    requires
        seq_le(a, b),
        seq_le(b, a),
    ensures
        a == b,
    decreases a.len() + b.len(),
{
    if a.len() == 0 {
        assert(b.len() == 0);
        assert(a =~= b);
    } else {
        assert(b.len() > 0);
        assert(a[0] == b[0]);
        lemma_seq_le_antisym(a.drop_first(), b.drop_first());
        assert forall|i: int| 0 <= i < a.len() implies a[i] == b[i] by {
            if i > 0 {
                assert(a[i] == a.drop_first()[i - 1]);
                assert(b[i] == b.drop_first()[i - 1]);
            }
        }
        assert(a =~= b);
    }
}

pub proof fn lemma_seq_le_trans(a: Seq<char>, b: Seq<char>, c: Seq<char>)
    requires
        seq_le(a, b),
        seq_le(b, c),
    ensures
        seq_le(a, c),
    decreases a.len() + b.len() + c.len(),
{
    if a.len() > 0 {
        assert(b.len() > 0);
        assert(c.len() > 0);
        if a[0] == b[0] && b[0] == c[0] {
            lemma_seq_le_trans(a.drop_first(), b.drop_first(), c.drop_first());
        }
    }
}

/// The batch order: by folder, then by file name.
pub open spec fn entry_le(x: FileModel, y: FileModel) -> bool {
    ||| (seq_le(x.folder, y.folder) && x.folder != y.folder)
    ||| (x.folder == y.folder && seq_le(x.filename, y.filename))
}

pub proof fn lemma_entry_le_refl(x: FileModel)
    ensures
        entry_le(x, x),
{
    lemma_seq_le_refl(x.filename);
}

pub proof fn lemma_entry_le_total(x: FileModel, y: FileModel)
    ensures
        entry_le(x, y) || entry_le(y, x),
{
    lemma_seq_le_total(x.folder, y.folder);
    lemma_seq_le_total(x.filename, y.filename);
    if seq_le(x.folder, y.folder) && seq_le(y.folder, x.folder) {
        lemma_seq_le_antisym(x.folder, y.folder);
    }
}

pub proof fn lemma_entry_le_trans(x: FileModel, y: FileModel, z: FileModel)
    requires
        entry_le(x, y),
        entry_le(y, z),
    ensures
        entry_le(x, z),
{
    if x.folder == y.folder {
        lemma_seq_le_refl(x.folder);
    }
    if y.folder == z.folder {
        lemma_seq_le_refl(y.folder);
    }
    if x.folder == y.folder && y.folder == z.folder {
        lemma_seq_le_trans(x.filename, y.filename, z.filename);
    } else {
        lemma_seq_le_trans(x.folder, y.folder, z.folder);
        if x.folder == z.folder {
            lemma_seq_le_antisym(x.folder, y.folder);
            lemma_seq_le_antisym(y.folder, z.folder);
        }
    }
}

fn chars_le(a: &Vec<char>, b: &Vec<char>) -> (r: bool)
    ensures
        r == seq_le(a@, b@),
{
    let na = a.len();
    let nb = b.len();
    proof {
        assert(a@.skip(0) =~= a@);
        assert(b@.skip(0) =~= b@);
    }
    let mut k: usize = 0;
    loop
        invariant
            na == a@.len(),
            nb == b@.len(),
            0 <= k <= na,
            k <= nb,
            seq_le(a@, b@) == seq_le(a@.skip(k as int), b@.skip(k as int)),
        decreases na + nb - k,
    {
        if k >= na {
            proof {
                assert(a@.skip(k as int).len() == 0);
            }
            return true;
        }
        if k >= nb {
            proof {
                assert(b@.skip(k as int).len() == 0);
            }
            return false;
        }
        let ca = a[k];
        let cb = b[k];
        proof {
            assert(a@.skip(k as int)[0] == a@[k as int]);
            assert(b@.skip(k as int)[0] == b@[k as int]);
            assert(a@.skip(k as int).drop_first() =~= a@.skip(k + 1));
            assert(b@.skip(k as int).drop_first() =~= b@.skip(k + 1));
        }
        if ca != cb {
            return ca < cb;
        }
        k += 1;
    }
}

fn entry_le_exec(x: &InvoiceFile, y: &InvoiceFile) -> (r: bool)
    ensures
        r == entry_le(x@, y@),
{
    let xf = chars_vec(x.folder.as_str());
    let yf = chars_vec(y.folder.as_str());
    if chars_eq(&xf, &yf) {
        let xn = chars_vec(x.filename.as_str());
        let yn = chars_vec(y.filename.as_str());
        chars_le(&xn, &yn)
    } else {
        chars_le(&xf, &yf)
    }
}

/// The entry models of a sequence of entries.
pub open spec fn views_of(s: Seq<InvoiceFile>) -> Seq<FileModel> {
    s.map_values(|e: InvoiceFile| e@)
}

/// Sort the entries by (folder, filename), ascending; the result holds
/// exactly the same entries.
pub fn sort_entries(v: Vec<InvoiceFile>) -> (r: Vec<InvoiceFile>)
    ensures
        r@.len() == v@.len(),
        forall|i: int, j: int| 0 <= i < j < r@.len() ==> entry_le(#[trigger] r@[i]@, #[trigger] r@[j]@),
        views_of(r@).to_multiset() == views_of(v@).to_multiset(),
{
    broadcast use vstd::multiset::group_multiset_axioms;
    broadcast use vstd::seq_lib::group_to_multiset_ensures;

    let mut src = v;
    let mut r: Vec<InvoiceFile> = Vec::new();
    let ghost orig = views_of(src@);
    proof {
        assert(views_of(r@) =~= Seq::<FileModel>::empty());
        assert(views_of(r@).to_multiset().add(views_of(src@).to_multiset()) =~= views_of(
            src@,
        ).to_multiset());
    }
    while src.len() > 0
        invariant
            views_of(r@).to_multiset().add(views_of(src@).to_multiset()) == orig.to_multiset(),
            r@.len() + src@.len() == orig.len(),
            forall|i: int, j: int|
                0 <= i < j < r@.len() ==> entry_le(#[trigger] r@[i]@, #[trigger] r@[j]@),
            forall|i: int, j: int|
                0 <= i < r@.len() && 0 <= j < src@.len() ==> entry_le(
                    #[trigger] r@[i]@,
                    #[trigger] src@[j]@,
                ),
        decreases src@.len(),
    {
        let n = src.len();
        let mut m: usize = 0;
        let mut k: usize = 1;
        proof {
            lemma_entry_le_refl(src@[0]@);
        }
        while k < n
            invariant
                n == src@.len(),
                0 <= m < k <= n,
                forall|j: int| 0 <= j < k ==> entry_le(src@[m as int]@, #[trigger] src@[j]@),
            decreases n - k,
        {
            if !entry_le_exec(&src[m], &src[k]) {
                proof {
                    lemma_entry_le_total(src@[m as int]@, src@[k as int]@);
                    lemma_entry_le_refl(src@[k as int]@);
                    assert forall|j: int| 0 <= j < k + 1 implies entry_le(
                        src@[k as int]@,
                        #[trigger] src@[j]@,
                    ) by {
                        if j < k {
                            lemma_entry_le_trans(src@[k as int]@, src@[m as int]@, src@[j]@);
                        }
                    }
                }
                m = k;
            }
            k += 1;
        }
        let ghost old_src = src@;
        let ghost old_r = r@;
        let x = src.remove(m);
        r.push(x);
        proof {
            assert(views_of(old_src.remove(m as int)) =~= views_of(old_src).remove(m as int));
            vstd::seq_lib::to_multiset_remove(views_of(old_src), m as int);
            assert(views_of(old_r.push(x)) =~= views_of(old_r).push(x@));
            vstd::seq_lib::to_multiset_build(views_of(old_r), x@);
            views_of(old_src).to_multiset_ensures();
            assert(views_of(old_src).to_multiset().count(views_of(old_src)[m as int]) >= 1) by {
                assert(views_of(old_src).contains(views_of(old_src)[m as int]));
            }
            assert(views_of(r@).to_multiset().add(views_of(src@).to_multiset()) =~= orig.to_multiset());
            assert forall|i: int, j: int|
                0 <= i < r@.len() && 0 <= j < src@.len() implies entry_le(
                #[trigger] r@[i]@,
                #[trigger] src@[j]@,
            ) by {
                let oj = if j < m {
                    j
                } else {
                    j + 1
                };
                assert(src@[j] == old_src[oj]);
                if i < old_r.len() {
                    assert(entry_le(r@[i]@, old_src[oj]@));
                } else {
                    assert(r@[i] == x);
                    assert(entry_le(old_src[m as int]@, old_src[oj]@));
                }
            }
        }
    }
    proof {
        assert(views_of(src@).to_multiset() =~= Multiset::<FileModel>::empty());
        assert(views_of(r@).to_multiset() =~= orig.to_multiset());
    }
    r
}

/// The sort key of an entry.
pub open spec fn entry_key(e: FileModel) -> (Seq<char>, Seq<char>) {
    (e.folder, e.filename)
}

/// No two entries share a sort key.
pub open spec fn distinct_keys(s: Seq<FileModel>) -> bool {
    forall|i: int, j: int|
        0 <= i < j < s.len() ==> entry_key(#[trigger] s[i]) != entry_key(#[trigger] s[j])
}

/// The entries stand in batch order.
pub open spec fn sorted_entries(s: Seq<FileModel>) -> bool {
    forall|i: int, j: int| 0 <= i < j < s.len() ==> entry_le(#[trigger] s[i], #[trigger] s[j])
}

/// Entries ordered both ways around have equal keys.
pub proof fn lemma_entry_le_antisym(x: FileModel, y: FileModel)
    requires
        entry_le(x, y),
        entry_le(y, x),
    ensures
        entry_key(x) == entry_key(y),
{
    if x.folder != y.folder {
        lemma_seq_le_antisym(x.folder, y.folder);
    } else {
        lemma_seq_le_antisym(x.filename, y.filename);
    }
}

/// The batch order determines the batch: two sequences holding the same
/// entries, with no key repeated, and both in batch order, are identical.
/// The final order therefore never depends on the order in which the
/// traversal produced the files, only on the entries themselves.
pub proof fn lemma_sorted_entries_unique(a: Seq<FileModel>, b: Seq<FileModel>)
    requires
        sorted_entries(a),
        sorted_entries(b),
        distinct_keys(a),
        a.to_multiset() == b.to_multiset(),
    ensures
        a == b,
    decreases a.len(),
{
    broadcast use vstd::multiset::group_multiset_axioms;

    a.to_multiset_ensures();
    b.to_multiset_ensures();
    if a.len() == 0 {
        assert(a =~= b);
    } else {
        assert(b.len() == a.len());
        // each head occurs in the other sequence
        assert(b.contains(a[0])) by {
            assert(a.contains(a[0]));
            assert(a.to_multiset().count(a[0]) > 0);
            assert(b.to_multiset().count(a[0]) > 0);
        }
        assert(a.contains(b[0])) by {
            assert(b.contains(b[0]));
            assert(b.to_multiset().count(b[0]) > 0);
            assert(a.to_multiset().count(b[0]) > 0);
        }
        let ia = choose|i: int| 0 <= i < a.len() && a[i] == b[0];
        let ib = choose|i: int| 0 <= i < b.len() && b[i] == a[0];
        // both heads are minimal, so their keys agree
        assert(entry_le(a[0], a[ia])) by {
            if ia > 0 {
            } else {
                lemma_entry_le_refl(a[0]);
            }
        }
        assert(entry_le(b[0], b[ib])) by {
            if ib > 0 {
            } else {
                lemma_entry_le_refl(b[0]);
            }
        }
        lemma_entry_le_antisym(a[0], b[0]);
        // a key occurs once in `a`, so the heads are the same entry
        assert(a[0] == b[0]) by {
            if ia != 0 {
                assert(entry_key(a[0]) != entry_key(a[ia]));
            }
        }
        let at = a.drop_first();
        let bt = b.drop_first();
        assert(at.to_multiset() == bt.to_multiset()) by {
            vstd::seq_lib::to_multiset_remove(a, 0);
            vstd::seq_lib::to_multiset_remove(b, 0);
            assert(a.remove(0) =~= at);
            assert(b.remove(0) =~= bt);
        }
        assert(sorted_entries(at)) by {
            assert forall|i: int, j: int| 0 <= i < j < at.len() implies entry_le(
                #[trigger] at[i],
                #[trigger] at[j],
            ) by {
                assert(at[i] == a[i + 1] && at[j] == a[j + 1]);
            }
        }
        assert(sorted_entries(bt)) by {
            assert forall|i: int, j: int| 0 <= i < j < bt.len() implies entry_le(
                #[trigger] bt[i],
                #[trigger] bt[j],
            ) by {
                assert(bt[i] == b[i + 1] && bt[j] == b[j + 1]);
            }
        }
        assert(distinct_keys(at)) by {
            assert forall|i: int, j: int| 0 <= i < j < at.len() implies entry_key(
                #[trigger] at[i],
            ) != entry_key(#[trigger] at[j]) by {
                assert(at[i] == a[i + 1] && at[j] == a[j + 1]);
            }
        }
        lemma_sorted_entries_unique(at, bt);
        assert forall|i: int| 0 <= i < a.len() implies a[i] == b[i] by {
            if i > 0 {
                assert(a[i] == at[i - 1] && b[i] == bt[i - 1]);
            }
        }
        assert(a =~= b);
    }
}

/// An entry counts as a document file when its upper-cased name ends with
/// the document extension.
pub open spec fn is_pdf_entry(e: FileModel) -> bool {
    ends_with_spec(upper_seq(e.filename), ".PDF"@)
}

/// An entry counts as seller-recognized when its seller is non-empty and
/// is not an unresolved marker beginning with an asterisk.
pub open spec fn is_seller_recognized(e: FileModel) -> bool {
    e.info.seller.len() > 0 && e.info.seller[0] != '*'
}

/// An entry counts as amount-recognized when its amount is non-empty.
pub open spec fn is_amount_recognized(e: FileModel) -> bool {
    e.info.amount.len() > 0
}

/// How many entries are document files.
pub open spec fn count_pdf(s: Seq<FileModel>) -> int
    decreases s.len(),
{
    if s.len() == 0 {
        0
    } else {
        count_pdf(s.drop_last()) + if is_pdf_entry(s.last()) {
            1int
        } else {
            0int
        }
    }
}

/// How many entries have a recognized seller.
pub open spec fn count_seller(s: Seq<FileModel>) -> int
    decreases s.len(),
{
    if s.len() == 0 {
        0
    } else {
        count_seller(s.drop_last()) + if is_seller_recognized(s.last()) {
            1int
        } else {
            0int
        }
    }
}

/// How many entries have a recognized amount.
pub open spec fn count_amount(s: Seq<FileModel>) -> int
    decreases s.len(),
{
    if s.len() == 0 {
        0
    } else {
        count_amount(s.drop_last()) + if is_amount_recognized(s.last()) {
            1int
        } else {
            0int
        }
    }
}

/// The recognition statistics of a batch.
pub struct ProcessStats {
    pub total_files: usize,
    pub pdf_files: usize,
    pub seller_recognized: usize,
    pub amount_recognized: usize,
}

fn compute_stats(entries: &Vec<InvoiceFile>) -> (st: ProcessStats)
    ensures
        st.total_files == entries@.len(),
        st.pdf_files == count_pdf(views_of(entries@)),
        st.seller_recognized == count_seller(views_of(entries@)),
        st.amount_recognized == count_amount(views_of(entries@)),
{
    let n = entries.len();
    let pdfu = chars_vec(".PDF");
    let mut pdf_files: usize = 0;
    let mut seller_recognized: usize = 0;
    let mut amount_recognized: usize = 0;
    let mut i: usize = 0;
    while i < n
        invariant
            n == entries@.len(),
            pdfu@ == ".PDF"@,
            0 <= i <= n,
            pdf_files <= i,
            seller_recognized <= i,
            amount_recognized <= i,
            pdf_files == count_pdf(views_of(entries@).take(i as int)),
            seller_recognized == count_seller(views_of(entries@).take(i as int)),
            amount_recognized == count_amount(views_of(entries@).take(i as int)),
        decreases n - i,
    {
        let e = &entries[i];
        proof {
            assert(views_of(entries@).take(i + 1 as int).drop_last() =~= views_of(
                entries@,
            ).take(i as int));
            assert(views_of(entries@).take(i + 1 as int).last() == entries@[i as int]@);
        }
        let up = to_upper_chars(&chars_vec(e.filename.as_str()));
        if ends_with(&up, &pdfu) {
            pdf_files += 1;
        }
        let seller = chars_vec(e.info.seller.as_str());
        if seller.len() > 0 && seller[0] != '*' {
            seller_recognized += 1;
        }
        if !e.info.amount.as_str().is_empty() {
            amount_recognized += 1;
        }
        i += 1;
    }
    proof {
        assert(views_of(entries@).take(n as int) =~= views_of(entries@));
    }
    ProcessStats { total_files: n, pdf_files, seller_recognized, amount_recognized }
}

fn assemble_entry(lib: &PatternLibrary, src: &SourceFile, kw: Option<&str>) -> (e: InvoiceFile)
    requires
        lib.wf(),
    ensures
        e@ == spec_assemble(src@, kw_view(kw)),
{
    let ft = chars_vec(src.file_type.as_str());
    let pdf = chars_vec("PDF");
    let is_pdf = chars_eq(&ft, &pdf);
    let mut info: InvoiceInfo = if is_pdf {
        match &src.text {
            Some(tr) => match tr {
                Ok(t) => extract_invoice_info(lib, Ok(t.as_str()), kw, src.filename.as_str()),
                Err(e) => extract_invoice_info(lib, Err(e.as_str()), kw, src.filename.as_str()),
            },
            None => InvoiceInfo::default(),
        }
    } else {
        InvoiceInfo::default()
    };
    let up = to_upper_chars(&chars_vec(src.filename.as_str()));
    let pdfu = chars_vec(".PDF");
    if info.amount.as_str().is_empty() && !ends_with(&up, &pdfu) {
        let amt = image_filename_amount(&up);
        info.amount = string_from_chars(&amt);
    }
    InvoiceFile {
        folder: src.folder.clone(),
        filename: src.filename.clone(),
        file_type: src.file_type.clone(),
        info,
    }
}

/// The report's header labels, in the fixed column order: index, folder,
/// file name, document number, issue date, buyer, buyer tax id, seller,
/// seller tax id, item summary, amount, note.
pub fn report_header() -> (r: Vec<String>)
    ensures
        r@.len() == 12,
        r@[0]@ == "序号"@,
        r@[1]@ == "文件夹"@,
        r@[2]@ == "文件名"@,
        r@[3]@ == "发票号码"@,
        r@[4]@ == "开票日期"@,
        r@[5]@ == "购买方"@,
        r@[6]@ == "购买方税号"@,
        r@[7]@ == "销售方"@,
        r@[8]@ == "销售方税号"@,
        r@[9]@ == "项目内容"@,
        r@[10]@ == "金额"@,
        r@[11]@ == "备注"@,
{
    let mut r: Vec<String> = Vec::new();
    r.push(string_from_chars(&chars_vec("序号")));
    r.push(string_from_chars(&chars_vec("文件夹")));
    r.push(string_from_chars(&chars_vec("文件名")));
    r.push(string_from_chars(&chars_vec("发票号码")));
    r.push(string_from_chars(&chars_vec("开票日期")));
    r.push(string_from_chars(&chars_vec("购买方")));
    r.push(string_from_chars(&chars_vec("购买方税号")));
    r.push(string_from_chars(&chars_vec("销售方")));
    r.push(string_from_chars(&chars_vec("销售方税号")));
    r.push(string_from_chars(&chars_vec("项目内容")));
    r.push(string_from_chars(&chars_vec("金额")));
    r.push(string_from_chars(&chars_vec("备注")));
    r
}

/// The data cells of one entry, in the fixed column order after the
/// index column: folder, file name, then the record's fields.
pub fn report_row(e: &InvoiceFile) -> (r: Vec<String>)
    ensures
        r@.len() == 11,
        r@[0]@ == e@.folder,
        r@[1]@ == e@.filename,
        r@[2]@ == e@.info.invoice_number,
        r@[3]@ == e@.info.invoice_date,
        r@[4]@ == e@.info.buyer,
        r@[5]@ == e@.info.buyer_tax_number,
        r@[6]@ == e@.info.seller,
        r@[7]@ == e@.info.seller_tax_number,
        r@[8]@ == e@.info.item_content,
        r@[9]@ == e@.info.amount,
        r@[10]@ == e@.info.remark,
{
    let mut r: Vec<String> = Vec::new();
    r.push(e.folder.clone());
    r.push(e.filename.clone());
    r.push(e.info.invoice_number.clone());
    r.push(e.info.invoice_date.clone());
    r.push(e.info.buyer.clone());
    r.push(e.info.buyer_tax_number.clone());
    r.push(e.info.seller.clone());
    r.push(e.info.seller_tax_number.clone());
    r.push(e.info.item_content.clone());
    r.push(e.info.amount.clone());
    r.push(e.info.remark.clone());
    r
}

/// Process a whole batch: assemble one entry per source file, backfill
/// image amounts, order the entries by (folder, filename) and compute the
/// recognition statistics.  The order of the input files never affects
/// which entries come out; the final order is imposed by the sort alone.
pub fn process_invoices(files: Vec<SourceFile>, buyer_keyword: Option<&str>) -> (r: (
    Vec<InvoiceFile>,
    ProcessStats,
))
    ensures
        r.0@.len() == files@.len(),
        forall|i: int, j: int|
            0 <= i < j < r.0@.len() ==> entry_le(#[trigger] r.0@[i]@, #[trigger] r.0@[j]@),
        views_of(r.0@).to_multiset() == files@.map_values(
            |s: SourceFile| spec_assemble(s@, kw_view(buyer_keyword)),
        ).to_multiset(),
        r.1.total_files == r.0@.len(),
        r.1.pdf_files == count_pdf(views_of(r.0@)),
        r.1.seller_recognized == count_seller(views_of(r.0@)),
        r.1.amount_recognized == count_amount(views_of(r.0@)),
{
    let lib = PatternLibrary::new();
    let n = files.len();
    let ghost goal = files@.map_values(|s: SourceFile| spec_assemble(s@, kw_view(buyer_keyword)));
    let mut entries: Vec<InvoiceFile> = Vec::new();
    let mut i: usize = 0;
    while i < n
        invariant
            n == files@.len(),
            lib.wf(),
            goal == files@.map_values(|s: SourceFile| spec_assemble(s@, kw_view(buyer_keyword))),
            goal.len() == n,
            0 <= i <= n,
            entries@.len() == i,
            views_of(entries@) == goal.take(i as int),
        decreases n - i,
    {
        let e = assemble_entry(&lib, &files[i], buyer_keyword);
        entries.push(e);
        proof {
            assert(views_of(entries@) =~= goal.take(i + 1 as int));
        }
        i += 1;
    }
    proof {
        assert(goal.take(n as int) =~= goal);
    }
    let sorted = sort_entries(entries);
    let stats = compute_stats(&sorted);
    (sorted, stats)
}

} // verus!
