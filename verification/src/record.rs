//! Record assembly: one structured invoice record per document, composed
//! from the extraction stages, with the degenerate record for documents
//! whose text could not be recovered.

use vstd::prelude::*;

use crate::amount::resolve_amount;
use crate::amount::spec_amount;
use crate::candidates::collect_candidates;
use crate::candidates::spec_candidates;
use crate::fields::collect_tax_tokens;
use crate::fields::extract_document_number;
use crate::fields::extract_issue_date;
use crate::fields::extract_item_summary;
use crate::fields::spec_buyer_tax;
use crate::fields::spec_document_number;
use crate::fields::spec_issue_date;
use crate::fields::spec_item_summary;
use crate::fields::spec_seller_tax;
use crate::fields::spec_valid_taxes;
use crate::party::resolve_buyer;
use crate::party::resolve_seller;
use crate::party::spec_buyer;
use crate::party::spec_seller;
use crate::patterns::PatternLibrary;
use crate::text::chars_vec;
use crate::text::clone_chars;
use crate::text::string_from_chars;

verus! {

/// The mathematical model of a record: every field as its characters, the
/// empty sequence standing for an absent field.
pub ghost struct InvoiceModel {
    pub invoice_number: Seq<char>,
    pub invoice_date: Seq<char>,
    pub buyer: Seq<char>,
    pub buyer_tax_number: Seq<char>,
    pub seller: Seq<char>,
    pub seller_tax_number: Seq<char>,
    pub item_content: Seq<char>,
    pub amount: Seq<char>,
    pub remark: Seq<char>,
}

/// One structured invoice record.  Every field defaults to empty; `remark`
/// is non-empty only when text extraction failed for the document.
pub struct InvoiceInfo {
    pub invoice_number: String,
    pub invoice_date: String,
    pub buyer: String,
    pub buyer_tax_number: String,
    pub seller: String,
    pub seller_tax_number: String,
    pub item_content: String,
    pub amount: String,
    pub remark: String,
}

impl View for InvoiceInfo {
    type V = InvoiceModel;

    open spec fn view(&self) -> InvoiceModel {
        InvoiceModel {
            invoice_number: self.invoice_number@,
            invoice_date: self.invoice_date@,
            buyer: self.buyer@,
            buyer_tax_number: self.buyer_tax_number@,
            seller: self.seller@,
            seller_tax_number: self.seller_tax_number@,
            item_content: self.item_content@,
            amount: self.amount@,
            remark: self.remark@,
        }
    }
}

/// The record with every field absent.
pub open spec fn spec_empty_record() -> InvoiceModel {
    InvoiceModel {
        invoice_number: Seq::empty(),
        invoice_date: Seq::empty(),
        buyer: Seq::empty(),
        buyer_tax_number: Seq::empty(),
        seller: Seq::empty(),
        seller_tax_number: Seq::empty(),
        item_content: Seq::empty(),
        amount: Seq::empty(),
        remark: Seq::empty(),
    }
}

impl Default for InvoiceInfo {
    fn default() -> (r: Self)
        ensures
            r@ == spec_empty_record(),
    {
        InvoiceInfo {
            invoice_number: String::new(),
            invoice_date: String::new(),
            buyer: String::new(),
            buyer_tax_number: String::new(),
            seller: String::new(),
            seller_tax_number: String::new(),
            item_content: String::new(),
            amount: String::new(),
            remark: String::new(),
        }
    }
}

/// The record extracted from successfully recovered text: singleton fields
/// by first match, parties from the candidate list, the amount by the
/// competing heuristics, no note.  The file name is part of extraction's
/// interface; numerals are read from names only for image files, during
/// batch aggregation, so the record here never depends on `fname`.
pub open spec fn spec_extract_ok(t: Seq<char>, kw: Seq<char>, fname: Seq<char>) -> InvoiceModel {
    let cands = spec_candidates(t);
    let buyer = spec_buyer(cands, kw);
    let seller_tax = spec_seller_tax(t);
    let amount = spec_amount(t);
    InvoiceModel {
        invoice_number: spec_document_number(t),
        invoice_date: spec_issue_date(t),
        buyer: buyer,
        buyer_tax_number: spec_buyer_tax(t),
        seller: spec_seller(t, cands, buyer, seller_tax),
        seller_tax_number: seller_tax,
        item_content: spec_item_summary(t),
        amount: amount,
        remark: Seq::empty(),
    }
}

/// The degenerate record for a failed text extraction: every field absent
/// but the note, which embeds the failure description.
pub open spec fn spec_failure_record(err: Seq<char>) -> InvoiceModel {
    InvoiceModel { remark: "解析错误: "@ + err, ..spec_empty_record() }
}

/// What extraction yields for a document: the assembled record, or the
/// degenerate one when the text collaborator failed.
pub open spec fn spec_extract(
    text: Result<Seq<char>, Seq<char>>,
    kw: Seq<char>,
    fname: Seq<char>,
) -> InvoiceModel {
    match text {
        Ok(t) => spec_extract_ok(t, kw, fname),
        Err(e) => spec_failure_record(e),
    }
}

/// The model of the raw text handed in by the text-extraction collaborator.
pub open spec fn text_view(text: Result<&str, &str>) -> Result<Seq<char>, Seq<char>> {
    match text {
        Ok(t) => Ok(t@),
        Err(e) => Err(e@),
    }
}

/// The model of the optional buyer keyword: absent means empty.
pub open spec fn kw_view(kw: Option<&str>) -> Seq<char> {
    match kw {
        Some(k) => k@,
        None => Seq::empty(),
    }
}

/// Extraction is deterministic: records extracted from byte-identical
/// text, keyword and file name are byte-identical.
pub proof fn lemma_extraction_deterministic(
    text: Result<Seq<char>, Seq<char>>,
    kw: Seq<char>,
    fname: Seq<char>,
    r1: InvoiceModel,
    r2: InvoiceModel,
)
    requires
        r1 == spec_extract(text, kw, fname),
        r2 == spec_extract(text, kw, fname),
    ensures
        r1 == r2,
{
}

/// The data-model invariants of every assembled record: the shapes of the
/// scalar fields, the distinctness of buyer and seller, and the rule that
/// the note is non-empty exactly when text extraction failed.
pub proof fn lemma_record_invariants(
    text: Result<Seq<char>, Seq<char>>,
    kw: Seq<char>,
    fname: Seq<char>,
)
    ensures
        ({
            let r = spec_extract(text, kw, fname);
            &&& r.invoice_number.len() == 0 || r.invoice_number.len() == 20
            &&& r.invoice_date.len() == 0 || r.invoice_date.len() == 10
            &&& r.buyer_tax_number.len() == 0 || r.buyer_tax_number.len() == 18
            &&& r.seller_tax_number.len() == 0 || r.seller_tax_number.len() == 18
            &&& r.item_content.len() <= 30
            &&& (r.buyer.len() > 0 && r.seller.len() > 0 ==> r.buyer != r.seller)
            &&& (text is Ok ==> r.remark.len() == 0)
            &&& (text is Err ==> r.remark.len() > 0)
        }),
{
    match text {
        Ok(t) => {
            crate::fields::lemma_document_number_shape(t);
            crate::fields::lemma_issue_date_shape(t);
            crate::fields::lemma_item_summary_len(t);
            crate::fields::lemma_tax_id_shape(t);
            let cands = spec_candidates(t);
            crate::party::lemma_seller_differs_from_buyer(
                t,
                cands,
                spec_buyer(cands, kw),
                spec_seller_tax(t),
            );
        },
        Err(e) => {
            reveal_strlit("解析错误: ");
        },
    }
}

/// Extract one structured record from the text recovered for a document.
/// `text` is the result of the upstream text-extraction collaborator; its
/// failure yields the degenerate record rather than an error.
pub fn extract_invoice_info(
    lib: &PatternLibrary,
    text: Result<&str, &str>,
    buyer_keyword: Option<&str>,
    filename: &str,
) -> (r: InvoiceInfo)
    requires
        lib.wf(),
    ensures
        r@ == spec_extract(text_view(text), kw_view(buyer_keyword), filename@),
{
    match text {
        Err(e) => {
            let mut remark = chars_vec("解析错误: ");
            let ev = chars_vec(e);
            let mut i: usize = 0;
            while i < ev.len()
                invariant
                    0 <= i <= ev@.len(),
                    remark@ == "解析错误: "@ + ev@.take(i as int),
                decreases ev@.len() - i,
            {
                let c = ev[i];
                remark.push(c);
                proof {
                    assert(remark@ =~= "解析错误: "@ + ev@.take(i + 1 as int));
                }
                i += 1;
            }
            proof {
                assert(ev@.take(ev@.len() as int) =~= ev@);
            }
            InvoiceInfo {
                invoice_number: String::new(),
                invoice_date: String::new(),
                buyer: String::new(),
                buyer_tax_number: String::new(),
                seller: String::new(),
                seller_tax_number: String::new(),
                item_content: String::new(),
                amount: String::new(),
                remark: string_from_chars(&remark),
            }
        },
        Ok(t) => {
            let tv = chars_vec(t);
            let kwv = match buyer_keyword {
                Some(k) => chars_vec(k),
                None => Vec::new(),
            };
            let number = extract_document_number(&tv);
            let date = extract_issue_date(&tv);
            let taxes = collect_tax_tokens(&tv);
            let buyer_tax = if taxes.len() >= 1 {
                proof {
                    assert(taxes.deep_view()[0] == taxes@[0]@);
                }
                clone_chars(&taxes[0])
            } else {
                Vec::new()
            };
            let seller_tax = if taxes.len() >= 2 {
                proof {
                    assert(taxes.deep_view()[1] == taxes@[1]@);
                }
                clone_chars(&taxes[1])
            } else {
                Vec::new()
            };
            let item = extract_item_summary(&tv);
            let cands = collect_candidates(lib, &tv);
            let buyer = resolve_buyer(&cands, &kwv);
            let seller = resolve_seller(lib, &tv, &cands, &buyer, &seller_tax);
            let amount = resolve_amount(&tv);
            proof {
                assert(spec_valid_taxes(tv@).len() == taxes.deep_view().len());
            }
            InvoiceInfo {
                invoice_number: string_from_chars(&number),
                invoice_date: string_from_chars(&date),
                buyer: string_from_chars(&buyer),
                buyer_tax_number: string_from_chars(&buyer_tax),
                seller: string_from_chars(&seller),
                seller_tax_number: string_from_chars(&seller_tax),
                item_content: string_from_chars(&item),
                amount: string_from_chars(&amount),
                remark: String::new(),
            }
        },
    }
}

} // verus!
