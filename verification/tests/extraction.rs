//! Tests of per-document extraction: singleton fields, candidates, party
//! resolution, amounts and the failure path.

use invoice_rust::amount::resolve_amount;
use invoice_rust::candidates::collect_candidates;
use invoice_rust::fields::collect_tax_tokens;
use invoice_rust::fields::extract_document_number;
use invoice_rust::fields::extract_issue_date;
use invoice_rust::fields::extract_item_summary;
use invoice_rust::party::resolve_buyer;
use invoice_rust::patterns::PatternLibrary;
use invoice_rust::record::extract_invoice_info;

fn cv(s: &str) -> Vec<char> {
    s.chars().collect()
}

fn sv(v: &[char]) -> String {
    v.iter().collect()
}

#[test]
fn document_number_unique_run() {
    let t = cv("发票号码：12345678901234567890 其余内容");
    assert_eq!(sv(&extract_document_number(&t)), "12345678901234567890");
}

#[test]
fn document_number_absent_without_run() {
    let t = cv("没有任何编号的文本 123456");
    assert_eq!(sv(&extract_document_number(&t)), "");
}

#[test]
fn document_number_ignores_longer_run() {
    // twenty-one digits form no word-bounded twenty-digit run
    let t = cv("编号 123456789012345678901 结尾");
    assert_eq!(sv(&extract_document_number(&t)), "");
}

#[test]
fn issue_date_pads_single_digits() {
    let t = cv("开票日期 2024年3月5日");
    assert_eq!(sv(&extract_issue_date(&t)), "2024-03-05");
}

#[test]
fn issue_date_keeps_two_digit_month() {
    let t = cv("2024年12月1日");
    assert_eq!(sv(&extract_issue_date(&t)), "2024-12-01");
}

#[test]
fn issue_date_absent_without_token() {
    let t = cv("2024-12-01 is not the marker form");
    assert_eq!(sv(&extract_issue_date(&t)), "");
}

#[test]
fn twenty_digit_token_yields_no_tax_id() {
    let t = cv("编号 12345678901234567890 结尾");
    let toks = collect_tax_tokens(&t);
    assert!(toks.is_empty());
}

#[test]
fn two_tax_tokens_assign_buyer_then_seller() {
    let t = cv("购方 91440300MA5DA1AB2X 销方 91110000600037341L 其余");
    let toks = collect_tax_tokens(&t);
    assert_eq!(toks.len(), 2);
    assert_eq!(sv(&toks[0]), "91440300MA5DA1AB2X");
    assert_eq!(sv(&toks[1]), "91110000600037341L");
    let lib = PatternLibrary::new();
    let info = extract_invoice_info(
        &lib,
        Ok("购方 91440300MA5DA1AB2X 销方 91110000600037341L 其余"),
        None,
        "a.pdf",
    );
    assert_eq!(info.buyer_tax_number, "91440300MA5DA1AB2X");
    assert_eq!(info.seller_tax_number, "91110000600037341L");
}

#[test]
fn item_summary_keeps_marker() {
    let t = cv("货物 *餐饮服务*工作餐 金额");
    assert_eq!(sv(&extract_item_summary(&t)), "*餐饮服务*");
}

#[test]
fn item_summary_truncated_to_thirty_chars() {
    let long_core = "一二三四五六七八九十一二三四五六七八九十一二三四五六七八九十";
    let t = cv(&format!("*{}*", long_core));
    let got = extract_item_summary(&t);
    assert_eq!(got.len(), 30);
    let expect: Vec<char> = format!("*{}*", long_core).chars().take(30).collect();
    assert_eq!(got, expect);
}

#[test]
fn rounded_total_beats_currency_amounts() {
    let t = cv("小写 ¥9,999.99 价税合计（大写）壹仟贰佰叁拾肆圆伍角陆分 圆整 ¥1,234.56");
    assert_eq!(sv(&resolve_amount(&t)), "1234.56");
}

#[test]
fn rounded_total_strips_separators() {
    let t = cv("圆整 ¥1,234.56");
    assert_eq!(sv(&resolve_amount(&t)), "1234.56");
}

#[test]
fn largest_currency_amount_wins() {
    let t = cv("项目 ¥100.00 合计 ¥999.99");
    assert_eq!(sv(&resolve_amount(&t)), "999.99");
}

#[test]
fn currency_amount_out_of_range_is_ignored() {
    // ten million and above never counts as a document total
    let t = cv("合计 ¥10,000,000.00 小计 ¥42.50");
    assert_eq!(sv(&resolve_amount(&t)), "42.50");
}

#[test]
fn amount_absent_without_markers() {
    let t = cv("没有金额的文本");
    assert_eq!(sv(&resolve_amount(&t)), "");
}

#[test]
fn document_file_gets_no_filename_amount() {
    // the filename numeral serves image files only, never documents
    let lib = PatternLibrary::new();
    let info = extract_invoice_info(&lib, Ok("没有金额的文本"), None, "invoice_88.5.pdf");
    assert_eq!(info.amount, "");
}

#[test]
fn candidate_collection_excludes_header_line() {
    let lib = PatternLibrary::new();
    let t = cv("ABC有限公司\n发票号码：12345");
    let cands = collect_candidates(&lib, &t);
    assert_eq!(cands.len(), 1);
    assert_eq!(sv(&cands[0]), "ABC有限公司");
}

#[test]
fn candidate_collection_deduplicates() {
    let lib = PatternLibrary::new();
    let t = cv("ABC有限公司\n其他内容行\nABC有限公司");
    let cands = collect_candidates(&lib, &t);
    assert_eq!(cands.len(), 1);
}

#[test]
fn candidate_collection_drops_fee_lines() {
    let lib = PatternLibrary::new();
    let t = cv("某某服务有限公司费\nABC有限公司");
    let cands = collect_candidates(&lib, &t);
    assert_eq!(cands.len(), 1);
    assert_eq!(sv(&cands[0]), "ABC有限公司");
}

#[test]
fn candidate_collection_applies_length_bounds() {
    let lib = PatternLibrary::new();
    // below five characters after trimming, and above sixty
    let long_line: String = "很".repeat(57) + "有限公司";
    let t = cv(&format!("商行\n{}", long_line));
    let cands = collect_candidates(&lib, &t);
    assert!(cands.is_empty());
}

#[test]
fn keyword_picks_buyer_seller_takes_other() {
    let lib = PatternLibrary::new();
    let info = extract_invoice_info(
        &lib,
        Ok("ABC有限公司\nXYZ科技有限公司"),
        Some("XYZ"),
        "a.pdf",
    );
    assert_eq!(info.buyer, "XYZ科技有限公司");
    assert_eq!(info.seller, "ABC有限公司");
}

#[test]
fn first_candidate_is_buyer_without_keyword() {
    let lib = PatternLibrary::new();
    let info = extract_invoice_info(&lib, Ok("ABC有限公司\nXYZ科技有限公司"), None, "a.pdf");
    assert_eq!(info.buyer, "ABC有限公司");
    assert_eq!(info.seller, "XYZ科技有限公司");
}

#[test]
fn unmatched_keyword_falls_back_to_first_candidate() {
    let cands = vec![cv("ABC有限公司"), cv("XYZ科技有限公司")];
    let buyer = resolve_buyer(&cands, &cv("不存在"));
    assert_eq!(sv(&buyer), "ABC有限公司");
}

#[test]
fn seller_fallback_scans_tax_window() {
    let lib = PatternLibrary::new();
    let text = "ABC有限公司\n金额 91440300MA5DA1AB2X 91110000600037341L 深圳市某某饮食店";
    let info = extract_invoice_info(&lib, Ok(text), None, "a.pdf");
    assert_eq!(info.buyer, "ABC有限公司");
    assert_eq!(info.seller_tax_number, "91110000600037341L");
    assert_eq!(info.seller, "深圳市某某饮食店");
}

#[test]
fn failed_text_extraction_yields_note_only() {
    let lib = PatternLibrary::new();
    let info = extract_invoice_info(&lib, Err("无法打开文件"), None, "bad.pdf");
    assert_eq!(info.remark, "解析错误: 无法打开文件");
    assert_eq!(info.invoice_number, "");
    assert_eq!(info.invoice_date, "");
    assert_eq!(info.buyer, "");
    assert_eq!(info.buyer_tax_number, "");
    assert_eq!(info.seller, "");
    assert_eq!(info.seller_tax_number, "");
    assert_eq!(info.item_content, "");
    assert_eq!(info.amount, "");
}

#[test]
fn extraction_is_idempotent() {
    let lib = PatternLibrary::new();
    let text = "发票号码：12345678901234567890\n2024年3月5日\nABC有限公司\nXYZ科技有限公司\n*餐饮服务*\n圆整 ¥1,234.56";
    let a = extract_invoice_info(&lib, Ok(text), Some("XYZ"), "a.pdf");
    let b = extract_invoice_info(&lib, Ok(text), Some("XYZ"), "a.pdf");
    assert_eq!(a.invoice_number, b.invoice_number);
    assert_eq!(a.invoice_date, b.invoice_date);
    assert_eq!(a.buyer, b.buyer);
    assert_eq!(a.buyer_tax_number, b.buyer_tax_number);
    assert_eq!(a.seller, b.seller);
    assert_eq!(a.seller_tax_number, b.seller_tax_number);
    assert_eq!(a.item_content, b.item_content);
    assert_eq!(a.amount, b.amount);
    assert_eq!(a.remark, b.remark);
}

#[test]
fn full_record_extraction() {
    let lib = PatternLibrary::new();
    let text = "发票号码：12345678901234567890\n开票日期 2024年3月5日\n购方 ABC有限公司 91440300MA5DA1AB2X\n销方 XYZ科技有限公司 91110000600037341L\n*餐饮服务*工作餐\n价税合计 圆整 ¥1,234.56";
    let info = extract_invoice_info(&lib, Ok(text), Some("ABC"), "a.pdf");
    assert_eq!(info.invoice_number, "12345678901234567890");
    assert_eq!(info.invoice_date, "2024-03-05");
    assert_eq!(info.buyer_tax_number, "91440300MA5DA1AB2X");
    assert_eq!(info.seller_tax_number, "91110000600037341L");
    assert_eq!(info.item_content, "*餐饮服务*");
    assert_eq!(info.amount, "1234.56");
    assert_eq!(info.remark, "");
}
