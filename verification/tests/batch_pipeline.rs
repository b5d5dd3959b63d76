//! Tests of batch aggregation: ordering, the image filename fallback,
//! statistics and the report layout.

use invoice_rust::batch::InvoiceFile;
use invoice_rust::batch::SourceFile;
use invoice_rust::batch::process_invoices;
use invoice_rust::batch::report_header;
use invoice_rust::batch::report_row;
use invoice_rust::record::InvoiceInfo;

fn image(folder: &str, filename: &str) -> SourceFile {
    SourceFile {
        folder: folder.to_string(),
        filename: filename.to_string(),
        file_type: "PNG".to_string(),
        text: None,
    }
}

fn pdf(folder: &str, filename: &str, text: &str) -> SourceFile {
    SourceFile {
        folder: folder.to_string(),
        filename: filename.to_string(),
        file_type: "PDF".to_string(),
        text: Some(Ok(text.to_string())),
    }
}

#[test]
fn entries_sorted_by_folder_then_filename() {
    let files = vec![
        image("b", "z.png"),
        image("a", "y.png"),
        image("b", "a.png"),
        image("a", "x.png"),
    ];
    let (entries, stats) = process_invoices(files, None);
    let keys: Vec<(String, String)> = entries
        .iter()
        .map(|e| (e.folder.clone(), e.filename.clone()))
        .collect();
    assert_eq!(
        keys,
        vec![
            ("a".to_string(), "x.png".to_string()),
            ("a".to_string(), "y.png".to_string()),
            ("b".to_string(), "a.png".to_string()),
            ("b".to_string(), "z.png".to_string()),
        ]
    );
    assert_eq!(stats.total_files, 4);
    assert_eq!(stats.pdf_files, 0);
}

#[test]
fn sorting_ignores_input_order() {
    let a = vec![image("m", "1.png"), image("k", "2.png"), image("k", "1.png")];
    let b = vec![image("k", "1.png"), image("m", "1.png"), image("k", "2.png")];
    let (ea, _) = process_invoices(a, None);
    let (eb, _) = process_invoices(b, None);
    let ka: Vec<(String, String)> = ea.iter().map(|e| (e.folder.clone(), e.filename.clone())).collect();
    let kb: Vec<(String, String)> = eb.iter().map(|e| (e.folder.clone(), e.filename.clone())).collect();
    assert_eq!(ka, kb);
}

#[test]
fn image_file_backfills_amount_from_name() {
    let files = vec![image("", "receipt_88.5.png")];
    let (entries, stats) = process_invoices(files, None);
    assert_eq!(entries[0].info.amount, "88.5");
    assert_eq!(stats.amount_recognized, 1);
}

#[test]
fn image_without_numeral_keeps_amount_absent() {
    let files = vec![image("", "receipt.png")];
    let (entries, stats) = process_invoices(files, None);
    assert_eq!(entries[0].info.amount, "");
    assert_eq!(stats.amount_recognized, 0);
}

#[test]
fn pdf_entry_runs_extraction() {
    let files = vec![pdf(
        "inbox",
        "a.pdf",
        "发票号码：12345678901234567890\nABC有限公司\nXYZ科技有限公司\n圆整 ¥1,234.56",
    )];
    let (entries, stats) = process_invoices(files, None);
    assert_eq!(entries[0].info.invoice_number, "12345678901234567890");
    assert_eq!(entries[0].info.seller, "XYZ科技有限公司");
    assert_eq!(entries[0].info.amount, "1234.56");
    assert_eq!(stats.total_files, 1);
    assert_eq!(stats.pdf_files, 1);
    assert_eq!(stats.seller_recognized, 1);
    assert_eq!(stats.amount_recognized, 1);
}

#[test]
fn pdf_with_failed_text_counts_nothing() {
    let files = vec![SourceFile {
        folder: "".to_string(),
        filename: "bad.pdf".to_string(),
        file_type: "PDF".to_string(),
        text: Some(Err("坏文件".to_string())),
    }];
    let (entries, stats) = process_invoices(files, None);
    assert_eq!(entries[0].info.remark, "解析错误: 坏文件");
    assert_eq!(stats.pdf_files, 1);
    assert_eq!(stats.seller_recognized, 0);
    assert_eq!(stats.amount_recognized, 0);
}

#[test]
fn asterisk_seller_not_counted_as_recognized() {
    let files = vec![pdf("", "a.pdf", "*某某服务*有限公司等等等\n另一行")];
    let (entries, stats) = process_invoices(files, None);
    // the only candidate-shaped line holds an item marker and is excluded,
    // so no seller is found at all
    assert_eq!(entries[0].info.seller, "");
    assert_eq!(stats.seller_recognized, 0);
}

#[test]
fn report_header_has_fixed_columns() {
    let h = report_header();
    assert_eq!(
        h,
        vec![
            "序号", "文件夹", "文件名", "发票号码", "开票日期", "购买方", "购买方税号",
            "销售方", "销售方税号", "项目内容", "金额", "备注",
        ]
    );
}

#[test]
fn report_row_lists_fields_in_order() {
    let mut info = InvoiceInfo::default();
    info.invoice_number = "12345678901234567890".to_string();
    info.amount = "1234.56".to_string();
    let e = InvoiceFile {
        folder: "inbox".to_string(),
        filename: "a.pdf".to_string(),
        file_type: "PDF".to_string(),
        info,
    };
    let row = report_row(&e);
    assert_eq!(row.len(), 11);
    assert_eq!(row[0], "inbox");
    assert_eq!(row[1], "a.pdf");
    assert_eq!(row[2], "12345678901234567890");
    assert_eq!(row[9], "1234.56");
    assert_eq!(row[10], "");
}

#[test]
fn empty_batch_yields_empty_report() {
    let (entries, stats) = process_invoices(Vec::new(), None);
    assert!(entries.is_empty());
    assert_eq!(stats.total_files, 0);
    assert_eq!(stats.pdf_files, 0);
    assert_eq!(stats.seller_recognized, 0);
    assert_eq!(stats.amount_recognized, 0);
}
