use qr_scan::invoice::{
    build_failed_row, build_qr_row, format_scan_error_marker, is_invoice_payload, parse_invoice_fields, rows_for,
    select_preferred_payload,
};
use qr_scan::report::{report_lines, write_csv};

const PAYLOAD: &str = "01,32,,24512000,88.50,20240315,12345678,9AF3";

fn candidates(list: &[(usize, &str)]) -> Vec<(usize, String)> {
    list.iter().map(|(page, text)| (*page, text.to_string())).collect()
}

#[test]
fn eight_parts_make_an_invoice() {
    assert!(is_invoice_payload(PAYLOAD));
    assert!(is_invoice_payload("01,32,a,b,c,d,e,f,g"));
    assert!(is_invoice_payload(" 01 , 32 ,,,,,,"));
    assert!(!is_invoice_payload("01,32,a,b,c,d,e"));
    assert!(!is_invoice_payload(",32,a,b,c,d,e,f"));
    assert!(!is_invoice_payload("01,,a,b,c,d,e,f"));
    assert!(!is_invoice_payload("0-1,32,a,b,c,d,e,f"));
    assert!(!is_invoice_payload("01,三,a,b,c,d,e,f"));
    assert!(!is_invoice_payload(""));
}

#[test]
fn fields_are_the_eight_parts() {
    let fields = parse_invoice_fields("01, 32 ,a,24512000,88.50,20240315,12345678,9AF3,rest");
    assert_eq!(fields.invoice_type_tag, "01");
    assert_eq!(fields.invoice_kind_code, "32");
    assert_eq!(fields.invoice_code, "a");
    assert_eq!(fields.invoice_number, "24512000");
    assert_eq!(fields.issue_amount, "88.50");
    assert_eq!(fields.issue_date, "20240315");
    assert_eq!(fields.invoice_check_code, "12345678");
    assert_eq!(fields.encrypted_text, "9AF3");
}

#[test]
fn other_payloads_fill_every_field() {
    let fields = parse_invoice_fields("https://example.com");
    assert_eq!(fields.invoice_type_tag, "https://example.com");
    assert_eq!(fields.invoice_number, "https://example.com");
    assert_eq!(fields.encrypted_text, "https://example.com");
}

#[test]
fn an_invoice_is_preferred() {
    let list = candidates(&[(1, "first"), (2, PAYLOAD), (3, "01,32,a,b,c,d,e,f")]);
    assert_eq!(select_preferred_payload(&list), Some((2, PAYLOAD.to_string())));
}

#[test]
fn else_the_first_candidate_is_reported() {
    let list = candidates(&[(4, "first"), (5, "second")]);
    assert_eq!(select_preferred_payload(&list), Some((4, "first".to_string())));
    assert_eq!(select_preferred_payload(&candidates(&[])), None);
}

#[test]
fn rows_carry_the_fields() {
    let row = build_qr_row("a.pdf", 3, 1, PAYLOAD.to_string());
    assert_eq!(row.file, "a.pdf");
    assert_eq!(row.page, 3);
    assert_eq!(row.qr_index, 1);
    assert_eq!(row.content, PAYLOAD);
    assert_eq!(row.issue_amount, "88.50");
    let rows = rows_for("a.pdf", &candidates(&[(7, PAYLOAD)]));
    assert_eq!(rows.len(), 1);
    assert_eq!(rows[0].page, 7);
    assert_eq!(rows[0].qr_index, 1);
    assert!(rows_for("a.pdf", &candidates(&[])).is_empty());
}

#[test]
fn failed_rows_carry_the_marker() {
    let row = build_failed_row("b.pdf", "识别失败");
    assert_eq!(row.page, 0);
    assert_eq!(row.qr_index, 0);
    assert_eq!(row.content, "识别失败");
    assert_eq!(row.invoice_type_tag, "识别失败");
    assert_eq!(row.encrypted_text, "识别失败");
}

#[test]
fn error_markers_are_short_and_on_one_line() {
    assert_eq!(format_scan_error_marker("超时"), "识别失败: 超时");
    assert_eq!(format_scan_error_marker(" \r\n "), "识别失败");
    assert_eq!(format_scan_error_marker(""), "识别失败");
    assert_eq!(format_scan_error_marker("a\nb\rc"), "识别失败: a b c");
    let long = "一二三四五六七八九十".repeat(5);
    let wanted: String = long.chars().take(32).collect();
    assert_eq!(format_scan_error_marker(&long), format!("识别失败: {wanted}"));
}

#[test]
fn report_lists_every_row() {
    assert_eq!(report_lines(&vec![]), vec!["未识别到二维码".to_string()]);
    let rows = vec![build_qr_row("a.pdf", 2, 1, PAYLOAD.to_string())];
    assert_eq!(
        report_lines(&rows),
        vec![
            "共识别 1 条二维码:".to_string(),
            format!(
                "file=a.pdf page=2 qr_index=1 content={PAYLOAD} 发票类型标识=01 发票种类代码=32 发票代码= \
                 发票号码=24512000 开票金额=88.50 开票日期=20240315 发票校验码=12345678 加密字符=9AF3"
            ),
        ]
    );
}

#[test]
fn table_has_headings_and_records() {
    let rows = vec![
        build_qr_row("a,b.pdf", 2, 1, PAYLOAD.to_string()),
        build_failed_row("c.png", "say \"no\""),
    ];
    let text = String::from_utf8(write_csv(&rows)).unwrap();
    let wanted = "文件,发票类型标识,发票种类代码,发票代码,发票号码,开票金额,开票日期,发票校验码,加密字符\n\
                  \"a,b.pdf\",01,32,,24512000,88.50,20240315,12345678,9AF3\n\
                  c.png,\"say \"\"no\"\"\",\"say \"\"no\"\"\",\"say \"\"no\"\"\",\"say \"\"no\"\"\",\"say \"\"no\"\"\",\
                  \"say \"\"no\"\"\",\"say \"\"no\"\"\",\"say \"\"no\"\"\"\n";
    assert_eq!(text, wanted);
    let mut writer = csv::WriterBuilder::new().from_writer(Vec::new());
    writer.write_record(["文件", "发票类型标识", "发票种类代码", "发票代码", "发票号码", "开票金额", "开票日期", "发票校验码", "加密字符"]).unwrap();
    assert_eq!(write_csv(&vec![]), writer.into_inner().unwrap());
}
