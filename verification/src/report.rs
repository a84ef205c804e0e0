//! The report: lines for the terminal and a table of comma-separated values.

use vstd::prelude::*;
use vstd::utf8::encode_utf8;
use crate::invoice::{rows_of, QrRow, Row};
use crate::text::{decimal, decimal_text, occurs, occurs_at, texts_of};

verus! {

/// The line for a row.
pub open spec fn row_line(row: Row) -> Seq<char> {
    "file="@ + row.file + " page="@ + decimal(row.page as nat) + " qr_index="@ + decimal(row.qr_index as nat)
        + " content="@ + row.content + " 发票类型标识="@ + row.fields.invoice_type_tag + " 发票种类代码="@
        + row.fields.invoice_kind_code + " 发票代码="@ + row.fields.invoice_code + " 发票号码="@
        + row.fields.invoice_number + " 开票金额="@ + row.fields.issue_amount + " 开票日期="@
        + row.fields.issue_date + " 发票校验码="@ + row.fields.invoice_check_code + " 加密字符="@
        + row.fields.encrypted_text
}

/// The lines for some rows: how many there are, then each of them; or that there is none.
pub open spec fn report_of(rows: Seq<Row>) -> Seq<Seq<char>> {
    if rows.len() == 0 {
        seq!["未识别到二维码"@]
    } else {
        seq!["共识别 "@ + decimal(rows.len()) + " 条二维码:"@] + rows.map_values(|row: Row| row_line(row))
    }
}

/// The line for a row.
fn line_of(row: &QrRow) -> (r: String)
    ensures
        r@ == row_line(row@),
{
    let page: String = decimal_text(row.page as u64);
    let qr_index: String = decimal_text(row.qr_index as u64);
    let mut out: String = "file=".to_owned();
    out.append(row.file.as_str());
    out.append(" page=");
    out.append(page.as_str());
    out.append(" qr_index=");
    out.append(qr_index.as_str());
    out.append(" content=");
    out.append(row.content.as_str());
    out.append(" 发票类型标识=");
    out.append(row.invoice_type_tag.as_str());
    out.append(" 发票种类代码=");
    out.append(row.invoice_kind_code.as_str());
    out.append(" 发票代码=");
    out.append(row.invoice_code.as_str());
    out.append(" 发票号码=");
    out.append(row.invoice_number.as_str());
    out.append(" 开票金额=");
    out.append(row.issue_amount.as_str());
    out.append(" 开票日期=");
    out.append(row.issue_date.as_str());
    out.append(" 发票校验码=");
    out.append(row.invoice_check_code.as_str());
    out.append(" 加密字符=");
    out.append(row.encrypted_text.as_str());
    out
}

/// The lines for some rows.
pub fn report_lines(rows: &Vec<QrRow>) -> (r: Vec<String>)
    ensures
        texts_of(r@) == report_of(rows_of(rows@)),
        rows@.len() > 0 ==> r@.len() == rows@.len() + 1,
        forall|i: int|
            #![trigger rows@[i]]
            0 <= i < rows@.len() ==> occurs(r@[i + 1]@, "file="@ + rows@[i].file@) && occurs(
                r@[i + 1]@,
                " content="@ + rows@[i].content@,
            ),
{
    proof {
        assert forall|i: int|
            #![trigger rows@[i]]
            0 <= i < rows@.len() implies occurs(
            report_of(rows_of(rows@))[i + 1],
            "file="@ + rows@[i].file@,
        ) && occurs(report_of(rows_of(rows@))[i + 1], " content="@ + rows@[i].content@) by {
            law_every_row_shown(rows_of(rows@), i);
            assert(rows_of(rows@)[i] == rows@[i]@);
        }
    }
    let mut lines: Vec<String> = Vec::new();
    if rows.len() == 0 {
        lines.push("未识别到二维码".to_owned());
        assert(texts_of(lines@) =~= report_of(rows_of(rows@)));
        return lines;
    }
    let count: String = decimal_text(rows.len() as u64);
    let mut head: String = "共识别 ".to_owned();
    head.append(count.as_str());
    head.append(" 条二维码:");
    lines.push(head);
    for i in 0..rows.len()
        invariant
            0 < rows@.len(),
            lines@.len() == i + 1,
            lines@[0]@ == report_of(rows_of(rows@))[0],
            forall|j: int| 0 <= j < i ==> (#[trigger] lines@[j + 1])@ == row_line(rows@[j]@),
    {
        let ghost before = lines@;
        lines.push(line_of(&rows[i]));
        assert(forall|j: int| 0 <= j <= i ==> before[j] == #[trigger] lines@[j]);
    }
    assert(texts_of(lines@).len() == lines@.len());
    assert(texts_of(lines@) =~= report_of(rows_of(rows@))) by {
        assert forall|k: int| 0 <= k < lines@.len() implies (#[trigger] lines@[k])@ == report_of(
            rows_of(rows@),
        )[k] by {
            if k > 0 {
                assert(lines@[(k - 1) + 1]@ == row_line(rows@[k - 1]@));
            }
        }
    }
    assert(forall|i: int|
        #![trigger rows@[i]]
        0 <= i < rows@.len() ==> texts_of(lines@)[i + 1] == lines@[i + 1]@);
    lines
}

/// The headings of the table.
pub open spec fn headings() -> Seq<Seq<char>> {
    seq![
        "文件"@,
        "发票类型标识"@,
        "发票种类代码"@,
        "发票代码"@,
        "发票号码"@,
        "开票金额"@,
        "开票日期"@,
        "发票校验码"@,
        "加密字符"@,
    ]
}

/// The record of a row: its file and its eight fields.
pub open spec fn record_of(row: Row) -> Seq<Seq<char>> {
    seq![
        row.file,
        row.fields.invoice_type_tag,
        row.fields.invoice_kind_code,
        row.fields.invoice_code,
        row.fields.invoice_number,
        row.fields.issue_amount,
        row.fields.issue_date,
        row.fields.invoice_check_code,
        row.fields.encrypted_text,
    ]
}

/// The records of the table: the headings, then one for each row.
pub open spec fn table_of(rows: Seq<Row>) -> Seq<Seq<Seq<char>>> {
    seq![headings()] + rows.map_values(|row: Row| record_of(row))
}

/// Whether a byte is a comma, a quotation mark or the end of a line.
pub open spec fn is_special(byte: u8) -> bool {
    byte == 44 || byte == 34 || byte == 13 || byte == 10
}

/// Bytes with each quotation mark doubled.
pub open spec fn doubled(bytes: Seq<u8>) -> Seq<u8>
    decreases bytes.len(),
{
    if bytes.len() == 0 {
        Seq::empty()
    } else if bytes.last() == 34 {
        doubled(bytes.drop_last()) + seq![34u8, 34]
    } else {
        doubled(bytes.drop_last()).push(bytes.last())
    }
}

/// The bytes of a text among comma-separated values: in UTF-8, and between quotation marks
/// where a byte of it is special.
pub open spec fn csv_field(text: Seq<char>) -> Seq<u8> {
    let bytes = encode_utf8(text);
    if exists|i: int| 0 <= i < bytes.len() && is_special(#[trigger] bytes[i]) {
        seq![34u8] + doubled(bytes) + seq![34u8]
    } else {
        bytes
    }
}

/// The bytes of some texts, with commas between them.
pub open spec fn csv_fields(texts: Seq<Seq<char>>) -> Seq<u8>
    decreases texts.len(),
{
    if texts.len() == 0 {
        Seq::empty()
    } else if texts.len() == 1 {
        csv_field(texts[0])
    } else {
        csv_fields(texts.drop_last()).push(44) + csv_field(texts.last())
    }
}

/// The bytes of one record as comma-separated values.
pub open spec fn csv_record(record: Seq<Seq<char>>) -> Seq<u8> {
    csv_fields(record).push(10)
}

/// Calls `csv::Writer::write_record`, on a writer into memory. Claimed of it, for a record of
/// two texts or more: they are written with commas between them and a line end behind them,
/// each in UTF-8, and quoted just where it holds a comma, a quotation mark or a line end.
#[verifier::external_body]
fn write_record(record: &Vec<String>) -> (r: Vec<u8>)
    requires
        record@.len() >= 2,
    ensures
        r@ == csv_record(texts_of(record@)),
{
    let mut writer = csv::WriterBuilder::new().from_writer(Vec::new());
    writer.write_record(record).unwrap();
    writer.into_inner().unwrap()
}

/// The bytes of records as comma-separated values, one after the other.
pub open spec fn csv_document(records: Seq<Seq<Seq<char>>>) -> Seq<u8>
    decreases records.len(),
{
    if records.len() == 0 {
        Seq::empty()
    } else {
        csv_document(records.drop_last()) + csv_record(records.last())
    }
}

/// The record of a row.
fn record(row: &QrRow) -> (r: Vec<String>)
    ensures
        texts_of(r@) == record_of(row@),
        r@.len() == 9,
{
    let mut out: Vec<String> = Vec::new();
    out.push(row.file.clone());
    out.push(row.invoice_type_tag.clone());
    out.push(row.invoice_kind_code.clone());
    out.push(row.invoice_code.clone());
    out.push(row.invoice_number.clone());
    out.push(row.issue_amount.clone());
    out.push(row.issue_date.clone());
    out.push(row.invoice_check_code.clone());
    out.push(row.encrypted_text.clone());
    assert(texts_of(out@) =~= record_of(row@));
    out
}

/// The headings of the table.
fn heading_record() -> (r: Vec<String>)
    ensures
        texts_of(r@) == headings(),
        r@.len() == 9,
{
    let mut out: Vec<String> = Vec::new();
    out.push("文件".to_owned());
    out.push("发票类型标识".to_owned());
    out.push("发票种类代码".to_owned());
    out.push("发票代码".to_owned());
    out.push("发票号码".to_owned());
    out.push("开票金额".to_owned());
    out.push("开票日期".to_owned());
    out.push("发票校验码".to_owned());
    out.push("加密字符".to_owned());
    assert(texts_of(out@) =~= headings());
    out
}

/// The table as comma-separated values: the headings, then a record for each row.
pub fn write_csv(rows: &Vec<QrRow>) -> (r: Vec<u8>)
    ensures
        r@ == csv_document(table_of(rows_of(rows@))),
{
    let ghost table = table_of(rows_of(rows@));
    let heading: Vec<String> = heading_record();
    let mut out: Vec<u8> = write_record(&heading);
    proof {
        assert(table.take(1).drop_last() =~= Seq::<Seq<Seq<char>>>::empty());
        assert(csv_document(Seq::empty()) =~= Seq::<u8>::empty());
        assert(Seq::<u8>::empty() + csv_record(headings()) =~= csv_record(headings()));
    }
    for i in 0..rows.len()
        invariant
            table == table_of(rows_of(rows@)),
            out@ == csv_document(table.take(i + 1)),
    {
        let fields: Vec<String> = record(&rows[i]);
        let mut bytes: Vec<u8> = write_record(&fields);
        assert(table.take(i + 2).drop_last() =~= table.take(i + 1));
        out.append(&mut bytes);
    }
    assert(table.take((rows@.len() + 1) as int) =~= table);
    out
}

/// Texts one after the other.
pub open spec fn strung(texts: Seq<Seq<char>>) -> Seq<char>
    decreases texts.len(),
{
    if texts.len() == 0 {
        Seq::empty()
    } else {
        strung(texts.drop_last()) + texts.last()
    }
}

proof fn lemma_strung_part(texts: Seq<Seq<char>>, k: int)
    requires
        0 <= k < texts.len(),
    ensures
        occurs(strung(texts), texts[k]),
    decreases texts.len(),
{
    let all = strung(texts);
    let head = strung(texts.drop_last());
    let n = texts.len() - 1;
    if k == n {
        assert(all.subrange(head.len() as int, (head.len() + texts.last().len()) as int) =~= texts.last());
        assert(occurs_at(all, texts[k], head.len() as int));
    } else {
        lemma_strung_part(texts.drop_last(), k);
        let i = choose|i: int| occurs_at(head, texts[k], i);
        assert(all.subrange(i, i + texts[k].len()) =~= head.subrange(i, i + texts[k].len()));
        assert(occurs_at(all, texts[k], i));
    }
}

/// The line for a row names its file, page, index and content and each of its eight fields, as
/// they are, behind their names, and nothing else.
#[verifier::spinoff_prover]
#[verifier::rlimit(60)]
pub proof fn law_row_line(row: Row)
    ensures
        occurs(row_line(row), "file="@ + row.file),
        occurs(row_line(row), " page="@ + decimal(row.page as nat)),
        occurs(row_line(row), " qr_index="@ + decimal(row.qr_index as nat)),
        occurs(row_line(row), " content="@ + row.content),
        occurs(row_line(row), " 发票类型标识="@ + row.fields.invoice_type_tag),
        occurs(row_line(row), " 发票种类代码="@ + row.fields.invoice_kind_code),
        occurs(row_line(row), " 发票代码="@ + row.fields.invoice_code),
        occurs(row_line(row), " 发票号码="@ + row.fields.invoice_number),
        occurs(row_line(row), " 开票金额="@ + row.fields.issue_amount),
        occurs(row_line(row), " 开票日期="@ + row.fields.issue_date),
        occurs(row_line(row), " 发票校验码="@ + row.fields.invoice_check_code),
        occurs(row_line(row), " 加密字符="@ + row.fields.encrypted_text),
        row_line(row).len() == 83 + row.file.len() + decimal(row.page as nat).len() + decimal(
            row.qr_index as nat,
        ).len() + row.content.len() + row.fields.invoice_type_tag.len() + row.fields.invoice_kind_code.len()
            + row.fields.invoice_code.len() + row.fields.invoice_number.len() + row.fields.issue_amount.len()
            + row.fields.issue_date.len() + row.fields.invoice_check_code.len() + row.fields.encrypted_text.len(),
{
    let pieces = seq![
        "file="@ + row.file,
        " page="@ + decimal(row.page as nat),
        " qr_index="@ + decimal(row.qr_index as nat),
        " content="@ + row.content,
        " 发票类型标识="@ + row.fields.invoice_type_tag,
        " 发票种类代码="@ + row.fields.invoice_kind_code,
        " 发票代码="@ + row.fields.invoice_code,
        " 发票号码="@ + row.fields.invoice_number,
        " 开票金额="@ + row.fields.issue_amount,
        " 开票日期="@ + row.fields.issue_date,
        " 发票校验码="@ + row.fields.invoice_check_code,
        " 加密字符="@ + row.fields.encrypted_text,
    ];
    reveal_with_fuel(strung, 13);
    reveal_strlit("file=");
    reveal_strlit(" page=");
    reveal_strlit(" qr_index=");
    reveal_strlit(" content=");
    reveal_strlit(" 发票类型标识=");
    reveal_strlit(" 发票种类代码=");
    reveal_strlit(" 发票代码=");
    reveal_strlit(" 发票号码=");
    reveal_strlit(" 开票金额=");
    reveal_strlit(" 开票日期=");
    reveal_strlit(" 发票校验码=");
    reveal_strlit(" 加密字符=");
    assert(pieces.take(1).drop_last() =~= pieces.take(0));
    assert(pieces.take(2).drop_last() =~= pieces.take(1));
    assert(pieces.take(3).drop_last() =~= pieces.take(2));
    assert(pieces.take(4).drop_last() =~= pieces.take(3));
    assert(pieces.take(5).drop_last() =~= pieces.take(4));
    assert(pieces.take(6).drop_last() =~= pieces.take(5));
    assert(pieces.take(7).drop_last() =~= pieces.take(6));
    assert(pieces.take(8).drop_last() =~= pieces.take(7));
    assert(pieces.take(9).drop_last() =~= pieces.take(8));
    assert(pieces.take(10).drop_last() =~= pieces.take(9));
    assert(pieces.take(11).drop_last() =~= pieces.take(10));
    assert(pieces.take(12).drop_last() =~= pieces.take(11));
    assert(pieces.take(12) =~= pieces);
    assert(strung(pieces.take(1)) == strung(pieces.take(0)) + ("file="@ + row.file));
    assert(strung(pieces.take(2)) == strung(pieces.take(1)) + (" page="@ + decimal(row.page as nat)));
    assert(strung(pieces.take(3)) == strung(pieces.take(2)) + (" qr_index="@ + decimal(row.qr_index as nat)));
    assert(strung(pieces.take(4)) == strung(pieces.take(3)) + (" content="@ + row.content));
    assert(strung(pieces.take(5)) == strung(pieces.take(4)) + (" 发票类型标识="@ + row.fields.invoice_type_tag));
    assert(strung(pieces.take(6)) == strung(pieces.take(5)) + (" 发票种类代码="@ + row.fields.invoice_kind_code));
    assert(strung(pieces.take(7)) == strung(pieces.take(6)) + (" 发票代码="@ + row.fields.invoice_code));
    assert(strung(pieces.take(8)) == strung(pieces.take(7)) + (" 发票号码="@ + row.fields.invoice_number));
    assert(strung(pieces.take(9)) == strung(pieces.take(8)) + (" 开票金额="@ + row.fields.issue_amount));
    assert(strung(pieces.take(10)) == strung(pieces.take(9)) + (" 开票日期="@ + row.fields.issue_date));
    assert(strung(pieces.take(11)) == strung(pieces.take(10)) + (" 发票校验码="@ + row.fields.invoice_check_code));
    assert(strung(pieces.take(12)) == strung(pieces.take(11)) + (" 加密字符="@ + row.fields.encrypted_text));
    assert(row_line(row) =~= strung(pieces));
    lemma_strung_part(pieces, 0);
    lemma_strung_part(pieces, 1);
    lemma_strung_part(pieces, 2);
    lemma_strung_part(pieces, 3);
    lemma_strung_part(pieces, 4);
    lemma_strung_part(pieces, 5);
    lemma_strung_part(pieces, 6);
    lemma_strung_part(pieces, 7);
    lemma_strung_part(pieces, 8);
    lemma_strung_part(pieces, 9);
    lemma_strung_part(pieces, 10);
    lemma_strung_part(pieces, 11);
}

/// The report of some rows has a line for each of them, in order, behind one line that says how
/// many there are; without rows it says that there are none.
pub proof fn law_report(rows: Seq<Row>)
    ensures
        rows.len() == 0 ==> report_of(rows) == seq!["未识别到二维码"@],
        rows.len() > 0 ==> report_of(rows).len() == rows.len() + 1 && report_of(rows)[0] == "共识别 "@ + decimal(
            rows.len(),
        ) + " 条二维码:"@,
        forall|i: int| 0 <= i < rows.len() ==> report_of(rows)[i + 1] == row_line(#[trigger] rows[i]),
{
}

/// Each row of a report is shown: its line names its file and its content.
pub proof fn law_every_row_shown(rows: Seq<Row>, i: int)
    requires
        0 <= i < rows.len(),
    ensures
        occurs(report_of(rows)[i + 1], "file="@ + rows[i].file),
        occurs(report_of(rows)[i + 1], " content="@ + rows[i].content),
{
    law_report(rows);
    law_row_line(rows[i]);
}

/// The table has a record of nine texts for each row, in order, behind one with the headings:
/// the file of the row and its eight fields, each under its heading.
pub proof fn law_table(rows: Seq<Row>)
    ensures
        table_of(rows).len() == rows.len() + 1,
        forall|i: int| 0 <= i < table_of(rows).len() ==> (#[trigger] table_of(rows)[i]).len() == 9,
        table_of(rows)[0][0] == "文件"@,
        table_of(rows)[0][1] == "发票类型标识"@,
        table_of(rows)[0][2] == "发票种类代码"@,
        table_of(rows)[0][3] == "发票代码"@,
        table_of(rows)[0][4] == "发票号码"@,
        table_of(rows)[0][5] == "开票金额"@,
        table_of(rows)[0][6] == "开票日期"@,
        table_of(rows)[0][7] == "发票校验码"@,
        table_of(rows)[0][8] == "加密字符"@,
        forall|i: int|
            0 <= i < rows.len() ==> {
                let record = table_of(rows)[i + 1];
                &&& record[0] == (#[trigger] rows[i]).file
                &&& record[1] == rows[i].fields.invoice_type_tag
                &&& record[2] == rows[i].fields.invoice_kind_code
                &&& record[3] == rows[i].fields.invoice_code
                &&& record[4] == rows[i].fields.invoice_number
                &&& record[5] == rows[i].fields.issue_amount
                &&& record[6] == rows[i].fields.issue_date
                &&& record[7] == rows[i].fields.invoice_check_code
                &&& record[8] == rows[i].fields.encrypted_text
            },
{
    assert forall|i: int| 0 <= i < table_of(rows).len() implies (#[trigger] table_of(rows)[i]).len() == 9 by {
        if i > 0 {
            assert(table_of(rows)[i] == record_of(rows[i - 1]));
        }
    }
}

/// The bytes of a table are those of each of its records, one after the other.
pub proof fn law_csv_document(records: Seq<Seq<Seq<char>>>, record: Seq<Seq<char>>)
    ensures
        csv_document(Seq::empty()) == Seq::<u8>::empty(),
        csv_document(records.push(record)) == csv_document(records) + csv_record(record),
{
    assert(records.push(record).drop_last() =~= records);
}

/// A record is its texts with commas between them and a line end behind them. A text without
/// commas, quotation marks and line ends is written as it is; any other between quotation marks.
pub proof fn law_csv_record(texts: Seq<Seq<char>>, text: Seq<char>)
    requires
        texts.len() > 0,
    ensures
        csv_record(seq![text]) == csv_field(text) + seq![10u8],
        csv_record(texts.push(text)) == csv_record(texts).drop_last() + seq![44u8] + csv_field(text) + seq![10u8],
        (forall|i: int|
            0 <= i < encode_utf8(text).len() ==> {
                let b = #[trigger] encode_utf8(text)[i];
                b != 44 && b != 34 && b != 13 && b != 10
            }) ==> csv_field(text) == encode_utf8(text),
        (exists|i: int|
            0 <= i < encode_utf8(text).len() && {
                let b = #[trigger] encode_utf8(text)[i];
                b == 44 || b == 34 || b == 13 || b == 10
            }) ==> csv_field(text).len() >= 2 && csv_field(text)[0] == 34 && csv_field(text).last() == 34 && undoubled(
            csv_field(text).subrange(1, csv_field(text).len() - 1),
        ) == Some(encode_utf8(text)),
{
    let bytes = encode_utf8(text);
    let all = texts.push(text);
    assert(all.drop_last() =~= texts);
    assert(all.last() == text);
    assert(csv_record(texts).drop_last() =~= csv_fields(texts));
    assert(csv_record(all) =~= csv_record(texts).drop_last() + seq![44u8] + csv_field(text) + seq![10u8]);
    assert(csv_record(seq![text]) =~= csv_field(text) + seq![10u8]);
    if exists|i: int| 0 <= i < bytes.len() && is_special(#[trigger] bytes[i]) {
        let field = csv_field(text);
        assert(field.subrange(1, field.len() - 1) =~= doubled(bytes));
        lemma_undoubled(bytes);
    }
}

/// Bytes with each pair of quotation marks made one; none where a quotation mark stands alone.
pub open spec fn undoubled(bytes: Seq<u8>) -> Option<Seq<u8>>
    decreases bytes.len(),
{
    if bytes.len() == 0 {
        Some(Seq::empty())
    } else if bytes.last() != 34 {
        match undoubled(bytes.drop_last()) {
            Some(rest) => Some(rest.push(bytes.last())),
            None => None,
        }
    } else if bytes.len() >= 2 && bytes[bytes.len() - 2] == 34 {
        match undoubled(bytes.take(bytes.len() - 2)) {
            Some(rest) => Some(rest.push(34)),
            None => None,
        }
    } else {
        None
    }
}

proof fn lemma_undoubled(bytes: Seq<u8>)
    ensures
        undoubled(doubled(bytes)) == Some(bytes),
    decreases bytes.len(),
{
    let all = doubled(bytes);
    if bytes.len() == 0 {
        assert(bytes =~= Seq::<u8>::empty());
    } else {
        let head = doubled(bytes.drop_last());
        lemma_undoubled(bytes.drop_last());
        assert(bytes.drop_last().push(bytes.last()) =~= bytes);
        if bytes.last() == 34 {
            assert(all.take(all.len() - 2) =~= head);
            assert(all.last() == 34 && all[all.len() - 2] == 34);
        } else {
            assert(all.drop_last() =~= head);
        }
    }
}

} // verus!
