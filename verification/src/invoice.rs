//! Invoice payloads: their fields, the rows of a report, and which payload of a file is
//! reported.

use vstd::prelude::*;
use crate::text::{alphanumeric, chars_of, comma_count, comma_joined, comma_parts, is_alphanumeric, is_whitespace,
    law_comma_parts, law_parts_of_text, law_trimmed, lemma_trimmed_part, slice_of, split_commas, string_of,
    trim_chars, trimmed};

verus! {

/// What a file has to report: where its payload was found and what the payload says.
#[derive(Debug, Clone)]
pub struct QrRow {
    pub file: String,
    pub page: usize,
    pub qr_index: usize,
    pub content: String,
    pub invoice_type_tag: String,
    pub invoice_kind_code: String,
    pub invoice_code: String,
    pub invoice_number: String,
    pub issue_amount: String,
    pub issue_date: String,
    pub invoice_check_code: String,
    pub encrypted_text: String,
}

/// What a [`QrRow`] says.
pub struct Row {
    pub file: Seq<char>,
    pub page: usize,
    pub qr_index: usize,
    pub content: Seq<char>,
    pub fields: Fields,
}

/// The fields of an invoice.
pub struct InvoiceFields {
    pub invoice_type_tag: String,
    pub invoice_kind_code: String,
    pub invoice_code: String,
    pub invoice_number: String,
    pub issue_amount: String,
    pub issue_date: String,
    pub invoice_check_code: String,
    pub encrypted_text: String,
}

/// What [`InvoiceFields`] say.
pub struct Fields {
    pub invoice_type_tag: Seq<char>,
    pub invoice_kind_code: Seq<char>,
    pub invoice_code: Seq<char>,
    pub invoice_number: Seq<char>,
    pub issue_amount: Seq<char>,
    pub issue_date: Seq<char>,
    pub invoice_check_code: Seq<char>,
    pub encrypted_text: Seq<char>,
}

impl View for InvoiceFields {
    type V = Fields;

    open spec fn view(&self) -> Fields {
        Fields {
            invoice_type_tag: self.invoice_type_tag@,
            invoice_kind_code: self.invoice_kind_code@,
            invoice_code: self.invoice_code@,
            invoice_number: self.invoice_number@,
            issue_amount: self.issue_amount@,
            issue_date: self.issue_date@,
            invoice_check_code: self.invoice_check_code@,
            encrypted_text: self.encrypted_text@,
        }
    }
}

impl View for QrRow {
    type V = Row;

    open spec fn view(&self) -> Row {
        Row {
            file: self.file@,
            page: self.page,
            qr_index: self.qr_index,
            content: self.content@,
            fields: Fields {
                invoice_type_tag: self.invoice_type_tag@,
                invoice_kind_code: self.invoice_kind_code@,
                invoice_code: self.invoice_code@,
                invoice_number: self.invoice_number@,
                issue_amount: self.issue_amount@,
                issue_date: self.issue_date@,
                invoice_check_code: self.invoice_check_code@,
                encrypted_text: self.encrypted_text@,
            },
        }
    }
}

/// What some rows say.
pub open spec fn rows_of(rows: Seq<QrRow>) -> Seq<Row> {
    rows.map_values(|row: QrRow| row@)
}

/// A name: letters and digits of ASCII, at least one.
pub open spec fn is_name(text: Seq<char>) -> bool {
    text.len() > 0 && forall|i: int| 0 <= i < text.len() ==> is_alphanumeric(#[trigger] text[i])
}

/// An invoice payload: at least eight parts between commas, the first two of them names.
pub open spec fn is_invoice(text: Seq<char>) -> bool {
    let parts = comma_parts(text);
    parts.len() >= 8 && is_name(trimmed(parts[0])) && is_name(trimmed(parts[1]))
}

/// The fields of a payload: its first eight parts where it is an invoice payload, else the
/// payload itself for each.
pub open spec fn fields_of(content: Seq<char>) -> Fields {
    let parts = comma_parts(content);
    if is_invoice(content) {
        Fields {
            invoice_type_tag: trimmed(parts[0]),
            invoice_kind_code: trimmed(parts[1]),
            invoice_code: trimmed(parts[2]),
            invoice_number: trimmed(parts[3]),
            issue_amount: trimmed(parts[4]),
            issue_date: trimmed(parts[5]),
            invoice_check_code: trimmed(parts[6]),
            encrypted_text: trimmed(parts[7]),
        }
    } else {
        uniform_fields(content)
    }
}

/// The same text in every field.
pub open spec fn uniform_fields(text: Seq<char>) -> Fields {
    Fields {
        invoice_type_tag: text,
        invoice_kind_code: text,
        invoice_code: text,
        invoice_number: text,
        issue_amount: text,
        issue_date: text,
        invoice_check_code: text,
        encrypted_text: text,
    }
}

/// Whether some characters are a name.
fn is_name_chars(chars: &Vec<char>) -> (r: bool)
    ensures
        r == is_name(chars@),
{
    if chars.len() == 0 {
        return false;
    }
    for i in 0..chars.len()
        invariant
            forall|j: int| 0 <= j < i ==> is_alphanumeric(#[trigger] chars@[j]),
    {
        if !alphanumeric(chars[i]) {
            return false;
        }
    }
    true
}

/// Whether the parts of a text make it an invoice payload.
fn are_invoice_parts(parts: &Vec<Vec<char>>) -> (r: bool)
    ensures
        r == (parts@.len() >= 8 && is_name(trimmed(parts@[0]@)) && is_name(trimmed(parts@[1]@))),
{
    if parts.len() < 8 {
        return false;
    }
    let head: Vec<char> = trim_chars(&parts[0]);
    let kind: Vec<char> = trim_chars(&parts[1]);
    is_name_chars(&head) && is_name_chars(&kind)
}

/// Whether a text is an invoice payload.
pub fn is_invoice_payload(text: &str) -> (r: bool)
    ensures
        r == is_invoice(text@),
{
    let chars: Vec<char> = chars_of(text);
    let parts: Vec<Vec<char>> = split_commas(&chars);
    let ghost spec_parts = comma_parts(text@);
    assert(spec_parts.len() == parts@.len());
    assert(forall|i: int| 0 <= i < parts@.len() ==> spec_parts[i] == (#[trigger] parts@[i])@);
    are_invoice_parts(&parts)
}

/// One part of a text, without white space round it.
fn trimmed_part(part: &Vec<char>) -> (r: String)
    ensures
        r@ == trimmed(part@),
{
    let inner: Vec<char> = trim_chars(part);
    string_of(&inner)
}

/// The fields of a payload.
pub fn parse_invoice_fields(content: &str) -> (r: InvoiceFields)
    ensures
        r@ == fields_of(content@),
{
    let chars: Vec<char> = chars_of(content);
    let parts: Vec<Vec<char>> = split_commas(&chars);
    let ghost spec_parts = comma_parts(content@);
    assert(spec_parts.len() == parts@.len());
    assert(forall|i: int| 0 <= i < parts@.len() ==> spec_parts[i] == (#[trigger] parts@[i])@);
    if !are_invoice_parts(&parts) {
        return InvoiceFields {
            invoice_type_tag: content.to_owned(),
            invoice_kind_code: content.to_owned(),
            invoice_code: content.to_owned(),
            invoice_number: content.to_owned(),
            issue_amount: content.to_owned(),
            issue_date: content.to_owned(),
            invoice_check_code: content.to_owned(),
            encrypted_text: content.to_owned(),
        };
    }
    InvoiceFields {
        invoice_type_tag: trimmed_part(&parts[0]),
        invoice_kind_code: trimmed_part(&parts[1]),
        invoice_code: trimmed_part(&parts[2]),
        invoice_number: trimmed_part(&parts[3]),
        issue_amount: trimmed_part(&parts[4]),
        issue_date: trimmed_part(&parts[5]),
        invoice_check_code: trimmed_part(&parts[6]),
        encrypted_text: trimmed_part(&parts[7]),
    }
}

/// The pages and texts of some candidates.
pub open spec fn candidates_of(candidates: Seq<(usize, String)>) -> Seq<(usize, Seq<char>)> {
    candidates.map_values(|c: (usize, String)| (c.0, c.1@))
}

/// The place of the first invoice payload among some candidates.
pub open spec fn first_invoice(candidates: Seq<(usize, Seq<char>)>) -> Option<int>
    decreases candidates.len(),
{
    if candidates.len() == 0 {
        None
    } else {
        match first_invoice(candidates.drop_last()) {
            Some(i) => Some(i),
            None => if is_invoice(candidates.last().1) {
                Some(candidates.len() - 1)
            } else {
                None
            },
        }
    }
}

/// The candidate to report: the first invoice payload, or the first candidate where there
/// is no invoice payload.
pub open spec fn preferred(candidates: Seq<(usize, Seq<char>)>) -> Option<(usize, Seq<char>)> {
    match first_invoice(candidates) {
        Some(i) => Some(candidates[i]),
        None => if candidates.len() > 0 {
            Some(candidates[0])
        } else {
            None
        },
    }
}

proof fn lemma_first_invoice(candidates: Seq<(usize, Seq<char>)>)
    ensures
        first_invoice(candidates) matches Some(i) ==> 0 <= i < candidates.len() && is_invoice(candidates[i].1)
            && forall|j: int| 0 <= j < i ==> !is_invoice(#[trigger] candidates[j].1),
        first_invoice(candidates) is None ==> forall|j: int|
            0 <= j < candidates.len() ==> !is_invoice(#[trigger] candidates[j].1),
    decreases candidates.len(),
{
    if candidates.len() > 0 {
        lemma_first_invoice(candidates.drop_last());
        assert(forall|j: int|
            0 <= j < candidates.len() - 1 ==> candidates.drop_last()[j] == #[trigger] candidates[j]);
    }
}

/// The candidate reported comes from the list. It is an invoice payload wherever the list
/// has one, and then no earlier candidate is; else it is the first of the list. An empty list
/// has none.
pub proof fn law_preferred(candidates: Seq<(usize, Seq<char>)>)
    ensures
        preferred(candidates) is None <==> candidates.len() == 0,
        (exists|j: int| 0 <= j < candidates.len() && is_invoice((#[trigger] candidates[j]).1)) ==> exists|i: int|
            0 <= i < candidates.len() && preferred(candidates) == Some(#[trigger] candidates[i]) && is_invoice(
                candidates[i].1,
            ) && forall|j: int| 0 <= j < i ==> !is_invoice((#[trigger] candidates[j]).1),
        candidates.len() > 0 && !(exists|j: int|
            0 <= j < candidates.len() && is_invoice((#[trigger] candidates[j]).1)) ==> preferred(candidates)
            == Some(candidates[0]),
{
    lemma_first_invoice(candidates);
}

/// The candidate to report.
pub fn select_preferred_payload(candidates: &Vec<(usize, String)>) -> (r: Option<(usize, String)>)
    ensures
        r matches Some(c) ==> preferred(candidates_of(candidates@)) == Some((c.0, c.1@)),
        r is None ==> preferred(candidates_of(candidates@)) is None,
{
    let ghost spec_candidates = candidates_of(candidates@);
    for i in 0..candidates.len()
        invariant
            spec_candidates == candidates_of(candidates@),
            first_invoice(spec_candidates.take(i as int)) is None,
    {
        proof {
            assert(spec_candidates.take(i + 1).drop_last() =~= spec_candidates.take(i as int));
        }
        if is_invoice_payload(candidates[i].1.as_str()) {
            proof {
                lemma_first_invoice_prefix(spec_candidates, i + 1);
            }
            return Some((candidates[i].0, candidates[i].1.clone()));
        }
    }
    assert(spec_candidates.take(candidates@.len() as int) =~= spec_candidates);
    if candidates.len() > 0 {
        Some((candidates[0].0, candidates[0].1.clone()))
    } else {
        None
    }
}

proof fn lemma_first_invoice_prefix(candidates: Seq<(usize, Seq<char>)>, n: int)
    requires
        0 <= n <= candidates.len(),
        first_invoice(candidates.take(n)) is Some,
    ensures
        first_invoice(candidates) == first_invoice(candidates.take(n)),
    decreases candidates.len() - n,
{
    if n < candidates.len() {
        assert(candidates.take(n + 1).drop_last() =~= candidates.take(n));
        lemma_first_invoice_prefix(candidates, n + 1);
    } else {
        assert(candidates.take(n) =~= candidates);
    }
}

/// The row for a payload.
pub open spec fn qr_row(file: Seq<char>, page: usize, qr_index: usize, content: Seq<char>) -> Row {
    Row { file, page, qr_index, content, fields: fields_of(content) }
}

/// The row for a payload.
pub fn build_qr_row(file: &str, page: usize, qr_index: usize, content: String) -> (r: QrRow)
    ensures
        r@ == qr_row(file@, page, qr_index, content@),
{
    let fields: InvoiceFields = parse_invoice_fields(content.as_str());
    QrRow {
        file: file.to_owned(),
        page,
        qr_index,
        content,
        invoice_type_tag: fields.invoice_type_tag,
        invoice_kind_code: fields.invoice_kind_code,
        invoice_code: fields.invoice_code,
        invoice_number: fields.invoice_number,
        issue_amount: fields.issue_amount,
        issue_date: fields.issue_date,
        invoice_check_code: fields.invoice_check_code,
        encrypted_text: fields.encrypted_text,
    }
}

/// The rows for the payloads found in a file: one, for the candidate to report, or none.
pub open spec fn candidate_rows(file: Seq<char>, candidates: Seq<(usize, Seq<char>)>) -> Seq<Row> {
    match preferred(candidates) {
        Some(c) => seq![qr_row(file, c.0, 1, c.1)],
        None => Seq::empty(),
    }
}

/// The rows for the payloads found in a file.
pub fn rows_for(file: &str, candidates: &Vec<(usize, String)>) -> (r: Vec<QrRow>)
    ensures
        rows_of(r@) == candidate_rows(file@, candidates_of(candidates@)),
{
    let mut rows: Vec<QrRow> = Vec::new();
    if let Some((page, content)) = select_preferred_payload(candidates) {
        rows.push(build_qr_row(file, page, 1, content));
    }
    assert(rows_of(rows@) =~= candidate_rows(file@, candidates_of(candidates@)));
    rows
}

/// The row for a file in which nothing was found, with a marker in every field.
pub open spec fn failed_row(file: Seq<char>, marker: Seq<char>) -> Row {
    Row { file, page: 0, qr_index: 0, content: marker, fields: uniform_fields(marker) }
}

/// The row for a file in which nothing was found.
pub fn build_failed_row(file: &str, marker: &str) -> (r: QrRow)
    ensures
        r@ == failed_row(file@, marker@),
{
    QrRow {
        file: file.to_owned(),
        page: 0,
        qr_index: 0,
        content: marker.to_owned(),
        invoice_type_tag: marker.to_owned(),
        invoice_kind_code: marker.to_owned(),
        invoice_code: marker.to_owned(),
        invoice_number: marker.to_owned(),
        issue_amount: marker.to_owned(),
        issue_date: marker.to_owned(),
        invoice_check_code: marker.to_owned(),
        encrypted_text: marker.to_owned(),
    }
}

/// A text on one line.
pub open spec fn on_one_line(text: Seq<char>) -> Seq<char> {
    text.map_values(|c: char| if c == '\n' || c == '\r' { ' ' } else { c })
}

/// The marker for a failure: a fixed word, and the first 32 characters of the message.
pub open spec fn error_marker(message: Seq<char>) -> Seq<char> {
    let inner = trimmed(on_one_line(message));
    if inner.len() == 0 {
        "识别失败"@
    } else {
        "识别失败: "@ + inner.take(if inner.len() < 32 { inner.len() as int } else { 32 })
    }
}

/// The marker for a failure.
pub fn format_scan_error_marker(message: &str) -> (r: String)
    ensures
        r@ == error_marker(message@),
{
    let chars: Vec<char> = chars_of(message);
    let mut line: Vec<char> = Vec::new();
    for i in 0..chars.len()
        invariant
            line@.len() == i,
            forall|j: int|
                0 <= j < i ==> #[trigger] line@[j] == (if chars@[j] == '\n' || chars@[j] == '\r' {
                    ' '
                } else {
                    chars@[j]
                }),
    {
        let c: char = chars[i];
        line.push(if c == '\n' || c == '\r' { ' ' } else { c });
    }
    assert(line@ =~= on_one_line(message@));
    let inner: Vec<char> = trim_chars(&line);
    if inner.len() == 0 {
        return "识别失败".to_owned();
    }
    let length: usize = if inner.len() < 32 { inner.len() } else { 32 };
    let short: Vec<char> = slice_of(&inner, 0, length);
    let mut out: String = "识别失败: ".to_owned();
    let tail: String = string_of(&short);
    out.append(tail.as_str());
    out
}

/// A file has at most one row for what was found in it: just one where anything was, with the
/// text and the page of a candidate, and none where nothing was.
pub proof fn law_one_row(file: Seq<char>, candidates: Seq<(usize, Seq<char>)>)
    ensures
        candidates.len() == 0 ==> candidate_rows(file, candidates).len() == 0,
        candidates.len() > 0 ==> candidate_rows(file, candidates).len() == 1 && exists|i: int|
            0 <= i < candidates.len() && candidate_rows(file, candidates)[0] == qr_row(
                file,
                (#[trigger] candidates[i]).0,
                1,
                candidates[i].1,
            ),
{
    lemma_first_invoice(candidates);
    if candidates.len() > 0 {
        let i = match first_invoice(candidates) {
            Some(i) => i,
            None => 0,
        };
        assert(candidate_rows(file, candidates)[0] == qr_row(file, candidates[i].0, 1, candidates[i].1));
    }
}

/// The marker for a failure begins with the same word for every message, has no line ends in
/// it, and is at most 38 characters long.
pub proof fn law_marker(message: Seq<char>)
    ensures
        error_marker(message).len() <= 38,
        error_marker(message).take(4) == "识别失败"@,
        forall|i: int|
            0 <= i < error_marker(message).len() ==> (#[trigger] error_marker(message)[i]) != '\n' && error_marker(
                message,
            )[i] != '\r',
{
    reveal_strlit("识别失败");
    reveal_strlit("识别失败: ");
    let line = on_one_line(message);
    let inner = trimmed(line);
    lemma_trimmed_part(line);
    let (start, end): (int, int) = choose|start: int, end: int|
        0 <= start <= end <= line.len() && inner == #[trigger] line.subrange(start, end);
    let marker = error_marker(message);
    assert forall|i: int| 0 <= i < marker.len() implies (#[trigger] marker[i]) != '\n' && marker[i] != '\r' by {
        if inner.len() > 0 && i >= 6 {
            let k = start + i - 6;
            assert(marker[i] == line[k]);
            assert(line[k] == if message[k] == '\n' || message[k] == '\r' { ' ' } else { message[k] });
        }
    }
    assert(marker.take(4) =~= "识别失败"@);
}

/// A payload of eight or more parts, the first two of them names, is an invoice payload, and
/// its fields are its first eight parts, without the white space round them.
pub proof fn law_eight_fields(parts: Seq<Seq<char>>)
    requires
        parts.len() >= 8,
        forall|i: int| 0 <= i < parts.len() ==> !(#[trigger] parts[i]).contains(','),
        is_name(trimmed(parts[0])),
        is_name(trimmed(parts[1])),
    ensures
        is_invoice(comma_joined(parts)),
        fields_of(comma_joined(parts)) == (Fields {
            invoice_type_tag: trimmed(parts[0]),
            invoice_kind_code: trimmed(parts[1]),
            invoice_code: trimmed(parts[2]),
            invoice_number: trimmed(parts[3]),
            issue_amount: trimmed(parts[4]),
            issue_date: trimmed(parts[5]),
            invoice_check_code: trimmed(parts[6]),
            encrypted_text: trimmed(parts[7]),
        }),
{
    law_comma_parts(parts);
}

/// A payload is that of an invoice just where it has at least eight parts between its commas,
/// and each of the first two is, but for white space round it, letters and digits of ASCII and
/// not empty.
pub proof fn law_invoice(parts: Seq<Seq<char>>)
    requires
        parts.len() > 0,
        forall|i: int| 0 <= i < parts.len() ==> !(#[trigger] parts[i]).contains(','),
    ensures
        is_invoice(comma_joined(parts)) <==> parts.len() >= 8 && (forall|k: int|
            0 <= k < 2 ==> trimmed(#[trigger] parts[k]).len() > 0 && forall|i: int|
                0 <= i < trimmed(parts[k]).len() ==> is_alphanumeric(#[trigger] trimmed(parts[k])[i])),
{
    law_comma_parts(parts);
    if parts.len() >= 8 && is_name(trimmed(parts[0])) && is_name(trimmed(parts[1])) {
        assert forall|k: int| 0 <= k < 2 implies trimmed(#[trigger] parts[k]).len() > 0 && forall|i: int|
            0 <= i < trimmed(parts[k]).len() ==> is_alphanumeric(#[trigger] trimmed(parts[k])[i]) by {
            assert(k == 0 || k == 1);
        }
    }
}

/// Every text is either an invoice payload, with at least eight parts between commas of which
/// the first eight are its fields, without the white space round them; or it is none, and is
/// itself in every field.
pub proof fn law_fields(content: Seq<char>)
    ensures
        ({
            let fields = fields_of(content);
            let parts = comma_parts(content);
            &&& content == comma_joined(parts)
            &&& is_invoice(content) ==> {
                &&& parts.len() >= 8
                &&& fields.invoice_type_tag == trimmed(parts[0])
                &&& fields.invoice_kind_code == trimmed(parts[1])
                &&& fields.invoice_code == trimmed(parts[2])
                &&& fields.invoice_number == trimmed(parts[3])
                &&& fields.issue_amount == trimmed(parts[4])
                &&& fields.issue_date == trimmed(parts[5])
                &&& fields.invoice_check_code == trimmed(parts[6])
                &&& fields.encrypted_text == trimmed(parts[7])
            }
            &&& !is_invoice(content) ==> {
                &&& fields.invoice_type_tag == content
                &&& fields.invoice_kind_code == content
                &&& fields.invoice_code == content
                &&& fields.invoice_number == content
                &&& fields.issue_amount == content
                &&& fields.issue_date == content
                &&& fields.invoice_check_code == content
                &&& fields.encrypted_text == content
            }
        }),
        comma_count(content) < 7 ==> !is_invoice(content),
{
    law_parts_of_text(content);
}

/// Fields that have no comma and no white space at their ends, written with commas between
/// them, are read back just as they are: no character of them is lost.
pub proof fn law_fields_read_back(parts: Seq<Seq<char>>)
    requires
        parts.len() == 8,
        forall|i: int| 0 <= i < 8 ==> !(#[trigger] parts[i]).contains(','),
        forall|i: int|
            0 <= i < 8 && (#[trigger] parts[i]).len() > 0 ==> !is_whitespace(parts[i][0]) && !is_whitespace(
                parts[i].last(),
            ),
        is_name(parts[0]),
        is_name(parts[1]),
    ensures
        ({
            let fields = fields_of(comma_joined(parts));
            &&& fields.invoice_type_tag == parts[0]
            &&& fields.invoice_kind_code == parts[1]
            &&& fields.invoice_code == parts[2]
            &&& fields.invoice_number == parts[3]
            &&& fields.issue_amount == parts[4]
            &&& fields.issue_date == parts[5]
            &&& fields.invoice_check_code == parts[6]
            &&& fields.encrypted_text == parts[7]
        }),
{
    assert forall|i: int| 0 <= i < 8 implies trimmed(#[trigger] parts[i]) == parts[i] by {
        law_trimmed(parts[i]);
        if parts[i].len() == 0 {
            assert(trimmed(parts[i]) =~= parts[i]);
        }
    }
    law_eight_fields(parts);
}

/// The row of a file is that of one of its candidates, with its page and its text as they are:
/// of the first invoice payload, whatever stands before it, or of the first candidate where
/// none is an invoice payload.
pub proof fn law_reported(file: Seq<char>, candidates: Seq<(usize, Seq<char>)>, i: int)
    requires
        0 <= i < candidates.len(),
        forall|j: int| 0 <= j < i ==> !is_invoice((#[trigger] candidates[j]).1),
        is_invoice(candidates[i].1) || (i == 0 && forall|j: int|
            0 <= j < candidates.len() ==> !is_invoice((#[trigger] candidates[j]).1)),
    ensures
        ({
            let rows = candidate_rows(file, candidates);
            &&& rows.len() == 1
            &&& rows[0].file == file
            &&& rows[0].page == candidates[i].0
            &&& rows[0].qr_index == 1
            &&& rows[0].content == candidates[i].1
            &&& rows[0].fields == fields_of(candidates[i].1)
        }),
{
    lemma_first_invoice(candidates);
    if let Some(k) = first_invoice(candidates) {
        assert(k == i) by {
            if k < i {
                assert(!is_invoice(candidates[k].1));
            }
            if i < k {
                assert(!is_invoice(candidates[i].1));
                assert(!is_invoice(candidates[k].1));
            }
        }
    } else {
        assert(!is_invoice(candidates[i].1));
    }
}

/// The row for a file in which nothing was found names the file, and has the marker for its
/// content and in every field.
pub proof fn law_failed_row(file: Seq<char>, marker: Seq<char>)
    ensures
        ({
            let row = failed_row(file, marker);
            &&& row.file == file
            &&& row.page == 0
            &&& row.qr_index == 0
            &&& row.content == marker
            &&& row.fields.invoice_type_tag == marker
            &&& row.fields.invoice_kind_code == marker
            &&& row.fields.invoice_code == marker
            &&& row.fields.invoice_number == marker
            &&& row.fields.issue_amount == marker
            &&& row.fields.issue_date == marker
            &&& row.fields.invoice_check_code == marker
            &&& row.fields.encrypted_text == marker
        }),
{
}

/// The marker for a message that is on one line and has no white space at its ends shows it, up
/// to its first 32 characters; that for an empty message, or one of white space, is the fixed
/// word alone.
pub proof fn law_marker_text(message: Seq<char>)
    ensures
        message.len() > 0 && !message.contains('\n') && !message.contains('\r') && !is_whitespace(message[0])
            && !is_whitespace(message.last()) ==> error_marker(message) == "识别失败: "@ + message.take(
            if message.len() < 32 {
                message.len() as int
            } else {
                32
            },
        ),
        (forall|i: int| 0 <= i < message.len() ==> is_whitespace(#[trigger] message[i])) ==> error_marker(message)
            == "识别失败"@,
        (exists|i: int| 0 <= i < message.len() && !is_whitespace(#[trigger] message[i])) ==> error_marker(message).len()
            > 6,
{
    let line = on_one_line(message);
    law_trimmed(line);
    let inner = trimmed(line);
    let (start, end): (int, int) = choose|start: int, end: int|
        {
            &&& 0 <= start <= end <= line.len()
            &&& inner == #[trigger] line.subrange(start, end)
            &&& forall|i: int| 0 <= i < start ==> is_whitespace(#[trigger] line[i])
            &&& forall|i: int| end <= i < line.len() ==> is_whitespace(#[trigger] line[i])
        };
    reveal_strlit("识别失败");
    reveal_strlit("识别失败: ");
    if message.len() > 0 && !message.contains('\n') && !message.contains('\r') && !is_whitespace(message[0])
        && !is_whitespace(message.last()) {
        assert(line =~= message) by {
            assert forall|i: int| 0 <= i < message.len() implies line[i] == message[i] by {
                assert(message.contains(message[i]));
            }
        }
    }
    if forall|i: int| 0 <= i < message.len() ==> is_whitespace(#[trigger] message[i]) {
        assert(inner.len() == 0) by {
            if inner.len() > 0 {
                assert(inner[0] == line[start]);
                assert(is_whitespace(message[start]));
                assert(line[start] == if message[start] == '\n' || message[start] == '\r' {
                    ' '
                } else {
                    message[start]
                });
            }
        }
    }
    if exists|i: int| 0 <= i < message.len() && !is_whitespace(#[trigger] message[i]) {
        let i = choose|i: int| 0 <= i < message.len() && !is_whitespace(#[trigger] message[i]);
        assert(line[i] == message[i]);
        assert(start <= i < end);
    }
}

/// What a row says is what each of its fields holds; and what rows say is what each of them says,
/// in order.
pub proof fn law_rows_of(rows: Seq<QrRow>)
    ensures
        rows_of(rows).len() == rows.len(),
        forall|i: int|
            0 <= i < rows.len() ==> {
                let row = #[trigger] rows[i];
                let said = rows_of(rows)[i];
                &&& said.file == row.file@
                &&& said.page == row.page
                &&& said.qr_index == row.qr_index
                &&& said.content == row.content@
                &&& said.fields.invoice_type_tag == row.invoice_type_tag@
                &&& said.fields.invoice_kind_code == row.invoice_kind_code@
                &&& said.fields.invoice_code == row.invoice_code@
                &&& said.fields.invoice_number == row.invoice_number@
                &&& said.fields.issue_amount == row.issue_amount@
                &&& said.fields.issue_date == row.issue_date@
                &&& said.fields.invoice_check_code == row.invoice_check_code@
                &&& said.fields.encrypted_text == row.encrypted_text@
            },
{
}

/// The candidates are each page and text, in order.
pub proof fn law_candidates_of(candidates: Seq<(usize, String)>)
    ensures
        candidates_of(candidates).len() == candidates.len(),
        forall|i: int|
            0 <= i < candidates.len() ==> candidates_of(candidates)[i].0 == (#[trigger] candidates[i]).0 && candidates_of(
                candidates,
            )[i].1 == candidates[i].1@,
{
}

} // verus!
