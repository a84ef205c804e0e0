//! Payloads in the text of a document.

use vstd::prelude::*;
use crate::candidates::{byte_texts, decode_pdf_text_bytes, extract_qr_candidates, qr_candidates};
use crate::errors::ScanError;
use crate::invoice::{candidate_rows, candidates_of, is_invoice, law_reported, rows_for, rows_of, QrRow, Row};
use crate::loader::{content_operations, decode_content, load_document, loaded, operand_of, operands_of,
    operations_of, Operand};
use crate::pdf::{fetched, is_numbered, ObjectId, PdfDocument, PdfObject, PdfPage};
use crate::streams::{decompressed, decompressed_content};
use crate::text::{insert_texts, is_text_set, law_with_texts, texts_of, with_texts};

verus! {

/// The payloads in some texts.
pub open spec fn payloads_in(texts: Seq<Seq<char>>) -> Seq<Seq<char>>
    decreases texts.len(),
{
    if texts.len() == 0 {
        Seq::empty()
    } else {
        payloads_in(texts.drop_last()) + qr_candidates(texts.last())
    }
}

/// The payloads in the texts that some bytes may stand for.
pub open spec fn byte_payloads(bytes: Seq<u8>) -> Seq<Seq<char>> {
    payloads_in(byte_texts(bytes))
}

/// Adding texts and then more of them is adding both.
pub proof fn lemma_with_texts_concat(set: Seq<Seq<char>>, first: Seq<Seq<char>>, second: Seq<Seq<char>>)
    ensures
        with_texts(with_texts(set, first), second) == with_texts(set, first + second),
    decreases second.len(),
{
    if second.len() == 0 {
        assert(first + second =~= first);
    } else {
        lemma_with_texts_concat(set, first, second.drop_last());
        assert((first + second).drop_last() =~= first + second.drop_last());
    }
}

/// Adds the payloads in the texts that some bytes may stand for.
fn insert_byte_payloads(bytes: &[u8], out: &mut Vec<String>)
    ensures
        texts_of(final(out)@) == with_texts(texts_of(old(out)@), byte_payloads(bytes@)),
{
    let texts: Vec<String> = decode_pdf_text_bytes(bytes);
    let ghost all = texts_of(texts@);
    let ghost before = texts_of(out@);
    for i in 0..texts.len()
        invariant
            all == texts_of(texts@),
            texts_of(out@) == with_texts(before, payloads_in(all.take(i as int))),
    {
        let payloads: Vec<String> = extract_qr_candidates(texts[i].as_str());
        proof {
            assert(all.take(i + 1).drop_last() =~= all.take(i as int));
            lemma_with_texts_concat(before, payloads_in(all.take(i as int)), qr_candidates(all[i as int]));
        }
        insert_texts(out, &payloads);
    }
    assert(all.take(all.len() as int) =~= all);
}

/// The payloads in what an operand says: in a text, or in the items of a list.
pub open spec fn operand_payloads(operand: Operand) -> Seq<Seq<char>>
    decreases operand,
{
    match operand {
        Operand::Text(bytes) => byte_payloads(bytes),
        Operand::List(items) => list_payloads(items),
        Operand::Other => Seq::empty(),
    }
}

/// The payloads in what some operands say.
pub open spec fn list_payloads(items: Seq<Operand>) -> Seq<Seq<char>>
    decreases items,
{
    if items.len() == 0 {
        Seq::empty()
    } else {
        operand_payloads(items[0]) + list_payloads(items.drop_first())
    }
}

/// Adds the payloads in the texts of an object.
pub fn collect_strings_from_object(object: &PdfObject, out: &mut Vec<String>)
    ensures
        texts_of(final(out)@) == with_texts(texts_of(old(out)@), operand_payloads(operand_of(*object))),
    decreases *object,
{
    match object {
        PdfObject::Text(bytes) => insert_byte_payloads(bytes.as_slice(), out),
        PdfObject::Array(items) => {
            assert(items@.subrange(0, items@.len() as int) =~= items@);
            collect_strings_from_list(items, 0, out)
        },
        _ => {},
    }
}

/// Adds the payloads in the texts of some objects, from one on.
fn collect_strings_from_list(items: &Vec<PdfObject>, start: usize, out: &mut Vec<String>)
    requires
        start <= items@.len(),
    ensures
        texts_of(final(out)@) == with_texts(
            texts_of(old(out)@),
            list_payloads(operands_of(items@.subrange(start as int, items@.len() as int))),
        ),
    decreases items@.subrange(start as int, items@.len() as int),
{
    let ghost rest = items@.subrange(start as int, items@.len() as int);
    if start == items.len() {
        return;
    }
    let ghost before = texts_of(out@);
    assert(rest[0] == items@[start as int]);
    collect_strings_from_object(&items[start], out);
    proof {
        assert(rest.drop_first() =~= items@.subrange(start + 1, items@.len() as int));
        assert(operands_of(rest).drop_first() =~= operands_of(rest.drop_first()));
        lemma_with_texts_concat(
            before,
            operand_payloads(operand_of(rest[0])),
            list_payloads(operands_of(rest.drop_first())),
        );
    }
    collect_strings_from_list(items, start + 1, out);
}

/// The content of some streams, unpacked where that succeeds, each on lines of its own. What
/// is no stream is left out.
pub open spec fn joined_content(document: PdfDocument, ids: Seq<ObjectId>) -> Seq<u8>
    decreases ids.len(),
{
    if ids.len() == 0 {
        Seq::empty()
    } else {
        let head = joined_content(document, ids.drop_last());
        match fetched(document, ids.last()) {
            Some(PdfObject::Stream(stream)) => match decompressed(stream) {
                Some(bytes) => (head + bytes).push(10),
                None => (head + stream.content@).push(10),
            },
            _ => head,
        }
    }
}

/// The content of a page.
pub fn page_content(document: &PdfDocument, page: &PdfPage) -> (r: Vec<u8>)
    ensures
        r@ == joined_content(*document, page.contents@),
{
    let mut out: Vec<u8> = Vec::new();
    let ghost ids = page.contents@;
    for i in 0..page.contents.len()
        invariant
            ids == page.contents@,
            out@ == joined_content(*document, ids.take(i as int)),
    {
        assert(ids.take(i + 1).drop_last() =~= ids.take(i as int));
        if let Ok(PdfObject::Stream(stream)) = document.get_object(page.contents[i]) {
            match decompressed_content(stream) {
                Some(bytes) => {
                    let mut bytes = bytes;
                    out.append(&mut bytes);
                },
                None => {
                    let mut bytes: Vec<u8> = stream.content.clone();
                    assert(bytes@ =~= stream.content@);
                    out.append(&mut bytes);
                },
            }
            out.push(10);
        }
    }
    assert(ids.take(ids.len() as int) =~= ids);
    out
}

/// The payloads in the bytes of some streams, each on its own. What cannot be unpacked is
/// left out.
pub open spec fn raw_payloads(document: PdfDocument, ids: Seq<ObjectId>) -> Seq<Seq<char>>
    decreases ids.len(),
{
    if ids.len() == 0 {
        Seq::empty()
    } else {
        let head = raw_payloads(document, ids.drop_last());
        match fetched(document, ids.last()) {
            Some(PdfObject::Stream(stream)) => match decompressed(stream) {
                Some(bytes) => head + byte_payloads(bytes),
                None => head,
            },
            _ => head,
        }
    }
}

/// Adds the payloads in the bytes of the streams of a page.
pub fn extract_payloads_from_raw_page_streams(document: &PdfDocument, page: &PdfPage, out: &mut Vec<String>)
    ensures
        texts_of(final(out)@) == with_texts(texts_of(old(out)@), raw_payloads(*document, page.contents@)),
{
    let ghost ids = page.contents@;
    let ghost before = texts_of(out@);
    for i in 0..page.contents.len()
        invariant
            ids == page.contents@,
            texts_of(out@) == with_texts(before, raw_payloads(*document, ids.take(i as int))),
    {
        assert(ids.take(i + 1).drop_last() =~= ids.take(i as int));
        if let Ok(PdfObject::Stream(stream)) = document.get_object(page.contents[i]) {
            if let Some(bytes) = decompressed_content(stream) {
                proof {
                    lemma_with_texts_concat(
                        before,
                        raw_payloads(*document, ids.take(i as int)),
                        byte_payloads(bytes@),
                    );
                }
                insert_byte_payloads(bytes.as_slice(), out);
            }
        }
    }
    assert(ids.take(ids.len() as int) =~= ids);
}

/// The payloads in what the operands of some operations say.
pub open spec fn operation_payloads(operations: Seq<Seq<Operand>>) -> Seq<Seq<char>>
    decreases operations.len(),
{
    if operations.len() == 0 {
        Seq::empty()
    } else {
        operation_payloads(operations.drop_last()) + list_payloads(operations.last())
    }
}

/// The set of payloads in the text of a page, in order: those in the operands of its
/// operations, where its content can be read, and those in the bytes of its streams.
pub open spec fn text_payloads(
    document: PdfDocument,
    page: PdfPage,
    operations: Option<Seq<Seq<Operand>>>,
) -> Seq<Seq<char>> {
    match operations {
        Some(all) => with_texts(
            Seq::empty(),
            operation_payloads(all) + raw_payloads(document, page.contents@),
        ),
        None => with_texts(Seq::empty(), raw_payloads(document, page.contents@)),
    }
}

/// The operations in the content of a page.
pub open spec fn page_operations(document: PdfDocument, page: PdfPage) -> Option<Seq<Seq<Operand>>> {
    content_operations(joined_content(document, page.contents@))
}

/// The set of payloads in the text of a page with some operations.
pub fn collect_page_payloads(document: &PdfDocument, page: &PdfPage, operations: &Vec<Vec<PdfObject>>) -> (r: Vec<
    String,
>)
    ensures
        texts_of(r@) == text_payloads(*document, *page, Some(operations_of(operations@))),
{
    let mut out: Vec<String> = Vec::new();
    let ghost all = operations_of(operations@);
    assert(texts_of(out@) =~= Seq::<Seq<char>>::empty());
    for i in 0..operations.len()
        invariant
            all == operations_of(operations@),
            texts_of(out@) == with_texts(Seq::empty(), operation_payloads(all.take(i as int))),
    {
        let operands: &Vec<PdfObject> = &operations[i];
        proof {
            assert(all.take(i + 1).drop_last() =~= all.take(i as int));
            assert(operands@.subrange(0, operands@.len() as int) =~= operands@);
            lemma_with_texts_concat(
                Seq::empty(),
                operation_payloads(all.take(i as int)),
                list_payloads(all[i as int]),
            );
        }
        collect_strings_from_list(operands, 0, &mut out);
    }
    proof {
        assert(all.take(all.len() as int) =~= all);
        lemma_with_texts_concat(
            Seq::empty(),
            operation_payloads(all),
            raw_payloads(*document, page.contents@),
        );
    }
    extract_payloads_from_raw_page_streams(document, page, &mut out);
    out
}

/// The set of payloads in the text of a page.
pub fn extract_payloads_from_page_text(document: &PdfDocument, page: &PdfPage) -> (r: Vec<String>)
    ensures
        texts_of(r@) == text_payloads(*document, *page, page_operations(*document, *page)),
{
    let content: Vec<u8> = page_content(document, page);
    match decode_content(content.as_slice()) {
        Some(operations) => collect_page_payloads(document, page, &operations),
        None => {
            let mut out: Vec<String> = Vec::new();
            assert(texts_of(out@) =~= Seq::<Seq<char>>::empty());
            extract_payloads_from_raw_page_streams(document, page, &mut out);
            out
        },
    }
}

/// Payloads on a page.
pub open spec fn payloads_on(payloads: Seq<Seq<char>>, page: usize) -> Seq<(usize, Seq<char>)> {
    payloads.map_values(|payload: Seq<char>| (page, payload))
}

/// The payloads in the text of some pages, in order.
pub open spec fn paged_payloads(document: PdfDocument, pages: Seq<PdfPage>) -> Seq<(usize, Seq<char>)>
    decreases pages.len(),
{
    if pages.len() == 0 {
        Seq::empty()
    } else {
        let page = pages.last();
        paged_payloads(document, pages.drop_last()) + payloads_on(
            text_payloads(document, page, page_operations(document, page)),
            page.number as usize,
        )
    }
}

/// Adds payloads on a page to the candidates.
pub(crate) fn push_payloads(candidates: &mut Vec<(usize, String)>, payloads: &Vec<String>, page: usize)
    ensures
        candidates_of(final(candidates)@) == candidates_of(old(candidates)@) + payloads_on(
            texts_of(payloads@),
            page,
        ),
{
    let ghost before = candidates_of(candidates@);
    let ghost more = payloads_on(texts_of(payloads@), page);
    assert(before + more.take(0) =~= before);
    for i in 0..payloads.len()
        invariant
            more == payloads_on(texts_of(payloads@), page),
            candidates_of(candidates@) == before + more.take(i as int),
    {
        let ghost some = candidates_of(candidates@);
        candidates.push((page, payloads[i].clone()));
        assert(candidates_of(candidates@) =~= some.push(more[i as int]));
        assert(before + more.take(i + 1) =~= (before + more.take(i as int)).push(more[i as int]));
    }
    assert(more.take(more.len() as int) =~= more);
}

/// The rows for the payloads in the text of a document.
pub fn document_text_rows(file: &str, document: &PdfDocument) -> (r: Vec<QrRow>)
    ensures
        rows_of(r@) == candidate_rows(file@, paged_payloads(*document, document.pages@)),
{
    let mut candidates: Vec<(usize, String)> = Vec::new();
    let ghost pages = document.pages@;
    assert(candidates_of(candidates@) =~= Seq::empty());
    for i in 0..document.pages.len()
        invariant
            pages == document.pages@,
            candidates_of(candidates@) == paged_payloads(*document, pages.take(i as int)),
    {
        assert(pages.take(i + 1).drop_last() =~= pages.take(i as int));
        let payloads: Vec<String> = extract_payloads_from_page_text(document, &document.pages[i]);
        push_payloads(&mut candidates, &payloads, document.pages[i].number as usize);
    }
    assert(pages.take(pages.len() as int) =~= pages);
    rows_for(file, &candidates)
}

/// What scanning the text of a document gives, where it could be read.
pub open spec fn text_scan(file: Seq<char>, document: Option<PdfDocument>) -> Result<Seq<Row>, ScanError> {
    match document {
        Some(document) => Ok(candidate_rows(file, paged_payloads(document, document.pages@))),
        None => Err(ScanError::PdfText),
    }
}

/// What a scan gave.
pub open spec fn scan_result(result: Result<Vec<QrRow>, ScanError>) -> Result<Seq<Row>, ScanError> {
    match result {
        Ok(rows) => Ok(rows_of(rows@)),
        Err(e) => Err(e),
    }
}

/// The rows for the payloads in the text of a document, from the bytes of its file, where
/// they could be read.
pub fn scan_pdf_text_rows(file: &str, bytes: Option<&[u8]>) -> (r: Result<Vec<QrRow>, ScanError>)
    ensures
        bytes is None ==> scan_result(r) == text_scan(file@, None),
        bytes matches Some(b) ==> exists|document: Option<PdfDocument>| #[trigger]
            loaded(b@, document) && scan_result(r) == text_scan(file@, document),
{
    match bytes {
        None => Err(ScanError::PdfText),
        Some(b) => {
            let document: Option<PdfDocument> = load_document(b);
            assert(loaded(b@, document));
            match document {
                Some(read) => Ok(document_text_rows(file, &read)),
                None => Err(ScanError::PdfText),
            }
        },
    }
}

/// Payloads on pages that ascend, from 1 up to `n`.
pub open spec fn pages_ascend(payloads: Seq<(usize, Seq<char>)>, n: int) -> bool {
    &&& forall|i: int| 0 <= i < payloads.len() ==> 1 <= (#[trigger] payloads[i]).0 <= n
    &&& forall|i: int, j: int|
        0 <= i < j < payloads.len() ==> (#[trigger] payloads[i]).0 <= (#[trigger] payloads[j]).0
}

/// The payloads in the text of a document come in the order of its pages, which are numbered
/// from one on.
pub proof fn law_text_pages(document: PdfDocument)
    requires
        is_numbered(document),
    ensures
        pages_ascend(paged_payloads(document, document.pages@), document.pages@.len() as int),
{
    let pages = document.pages@;
    lemma_text_pages(document, pages.len() as int);
    assert(pages.take(pages.len() as int) =~= pages);
}

proof fn lemma_text_pages(document: PdfDocument, n: int)
    requires
        is_numbered(document),
        0 <= n <= document.pages@.len(),
    ensures
        pages_ascend(paged_payloads(document, document.pages@.take(n)), n),
    decreases n,
{
    let some = document.pages@.take(n);
    if n > 0 {
        lemma_text_pages(document, n - 1);
        assert(some.drop_last() =~= document.pages@.take(n - 1));
        assert(some.last() == document.pages@[n - 1]);
    }
}

/// The payloads in some texts are those in each of them.
pub proof fn law_payloads_in(texts: Seq<Seq<char>>, payload: Seq<char>)
    ensures
        payloads_in(texts).contains(payload) <==> exists|i: int|
            0 <= i < texts.len() && qr_candidates(#[trigger] texts[i]).contains(payload),
    decreases texts.len(),
{
    if texts.len() > 0 {
        let head = texts.drop_last();
        law_payloads_in(head, payload);
        lemma_contains_concat(payloads_in(head), qr_candidates(texts.last()), payload);
        assert(texts.last() == texts[texts.len() - 1]);
        if payloads_in(head).contains(payload) {
            let i = choose|i: int| 0 <= i < head.len() && qr_candidates(#[trigger] head[i]).contains(payload);
            assert(texts[i] == head[i]);
        }
        if exists|i: int| 0 <= i < texts.len() && qr_candidates(#[trigger] texts[i]).contains(payload) {
            let i = choose|i: int| 0 <= i < texts.len() && qr_candidates(#[trigger] texts[i]).contains(payload);
            if i < head.len() {
                assert(head[i] == texts[i]);
            }
        }
    }
}

proof fn lemma_contains_concat<A>(a: Seq<A>, b: Seq<A>, x: A)
    ensures
        (a + b).contains(x) <==> a.contains(x) || b.contains(x),
{
    if a.contains(x) {
        let i = choose|i: int| 0 <= i < a.len() && a[i] == x;
        assert((a + b)[i] == x);
    }
    if b.contains(x) {
        let i = choose|i: int| 0 <= i < b.len() && b[i] == x;
        assert((a + b)[a.len() + i] == x);
    }
    if (a + b).contains(x) {
        let i = choose|i: int| 0 <= i < (a + b).len() && (a + b)[i] == x;
        if i < a.len() {
            assert(a[i] == x);
        } else {
            assert(b[i - a.len()] == x);
        }
    }
}

/// The payloads in an operand: those that its text may stand for, or those in the items of its
/// list, however deep; and none in anything else.
pub proof fn law_operand_payloads(operand: Operand, items: Seq<Operand>, payload: Seq<char>)
    ensures
        operand matches Operand::Text(bytes) ==> (operand_payloads(operand).contains(payload) <==> exists|i: int|
            0 <= i < byte_texts(bytes).len() && qr_candidates(#[trigger] byte_texts(bytes)[i]).contains(payload)),
        operand == Operand::List(items) ==> (operand_payloads(operand).contains(payload) <==> exists|i: int|
            0 <= i < items.len() && operand_payloads(#[trigger] items[i]).contains(payload)),
        operand == Operand::Other ==> !operand_payloads(operand).contains(payload),
{
    if let Operand::Text(bytes) = operand {
        law_payloads_in(byte_texts(bytes), payload);
    }
    law_list_payloads(items, payload);
}

/// The payloads in some operands are those in each of them.
pub proof fn law_list_payloads(items: Seq<Operand>, payload: Seq<char>)
    ensures
        list_payloads(items).contains(payload) <==> exists|i: int|
            0 <= i < items.len() && operand_payloads(#[trigger] items[i]).contains(payload),
    decreases items.len(),
{
    if items.len() > 0 {
        let rest = items.drop_first();
        law_list_payloads(rest, payload);
        lemma_contains_concat(operand_payloads(items[0]), list_payloads(rest), payload);
        if list_payloads(rest).contains(payload) {
            let i = choose|i: int| 0 <= i < rest.len() && operand_payloads(#[trigger] rest[i]).contains(payload);
            assert(items[i + 1] == rest[i]);
        }
        if exists|i: int| 0 <= i < items.len() && operand_payloads(#[trigger] items[i]).contains(payload) {
            let i = choose|i: int| 0 <= i < items.len() && operand_payloads(#[trigger] items[i]).contains(payload);
            if i > 0 {
                assert(rest[i - 1] == items[i]);
            }
        }
    }
}

proof fn lemma_operation_payloads(operations: Seq<Seq<Operand>>, payload: Seq<char>)
    ensures
        operation_payloads(operations).contains(payload) <==> exists|i: int|
            0 <= i < operations.len() && list_payloads(#[trigger] operations[i]).contains(payload),
    decreases operations.len(),
{
    if operations.len() > 0 {
        let head = operations.drop_last();
        lemma_operation_payloads(head, payload);
        lemma_contains_concat(operation_payloads(head), list_payloads(operations.last()), payload);
        assert(operations.last() == operations[operations.len() - 1]);
        if operation_payloads(head).contains(payload) {
            let i = choose|i: int| 0 <= i < head.len() && list_payloads(#[trigger] head[i]).contains(payload);
            assert(operations[i] == head[i]);
        }
        if exists|i: int| 0 <= i < operations.len() && list_payloads(#[trigger] operations[i]).contains(payload) {
            let i = choose|i: int| 0 <= i < operations.len() && list_payloads(#[trigger] operations[i]).contains(payload);
            if i < head.len() {
                assert(head[i] == operations[i]);
            }
        }
    }
}

/// Whether object `id` of a document is a stream that can be unpacked, with a payload in one of
/// the texts that its bytes may stand for.
pub open spec fn stream_holds(document: PdfDocument, id: ObjectId, payload: Seq<char>) -> bool {
    fetched(document, id) matches Some(PdfObject::Stream(stream)) && decompressed(stream) matches Some(bytes)
        && exists|i: int|
        0 <= i < byte_texts(bytes).len() && qr_candidates(#[trigger] byte_texts(bytes)[i]).contains(payload)
}

proof fn lemma_raw_payloads(document: PdfDocument, ids: Seq<ObjectId>, payload: Seq<char>)
    ensures
        raw_payloads(document, ids).contains(payload) <==> exists|i: int|
            0 <= i < ids.len() && stream_holds(document, #[trigger] ids[i], payload),
    decreases ids.len(),
{
    if ids.len() > 0 {
        let head = ids.drop_last();
        lemma_raw_payloads(document, head, payload);
        assert(ids.last() == ids[ids.len() - 1]);
        if let Some(PdfObject::Stream(stream)) = fetched(document, ids.last()) {
            if let Some(bytes) = decompressed(stream) {
                lemma_contains_concat(raw_payloads(document, head), byte_payloads(bytes), payload);
                law_payloads_in(byte_texts(bytes), payload);
            }
        }
        if raw_payloads(document, head).contains(payload) {
            let i = choose|i: int| 0 <= i < head.len() && stream_holds(document, #[trigger] head[i], payload);
            assert(ids[i] == head[i]);
        }
        if exists|i: int| 0 <= i < ids.len() && stream_holds(document, #[trigger] ids[i], payload) {
            let i = choose|i: int| 0 <= i < ids.len() && stream_holds(document, #[trigger] ids[i], payload);
            if i < head.len() {
                assert(head[i] == ids[i]);
            }
        }
    }
}

/// The payloads in the text of a page are just those in an operand of one of its operations,
/// where these can be read, and those in the bytes of one of its content streams. They are a
/// set in order.
pub proof fn law_text_payloads(
    document: PdfDocument,
    page: PdfPage,
    operations: Option<Seq<Seq<Operand>>>,
    payload: Seq<char>,
)
    ensures
        is_text_set(text_payloads(document, page, operations)),
        text_payloads(document, page, operations).contains(payload) <==> (operations matches Some(all)
            && exists|i: int, j: int|
            0 <= i < all.len() && 0 <= j < all[i].len() && operand_payloads(#[trigger] all[i][j]).contains(payload))
            || (exists|i: int|
            0 <= i < page.contents@.len() && stream_holds(document, #[trigger] page.contents@[i], payload)),
{
    let raw = raw_payloads(document, page.contents@);
    lemma_raw_payloads(document, page.contents@, payload);
    match operations {
        Some(all) => {
            law_with_texts(Seq::empty(), operation_payloads(all) + raw);
            lemma_contains_concat(operation_payloads(all), raw, payload);
            lemma_operation_payloads(all, payload);
            if operation_payloads(all).contains(payload) {
                let i = choose|i: int| 0 <= i < all.len() && list_payloads(#[trigger] all[i]).contains(payload);
                law_list_payloads(all[i], payload);
                let j = choose|j: int| 0 <= j < all[i].len() && operand_payloads(#[trigger] all[i][j]).contains(payload);
                assert(operand_payloads(all[i][j]).contains(payload));
            }
            if exists|i: int, j: int|
                0 <= i < all.len() && 0 <= j < all[i].len() && operand_payloads(#[trigger] all[i][j]).contains(payload) {
                let (i, j): (int, int) = choose|i: int, j: int|
                    0 <= i < all.len() && 0 <= j < all[i].len() && operand_payloads(#[trigger] all[i][j]).contains(
                        payload,
                    );
                law_list_payloads(all[i], payload);
                assert(list_payloads(all[i]).contains(payload));
            }
        },
        None => {
            law_with_texts(Seq::empty(), raw);
        },
    }
}

/// The candidates of a document are just the payloads in the text of each of its pages, with
/// the number of that page: no page and no payload is left out.
pub proof fn law_every_page_read(document: PdfDocument, pages: Seq<PdfPage>, number: usize, payload: Seq<char>)
    ensures
        paged_payloads(document, pages).contains((number, payload)) <==> exists|k: int|
            0 <= k < pages.len() && (#[trigger] pages[k]).number as usize == number && text_payloads(
                document,
                pages[k],
                content_operations(joined_content(document, pages[k].contents@)),
            ).contains(payload),
    decreases pages.len(),
{
    if pages.len() > 0 {
        let head = pages.drop_last();
        let last = pages.last();
        let found = text_payloads(document, last, page_operations(document, last));
        let added = payloads_on(found, last.number as usize);
        law_every_page_read(document, head, number, payload);
        lemma_contains_concat(paged_payloads(document, head), added, (number, payload));
        assert(last == pages[pages.len() - 1]);
        if added.contains((number, payload)) {
            let i = choose|i: int| 0 <= i < added.len() && added[i] == (number, payload);
            assert(found[i] == payload);
        }
        if found.contains(payload) && last.number as usize == number {
            let i = choose|i: int| 0 <= i < found.len() && found[i] == payload;
            assert(added[i] == (number, payload));
        }
        if paged_payloads(document, head).contains((number, payload)) {
            let k = choose|k: int|
                0 <= k < head.len() && (#[trigger] head[k]).number as usize == number && text_payloads(
                    document,
                    head[k],
                    content_operations(joined_content(document, head[k].contents@)),
                ).contains(payload);
            assert(pages[k] == head[k]);
        }
        if exists|k: int|
            0 <= k < pages.len() && (#[trigger] pages[k]).number as usize == number && text_payloads(
                document,
                pages[k],
                content_operations(joined_content(document, pages[k].contents@)),
            ).contains(payload) {
            let k = choose|k: int|
                0 <= k < pages.len() && (#[trigger] pages[k]).number as usize == number && text_payloads(
                    document,
                    pages[k],
                    content_operations(joined_content(document, pages[k].contents@)),
                ).contains(payload);
            if k < head.len() {
                assert(head[k] == pages[k]);
            }
        }
    }
}

/// Wherever the text of any page of a document has a payload, the document has a row, with the
/// number of a page and a payload in the text of that page; and where one of these payloads is
/// that of an invoice, the row is that of an invoice.
pub proof fn law_text_row(file: Seq<char>, document: PdfDocument, k: int, payload: Seq<char>)
    requires
        0 <= k < document.pages@.len(),
        text_payloads(
            document,
            document.pages@[k],
            content_operations(joined_content(document, document.pages@[k].contents@)),
        ).contains(payload),
    ensures
        text_scan(file, Some(document)) matches Ok(rows) && rows.len() == 1 && rows[0].file == file && (is_invoice(payload)
            ==> is_invoice(rows[0].content)) && exists|j: int|
            0 <= j < document.pages@.len() && rows[0].page == (#[trigger] document.pages@[j]).number as usize
                && text_payloads(
                document,
                document.pages@[j],
                content_operations(joined_content(document, document.pages@[j].contents@)),
            ).contains(rows[0].content),
{
    let pages = document.pages@;
    let candidates = paged_payloads(document, pages);
    let number = pages[k].number as usize;
    law_every_page_read(document, pages, number, payload);
    assert(candidates.contains((number, payload)));
    let at = choose|at: int| 0 <= at < candidates.len() && candidates[at] == (number, payload);
    let i = lemma_reported_place(candidates);
    law_reported(file, candidates, i);
    if is_invoice(payload) {
        assert(is_invoice(candidates[at].1));
    }
    assert(candidates.contains(candidates[i]));
    law_every_page_read(document, pages, candidates[i].0, candidates[i].1);
}

/// The place of the candidate that is reported.
pub proof fn lemma_reported_place(candidates: Seq<(usize, Seq<char>)>) -> (i: int)
    requires
        candidates.len() > 0,
    ensures
        0 <= i < candidates.len(),
        forall|j: int| 0 <= j < i ==> !is_invoice((#[trigger] candidates[j]).1),
        is_invoice(candidates[i].1) || (i == 0 && forall|j: int|
            0 <= j < candidates.len() ==> !is_invoice((#[trigger] candidates[j]).1)),
    decreases candidates.len(),
{
    if candidates.len() == 1 {
        0
    } else {
        let head = candidates.drop_last();
        let i = lemma_reported_place(head);
        assert forall|j: int| 0 <= j < i implies !is_invoice((#[trigger] candidates[j]).1) by {
            assert(head[j] == candidates[j]);
        }
        if is_invoice(head[i].1) {
            i
        } else if is_invoice(candidates.last().1) {
            let n = candidates.len() - 1;
            assert forall|j: int| 0 <= j < n implies !is_invoice((#[trigger] candidates[j]).1) by {
                assert(head[j] == candidates[j]);
            }
            n
        } else {
            assert forall|j: int| 0 <= j < candidates.len() implies !is_invoice((#[trigger] candidates[j]).1) by {
                if j < head.len() {
                    assert(head[j] == candidates[j]);
                }
            }
            0
        }
    }
}

/// The content of a page is that of each of its streams, unpacked where that succeeds and as it
/// is where not, with a line end behind each; and what is no stream adds nothing.
pub proof fn law_joined_content(document: PdfDocument, ids: Seq<ObjectId>, id: ObjectId)
    ensures
        joined_content(document, Seq::empty()) == Seq::<u8>::empty(),
        ({
            let more = joined_content(document, ids.push(id));
            let head = joined_content(document, ids);
            match fetched(document, id) {
                Some(PdfObject::Stream(stream)) => match decompressed(stream) {
                    Some(bytes) => more == head + bytes + seq![10u8],
                    None => more == head + stream.content@ + seq![10u8],
                },
                _ => more == head,
            }
        }),
{
    let head = joined_content(document, ids);
    let more = joined_content(document, ids.push(id));
    assert(ids.push(id).drop_last() =~= ids);
    if let Some(PdfObject::Stream(stream)) = fetched(document, id) {
        if let Some(bytes) = decompressed(stream) {
            assert(more =~= head + bytes + seq![10u8]);
        } else {
            assert(more =~= head + stream.content@ + seq![10u8]);
        }
    }
}

/// A document that cannot be read is an error, and one without a payload in its text has no rows.
pub proof fn law_text_scan(file: Seq<char>, document: PdfDocument)
    ensures
        text_scan(file, None) == Err::<Seq<Row>, ScanError>(ScanError::PdfText),
        paged_payloads(document, document.pages@).len() == 0 ==> (text_scan(file, Some(document)) matches Ok(rows)
            && rows.len() == 0),
{
}

/// Payloads on a page are each payload, in order, with that page.
pub proof fn law_payloads_on(payloads: Seq<Seq<char>>, page: usize)
    ensures
        payloads_on(payloads, page).len() == payloads.len(),
        forall|i: int|
            0 <= i < payloads.len() ==> payloads_on(payloads, page)[i].0 == page && payloads_on(payloads, page)[i].1
                == #[trigger] payloads[i],
{
}

/// What a scan gave is the rows, or the error, that it gave.
pub proof fn law_scan_result(rows: Vec<QrRow>, error: ScanError)
    ensures
        scan_result(Ok(rows)) == Ok::<Seq<Row>, ScanError>(rows_of(rows@)),
        scan_result(Err(error)) == Err::<Seq<Row>, ScanError>(error),
{
}

} // verus!
