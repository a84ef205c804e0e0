//! Word files: archives that hold text and images.

use vstd::prelude::*;
use vstd::utf8::{decode_utf8, valid_utf8};
use crate::candidates::{extract_qr_candidates, qr_candidates, strict_text};
use crate::errors::ScanError;
use crate::formats::{format_of, image_format, FileKind};
use crate::invoice::{candidate_rows, candidates_of, is_invoice, law_reported, rows_for, QrRow, Row};
use crate::pages::{all_scans_wf, scans_of, ScanImage};
use crate::pdf_text::{lemma_reported_place, lemma_with_texts_concat, payloads_on, push_payloads, scan_result};
use crate::picture::{encoded_size, load_image_as, Encoded, ImageFormat, Picture};
use crate::text::{chars_of, found_at, insert_texts, is_text_set, law_with_texts, lowercase, lowercase_chars, occurs_at,
    slice_of, string_of, texts_of, with_texts};

verus! {

/// The files in an archive: for each its name and its size, where it can be opened.
pub uninterp spec fn archive_files(bytes: Seq<u8>) -> Option<Seq<Option<(Seq<char>, u64)>>>;

/// The content of a file in an archive, where it can be read.
pub uninterp spec fn archive_content(bytes: Seq<u8>, i: int) -> Option<Seq<u8>>;

/// The names and sizes of some files.
pub open spec fn files_of(files: Seq<Option<(String, u64)>>) -> Seq<Option<(Seq<char>, u64)>> {
    files.map_values(
        |file: Option<(String, u64)>|
            match file {
                Some((name, size)) => Some((name@, size)),
                None => None,
            },
    )
}

/// Calls `zip::ZipArchive::new`, and `by_index`, `name` and `size` for each file. Claimed of
/// them: whether the bytes are an archive, and which files it has, depends on the bytes
/// alone. Which bytes are an archive is not stated.
#[verifier::external_body]
fn list_archive(bytes: &[u8]) -> (r: Option<Vec<Option<(String, u64)>>>)
    ensures
        r is Some <==> archive_files(bytes@) is Some,
        r matches Some(files) ==> archive_files(bytes@) == Some(files_of(files@)),
{
    let mut archive = zip::ZipArchive::new(std::io::Cursor::new(bytes)).ok()?;
    Some((0..archive.len()).map(|i| {
        archive.by_index(i).ok().map(|file| (file.name().to_string(), file.size()))
    }).collect())
}

/// Calls `zip::ZipArchive::new` and `by_index`, and reads the file that it gives to the end.
/// Claimed of them: whether that succeeds, and what is read, depends on the bytes and the
/// place of the file alone. What is read is not stated.
#[verifier::external_body]
fn read_archive(bytes: &[u8], i: usize) -> (r: Option<Vec<u8>>)
    ensures
        r is Some <==> archive_content(bytes@, i as int) is Some,
        r matches Some(content) ==> archive_content(bytes@, i as int) == Some(content@),
{
    let mut archive = zip::ZipArchive::new(std::io::Cursor::new(bytes)).ok()?;
    let mut file = archive.by_index(i).ok()?;
    let mut content = Vec::new();
    std::io::Read::read_to_end(&mut file, &mut content).ok()?;
    Some(content)
}

/// Whether a text begins with a prefix.
pub open spec fn begins_with(text: Seq<char>, prefix: Seq<char>) -> bool {
    occurs_at(text, prefix, 0)
}

/// Whether a text ends with a suffix.
pub open spec fn ends_with(text: Seq<char>, suffix: Seq<char>) -> bool {
    occurs_at(text, suffix, text.len() - suffix.len())
}

fn has_prefix(text: &Vec<char>, prefix: &str) -> (r: bool)
    ensures
        r == begins_with(text@, prefix@),
{
    let pattern: Vec<char> = chars_of(prefix);
    found_at(text, &pattern, 0)
}

fn has_suffix(text: &Vec<char>, suffix: &str) -> (r: bool)
    ensures
        r == ends_with(text@, suffix@),
{
    let pattern: Vec<char> = chars_of(suffix);
    if pattern.len() > text.len() {
        return false;
    }
    found_at(text, &pattern, text.len() - pattern.len())
}

/// Whether a file of an archive holds text of the document.
pub open spec fn is_text_file(name: Seq<char>) -> bool {
    begins_with(name, "word/"@) && ends_with(name, ".xml"@)
}

/// Whether a file of an archive holds text of the document.
pub fn holds_text(name: &str) -> (r: bool)
    ensures
        r == is_text_file(name@),
{
    let chars: Vec<char> = chars_of(name);
    has_prefix(&chars, "word/") && has_suffix(&chars, ".xml")
}

/// The payloads in the content of a text file, where it is valid UTF-8.
pub open spec fn xml_payloads(content: Option<Seq<u8>>) -> Seq<Seq<char>> {
    match content {
        Some(bytes) if valid_utf8(bytes) => qr_candidates(decode_utf8(bytes)),
        _ => Seq::empty(),
    }
}

/// The payloads in the text files among the first `n` files of an archive.
pub open spec fn archive_payloads(bytes: Seq<u8>, files: Seq<Option<(Seq<char>, u64)>>, n: int) -> Seq<Seq<char>>
    decreases n,
{
    if n <= 0 {
        Seq::empty()
    } else {
        let head = archive_payloads(bytes, files, n - 1);
        match files[n - 1] {
            Some((name, size)) if is_text_file(name) => head + xml_payloads(archive_content(bytes, n - 1)),
            _ => head,
        }
    }
}

/// The set of payloads in the text of a word file, in order; or why there is none.
pub open spec fn word_payloads(kind: FileKind, bytes: Option<Seq<u8>>) -> Result<Seq<Seq<char>>, ScanError> {
    match kind {
        FileKind::Docx => match bytes {
            Some(b) => match archive_files(b) {
                Some(files) => Ok(with_texts(Seq::empty(), archive_payloads(b, files, files.len() as int))),
                None => Err(ScanError::WordArchive),
            },
            None => Err(ScanError::WordFile),
        },
        FileKind::Doc => Err(ScanError::LegacyWord),
        _ => Ok(Seq::empty()),
    }
}

/// The bytes of a file, where it could be read.
pub open spec fn bytes_of(bytes: Option<&[u8]>) -> Option<Seq<u8>> {
    match bytes {
        Some(b) => Some(b@),
        None => None,
    }
}

/// Adds the payloads in the content of a text file.
pub fn insert_xml_payloads(content: Option<Vec<u8>>, out: &mut Vec<String>)
    ensures
        texts_of(final(out)@) == with_texts(
            texts_of(old(out)@),
            xml_payloads(
                match content {
                    Some(bytes) => Some(bytes@),
                    None => None,
                },
            ),
        ),
{
    if let Some(bytes) = content {
        if let Some(text) = strict_text(bytes) {
            let payloads: Vec<String> = extract_qr_candidates(text.as_str());
            insert_texts(out, &payloads);
        }
    }
}

/// The payloads in the text of a word file, from the bytes of the file where it could be
/// read.
pub fn extract_payloads_from_docx_xml(kind: FileKind, bytes: Option<&[u8]>) -> (r: Result<Vec<String>, ScanError>)
    ensures
        r matches Ok(texts) ==> word_payloads(kind, bytes_of(bytes)) == Ok::<Seq<Seq<char>>, ScanError>(
            texts_of(texts@),
        ),
        r matches Err(e) ==> word_payloads(kind, bytes_of(bytes)) == Err::<Seq<Seq<char>>, ScanError>(e),
{
    let mut out: Vec<String> = Vec::new();
    assert(texts_of(out@) =~= Seq::<Seq<char>>::empty());
    match kind {
        FileKind::Docx => {},
        FileKind::Doc => {
            return Err(ScanError::LegacyWord);
        },
        _ => {
            return Ok(out);
        },
    }
    let b: &[u8] = match bytes {
        Some(b) => b,
        None => {
            return Err(ScanError::WordFile);
        },
    };
    let files: Vec<Option<(String, u64)>> = match list_archive(b) {
        Some(files) => files,
        None => {
            return Err(ScanError::WordArchive);
        },
    };
    let ghost all = files_of(files@);
    for i in 0..files.len()
        invariant
            all == files_of(files@),
            texts_of(out@) == with_texts(Seq::empty(), archive_payloads(b@, all, i as int)),
    {
        if let Some((name, _)) = &files[i] {
            if holds_text(name.as_str()) {
                let content: Option<Vec<u8>> = read_archive(b, i);
                proof {
                    lemma_with_texts_concat(
                        Seq::empty(),
                        archive_payloads(b@, all, i as int),
                        xml_payloads(archive_content(b@, i as int)),
                    );
                }
                insert_xml_payloads(content, &mut out);
            }
        }
    }
    Ok(out)
}

/// What scanning the text of a word file gives.
pub open spec fn word_scan(file: Seq<char>, payloads: Result<Seq<Seq<char>>, ScanError>) -> Result<
    Seq<Row>,
    ScanError,
> {
    match payloads {
        Ok(texts) => Ok(candidate_rows(file, payloads_on(texts, 1))),
        Err(e) => Err(e),
    }
}

/// The rows for the payloads in the text of a word file.
pub fn scan_word_text_rows(file: &str, kind: FileKind, bytes: Option<&[u8]>) -> (r: Result<Vec<QrRow>, ScanError>)
    ensures
        scan_result(r) == word_scan(file@, word_payloads(kind, bytes_of(bytes))),
{
    match extract_payloads_from_docx_xml(kind, bytes) {
        Ok(payloads) => {
            let mut candidates: Vec<(usize, String)> = Vec::new();
            push_payloads(&mut candidates, &payloads, 1);
            proof {
                let wanted = payloads_on(texts_of(payloads@), 1);
                assert(candidates_of(candidates@) =~= wanted);
            }
            Ok(rows_for(file, &candidates))
        },
        Err(e) => Err(e),
    }
}

/// What stands behind the last dot of a text, or all of it where it has none.
pub open spec fn after_last_dot(text: Seq<char>) -> Seq<char>
    decreases text.len(),
{
    if text.len() == 0 || text.last() == '.' {
        Seq::empty()
    } else {
        after_last_dot(text.drop_last()).push(text.last())
    }
}

fn tail_after_dot(text: &Vec<char>) -> (r: Vec<char>)
    ensures
        r@ == after_last_dot(text@),
{
    let mut i: usize = text.len();
    let ghost n = text@.len() as int;
    assert(text@.take(n) =~= text@);
    assert(after_last_dot(text@) =~= after_last_dot(text@.take(n)) + text@.subrange(n, n));
    while i > 0 && text[i - 1] != '.'
        invariant
            n == text@.len(),
            i <= n,
            after_last_dot(text@) == after_last_dot(text@.take(i as int)) + text@.subrange(i as int, n),
        decreases i,
    {
        proof {
            let head = text@.take(i as int);
            assert(head.drop_last() =~= text@.take(i - 1));
            assert(after_last_dot(text@.take(i - 1)).push(text@[i - 1]) + text@.subrange(i as int, n)
                =~= after_last_dot(text@.take(i - 1)) + text@.subrange(i - 1, n));
        }
        i = i - 1;
    }
    assert(after_last_dot(text@.take(i as int)) =~= Seq::<char>::empty());
    assert(Seq::<char>::empty() + text@.subrange(i as int, n) =~= text@.subrange(i as int, n));
    slice_of(text, i, text.len())
}

/// The format of an image of the document, where a file of the archive is one: it lies among
/// the media, is not too large, and has the extension of an image.
pub open spec fn media_format(name: Seq<char>, size: u64) -> Option<ImageFormat> {
    let lower = lowercase(name);
    if begins_with(lower, "word/media/"@) && size <= 12_000_000 {
        image_format(after_last_dot(lower))
    } else {
        None
    }
}

/// The format of an image of the document, where a file of the archive is one.
pub fn media_format_of(name: &str, size: u64) -> (r: Option<ImageFormat>)
    ensures
        r == media_format(name@, size),
{
    let chars: Vec<char> = chars_of(name);
    let lower: Vec<char> = lowercase_chars(&chars);
    if has_prefix(&lower, "word/media/") && size <= 12_000_000 {
        let tail: Vec<char> = tail_after_dot(&lower);
        let ext: String = string_of(&tail);
        format_of(ext.as_str())
    } else {
        None
    }
}

/// The picture in a file of an archive, where it can be read in a format.
pub open spec fn media_picture(content: Option<Seq<u8>>, format: ImageFormat) -> Option<Picture> {
    match content {
        Some(bytes) => {
            let file = Encoded { bytes, format: Some(format) };
            if encoded_size(file) is Some {
                Some(Picture::File(file))
            } else {
                None
            }
        },
        None => None,
    }
}

/// The pictures among the files of an archive from place `i` on, until there are 16.
pub open spec fn archive_pictures(
    bytes: Seq<u8>,
    files: Seq<Option<(Seq<char>, u64)>>,
    i: int,
    out: Seq<(usize, Picture)>,
) -> Seq<(usize, Picture)>
    decreases files.len() - i,
{
    if i < 0 || i >= files.len() {
        out
    } else {
        match files[i] {
            Some((name, size)) => match media_format(name, size) {
                Some(format) => match media_picture(archive_content(bytes, i), format) {
                    Some(picture) => {
                        let more = out.push((1usize, picture));
                        if more.len() >= 16 {
                            more
                        } else {
                            archive_pictures(bytes, files, i + 1, more)
                        }
                    },
                    None => archive_pictures(bytes, files, i + 1, out),
                },
                None => archive_pictures(bytes, files, i + 1, out),
            },
            None => archive_pictures(bytes, files, i + 1, out),
        }
    }
}

/// The pictures of a word file that are searched, as if on the first page; or why there are
/// none.
pub open spec fn word_pictures(kind: FileKind, bytes: Option<Seq<u8>>) -> Result<Seq<(usize, Picture)>, ScanError> {
    match kind {
        FileKind::Docx => match bytes {
            Some(b) => match archive_files(b) {
                Some(files) => Ok(archive_pictures(b, files, 0, Seq::empty())),
                None => Err(ScanError::WordArchive),
            },
            None => Err(ScanError::WordFile),
        },
        FileKind::Doc => Err(ScanError::LegacyWord),
        _ => Ok(Seq::empty()),
    }
}

/// What collecting images gave.
pub open spec fn collect_result(result: Result<Vec<ScanImage>, ScanError>) -> Result<
    Seq<(usize, Picture)>,
    ScanError,
> {
    match result {
        Ok(images) => Ok(scans_of(images@)),
        Err(e) => Err(e),
    }
}

/// The images of a word file that are searched.
pub fn collect_word_images(kind: FileKind, bytes: Option<&[u8]>) -> (r: Result<Vec<ScanImage>, ScanError>)
    ensures
        collect_result(r) == word_pictures(kind, bytes_of(bytes)),
        r matches Ok(images) ==> all_scans_wf(images@),
{
    let mut out: Vec<ScanImage> = Vec::new();
    assert(scans_of(out@) =~= Seq::empty());
    match kind {
        FileKind::Docx => {},
        FileKind::Doc => {
            return Err(ScanError::LegacyWord);
        },
        _ => {
            return Ok(out);
        },
    }
    let b: &[u8] = match bytes {
        Some(b) => b,
        None => {
            return Err(ScanError::WordFile);
        },
    };
    let files: Vec<Option<(String, u64)>> = match list_archive(b) {
        Some(files) => files,
        None => {
            return Err(ScanError::WordArchive);
        },
    };
    let ghost all = files_of(files@);
    let ghost wanted = archive_pictures(b@, all, 0, Seq::empty());
    for i in 0..files.len()
        invariant
            all == files_of(files@),
            all_scans_wf(out@),
            out@.len() < 16,
            wanted == archive_pictures(b@, all, i as int, scans_of(out@)),
            word_pictures(kind, bytes_of(bytes)) == Ok::<Seq<(usize, Picture)>, ScanError>(wanted),
    {
        if let Some((name, size)) = &files[i] {
            if let Some(format) = media_format_of(name.as_str(), *size) {
                if let Some(content) = read_archive(b, i) {
                    if let Some(image) = load_image_as(content.as_slice(), format) {
                        let ghost before = out@;
                        let ghost picture = image@;
                        out.push(ScanImage { page: 1, image });
                        proof {
                            assert(scans_of(out@) =~= scans_of(before).push((1usize, picture)));
                            assert forall|k: int| 0 <= k < out@.len() implies (#[trigger] out@[k]).image.wf() by {
                                if k < before.len() {
                                    assert(out@[k] == before[k]);
                                }
                            }
                        }
                        if out.len() >= 16 {
                            return Ok(out);
                        }
                    }
                }
            }
        }
    }
    Ok(out)
}

/// However many images a word file has, at most 16 are searched.
pub proof fn law_word_pictures(kind: FileKind, bytes: Option<Seq<u8>>)
    ensures
        word_pictures(kind, bytes) matches Ok(scans) ==> scans.len() <= 16,
{
    if let (FileKind::Docx, Some(b)) = (kind, bytes) {
        if let Some(files) = archive_files(b) {
            lemma_archive_pictures(b, files, 0, Seq::empty());
        }
    }
}

proof fn lemma_archive_pictures(
    bytes: Seq<u8>,
    files: Seq<Option<(Seq<char>, u64)>>,
    i: int,
    out: Seq<(usize, Picture)>,
)
    requires
        out.len() < 16,
    ensures
        archive_pictures(bytes, files, i, out).len() <= 16,
    decreases files.len() - i,
{
    if 0 <= i < files.len() {
        lemma_archive_pictures(bytes, files, i + 1, out);
        if let Some((name, size)) = files[i] {
            if let Some(format) = media_format(name, size) {
                if let Some(picture) = media_picture(archive_content(bytes, i), format) {
                    let more = out.push((1usize, picture));
                    if more.len() < 16 {
                        lemma_archive_pictures(bytes, files, i + 1, more);
                    }
                }
            }
        }
    }
}

/// Whether file `i` of an archive is a text file of a document, under `word/` and ending in
/// `.xml`, that can be read as UTF-8 and has a payload in it.
pub open spec fn file_holds(
    bytes: Seq<u8>,
    files: Seq<Option<(Seq<char>, u64)>>,
    i: int,
    payload: Seq<char>,
) -> bool {
    &&& files[i] matches Some((name, size)) && name.len() >= 5 && name.take(5) == "word/"@ && name.subrange(
        name.len() - 4,
        name.len() as int,
    ) == ".xml"@
    &&& archive_content(bytes, i) matches Some(content) && valid_utf8(content) && qr_candidates(
        decode_utf8(content),
    ).contains(payload)
}

proof fn lemma_text_file(name: Seq<char>)
    ensures
        is_text_file(name) <==> name.len() >= 5 && name.take(5) == "word/"@ && name.subrange(
            name.len() - 4,
            name.len() as int,
        ) == ".xml"@,
{
    reveal_strlit("word/");
    reveal_strlit(".xml");
    if name.len() >= 5 {
        assert(name.subrange(0, 5) =~= name.take(5));
    }
}

proof fn lemma_archive_payloads(bytes: Seq<u8>, files: Seq<Option<(Seq<char>, u64)>>, n: int, payload: Seq<char>)
    requires
        0 <= n <= files.len(),
    ensures
        archive_payloads(bytes, files, n).contains(payload) <==> exists|i: int|
            0 <= i < n && #[trigger] file_holds(bytes, files, i, payload),
    decreases n,
{
    if n > 0 {
        let head = archive_payloads(bytes, files, n - 1);
        lemma_archive_payloads(bytes, files, n - 1, payload);
        if let Some((name, size)) = files[n - 1] {
            lemma_text_file(name);
            let more = xml_payloads(archive_content(bytes, n - 1));
            lemma_either(head, more, payload);
            if is_text_file(name) && more.contains(payload) {
                assert(file_holds(bytes, files, n - 1, payload));
            }
        }
        if exists|i: int| 0 <= i < n && #[trigger] file_holds(bytes, files, i, payload) {
            let i = choose|i: int| 0 <= i < n && #[trigger] file_holds(bytes, files, i, payload);
            if i < n - 1 {
                assert(head.contains(payload));
            }
        }
    }
}

proof fn lemma_either(a: Seq<Seq<char>>, b: Seq<Seq<char>>, x: Seq<char>)
    ensures
        (a + b).contains(x) <==> a.contains(x) || b.contains(x),
{
    if a.contains(x) {
        let i = choose|i: int| 0 <= i < a.len() && a[i] == x;
        assert((a + b)[i] == x);
    }
    if b.contains(x) {
        let i = choose|i: int| 0 <= i < b.len() && b[i] == x;
        assert((a + b)[a.len() + i] == x);
    }
    if (a + b).contains(x) {
        let i = choose|i: int| 0 <= i < (a + b).len() && (a + b)[i] == x;
        if i < a.len() {
            assert(a[i] == x);
        } else {
            assert(b[i - a.len()] == x);
        }
    }
}

/// The payloads in the text of a word file are just those in any of its text files: no file and
/// no payload is left out. They are a set in order.
pub proof fn law_word_payloads(bytes: Seq<u8>, files: Seq<Option<(Seq<char>, u64)>>, payload: Seq<char>)
    requires
        archive_files(bytes) == Some(files),
    ensures
        word_payloads(FileKind::Docx, Some(bytes)) matches Ok(texts) && is_text_set(texts) && (texts.contains(payload)
            <==> exists|i: int| 0 <= i < files.len() && #[trigger] file_holds(bytes, files, i, payload)),
{
    let n = files.len() as int;
    lemma_archive_payloads(bytes, files, n, payload);
    law_with_texts(Seq::empty(), archive_payloads(bytes, files, n));
}

/// A word file of the old format, one that cannot be opened and one that is no archive each fail
/// with an error of their own, both for text and for images; and files that are no word files
/// have neither.
pub proof fn law_word_errors(kind: FileKind, bytes: Option<Seq<u8>>)
    ensures
        kind is Doc ==> word_payloads(kind, bytes) == Err::<Seq<Seq<char>>, ScanError>(ScanError::LegacyWord)
            && word_pictures(kind, bytes) == Err::<Seq<(usize, Picture)>, ScanError>(ScanError::LegacyWord),
        kind is Docx && bytes is None ==> word_payloads(kind, bytes) == Err::<Seq<Seq<char>>, ScanError>(
            ScanError::WordFile,
        ) && word_pictures(kind, bytes) == Err::<Seq<(usize, Picture)>, ScanError>(ScanError::WordFile),
        kind is Docx && bytes is Some && archive_files(bytes->0) is None ==> word_payloads(kind, bytes) == Err::<
            Seq<Seq<char>>,
            ScanError,
        >(ScanError::WordArchive) && word_pictures(kind, bytes) == Err::<Seq<(usize, Picture)>, ScanError>(
            ScanError::WordArchive,
        ),
        !(kind is Doc) && !(kind is Docx) ==> (word_payloads(kind, bytes) matches Ok(texts) && texts.len() == 0) && (
        word_pictures(kind, bytes) matches Ok(scans) && scans.len() == 0),
{
}

/// Wherever any text file of a word file has a payload, the file has a row, on the first page,
/// with a payload in one of its text files; and where one of these is that of an invoice, so is
/// the row.
pub proof fn law_word_row(
    file: Seq<char>,
    bytes: Seq<u8>,
    files: Seq<Option<(Seq<char>, u64)>>,
    i: int,
    payload: Seq<char>,
)
    requires
        archive_files(bytes) == Some(files),
        0 <= i < files.len(),
        file_holds(bytes, files, i, payload),
    ensures
        word_scan(file, word_payloads(FileKind::Docx, Some(bytes))) matches Ok(rows) && rows.len() == 1 && rows[0].file
            == file && rows[0].page == 1 && (is_invoice(payload) ==> is_invoice(rows[0].content)) && exists|k: int|
            0 <= k < files.len() && #[trigger] file_holds(bytes, files, k, rows[0].content),
{
    law_word_payloads(bytes, files, payload);
    let texts = word_payloads(FileKind::Docx, Some(bytes))->Ok_0;
    let candidates = payloads_on(texts, 1);
    let m = choose|m: int| 0 <= m < texts.len() && texts[m] == payload;
    assert(candidates[m] == (1usize, payload));
    if is_invoice(payload) {
        assert(is_invoice(candidates[m].1));
    }
    let at = lemma_reported_place(candidates);
    law_reported(file, candidates, at);
    law_word_payloads(bytes, files, candidates[at].1);
    assert(texts[at] == candidates[at].1);
    assert(texts.contains(texts[at]));
}

/// A file of an archive is an image of the document just where it lies under `word/media/`, has
/// at most 12,000,000 bytes, and has the extension of an image, in whatever case.
pub proof fn law_media_format(front: Seq<char>, ext: Seq<char>, size: u64)
    requires
        !ext.contains('.'),
    ensures
        ({
            let name = front + seq!['.'] + ext;
            let lower = lowercase(name);
            &&& size <= 12_000_000 && lower.len() >= 11 && lower.take(11) == "word/media/"@ ==> media_format(name, size)
                == image_format(lowercase(ext))
            &&& size > 12_000_000 || lower.len() < 11 || lower.take(11) != "word/media/"@ ==> media_format(name, size)
                is None
        }),
{
    let name = front + seq!['.'] + ext;
    let lower = lowercase(name);
    reveal_strlit("word/media/");
    if lower.len() >= 11 {
        assert(lower.subrange(0, 11) =~= lower.take(11));
    }
    assert(lower =~= lowercase(front) + seq!['.'] + lowercase(ext));
    assert(!lowercase(ext).contains('.')) by {
        if lowercase(ext).contains('.') {
            let i = choose|i: int| 0 <= i < lowercase(ext).len() && lowercase(ext)[i] == '.';
            assert(ext[i] == '.');
        }
    }
    lemma_after_last_dot(lowercase(front), lowercase(ext));
}

proof fn lemma_after_last_dot(front: Seq<char>, ext: Seq<char>)
    requires
        !ext.contains('.'),
    ensures
        after_last_dot(front + seq!['.'] + ext) == ext,
    decreases ext.len(),
{
    let text = front + seq!['.'] + ext;
    if ext.len() == 0 {
        assert(text.last() == '.');
        assert(ext =~= Seq::<char>::empty());
    } else {
        let shorter = ext.drop_last();
        assert(ext[ext.len() - 1] == ext.last());
        assert(!shorter.contains('.')) by {
            if shorter.contains('.') {
                let i = choose|i: int| 0 <= i < shorter.len() && shorter[i] == '.';
                assert(ext[i] == '.');
            }
        }
        lemma_after_last_dot(front, shorter);
        assert(text.drop_last() =~= front + seq!['.'] + shorter);
        assert(text.last() == ext.last());
        assert(shorter.push(ext.last()) =~= ext);
    }
}

/// Each file of an archive that is an image of the document and can be read adds its picture, on
/// the first page, behind those before it, until there are 16; and no other file adds any.
pub proof fn law_one_more_media(
    bytes: Seq<u8>,
    files: Seq<Option<(Seq<char>, u64)>>,
    file: Option<(Seq<char>, u64)>,
    content: Seq<u8>,
    format: ImageFormat,
)
    ensures
        archive_pictures(bytes, Seq::empty(), 0, Seq::empty()) == Seq::<(usize, Picture)>::empty(),
        ({
            let scans = archive_pictures(bytes, files, 0, Seq::empty());
            let more = archive_pictures(bytes, files.push(file), 0, Seq::empty());
            let picture = Encoded { bytes: content, format: Some(format) };
            &&& scans.len() >= 16 ==> more == scans
            &&& file is None ==> more == scans
            &&& archive_content(bytes, files.len() as int) is None ==> more == scans
            &&& file matches Some((name, size)) ==> media_format(name, size) is None ==> more == scans
            &&& file matches Some((name, size)) ==> scans.len() < 16 && media_format(name, size) == Some(format)
                && archive_content(bytes, files.len() as int) == Some(content) && encoded_size(picture) is Some ==> more
                == scans.push((1usize, Picture::File(picture)))
        }),
{
    lemma_one_more_media(bytes, files, file, 0, Seq::empty());
    lemma_archive_pictures(bytes, files, 0, Seq::empty());
    reveal_with_fuel(archive_pictures, 3);
    assert(files.push(file)[files.len() as int] == file);
}

proof fn lemma_one_more_media(
    bytes: Seq<u8>,
    files: Seq<Option<(Seq<char>, u64)>>,
    file: Option<(Seq<char>, u64)>,
    i: int,
    out: Seq<(usize, Picture)>,
)
    requires
        0 <= i <= files.len(),
        out.len() < 16,
    ensures
        ({
            let scans = archive_pictures(bytes, files, i, out);
            let more = archive_pictures(bytes, files.push(file), i, out);
            if scans.len() >= 16 {
                more == scans
            } else {
                more == archive_pictures(bytes, files.push(file), files.len() as int, scans)
            }
        }),
    decreases files.len() - i,
{
    let all = files.push(file);
    if i < files.len() {
        assert(all[i] == files[i]);
        lemma_one_more_media(bytes, files, file, i + 1, out);
        if let Some((name, size)) = files[i] {
            if let Some(format) = media_format(name, size) {
                if let Some(picture) = media_picture(archive_content(bytes, i), format) {
                    let next = out.push((1usize, picture));
                    if next.len() < 16 {
                        lemma_one_more_media(bytes, files, file, i + 1, next);
                    }
                }
            }
        }
    } else {
        assert(all[i] == file);
        reveal_with_fuel(archive_pictures, 3);
    }
}

/// The files of an archive are each name and size, in order.
pub proof fn law_files_of(files: Seq<Option<(String, u64)>>)
    ensures
        files_of(files).len() == files.len(),
        forall|i: int|
            0 <= i < files.len() ==> (files_of(files)[i] is Some <==> #[trigger] files[i] is Some) && (files[i] matches Some(
                (name, size),
            ) ==> files_of(files)[i] == Some((name@, size))),
{
}

/// What collecting images gave is the pictures, or the error, that it gave.
pub proof fn law_collect_result(images: Vec<ScanImage>, error: ScanError)
    ensures
        collect_result(Ok(images)) == Ok::<Seq<(usize, Picture)>, ScanError>(scans_of(images@)),
        collect_result(Err(error)) == Err::<Seq<(usize, Picture)>, ScanError>(error),
{
}

} // verus!
