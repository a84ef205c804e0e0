//! Scanning a file: what its images say, how long it may take, and what is reported.

use vstd::prelude::*;
use crate::codes::{can_read, readers_of, Readers};
use crate::errors::ScanError;
use crate::formats::{extension_lower, law_render_page_no, parse_render_page_no, render_page_no, FileKind};
use crate::invoice::{build_failed_row, candidate_rows, candidates_of, error_marker, failed_row,
    fields_of, format_scan_error_marker, is_invoice, is_invoice_payload, law_marker_text, law_one_row, law_reported,
    rows_for, rows_of, QrRow, Row};
use crate::loader::{load_document, loaded};
use crate::pages::{all_scans_wf, collect_pdf_images, document_pictures, scans_of, ScanImage};
use crate::pdf::PdfDocument;
use crate::pdf_text::lemma_reported_place;
use crate::picture::{encoded_size, load_image_as, picture_size, DynamicImage, Encoded, ImageFormat, Picture};
use crate::raster::GrayImage;
use crate::search::{decode_qr_payloads_from_dynamic, decode_qr_payloads_from_rendered, dynamic_outcome,
    rendered_outcome};
use crate::text::{all_digits, decimal, decimal_text, law_parts_of_text, law_whitespace, lowercase, place_value,
    text_equal, texts_of, trim_text, trimmed};
use crate::word::{bytes_of, collect_result, collect_word_images, word_pictures};

verus! {

/// Whether a text is among the candidates.
pub open spec fn is_seen(candidates: Seq<(usize, Seq<char>)>, text: Seq<char>) -> bool {
    exists|i: int| 0 <= i < candidates.len() && (#[trigger] candidates[i]).1 == text
}

/// The candidates, with the payloads found on a page: without white space round them, and
/// without those that are empty or among them already. Where `stop` says so, nothing is added
/// after an invoice payload.
pub open spec fn with_payloads(
    candidates: Seq<(usize, Seq<char>)>,
    payloads: Seq<Seq<char>>,
    page: usize,
    stop: bool,
) -> Seq<(usize, Seq<char>)>
    decreases payloads.len(),
{
    if payloads.len() == 0 {
        candidates
    } else {
        let text = trimmed(payloads[0]);
        if text.len() == 0 || is_seen(candidates, text) {
            with_payloads(candidates, payloads.drop_first(), page, stop)
        } else if stop && is_invoice(text) {
            candidates.push((page, text))
        } else {
            with_payloads(candidates.push((page, text)), payloads.drop_first(), page, stop)
        }
    }
}

/// Whether a text is among the candidates.
fn was_seen(candidates: &Vec<(usize, String)>, text: &str) -> (r: bool)
    ensures
        r == is_seen(candidates_of(candidates@), text@),
{
    let ghost all = candidates_of(candidates@);
    for i in 0..candidates.len()
        invariant
            all == candidates_of(candidates@),
            forall|j: int| 0 <= j < i ==> (#[trigger] all[j]).1 != text@,
    {
        if text_equal(candidates[i].1.as_str(), text) {
            assert(all[i as int].1 == text@);
            return true;
        }
    }
    false
}

/// Adds the payloads found on a page to the candidates.
fn add_payloads(candidates: &mut Vec<(usize, String)>, payloads: &Vec<String>, page: usize, stop: bool)
    ensures
        candidates_of(final(candidates)@) == with_payloads(
            candidates_of(old(candidates)@),
            texts_of(payloads@),
            page,
            stop,
        ),
{
    let ghost all = texts_of(payloads@);
    let ghost wanted = with_payloads(candidates_of(candidates@), all, page, stop);
    assert(all.subrange(0, all.len() as int) =~= all);
    for i in 0..payloads.len()
        invariant
            all == texts_of(payloads@),
            wanted == with_payloads(
                candidates_of(old(candidates)@),
                texts_of(payloads@),
                page,
                stop,
            ),
            wanted == with_payloads(
                candidates_of(candidates@),
                all.subrange(i as int, all.len() as int),
                page,
                stop,
            ),
    {
        let ghost rest = all.subrange(i as int, all.len() as int);
        assert(rest.drop_first() =~= all.subrange(i + 1, all.len() as int));
        assert(rest[0] == payloads@[i as int]@);
        let text: String = trim_text(payloads[i].as_str());
        if !text.as_str().is_empty() && !was_seen(candidates, text.as_str()) {
            let invoice: bool = is_invoice_payload(text.as_str());
            let ghost before = candidates_of(candidates@);
            let ghost added = (page, text@);
            candidates.push((page, text));
            assert(candidates_of(candidates@) =~= before.push(added));
            if stop && invoice {
                return;
            }
        }
    }
}

/// Whether a picture has no pixels.
pub open spec fn is_blank(picture: Picture) -> bool {
    picture_size(picture).0 == 0 || picture_size(picture).1 == 0
}

/// Whether `candidates` may be what searching some pictures adds to those before: picture by
/// picture, the first `limit` of them, until an invoice payload is found. A picture without
/// pixels cannot be searched, and ends the search without a result.
pub open spec fn scan_outcome(
    readers: Readers,
    scans: Seq<(usize, Picture)>,
    limit: nat,
    before: Seq<(usize, Seq<char>)>,
    candidates: Option<Seq<(usize, Seq<char>)>>,
) -> bool
    decreases scans.len(),
{
    if scans.len() == 0 || limit == 0 {
        candidates == Some(before)
    } else if is_blank(scans[0].1) {
        candidates is None
    } else {
        exists|payloads: Seq<Seq<char>>|
            {
                let page = if scans[0].0 < 1 { 1 } else { scans[0].0 };
                let after = with_payloads(before, payloads, page, true);
                &&& #[trigger] dynamic_outcome(readers, scans[0].1, payloads)
                &&& if after.len() > 0 && is_invoice(after.last().1) {
                    candidates == Some(after)
                } else {
                    scan_outcome(readers, scans.drop_first(), (limit - 1) as nat, after, candidates)
                }
            }
    }
}

/// Whether the last of the candidates is an invoice payload.
fn ends_with_invoice(candidates: &Vec<(usize, String)>) -> (r: bool)
    ensures
        r == (candidates@.len() > 0 && is_invoice(candidates_of(candidates@).last().1)),
{
    if candidates.len() == 0 {
        false
    } else {
        is_invoice_payload(candidates[candidates.len() - 1].1.as_str())
    }
}

/// Searches images from one on, up to a limit; says whether all of them could be searched.
fn search_images<
    Q: Fn(&GrayImage) -> Vec<Option<Vec<u8>>>,
    R: Fn(&GrayImage) -> Vec<Option<String>>,
>(
    images: &Vec<ScanImage>,
    start: usize,
    limit: usize,
    candidates: &mut Vec<(usize, String)>,
    quirc: &Q,
    rqrr: &R,
) -> (r: bool)
    requires
        start <= images@.len(),
        all_scans_wf(images@),
        can_read(*quirc, *rqrr),
    ensures
        scan_outcome(
            readers_of(*quirc, *rqrr),
            scans_of(images@).subrange(start as int, images@.len() as int),
            limit as nat,
            candidates_of(old(candidates)@),
            if r {
                Some(candidates_of(final(candidates)@))
            } else {
                None
            },
        ),
    decreases limit,
{
    if start == images.len() || limit == 0 {
        return true;
    }
    let ghost rest = scans_of(images@).subrange(start as int, images@.len() as int);
    let ghost before = candidates_of(candidates@);
    assert(rest[0] == (images@[start as int].page, images@[start as int].image@));
    let (width, height): (u32, u32) = images[start].image.size();
    if width == 0 || height == 0 {
        return false;
    }
    let page: usize = if images[start].page < 1 { 1 } else { images[start].page };
    let payloads: Vec<String> = decode_qr_payloads_from_dynamic(&images[start].image, quirc, rqrr);
    assert(dynamic_outcome(readers_of(*quirc, *rqrr), rest[0].1, texts_of(payloads@)));
    add_payloads(candidates, &payloads, page, true);
    if ends_with_invoice(candidates) {
        return true;
    }
    assert(rest.drop_first() =~= scans_of(images@).subrange(start + 1, images@.len() as int));
    search_images(images, start + 1, limit - 1, candidates, quirc, rqrr)
}

/// Whether `rows` may be the rows for the pictures of a file, the first 36 of them, where all
/// of these can be searched.
pub open spec fn picture_rows(
    readers: Readers,
    file: Seq<char>,
    scans: Seq<(usize, Picture)>,
    rows: Option<Seq<Row>>,
) -> bool {
    exists|candidates: Option<Seq<(usize, Seq<char>)>>| #[trigger]
        scan_outcome(readers, scans, 36, Seq::empty(), candidates) && rows == match candidates {
            Some(found) => Some(candidate_rows(file, found)),
            None => None,
        }
}

/// The rows for the images of a file, where they can be searched.
pub fn scan_images<
    Q: Fn(&GrayImage) -> Vec<Option<Vec<u8>>>,
    R: Fn(&GrayImage) -> Vec<Option<String>>,
>(
    file: &str,
    images: &Vec<ScanImage>,
    quirc: &Q,
    rqrr: &R,
) -> (r: Option<Vec<QrRow>>)
    requires
        all_scans_wf(images@),
        can_read(*quirc, *rqrr),
    ensures
        picture_rows(
            readers_of(*quirc, *rqrr),
            file@,
            scans_of(images@),
            match r {
                Some(rows) => Some(rows_of(rows@)),
                None => None,
            },
        ),
{
    let mut candidates: Vec<(usize, String)> = Vec::new();
    assert(candidates_of(candidates@) =~= Seq::empty());
    let searched: bool = search_images(images, 0, 36, &mut candidates, quirc, rqrr);
    let ghost outcome = if searched { Some(candidates_of(candidates@)) } else { None };
    assert(scans_of(images@).subrange(0, images@.len() as int) =~= scans_of(images@));
    assert(scan_outcome(readers_of(*quirc, *rqrr), scans_of(images@), 36, Seq::empty(), outcome));
    if searched {
        Some(rows_for(file, &candidates))
    } else {
        None
    }
}

/// The pictures of an image file.
pub open spec fn image_pictures(bytes: Option<Seq<u8>>, format: ImageFormat) -> Result<
    Seq<(usize, Picture)>,
    ScanError,
> {
    match bytes {
        Some(b) => {
            let file = Encoded { bytes: b, format: Some(format) };
            if encoded_size(file) is Some {
                Ok(seq![(1usize, Picture::File(file))])
            } else {
                Err(ScanError::ImageFile)
            }
        },
        None => Err(ScanError::ImageFile),
    }
}

/// The pictures of a document, where it could be read.
pub open spec fn pdf_pictures(document: Option<PdfDocument>) -> Result<Seq<(usize, Picture)>, ScanError> {
    match document {
        Some(document) => document_pictures(document),
        None => Err(ScanError::PdfFile),
    }
}

/// Whether `pictures` may be what collecting the pictures of a file gives.
pub open spec fn file_pictures(
    kind: FileKind,
    bytes: Option<Seq<u8>>,
    pictures: Result<Seq<(usize, Picture)>, ScanError>,
) -> bool {
    match kind {
        FileKind::Image(format) => pictures == image_pictures(bytes, format),
        FileKind::Pdf => match bytes {
            Some(b) => exists|document: Option<PdfDocument>| #[trigger]
                loaded(b, document) && pictures == pdf_pictures(document),
            None => pictures == pdf_pictures(None),
        },
        _ => pictures == word_pictures(kind, bytes),
    }
}

/// The images of a document, where it could be read.
pub fn collect_document_images(document: Option<PdfDocument>) -> (r: Result<Vec<ScanImage>, ScanError>)
    ensures
        collect_result(r) == pdf_pictures(document),
        r matches Ok(images) ==> all_scans_wf(images@),
{
    match document {
        Some(document) => collect_pdf_images(&document),
        None => Err(ScanError::PdfFile),
    }
}

/// The images of a file, from its bytes where it could be read.
pub fn collect_file_images(kind: FileKind, bytes: Option<&[u8]>) -> (r: Result<Vec<ScanImage>, ScanError>)
    ensures
        file_pictures(kind, bytes_of(bytes), collect_result(r)),
        r matches Ok(images) ==> all_scans_wf(images@),
{
    match kind {
        FileKind::Image(format) => match bytes {
            Some(b) => match load_image_as(b, format) {
                Some(image) => {
                    let ghost picture = image@;
                    let mut out: Vec<ScanImage> = Vec::new();
                    out.push(ScanImage { page: 1, image });
                    assert(scans_of(out@) =~= seq![(1usize, picture)]);
                    Ok(out)
                },
                None => Err(ScanError::ImageFile),
            },
            None => Err(ScanError::ImageFile),
        },
        FileKind::Pdf => match bytes {
            Some(b) => {
                let document: Option<PdfDocument> = load_document(b);
                assert(loaded(b@, document));
                collect_document_images(document)
            },
            None => Err(ScanError::PdfFile),
        },
        _ => collect_word_images(kind, bytes),
    }
}

/// Whether `payloads` may be the payloads in the picture of a rendered page.
pub open spec fn page_outcome(readers: Readers, picture: Picture, payloads: Seq<Seq<char>>) -> bool {
    exists|first: Seq<Seq<char>>|
        {
            &&& #[trigger] dynamic_outcome(readers, picture, first)
            &&& if first.len() > 0 {
                payloads == first
            } else {
                rendered_outcome(readers, picture, payloads)
            }
        }
}

/// The payloads in the image of a rendered page.
fn decode_page<
    Q: Fn(&GrayImage) -> Vec<Option<Vec<u8>>>,
    R: Fn(&GrayImage) -> Vec<Option<String>>,
>(image: &DynamicImage, quirc: &Q, rqrr: &R) -> (r: Vec<String>)
    requires
        image.wf(),
        can_read(*quirc, *rqrr),
    ensures
        page_outcome(readers_of(*quirc, *rqrr), image@, texts_of(r@)),
{
    let first: Vec<String> = decode_qr_payloads_from_dynamic(image, quirc, rqrr);
    assert(dynamic_outcome(readers_of(*quirc, *rqrr), image@, texts_of(first@)));
    if first.len() > 0 {
        return first;
    }
    decode_qr_payloads_from_rendered(image, quirc, rqrr)
}

/// A scan of the rendered pages of a document: the resolutions tried, and what was found.
pub struct RenderScan {
    pub tried: usize,
    pub candidates: Vec<(usize, String)>,
}

/// The resolutions at which pages are rendered.
pub open spec fn resolutions() -> Seq<u32> {
    seq![200, 300, 400]
}

impl RenderScan {
    /// A scan that has tried nothing.
    pub fn new() -> (r: RenderScan)
        ensures
            r.tried == 0,
            r.candidates@ == Seq::<(usize, String)>::empty(),
    {
        RenderScan { tried: 0, candidates: Vec::new() }
    }

    /// The resolution to try next: none where a payload was found, or all were tried.
    pub fn next_resolution(&mut self) -> (r: Option<u32>)
        ensures
            final(self).candidates == old(self).candidates,
            r is Some <==> old(self).candidates@.len() == 0 && old(self).tried < 3,
            r matches Some(dpi) ==> dpi == resolutions()[old(self).tried as int] && final(self).tried == old(self).tried
                + 1,
            r is None ==> final(self).tried == old(self).tried,
    {
        if self.candidates.len() > 0 || self.tried >= 3 {
            return None;
        }
        let dpi: u32 = if self.tried == 0 { 200 } else if self.tried == 1 { 300 } else { 400 };
        self.tried = self.tried + 1;
        Some(dpi)
    }

    /// Adds what is found on a rendered page, from the bytes of its image where it could be
    /// read.
    pub fn add_page<
        Q: Fn(&GrayImage) -> Vec<Option<Vec<u8>>>,
        R: Fn(&GrayImage) -> Vec<Option<String>>,
    >(
        &mut self,
        page: usize,
        bytes: Option<&[u8]>,
        quirc: &Q,
        rqrr: &R,
    )
        requires
            can_read(*quirc, *rqrr),
        ensures
            final(self).tried == old(self).tried,
            match image_pictures(bytes_of(bytes), ImageFormat::Png) {
                Ok(scans) => exists|payloads: Seq<Seq<char>>| #[trigger]
                    page_outcome(readers_of(*quirc, *rqrr), scans[0].1, payloads) && candidates_of(
                        final(self).candidates@,
                    ) == with_payloads(candidates_of(old(self).candidates@), payloads, page, false),
                Err(_) => final(self).candidates@ == old(self).candidates@,
            },
    {
        if let Some(b) = bytes {
            if let Some(image) = load_image_as(b, ImageFormat::Png) {
                let payloads: Vec<String> = decode_page(&image, quirc, rqrr);
                proof {
                    let scans = image_pictures(bytes_of(bytes), ImageFormat::Png)->Ok_0;
                    assert(scans[0].1 == image@);
                    assert(page_outcome(readers_of(*quirc, *rqrr), scans[0].1, texts_of(payloads@)));
                }
                add_payloads(&mut self.candidates, &payloads, page, false);
            }
        }
    }

    /// The rows for what was found.
    pub fn rows(&self, file: &str) -> (r: Vec<QrRow>)
        ensures
            rows_of(r@) == candidate_rows(file@, candidates_of(self.candidates@)),
    {
        rows_for(file, &self.candidates)
    }
}

/// A file in the directory of rendered pages: its extension, and its name without it.
pub struct RenderedFile {
    pub extension: Option<String>,
    pub stem: Option<String>,
}

/// The page of a rendered file: the number in its name, or the first.
pub open spec fn page_of(file: RenderedFile) -> usize {
    match file.stem {
        Some(stem) => match render_page_no(stem@) {
            Some(n) => n as usize,
            None => 1,
        },
        None => 1,
    }
}

/// Whether a file is the image of a rendered page.
pub open spec fn is_rendered(file: RenderedFile) -> bool {
    file.extension matches Some(extension) && lowercase(extension@) == "png"@
}

/// Pages in order with one more, behind those with the same number.
pub open spec fn with_page(pages: Seq<(usize, usize)>, page: (usize, usize)) -> Seq<(usize, usize)>
    decreases pages.len(),
{
    if pages.len() == 0 || pages.last().0 <= page.0 {
        pages.push(page)
    } else {
        with_page(pages.drop_last(), page).push(pages.last())
    }
}

/// The rendered pages among the first `n` files, with the places of their files, in the order
/// of their numbers.
pub open spec fn page_list(files: Seq<RenderedFile>, n: int) -> Seq<(usize, usize)>
    decreases n,
{
    if n <= 0 {
        Seq::empty()
    } else if is_rendered(files[n - 1]) {
        with_page(page_list(files, n - 1), (page_of(files[n - 1]), (n - 1) as usize))
    } else {
        page_list(files, n - 1)
    }
}

/// The page of a rendered file.
fn read_page(file: &RenderedFile) -> (r: usize)
    ensures
        r == page_of(*file),
{
    match &file.stem {
        Some(stem) => match parse_render_page_no(Some(stem.as_str())) {
            Some(n) => n,
            None => 1,
        },
        None => 1,
    }
}

/// Whether a file is the image of a rendered page.
fn is_page_image(file: &RenderedFile) -> (r: bool)
    ensures
        r == is_rendered(*file),
{
    match &file.extension {
        Some(extension) => match extension_lower(Some(extension.as_str())) {
            Some(ext) => text_equal(ext.as_str(), "png"),
            None => false,
        },
        None => false,
    }
}

fn insert_page(pages: &mut Vec<(usize, usize)>, page: (usize, usize))
    ensures
        final(pages)@ == with_page(old(pages)@, page),
{
    let ghost before = pages@;
    let mut at: usize = pages.len();
    assert(before.take(at as int) =~= before);
    assert(with_page(before, page) =~= with_page(before.take(at as int), page) + before.subrange(
        at as int,
        before.len() as int,
    ));
    while at > 0 && pages[at - 1].0 > page.0
        invariant
            at <= pages@.len(),
            pages@ == before,
            with_page(before, page) == with_page(before.take(at as int), page) + before.subrange(
                at as int,
                before.len() as int,
            ),
        decreases at,
    {
        proof {
            let head = before.take(at as int);
            assert(head.last() == before[at - 1]);
            assert(head.drop_last() =~= before.take(at - 1));
            assert(with_page(before.take(at - 1), page).push(before[at - 1]) + before.subrange(
                at as int,
                before.len() as int,
            ) =~= with_page(before.take(at - 1), page) + before.subrange(at - 1, before.len() as int));
        }
        at = at - 1;
    }
    proof {
        if at > 0 {
            assert(before.take(at as int).last() == before[at - 1]);
        }
    }
    pages.insert(at, page);
    assert(pages@ =~= before.take(at as int).push(page) + before.subrange(at as int, before.len() as int));
}

/// The rendered pages among some files, in order.
pub fn list_pages(files: &Vec<RenderedFile>) -> (r: Vec<(usize, usize)>)
    ensures
        r@ == page_list(files@, files@.len() as int),
{
    let mut out: Vec<(usize, usize)> = Vec::new();
    assert(out@ =~= Seq::empty());
    for i in 0..files.len()
        invariant
            out@ == page_list(files@, i as int),
    {
        if is_page_image(&files[i]) {
            insert_page(&mut out, (read_page(&files[i]), i));
        }
    }
    out
}

/// How the scan of a file ends.
pub enum ScanOutcome {
    Completed(Vec<QrRow>),
    TimedOut,
    Failed(String),
}

/// What comes back from work on a file that is awaited: reading its text, searching its images,
/// or rendering its pages.
pub enum WorkEvent {
    /// It has ended, with rows or with a message.
    Ended(Result<Vec<QrRow>, String>),
    /// It has not ended in time.
    Waited,
    /// It ended without a result.
    Lost,
}

/// How far the scan of a file has come.
pub enum Stage {
    /// Nothing was done.
    Begin,
    /// Its text was read.
    TextRead(WorkEvent),
    /// The search of its images was awaited for a short time.
    FirstWait(WorkEvent),
    /// Its pages were rendered, after the search found nothing.
    RenderedAfter(WorkEvent),
    /// Its pages were rendered; and how far the search, which went on, has come.
    RenderedMeanwhile { rendered: WorkEvent, search: WorkEvent },
    /// The search of its images was awaited for the rest of the time.
    LastWait(WorkEvent),
}

/// What is to be done next in the scan of a file. Work is awaited for so many milliseconds, and
/// given up then.
pub enum Action {
    /// To read its text.
    ReadText { wait_millis: u64 },
    /// To start the search of its images, and await it.
    Search { wait_millis: u64 },
    /// To render its pages, after the search found nothing.
    RenderAfter { wait_millis: u64 },
    /// To render its pages, while the search goes on.
    RenderMeanwhile { wait_millis: u64 },
    /// To await the search further.
    Await { wait_millis: u64 },
    /// To end.
    Finish(ScanOutcome),
}

/// The milliseconds that are left for a file after some have passed, as far as they can be
/// counted.
pub open spec fn time_left(timeout_secs: u64, elapsed_millis: u64) -> u64 {
    let left = timeout_secs * 1000 - elapsed_millis;
    if left < 0 {
        0
    } else if left < u64::MAX {
        left as u64
    } else {
        u64::MAX
    }
}

/// Whether an action ends the scan because its time is over.
pub open spec fn is_timeout(action: Action) -> bool {
    action == Action::Finish(ScanOutcome::TimedOut)
}

/// Whether an action ends the scan because work ended without a result.
pub open spec fn is_lost(action: Action) -> bool {
    action matches Action::Finish(ScanOutcome::Failed(message)) && message@ == "扫描线程异常: 通道已断开"@
}

/// What is done where the images are to be searched: the search is awaited for two seconds, or
/// what is left.
pub open spec fn is_searching(left: u64, action: Action) -> bool {
    if left == 0 {
        is_timeout(action)
    } else if left < 2000 {
        action == (Action::Search { wait_millis: left })
    } else {
        action == (Action::Search { wait_millis: 2000 })
    }
}

/// What is done after the search of the images of a file has ended: where a document has
/// nothing to show, its pages are rendered.
pub open spec fn is_after_search(
    kind: FileKind,
    left: u64,
    result: Result<Vec<QrRow>, String>,
    action: Action,
) -> bool {
    match result {
        Ok(rows) => if rows@.len() == 0 && kind is Pdf {
            if left == 0 {
                is_timeout(action)
            } else {
                action == (Action::RenderAfter { wait_millis: left })
            }
        } else {
            action == Action::Finish(ScanOutcome::Completed(rows))
        },
        Err(message) => action == Action::Finish(ScanOutcome::Failed(message)),
    }
}

/// What is done where the search goes on: it is awaited for the rest of the time, if any is
/// left.
pub open spec fn is_remaining(left: u64, action: Action) -> bool {
    if left == 0 {
        is_timeout(action)
    } else {
        action == (Action::Await { wait_millis: left })
    }
}

/// What is done after the text of a file was read: where it has nothing to show, the images
/// are searched.
pub open spec fn is_after_text(left: u64, event: WorkEvent, action: Action) -> bool {
    match event {
        WorkEvent::Ended(Ok(rows)) => if rows@.len() == 0 {
            is_searching(left, action)
        } else {
            action == Action::Finish(ScanOutcome::Completed(rows))
        },
        WorkEvent::Ended(Err(message)) => action == Action::Finish(ScanOutcome::Failed(message)),
        WorkEvent::Waited => is_timeout(action),
        WorkEvent::Lost => is_lost(action),
    }
}

/// What is done when the first wait is over: the pages of a document are rendered where time is
/// left for that.
pub open spec fn is_after_first_wait(kind: FileKind, left: u64, event: WorkEvent, action: Action) -> bool {
    match event {
        WorkEvent::Ended(result) => is_after_search(kind, left, result, action),
        WorkEvent::Waited => if kind is Pdf && left > 0 {
            action == (Action::RenderMeanwhile { wait_millis: left })
        } else {
            is_remaining(left, action)
        },
        WorkEvent::Lost => is_lost(action),
    }
}

/// What is done after the pages of a document were rendered while the search went on: where
/// they have nothing to show, or not in time, the search decides.
pub open spec fn is_after_rendering(
    kind: FileKind,
    left: u64,
    rendered: WorkEvent,
    search: WorkEvent,
    action: Action,
) -> bool {
    match rendered {
        WorkEvent::Ended(Ok(rows)) if rows@.len() > 0 => action == Action::Finish(ScanOutcome::Completed(rows)),
        WorkEvent::Ended(Err(message)) => action == Action::Finish(ScanOutcome::Failed(message)),
        WorkEvent::Lost => is_lost(action),
        _ => match search {
            WorkEvent::Ended(result) => is_after_search(kind, left, result, action),
            WorkEvent::Waited => is_remaining(left, action),
            WorkEvent::Lost => is_lost(action),
        },
    }
}

/// What is done where the rest of the scan is over: it ends with what came of it.
pub open spec fn is_end(event: WorkEvent, action: Action) -> bool {
    match event {
        WorkEvent::Ended(Ok(rows)) => action == Action::Finish(ScanOutcome::Completed(rows)),
        WorkEvent::Ended(Err(message)) => action == Action::Finish(ScanOutcome::Failed(message)),
        WorkEvent::Waited => is_timeout(action),
        WorkEvent::Lost => is_lost(action),
    }
}

/// Whether an action is what is done next in the scan of a file, so many milliseconds after
/// its start.
pub open spec fn is_next(
    kind: FileKind,
    timeout_secs: u64,
    elapsed_millis: u64,
    stage: Stage,
    action: Action,
) -> bool {
    let left = time_left(timeout_secs, elapsed_millis);
    match stage {
        Stage::Begin => if kind is Pdf || kind is Docx || kind is Doc {
            action == (Action::ReadText { wait_millis: left })
        } else {
            is_searching(left, action)
        },
        Stage::TextRead(event) => is_after_text(left, event, action),
        Stage::FirstWait(event) => is_after_first_wait(kind, left, event, action),
        Stage::RenderedAfter(event) => is_end(event, action),
        Stage::RenderedMeanwhile { rendered, search } => is_after_rendering(kind, left, rendered, search, action),
        Stage::LastWait(WorkEvent::Ended(result)) => is_after_search(kind, left, result, action),
        Stage::LastWait(event) => is_end(event, action),
    }
}

/// The milliseconds that are left for a file.
fn count_left(timeout_secs: u64, elapsed_millis: u64) -> (r: u64)
    ensures
        r == time_left(timeout_secs, elapsed_millis),
{
    let total: u128 = timeout_secs as u128 * 1000;
    if total < elapsed_millis as u128 {
        return 0;
    }
    let left: u128 = total - elapsed_millis as u128;
    if left < u64::MAX as u128 {
        left as u64
    } else {
        u64::MAX
    }
}

/// The action where the images are to be searched.
fn searching(left: u64) -> (r: Action)
    ensures
        is_searching(left, r),
{
    if left == 0 {
        Action::Finish(ScanOutcome::TimedOut)
    } else if left < 2000 {
        Action::Search { wait_millis: left }
    } else {
        Action::Search { wait_millis: 2000 }
    }
}

/// The action after the search of the images of a file has ended.
fn after_search(kind: FileKind, left: u64, result: Result<Vec<QrRow>, String>) -> (r: Action)
    ensures
        is_after_search(kind, left, result, r),
{
    match result {
        Ok(rows) => {
            let pdf: bool = matches!(kind, FileKind::Pdf);
            if rows.len() == 0 && pdf {
                if left == 0 {
                    Action::Finish(ScanOutcome::TimedOut)
                } else {
                    Action::RenderAfter { wait_millis: left }
                }
            } else {
                Action::Finish(ScanOutcome::Completed(rows))
            }
        },
        Err(message) => Action::Finish(ScanOutcome::Failed(message)),
    }
}

/// The action where the search goes on.
fn remaining(left: u64) -> (r: Action)
    ensures
        is_remaining(left, r),
{
    if left == 0 {
        Action::Finish(ScanOutcome::TimedOut)
    } else {
        Action::Await { wait_millis: left }
    }
}

/// The action where work ended without a result.
fn lost() -> (r: Action)
    ensures
        is_lost(r),
{
    Action::Finish(ScanOutcome::Failed(ScanError::Disconnected.message("")))
}

/// The action after the text of a file was read.
fn after_text(left: u64, event: WorkEvent) -> (r: Action)
    ensures
        is_after_text(left, event, r),
{
    match event {
        WorkEvent::Ended(Ok(rows)) => if rows.len() == 0 {
            searching(left)
        } else {
            Action::Finish(ScanOutcome::Completed(rows))
        },
        WorkEvent::Ended(Err(message)) => Action::Finish(ScanOutcome::Failed(message)),
        WorkEvent::Waited => Action::Finish(ScanOutcome::TimedOut),
        WorkEvent::Lost => lost(),
    }
}

/// The action when the first wait is over.
fn after_first_wait(kind: FileKind, left: u64, event: WorkEvent) -> (r: Action)
    ensures
        is_after_first_wait(kind, left, event, r),
{
    match event {
        WorkEvent::Ended(result) => after_search(kind, left, result),
        WorkEvent::Waited => {
            let pdf: bool = matches!(kind, FileKind::Pdf);
            if pdf && left > 0 {
                Action::RenderMeanwhile { wait_millis: left }
            } else {
                remaining(left)
            }
        },
        WorkEvent::Lost => lost(),
    }
}

/// The action where the search decides.
fn after_rendering(kind: FileKind, left: u64, rendered: WorkEvent, search: WorkEvent) -> (r: Action)
    ensures
        is_after_rendering(kind, left, rendered, search, r),
{
    match rendered {
        WorkEvent::Ended(Ok(rows)) => {
            if rows.len() > 0 {
                return Action::Finish(ScanOutcome::Completed(rows));
            }
        },
        WorkEvent::Ended(Err(message)) => {
            return Action::Finish(ScanOutcome::Failed(message));
        },
        WorkEvent::Lost => {
            return lost();
        },
        WorkEvent::Waited => {},
    }
    match search {
        WorkEvent::Ended(result) => after_search(kind, left, result),
        WorkEvent::Waited => remaining(left),
        WorkEvent::Lost => lost(),
    }
}

/// The action where the rest of the scan is over.
fn end_with(event: WorkEvent) -> (r: Action)
    ensures
        is_end(event, r),
{
    match event {
        WorkEvent::Ended(Ok(rows)) => Action::Finish(ScanOutcome::Completed(rows)),
        WorkEvent::Ended(Err(message)) => Action::Finish(ScanOutcome::Failed(message)),
        WorkEvent::Waited => Action::Finish(ScanOutcome::TimedOut),
        WorkEvent::Lost => lost(),
    }
}

/// What is done next in the scan of a file, so many milliseconds after its start.
pub fn next_action(kind: FileKind, timeout_secs: u64, elapsed_millis: u64, stage: Stage) -> (r: Action)
    ensures
        is_next(kind, timeout_secs, elapsed_millis, stage, r),
{
    let left: u64 = count_left(timeout_secs, elapsed_millis);
    match stage {
        Stage::Begin => match kind {
            FileKind::Pdf => Action::ReadText { wait_millis: left },
            FileKind::Docx => Action::ReadText { wait_millis: left },
            FileKind::Doc => Action::ReadText { wait_millis: left },
            _ => searching(left),
        },
        Stage::TextRead(event) => after_text(left, event),
        Stage::FirstWait(event) => after_first_wait(kind, left, event),
        Stage::RenderedAfter(event) => end_with(event),
        Stage::RenderedMeanwhile { rendered, search } => after_rendering(kind, left, rendered, search),
        Stage::LastWait(WorkEvent::Ended(result)) => after_search(kind, left, result),
        Stage::LastWait(event) => end_with(event),
    }
}

/// How long an action waits: not at all where it ends the scan.
pub open spec fn wait_of(action: Action) -> u64 {
    match action {
        Action::ReadText { wait_millis } => wait_millis,
        Action::Search { wait_millis } => wait_millis,
        Action::RenderAfter { wait_millis } => wait_millis,
        Action::RenderMeanwhile { wait_millis } => wait_millis,
        Action::Await { wait_millis } => wait_millis,
        Action::Finish(_) => 0,
    }
}

/// Nothing is awaited past the time that a file is given, whatever is done; and the first wait
/// for the search of its images is no longer than two seconds.
pub proof fn law_waits(kind: FileKind, timeout_secs: u64, elapsed_millis: u64, stage: Stage, action: Action)
    requires
        is_next(kind, timeout_secs, elapsed_millis, stage, action),
    ensures
        wait_of(action) > 0 ==> elapsed_millis + wait_of(action) <= timeout_secs * 1000,
        action is Search ==> wait_of(action) <= 2000,
{
}

/// Where no time is left, nothing more is done: once the scan has begun it ends, and at its
/// beginning nothing is awaited.
pub proof fn law_no_time_left(kind: FileKind, timeout_secs: u64, elapsed_millis: u64, stage: Stage, action: Action)
    requires
        is_next(kind, timeout_secs, elapsed_millis, stage, action),
        elapsed_millis >= timeout_secs * 1000,
    ensures
        !(stage is Begin) ==> action is Finish,
        stage is Begin ==> wait_of(action) == 0,
{
}

/// Work that did not end in time, where no time is left, ends the scan as timed out, unless the
/// search of the images has ended meanwhile.
pub proof fn law_timed_out(kind: FileKind, timeout_secs: u64, elapsed_millis: u64, stage: Stage, action: Action)
    requires
        is_next(kind, timeout_secs, elapsed_millis, stage, action),
        elapsed_millis >= timeout_secs * 1000,
        stage == Stage::TextRead(WorkEvent::Waited) || stage == Stage::FirstWait(WorkEvent::Waited) || stage
            == Stage::RenderedAfter(WorkEvent::Waited) || stage == Stage::LastWait(WorkEvent::Waited) || stage
            == (Stage::RenderedMeanwhile { rendered: WorkEvent::Waited, search: WorkEvent::Waited }),
    ensures
        action == Action::Finish(ScanOutcome::TimedOut),
{
}

/// How many more actions the scan of a file can take.
pub open spec fn steps_left(stage: Stage) -> int {
    match stage {
        Stage::Begin => 6,
        Stage::TextRead(_) => 5,
        Stage::FirstWait(_) => 4,
        Stage::RenderedMeanwhile { .. } => 3,
        Stage::LastWait(_) => 2,
        Stage::RenderedAfter(_) => 1,
    }
}

/// Whether a stage is what an action leads to.
pub open spec fn leads_on(action: Action, stage: Stage) -> bool {
    match action {
        Action::ReadText { .. } => stage is TextRead,
        Action::Search { .. } => stage is FirstWait,
        Action::RenderAfter { .. } => stage is RenderedAfter,
        Action::RenderMeanwhile { .. } => stage is RenderedMeanwhile,
        Action::Await { .. } => stage is LastWait,
        Action::Finish(_) => false,
    }
}

/// The scan of a file ends after a few actions, whatever comes of them.
pub proof fn law_scan_ends(
    kind: FileKind,
    timeout_secs: u64,
    elapsed_millis: u64,
    stage: Stage,
    action: Action,
    next: Stage,
)
    requires
        is_next(kind, timeout_secs, elapsed_millis, stage, action),
        leads_on(action, next),
    ensures
        0 < steps_left(next) < steps_left(stage),
{
}

/// Pages are rendered of documents only, and only where their text and, as far as it has
/// ended, the search of their images had nothing to show, and time is left.
pub proof fn law_render(kind: FileKind, timeout_secs: u64, elapsed_millis: u64, stage: Stage, action: Action)
    requires
        is_next(kind, timeout_secs, elapsed_millis, stage, action),
    ensures
        action is RenderMeanwhile ==> kind is Pdf && stage == Stage::FirstWait(WorkEvent::Waited) && wait_of(action)
            > 0,
        action is RenderAfter ==> kind is Pdf && wait_of(action) > 0 && match stage {
            Stage::FirstWait(WorkEvent::Ended(Ok(rows))) => rows@.len() == 0,
            Stage::LastWait(WorkEvent::Ended(Ok(rows))) => rows@.len() == 0,
            Stage::RenderedMeanwhile { rendered, search: WorkEvent::Ended(Ok(rows)) } => rows@.len() == 0,
            _ => false,
        },
{
}

/// Rows that were found are what the scan ends with, at whatever stage they were found.
pub proof fn law_rows_kept(
    kind: FileKind,
    timeout_secs: u64,
    elapsed_millis: u64,
    rows: Vec<QrRow>,
    stage: Stage,
    action: Action,
)
    requires
        rows@.len() > 0,
        match stage {
            Stage::Begin => false,
            Stage::TextRead(event) => event == WorkEvent::Ended(Ok(rows)),
            Stage::FirstWait(event) => event == WorkEvent::Ended(Ok(rows)),
            Stage::RenderedAfter(event) => event == WorkEvent::Ended(Ok(rows)),
            Stage::RenderedMeanwhile { rendered, search } => rendered == WorkEvent::Ended(Ok(rows)) || (rendered
                is Waited && search == WorkEvent::Ended(Ok(rows))),
            Stage::LastWait(event) => event == WorkEvent::Ended(Ok(rows)),
        },
        is_next(kind, timeout_secs, elapsed_millis, stage, action),
    ensures
        action == Action::Finish(ScanOutcome::Completed(rows)),
{
}

/// The rows of the report, with those of one more file: what was found, or a row with a
/// marker that says why nothing was.
pub open spec fn with_outcome(rows: Seq<Row>, file: Seq<char>, outcome: ScanOutcome) -> Seq<Row> {
    match outcome {
        ScanOutcome::Completed(found) => if found@.len() == 0 {
            rows.push(failed_row(file, "识别失败"@))
        } else {
            rows + rows_of(found@)
        },
        ScanOutcome::TimedOut => rows.push(failed_row(file, error_marker("超时"@))),
        ScanOutcome::Failed(message) => rows.push(failed_row(file, error_marker(message@))),
    }
}

/// Adds the rows of a file to the report.
pub fn append_outcome(rows: &mut Vec<QrRow>, file: &str, outcome: ScanOutcome)
    ensures
        rows_of(final(rows)@) == with_outcome(rows_of(old(rows)@), file@, outcome),
{
    let ghost before = rows@;
    match outcome {
        ScanOutcome::Completed(found) => {
            if found.len() == 0 {
                rows.push(build_failed_row(file, "识别失败"));
            } else {
                let mut found = found;
                let ghost more = found@;
                rows.append(&mut found);
                assert(rows_of(rows@) =~= rows_of(before) + rows_of(more));
            }
        },
        ScanOutcome::TimedOut => {
            let marker: String = format_scan_error_marker("超时");
            rows.push(build_failed_row(file, marker.as_str()));
        },
        ScanOutcome::Failed(message) => {
            let marker: String = format_scan_error_marker(message.as_str());
            rows.push(build_failed_row(file, marker.as_str()));
        },
    }
    assert(rows_of(rows@) =~= with_outcome(rows_of(before), file@, outcome));
}

/// Every file adds to the report, and changes nothing in it.
pub proof fn law_every_file_reported(rows: Seq<Row>, file: Seq<char>, outcome: ScanOutcome)
    ensures
        with_outcome(rows, file, outcome).len() > rows.len(),
        rows =~= with_outcome(rows, file, outcome).take(rows.len() as int),
{
}

/// What is shown of a file while the scan goes on, without the time that it took.
pub open spec fn progress(
    index: nat,
    total: nat,
    file: Seq<char>,
    outcome: ScanOutcome,
    timeout_secs: u64,
) -> Seq<char> {
    let head = "["@ + decimal(index) + "/"@ + decimal(total) + "] "@ + file + " -> "@;
    match outcome {
        ScanOutcome::Completed(found) => head + "本文件识别 "@ + decimal(
            if found@.len() == 0 {
                1
            } else {
                found@.len()
            },
        ) + " 条"@,
        ScanOutcome::TimedOut => head + "超时跳过 (>"@ + decimal(timeout_secs as nat) + "s)"@,
        ScanOutcome::Failed(message) => head + "失败: "@ + message@,
    }
}

/// What is shown of a file while the scan goes on.
pub fn progress_text(
    index: usize,
    total: usize,
    file: &str,
    outcome: &ScanOutcome,
    timeout_secs: u64,
) -> (r: String)
    ensures
        r@ == progress(index as nat, total as nat, file@, *outcome, timeout_secs),
{
    let mut out: String = "[".to_owned();
    let number: String = decimal_text(index as u64);
    out.append(number.as_str());
    out.append("/");
    let count: String = decimal_text(total as u64);
    out.append(count.as_str());
    out.append("] ");
    out.append(file);
    out.append(" -> ");
    match outcome {
        ScanOutcome::Completed(found) => {
            let n: String = decimal_text(if found.len() == 0 { 1 } else { found.len() as u64 });
            out.append("本文件识别 ");
            out.append(n.as_str());
            out.append(" 条");
        },
        ScanOutcome::TimedOut => {
            let seconds: String = decimal_text(timeout_secs);
            out.append("超时跳过 (>");
            out.append(seconds.as_str());
            out.append("s)");
        },
        ScanOutcome::Failed(message) => {
            out.append("失败: ");
            out.append(message.as_str());
        },
    }
    out
}

/// Candidates of which none is empty and none occurs twice.
pub open spec fn is_distinct(candidates: Seq<(usize, Seq<char>)>) -> bool {
    &&& forall|i: int| 0 <= i < candidates.len() ==> (#[trigger] candidates[i]).1.len() > 0
    &&& forall|i: int, j: int|
        0 <= i < j < candidates.len() ==> (#[trigger] candidates[i]).1 != (#[trigger] candidates[j]).1
}

/// Adding the payloads found on a page keeps what was found before, in its place, and leaves
/// nothing empty or double.
pub proof fn law_distinct(
    candidates: Seq<(usize, Seq<char>)>,
    payloads: Seq<Seq<char>>,
    page: usize,
    stop: bool,
)
    requires
        is_distinct(candidates),
    ensures
        is_distinct(with_payloads(candidates, payloads, page, stop)),
        candidates.is_prefix_of(with_payloads(candidates, payloads, page, stop)),
    decreases payloads.len(),
{
    if payloads.len() > 0 {
        let text = trimmed(payloads[0]);
        if text.len() == 0 || is_seen(candidates, text) {
            law_distinct(candidates, payloads.drop_first(), page, stop);
        } else {
            let more = candidates.push((page, text));
            assert forall|i: int, j: int| 0 <= i < j < more.len() implies (#[trigger] more[i]).1 != (
            #[trigger] more[j]).1 by {
                assert(more[i] == candidates[i]);
            }
            if !(stop && is_invoice(text)) {
                law_distinct(more, payloads.drop_first(), page, stop);
            }
            assert(candidates.is_prefix_of(more));
        }
    }
}

/// Whatever pictures are searched, nothing that is found is empty or double, and what was
/// found before is kept.
pub proof fn law_scan_distinct(
    readers: Readers,
    scans: Seq<(usize, Picture)>,
    limit: nat,
    before: Seq<(usize, Seq<char>)>,
    candidates: Seq<(usize, Seq<char>)>,
)
    requires
        is_distinct(before),
        scan_outcome(readers, scans, limit, before, Some(candidates)),
    ensures
        is_distinct(candidates),
        before.is_prefix_of(candidates),
    decreases scans.len(),
{
    if scans.len() > 0 && limit > 0 {
        assert(!is_blank(scans[0].1));
        let page = if scans[0].0 < 1 { 1 } else { scans[0].0 };
        let payloads = choose|payloads: Seq<Seq<char>>|
            {
                let after = with_payloads(before, payloads, page, true);
                &&& #[trigger] dynamic_outcome(readers, scans[0].1, payloads)
                &&& if after.len() > 0 && is_invoice(after.last().1) {
                    candidates == after
                } else {
                    scan_outcome(readers, scans.drop_first(), (limit - 1) as nat, after, Some(candidates))
                }
            };
        let after = with_payloads(before, payloads, page, true);
        law_distinct(before, payloads, page, true);
        if !(after.len() > 0 && is_invoice(after.last().1)) {
            law_scan_distinct(readers, scans.drop_first(), (limit - 1) as nat, after, candidates);
        }
    }
}

/// Where none of the first pictures is without pixels, the search has a result.
pub proof fn law_scan_succeeds(
    readers: Readers,
    scans: Seq<(usize, Picture)>,
    limit: nat,
    before: Seq<(usize, Seq<char>)>,
    candidates: Option<Seq<(usize, Seq<char>)>>,
)
    requires
        scan_outcome(readers, scans, limit, before, candidates),
        forall|i: int| 0 <= i < scans.len() && i < limit ==> !is_blank((#[trigger] scans[i]).1),
    ensures
        candidates is Some,
    decreases scans.len(),
{
    if scans.len() > 0 && limit > 0 {
        assert(!is_blank(scans[0].1));
        let page = if scans[0].0 < 1 { 1 } else { scans[0].0 };
        let payloads = choose|payloads: Seq<Seq<char>>|
            {
                let after = with_payloads(before, payloads, page, true);
                &&& #[trigger] dynamic_outcome(readers, scans[0].1, payloads)
                &&& if after.len() > 0 && is_invoice(after.last().1) {
                    candidates == Some(after)
                } else {
                    scan_outcome(readers, scans.drop_first(), (limit - 1) as nat, after, candidates)
                }
            };
        let after = with_payloads(before, payloads, page, true);
        if !(after.len() > 0 && is_invoice(after.last().1)) {
            let rest = scans.drop_first();
            assert forall|i: int| 0 <= i < rest.len() && i < limit - 1 implies !is_blank((#[trigger] rest[i]).1) by {
                assert(rest[i] == scans[i + 1]);
            }
            law_scan_succeeds(readers, rest, (limit - 1) as nat, after, candidates);
        }
    }
}

/// Pages in the order of their numbers.
pub open spec fn in_order(pages: Seq<(usize, usize)>) -> bool {
    forall|i: int, j: int| 0 <= i < j < pages.len() ==> (#[trigger] pages[i]).0 <= (#[trigger] pages[j]).0
}

proof fn lemma_with_page(pages: Seq<(usize, usize)>, page: (usize, usize))
    requires
        in_order(pages),
    ensures
        in_order(with_page(pages, page)),
        with_page(pages, page).len() == pages.len() + 1,
        forall|p: (usize, usize)| #[trigger] with_page(pages, page).contains(p) <==> pages.contains(p) || p == page,
    decreases pages.len(),
{
    let out = with_page(pages, page);
    if pages.len() == 0 || pages.last().0 <= page.0 {
        assert forall|i: int, j: int| 0 <= i < j < out.len() implies (#[trigger] out[i]).0 <= (#[trigger] out[j]).0 by {
            if j == pages.len() && i < pages.len() - 1 {
                assert(pages[i].0 <= pages[pages.len() - 1].0);
            }
        }
        assert forall|p: (usize, usize)| #[trigger] out.contains(p) <==> pages.contains(p) || p == page by {
            if pages.contains(p) {
                let i = choose|i: int| 0 <= i < pages.len() && pages[i] == p;
                assert(out[i] == p);
            }
            assert(out[pages.len() as int] == page);
        }
    } else {
        let head = pages.drop_last();
        let inner = with_page(head, page);
        assert forall|i: int, j: int| 0 <= i < j < head.len() implies (#[trigger] head[i]).0 <= (
        #[trigger] head[j]).0 by {
            assert(head[i] == pages[i] && head[j] == pages[j]);
        }
        lemma_with_page(head, page);
        assert forall|i: int| 0 <= i < inner.len() implies (#[trigger] inner[i]).0 <= pages.last().0 by {
            assert(inner.contains(inner[i]));
            if head.contains(inner[i]) {
                let k = choose|k: int| 0 <= k < head.len() && head[k] == inner[i];
                assert(pages[k].0 <= pages[pages.len() - 1].0);
            }
        }
        assert forall|i: int, j: int| 0 <= i < j < out.len() implies (#[trigger] out[i]).0 <= (#[trigger] out[j]).0 by {
            assert(out[i] == inner[i]);
            if j < inner.len() {
                assert(out[j] == inner[j]);
            }
        }
        assert forall|p: (usize, usize)| #[trigger] out.contains(p) <==> pages.contains(p) || p == page by {
            assert(inner.contains(p) <==> head.contains(p) || p == page);
            assert(out[inner.len() as int] == pages.last());
            assert(pages[pages.len() - 1] == pages.last());
            if out.contains(p) {
                let i = choose|i: int| 0 <= i < out.len() && out[i] == p;
                if i < inner.len() {
                    assert(inner[i] == p);
                    if head.contains(p) {
                        let k = choose|k: int| 0 <= k < head.len() && head[k] == p;
                        assert(pages[k] == p);
                    }
                }
            }
            if pages.contains(p) && p != pages.last() {
                let k = choose|k: int| 0 <= k < pages.len() && pages[k] == p;
                assert(head[k] == p);
            }
            if inner.contains(p) {
                let i = choose|i: int| 0 <= i < inner.len() && inner[i] == p;
                assert(out[i] == p);
            }
        }
    }
}

/// The list of rendered pages is in the order of their numbers, and has a place for just the
/// files that are images of them.
pub proof fn law_page_list(files: Seq<RenderedFile>, n: int)
    requires
        0 <= n <= files.len() <= usize::MAX,
    ensures
        in_order(page_list(files, n)),
        forall|i: int|
            0 <= i < n && is_rendered(#[trigger] files[i]) ==> page_list(files, n).contains(
                (page_of(files[i]), i as usize),
            ),
        forall|p: (usize, usize)| #[trigger]
            page_list(files, n).contains(p) ==> p.1 < n && is_rendered(files[p.1 as int]) && p.0 == page_of(
                files[p.1 as int],
            ),
    decreases n,
{
    if n > 0 {
        law_page_list(files, n - 1);
        if is_rendered(files[n - 1]) {
            lemma_with_page(page_list(files, n - 1), (page_of(files[n - 1]), (n - 1) as usize));
        }
    }
}

/// Candidates on pages that are numbered from one on.
pub open spec fn are_numbered(candidates: Seq<(usize, Seq<char>)>) -> bool {
    forall|i: int| 0 <= i < candidates.len() ==> (#[trigger] candidates[i]).0 >= 1
}

proof fn lemma_payloads_numbered(
    candidates: Seq<(usize, Seq<char>)>,
    payloads: Seq<Seq<char>>,
    page: usize,
    stop: bool,
)
    requires
        are_numbered(candidates),
        page >= 1,
    ensures
        are_numbered(with_payloads(candidates, payloads, page, stop)),
    decreases payloads.len(),
{
    if payloads.len() > 0 {
        let text = trimmed(payloads[0]);
        if text.len() == 0 || is_seen(candidates, text) {
            lemma_payloads_numbered(candidates, payloads.drop_first(), page, stop);
        } else if !(stop && is_invoice(text)) {
            lemma_payloads_numbered(candidates.push((page, text)), payloads.drop_first(), page, stop);
        }
    }
}

proof fn lemma_scan_numbered(
    readers: Readers,
    scans: Seq<(usize, Picture)>,
    limit: nat,
    before: Seq<(usize, Seq<char>)>,
    candidates: Seq<(usize, Seq<char>)>,
)
    requires
        are_numbered(before),
        scan_outcome(readers, scans, limit, before, Some(candidates)),
    ensures
        are_numbered(candidates),
    decreases scans.len(),
{
    if scans.len() > 0 && limit > 0 {
        assert(!is_blank(scans[0].1));
        let page = if scans[0].0 < 1 { 1 } else { scans[0].0 };
        let payloads = choose|payloads: Seq<Seq<char>>|
            {
                let after = with_payloads(before, payloads, page, true);
                &&& #[trigger] dynamic_outcome(readers, scans[0].1, payloads)
                &&& if after.len() > 0 && is_invoice(after.last().1) {
                    candidates == after
                } else {
                    scan_outcome(readers, scans.drop_first(), (limit - 1) as nat, after, Some(candidates))
                }
            };
        let after = with_payloads(before, payloads, page, true);
        lemma_payloads_numbered(before, payloads, page, true);
        if !(after.len() > 0 && is_invoice(after.last().1)) {
            lemma_scan_numbered(readers, scans.drop_first(), (limit - 1) as nat, after, candidates);
        }
    }
}

/// The pictures of a file give at most one row, where they can be searched. It names the file
/// and a page from one on, and its content is not empty.
pub proof fn law_picture_rows(readers: Readers, file: Seq<char>, scans: Seq<(usize, Picture)>, rows: Seq<Row>)
    requires
        picture_rows(readers, file, scans, Some(rows)),
    ensures
        rows.len() <= 1,
        rows.len() == 1 ==> rows[0].file == file && rows[0].page >= 1 && rows[0].qr_index == 1
            && rows[0].content.len() > 0,
{
    let candidates = choose|candidates: Seq<(usize, Seq<char>)>| #[trigger]
        scan_outcome(readers, scans, 36, Seq::empty(), Some(candidates)) && rows == candidate_rows(file, candidates);
    law_scan_distinct(readers, scans, 36, Seq::empty(), candidates);
    lemma_scan_numbered(readers, scans, 36, Seq::empty(), candidates);
    law_one_row(file, candidates);
}

/// Whether one of some payloads is, without white space round it, that of an invoice.
pub open spec fn has_invoice(payloads: Seq<Seq<char>>) -> bool {
    exists|m: int| 0 <= m < payloads.len() && is_invoice(trimmed(#[trigger] payloads[m]))
}

/// No candidate is the payload of an invoice.
pub open spec fn none_invoice(candidates: Seq<(usize, Seq<char>)>) -> bool {
    forall|i: int| 0 <= i < candidates.len() ==> !is_invoice((#[trigger] candidates[i]).1)
}

proof fn lemma_invoice_not_empty(text: Seq<char>)
    ensures
        is_invoice(text) ==> text.len() > 0,
{
    law_parts_of_text(text);
}

/// Adding the payloads on a page, up to the first that is an invoice, to candidates of which
/// none is: without an invoice among them, all that are not empty are there; with one, it is
/// the last, with the page, and the only one.
pub proof fn law_payloads_added(
    before: Seq<(usize, Seq<char>)>,
    payloads: Seq<Seq<char>>,
    page: usize,
)
    requires
        none_invoice(before),
    ensures
        ({
            let after = with_payloads(before, payloads, page, true);
            &&& before.is_prefix_of(after)
            &&& forall|i: int|
                before.len() <= i < after.len() ==> (#[trigger] after[i]).0 == page && after[i].1.len() > 0 && exists|m: int|
                    0 <= m < payloads.len() && after[i].1 == trimmed(#[trigger] payloads[m])
            &&& !has_invoice(payloads) ==> none_invoice(after) && forall|m: int|
                0 <= m < payloads.len() && trimmed(#[trigger] payloads[m]).len() > 0 ==> is_seen(
                    after,
                    trimmed(payloads[m]),
                )
            &&& has_invoice(payloads) ==> after.len() > before.len() && is_invoice(after.last().1) && none_invoice(
                after.drop_last(),
            )
        }),
    decreases payloads.len(),
{
    let after = with_payloads(before, payloads, page, true);
    if payloads.len() > 0 {
        let text = trimmed(payloads[0]);
        let rest = payloads.drop_first();
        assert forall|m: int| 0 <= m < rest.len() implies #[trigger] rest[m] == payloads[m + 1] by {}
        lemma_invoice_not_empty(text);
        if has_invoice(rest) {
            let m = choose|m: int| 0 <= m < rest.len() && is_invoice(trimmed(#[trigger] rest[m]));
            assert(is_invoice(trimmed(payloads[m + 1])));
        }
        if has_invoice(payloads) && !is_invoice(text) {
            let m = choose|m: int| 0 <= m < payloads.len() && is_invoice(trimmed(#[trigger] payloads[m]));
            assert(rest[m - 1] == payloads[m]);
        }
        if text.len() == 0 || is_seen(before, text) {
            if is_seen(before, text) {
                let i = choose|i: int| 0 <= i < before.len() && (#[trigger] before[i]).1 == text;
                assert(!is_invoice(before[i].1));
            }
            law_payloads_added(before, rest, page);
            lemma_added_places(before, payloads, page, after);
            if is_seen(before, text) {
                let i = choose|i: int| 0 <= i < before.len() && (#[trigger] before[i]).1 == text;
                assert(after[i] == before[i]);
                assert(is_seen(after, text));
            }
            assert forall|m: int| !has_invoice(payloads) && 0 <= m < payloads.len() && trimmed(
                #[trigger] payloads[m],
            ).len() > 0 implies is_seen(after, trimmed(payloads[m])) by {
                if m > 0 {
                    assert(rest[m - 1] == payloads[m]);
                }
            }
        } else if is_invoice(text) {
            assert(is_invoice(trimmed(payloads[0])));
            assert(after.drop_last() =~= before);
            assert(after.last() == (page, text));
            assert(before.is_prefix_of(after));
        } else {
            let more = before.push((page, text));
            assert(none_invoice(more));
            law_payloads_added(more, rest, page);
            assert(before.is_prefix_of(more));
            assert(after.subrange(0, more.len() as int)[before.len() as int] == more[before.len() as int]);
            assert(after[before.len() as int] == (page, text));
            assert forall|i: int| before.len() <= i < after.len() implies (#[trigger] after[i]).0 == page
                && after[i].1.len() > 0 && exists|m: int|
                0 <= m < payloads.len() && after[i].1 == trimmed(#[trigger] payloads[m]) by {
                if i == before.len() {
                    assert(after[i].1 == trimmed(payloads[0]));
                } else {
                    let m = choose|m: int| 0 <= m < rest.len() && after[i].1 == trimmed(#[trigger] rest[m]);
                    assert(after[i].1 == trimmed(payloads[m + 1]));
                }
            }
            assert forall|m: int| !has_invoice(payloads) && 0 <= m < payloads.len() && trimmed(
                #[trigger] payloads[m],
            ).len() > 0 implies is_seen(after, trimmed(payloads[m])) by {
                if m > 0 {
                    assert(rest[m - 1] == payloads[m]);
                } else {
                    assert(after[before.len() as int].1 == text);
                }
            }
        }
    }
}

proof fn lemma_added_places(
    before: Seq<(usize, Seq<char>)>,
    payloads: Seq<Seq<char>>,
    page: usize,
    after: Seq<(usize, Seq<char>)>,
)
    requires
        payloads.len() > 0,
        forall|i: int|
            before.len() <= i < after.len() ==> (#[trigger] after[i]).0 == page && after[i].1.len() > 0 && exists|m: int|
                0 <= m < payloads.drop_first().len() && after[i].1 == trimmed(#[trigger] payloads.drop_first()[m]),
    ensures
        forall|i: int|
            before.len() <= i < after.len() ==> (#[trigger] after[i]).0 == page && after[i].1.len() > 0 && exists|m: int|
                0 <= m < payloads.len() && after[i].1 == trimmed(#[trigger] payloads[m]),
{
    let rest = payloads.drop_first();
    assert forall|i: int| before.len() <= i < after.len() implies (#[trigger] after[i]).0 == page && after[i].1.len() > 0
        && exists|m: int| 0 <= m < payloads.len() && after[i].1 == trimmed(#[trigger] payloads[m]) by {
        let m = choose|m: int| 0 <= m < rest.len() && after[i].1 == trimmed(#[trigger] rest[m]);
        assert(after[i].1 == trimmed(payloads[m + 1]));
    }
}

/// The page that is reported for a picture: its own, or the first.
pub open spec fn shown_page(scan: (usize, Picture)) -> usize {
    if scan.0 == 0 {
        1
    } else {
        scan.0
    }
}

/// Whether these may be the payloads in the pictures that a search looks at: one after the
/// other, until one has the payload of an invoice, or all were looked at.
pub open spec fn is_looked_at(
    readers: Readers,
    scans: Seq<(usize, Picture)>,
    limit: nat,
    given: Seq<Seq<Seq<char>>>,
) -> bool {
    &&& given.len() <= scans.len() && given.len() <= limit
    &&& forall|k: int| 0 <= k < given.len() ==> dynamic_outcome(readers, scans[k].1, #[trigger] given[k])
    &&& forall|k: int| 0 <= k < given.len() - 1 ==> !has_invoice(#[trigger] given[k])
    &&& given.len() < scans.len() && given.len() < limit ==> given.len() > 0 && has_invoice(given.last())
}

/// Every payload that is not empty is among the candidates, unless it stands beside that of an
/// invoice.
pub open spec fn all_seen(given: Seq<Seq<Seq<char>>>, candidates: Seq<(usize, Seq<char>)>) -> bool {
    forall|k: int, m: int|
        0 <= k < given.len() && 0 <= m < given[k].len() && !has_invoice(given[k]) && trimmed(
            #[trigger] given[k][m],
        ).len() > 0 ==> is_seen(candidates, trimmed(given[k][m]))
}

/// An invoice that was found is the last candidate, and the only one, with the page of its
/// picture; and where none was found, none is a candidate.
pub open spec fn ends_with_found(
    scans: Seq<(usize, Picture)>,
    given: Seq<Seq<Seq<char>>>,
    candidates: Seq<(usize, Seq<char>)>,
) -> bool {
    if given.len() > 0 && has_invoice(given.last()) {
        &&& candidates.len() > 0
        &&& candidates.last().0 == shown_page(scans[given.len() - 1])
        &&& is_invoice(candidates.last().1)
        &&& none_invoice(candidates.drop_last())
        &&& exists|m: int| 0 <= m < given.last().len() && candidates.last().1 == trimmed(#[trigger] given.last()[m])
    } else {
        none_invoice(candidates)
    }
}

/// Every candidate from one on is a payload of a picture, with its page, and not empty.
pub open spec fn all_given(
    scans: Seq<(usize, Picture)>,
    given: Seq<Seq<Seq<char>>>,
    start: int,
    candidates: Seq<(usize, Seq<char>)>,
) -> bool {
    forall|c: int|
        start <= c < candidates.len() ==> (#[trigger] candidates[c]).1.len() > 0 && exists|k: int, m: int|
            0 <= k < given.len() && 0 <= m < given[k].len() && candidates[c].0 == shown_page(scans[k])
                && candidates[c].1 == trimmed(#[trigger] given[k][m])
}

/// How the pictures of a file are searched, over the payloads of each of them.
pub proof fn law_scan_trace(
    readers: Readers,
    scans: Seq<(usize, Picture)>,
    limit: nat,
    before: Seq<(usize, Seq<char>)>,
    candidates: Seq<(usize, Seq<char>)>,
) -> (given: Seq<Seq<Seq<char>>>)
    requires
        scan_outcome(readers, scans, limit, before, Some(candidates)),
        none_invoice(before),
    ensures
        is_looked_at(readers, scans, limit, given),
        before.is_prefix_of(candidates),
        all_seen(given, candidates),
        ends_with_found(scans, given, candidates),
        all_given(scans, given, before.len() as int, candidates),
    decreases scans.len(),
{
    if scans.len() == 0 || limit == 0 {
        Seq::empty()
    } else {
        let page = if scans[0].0 < 1 { 1 } else { scans[0].0 };
        assert(page == shown_page(scans[0]));
        let payloads = choose|payloads: Seq<Seq<char>>|
            {
                let after = with_payloads(before, payloads, page, true);
                &&& #[trigger] dynamic_outcome(readers, scans[0].1, payloads)
                &&& if after.len() > 0 && is_invoice(after.last().1) {
                    candidates == after
                } else {
                    scan_outcome(readers, scans.drop_first(), (limit - 1) as nat, after, Some(candidates))
                }
            };
        let after = with_payloads(before, payloads, page, true);
        law_payloads_added(before, payloads, page);
        if has_invoice(payloads) {
            lemma_trace_end(scans, before, after, payloads);
            seq![payloads]
        } else {
            if after.len() > 0 {
                assert(!is_invoice(after[after.len() - 1].1));
            }
            let rest = law_scan_trace(readers, scans.drop_first(), (limit - 1) as nat, after, candidates);
            lemma_trace_seen(before, after, candidates, payloads, page, rest);
            lemma_trace_looked(readers, scans, limit, payloads, rest);
            lemma_trace_found(scans, candidates, payloads, rest);
            lemma_trace_given(scans, before, after, candidates, payloads, rest);
            seq![payloads] + rest
        }
    }
}

proof fn lemma_trace_end(
    scans: Seq<(usize, Picture)>,
    before: Seq<(usize, Seq<char>)>,
    after: Seq<(usize, Seq<char>)>,
    payloads: Seq<Seq<char>>,
)
    requires
        scans.len() > 0,
        after == with_payloads(before, payloads, shown_page(scans[0]), true),
        none_invoice(before),
        has_invoice(payloads),
    ensures
        all_seen(seq![payloads], after),
        ends_with_found(scans, seq![payloads], after),
        all_given(scans, seq![payloads], before.len() as int, after),
{
    let given = seq![payloads];
    law_payloads_added(before, payloads, shown_page(scans[0]));
    assert(given.last() == payloads);
    let n = after.len() - 1;
    assert(after[n] == after.last());
    let m = choose|m: int| 0 <= m < payloads.len() && after[n].1 == trimmed(#[trigger] payloads[m]);
    assert(after.last().1 == trimmed(given.last()[m]));
    assert forall|c: int| before.len() <= c < after.len() implies (#[trigger] after[c]).1.len() > 0 && exists|
        k: int,
        m: int,
    |
        0 <= k < given.len() && 0 <= m < given[k].len() && after[c].0 == shown_page(scans[k]) && after[c].1 == trimmed(
            #[trigger] given[k][m],
        ) by {
        let m = choose|m: int| 0 <= m < payloads.len() && after[c].1 == trimmed(#[trigger] payloads[m]);
        assert(after[c].1 == trimmed(given[0][m]));
    }
}

proof fn lemma_trace_looked(
    readers: Readers,
    scans: Seq<(usize, Picture)>,
    limit: nat,
    payloads: Seq<Seq<char>>,
    rest: Seq<Seq<Seq<char>>>,
)
    requires
        scans.len() > 0,
        limit > 0,
        !has_invoice(payloads),
        dynamic_outcome(readers, scans[0].1, payloads),
        is_looked_at(readers, scans.drop_first(), (limit - 1) as nat, rest),
    ensures
        is_looked_at(readers, scans, limit, seq![payloads] + rest),
{
    let given = seq![payloads] + rest;
    let tail = scans.drop_first();
    assert forall|k: int| 0 <= k < given.len() implies dynamic_outcome(readers, scans[k].1, #[trigger] given[k]) by {
        if k > 0 {
            assert(given[k] == rest[k - 1]);
            assert(scans[k] == tail[k - 1]);
        }
    }
    assert forall|k: int| 0 <= k < given.len() - 1 implies !has_invoice(#[trigger] given[k]) by {
        if k > 0 {
            assert(given[k] == rest[k - 1]);
        }
    }
    assert(rest.len() > 0 ==> given.last() == rest.last());
}

proof fn lemma_trace_seen(
    before: Seq<(usize, Seq<char>)>,
    after: Seq<(usize, Seq<char>)>,
    candidates: Seq<(usize, Seq<char>)>,
    payloads: Seq<Seq<char>>,
    page: usize,
    rest: Seq<Seq<Seq<char>>>,
)
    requires
        after == with_payloads(before, payloads, page, true),
        none_invoice(before),
        !has_invoice(payloads),
        after.is_prefix_of(candidates),
        all_seen(rest, candidates),
    ensures
        before.is_prefix_of(candidates),
        all_seen(seq![payloads] + rest, candidates),
{
    let given = seq![payloads] + rest;
    law_payloads_added(before, payloads, page);
    assert forall|k: int, m: int|
        0 <= k < given.len() && 0 <= m < given[k].len() && !has_invoice(given[k]) && trimmed(
            #[trigger] given[k][m],
        ).len() > 0 implies is_seen(candidates, trimmed(given[k][m])) by {
        if k > 0 {
            assert(given[k] == rest[k - 1]);
            assert(trimmed(rest[k - 1][m]).len() > 0);
        } else {
            let text = trimmed(payloads[m]);
            assert(is_seen(after, text));
            let i = choose|i: int| 0 <= i < after.len() && (#[trigger] after[i]).1 == text;
            assert(candidates.subrange(0, after.len() as int)[i] == candidates[i]);
            assert(candidates[i] == after[i]);
        }
    }
}

proof fn lemma_trace_found(
    scans: Seq<(usize, Picture)>,
    candidates: Seq<(usize, Seq<char>)>,
    payloads: Seq<Seq<char>>,
    rest: Seq<Seq<Seq<char>>>,
)
    requires
        scans.len() > 0,
        rest.len() < scans.len(),
        !has_invoice(payloads),
        ends_with_found(scans.drop_first(), rest, candidates),
    ensures
        ends_with_found(scans, seq![payloads] + rest, candidates),
{
    let given = seq![payloads] + rest;
    let tail = scans.drop_first();
    if rest.len() > 0 {
        assert(given.last() == rest.last());
        assert(scans[given.len() - 1] == tail[rest.len() - 1]);
    } else {
        assert(given.last() == payloads);
    }
}

proof fn lemma_trace_given(
    scans: Seq<(usize, Picture)>,
    before: Seq<(usize, Seq<char>)>,
    after: Seq<(usize, Seq<char>)>,
    candidates: Seq<(usize, Seq<char>)>,
    payloads: Seq<Seq<char>>,
    rest: Seq<Seq<Seq<char>>>,
)
    requires
        scans.len() > 0,
        rest.len() < scans.len(),
        after == with_payloads(before, payloads, shown_page(scans[0]), true),
        none_invoice(before),
        after.is_prefix_of(candidates),
        all_given(scans.drop_first(), rest, after.len() as int, candidates),
    ensures
        all_given(scans, seq![payloads] + rest, before.len() as int, candidates),
{
    let given = seq![payloads] + rest;
    let tail = scans.drop_first();
    law_payloads_added(before, payloads, shown_page(scans[0]));
    assert forall|c: int| before.len() <= c < candidates.len() implies (#[trigger] candidates[c]).1.len() > 0
        && exists|k: int, m: int|
        0 <= k < given.len() && 0 <= m < given[k].len() && candidates[c].0 == shown_page(scans[k]) && candidates[c].1
            == trimmed(#[trigger] given[k][m]) by {
        if c < after.len() {
            assert(candidates.subrange(0, after.len() as int)[c] == candidates[c]);
            assert(candidates[c] == after[c]);
            let m = choose|m: int| 0 <= m < payloads.len() && after[c].1 == trimmed(#[trigger] payloads[m]);
            assert(candidates[c].1 == trimmed(given[0][m]));
        } else {
            let (k, m): (int, int) = choose|k: int, m: int|
                0 <= k < rest.len() && 0 <= m < rest[k].len() && candidates[c].0 == shown_page(tail[k])
                    && candidates[c].1 == trimmed(#[trigger] rest[k][m]);
            assert(given[k + 1] == rest[k]);
            assert(candidates[c].1 == trimmed(given[k + 1][m]));
            assert(scans[k + 1] == tail[k]);
        }
    }
}

/// Where the first pictures have no invoice, and the next one has, these are what is looked at.
proof fn lemma_looked_up_to(readers: Readers, scans: Seq<(usize, Picture)>, given: Seq<Seq<Seq<char>>>, i: int)
    requires
        is_looked_at(readers, scans, 36, given),
        0 <= i < scans.len(),
        i < 36,
        forall|k: int, payloads: Seq<Seq<char>>|
            0 <= k < i && #[trigger] dynamic_outcome(readers, scans[k].1, payloads) ==> !has_invoice(payloads),
        forall|payloads: Seq<Seq<char>>| #[trigger]
            dynamic_outcome(readers, scans[i].1, payloads) ==> has_invoice(payloads),
    ensures
        given.len() == i + 1,
        dynamic_outcome(readers, scans[i].1, given[i]),
        has_invoice(given.last()),
        given.last() == given[i],
{
    let n = given.len() as int;
    if n > i + 1 {
        assert(dynamic_outcome(readers, scans[i].1, given[i]));
        assert(!has_invoice(given[i]));
    }
    if n <= i {
        assert(given.last() == given[n - 1]);
        assert(dynamic_outcome(readers, scans[n - 1].1, given[n - 1]));
    }
    assert(dynamic_outcome(readers, scans[i].1, given[i]));
}

/// The search of the pictures of a file goes on until an invoice is found, and that is
/// reported: where none of the first 36 pictures is without pixels, none before picture `i` has
/// the payload of an invoice, and picture `i` has one, the file has one row, for such a payload
/// of that picture, with its page.
#[verifier::spinoff_prover]
#[verifier::rlimit(50)]
pub proof fn law_invoice_found(
    readers: Readers,
    file: Seq<char>,
    scans: Seq<(usize, Picture)>,
    rows: Option<Seq<Row>>,
    i: int,
)
    requires
        picture_rows(readers, file, scans, rows),
        forall|k: int| 0 <= k < scans.len() && k < 36 ==> picture_size((#[trigger] scans[k]).1).0 > 0 && picture_size(
            scans[k].1,
        ).1 > 0,
        0 <= i < scans.len(),
        i < 36,
        forall|k: int, payloads: Seq<Seq<char>>|
            0 <= k < i && #[trigger] dynamic_outcome(readers, scans[k].1, payloads) ==> !has_invoice(payloads),
        forall|payloads: Seq<Seq<char>>| #[trigger]
            dynamic_outcome(readers, scans[i].1, payloads) ==> has_invoice(payloads),
    ensures
        rows matches Some(found) && found.len() == 1 && found[0].file == file && is_invoice(found[0].content)
            && found[0].page == shown_page(scans[i]) && found[0].fields == fields_of(found[0].content)
            && exists|payloads: Seq<Seq<char>>, m: int|
            #[trigger] dynamic_outcome(readers, scans[i].1, payloads) && 0 <= m < payloads.len() && found[0].content
                == trimmed(#[trigger] payloads[m]),
{
    let outcome = choose|outcome: Option<Seq<(usize, Seq<char>)>>| #[trigger]
        scan_outcome(readers, scans, 36, Seq::empty(), outcome) && rows == match outcome {
            Some(found) => Some(candidate_rows(file, found)),
            None => None,
        };
    law_scan_succeeds(readers, scans, 36, Seq::empty(), outcome);
    let candidates = outcome->0;
    let given = law_scan_trace(readers, scans, 36, Seq::empty(), candidates);
    lemma_looked_up_to(readers, scans, given, i);
    let payloads = given[i];
    assert(given.last() == payloads);
    assert(dynamic_outcome(readers, scans[i].1, payloads));
    let at = candidates.len() - 1;
    assert(candidates[at] == candidates.last());
    assert forall|j: int| 0 <= j < at implies !is_invoice((#[trigger] candidates[j]).1) by {
        assert(candidates.drop_last()[j] == candidates[j]);
    }
    law_reported(file, candidates, at);
    let m = choose|m: int| 0 <= m < given.last().len() && candidates.last().1 == trimmed(#[trigger] given.last()[m]);
    assert(candidates.last().1 == trimmed(payloads[m]));
}

/// Where no picture has the payload of an invoice, but one of the first 36 has a payload that is
/// more than white space, the file has one row all the same, for a payload of one of them, with
/// its page.
#[verifier::spinoff_prover]
#[verifier::rlimit(50)]
pub proof fn law_payload_shown(
    readers: Readers,
    file: Seq<char>,
    scans: Seq<(usize, Picture)>,
    rows: Option<Seq<Row>>,
    i: int,
)
    requires
        picture_rows(readers, file, scans, rows),
        forall|k: int| 0 <= k < scans.len() && k < 36 ==> picture_size((#[trigger] scans[k]).1).0 > 0 && picture_size(
            scans[k].1,
        ).1 > 0,
        0 <= i < scans.len(),
        i < 36,
        forall|k: int, payloads: Seq<Seq<char>>|
            0 <= k < scans.len() && #[trigger] dynamic_outcome(readers, scans[k].1, payloads) ==> !has_invoice(
                payloads,
            ),
        forall|payloads: Seq<Seq<char>>| #[trigger]
            dynamic_outcome(readers, scans[i].1, payloads) ==> exists|m: int|
                0 <= m < payloads.len() && trimmed(#[trigger] payloads[m]).len() > 0,
    ensures
        rows matches Some(found) && found.len() == 1 && found[0].file == file && exists|
            k: int,
            payloads: Seq<Seq<char>>,
            m: int,
        |
            0 <= k < scans.len() && k < 36 && found[0].page == shown_page(scans[k]) && #[trigger] dynamic_outcome(
                readers,
                scans[k].1,
                payloads,
            ) && 0 <= m < payloads.len() && found[0].content == trimmed(#[trigger] payloads[m]),
{
    let outcome = choose|outcome: Option<Seq<(usize, Seq<char>)>>| #[trigger]
        scan_outcome(readers, scans, 36, Seq::empty(), outcome) && rows == match outcome {
            Some(found) => Some(candidate_rows(file, found)),
            None => None,
        };
    law_scan_succeeds(readers, scans, 36, Seq::empty(), outcome);
    let candidates = outcome->0;
    let given = law_scan_trace(readers, scans, 36, Seq::empty(), candidates);
    let n = given.len() as int;
    assert(n > i) by {
        if n <= i {
            assert(given.last() == given[n - 1]);
            assert(dynamic_outcome(readers, scans[n - 1].1, given[n - 1]));
        }
    }
    assert(dynamic_outcome(readers, scans[i].1, given[i]));
    let m = choose|m: int| 0 <= m < given[i].len() && trimmed(#[trigger] given[i][m]).len() > 0;
    assert(!has_invoice(given[i]));
    assert(is_seen(candidates, trimmed(given[i][m])));
    let at = lemma_reported_place(candidates);
    law_reported(file, candidates, at);
    let (k, q): (int, int) = choose|k: int, q: int|
        0 <= k < given.len() && 0 <= q < given[k].len() && candidates[at].0 == shown_page(scans[k]) && candidates[at].1
            == trimmed(#[trigger] given[k][q]);
    let payloads = given[k];
    assert(dynamic_outcome(readers, scans[k].1, payloads));
    assert(candidates[at].1 == trimmed(payloads[q]));
}

/// Only the first 36 pictures of a file are searched.
pub proof fn law_only_first_searched(
    readers: Readers,
    file: Seq<char>,
    scans: Seq<(usize, Picture)>,
    more: Seq<(usize, Picture)>,
    rows: Option<Seq<Row>>,
)
    requires
        scans.len() == 36,
    ensures
        picture_rows(readers, file, scans + more, rows) <==> picture_rows(readers, file, scans, rows),
{
    assert forall|outcome: Option<Seq<(usize, Seq<char>)>>| true implies #[trigger] scan_outcome(
        readers,
        scans + more,
        36,
        Seq::empty(),
        outcome,
    ) == scan_outcome(readers, scans, 36, Seq::empty(), outcome) by {
        lemma_only_first(readers, scans, more, 36, Seq::empty(), outcome);
    }
    if picture_rows(readers, file, scans, rows) {
        let outcome = choose|outcome: Option<Seq<(usize, Seq<char>)>>| #[trigger]
            scan_outcome(readers, scans, 36, Seq::empty(), outcome) && rows == match outcome {
                Some(found) => Some(candidate_rows(file, found)),
                None => None,
            };
        assert(scan_outcome(readers, scans + more, 36, Seq::empty(), outcome));
    }
}

proof fn lemma_only_first(
    readers: Readers,
    scans: Seq<(usize, Picture)>,
    more: Seq<(usize, Picture)>,
    limit: nat,
    before: Seq<(usize, Seq<char>)>,
    outcome: Option<Seq<(usize, Seq<char>)>>,
)
    requires
        scans.len() == limit,
    ensures
        scan_outcome(readers, scans + more, limit, before, outcome) == scan_outcome(
            readers,
            scans,
            limit,
            before,
            outcome,
        ),
    decreases limit,
{
    if limit > 0 {
        let all = scans + more;
        assert(all[0] == scans[0]);
        assert(all.drop_first() =~= scans.drop_first() + more);
        let page = if scans[0].0 < 1 { 1 } else { scans[0].0 };
        assert forall|payloads: Seq<Seq<char>>| true implies scan_outcome(
            readers,
            all.drop_first(),
            (limit - 1) as nat,
            #[trigger] with_payloads(before, payloads, page, true),
            outcome,
        ) == scan_outcome(
            readers,
            scans.drop_first(),
            (limit - 1) as nat,
            with_payloads(before, payloads, page, true),
            outcome,
        ) by {
            lemma_only_first(
                readers,
                scans.drop_first(),
                more,
                (limit - 1) as nat,
                with_payloads(before, payloads, page, true),
                outcome,
            );
        }
    }
}

/// Adding all payloads on a page keeps what was found before, and adds every payload that is more
/// than white space and not there yet, with the page; and nothing else.
pub proof fn law_all_payloads_added(before: Seq<(usize, Seq<char>)>, payloads: Seq<Seq<char>>, page: usize)
    ensures
        ({
            let after = with_payloads(before, payloads, page, false);
            &&& before.is_prefix_of(after)
            &&& forall|m: int|
                0 <= m < payloads.len() && trimmed(#[trigger] payloads[m]).len() > 0 ==> is_seen(
                    after,
                    trimmed(payloads[m]),
                )
            &&& forall|i: int|
                before.len() <= i < after.len() ==> (#[trigger] after[i]).0 == page && after[i].1.len() > 0 && exists|m: int|
                    0 <= m < payloads.len() && after[i].1 == trimmed(#[trigger] payloads[m])
        }),
    decreases payloads.len(),
{
    let after = with_payloads(before, payloads, page, false);
    if payloads.len() > 0 {
        let text = trimmed(payloads[0]);
        let rest = payloads.drop_first();
        let more = if text.len() == 0 || is_seen(before, text) { before } else { before.push((page, text)) };
        law_all_payloads_added(more, rest, page);
        assert(before.is_prefix_of(more));
        assert forall|i: int| 0 <= i < more.len() implies after[i] == more[i] by {
            assert(after.subrange(0, more.len() as int)[i] == after[i]);
        }
        if text.len() > 0 {
            assert(is_seen(more, text)) by {
                if more.len() > before.len() {
                    assert(more[before.len() as int].1 == text);
                }
            }
            let i = choose|i: int| 0 <= i < more.len() && (#[trigger] more[i]).1 == text;
            assert(after[i].1 == text);
        }
        assert forall|m: int| 0 <= m < payloads.len() && trimmed(#[trigger] payloads[m]).len() > 0 implies is_seen(
            after,
            trimmed(payloads[m]),
        ) by {
            if m > 0 {
                assert(rest[m - 1] == payloads[m]);
            }
        }
        assert forall|i: int| before.len() <= i < after.len() implies (#[trigger] after[i]).0 == page
            && after[i].1.len() > 0 && exists|m: int|
            0 <= m < payloads.len() && after[i].1 == trimmed(#[trigger] payloads[m]) by {
            if i < more.len() {
                assert(after[i].1 == trimmed(payloads[0]));
            } else {
                let m = choose|m: int| 0 <= m < rest.len() && after[i].1 == trimmed(#[trigger] rest[m]);
                assert(after[i].1 == trimmed(payloads[m + 1]));
            }
        }
    }
}

/// A rendered page is searched as any picture is and, only where that finds nothing, as a rendered
/// page.
pub proof fn law_rendered_page(readers: Readers, picture: Picture, payloads: Seq<Seq<char>>)
    requires
        page_outcome(readers, picture, payloads),
    ensures
        (payloads.len() > 0 && dynamic_outcome(readers, picture, payloads)) || (rendered_outcome(
            readers,
            picture,
            payloads,
        ) && dynamic_outcome(readers, picture, Seq::empty())),
{
    let first = choose|first: Seq<Seq<char>>|
        {
            &&& #[trigger] dynamic_outcome(readers, picture, first)
            &&& if first.len() > 0 {
                payloads == first
            } else {
                rendered_outcome(readers, picture, payloads)
            }
        };
    if first.len() == 0 {
        assert(first =~= Seq::<Seq<char>>::empty());
    }
}

/// Pages are rendered at 200, 300 and 400 dots per inch, in this order.
pub proof fn law_resolutions()
    ensures
        resolutions().len() == 3,
        resolutions()[0] == 200,
        resolutions()[1] == 300,
        resolutions()[2] == 400,
{
}

/// What a file is, decides where its pictures come from: an image file is one picture, on the
/// first page; a document has those of its pages; a word file those of its archive. A file that
/// cannot be read has the error of its kind.
pub proof fn law_file_pictures(
    kind: FileKind,
    format: ImageFormat,
    bytes: Seq<u8>,
    pictures: Result<Seq<(usize, Picture)>, ScanError>,
)
    ensures
        kind == FileKind::Image(format) && file_pictures(kind, Some(bytes), pictures) && encoded_size(
            Encoded { bytes, format: Some(format) },
        ) is Some ==> (pictures matches Ok(scans) && scans.len() == 1 && scans[0].0 == 1 && scans[0].1 == Picture::File(
            Encoded { bytes, format: Some(format) },
        )),
        kind == FileKind::Image(format) && file_pictures(kind, Some(bytes), pictures) && encoded_size(
            Encoded { bytes, format: Some(format) },
        ) is None ==> pictures == Err::<Seq<(usize, Picture)>, ScanError>(ScanError::ImageFile),
        kind == FileKind::Image(format) && file_pictures(kind, None, pictures) ==> pictures == Err::<
            Seq<(usize, Picture)>,
            ScanError,
        >(ScanError::ImageFile),
        kind is Pdf && file_pictures(kind, None, pictures) ==> pictures == Err::<Seq<(usize, Picture)>, ScanError>(
            ScanError::PdfFile,
        ),
        kind is Pdf && file_pictures(kind, Some(bytes), pictures) ==> exists|document: Option<PdfDocument>|
            #[trigger] loaded(bytes, document) && match document {
                Some(read) => pictures == document_pictures(read),
                None => pictures == Err::<Seq<(usize, Picture)>, ScanError>(ScanError::PdfFile),
            },
        (kind is Docx || kind is Doc || kind is Other) && file_pictures(kind, Some(bytes), pictures) ==> pictures
            == word_pictures(kind, Some(bytes)),
{
}

/// The steps of a scan while time is left: text first, where the file may have any; then a search
/// of the images, awaited for up to two seconds; then, for a document, its rendered pages, also
/// while the search goes on; and then the rest of the search.
pub proof fn law_steps(kind: FileKind, timeout_secs: u64, elapsed_millis: u64, stage: Stage, action: Action, rows: Vec<QrRow>)
    requires
        is_next(kind, timeout_secs, elapsed_millis, stage, action),
        elapsed_millis < timeout_secs * 1000,
        rows@.len() == 0,
    ensures
        stage is Begin && (kind is Pdf || kind is Docx || kind is Doc) ==> action is ReadText,
        stage is Begin && (kind is Image || kind is Other) ==> action is Search,
        stage == Stage::TextRead(WorkEvent::Ended(Ok(rows))) ==> action is Search,
        stage == Stage::FirstWait(WorkEvent::Waited) && kind is Pdf ==> action is RenderMeanwhile,
        stage == Stage::FirstWait(WorkEvent::Waited) && !(kind is Pdf) ==> action is Await,
        stage == Stage::FirstWait(WorkEvent::Ended(Ok(rows))) && kind is Pdf ==> action is RenderAfter,
        stage == Stage::LastWait(WorkEvent::Ended(Ok(rows))) && kind is Pdf ==> action is RenderAfter,
        stage == Stage::FirstWait(WorkEvent::Ended(Ok(rows))) && !(kind is Pdf) ==> action == Action::Finish(
            ScanOutcome::Completed(rows),
        ),
        stage == Stage::LastWait(WorkEvent::Ended(Ok(rows))) && !(kind is Pdf) ==> action == Action::Finish(
            ScanOutcome::Completed(rows),
        ),
        stage == (Stage::RenderedMeanwhile { rendered: WorkEvent::Ended(Ok(rows)), search: WorkEvent::Waited })
            ==> action is Await,
        stage == Stage::RenderedAfter(WorkEvent::Ended(Ok(rows))) ==> action == Action::Finish(
            ScanOutcome::Completed(rows),
        ),
        action is Search && timeout_secs * 1000 - elapsed_millis >= 2000 ==> wait_of(action) == 2000,
        action is Search && timeout_secs * 1000 - elapsed_millis < 2000 ==> wait_of(action) == timeout_secs * 1000
            - elapsed_millis,
        !(action is Search) && !(action is Finish) && timeout_secs * 1000 - elapsed_millis < u64::MAX ==> wait_of(action)
            == timeout_secs * 1000 - elapsed_millis,
{
}

/// Work that failed ends the scan with its message, and work that was lost with a message of its
/// own, at whatever stage that happens.
pub proof fn law_failures(
    kind: FileKind,
    timeout_secs: u64,
    elapsed_millis: u64,
    stage: Stage,
    action: Action,
    event: WorkEvent,
    message: String,
)
    requires
        is_next(kind, timeout_secs, elapsed_millis, stage, action),
        stage == Stage::TextRead(event) || stage == Stage::FirstWait(event) || stage == Stage::LastWait(event) || stage
            == Stage::RenderedAfter(event) || (stage matches Stage::RenderedMeanwhile { rendered, search } && rendered
            == event),
    ensures
        event == WorkEvent::Ended(Err(message)) ==> action == Action::Finish(ScanOutcome::Failed(message)),
        event is Lost ==> (action matches Action::Finish(ScanOutcome::Failed(text)) && text@ == "扫描线程异常: 通道已断开"@),
{
}

/// A file is reported with the rows found in it, as they are and in order, or else with one row
/// that names it and says why there are none: nothing found, out of time, or a message.
pub proof fn law_outcome_rows(rows: Seq<Row>, file: Seq<char>, found: Vec<QrRow>, message: String)
    ensures
        found@.len() > 0 ==> with_outcome(rows, file, ScanOutcome::Completed(found)).len() == rows.len() + found@.len()
            && forall|i: int|
            0 <= i < found@.len() ==> #[trigger] with_outcome(rows, file, ScanOutcome::Completed(found))[rows.len() + i]
                == found@[i]@,
        found@.len() == 0 ==> with_outcome(rows, file, ScanOutcome::Completed(found)) == rows.push(
            failed_row(file, "识别失败"@),
        ),
        with_outcome(rows, file, ScanOutcome::TimedOut) == rows.push(failed_row(file, "识别失败: 超时"@)),
        with_outcome(rows, file, ScanOutcome::Failed(message)) == rows.push(failed_row(file, error_marker(message@))),
        forall|i: int|
            0 <= i < rows.len() ==> #[trigger] with_outcome(rows, file, ScanOutcome::TimedOut)[i] == rows[i],
{
    reveal_strlit("超时");
    reveal_strlit("识别失败: ");
    reveal_strlit("识别失败: 超时");
    let text = "超时"@;
    law_marker_text(text);
    law_whitespace(text[0]);
    law_whitespace(text[1]);
    assert(!text.contains('\n') && !text.contains('\r'));
    assert(text.take(2) =~= text);
    assert("识别失败: 超时"@ =~= "识别失败: "@ + text);
}

/// What is shown of a file names its place among the files, how many there are, and the file, and
/// then says what came of it: how many rows there are, that its time is over, or a message.
pub proof fn law_progress(
    index: nat,
    total: nat,
    file: Seq<char>,
    found: Vec<QrRow>,
    message: String,
    timeout_secs: u64,
)
    ensures
        ({
            let head = "["@ + decimal(index) + "/"@ + decimal(total) + "] "@ + file + " -> "@;
            let n = if found@.len() == 0 { 1 } else { found@.len() };
            &&& progress(index, total, file, ScanOutcome::Completed(found), timeout_secs) == head + "本文件识别 "@
                + decimal(n) + " 条"@
            &&& progress(index, total, file, ScanOutcome::TimedOut, timeout_secs) == head + "超时跳过 (>"@ + decimal(
                timeout_secs as nat,
            ) + "s)"@
            &&& progress(index, total, file, ScanOutcome::Failed(message), timeout_secs) == head + "失败: "@ + message@
        }),
{
}

/// The image of a rendered page is a PNG file, and its page is the number in its name, or the
/// first.
pub proof fn law_rendered_file(file: RenderedFile, extension: String, front: Seq<char>, digits: Seq<char>, stem: String)
    ensures
        file.extension is None ==> !is_rendered(file),
        file.extension == Some(extension) ==> (is_rendered(file) <==> lowercase(extension@) == seq!['p', 'n', 'g']),
        file.stem is None ==> page_of(file) == 1,
        file.stem == Some(stem) && stem@ == front + seq!['-'] + digits && digits.len() > 0 && all_digits(digits)
            && place_value(digits) <= usize::MAX ==> page_of(file) == place_value(digits),
        file.stem == Some(stem) && !stem@.contains('-') ==> page_of(file) == 1,
{
    reveal_strlit("png");
    assert("png"@ =~= seq!['p', 'n', 'g']);
    if all_digits(digits) {
        assert(!digits.contains('-')) by {
            if digits.contains('-') {
                let i = choose|i: int| 0 <= i < digits.len() && digits[i] == '-';
                assert('0' <= digits[i]);
            }
        }
        law_render_page_no(front, digits);
    }
    if !stem@.contains('-') {
        law_render_page_no(front, stem@);
    }
}

/// No file is twice in the list of rendered pages.
pub proof fn law_pages_once(files: Seq<RenderedFile>, n: int)
    requires
        0 <= n <= files.len() <= usize::MAX,
    ensures
        forall|i: int, j: int|
            0 <= i < j < page_list(files, n).len() ==> (#[trigger] page_list(files, n)[i]).1 != (
            #[trigger] page_list(files, n)[j]).1,
    decreases n,
{
    if n > 0 {
        law_pages_once(files, n - 1);
        law_page_list(files, n - 1);
        let some = page_list(files, n - 1);
        if is_rendered(files[n - 1]) {
            let page = (page_of(files[n - 1]), (n - 1) as usize);
            assert forall|i: int| 0 <= i < some.len() implies (#[trigger] some[i]).1 != page.1 by {
                assert(some.contains(some[i]));
            }
            lemma_page_once(some, page);
        }
    }
}

proof fn lemma_page_once(pages: Seq<(usize, usize)>, page: (usize, usize))
    requires
        forall|i: int, j: int| 0 <= i < j < pages.len() ==> (#[trigger] pages[i]).1 != (#[trigger] pages[j]).1,
        forall|i: int| 0 <= i < pages.len() ==> (#[trigger] pages[i]).1 != page.1,
    ensures
        forall|i: int, j: int|
            0 <= i < j < with_page(pages, page).len() ==> (#[trigger] with_page(pages, page)[i]).1 != (
            #[trigger] with_page(pages, page)[j]).1,
        forall|i: int|
            0 <= i < with_page(pages, page).len() ==> with_page(pages, page)[i] == page || pages.contains(
                #[trigger] with_page(pages, page)[i],
            ),
    decreases pages.len(),
{
    let out = with_page(pages, page);
    if pages.len() == 0 || pages.last().0 <= page.0 {
        assert forall|i: int| 0 <= i < out.len() implies out[i] == page || pages.contains(#[trigger] out[i]) by {
            if i < pages.len() {
                assert(pages[i] == out[i]);
            }
        }
    } else {
        let head = pages.drop_last();
        assert forall|i: int, j: int| 0 <= i < j < head.len() implies (#[trigger] head[i]).1 != (#[trigger] head[j]).1 by {
            assert(pages[i].1 != pages[j].1);
        }
        assert forall|i: int| 0 <= i < head.len() implies (#[trigger] head[i]).1 != page.1 by {
            assert(pages[i].1 != page.1);
        }
        lemma_page_once(head, page);
        let inner = with_page(head, page);
        let n = pages.len() - 1;
        assert(pages[n] == pages.last());
        assert forall|i: int| 0 <= i < inner.len() implies (#[trigger] inner[i]).1 != pages.last().1 && (inner[i] == page
            || pages.contains(inner[i])) by {
            if inner[i] != page {
                let k = choose|k: int| 0 <= k < head.len() && head[k] == inner[i];
                assert(pages[k] == head[k]);
                assert(pages[k].1 != pages[n].1);
            }
        }
        assert forall|i: int, j: int| 0 <= i < j < out.len() implies (#[trigger] out[i]).1 != (#[trigger] out[j]).1 by {
            assert(out[i] == inner[i]);
            if j < inner.len() {
                assert(out[j] == inner[j]);
            }
        }
        assert forall|i: int| 0 <= i < out.len() implies out[i] == page || pages.contains(#[trigger] out[i]) by {
            if i < inner.len() {
                assert(out[i] == inner[i]);
            } else {
                assert(out[i] == pages[n]);
            }
        }
    }
}

/// A text is among the candidates just where one of them is that text.
pub proof fn law_is_seen(candidates: Seq<(usize, Seq<char>)>, page: usize, text: Seq<char>)
    ensures
        !is_seen(Seq::empty(), text),
        is_seen(candidates.push((page, text)), text),
        forall|other: Seq<char>|
            other != text ==> #[trigger] is_seen(candidates.push((page, text)), other) == is_seen(candidates, other),
{
    let more = candidates.push((page, text));
    assert(more[candidates.len() as int].1 == text);
    assert forall|other: Seq<char>| other != text implies #[trigger] is_seen(more, other) == is_seen(
        candidates,
        other,
    ) by {
        if is_seen(candidates, other) {
            let i = choose|i: int| 0 <= i < candidates.len() && (#[trigger] candidates[i]).1 == other;
            assert(more[i].1 == other);
        }
        if is_seen(more, other) {
            let i = choose|i: int| 0 <= i < more.len() && (#[trigger] more[i]).1 == other;
            assert(candidates[i].1 == other);
        }
    }
}

} // verus!
