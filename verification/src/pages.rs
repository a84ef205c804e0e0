//! The images of a document, page by page.

use vstd::prelude::*;
use crate::errors::ScanError;
use crate::extraction::{collect_images_from_object, collected, extract_images_from_resources, extracted, is_image_of,
    push_stream, with_stream};
use crate::pdf::{fetched, has_name, is_named, is_numbered, lookup, ObjectId, PdfDictionary, PdfDocument, PdfError,
    PdfObject, PdfPage};
use crate::picture::{all_wf, law_prioritized, law_prioritized_same, pictures_of, prioritize_images, prioritized, priority,
    DynamicImage, Picture};

verus! {

/// An image and the page that it is on.
pub struct ScanImage {
    pub page: usize,
    pub image: DynamicImage,
}

/// The pictures of some images and the pages that they are on.
pub open spec fn scans_of(images: Seq<ScanImage>) -> Seq<(usize, Picture)> {
    images.map_values(|scan: ScanImage| (scan.page, scan.image@))
}

/// Every image is well formed.
pub open spec fn all_scans_wf(images: Seq<ScanImage>) -> bool {
    forall|i: int| 0 <= i < images.len() ==> (#[trigger] images[i]).image.wf()
}

/// The first `n` of some pictures, or all of them.
pub open spec fn at_most(pictures: Seq<Picture>, n: int) -> Seq<Picture> {
    if pictures.len() <= n {
        pictures
    } else {
        pictures.take(n)
    }
}

/// Keeps the first `n` images.
fn keep_first(images: Vec<DynamicImage>, n: usize) -> (r: Vec<DynamicImage>)
    requires
        all_wf(images@),
    ensures
        pictures_of(r@) == at_most(pictures_of(images@), n as int),
        all_wf(r@),
{
    let mut out: Vec<DynamicImage> = images;
    out.truncate(n);
    proof {
        assert(pictures_of(out@) =~= at_most(pictures_of(images@), n as int));
        assert forall|i: int| 0 <= i < out@.len() implies (#[trigger] out@[i]).wf() by {
            assert(out@[i] == images@[i]);
        }
    }
    out
}

/// The resources that the object of a page holds itself.
pub open spec fn own_resources(document: PdfDocument, page: PdfPage) -> Option<PdfDictionary> {
    match fetched(document, page.id) {
        Some(PdfObject::Dictionary(dict)) => match lookup(dict, "Resources"@) {
            Some(PdfObject::Dictionary(resources)) => Some(resources),
            _ => None,
        },
        _ => None,
    }
}

/// The resources that the object of a page holds itself.
pub fn page_resources<'a>(document: &'a PdfDocument, page: &PdfPage) -> (r: Option<&'a PdfDictionary>)
    ensures
        r is Some <==> own_resources(*document, *page) is Some,
        r matches Some(resources) ==> own_resources(*document, *page) == Some(*resources),
{
    match document.get_object(page.id) {
        Ok(PdfObject::Dictionary(dict)) => match dict.get("Resources") {
            Some(PdfObject::Dictionary(resources)) => Some(resources),
            _ => None,
        },
        _ => None,
    }
}

/// The pictures in the resources of a page, at most 28.
pub open spec fn page_pictures(document: PdfDocument, page: PdfPage) -> Result<Seq<Picture>, PdfError> {
    match own_resources(document, page) {
        Some(resources) => {
            let found = extracted(document, resources, Seq::empty(), Seq::empty());
            match found.error {
                Some(e) => Err(e),
                None => Ok(at_most(found.pictures, 28)),
            }
        },
        None => Ok(Seq::empty()),
    }
}

/// What a search found, where the document is not broken.
pub open spec fn is_search(
    result: Result<Vec<DynamicImage>, PdfError>,
    wanted: Result<Seq<Picture>, PdfError>,
) -> bool {
    match result {
        Ok(images) => all_wf(images@) && wanted == Ok::<Seq<Picture>, PdfError>(pictures_of(images@)),
        Err(e) => wanted == Err::<Seq<Picture>, PdfError>(e),
    }
}

/// The images in the resources of a page.
pub fn extract_page_images(document: &PdfDocument, page: &PdfPage) -> (r: Result<Vec<DynamicImage>, PdfError>)
    ensures
        is_search(r, page_pictures(*document, *page)),
{
    let mut out: Vec<DynamicImage> = Vec::new();
    assert(pictures_of(out@) =~= Seq::empty());
    match page_resources(document, page) {
        Some(resources) => {
            let mut visited: Vec<ObjectId> = Vec::new();
            assert(visited@ =~= Seq::empty());
            match extract_images_from_resources(document, resources, &mut visited, &mut out) {
                Ok(()) => Ok(keep_first(out, 28)),
                Err(e) => Err(e),
            }
        },
        None => Ok(out),
    }
}

/// The pictures in the annotations of a page.
pub open spec fn annotation_pictures(document: PdfDocument, page: PdfPage) -> Result<Seq<Picture>, PdfError> {
    match fetched(document, page.id) {
        Some(PdfObject::Dictionary(dict)) => match lookup(dict, "Annots"@) {
            Some(annotations) => {
                let found = collected(document, annotations, Seq::empty(), Seq::empty());
                match found.error {
                    Some(e) => Err(e),
                    None => Ok(found.pictures),
                }
            },
            None => Ok(Seq::empty()),
        },
        Some(_) => Ok(Seq::empty()),
        None => Err(PdfError::Unresolved),
    }
}

/// The images in the annotations of a page.
pub fn extract_annotation_images(
    document: &PdfDocument,
    page: &PdfPage,
) -> (r: Result<Vec<DynamicImage>, PdfError>)
    ensures
        is_search(r, annotation_pictures(*document, *page)),
{
    let mut out: Vec<DynamicImage> = Vec::new();
    assert(pictures_of(out@) =~= Seq::empty());
    match document.get_object(page.id) {
        Ok(PdfObject::Dictionary(dict)) => match dict.get("Annots") {
            Some(annotations) => {
                let mut visited: Vec<ObjectId> = Vec::new();
                assert(visited@ =~= Seq::empty());
                match collect_images_from_object(document, annotations, &mut visited, &mut out) {
                    Ok(()) => Ok(out),
                    Err(e) => Err(e),
                }
            },
            None => Ok(out),
        },
        Ok(_) => Ok(out),
        Err(e) => Err(e),
    }
}

/// The pictures of all image streams among some objects, until 96 were found.
pub open spec fn loose_pictures(
    document: PdfDocument,
    objects: Seq<(ObjectId, PdfObject)>,
    out: Seq<Picture>,
) -> Seq<Picture>
    decreases objects.len(),
{
    if objects.len() == 0 || out.len() >= 96 {
        out
    } else {
        match objects[0].1 {
            PdfObject::Stream(stream) if has_name(stream.dict, "Subtype"@, "Image"@) => loose_pictures(
                document,
                objects.drop_first(),
                with_stream(document, stream, out),
            ),
            _ => loose_pictures(document, objects.drop_first(), out),
        }
    }
}

/// The images of all image streams of a document.
pub fn extract_document_images(document: &PdfDocument) -> (r: Vec<DynamicImage>)
    ensures
        pictures_of(r@) == loose_pictures(*document, document.objects@, Seq::empty()),
        all_wf(r@),
{
    let mut out: Vec<DynamicImage> = Vec::new();
    let ghost all = document.objects@;
    let ghost wanted = loose_pictures(*document, all, Seq::empty());
    assert(pictures_of(out@) =~= Seq::empty());
    assert(all.subrange(0, all.len() as int) =~= all);
    for i in 0..document.objects.len()
        invariant
            all == document.objects@,
            all_wf(out@),
            wanted == loose_pictures(*document, all, Seq::empty()),
            wanted == loose_pictures(*document, all.subrange(i as int, all.len() as int), pictures_of(out@)),
    {
        let ghost rest = all.subrange(i as int, all.len() as int);
        assert(rest.drop_first() =~= all.subrange(i + 1, all.len() as int));
        if out.len() >= 96 {
            return out;
        }
        if let PdfObject::Stream(stream) = &document.objects[i].1 {
            if is_named(&stream.dict, "Subtype", "Image") {
                push_stream(document, stream, &mut out);
            }
        }
    }
    out
}

/// The pictures of a page that are searched: those of its resources and its annotations, the
/// 14 most promising of them.
pub open spec fn searched_pictures(document: PdfDocument, page: PdfPage) -> Result<Seq<Picture>, ScanError> {
    match page_pictures(document, page) {
        Err(_) => Err(ScanError::PageImages { page: page.number as usize }),
        Ok(own) => match annotation_pictures(document, page) {
            Err(_) => Err(ScanError::AnnotationImages { page: page.number as usize }),
            Ok(annotations) => Ok(at_most(prioritized(own + annotations), 14)),
        },
    }
}

/// The images of a page that are searched.
fn collect_page(document: &PdfDocument, page: &PdfPage) -> (r: Result<Vec<DynamicImage>, ScanError>)
    ensures
        r matches Ok(images) ==> all_wf(images@) && searched_pictures(*document, *page) == Ok::<
            Seq<Picture>,
            ScanError,
        >(pictures_of(images@)),
        r matches Err(e) ==> searched_pictures(*document, *page) == Err::<Seq<Picture>, ScanError>(e),
{
    let mut own: Vec<DynamicImage> = match extract_page_images(document, page) {
        Ok(images) => images,
        Err(_) => {
            return Err(ScanError::PageImages { page: page.number as usize });
        },
    };
    let mut annotations: Vec<DynamicImage> = match extract_annotation_images(document, page) {
        Ok(images) => images,
        Err(_) => {
            return Err(ScanError::AnnotationImages { page: page.number as usize });
        },
    };
    let ghost first = own@;
    let ghost second = annotations@;
    own.append(&mut annotations);
    proof {
        assert(own@ =~= first + second);
        assert(pictures_of(own@) =~= pictures_of(first) + pictures_of(second));
        assert forall|i: int| 0 <= i < own@.len() implies (#[trigger] own@[i]).wf() by {
            if i < first.len() {
                assert(own@[i] == first[i]);
            } else {
                assert(own@[i] == second[i - first.len()]);
            }
        }
    }
    Ok(keep_first(prioritize_images(own), 14))
}

/// Pictures on a page.
pub open spec fn on_page(pictures: Seq<Picture>, page: usize) -> Seq<(usize, Picture)> {
    pictures.map_values(|picture: Picture| (page, picture))
}

/// The pictures on some pages, until there are 64.
pub open spec fn gathered(document: PdfDocument, pages: Seq<PdfPage>, out: Seq<(usize, Picture)>) -> Result<
    Seq<(usize, Picture)>,
    ScanError,
>
    decreases pages.len(),
{
    if pages.len() == 0 {
        Ok(out)
    } else {
        match searched_pictures(document, pages[0]) {
            Err(e) => Err(e),
            Ok(pictures) => {
                let all = out + on_page(pictures, pages[0].number as usize);
                if all.len() >= 64 {
                    Ok(all.take(64))
                } else {
                    gathered(document, pages.drop_first(), all)
                }
            },
        }
    }
}

/// The pictures of a document that are searched: those on its pages; where there are none,
/// the 64 most promising of all its image streams, as if on the first page.
pub open spec fn document_pictures(document: PdfDocument) -> Result<Seq<(usize, Picture)>, ScanError> {
    match gathered(document, document.pages@, Seq::empty()) {
        Err(e) => Err(e),
        Ok(out) => if out.len() > 0 {
            Ok(out)
        } else {
            Ok(on_page(at_most(prioritized(loose_pictures(document, document.objects@, Seq::empty())), 64), 1))
        },
    }
}

/// Adds images on a page, until there are `limit`.
fn push_images(out: &mut Vec<ScanImage>, images: Vec<DynamicImage>, page: usize, limit: usize)
    requires
        old(out)@.len() <= limit,
        all_scans_wf(old(out)@),
        all_wf(images@),
    ensures
        all_scans_wf(final(out)@),
        ({
            let all = scans_of(old(out)@) + on_page(pictures_of(images@), page);
            scans_of(final(out)@) == if all.len() >= limit {
                all.take(limit as int)
            } else {
                all
            }
        }),
{
    let ghost all = scans_of(out@) + on_page(pictures_of(images@), page);
    let ghost before = out@;
    assert(scans_of(out@) =~= all.take(out@.len() as int));
    for image in it: images
        invariant
            it.seq() == images@,
            all_wf(images@),
            all_scans_wf(out@),
            all == scans_of(before) + on_page(pictures_of(images@), page),
            before.len() <= limit,
            out@.len() == if before.len() + it.index() < limit { before.len() + it.index() } else { limit as int },
            scans_of(out@) == all.take(out@.len() as int),
    {
        if out.len() < limit {
            let ghost scans = out@;
            let ghost added = (page, image@);
            out.push(ScanImage { page, image });
            proof {
                assert(all[scans.len() as int] == added);
                assert(scans_of(out@) =~= all.take(out@.len() as int));
                assert forall|i: int| 0 <= i < out@.len() implies (#[trigger] out@[i]).image.wf() by {
                    if i < scans.len() {
                        assert(out@[i] == scans[i]);
                    }
                }
            }
        }
    }
    assert(all.take(all.len() as int) =~= all);
}

/// The images of a document that are searched, and the pages that they are on.
pub fn collect_pdf_images(document: &PdfDocument) -> (r: Result<Vec<ScanImage>, ScanError>)
    ensures
        r matches Ok(images) ==> all_scans_wf(images@) && document_pictures(*document) == Ok::<
            Seq<(usize, Picture)>,
            ScanError,
        >(scans_of(images@)),
        r matches Err(e) ==> document_pictures(*document) == Err::<Seq<(usize, Picture)>, ScanError>(e),
{
    let mut out: Vec<ScanImage> = Vec::new();
    let ghost all = document.pages@;
    assert(scans_of(out@) =~= Seq::empty());
    assert(all.subrange(0, all.len() as int) =~= all);
    for i in 0..document.pages.len()
        invariant
            all == document.pages@,
            all_scans_wf(out@),
            out@.len() < 64,
            gathered(*document, all, Seq::empty()) == gathered(
                *document,
                all.subrange(i as int, all.len() as int),
                scans_of(out@),
            ),
    {
        let ghost rest = all.subrange(i as int, all.len() as int);
        assert(rest.drop_first() =~= all.subrange(i + 1, all.len() as int));
        match collect_page(document, &document.pages[i]) {
            Ok(images) => {
                push_images(&mut out, images, document.pages[i].number as usize, 64);
                if out.len() >= 64 {
                    return Ok(out);
                }
            },
            Err(e) => {
                return Err(e);
            },
        }
    }
    if out.len() == 0 {
        let loose: Vec<DynamicImage> = keep_first(prioritize_images(extract_document_images(document)), 64);
        let ghost pictures = pictures_of(loose@);
        push_images(&mut out, loose, 1, 64);
        proof {
            assert(Seq::<(usize, Picture)>::empty() + on_page(pictures, 1) =~= on_page(pictures, 1));
            if pictures.len() == 64 {
                assert(on_page(pictures, 1).take(64) =~= on_page(pictures, 1));
            }
        }
    }
    Ok(out)
}

/// However many images a document has, at most 28 are taken from the resources of a page, at
/// most 14 are searched of a page, and at most 64 of the document.
pub proof fn law_picture_limits(document: PdfDocument, page: PdfPage)
    ensures
        page_pictures(document, page) matches Ok(pictures) ==> pictures.len() <= 28,
        searched_pictures(document, page) matches Ok(pictures) ==> pictures.len() <= 14,
        document_pictures(document) matches Ok(scans) ==> scans.len() <= 64,
{
    lemma_gathered_limit(document, document.pages@, Seq::empty());
}

proof fn lemma_gathered_limit(document: PdfDocument, pages: Seq<PdfPage>, out: Seq<(usize, Picture)>)
    requires
        out.len() <= 64,
    ensures
        gathered(document, pages, out) matches Ok(scans) ==> scans.len() <= 64,
    decreases pages.len(),
{
    if pages.len() > 0 {
        if let Ok(pictures) = searched_pictures(document, pages[0]) {
            let all = out + on_page(pictures, pages[0].number as usize);
            if all.len() < 64 {
                lemma_gathered_limit(document, pages.drop_first(), all);
            }
        }
    }
}

/// Pictures on pages that ascend, from 1 up to `n`.
pub open spec fn pictures_ascend(scans: Seq<(usize, Picture)>, n: int) -> bool {
    &&& forall|i: int| 0 <= i < scans.len() ==> 1 <= (#[trigger] scans[i]).0 <= n
    &&& forall|i: int, j: int| 0 <= i < j < scans.len() ==> (#[trigger] scans[i]).0 <= (#[trigger] scans[j]).0
}

/// The pictures of a document come in the order of its pages, which are numbered from one on.
/// Those of a document without pages are on the first.
pub proof fn law_picture_pages(document: PdfDocument)
    requires
        is_numbered(document),
    ensures
        document_pictures(document) matches Ok(scans) ==> pictures_ascend(
            scans,
            if document.pages@.len() == 0 {
                1
            } else {
                document.pages@.len() as int
            },
        ),
{
    let all = document.pages@;
    assert(all.subrange(0, all.len() as int) =~= all);
    lemma_picture_pages(document, 0, Seq::empty());
}

proof fn lemma_picture_pages(document: PdfDocument, start: int, out: Seq<(usize, Picture)>)
    requires
        is_numbered(document),
        0 <= start <= document.pages@.len(),
        pictures_ascend(out, start),
    ensures
        gathered(document, document.pages@.subrange(start, document.pages@.len() as int), out) matches Ok(scans)
            ==> pictures_ascend(scans, document.pages@.len() as int),
    decreases document.pages@.len() - start,
{
    let all = document.pages@;
    let rest = all.subrange(start, all.len() as int);
    if start < all.len() {
        assert(rest[0] == all[start]);
        assert(rest.drop_first() =~= all.subrange(start + 1, all.len() as int));
        if let Ok(pictures) = searched_pictures(document, rest[0]) {
            let more = out + on_page(pictures, rest[0].number as usize);
            assert(pictures_ascend(more, start + 1));
            if more.len() < 64 {
                lemma_picture_pages(document, start + 1, more);
            }
        }
    }
}

/// The first of some pictures are the pictures in their order, up to so many.
pub proof fn law_at_most(pictures: Seq<Picture>, n: int)
    requires
        n >= 0,
    ensures
        at_most(pictures, n).is_prefix_of(pictures),
        at_most(pictures, n).len() == if pictures.len() < n { pictures.len() as int } else { n },
{
}

/// The pictures of a page are those of the external objects in its resources, the first 28 of
/// them; none where it has no resources of its own; and an error where these are broken.
pub proof fn law_page_pictures(document: PdfDocument, page: PdfPage, dict: PdfDictionary, resources: PdfDictionary)
    requires
        fetched(document, page.id) == Some(PdfObject::Dictionary(dict)),
    ensures
        lookup(dict, "Resources"@) is None ==> (page_pictures(document, page) matches Ok(pictures) && pictures.len() == 0),
        lookup(dict, "Resources"@) == Some(PdfObject::Dictionary(resources)) ==> ({
            let found = extracted(document, resources, Seq::empty(), Seq::empty());
            &&& found.error matches Some(e) ==> page_pictures(document, page) == Err::<Seq<Picture>, PdfError>(e)
            &&& found.error is None ==> (page_pictures(document, page) matches Ok(pictures) && pictures.is_prefix_of(
                found.pictures,
            ) && pictures.len() == if found.pictures.len() < 28 { found.pictures.len() } else { 28 })
        }),
{
}

/// The pictures in the annotations of a page are those that a search of them finds; a page without
/// annotations has none.
pub proof fn law_annotation_pictures(document: PdfDocument, page: PdfPage, dict: PdfDictionary, annotations: PdfObject)
    requires
        fetched(document, page.id) == Some(PdfObject::Dictionary(dict)),
    ensures
        lookup(dict, "Annots"@) is None ==> (annotation_pictures(document, page) matches Ok(pictures) && pictures.len()
            == 0),
        lookup(dict, "Annots"@) == Some(annotations) ==> ({
            let found = collected(document, annotations, Seq::empty(), Seq::empty());
            &&& found.error matches Some(e) ==> annotation_pictures(document, page) == Err::<Seq<Picture>, PdfError>(e)
            &&& found.error is None ==> annotation_pictures(document, page) == Ok::<Seq<Picture>, PdfError>(
                found.pictures,
            )
        }),
{
}

/// The pictures of a page that are searched are the most promising of those in its resources and
/// its annotations together: up to 14 of them, none less promising than one that is left out.
pub proof fn law_most_promising(document: PdfDocument, page: PdfPage, own: Seq<Picture>, annotations: Seq<Picture>)
    requires
        page_pictures(document, page) == Ok::<Seq<Picture>, PdfError>(own),
        annotation_pictures(document, page) == Ok::<Seq<Picture>, PdfError>(annotations),
    ensures
        searched_pictures(document, page) is Ok,
        ({
            let pictures = searched_pictures(document, page)->Ok_0;
            let rest = pictures_left(own + annotations);
            &&& pictures.len() == if own.len() + annotations.len() < 14 { own.len() + annotations.len() } else { 14 }
            &&& (pictures + rest).to_multiset() == (own + annotations).to_multiset()
            &&& forall|i: int, j: int|
                0 <= i < pictures.len() && 0 <= j < rest.len() ==> priority(#[trigger] pictures[i]) >= priority(
                    #[trigger] rest[j],
                )
        }),
{
    let all = own + annotations;
    let ordered = prioritized(all);
    law_prioritized(all, 0);
    law_prioritized_same(all);
    let pictures = at_most(ordered, 14);
    let rest = pictures_left(all);
    assert(pictures + rest =~= ordered);
    assert forall|i: int, j: int| 0 <= i < pictures.len() && 0 <= j < rest.len() implies priority(#[trigger] pictures[i])
        >= priority(#[trigger] rest[j]) by {
        assert(pictures[i] == ordered[i]);
        assert(rest[j] == ordered[14 + j]);
    }
}

/// The pictures of a page that are left out: all but the 14 most promising.
pub open spec fn pictures_left(all: Seq<Picture>) -> Seq<Picture> {
    if all.len() <= 14 {
        Seq::empty()
    } else {
        prioritized(all).subrange(14, all.len() as int)
    }
}

/// Every page adds the pictures of it that are searched, with its number, behind those of the
/// pages before it, until there are 64; and an error on a page before that ends the search.
pub proof fn law_one_more_page(document: PdfDocument, pages: Seq<PdfPage>, page: PdfPage)
    ensures
        gathered(document, Seq::empty(), Seq::empty()) matches Ok(scans) && scans.len() == 0,
        ({
            let some = gathered(document, pages, Seq::empty());
            let more = gathered(document, pages.push(page), Seq::empty());
            &&& some matches Err(e) ==> more == Err::<Seq<(usize, Picture)>, ScanError>(e)
            &&& some matches Ok(scans) ==> scans.len() >= 64 ==> more == some
            &&& some matches Ok(scans) ==> scans.len() < 64 ==> match searched_pictures(document, page) {
                Err(e) => more == Err::<Seq<(usize, Picture)>, ScanError>(e),
                Ok(pictures) => more matches Ok(all) && all.len() == (if scans.len() + pictures.len() < 64 {
                    (scans.len() + pictures.len()) as int
                } else {
                    64
                }) && forall|i: int|
                    0 <= i < all.len() ==> #[trigger] all[i] == if i < scans.len() {
                        scans[i]
                    } else {
                        (page.number as usize, pictures[i - scans.len()])
                    },
            }
        }),
{
    lemma_one_more_page(document, pages, page, Seq::empty());
}

proof fn lemma_one_more_page(document: PdfDocument, pages: Seq<PdfPage>, page: PdfPage, out: Seq<(usize, Picture)>)
    requires
        out.len() < 64,
    ensures
        ({
            let some = gathered(document, pages, out);
            let more = gathered(document, pages.push(page), out);
            &&& some matches Err(e) ==> more == some
            &&& some matches Ok(scans) ==> scans.len() >= 64 ==> more == some
            &&& some matches Ok(scans) ==> scans.len() < 64 ==> match searched_pictures(document, page) {
                Err(e) => more == Err::<Seq<(usize, Picture)>, ScanError>(e),
                Ok(pictures) => more matches Ok(all) && all.len() == (if scans.len() + pictures.len() < 64 {
                    (scans.len() + pictures.len()) as int
                } else {
                    64
                }) && forall|i: int|
                    0 <= i < all.len() ==> #[trigger] all[i] == if i < scans.len() {
                        scans[i]
                    } else {
                        (page.number as usize, pictures[i - scans.len()])
                    },
            }
        }),
    decreases pages.len(),
{
    let more = pages.push(page);
    if pages.len() == 0 {
        assert(more[0] == page);
        assert(more.drop_first() =~= pages);
        reveal_with_fuel(gathered, 3);
        if let Ok(pictures) = searched_pictures(document, page) {
            let all = out + on_page(pictures, page.number as usize);
            assert(all.len() == out.len() + pictures.len());
            assert forall|i: int| 0 <= i < all.len() implies #[trigger] all[i] == if i < out.len() {
                out[i]
            } else {
                (page.number as usize, pictures[i - out.len()])
            } by {}
        }
    } else {
        assert(more[0] == pages[0]);
        assert(more.drop_first() =~= pages.drop_first().push(page));
        if let Ok(pictures) = searched_pictures(document, pages[0]) {
            let all = out + on_page(pictures, pages[0].number as usize);
            if all.len() < 64 {
                lemma_one_more_page(document, pages.drop_first(), page, all);
            }
        }
    }
}

/// Where no page has a picture, the image streams of the whole document are searched, as if on
/// the first page: the 64 most promising of them.
pub proof fn law_loose_pictures(document: PdfDocument)
    requires
        gathered(document, document.pages@, Seq::empty()) matches Ok(scans) && scans.len() == 0,
    ensures
        document_pictures(document) is Ok,
        ({
            let all = loose_pictures(document, document.objects@, Seq::empty());
            let scans = document_pictures(document)->Ok_0;
            &&& scans.len() == if all.len() < 64 { all.len() } else { 64 }
            &&& forall|i: int| 0 <= i < scans.len() ==> (#[trigger] scans[i]).0 == 1 && scans[i].1 == prioritized(all)[i]
        }),
{
    law_prioritized(loose_pictures(document, document.objects@, Seq::empty()), 0);
}

/// Where a page has a picture, those of the pages are the ones that are searched.
pub proof fn law_page_pictures_first(document: PdfDocument, scans: Seq<(usize, Picture)>)
    requires
        scans.len() > 0,
    ensures
        gathered(document, document.pages@, Seq::empty()) == Ok::<Seq<(usize, Picture)>, ScanError>(scans)
            ==> document_pictures(document) == Ok::<Seq<(usize, Picture)>, ScanError>(scans),
{
}

/// The image streams of a document are found wherever they stand among its objects, each once, up
/// to 96 of them: an object more that is an image worth decoding adds its picture behind the
/// others, and any other object adds none.
pub proof fn law_one_more_object(
    document: PdfDocument,
    objects: Seq<(ObjectId, PdfObject)>,
    object: (ObjectId, PdfObject),
    picture: Picture,
)
    ensures
        loose_pictures(document, Seq::empty(), Seq::empty()).len() == 0,
        ({
            let some = loose_pictures(document, objects, Seq::empty());
            let more = loose_pictures(document, objects.push(object), Seq::empty());
            &&& some.len() >= 96 ==> more == some
            &&& object.1 matches PdfObject::Stream(stream) ==> some.len() < 96 && is_image_of(document, stream, picture)
                ==> more == some.push(picture)
            &&& !(object.1 is Stream) ==> more == some
            &&& object.1 matches PdfObject::Stream(stream) ==> !has_name(stream.dict, "Subtype"@, "Image"@) ==> more
                == some
        }),
{
    lemma_one_more_object(document, objects, object, Seq::empty());
    reveal(is_image_of);
    reveal(with_stream);
}

proof fn lemma_one_more_object(
    document: PdfDocument,
    objects: Seq<(ObjectId, PdfObject)>,
    object: (ObjectId, PdfObject),
    out: Seq<Picture>,
)
    ensures
        ({
            let some = loose_pictures(document, objects, out);
            let more = loose_pictures(document, objects.push(object), out);
            &&& some.len() >= 96 ==> more == some
            &&& some.len() < 96 ==> more == match object.1 {
                PdfObject::Stream(stream) if has_name(stream.dict, "Subtype"@, "Image"@) => with_stream(
                    document,
                    stream,
                    some,
                ),
                _ => some,
            }
        }),
    decreases objects.len(),
{
    let more = objects.push(object);
    if objects.len() == 0 {
        assert(more[0] == object);
        assert(more.drop_first() =~= objects);
        reveal_with_fuel(loose_pictures, 3);
    } else if out.len() < 96 {
        assert(more[0] == objects[0]);
        assert(more.drop_first() =~= objects.drop_first().push(object));
        match objects[0].1 {
            PdfObject::Stream(stream) if has_name(stream.dict, "Subtype"@, "Image"@) => {
                lemma_one_more_object(document, objects.drop_first(), object, with_stream(document, stream, out));
            },
            _ => {
                lemma_one_more_object(document, objects.drop_first(), object, out);
            },
        }
    }
}

/// A page without resources of its own, also one that only refers to some, has no pictures in them;
/// and a page that is no dictionary has none at all. A page that the document lacks is an error.
pub proof fn law_no_resources(document: PdfDocument, page: PdfPage, dict: PdfDictionary)
    ensures
        fetched(document, page.id) == Some(PdfObject::Dictionary(dict)) && !(lookup(dict, "Resources"@) matches Some(
            PdfObject::Dictionary(_),
        )) ==> (page_pictures(document, page) matches Ok(pictures) && pictures.len() == 0),
        (fetched(document, page.id) matches Some(object) && !(object is Dictionary)) ==> (page_pictures(document, page) matches Ok(
            pictures,
        ) && pictures.len() == 0) && (annotation_pictures(document, page) matches Ok(pictures) && pictures.len() == 0),
        fetched(document, page.id) is None ==> annotation_pictures(document, page) == Err::<Seq<Picture>, PdfError>(
            PdfError::Unresolved,
        ),
{
}

/// A page whose pictures cannot be searched is named in the error.
pub proof fn law_page_errors(document: PdfDocument, page: PdfPage)
    ensures
        page_pictures(document, page) is Err ==> searched_pictures(document, page) == Err::<Seq<Picture>, ScanError>(
            ScanError::PageImages { page: page.number as usize },
        ),
        page_pictures(document, page) is Ok && annotation_pictures(document, page) is Err ==> searched_pictures(
            document,
            page,
        ) == Err::<Seq<Picture>, ScanError>(ScanError::AnnotationImages { page: page.number as usize }),
{
}

/// The pictures of some images are those of each of them, with its page, in order.
pub proof fn law_scans_of(images: Seq<ScanImage>)
    ensures
        scans_of(images).len() == images.len(),
        forall|i: int|
            0 <= i < images.len() ==> scans_of(images)[i].0 == (#[trigger] images[i]).page && scans_of(images)[i].1
                == images[i].image@,
{
}

} // verus!
