//! The images that a document shows: on its pages, in its annotations, and anywhere.

use vstd::prelude::*;
use vstd::utf8::encode_utf8_decode_utf8;
use crate::image_stream::{decode_pdf_image_stream, stream_picture};
use crate::pdf::{entry, fetched, has_name, is_named, key, lookup, numbered, resolve_dictionary,
    resolved, resolved_dictionary, ObjectId, PdfDictionary, PdfDocument, PdfError, PdfObject, PdfStream};
use crate::picture::{all_wf, pictures_of, DynamicImage, Picture};
use crate::streams::{is_worth_decoding, should_decode_stream_image};

verus! {

/// How many objects of a document were not visited.
pub open spec fn unvisited(objects: Seq<(ObjectId, PdfObject)>, visited: Seq<ObjectId>) -> nat
    decreases objects.len(),
{
    if objects.len() == 0 {
        0
    } else {
        unvisited(objects.drop_first(), visited) + if visited.contains(objects[0].0) { 0nat } else { 1nat }
    }
}

/// Whether everything visited before was visited.
pub open spec fn includes(visited: Seq<ObjectId>, before: Seq<ObjectId>) -> bool {
    forall|id: ObjectId| #[trigger] before.contains(id) ==> visited.contains(id)
}

proof fn lemma_unvisited_monotone(objects: Seq<(ObjectId, PdfObject)>, visited: Seq<ObjectId>, before: Seq<ObjectId>)
    requires
        includes(visited, before),
    ensures
        unvisited(objects, visited) <= unvisited(objects, before),
    decreases objects.len(),
{
    if objects.len() > 0 {
        lemma_unvisited_monotone(objects.drop_first(), visited, before);
        assert(before.contains(objects[0].0) ==> visited.contains(objects[0].0));
    }
}

proof fn lemma_includes_push(visited: Seq<ObjectId>, id: ObjectId)
    ensures
        includes(visited.push(id), visited),
        visited.push(id).contains(id),
{
    assert(visited.push(id)[visited.len() as int] == id);
    assert forall|other: ObjectId| #[trigger] visited.contains(other) implies visited.push(id).contains(other) by {
        let i = choose|i: int| 0 <= i < visited.len() && visited[i] == other;
        assert(visited.push(id)[i] == other);
    }
}

/// Visiting an object of the document leaves fewer of them.
proof fn lemma_visit(objects: Seq<(ObjectId, PdfObject)>, visited: Seq<ObjectId>, id: ObjectId)
    requires
        numbered(objects, id) is Some,
        !visited.contains(id),
    ensures
        unvisited(objects, visited.push(id)) < unvisited(objects, visited),
    decreases objects.len(),
{
    lemma_includes_push(visited, id);
    if objects[0].0 == id {
        lemma_unvisited_monotone(objects.drop_first(), visited.push(id), visited);
    } else {
        lemma_visit(objects.drop_first(), visited, id);
        assert(visited.contains(objects[0].0) ==> visited.push(id).contains(objects[0].0));
    }
}

/// What was visited and which pictures were found, and what broke the search off, where
/// something did.
pub struct Found {
    pub visited: Seq<ObjectId>,
    pub pictures: Seq<Picture>,
    pub error: Option<PdfError>,
}

/// A search that went to its end.
pub open spec fn done(visited: Seq<ObjectId>, pictures: Seq<Picture>) -> Found {
    Found { visited, pictures, error: None }
}

/// A search that was broken off.
pub open spec fn broken(visited: Seq<ObjectId>, pictures: Seq<Picture>, error: PdfError) -> Found {
    Found { visited, pictures, error: Some(error) }
}

/// A search adds to what was visited and to the pictures found: everything visited before was
/// visited, and the pictures found before come first.
pub open spec fn found_more(found: Found, before: Seq<ObjectId>, first: Seq<Picture>) -> bool {
    includes(found.visited, before) && first.is_prefix_of(found.pictures)
}

/// The pictures found, with that of an image stream where it is worth decoding and has one.
#[verifier::opaque]
pub open spec fn with_stream(document: PdfDocument, stream: PdfStream, out: Seq<Picture>) -> Seq<Picture> {
    if is_worth_decoding(stream) {
        match stream_picture(document, stream) {
            Some(picture) => out.push(picture),
            None => out,
        }
    } else {
        out
    }
}

/// The dictionaries in which annotations hold more objects.
pub open spec fn annotation_key(k: int) -> Seq<char> {
    if k == 0 {
        "AP"@
    } else if k == 1 {
        "N"@
    } else if k == 2 {
        "R"@
    } else {
        "D"@
    }
}

/// What a key stands for is a part of the dictionary.
proof fn lemma_entry_smaller(entries: Seq<(Vec<u8>, PdfObject)>, k: Seq<u8>)
    ensures
        entry(entries, k) matches Some(object) ==> decreases_to!(entries => object),
    decreases entries.len(),
{
    if entries.len() > 0 {
        if entries[0].0@ == k {
            assert(decreases_to!(entries => entries[0]));
            assert(decreases_to!(entries[0] => entries[0].1));
        } else {
            lemma_entry_smaller(entries.drop_first(), k);
            assert(decreases_to!(entries => entries.drop_first()));
        }
    }
}

proof fn lemma_lookup_smaller(dict: PdfDictionary, k: Seq<char>)
    ensures
        lookup(dict, k) matches Some(object) ==> decreases_to!(dict => object),
{
    lemma_entry_smaller(dict.entries@, key(k));
    assert(decreases_to!(dict => dict.entries));
    assert(decreases_to!(dict.entries => dict.entries@));
}

/// What is wrong with an object that is no dictionary and refers to none.
pub open spec fn dictionary_error(document: PdfDocument, object: PdfObject) -> PdfError {
    if resolved(document, object) is None {
        PdfError::Unresolved
    } else {
        PdfError::NotADictionary
    }
}

/// The pictures that an object shows. References are followed, each object once; arrays and
/// the appearances of annotations are searched; an image stream shows its own picture, and a
/// form those of its resources. Where 96 pictures were found nothing more is searched.
pub open spec fn collected(
    document: PdfDocument,
    object: PdfObject,
    visited: Seq<ObjectId>,
    out: Seq<Picture>,
) -> Found
    decreases unvisited(document.objects@, visited), 3int, object, 0int,
{
    if out.len() >= 96 {
        done(visited, out)
    } else {
        match object {
            PdfObject::Reference(id) => if visited.contains(id) {
                done(visited, out)
            } else {
                match fetched(document, id) {
                    Some(target) => if unvisited(document.objects@, visited.push(id)) < unvisited(
                        document.objects@,
                        visited,
                    ) {
                        collected(document, target, visited.push(id), out)
                    } else {
                        broken(visited.push(id), out, PdfError::Unresolved)
                    },
                    None => broken(visited.push(id), out, PdfError::Unresolved),
                }
            },
            PdfObject::Array(items) => collected_all(document, items@, visited, out),
            PdfObject::Dictionary(dict) => {
                let first = if lookup(dict, "XObject"@) is Some {
                    extracted(document, dict, visited, out)
                } else {
                    done(visited, out)
                };
                if first.error is None && unvisited(document.objects@, first.visited) <= unvisited(
                    document.objects@,
                    visited,
                ) {
                    collected_keys(document, dict, 0, first.visited, first.pictures)
                } else {
                    first
                }
            },
            PdfObject::Stream(stream) => if has_name(stream.dict, "Subtype"@, "Image"@) {
                done(visited, with_stream(document, stream, out))
            } else if has_name(stream.dict, "Subtype"@, "Form"@) {
                match lookup(stream.dict, "Resources"@) {
                    Some(resources) => match resolved_dictionary(document, resources) {
                        Some(dict) => extracted(document, dict, visited, out),
                        None => broken(visited, out, dictionary_error(document, resources)),
                    },
                    None => done(visited, out),
                }
            } else {
                done(visited, out)
            },
            _ => done(visited, out),
        }
    }
}

/// The pictures that some objects show, one after the other.
pub open spec fn collected_all(
    document: PdfDocument,
    items: Seq<PdfObject>,
    visited: Seq<ObjectId>,
    out: Seq<Picture>,
) -> Found
    decreases unvisited(document.objects@, visited), 3int, items, 0int,
{
    if items.len() == 0 {
        done(visited, out)
    } else {
        let first = collected(document, items[0], visited, out);
        if first.error is None && unvisited(document.objects@, first.visited) <= unvisited(document.objects@, visited) {
            collected_all(document, items.drop_first(), first.visited, first.pictures)
        } else {
            first
        }
    }
}

/// The pictures that the entries of a dictionary show, from a key of annotations on.
pub open spec fn collected_keys(
    document: PdfDocument,
    dict: PdfDictionary,
    k: int,
    visited: Seq<ObjectId>,
    out: Seq<Picture>,
) -> Found
    decreases unvisited(document.objects@, visited), 3int, dict, 4 - k,
    via collected_keys_decreases
{
    if k < 0 || k >= 4 {
        done(visited, out)
    } else {
        match lookup(dict, annotation_key(k)) {
            Some(object) => {
                let first = collected(document, object, visited, out);
                if first.error is None && unvisited(document.objects@, first.visited) <= unvisited(
                    document.objects@,
                    visited,
                ) {
                    collected_keys(document, dict, k + 1, first.visited, first.pictures)
                } else {
                    first
                }
            },
            None => collected_keys(document, dict, k + 1, visited, out),
        }
    }
}

#[via_fn]
proof fn collected_keys_decreases(
    document: PdfDocument,
    dict: PdfDictionary,
    k: int,
    visited: Seq<ObjectId>,
    out: Seq<Picture>,
) {
    if 0 <= k < 4 {
        lemma_lookup_smaller(dict, annotation_key(k));
    }
}

/// The pictures of the external objects among some resources.
pub open spec fn extracted(
    document: PdfDocument,
    resources: PdfDictionary,
    visited: Seq<ObjectId>,
    out: Seq<Picture>,
) -> Found
    decreases unvisited(document.objects@, visited), 2int, resources, 0int,
{
    if out.len() >= 96 {
        done(visited, out)
    } else {
        match lookup(resources, "XObject"@) {
            Some(object) => match resolved_dictionary(document, object) {
                Some(dict) => extracted_entries(document, dict.entries@, visited, out),
                None => broken(visited, out, dictionary_error(document, object)),
            },
            None => done(visited, out),
        }
    }
}

/// The pictures of some external objects: those that are references, each object once.
pub open spec fn extracted_entries(
    document: PdfDocument,
    entries: Seq<(Vec<u8>, PdfObject)>,
    visited: Seq<ObjectId>,
    out: Seq<Picture>,
) -> Found
    decreases unvisited(document.objects@, visited), 1int, entries, 0int,
{
    if entries.len() == 0 {
        done(visited, out)
    } else {
        match entries[0].1 {
            PdfObject::Reference(id) if !visited.contains(id) => {
                let first = extracted_object(document, id, visited, out);
                if first.error is None && unvisited(document.objects@, first.visited) <= unvisited(
                    document.objects@,
                    visited,
                ) {
                    extracted_entries(document, entries.drop_first(), first.visited, first.pictures)
                } else {
                    first
                }
            },
            _ => extracted_entries(document, entries.drop_first(), visited, out),
        }
    }
}

/// The pictures of an external object that was not visited: an image, or a form with
/// resources of its own.
pub open spec fn extracted_object(
    document: PdfDocument,
    id: ObjectId,
    visited: Seq<ObjectId>,
    out: Seq<Picture>,
) -> Found
    decreases unvisited(document.objects@, visited), 0int, id, 0int,
{
    let seen = visited.push(id);
    match fetched(document, id) {
        Some(PdfObject::Stream(stream)) => if has_name(stream.dict, "Subtype"@, "Image"@) {
            done(seen, with_stream(document, stream, out))
        } else if has_name(stream.dict, "Subtype"@, "Form"@) {
            match lookup(stream.dict, "Resources"@) {
                Some(resources) => match resolved_dictionary(document, resources) {
                    Some(dict) => if unvisited(document.objects@, seen) < unvisited(document.objects@, visited) {
                        extracted(document, dict, seen, out)
                    } else {
                        broken(seen, out, PdfError::Unresolved)
                    },
                    None => broken(seen, out, dictionary_error(document, resources)),
                },
                None => done(seen, out),
            }
        } else {
            done(seen, out)
        },
        Some(_) => done(seen, out),
        None => broken(seen, out, PdfError::Unresolved),
    }
}

proof fn lemma_with_stream(document: PdfDocument, stream: PdfStream, out: Seq<Picture>)
    ensures
        out.is_prefix_of(with_stream(document, stream, out)),
{
    reveal(with_stream);
}

proof fn lemma_collected(document: PdfDocument, object: PdfObject, visited: Seq<ObjectId>, out: Seq<Picture>)
    ensures
        found_more(collected(document, object, visited, out), visited, out),
    decreases unvisited(document.objects@, visited), 3int, object, 0int,
{
    if out.len() < 96 {
        match object {
            PdfObject::Reference(id) => {
                lemma_includes_push(visited, id);
                if !visited.contains(id) {
                    if let Some(target) = fetched(document, id) {
                        lemma_visit(document.objects@, visited, id);
                        lemma_collected(document, target, visited.push(id), out);
                    }
                }
            },
            PdfObject::Array(items) => {
                lemma_collected_all(document, items@, visited, out);
            },
            PdfObject::Dictionary(dict) => {
                if lookup(dict, "XObject"@) is Some {
                    lemma_extracted(document, dict, visited, out);
                    let first = extracted(document, dict, visited, out);
                    if first.error is None {
                        lemma_unvisited_monotone(document.objects@, first.visited, visited);
                        lemma_collected_keys(document, dict, 0, first.visited, first.pictures);
                    }
                } else {
                    lemma_collected_keys(document, dict, 0, visited, out);
                }
            },
            PdfObject::Stream(stream) => {
                lemma_with_stream(document, stream, out);
                if let Some(resources) = lookup(stream.dict, "Resources"@) {
                    if let Some(dict) = resolved_dictionary(document, resources) {
                        lemma_extracted(document, dict, visited, out);
                    }
                }
            },
            _ => {},
        }
    }
}

proof fn lemma_collected_all(document: PdfDocument, items: Seq<PdfObject>, visited: Seq<ObjectId>, out: Seq<Picture>)
    ensures
        found_more(collected_all(document, items, visited, out), visited, out),
    decreases unvisited(document.objects@, visited), 3int, items, 0int,
{
    if items.len() > 0 {
        lemma_collected(document, items[0], visited, out);
        let first = collected(document, items[0], visited, out);
        if first.error is None {
            lemma_unvisited_monotone(document.objects@, first.visited, visited);
            lemma_collected_all(document, items.drop_first(), first.visited, first.pictures);
        }
    }
}

proof fn lemma_collected_keys(
    document: PdfDocument,
    dict: PdfDictionary,
    k: int,
    visited: Seq<ObjectId>,
    out: Seq<Picture>,
)
    ensures
        found_more(collected_keys(document, dict, k, visited, out), visited, out),
    decreases unvisited(document.objects@, visited), 3int, dict, 4 - k,
{
    if 0 <= k < 4 {
        match lookup(dict, annotation_key(k)) {
            Some(object) => {
                lemma_lookup_smaller(dict, annotation_key(k));
                lemma_collected(document, object, visited, out);
                let first = collected(document, object, visited, out);
                if first.error is None {
                    lemma_unvisited_monotone(document.objects@, first.visited, visited);
                    lemma_collected_keys(document, dict, k + 1, first.visited, first.pictures);
                }
            },
            None => {
                lemma_collected_keys(document, dict, k + 1, visited, out);
            },
        }
    }
}

proof fn lemma_extracted(document: PdfDocument, resources: PdfDictionary, visited: Seq<ObjectId>, out: Seq<Picture>)
    ensures
        found_more(extracted(document, resources, visited, out), visited, out),
    decreases unvisited(document.objects@, visited), 2int, resources, 0int,
{
    if out.len() < 96 {
        if let Some(object) = lookup(resources, "XObject"@) {
            if let Some(dict) = resolved_dictionary(document, object) {
                lemma_extracted_entries(document, dict.entries@, visited, out);
            }
        }
    }
}

proof fn lemma_extracted_entries(
    document: PdfDocument,
    entries: Seq<(Vec<u8>, PdfObject)>,
    visited: Seq<ObjectId>,
    out: Seq<Picture>,
)
    ensures
        found_more(extracted_entries(document, entries, visited, out), visited, out),
    decreases unvisited(document.objects@, visited), 1int, entries, 0int,
{
    if entries.len() > 0 {
        match entries[0].1 {
            PdfObject::Reference(id) if !visited.contains(id) => {
                lemma_extracted_object(document, id, visited, out);
                let first = extracted_object(document, id, visited, out);
                if first.error is None {
                    lemma_unvisited_monotone(document.objects@, first.visited, visited);
                    lemma_extracted_entries(document, entries.drop_first(), first.visited, first.pictures);
                }
            },
            _ => {
                lemma_extracted_entries(document, entries.drop_first(), visited, out);
            },
        }
    }
}

proof fn lemma_extracted_object(document: PdfDocument, id: ObjectId, visited: Seq<ObjectId>, out: Seq<Picture>)
    requires
        !visited.contains(id),
    ensures
        found_more(extracted_object(document, id, visited, out), visited, out),
    decreases unvisited(document.objects@, visited), 0int, id, 0int,
{
    lemma_includes_push(visited, id);
    if let Some(PdfObject::Stream(stream)) = fetched(document, id) {
        lemma_visit(document.objects@, visited, id);
        lemma_with_stream(document, stream, out);
        if let Some(resources) = lookup(stream.dict, "Resources"@) {
            if let Some(dict) = resolved_dictionary(document, resources) {
                lemma_extracted(document, dict, visited.push(id), out);
            }
        }
    }
}

/// Searching for pictures never forgets what was visited, nor the pictures found, also where
/// it is broken off; and where there are 96 pictures, or at a reference to what was visited,
/// nothing is searched.
pub proof fn law_search_grows(document: PdfDocument, object: PdfObject, visited: Seq<ObjectId>, out: Seq<Picture>)
    ensures
        found_more(collected(document, object, visited, out), visited, out),
        out.len() >= 96 ==> collected(document, object, visited, out) == done(visited, out),
        object matches PdfObject::Reference(id) && visited.contains(id) ==> collected(document, object, visited, out)
            == done(visited, out),
{
    lemma_collected(document, object, visited, out);
}

/// Searching resources never forgets what was visited, nor the pictures found, also where it
/// is broken off.
pub proof fn law_resources_grow(
    document: PdfDocument,
    resources: PdfDictionary,
    visited: Seq<ObjectId>,
    out: Seq<Picture>,
)
    ensures
        found_more(extracted(document, resources, visited, out), visited, out),
        out.len() >= 96 ==> extracted(document, resources, visited, out) == done(visited, out),
{
    lemma_extracted(document, resources, visited, out);
}

/// What a search did to what was visited and to the images found, from those before it on,
/// whether it went to its end or was broken off.
pub open spec fn search_did(
    result: Result<(), PdfError>,
    wanted: Found,
    visited: Seq<ObjectId>,
    images: Seq<DynamicImage>,
    before: Seq<ObjectId>,
    first: Seq<DynamicImage>,
) -> bool {
    &&& all_wf(images)
    &&& visited == wanted.visited
    &&& pictures_of(images) == wanted.pictures
    &&& includes(visited, before)
    &&& first.is_prefix_of(images)
    &&& pictures_of(first).is_prefix_of(pictures_of(images))
    &&& match wanted.error {
        Some(e) => result == Err::<(), PdfError>(e),
        None => result is Ok,
    }
}

/// Whether an object was visited.
fn was_visited(visited: &Vec<ObjectId>, id: ObjectId) -> (r: bool)
    ensures
        r == visited@.contains(id),
{
    for i in 0..visited.len()
        invariant
            forall|j: int| 0 <= j < i ==> visited@[j] != id,
    {
        if visited[i].0 == id.0 && visited[i].1 == id.1 {
            assert(visited@[i as int] == id);
            return true;
        }
    }
    false
}

/// Adds the picture of an image stream.
pub(crate) fn push_stream(document: &PdfDocument, stream: &PdfStream, out: &mut Vec<DynamicImage>)
    requires
        all_wf(old(out)@),
    ensures
        all_wf(final(out)@),
        old(out)@.is_prefix_of(final(out)@),
        pictures_of(final(out)@) == with_stream(*document, *stream, pictures_of(old(out)@)),
{
    proof {
        reveal(with_stream);
    }
    if should_decode_stream_image(stream) {
        if let Some(image) = decode_pdf_image_stream(document, stream) {
            let ghost before = out@;
            let ghost picture = image@;
            out.push(image);
            assert(pictures_of(out@) =~= pictures_of(before).push(picture));
            assert(all_wf(out@)) by {
                assert forall|i: int| 0 <= i < out@.len() implies (#[trigger] out@[i]).wf() by {
                    if i < before.len() {
                        assert(out@[i] == before[i]);
                    }
                }
            }
        }
    }
}

/// Collects the images that an object shows.
pub fn collect_images_from_object(
    document: &PdfDocument,
    object: &PdfObject,
    visited: &mut Vec<ObjectId>,
    out: &mut Vec<DynamicImage>,
) -> (r: Result<(), PdfError>)
    requires
        all_wf(old(out)@),
    ensures
        search_did(
            r,
            collected(*document, *object, old(visited)@, pictures_of(old(out)@)),
            final(visited)@,
            final(out)@,
            old(visited)@,
            old(out)@,
        ),
        old(out)@.len() >= 96 || (*object matches PdfObject::Reference(id) && old(visited)@.contains(id)) ==> r is Ok
            && final(visited)@ == old(visited)@ && final(out)@ == old(out)@,
    decreases unvisited(document.objects@, old(visited)@), 3int, *object, 0int,
{
    proof {
        lemma_collected(*document, *object, visited@, pictures_of(out@));
    }
    if out.len() >= 96 {
        return Ok(());
    }
    match object {
        PdfObject::Reference(id) => {
            if was_visited(visited, *id) {
                return Ok(());
            }
            let ghost before = visited@;
            visited.push(*id);
            match document.get_object(*id) {
                Ok(target) => {
                    proof {
                        lemma_visit(document.objects@, before, *id);
                    }
                    collect_images_from_object(document, target, visited, out)
                },
                Err(e) => Err(e),
            }
        },
        PdfObject::Array(items) => {
            assert(items@.subrange(0, items@.len() as int) =~= items@);
            collect_images_from_array(document, items, 0, visited, out)
        },
        PdfObject::Dictionary(dict) => {
            let ghost before = visited@;
            let ghost found = pictures_of(out@);
            if dict.get("XObject").is_some() {
                match extract_images_from_resources(document, dict, visited, out) {
                    Ok(()) => {},
                    Err(e) => {
                        return Err(e);
                    },
                }
                proof {
                    lemma_extracted(*document, *dict, before, found);
                }
            }
            proof {
                lemma_unvisited_monotone(document.objects@, visited@, before);
            }
            collect_images_from_keys(document, dict, 0, visited, out)
        },
        PdfObject::Stream(stream) => {
            if is_named(&stream.dict, "Subtype", "Image") {
                push_stream(document, stream, out);
                Ok(())
            } else if is_named(&stream.dict, "Subtype", "Form") {
                match stream.dict.get("Resources") {
                    Some(resources) => match resolve_dictionary(document, resources) {
                        Ok(dict) => extract_images_from_resources(document, dict, visited, out),
                        Err(e) => Err(e),
                    },
                    None => Ok(()),
                }
            } else {
                Ok(())
            }
        },
        _ => Ok(()),
    }
}

/// Collects the images that the items of an array show, from one on.
fn collect_images_from_array(
    document: &PdfDocument,
    items: &Vec<PdfObject>,
    start: usize,
    visited: &mut Vec<ObjectId>,
    out: &mut Vec<DynamicImage>,
) -> (r: Result<(), PdfError>)
    requires
        start <= items@.len(),
        all_wf(old(out)@),
    ensures
        search_did(
            r,
            collected_all(
                *document,
                items@.subrange(start as int, items@.len() as int),
                old(visited)@,
                pictures_of(old(out)@),
            ),
            final(visited)@,
            final(out)@,
            old(visited)@,
            old(out)@,
        ),
    decreases
            unvisited(document.objects@, old(visited)@),
            3int,
            items@.subrange(start as int, items@.len() as int),
            0int,
{
    proof {
        lemma_collected_all(
            *document,
            items@.subrange(start as int, items@.len() as int),
            visited@,
            pictures_of(out@),
        );
    }
    let ghost rest = items@.subrange(start as int, items@.len() as int);
    if start == items.len() {
        return Ok(());
    }
    let ghost before = visited@;
    let ghost found = pictures_of(out@);
    assert(rest[0] == items@[start as int]);
    match collect_images_from_object(document, &items[start], visited, out) {
        Ok(()) => {},
        Err(e) => {
            return Err(e);
        },
    }
    proof {
        lemma_collected(*document, rest[0], before, found);
        lemma_unvisited_monotone(document.objects@, visited@, before);
        assert(rest.drop_first() =~= items@.subrange(start + 1, items@.len() as int));
    }
    collect_images_from_array(document, items, start + 1, visited, out)
}

/// The dictionaries in which annotations hold more objects.
fn annotation_key_text(k: u8) -> (r: &'static str)
    ensures
        r@ == annotation_key(k as int),
{
    if k == 0 {
        "AP"
    } else if k == 1 {
        "N"
    } else if k == 2 {
        "R"
    } else {
        "D"
    }
}

/// Collects the images that the entries of a dictionary show, from a key of annotations on.
fn collect_images_from_keys(
    document: &PdfDocument,
    dict: &PdfDictionary,
    k: u8,
    visited: &mut Vec<ObjectId>,
    out: &mut Vec<DynamicImage>,
) -> (r: Result<(), PdfError>)
    requires
        k <= 4,
        all_wf(old(out)@),
    ensures
        search_did(
            r,
            collected_keys(*document, *dict, k as int, old(visited)@, pictures_of(old(out)@)),
            final(visited)@,
            final(out)@,
            old(visited)@,
            old(out)@,
        ),
    decreases unvisited(document.objects@, old(visited)@), 3int, *dict, 4 - k,
{
    proof {
        lemma_collected_keys(*document, *dict, k as int, visited@, pictures_of(out@));
    }
    if k >= 4 {
        return Ok(());
    }
    let ghost before = visited@;
    let ghost found = pictures_of(out@);
    if let Some(object) = dict.get(annotation_key_text(k)) {
        proof {
            lemma_lookup_smaller(*dict, annotation_key(k as int));
        }
        match collect_images_from_object(document, object, visited, out) {
            Ok(()) => {},
            Err(e) => {
                return Err(e);
            },
        }
        proof {
            lemma_collected(*document, *object, before, found);
        }
    }
    proof {
        lemma_unvisited_monotone(document.objects@, visited@, before);
    }
    collect_images_from_keys(document, dict, k + 1, visited, out)
}

/// Collects the images of the external objects among some resources.
pub fn extract_images_from_resources(
    document: &PdfDocument,
    resources: &PdfDictionary,
    visited: &mut Vec<ObjectId>,
    out: &mut Vec<DynamicImage>,
) -> (r: Result<(), PdfError>)
    requires
        all_wf(old(out)@),
    ensures
        search_did(
            r,
            extracted(*document, *resources, old(visited)@, pictures_of(old(out)@)),
            final(visited)@,
            final(out)@,
            old(visited)@,
            old(out)@,
        ),
        old(out)@.len() >= 96 ==> r is Ok && final(visited)@ == old(visited)@ && final(out)@ == old(out)@,
    decreases unvisited(document.objects@, old(visited)@), 2int, *resources, 0int,
{
    proof {
        lemma_extracted(*document, *resources, visited@, pictures_of(out@));
    }
    if out.len() >= 96 {
        return Ok(());
    }
    match resources.get("XObject") {
        Some(object) => match resolve_dictionary(document, object) {
            Ok(dict) => {
                assert(dict.entries@.subrange(0, dict.entries@.len() as int) =~= dict.entries@);
                extract_images_from_entries(document, &dict.entries, 0, visited, out)
            },
            Err(e) => Err(e),
        },
        None => Ok(()),
    }
}

/// Collects the images of some external objects, from one on.
fn extract_images_from_entries(
    document: &PdfDocument,
    entries: &Vec<(Vec<u8>, PdfObject)>,
    start: usize,
    visited: &mut Vec<ObjectId>,
    out: &mut Vec<DynamicImage>,
) -> (r: Result<(), PdfError>)
    requires
        start <= entries@.len(),
        all_wf(old(out)@),
    ensures
        search_did(
            r,
            extracted_entries(
                *document,
                entries@.subrange(start as int, entries@.len() as int),
                old(visited)@,
                pictures_of(old(out)@),
            ),
            final(visited)@,
            final(out)@,
            old(visited)@,
            old(out)@,
        ),
    decreases
            unvisited(document.objects@, old(visited)@),
            1int,
            entries@.subrange(start as int, entries@.len() as int),
            0int,
{
    proof {
        lemma_extracted_entries(
            *document,
            entries@.subrange(start as int, entries@.len() as int),
            visited@,
            pictures_of(out@),
        );
    }
    let ghost rest = entries@.subrange(start as int, entries@.len() as int);
    if start == entries.len() {
        return Ok(());
    }
    let ghost before = visited@;
    let ghost found = pictures_of(out@);
    assert(rest[0] == entries@[start as int]);
    assert(rest.drop_first() =~= entries@.subrange(start + 1, entries@.len() as int));
    if let PdfObject::Reference(id) = &entries[start].1 {
        if !was_visited(visited, *id) {
            match extract_images_from_reference(document, *id, visited, out) {
                Ok(()) => {},
                Err(e) => {
                    return Err(e);
                },
            }
            proof {
                lemma_extracted_object(*document, *id, before, found);
            }
        }
    }
    proof {
        lemma_unvisited_monotone(document.objects@, visited@, before);
    }
    extract_images_from_entries(document, entries, start + 1, visited, out)
}

/// Collects the images of an external object that was not visited.
fn extract_images_from_reference(
    document: &PdfDocument,
    id: ObjectId,
    visited: &mut Vec<ObjectId>,
    out: &mut Vec<DynamicImage>,
) -> (r: Result<(), PdfError>)
    requires
        !old(visited)@.contains(id),
        all_wf(old(out)@),
    ensures
        search_did(
            r,
            extracted_object(*document, id, old(visited)@, pictures_of(old(out)@)),
            final(visited)@,
            final(out)@,
            old(visited)@,
            old(out)@,
        ),
    decreases unvisited(document.objects@, old(visited)@), 0int, id, 0int,
{
    proof {
        lemma_extracted_object(*document, id, visited@, pictures_of(out@));
    }
    let ghost before = visited@;
    visited.push(id);
    let object: &PdfObject = match document.get_object(id) {
        Ok(object) => object,
        Err(e) => {
            return Err(e);
        },
    };
    proof {
        lemma_visit(document.objects@, before, id);
    }
    if let PdfObject::Stream(stream) = object {
        if is_named(&stream.dict, "Subtype", "Image") {
            push_stream(document, stream, out);
        } else if is_named(&stream.dict, "Subtype", "Form") {
            if let Some(resources) = stream.dict.get("Resources") {
                return match resolve_dictionary(document, resources) {
                    Ok(dict) => extract_images_from_resources(document, dict, visited, out),
                    Err(e) => Err(e),
                };
            }
        }
    }
    Ok(())
}

/// Whether a stream is an image that is worth decoding, with this picture.
#[verifier::opaque]
pub open spec fn is_image_of(document: PdfDocument, stream: PdfStream, picture: Picture) -> bool {
    &&& lookup(stream.dict, "Subtype"@) matches Some(PdfObject::Name(name)) && name@ == key("Image"@)
    &&& is_worth_decoding(stream)
    &&& stream_picture(document, stream) == Some(picture)
}

/// Whether object `id` of a document is an image that is worth decoding, with this picture.
pub open spec fn shows(document: PdfDocument, id: ObjectId, picture: Picture) -> bool {
    fetched(document, id) matches Some(PdfObject::Stream(stream)) && is_image_of(document, stream, picture)
}

/// Every image that a search visited first is among the pictures that it found; and every
/// picture that it found first is that of an image.
pub open spec fn is_faithful(document: PdfDocument, found: Found, before: Seq<ObjectId>, first: Seq<Picture>) -> bool {
    &&& forall|id: ObjectId, picture: Picture|
        found.visited.contains(id) && !before.contains(id) && #[trigger] shows(document, id, picture)
            ==> found.pictures.contains(picture)
    &&& forall|k: int| first.len() <= k < found.pictures.len() ==> is_shown(document, #[trigger] found.pictures[k])
}

/// Whether a picture is that of an image that is worth decoding.
pub open spec fn is_shown(document: PdfDocument, picture: Picture) -> bool {
    exists|stream: PdfStream| #[trigger] is_image_of(document, stream, picture)
}

proof fn lemma_prefix_contains(a: Seq<Picture>, b: Seq<Picture>, picture: Picture)
    requires
        a.is_prefix_of(b),
        a.contains(picture),
    ensures
        b.contains(picture),
{
    let i = choose|i: int| 0 <= i < a.len() && a[i] == picture;
    assert(b.subrange(0, a.len() as int)[i] == b[i]);
    assert(b[i] == picture);
}

proof fn lemma_faithful_both(
    document: PdfDocument,
    visited: Seq<ObjectId>,
    out: Seq<Picture>,
    one: Found,
    two: Found,
)
    requires
        is_faithful(document, one, visited, out),
        is_faithful(document, two, one.visited, one.pictures),
        out.is_prefix_of(one.pictures),
        one.pictures.is_prefix_of(two.pictures),
    ensures
        is_faithful(document, two, visited, out),
{
    assert forall|id: ObjectId, picture: Picture|
        two.visited.contains(id) && !visited.contains(id) && #[trigger] shows(
            document,
            id,
            picture,
        ) implies two.pictures.contains(picture) by {
        if one.visited.contains(id) {
            lemma_prefix_contains(one.pictures, two.pictures, picture);
        }
    }
    assert forall|k: int| out.len() <= k < two.pictures.len() implies is_shown(document, #[trigger] two.pictures[k]) by {
        if k < one.pictures.len() {
            assert(two.pictures.subrange(0, one.pictures.len() as int)[k] == one.pictures[k]);
            assert(is_shown(document, one.pictures[k]));
        }
    }
}

proof fn lemma_faithful_stream(document: PdfDocument, stream: PdfStream, visited: Seq<ObjectId>, out: Seq<Picture>)
    requires
        has_name(stream.dict, "Subtype"@, "Image"@),
    ensures
        is_faithful(document, done(visited, with_stream(document, stream, out)), visited, out),
        forall|picture: Picture|
            #[trigger] is_image_of(document, stream, picture) ==> with_stream(document, stream, out).contains(picture),
{
    reveal(with_stream);
    reveal(is_image_of);
    let all = with_stream(document, stream, out);
    if all.len() > out.len() {
        assert(all.last() == all[all.len() - 1]);
        assert(is_image_of(document, stream, all[out.len() as int]));
    }
    assert forall|picture: Picture| #[trigger] is_image_of(document, stream, picture) implies all.contains(picture) by {
        assert(all[out.len() as int] == picture);
    }
}

/// Visiting an object first, and then searching it, is faithful where the search is, and where it
/// finds the picture of the object itself.
proof fn lemma_faithful_visit(document: PdfDocument, id: ObjectId, visited: Seq<ObjectId>, out: Seq<Picture>, found: Found)
    requires
        is_faithful(document, found, visited.push(id), out),
        forall|picture: Picture| #[trigger] shows(document, id, picture) ==> found.pictures.contains(picture),
    ensures
        is_faithful(document, found, visited, out),
{
    let seen = visited.push(id);
    assert forall|other: ObjectId, picture: Picture|
        found.visited.contains(other) && !visited.contains(other) && #[trigger] shows(
            document,
            other,
            picture,
        ) implies found.pictures.contains(picture) by {
        if other != id {
            assert(!seen.contains(other)) by {
                if seen.contains(other) {
                    let i = choose|i: int| 0 <= i < seen.len() && seen[i] == other;
                    assert(visited[i] == other);
                }
            }
        }
    }
}

proof fn lemma_faithful_collected(document: PdfDocument, object: PdfObject, visited: Seq<ObjectId>, out: Seq<Picture>)
    ensures
        is_faithful(document, collected(document, object, visited, out), visited, out),
    decreases unvisited(document.objects@, visited), 3int, object, 0int,
{
    let found = collected(document, object, visited, out);
    reveal(is_image_of);
    if out.len() < 96 {
        match object {
            PdfObject::Reference(id) => {
                if !visited.contains(id) {
                    if let Some(target) = fetched(document, id) {
                        lemma_visit(document.objects@, visited, id);
                        lemma_faithful_collected(document, target, visited.push(id), out);
                        if let PdfObject::Stream(stream) = target {
                            if has_name(stream.dict, "Subtype"@, "Image"@) {
                                lemma_faithful_stream(document, stream, visited.push(id), out);
                            }
                        }
                        lemma_faithful_visit(document, id, visited, out, found);
                    } else {
                        lemma_faithful_visit(document, id, visited, out, found);
                    }
                }
            },
            PdfObject::Array(items) => {
                lemma_faithful_all(document, items@, visited, out);
            },
            PdfObject::Dictionary(dict) => {
                if lookup(dict, "XObject"@) is Some {
                    let first = extracted(document, dict, visited, out);
                    lemma_extracted(document, dict, visited, out);
                    lemma_faithful_extracted(document, dict, visited, out);
                    if first.error is None {
                        lemma_unvisited_monotone(document.objects@, first.visited, visited);
                        lemma_collected_keys(document, dict, 0, first.visited, first.pictures);
                        lemma_faithful_keys(document, dict, 0, first.visited, first.pictures);
                        lemma_faithful_both(document, visited, out, first, found);
                    }
                } else {
                    lemma_faithful_keys(document, dict, 0, visited, out);
                }
            },
            PdfObject::Stream(stream) => {
                if has_name(stream.dict, "Subtype"@, "Image"@) {
                    lemma_faithful_stream(document, stream, visited, out);
                } else if let Some(resources) = lookup(stream.dict, "Resources"@) {
                    if let Some(dict) = resolved_dictionary(document, resources) {
                        lemma_faithful_extracted(document, dict, visited, out);
                    }
                }
            },
            _ => {},
        }
    }
}

proof fn lemma_faithful_all(document: PdfDocument, items: Seq<PdfObject>, visited: Seq<ObjectId>, out: Seq<Picture>)
    ensures
        is_faithful(document, collected_all(document, items, visited, out), visited, out),
    decreases unvisited(document.objects@, visited), 3int, items, 0int,
{
    if items.len() > 0 {
        let first = collected(document, items[0], visited, out);
        lemma_collected(document, items[0], visited, out);
        lemma_faithful_collected(document, items[0], visited, out);
        if first.error is None {
            lemma_unvisited_monotone(document.objects@, first.visited, visited);
            lemma_collected_all(document, items.drop_first(), first.visited, first.pictures);
            lemma_faithful_all(document, items.drop_first(), first.visited, first.pictures);
            lemma_faithful_both(document, visited, out, first, collected_all(document, items, visited, out));
        }
    }
}

proof fn lemma_faithful_keys(
    document: PdfDocument,
    dict: PdfDictionary,
    k: int,
    visited: Seq<ObjectId>,
    out: Seq<Picture>,
)
    ensures
        is_faithful(document, collected_keys(document, dict, k, visited, out), visited, out),
    decreases unvisited(document.objects@, visited), 3int, dict, 4 - k,
{
    if 0 <= k < 4 {
        match lookup(dict, annotation_key(k)) {
            Some(object) => {
                lemma_lookup_smaller(dict, annotation_key(k));
                let first = collected(document, object, visited, out);
                lemma_collected(document, object, visited, out);
                lemma_faithful_collected(document, object, visited, out);
                if first.error is None {
                    lemma_unvisited_monotone(document.objects@, first.visited, visited);
                    lemma_collected_keys(document, dict, k + 1, first.visited, first.pictures);
                    lemma_faithful_keys(document, dict, k + 1, first.visited, first.pictures);
                    lemma_faithful_both(document, visited, out, first, collected_keys(document, dict, k, visited, out));
                }
            },
            None => {
                lemma_faithful_keys(document, dict, k + 1, visited, out);
            },
        }
    }
}

proof fn lemma_faithful_extracted(
    document: PdfDocument,
    resources: PdfDictionary,
    visited: Seq<ObjectId>,
    out: Seq<Picture>,
)
    ensures
        is_faithful(document, extracted(document, resources, visited, out), visited, out),
    decreases unvisited(document.objects@, visited), 2int, resources, 0int,
{
    if out.len() < 96 {
        if let Some(object) = lookup(resources, "XObject"@) {
            if let Some(dict) = resolved_dictionary(document, object) {
                lemma_faithful_entries(document, dict.entries@, visited, out);
            }
        }
    }
}

proof fn lemma_faithful_entries(
    document: PdfDocument,
    entries: Seq<(Vec<u8>, PdfObject)>,
    visited: Seq<ObjectId>,
    out: Seq<Picture>,
)
    ensures
        is_faithful(document, extracted_entries(document, entries, visited, out), visited, out),
        extracted_entries(document, entries, visited, out).error is None ==> forall|i: int|
            0 <= i < entries.len() ==> ((#[trigger] entries[i]).1 matches PdfObject::Reference(id) ==> extracted_entries(
                document,
                entries,
                visited,
                out,
            ).visited.contains(id)),
    decreases unvisited(document.objects@, visited), 1int, entries, 0int,
{
    if entries.len() > 0 {
        let found = extracted_entries(document, entries, visited, out);
        let rest = entries.drop_first();
        match entries[0].1 {
            PdfObject::Reference(id) if !visited.contains(id) => {
                let first = extracted_object(document, id, visited, out);
                lemma_extracted_object(document, id, visited, out);
                lemma_faithful_object(document, id, visited, out);
                if first.error is None {
                    lemma_unvisited_monotone(document.objects@, first.visited, visited);
                    lemma_extracted_entries(document, rest, first.visited, first.pictures);
                    lemma_faithful_entries(document, rest, first.visited, first.pictures);
                    lemma_faithful_both(document, visited, out, first, found);
                    assert(found.visited.contains(id));
                    if found.error is None {
                        assert forall|i: int| 0 <= i < entries.len() implies ((#[trigger] entries[i]).1 matches PdfObject::Reference(
                            other,
                        ) ==> found.visited.contains(other)) by {
                            if i > 0 {
                                assert(rest[i - 1] == entries[i]);
                            }
                        }
                    }
                }
            },
            _ => {
                lemma_extracted_entries(document, rest, visited, out);
                lemma_faithful_entries(document, rest, visited, out);
                if found.error is None {
                    assert forall|i: int| 0 <= i < entries.len() implies ((#[trigger] entries[i]).1 matches PdfObject::Reference(
                        other,
                    ) ==> found.visited.contains(other)) by {
                        if i > 0 {
                            assert(rest[i - 1] == entries[i]);
                        }
                    }
                }
            },
        }
    }
}

proof fn lemma_faithful_object(document: PdfDocument, id: ObjectId, visited: Seq<ObjectId>, out: Seq<Picture>)
    requires
        !visited.contains(id),
    ensures
        is_faithful(document, extracted_object(document, id, visited, out), visited, out),
        extracted_object(document, id, visited, out).visited.contains(id),
    decreases unvisited(document.objects@, visited), 0int, id, 0int,
{
    let seen = visited.push(id);
    let found = extracted_object(document, id, visited, out);
    reveal(is_image_of);
    lemma_includes_push(visited, id);
    if let Some(PdfObject::Stream(stream)) = fetched(document, id) {
        lemma_visit(document.objects@, visited, id);
        if has_name(stream.dict, "Subtype"@, "Image"@) {
            lemma_faithful_stream(document, stream, seen, out);
        } else if let Some(resources) = lookup(stream.dict, "Resources"@) {
            if let Some(dict) = resolved_dictionary(document, resources) {
                lemma_faithful_extracted(document, dict, seen, out);
                lemma_extracted(document, dict, seen, out);
            }
        }
    }
    assert(found.visited.contains(id));
    lemma_faithful_visit(document, id, visited, out, found);
}

/// No image is passed over: every image that a search of an object, or of resources, visits for
/// the first time is among the pictures that it finds, also where it is broken off; and it finds
/// nothing but pictures of images of the document.
pub proof fn law_search_faithful(
    document: PdfDocument,
    object: PdfObject,
    resources: PdfDictionary,
    visited: Seq<ObjectId>,
    out: Seq<Picture>,
)
    ensures
        is_faithful(document, collected(document, object, visited, out), visited, out),
        is_faithful(document, extracted(document, resources, visited, out), visited, out),
{
    lemma_faithful_collected(document, object, visited, out);
    lemma_faithful_extracted(document, resources, visited, out);
}

/// Every image among the external objects of some resources is found, where the search of them
/// goes to its end.
pub proof fn law_resources_searched(
    document: PdfDocument,
    resources: PdfDictionary,
    objects: PdfDictionary,
    i: int,
    id: ObjectId,
    picture: Picture,
)
    requires
        lookup(resources, "XObject"@) is Some,
        resolved(document, lookup(resources, "XObject"@)->0) == Some(PdfObject::Dictionary(objects)),
        0 <= i < objects.entries@.len(),
        objects.entries@[i].1 == PdfObject::Reference(id),
        shows(document, id, picture),
        extracted(document, resources, Seq::empty(), Seq::empty()).error is None,
    ensures
        extracted(document, resources, Seq::empty(), Seq::empty()).pictures.contains(picture),
{
    let found = extracted(document, resources, Seq::empty(), Seq::empty());
    lemma_faithful_extracted(document, resources, Seq::empty(), Seq::empty());
    lemma_faithful_entries(document, objects.entries@, Seq::empty(), Seq::empty());
    assert(found.visited.contains(id));
}

/// Every image that the items of an array refer to is found, where the search of it goes to its
/// end and finds less than 96 pictures.
pub proof fn law_array_searched(
    document: PdfDocument,
    items: Vec<PdfObject>,
    i: int,
    id: ObjectId,
    picture: Picture,
    visited: Seq<ObjectId>,
    out: Seq<Picture>,
)
    requires
        0 <= i < items@.len(),
        items@[i] == PdfObject::Reference(id),
        !visited.contains(id),
        shows(document, id, picture),
        collected(document, PdfObject::Array(items), visited, out).error is None,
        collected(document, PdfObject::Array(items), visited, out).pictures.len() < 96,
    ensures
        collected(document, PdfObject::Array(items), visited, out).pictures.contains(picture),
{
    let found = collected(document, PdfObject::Array(items), visited, out);
    lemma_collected(document, PdfObject::Array(items), visited, out);
    lemma_faithful_collected(document, PdfObject::Array(items), visited, out);
    lemma_all_visited(document, items@, visited, out, i);
    assert(found.visited.contains(id));
}

proof fn lemma_all_visited(
    document: PdfDocument,
    items: Seq<PdfObject>,
    visited: Seq<ObjectId>,
    out: Seq<Picture>,
    i: int,
)
    requires
        0 <= i < items.len(),
        items[i] is Reference,
        collected_all(document, items, visited, out).error is None,
        collected_all(document, items, visited, out).pictures.len() < 96,
    ensures
        collected_all(document, items, visited, out).visited.contains(items[i]->Reference_0),
    decreases items.len(),
{
    let first = collected(document, items[0], visited, out);
    let rest = items.drop_first();
    lemma_collected(document, items[0], visited, out);
    lemma_unvisited_monotone(document.objects@, first.visited, visited);
    lemma_collected_all(document, rest, first.visited, first.pictures);
    let found = collected_all(document, rest, first.visited, first.pictures);
    if i > 0 {
        assert(rest[i - 1] == items[i]);
        lemma_all_visited(document, rest, first.visited, first.pictures, i - 1);
    } else {
        let id = items[0]->Reference_0;
        assert(out.len() < 96);
        if !visited.contains(id) {
            lemma_visit_known(document, id, visited, out);
        }
        assert(first.visited.contains(id));
    }
}

proof fn lemma_visit_known(document: PdfDocument, id: ObjectId, visited: Seq<ObjectId>, out: Seq<Picture>)
    requires
        out.len() < 96,
        !visited.contains(id),
    ensures
        collected(document, PdfObject::Reference(id), visited, out).visited.contains(id),
{
    lemma_includes_push(visited, id);
    if let Some(target) = fetched(document, id) {
        lemma_visit(document.objects@, visited, id);
        lemma_collected(document, target, visited.push(id), out);
    }
}

/// The appearances of an annotation are searched too: an image that one of them refers to is
/// found, where the search goes to its end and finds less than 96 pictures.
pub proof fn law_appearance_searched(
    document: PdfDocument,
    dict: PdfDictionary,
    k: int,
    id: ObjectId,
    picture: Picture,
)
    requires
        0 <= k < 4,
        lookup(dict, seq!["AP"@, "N"@, "R"@, "D"@][k]) == Some(PdfObject::Reference(id)),
        shows(document, id, picture),
        collected(document, PdfObject::Dictionary(dict), Seq::empty(), Seq::empty()).error is None,
        collected(document, PdfObject::Dictionary(dict), Seq::empty(), Seq::empty()).pictures.len() < 96,
    ensures
        collected(document, PdfObject::Dictionary(dict), Seq::empty(), Seq::empty()).pictures.contains(picture),
{
    let object = PdfObject::Dictionary(dict);
    let none = Seq::<ObjectId>::empty();
    let found = collected(document, object, none, Seq::empty());
    lemma_faithful_collected(document, object, none, Seq::empty());
    assert(annotation_key(k) == seq!["AP"@, "N"@, "R"@, "D"@][k]);
    if lookup(dict, "XObject"@) is Some {
        let first = extracted(document, dict, none, Seq::empty());
        lemma_extracted(document, dict, none, Seq::empty());
        lemma_unvisited_monotone(document.objects@, first.visited, none);
        lemma_key_visited(document, dict, 0, k, first.visited, first.pictures);
    } else {
        lemma_key_visited(document, dict, 0, k, none, Seq::empty());
    }
    assert(found.visited.contains(id));
}

proof fn lemma_key_visited(
    document: PdfDocument,
    dict: PdfDictionary,
    k: int,
    at: int,
    visited: Seq<ObjectId>,
    out: Seq<Picture>,
)
    requires
        0 <= k <= at < 4,
        lookup(dict, annotation_key(at)) is Some,
        lookup(dict, annotation_key(at))->0 is Reference,
        collected_keys(document, dict, k, visited, out).error is None,
        collected_keys(document, dict, k, visited, out).pictures.len() < 96,
    ensures
        collected_keys(document, dict, k, visited, out).visited.contains(
            lookup(dict, annotation_key(at))->0->Reference_0,
        ),
    decreases 4 - k,
{
    match lookup(dict, annotation_key(k)) {
        Some(object) => {
            let first = collected(document, object, visited, out);
            lemma_collected(document, object, visited, out);
            lemma_unvisited_monotone(document.objects@, first.visited, visited);
            lemma_collected_keys(document, dict, k + 1, first.visited, first.pictures);
            if k < at {
                lemma_key_visited(document, dict, k + 1, at, first.visited, first.pictures);
            } else {
                let id = object->Reference_0;
                if !visited.contains(id) {
                    lemma_visit_known(document, id, visited, out);
                }
                assert(first.visited.contains(id));
            }
        },
        None => {
            lemma_key_visited(document, dict, k + 1, at, visited, out);
        },
    }
}

/// Whether object `id` of a document is a form that has object `next` among its external objects.
#[verifier::opaque]
pub open spec fn leads(document: PdfDocument, id: ObjectId, next: ObjectId) -> bool {
    &&& fetched(document, id) matches Some(PdfObject::Stream(stream)) && form_draws(document, stream, next)
}

/// Whether a form has object `next` among its external objects.
pub open spec fn form_draws(document: PdfDocument, stream: PdfStream, next: ObjectId) -> bool {
    &&& has_name(stream.dict, "Subtype"@, "Form"@)
    &&& !has_name(stream.dict, "Subtype"@, "Image"@)
    &&& lookup(stream.dict, "Resources"@) matches Some(object) && resolved_dictionary(document, object) matches Some(
        resources,
    ) && draws(document, resources, next)
}

/// Whether some resources have object `next` among their external objects.
pub open spec fn draws(document: PdfDocument, resources: PdfDictionary, next: ObjectId) -> bool {
    lookup(resources, "XObject"@) matches Some(object) && resolved_dictionary(document, object) matches Some(objects)
        && exists|i: int| 0 <= i < objects.entries@.len() && (#[trigger] objects.entries@[i]).1 == PdfObject::Reference(next)
}

/// Where a search went to its end, and found less than 96 pictures, it visited the external
/// objects of every form that it visited first.
pub open spec fn is_thorough(document: PdfDocument, found: Found, before: Seq<ObjectId>) -> bool {
    found.error is None && found.pictures.len() < 96 ==> forall|id: ObjectId, next: ObjectId|
        found.visited.contains(id) && !before.contains(id) && #[trigger] leads(document, id, next)
            ==> found.visited.contains(next)
}

proof fn lemma_thorough_both(document: PdfDocument, visited: Seq<ObjectId>, one: Found, two: Found)
    requires
        one.error is None,
        is_thorough(document, one, visited),
        is_thorough(document, two, one.visited),
        includes(two.visited, one.visited),
        one.pictures.is_prefix_of(two.pictures),
    ensures
        is_thorough(document, two, visited),
{
    if two.error is None && two.pictures.len() < 96 {
        assert forall|id: ObjectId, next: ObjectId|
            two.visited.contains(id) && !visited.contains(id) && #[trigger] leads(
                document,
                id,
                next,
            ) implies two.visited.contains(next) by {
            if one.visited.contains(id) {
                assert(one.visited.contains(next));
            }
        }
    }
}

proof fn lemma_thorough_visit(document: PdfDocument, id: ObjectId, visited: Seq<ObjectId>, found: Found)
    requires
        is_thorough(document, found, visited.push(id)),
        found.error is None && found.pictures.len() < 96 ==> forall|next: ObjectId| #[trigger]
            leads(document, id, next) ==> found.visited.contains(next),
    ensures
        is_thorough(document, found, visited),
{
    let seen = visited.push(id);
    if found.error is None && found.pictures.len() < 96 {
        assert forall|other: ObjectId, next: ObjectId|
            found.visited.contains(other) && !visited.contains(other) && #[trigger] leads(
                document,
                other,
                next,
            ) implies found.visited.contains(next) by {
            if other != id {
                assert(!seen.contains(other)) by {
                    if seen.contains(other) {
                        let i = choose|i: int| 0 <= i < seen.len() && seen[i] == other;
                        assert(visited[i] == other);
                    }
                }
            }
        }
    }
}

/// A search of resources visits all their external objects, unless it is broken off or ends early.
proof fn lemma_drawn_visited(document: PdfDocument, resources: PdfDictionary, visited: Seq<ObjectId>, out: Seq<Picture>)
    ensures
        ({
            let found = extracted(document, resources, visited, out);
            found.error is None && found.pictures.len() < 96 ==> forall|next: ObjectId| #[trigger]
                draws(document, resources, next) ==> found.visited.contains(next)
        }),
{
    let found = extracted(document, resources, visited, out);
    lemma_extracted(document, resources, visited, out);
    if found.error is None && found.pictures.len() < 96 {
        if let Some(object) = lookup(resources, "XObject"@) {
            if let Some(objects) = resolved_dictionary(document, object) {
                lemma_faithful_entries(document, objects.entries@, visited, out);
                assert forall|next: ObjectId| #[trigger] draws(document, resources, next) implies found.visited.contains(
                    next,
                ) by {
                    let i = choose|i: int|
                        0 <= i < objects.entries@.len() && (#[trigger] objects.entries@[i]).1 == PdfObject::Reference(next);
                    assert(objects.entries@[i].1 == PdfObject::Reference(next));
                }
            }
        }
    }
}

proof fn lemma_thorough_collected(document: PdfDocument, object: PdfObject, visited: Seq<ObjectId>, out: Seq<Picture>)
    ensures
        is_thorough(document, collected(document, object, visited, out), visited),
    decreases unvisited(document.objects@, visited), 3int, object, 0int,
{
    let found = collected(document, object, visited, out);
    if out.len() < 96 {
        match object {
            PdfObject::Reference(id) => {
                if !visited.contains(id) {
                    reveal(leads);
                    if let Some(target) = fetched(document, id) {
                        lemma_visit(document.objects@, visited, id);
                        lemma_thorough_collected(document, target, visited.push(id), out);
                        if let PdfObject::Stream(stream) = target {
                            if let Some(resources) = lookup(stream.dict, "Resources"@) {
                                if let Some(dict) = resolved_dictionary(document, resources) {
                                    lemma_drawn_visited(document, dict, visited.push(id), out);
                                }
                            }
                        }
                    }
                    lemma_thorough_visit(document, id, visited, found);
                }
            },
            PdfObject::Array(items) => {
                lemma_thorough_all(document, items@, visited, out);
            },
            PdfObject::Dictionary(dict) => {
                if lookup(dict, "XObject"@) is Some {
                    let first = extracted(document, dict, visited, out);
                    lemma_extracted(document, dict, visited, out);
                    lemma_thorough_extracted(document, dict, visited, out);
                    if first.error is None {
                        lemma_unvisited_monotone(document.objects@, first.visited, visited);
                        lemma_collected_keys(document, dict, 0, first.visited, first.pictures);
                        lemma_thorough_keys(document, dict, 0, first.visited, first.pictures);
                        lemma_thorough_both(document, visited, first, found);
                    }
                } else {
                    lemma_thorough_keys(document, dict, 0, visited, out);
                }
            },
            PdfObject::Stream(stream) => {
                if let Some(resources) = lookup(stream.dict, "Resources"@) {
                    if let Some(dict) = resolved_dictionary(document, resources) {
                        lemma_thorough_extracted(document, dict, visited, out);
                    }
                }
            },
            _ => {},
        }
    }
}

proof fn lemma_thorough_all(document: PdfDocument, items: Seq<PdfObject>, visited: Seq<ObjectId>, out: Seq<Picture>)
    ensures
        is_thorough(document, collected_all(document, items, visited, out), visited),
    decreases unvisited(document.objects@, visited), 3int, items, 0int,
{
    if items.len() > 0 {
        let first = collected(document, items[0], visited, out);
        lemma_collected(document, items[0], visited, out);
        lemma_thorough_collected(document, items[0], visited, out);
        if first.error is None {
            lemma_unvisited_monotone(document.objects@, first.visited, visited);
            lemma_collected_all(document, items.drop_first(), first.visited, first.pictures);
            lemma_thorough_all(document, items.drop_first(), first.visited, first.pictures);
            lemma_thorough_both(document, visited, first, collected_all(document, items, visited, out));
        }
    }
}

proof fn lemma_thorough_keys(
    document: PdfDocument,
    dict: PdfDictionary,
    k: int,
    visited: Seq<ObjectId>,
    out: Seq<Picture>,
)
    ensures
        is_thorough(document, collected_keys(document, dict, k, visited, out), visited),
    decreases unvisited(document.objects@, visited), 3int, dict, 4 - k,
{
    if 0 <= k < 4 {
        match lookup(dict, annotation_key(k)) {
            Some(object) => {
                lemma_lookup_smaller(dict, annotation_key(k));
                let first = collected(document, object, visited, out);
                lemma_collected(document, object, visited, out);
                lemma_thorough_collected(document, object, visited, out);
                if first.error is None {
                    lemma_unvisited_monotone(document.objects@, first.visited, visited);
                    lemma_collected_keys(document, dict, k + 1, first.visited, first.pictures);
                    lemma_thorough_keys(document, dict, k + 1, first.visited, first.pictures);
                    lemma_thorough_both(document, visited, first, collected_keys(document, dict, k, visited, out));
                }
            },
            None => {
                lemma_thorough_keys(document, dict, k + 1, visited, out);
            },
        }
    }
}

proof fn lemma_thorough_extracted(
    document: PdfDocument,
    resources: PdfDictionary,
    visited: Seq<ObjectId>,
    out: Seq<Picture>,
)
    ensures
        is_thorough(document, extracted(document, resources, visited, out), visited),
    decreases unvisited(document.objects@, visited), 2int, resources, 0int,
{
    if out.len() < 96 {
        if let Some(object) = lookup(resources, "XObject"@) {
            if let Some(dict) = resolved_dictionary(document, object) {
                lemma_thorough_entries(document, dict.entries@, visited, out);
            }
        }
    }
}

proof fn lemma_thorough_entries(
    document: PdfDocument,
    entries: Seq<(Vec<u8>, PdfObject)>,
    visited: Seq<ObjectId>,
    out: Seq<Picture>,
)
    ensures
        is_thorough(document, extracted_entries(document, entries, visited, out), visited),
    decreases unvisited(document.objects@, visited), 1int, entries, 0int,
{
    if entries.len() > 0 {
        let rest = entries.drop_first();
        match entries[0].1 {
            PdfObject::Reference(id) if !visited.contains(id) => {
                let first = extracted_object(document, id, visited, out);
                lemma_extracted_object(document, id, visited, out);
                lemma_thorough_object(document, id, visited, out);
                if first.error is None {
                    lemma_unvisited_monotone(document.objects@, first.visited, visited);
                    lemma_extracted_entries(document, rest, first.visited, first.pictures);
                    lemma_thorough_entries(document, rest, first.visited, first.pictures);
                    lemma_thorough_both(document, visited, first, extracted_entries(document, entries, visited, out));
                }
            },
            _ => {
                lemma_thorough_entries(document, rest, visited, out);
            },
        }
    }
}

proof fn lemma_thorough_object(document: PdfDocument, id: ObjectId, visited: Seq<ObjectId>, out: Seq<Picture>)
    requires
        !visited.contains(id),
    ensures
        is_thorough(document, extracted_object(document, id, visited, out), visited),
    decreases unvisited(document.objects@, visited), 0int, id, 0int,
{
    let seen = visited.push(id);
    let found = extracted_object(document, id, visited, out);
    reveal(leads);
    if let Some(PdfObject::Stream(stream)) = fetched(document, id) {
        lemma_visit(document.objects@, visited, id);
        if let Some(resources) = lookup(stream.dict, "Resources"@) {
            if let Some(dict) = resolved_dictionary(document, resources) {
                lemma_thorough_extracted(document, dict, seen, out);
                lemma_drawn_visited(document, dict, seen, out);
            }
        }
    }
    lemma_thorough_visit(document, id, visited, found);
}

/// Forms are searched too, however deep they stand in each other: where a search goes to its end
/// and finds less than 96 pictures, it has visited the external objects of the resources, and of
/// every form that it visited; and so it has found the image that any of them is.
pub proof fn law_forms_searched(
    document: PdfDocument,
    object: PdfObject,
    resources: PdfDictionary,
    id: ObjectId,
    next: ObjectId,
    picture: Picture,
)
    ensures
        ({
            let none = Seq::<ObjectId>::empty();
            let found = extracted(document, resources, none, Seq::empty());
            found.error is None && found.pictures.len() < 96 ==> {
                &&& draws(document, resources, id) ==> found.visited.contains(id)
                &&& found.visited.contains(id) && leads(document, id, next) ==> found.visited.contains(next)
                &&& found.visited.contains(id) && shows(document, id, picture) ==> found.pictures.contains(picture)
            }
        }),
        ({
            let none = Seq::<ObjectId>::empty();
            let found = collected(document, object, none, Seq::empty());
            found.error is None && found.pictures.len() < 96 ==> {
                &&& found.visited.contains(id) && leads(document, id, next) ==> found.visited.contains(next)
                &&& found.visited.contains(id) && shows(document, id, picture) ==> found.pictures.contains(picture)
            }
        }),
{
    let none = Seq::<ObjectId>::empty();
    lemma_drawn_visited(document, resources, none, Seq::empty());
    lemma_thorough_extracted(document, resources, none, Seq::empty());
    lemma_faithful_extracted(document, resources, none, Seq::empty());
    lemma_thorough_collected(document, object, none, Seq::empty());
    lemma_faithful_collected(document, object, none, Seq::empty());
}

/// A form leads to each of its external objects.
pub proof fn law_form_leads(
    document: PdfDocument,
    id: ObjectId,
    stream: PdfStream,
    resources: PdfDictionary,
    objects: PdfDictionary,
    i: int,
    next: ObjectId,
)
    requires
        fetched(document, id) == Some(PdfObject::Stream(stream)),
        has_name(stream.dict, "Subtype"@, "Form"@),
        lookup(stream.dict, "Resources"@) is Some,
        resolved_dictionary(document, lookup(stream.dict, "Resources"@)->0) == Some(resources),
        lookup(resources, "XObject"@) is Some,
        resolved_dictionary(document, lookup(resources, "XObject"@)->0) == Some(objects),
        0 <= i < objects.entries@.len(),
        objects.entries@[i].1 == PdfObject::Reference(next),
    ensures
        leads(document, id, next),
{
    reveal(leads);
    reveal_strlit("Form");
    reveal_strlit("Image");
    encode_utf8_decode_utf8("Form"@);
    encode_utf8_decode_utf8("Image"@);
}

/// A reference is followed: searching it is searching what it refers to, once it was visited; and
/// searching what refers nowhere is an error.
pub proof fn law_reference_followed(
    document: PdfDocument,
    id: ObjectId,
    target: PdfObject,
    visited: Seq<ObjectId>,
    out: Seq<Picture>,
)
    requires
        out.len() < 96,
        !visited.contains(id),
    ensures
        fetched(document, id) == Some(target) ==> collected(document, PdfObject::Reference(id), visited, out)
            == collected(document, target, visited.push(id), out),
        fetched(document, id) is None ==> collected(document, PdfObject::Reference(id), visited, out).error == Some(
            PdfError::Unresolved,
        ),
{
    if fetched(document, id) is Some {
        lemma_visit(document.objects@, visited, id);
    }
}

/// The items of an array are searched one after the other, and the first error ends the search.
pub proof fn law_array_in_order(document: PdfDocument, items: Seq<PdfObject>, visited: Seq<ObjectId>, out: Seq<Picture>)
    requires
        items.len() > 0,
    ensures
        collected_all(document, Seq::empty(), visited, out) == done(visited, out),
        ({
            let first = collected(document, items[0], visited, out);
            collected_all(document, items, visited, out) == if first.error is None {
                collected_all(document, items.drop_first(), first.visited, first.pictures)
            } else {
                first
            }
        }),
{
    let first = collected(document, items[0], visited, out);
    lemma_collected(document, items[0], visited, out);
    lemma_unvisited_monotone(document.objects@, first.visited, visited);
}

} // verus!
