//! Reading the codes in an image.

use vstd::prelude::*;
use crate::candidates::{lossy_text, utf8_lossy};
use crate::raster::{Gray, GrayImage};
use crate::text::{insert_texts, is_text_set, law_text_set, law_with_texts, text_set, texts_of, with_texts};
use crate::variants::is_empty;

verus! {

/// What two readers may find in an image: for each code, its bytes or its text, where it can
/// be decoded.
pub struct Readers {
    pub first: spec_fn(Gray, Seq<Option<Seq<u8>>>) -> bool,
    pub second: spec_fn(Gray, Seq<Option<Seq<char>>>) -> bool,
}

/// Whether the first reader may find these codes in an image.
pub open spec fn first_finds(readers: Readers, image: Gray, codes: Seq<Option<Seq<u8>>>) -> bool {
    (readers.first)(image, codes)
}

/// Whether the second reader may find these codes in an image.
pub open spec fn second_finds(readers: Readers, image: Gray, codes: Seq<Option<Seq<char>>>) -> bool {
    (readers.second)(image, codes)
}

/// The bytes of some codes.
pub open spec fn payloads_of(codes: Seq<Option<Vec<u8>>>) -> Seq<Option<Seq<u8>>> {
    codes.map_values(
        |code: Option<Vec<u8>>|
            match code {
                Some(bytes) => Some(bytes@),
                None => None,
            },
    )
}

/// The texts of some codes.
pub open spec fn contents_of(codes: Seq<Option<String>>) -> Seq<Option<Seq<char>>> {
    codes.map_values(
        |code: Option<String>|
            match code {
                Some(text) => Some(text@),
                None => None,
            },
    )
}

/// The readers read every image with pixels.
pub open spec fn can_read<
    Q: Fn(&GrayImage) -> Vec<Option<Vec<u8>>>,
    R: Fn(&GrayImage) -> Vec<Option<String>>,
>(quirc: Q, rqrr: R) -> bool {
    &&& forall|gray: &GrayImage| gray@.wf() && !is_empty(gray@) ==> #[trigger] call_requires(quirc, (gray,))
    &&& forall|gray: &GrayImage| gray@.wf() && !is_empty(gray@) ==> #[trigger] call_requires(rqrr, (gray,))
}

/// Whether a reader may find these bytes in an image.
pub open spec fn may_find_bytes<Q: Fn(&GrayImage) -> Vec<Option<Vec<u8>>>>(
    quirc: Q,
    image: Gray,
    codes: Seq<Option<Seq<u8>>>,
) -> bool {
    exists|gray: &GrayImage, found: Vec<Option<Vec<u8>>>|
        gray@ == image && #[trigger] call_ensures(quirc, (gray,), found) && payloads_of(found@) == codes
}

/// Whether a reader may find these texts in an image.
pub open spec fn may_find_texts<R: Fn(&GrayImage) -> Vec<Option<String>>>(
    rqrr: R,
    image: Gray,
    codes: Seq<Option<Seq<char>>>,
) -> bool {
    exists|gray: &GrayImage, found: Vec<Option<String>>|
        gray@ == image && #[trigger] call_ensures(rqrr, (gray,), found) && contents_of(found@) == codes
}

/// What two readers may find.
pub open spec fn readers_of<
    Q: Fn(&GrayImage) -> Vec<Option<Vec<u8>>>,
    R: Fn(&GrayImage) -> Vec<Option<String>>,
>(quirc: Q, rqrr: R) -> Readers {
    Readers {
        first: |image: Gray, codes: Seq<Option<Seq<u8>>>| may_find_bytes(quirc, image, codes),
        second: |image: Gray, codes: Seq<Option<Seq<char>>>| may_find_texts(rqrr, image, codes),
    }
}

/// The texts of the codes whose bytes are known.
pub open spec fn payload_texts(codes: Seq<Option<Seq<u8>>>) -> Seq<Seq<char>>
    decreases codes.len(),
{
    if codes.len() == 0 {
        Seq::empty()
    } else {
        match codes.last() {
            Some(bytes) => payload_texts(codes.drop_last()).push(utf8_lossy(bytes)),
            None => payload_texts(codes.drop_last()),
        }
    }
}

/// The texts of the codes whose text is known and not empty.
pub open spec fn content_texts(codes: Seq<Option<Seq<char>>>) -> Seq<Seq<char>>
    decreases codes.len(),
{
    if codes.len() == 0 {
        Seq::empty()
    } else {
        match codes.last() {
            Some(text) if text.len() > 0 => content_texts(codes.drop_last()).push(text),
            _ => content_texts(codes.drop_last()),
        }
    }
}

/// The texts that the first reader finds.
pub fn decode_single_pass<Q: Fn(&GrayImage) -> Vec<Option<Vec<u8>>>>(gray: &GrayImage, quirc: &Q) -> (r: Vec<String>)
    requires
        call_requires(*quirc, (gray,)),
    ensures
        exists|codes: Seq<Option<Seq<u8>>>| #[trigger]
            may_find_bytes(*quirc, gray@, codes) && texts_of(r@) == payload_texts(codes),
{
    let codes: Vec<Option<Vec<u8>>> = quirc(gray);
    assert(may_find_bytes(*quirc, gray@, payloads_of(codes@)));
    known_payloads(&codes)
}

/// The texts of the codes whose bytes are known.
pub fn known_payloads(codes: &Vec<Option<Vec<u8>>>) -> (r: Vec<String>)
    ensures
        texts_of(r@) == payload_texts(payloads_of(codes@)),
{
    let ghost all = payloads_of(codes@);
    let mut out: Vec<String> = Vec::new();
    assert(texts_of(out@) =~= Seq::<Seq<char>>::empty());
    for i in 0..codes.len()
        invariant
            all == payloads_of(codes@),
            texts_of(out@) == payload_texts(all.take(i as int)),
    {
        assert(all.take(i + 1).drop_last() =~= all.take(i as int));
        if let Some(bytes) = &codes[i] {
            let ghost before = texts_of(out@);
            let text: String = lossy_text(bytes.as_slice());
            out.push(text);
            assert(texts_of(out@) =~= before.push(utf8_lossy(bytes@)));
        }
    }
    assert(all.take(codes@.len() as int) =~= all);
    out
}

/// The texts that the second reader finds.
pub fn decode_rqrr_pass<R: Fn(&GrayImage) -> Vec<Option<String>>>(gray: &GrayImage, rqrr: &R) -> (r: Vec<String>)
    requires
        call_requires(*rqrr, (gray,)),
    ensures
        exists|codes: Seq<Option<Seq<char>>>| #[trigger]
            may_find_texts(*rqrr, gray@, codes) && texts_of(r@) == content_texts(codes),
{
    let codes: Vec<Option<String>> = rqrr(gray);
    assert(may_find_texts(*rqrr, gray@, contents_of(codes@)));
    known_contents(&codes)
}

/// The texts of the codes whose text is known and not empty.
pub fn known_contents(codes: &Vec<Option<String>>) -> (r: Vec<String>)
    ensures
        texts_of(r@) == content_texts(contents_of(codes@)),
{
    let ghost all = contents_of(codes@);
    let mut out: Vec<String> = Vec::new();
    assert(texts_of(out@) =~= Seq::<Seq<char>>::empty());
    for i in 0..codes.len()
        invariant
            all == contents_of(codes@),
            texts_of(out@) == content_texts(all.take(i as int)),
    {
        assert(all.take(i + 1).drop_last() =~= all.take(i as int));
        if let Some(text) = &codes[i] {
            if !text.as_str().is_empty() {
                let ghost before = texts_of(out@);
                out.push(text.clone());
                assert(texts_of(out@) =~= before.push(text@));
            }
        }
    }
    assert(all.take(codes@.len() as int) =~= all);
    out
}

/// Whether `texts` may be the set of texts that two readers find in an image with pixels, in
/// order: those of the first and, where the search is aggressive, those of the second.
pub open spec fn read_outcome(readers: Readers, image: Gray, aggressive: bool, texts: Seq<Seq<char>>) -> bool {
    exists|bytes: Seq<Option<Seq<u8>>>|
        {
            let found = text_set(payload_texts(bytes));
            &&& #[trigger] first_finds(readers, image, bytes)
            &&& if aggressive {
                exists|codes: Seq<Option<Seq<char>>>| #[trigger]
                    second_finds(readers, image, codes) && texts == with_texts(found, content_texts(codes))
            } else {
                texts == found
            }
        }
}

/// Whether `texts` may be the set of texts in an image. An image without pixels has none.
pub open spec fn texts_outcome(readers: Readers, image: Gray, aggressive: bool, texts: Seq<Seq<char>>) -> bool {
    if is_empty(image) {
        texts == Seq::<Seq<char>>::empty()
    } else {
        read_outcome(readers, image, aggressive, texts)
    }
}

/// The set of texts in an image.
pub fn run_decoders<
    Q: Fn(&GrayImage) -> Vec<Option<Vec<u8>>>,
    R: Fn(&GrayImage) -> Vec<Option<String>>,
>(gray: &GrayImage, aggressive: bool, quirc: &Q, rqrr: &R) -> (r: Vec<String>)
    requires
        gray@.wf(),
        can_read(*quirc, *rqrr),
    ensures
        texts_outcome(readers_of(*quirc, *rqrr), gray@, aggressive, texts_of(r@)),
{
    let ghost readers = readers_of(*quirc, *rqrr);
    let mut out: Vec<String> = Vec::new();
    assert(texts_of(out@) =~= Seq::<Seq<char>>::empty());
    if gray.width == 0 || gray.height == 0 {
        return out;
    }
    let first: Vec<String> = decode_single_pass(gray, quirc);
    let ghost bytes = choose|codes: Seq<Option<Seq<u8>>>| #[trigger]
        may_find_bytes(*quirc, gray@, codes) && texts_of(first@) == payload_texts(codes);
    assert(first_finds(readers, gray@, bytes));
    insert_texts(&mut out, &first);
    if aggressive {
        let second: Vec<String> = decode_rqrr_pass(gray, rqrr);
        insert_texts(&mut out, &second);
        proof {
            let codes = choose|codes: Seq<Option<Seq<char>>>| #[trigger]
                may_find_texts(*rqrr, gray@, codes) && texts_of(second@) == content_texts(codes);
            assert(second_finds(readers, gray@, codes));
        }
    }
    out
}

/// The texts in an image are a set in order.
pub proof fn law_texts_in(readers: Readers, image: Gray, aggressive: bool, texts: Seq<Seq<char>>)
    requires
        texts_outcome(readers, image, aggressive, texts),
    ensures
        is_text_set(texts),
{
    if !is_empty(image) {
        let bytes = choose|bytes: Seq<Option<Seq<u8>>>|
            {
                let found = text_set(payload_texts(bytes));
                &&& #[trigger] first_finds(readers, image, bytes)
                &&& if aggressive {
                    exists|codes: Seq<Option<Seq<char>>>| #[trigger]
                        second_finds(readers, image, codes) && texts == with_texts(found, content_texts(codes))
                } else {
                    texts == found
                }
            };
        let found = text_set(payload_texts(bytes));
        law_text_set(payload_texts(bytes));
        if aggressive {
            let codes = choose|codes: Seq<Option<Seq<char>>>| #[trigger]
                second_finds(readers, image, codes) && texts == with_texts(found, content_texts(codes));
            law_with_texts(found, content_texts(codes));
        }
    }
}

/// An aggressive search of an image finds whatever a fast one finds there, where the first
/// reader always finds the same in it.
pub proof fn law_aggressive_finds_more(
    readers: Readers,
    image: Gray,
    bytes: Seq<Option<Seq<u8>>>,
    fast: Seq<Seq<char>>,
    all: Seq<Seq<char>>,
    text: Seq<char>,
)
    requires
        forall|codes: Seq<Option<Seq<u8>>>| #[trigger] first_finds(readers, image, codes) ==> codes == bytes,
        texts_outcome(readers, image, false, fast),
        texts_outcome(readers, image, true, all),
        fast.contains(text),
    ensures
        all.contains(text),
{
    let found = text_set(payload_texts(bytes));
    law_text_set(payload_texts(bytes));
    if !is_empty(image) {
        assert(fast == found);
        let codes = choose|codes: Seq<Option<Seq<char>>>| #[trigger]
            second_finds(readers, image, codes) && all == with_texts(found, content_texts(codes));
        law_with_texts(found, content_texts(codes));
    }
}

proof fn lemma_payload_texts(codes: Seq<Option<Seq<u8>>>, text: Seq<char>)
    ensures
        payload_texts(codes).contains(text) <==> exists|i: int|
            0 <= i < codes.len() && (#[trigger] codes[i] matches Some(bytes) && text == utf8_lossy(bytes)),
    decreases codes.len(),
{
    if codes.len() > 0 {
        let head = codes.drop_last();
        let some = payload_texts(head);
        let all = payload_texts(codes);
        lemma_payload_texts(head, text);
        assert(codes[codes.len() - 1] == codes.last());
        if some.contains(text) {
            let i = choose|i: int|
                0 <= i < head.len() && (#[trigger] head[i] matches Some(bytes) && text == utf8_lossy(bytes));
            assert(codes[i] == head[i]);
            let k = choose|k: int| 0 <= k < some.len() && some[k] == text;
            assert(all[k] == text);
        }
        if let Some(bytes) = codes.last() {
            assert(all[some.len() as int] == utf8_lossy(bytes));
        }
        if all.contains(text) && !some.contains(text) {
            let k = choose|k: int| 0 <= k < all.len() && all[k] == text;
            if k < some.len() {
                assert(some[k] == text);
            }
        }
        if exists|i: int|
            0 <= i < codes.len() && (#[trigger] codes[i] matches Some(bytes) && text == utf8_lossy(bytes)) {
            let i = choose|i: int|
                0 <= i < codes.len() && (#[trigger] codes[i] matches Some(bytes) && text == utf8_lossy(bytes));
            if i < head.len() {
                assert(head[i] == codes[i]);
            }
        }
    }
}

proof fn lemma_content_texts(codes: Seq<Option<Seq<char>>>, text: Seq<char>)
    ensures
        content_texts(codes).contains(text) <==> text.len() > 0 && exists|i: int|
            0 <= i < codes.len() && #[trigger] codes[i] == Some(text),
    decreases codes.len(),
{
    if codes.len() > 0 {
        let head = codes.drop_last();
        let some = content_texts(head);
        let all = content_texts(codes);
        lemma_content_texts(head, text);
        assert(codes[codes.len() - 1] == codes.last());
        if some.contains(text) {
            let i = choose|i: int| 0 <= i < head.len() && #[trigger] head[i] == Some(text);
            assert(codes[i] == head[i]);
            let k = choose|k: int| 0 <= k < some.len() && some[k] == text;
            assert(all[k] == text);
        }
        if codes.last() == Some(text) && text.len() > 0 {
            assert(all[some.len() as int] == text);
        }
        if all.contains(text) && !some.contains(text) {
            let k = choose|k: int| 0 <= k < all.len() && all[k] == text;
            if k < some.len() {
                assert(some[k] == text);
            }
        }
        if exists|i: int| 0 <= i < codes.len() && #[trigger] codes[i] == Some(text) {
            let i = choose|i: int| 0 <= i < codes.len() && #[trigger] codes[i] == Some(text);
            if i < head.len() {
                assert(head[i] == codes[i]);
            }
        }
    }
}

/// Whether a text is that of a code that a reader of bytes found.
pub open spec fn in_bytes(codes: Seq<Option<Seq<u8>>>, text: Seq<char>) -> bool {
    exists|i: int| 0 <= i < codes.len() && (#[trigger] codes[i] matches Some(bytes) && text == utf8_lossy(bytes))
}

/// Whether a text is that of a code that a reader of texts found, and not empty.
pub open spec fn in_texts(codes: Seq<Option<Seq<char>>>, text: Seq<char>) -> bool {
    text.len() > 0 && exists|i: int| 0 <= i < codes.len() && #[trigger] codes[i] == Some(text)
}

/// What is read in an image with pixels is just what its readers find there, each text once: in a
/// fast search what the first reader finds, in an aggressive one what either of them finds. No
/// code that was decoded is left out.
pub proof fn law_all_codes_read(readers: Readers, image: Gray, aggressive: bool, texts: Seq<Seq<char>>)
    requires
        texts_outcome(readers, image, aggressive, texts),
        image.width > 0,
        image.height > 0,
    ensures
        !aggressive ==> exists|bytes: Seq<Option<Seq<u8>>>| #[trigger]
            first_finds(readers, image, bytes) && forall|text: Seq<char>|
                #[trigger] texts.contains(text) <==> in_bytes(bytes, text),
        aggressive ==> exists|bytes: Seq<Option<Seq<u8>>>, codes: Seq<Option<Seq<char>>>|
            #[trigger] first_finds(readers, image, bytes) && #[trigger] second_finds(readers, image, codes) && forall|
                text: Seq<char>,
            |
                #[trigger] texts.contains(text) <==> in_bytes(bytes, text) || in_texts(codes, text),
{
    let bytes = choose|bytes: Seq<Option<Seq<u8>>>|
        {
            let found = text_set(payload_texts(bytes));
            &&& #[trigger] first_finds(readers, image, bytes)
            &&& if aggressive {
                exists|codes: Seq<Option<Seq<char>>>| #[trigger]
                    second_finds(readers, image, codes) && texts == with_texts(found, content_texts(codes))
            } else {
                texts == found
            }
        };
    let found = text_set(payload_texts(bytes));
    law_text_set(payload_texts(bytes));
    assert forall|text: Seq<char>| #[trigger] found.contains(text) <==> in_bytes(bytes, text) by {
        lemma_payload_texts(bytes, text);
    }
    if aggressive {
        let codes = choose|codes: Seq<Option<Seq<char>>>| #[trigger]
            second_finds(readers, image, codes) && texts == with_texts(found, content_texts(codes));
        law_with_texts(found, content_texts(codes));
        assert forall|text: Seq<char>| #[trigger] texts.contains(text) <==> in_bytes(bytes, text) || in_texts(
            codes,
            text,
        ) by {
            lemma_content_texts(codes, text);
            assert(found.contains(text) <==> in_bytes(bytes, text));
        }
    } else {
        assert(first_finds(readers, image, bytes));
    }
}

/// Nothing is read in an image without pixels.
pub proof fn law_nothing_in_nothing(readers: Readers, image: Gray, aggressive: bool, texts: Seq<Seq<char>>)
    requires
        image.width == 0 || image.height == 0,
    ensures
        texts_outcome(readers, image, aggressive, texts) <==> texts.len() == 0,
{
    if texts.len() == 0 {
        assert(texts =~= Seq::<Seq<char>>::empty());
    }
}

/// The bytes and the texts of some codes are those of each of them, in order.
pub proof fn law_codes(payloads: Seq<Option<Vec<u8>>>, contents: Seq<Option<String>>)
    ensures
        payloads_of(payloads).len() == payloads.len(),
        forall|i: int|
            0 <= i < payloads.len() ==> (payloads_of(payloads)[i] is Some <==> #[trigger] payloads[i] is Some) && (
            payloads[i] matches Some(bytes) ==> payloads_of(payloads)[i] == Some(bytes@)),
        contents_of(contents).len() == contents.len(),
        forall|i: int|
            0 <= i < contents.len() ==> (contents_of(contents)[i] is Some <==> #[trigger] contents[i] is Some) && (
            contents[i] matches Some(text) ==> contents_of(contents)[i] == Some(text@)),
{
}

} // verus!
