//! The search for codes in an image: what is tried, in which order, and when it ends.

use vstd::prelude::*;
use crate::codes::{can_read, first_finds, law_texts_in, payload_texts, readers_of, run_decoders, texts_outcome, Readers};
use crate::float::{Binary, Float};
use crate::picture::{luma_outcome, rgb_outcome, DynamicImage, Picture};
use crate::raster::{is_countable, Gray, GrayImage, Rgb};
use crate::scale::{lemma_one_is_near, normalize_gray_input, normalized_outcome, one, resize_with_scale, scale_one,
    scale_three_halves, scale_two, scaled_outcome, three_halves, two};
use crate::text::{is_text_set, law_text_set, text_set, texts_of};
use crate::variants::{all_gray_wf, all_normalized, all_variants, build_fast_gray_variants, build_gray_variants,
    build_rendered_variants, channels, channels_outcome, crop_variants, crops, dynamic_gray_candidates, fast_variants,
    grays_of, orientations, oriented_variants, rendered_variants, tile_variants, tiles};

verus! {

/// An image to try: a gray image, scaled by a factor where one is given.
pub struct Attempt {
    pub source: Gray,
    pub scale: Option<Binary>,
}

/// Whether `image` may be the image that an attempt reads.
pub open spec fn attempt_outcome(attempt: Attempt, image: Gray) -> bool {
    match attempt.scale {
        Some(scale) => scaled_outcome(attempt.source, scale, image),
        None => image == attempt.source,
    }
}

/// Whether some texts may be those read in an image.
pub type Reads = spec_fn(Gray, Seq<Seq<char>>) -> bool;

/// Whether `texts` may be read in an image.
pub open spec fn may_read(reads: Reads, image: Gray, texts: Seq<Seq<char>>) -> bool {
    reads(image, texts)
}

/// What may be read with a second quirc, rqrr.
pub open spec fn reads_with(readers: Readers, aggressive: bool) -> Reads {
    |image: Gray, texts: Seq<Seq<char>>| texts_outcome(readers, image, aggressive, texts)
}

/// Whether `found` may be the texts that a search finds: those of the first attempt that has
/// any, among the first `limit` attempts; or none, where none of these has any.
pub open spec fn search_outcome(attempts: Seq<Attempt>, limit: nat, reads: Reads, found: Seq<Seq<char>>) -> bool
    decreases limit,
{
    if limit == 0 || attempts.len() == 0 {
        found.len() == 0
    } else {
        exists|image: Gray, texts: Seq<Seq<char>>|
            {
                &&& #[trigger] attempt_outcome(attempts[0], image)
                &&& #[trigger] may_read(reads, image, texts)
                &&& if texts.len() > 0 {
                    found == texts
                } else {
                    search_outcome(attempts.drop_first(), (limit - 1) as nat, reads, found)
                }
            }
    }
}

/// What the search of the rest may find, the whole search may find.
pub open spec fn leads_to(
    attempts: Seq<Attempt>,
    limit: nat,
    rest: Seq<Attempt>,
    left: nat,
    reads: Reads,
) -> bool {
    forall|found: Seq<Seq<char>>|
        search_outcome(rest, left, reads, found) ==> #[trigger] search_outcome(
            attempts,
            limit,
            reads,
            found,
        )
}

/// Some attempts were made, and these texts were found with them; or none were, and so many
/// attempts are left.
pub open spec fn searched(
    attempts: Seq<Attempt>,
    limit: nat,
    reads: Reads,
    found: Option<Seq<Seq<char>>>,
    left: nat,
) -> bool {
    match found {
        Some(texts) => texts.len() > 0 && forall|rest: Seq<Attempt>|
            search_outcome(#[trigger] (attempts + rest), limit, reads, texts),
        None => forall|rest: Seq<Attempt>| leads_to(#[trigger] (attempts + rest), limit, rest, left, reads),
    }
}

proof fn lemma_searched_nothing(limit: nat, reads: Reads)
    ensures
        searched(Seq::empty(), limit, reads, None, limit),
{
    assert forall|rest: Seq<Attempt>| leads_to(
        #[trigger] (Seq::<Attempt>::empty() + rest),
        limit,
        rest,
        limit,
        reads,
    ) by {
        assert(Seq::<Attempt>::empty() + rest =~= rest);
    }
}

proof fn lemma_searched_exhausted(attempts: Seq<Attempt>, reads: Reads)
    ensures
        searched(attempts, 0, reads, None, 0),
{
}

proof fn lemma_searched_one(attempt: Attempt, limit: nat, reads: Reads, image: Gray, texts: Seq<Seq<char>>)
    requires
        limit > 0,
        attempt_outcome(attempt, image),
        may_read(reads, image, texts),
    ensures
        texts.len() > 0 ==> searched(
            seq![attempt],
            limit,
            reads,
            Some(texts),
            (limit - 1) as nat,
        ),
        texts.len() == 0 ==> searched(
            seq![attempt],
            limit,
            reads,
            None,
            (limit - 1) as nat,
        ),
{
    assert forall|rest: Seq<Attempt>| texts.len() > 0 implies search_outcome(
        #[trigger] (seq![attempt] + rest),
        limit,
        reads,
        texts,
    ) by {
        assert((seq![attempt] + rest)[0] == attempt);
        assert(attempt_outcome((seq![attempt] + rest)[0], image));
    }
    assert forall|rest: Seq<Attempt>| texts.len() == 0 implies leads_to(
        #[trigger] (seq![attempt] + rest),
        limit,
        rest,
        (limit - 1) as nat,
        reads,
    ) by {
        let all = seq![attempt] + rest;
        assert(all[0] == attempt);
        assert(all.drop_first() =~= rest);
        assert forall|found: Seq<Seq<char>>| search_outcome(
            rest,
            (limit - 1) as nat,
            reads,
            found,
        ) implies #[trigger] search_outcome(all, limit, reads, found) by {
            assert(attempt_outcome(all[0], image));
        }
    }
}

proof fn lemma_searched_both(
    first: Seq<Attempt>,
    second: Seq<Attempt>,
    limit: nat,
    reads: Reads,
    middle: nat,
    found: Option<Seq<Seq<char>>>,
    left: nat,
)
    requires
        searched(first, limit, reads, None, middle),
        searched(second, middle, reads, found, left),
    ensures
        searched(first + second, limit, reads, found, left),
{
    assert forall|rest: Seq<Attempt>| true implies (match found {
        Some(texts) => search_outcome(#[trigger] (first + second + rest), limit, reads, texts),
        None => leads_to(first + second + rest, limit, rest, left, reads),
    }) by {
        assert(first + second + rest =~= first + (second + rest));
        assert(leads_to(first + (second + rest), limit, second + rest, middle, reads));
        match found {
            Some(texts) => {
                assert(search_outcome(second + rest, middle, reads, texts));
                assert(search_outcome(first + (second + rest), limit, reads, texts));
            },
            None => {
                assert(leads_to(second + rest, middle, rest, left, reads));
                assert forall|texts: Seq<Seq<char>>| search_outcome(
                    rest,
                    left,
                    reads,
                    texts,
                ) implies #[trigger] search_outcome(first + (second + rest), limit, reads, texts) by {
                    assert(search_outcome(second + rest, middle, reads, texts));
                }
            },
        }
    }
}

proof fn lemma_searched_early(
    first: Seq<Attempt>,
    second: Seq<Attempt>,
    limit: nat,
    reads: Reads,
    found: Seq<Seq<char>>,
    left: nat,
)
    requires
        searched(first, limit, reads, Some(found), left),
    ensures
        searched(first + second, limit, reads, Some(found), left),
{
    assert forall|rest: Seq<Attempt>| search_outcome(
        #[trigger] (first + second + rest),
        limit,
        reads,
        found,
    ) by {
        assert(first + second + rest =~= first + (second + rest));
    }
}

/// The factors by which an image is scaled.
pub open spec fn scales(aggressive: bool) -> Seq<Binary> {
    if aggressive {
        seq![one(), three_halves(), two()]
    } else {
        seq![one(), three_halves()]
    }
}

/// The attempts on an image with some factors.
pub open spec fn attempts_at(gray: Gray, factors: Seq<Binary>) -> Seq<Attempt> {
    factors.map_values(|scale: Binary| Attempt { source: gray, scale: Some(scale) })
}

/// The attempts on an image in some positions, each with all factors.
pub open spec fn scaled_attempts(positions: Seq<Gray>, factors: Seq<Binary>) -> Seq<Attempt>
    decreases positions.len(),
{
    if positions.len() == 0 {
        Seq::empty()
    } else {
        scaled_attempts(positions.drop_last(), factors) + attempts_at(positions.last(), factors)
    }
}

/// The attempts on images as they are.
pub open spec fn plain_attempts(images: Seq<Gray>) -> Seq<Attempt> {
    images.map_values(|image: Gray| Attempt { source: image, scale: None })
}

/// The attempts on the tiles of some images.
pub open spec fn tile_attempts(images: Seq<Gray>) -> Seq<Attempt>
    decreases images.len(),
{
    if images.len() == 0 {
        Seq::empty()
    } else {
        tile_attempts(images.drop_last()) + plain_attempts(tiles(images.last()))
    }
}

/// The attempts on the tiles of the parts of some images.
pub open spec fn crop_attempts(images: Seq<Gray>) -> Seq<Attempt>
    decreases images.len(),
{
    if images.len() == 0 {
        Seq::empty()
    } else {
        crop_attempts(images.drop_last()) + tile_attempts(crops(images.last()))
    }
}

/// The attempts on a variant of an image: in all positions and sizes, and then, where the
/// search is aggressive, on parts of it.
pub open spec fn variant_attempts(variant: Gray, aggressive: bool) -> Seq<Attempt> {
    let positions = orientations(variant, aggressive);
    let whole = scaled_attempts(positions, scales(aggressive));
    if aggressive {
        whole + crop_attempts(positions)
    } else {
        whole
    }
}

/// The attempts on some variants of an image.
pub open spec fn all_attempts(variants: Seq<Gray>, aggressive: bool) -> Seq<Attempt>
    decreases variants.len(),
{
    if variants.len() == 0 {
        Seq::empty()
    } else {
        all_attempts(variants.drop_last(), aggressive) + variant_attempts(variants.last(), aggressive)
    }
}

/// The most attempts of a search.
pub open spec fn attempt_limit(aggressive: bool) -> nat {
    if aggressive {
        80
    } else {
        20
    }
}

/// Whether `found` may be the texts that the search of an image finds.
pub open spec fn with_outcome(readers: Readers, gray: Gray, aggressive: bool, found: Seq<Seq<char>>) -> bool {
    let variants = if aggressive { all_variants(gray) } else { fast_variants(gray) };
    search_outcome(
        all_attempts(variants, aggressive),
        attempt_limit(aggressive),
        reads_with(readers, aggressive),
        found,
    )
}

/// The texts found so far, if any were.
pub open spec fn found_texts(found: Option<Vec<String>>) -> Option<Seq<Seq<char>>> {
    match found {
        Some(texts) => Some(texts_of(texts@)),
        None => None,
    }
}

/// The factors by which an image is scaled.
fn scale_list(aggressive: bool) -> (r: Vec<Float>)
    ensures
        r@.len() == scales(aggressive).len(),
        forall|i: int| 0 <= i < r@.len() ==> (#[trigger] r@[i])@ == scales(aggressive)[i],
{
    let mut out: Vec<Float> = Vec::new();
    out.push(scale_one());
    out.push(scale_three_halves());
    if aggressive {
        out.push(scale_two());
    }
    out
}

/// Tries an image with all factors.
fn search_scales<
    Q: Fn(&GrayImage) -> Vec<Option<Vec<u8>>>,
    R: Fn(&GrayImage) -> Vec<Option<String>>,
>(
    gray: &GrayImage,
    aggressive: bool,
    limit: usize,
    quirc: &Q,
    rqrr: &R,
) -> (r: (Option<Vec<String>>, usize))
    requires
        gray@.wf(),
        can_read(*quirc, *rqrr),
    ensures
        searched(
            attempts_at(gray@, scales(aggressive)),
            limit as nat,
            reads_with(readers_of(*quirc, *rqrr), aggressive),
            found_texts(r.0),
            r.1 as nat,
        ),
{
    let ghost reads = reads_with(readers_of(*quirc, *rqrr), aggressive);
    let factors: Vec<Float> = scale_list(aggressive);
    let ghost all = attempts_at(gray@, scales(aggressive));
    let mut left: usize = limit;
    proof {
        lemma_searched_nothing(limit as nat, reads);
        assert(all.take(0) =~= Seq::empty());
    }
    for i in 0..factors.len()
        invariant
            reads == reads_with(readers_of(*quirc, *rqrr), aggressive),
            gray@.wf(),
            can_read(*quirc, *rqrr),
            factors@.len() == scales(aggressive).len(),
            forall|k: int| 0 <= k < factors@.len() ==> (#[trigger] factors@[k])@ == scales(aggressive)[k],
            all == attempts_at(gray@, scales(aggressive)),
            searched(all.take(i as int), limit as nat, reads, None, left as nat),
    {
        let ghost tail = all.subrange(i as int, all.len() as int);
        assert(all.take(i as int) + tail =~= all);
        if left == 0 {
            proof {
                lemma_searched_exhausted(tail, reads);
                lemma_searched_both(all.take(i as int), tail, limit as nat, reads, 0, None, 0);
            }
            return (None, 0);
        }
        let image: GrayImage = resize_with_scale(gray, factors[i]);
        let texts: Vec<String> = run_decoders(&image, aggressive, quirc, rqrr);
        let ghost rest = all.subrange(i + 1, all.len() as int);
        proof {
            let attempt = all[i as int];
            assert(attempt == (Attempt { source: gray@, scale: Some(factors@[i as int]@) }));
            assert(may_read(reads, image@, texts_of(texts@)));
            lemma_searched_one(attempt, left as nat, reads, image@, texts_of(texts@));
            assert(all.take(i as int) + seq![attempt] =~= all.take(i + 1));
            assert(all.take(i + 1) + rest =~= all);
        }
        left = left - 1;
        if texts.len() > 0 {
            proof {
                lemma_searched_both(
                    all.take(i as int),
                    seq![all[i as int]],
                    limit as nat,
                    reads,
                    (left + 1) as nat,
                    Some(texts_of(texts@)),
                    left as nat,
                );
                lemma_searched_early(
                    all.take(i + 1),
                    rest,
                    limit as nat,
                    reads,
                    texts_of(texts@),
                    left as nat,
                );
            }
            return (Some(texts), left);
        }
        proof {
            lemma_searched_both(
                all.take(i as int),
                seq![all[i as int]],
                limit as nat,
                reads,
                (left + 1) as nat,
                None,
                left as nat,
            );
        }
    }
    assert(all.take(all.len() as int) =~= all);
    (None, left)
}

/// Tries images as they are, aggressively.
fn search_images<
    Q: Fn(&GrayImage) -> Vec<Option<Vec<u8>>>,
    R: Fn(&GrayImage) -> Vec<Option<String>>,
>(
    images: &Vec<GrayImage>,
    limit: usize,
    quirc: &Q,
    rqrr: &R,
) -> (r: (Option<Vec<String>>, usize))
    requires
        all_gray_wf(images@),
        can_read(*quirc, *rqrr),
    ensures
        searched(
            plain_attempts(grays_of(images@)),
            limit as nat,
            reads_with(readers_of(*quirc, *rqrr), true),
            found_texts(r.0),
            r.1 as nat,
        ),
{
    let ghost reads = reads_with(readers_of(*quirc, *rqrr), true);
    let ghost all = plain_attempts(grays_of(images@));
    let mut left: usize = limit;
    proof {
        lemma_searched_nothing(limit as nat, reads);
        assert(all.take(0) =~= Seq::empty());
    }
    for i in 0..images.len()
        invariant
            reads == reads_with(readers_of(*quirc, *rqrr), true),
            all_gray_wf(images@),
            can_read(*quirc, *rqrr),
            all == plain_attempts(grays_of(images@)),
            searched(all.take(i as int), limit as nat, reads, None, left as nat),
    {
        let ghost done = all.take(i as int);
        let ghost tail = all.subrange(i as int, all.len() as int);
        assert(done + tail =~= all);
        if left == 0 {
            proof {
                lemma_searched_exhausted(tail, reads);
                lemma_searched_both(done, tail, limit as nat, reads, 0, None, 0);
            }
            return (None, 0);
        }
        let texts: Vec<String> = run_decoders(&images[i], true, quirc, rqrr);
        let ghost attempt = all[i as int];
        let ghost rest = all.subrange(i + 1, all.len() as int);
        proof {
            assert(attempt == (Attempt { source: images@[i as int]@, scale: None }));
            assert(may_read(reads, images@[i as int]@, texts_of(texts@)));
            lemma_searched_one(attempt, left as nat, reads, images@[i as int]@, texts_of(texts@));
            assert(done + seq![attempt] =~= all.take(i + 1));
            assert(all.take(i + 1) + rest =~= all);
        }
        left = left - 1;
        if texts.len() > 0 {
            proof {
                let found = texts_of(texts@);
                let before = (left + 1) as nat;
                lemma_searched_both(done, seq![attempt], limit as nat, reads, before, Some(found), left as nat);
                lemma_searched_early(all.take(i + 1), rest, limit as nat, reads, found, left as nat);
            }
            return (Some(texts), left);
        }
        proof {
            lemma_searched_both(done, seq![attempt], limit as nat, reads, (left + 1) as nat, None, left as nat);
        }
    }
    assert(all.take(all.len() as int) =~= all);
    (None, left)
}

proof fn lemma_scaled_attempts_split(positions: Seq<Gray>, factors: Seq<Binary>, n: int)
    requires
        0 <= n <= positions.len(),
    ensures
        exists|rest: Seq<Attempt>|
            scaled_attempts(positions, factors) == scaled_attempts(positions.take(n), factors) + rest,
    decreases positions.len(),
{
    let some = scaled_attempts(positions.take(n), factors);
    if n == positions.len() {
        assert(positions.take(n) =~= positions);
        assert(scaled_attempts(positions, factors) == some + Seq::empty());
    } else {
        lemma_scaled_attempts_split(positions.drop_last(), factors, n);
        assert(positions.drop_last().take(n) =~= positions.take(n));
        let rest = choose|rest: Seq<Attempt>|
            scaled_attempts(positions.drop_last(), factors) == some + rest;
        let last = attempts_at(positions.last(), factors);
        assert(some + rest + last =~= some + (rest + last));
    }
}

proof fn lemma_tile_attempts_split(images: Seq<Gray>, n: int)
    requires
        0 <= n <= images.len(),
    ensures
        exists|rest: Seq<Attempt>| tile_attempts(images) == tile_attempts(images.take(n)) + rest,
    decreases images.len(),
{
    let some = tile_attempts(images.take(n));
    if n == images.len() {
        assert(images.take(n) =~= images);
        assert(tile_attempts(images) == some + Seq::empty());
    } else {
        lemma_tile_attempts_split(images.drop_last(), n);
        assert(images.drop_last().take(n) =~= images.take(n));
        let rest = choose|rest: Seq<Attempt>| tile_attempts(images.drop_last()) == some + rest;
        let last = plain_attempts(tiles(images.last()));
        assert(some + rest + last =~= some + (rest + last));
    }
}

proof fn lemma_crop_attempts_split(images: Seq<Gray>, n: int)
    requires
        0 <= n <= images.len(),
    ensures
        exists|rest: Seq<Attempt>| crop_attempts(images) == crop_attempts(images.take(n)) + rest,
    decreases images.len(),
{
    let some = crop_attempts(images.take(n));
    if n == images.len() {
        assert(images.take(n) =~= images);
        assert(crop_attempts(images) == some + Seq::empty());
    } else {
        lemma_crop_attempts_split(images.drop_last(), n);
        assert(images.drop_last().take(n) =~= images.take(n));
        let rest = choose|rest: Seq<Attempt>| crop_attempts(images.drop_last()) == some + rest;
        let last = tile_attempts(crops(images.last()));
        assert(some + rest + last =~= some + (rest + last));
    }
}

proof fn lemma_all_attempts_split(variants: Seq<Gray>, aggressive: bool, n: int)
    requires
        0 <= n <= variants.len(),
    ensures
        exists|rest: Seq<Attempt>|
            all_attempts(variants, aggressive) == all_attempts(variants.take(n), aggressive) + rest,
    decreases variants.len(),
{
    let some = all_attempts(variants.take(n), aggressive);
    if n == variants.len() {
        assert(variants.take(n) =~= variants);
        assert(all_attempts(variants, aggressive) == some + Seq::empty());
    } else {
        lemma_all_attempts_split(variants.drop_last(), aggressive, n);
        assert(variants.drop_last().take(n) =~= variants.take(n));
        let rest = choose|rest: Seq<Attempt>| all_attempts(variants.drop_last(), aggressive) == some + rest;
        let last = variant_attempts(variants.last(), aggressive);
        assert(some + rest + last =~= some + (rest + last));
    }
}

/// Tries an image in some positions.
fn search_positions<
    Q: Fn(&GrayImage) -> Vec<Option<Vec<u8>>>,
    R: Fn(&GrayImage) -> Vec<Option<String>>,
>(
    positions: &Vec<GrayImage>,
    aggressive: bool,
    limit: usize,
    quirc: &Q,
    rqrr: &R,
) -> (r: (Option<Vec<String>>, usize))
    requires
        all_gray_wf(positions@),
        can_read(*quirc, *rqrr),
    ensures
        searched(
            scaled_attempts(grays_of(positions@), scales(aggressive)),
            limit as nat,
            reads_with(readers_of(*quirc, *rqrr), aggressive),
            found_texts(r.0),
            r.1 as nat,
        ),
{
    let ghost reads = reads_with(readers_of(*quirc, *rqrr), aggressive);
    let ghost all = grays_of(positions@);
    let ghost factors = scales(aggressive);
    let mut left: usize = limit;
    proof {
        lemma_searched_nothing(limit as nat, reads);
    }
    for i in 0..positions.len()
        invariant
            reads == reads_with(readers_of(*quirc, *rqrr), aggressive),
            all_gray_wf(positions@),
            can_read(*quirc, *rqrr),
            all == grays_of(positions@),
            factors == scales(aggressive),
            searched(
                scaled_attempts(all.take(i as int), factors),
                limit as nat,
                reads,
                None,
                left as nat,
            ),
    {
        let (found, after) = search_scales(&positions[i], aggressive, left, quirc, rqrr);
        proof {
            let done = scaled_attempts(all.take(i as int), factors);
            let next = attempts_at(all[i as int], factors);
            assert(all.take(i + 1).drop_last() =~= all.take(i as int));
            lemma_searched_both(done, next, limit as nat, reads, left as nat, found_texts(found), after as nat);
            if let Some(texts) = found_texts(found) {
                lemma_scaled_attempts_split(all, factors, i + 1);
                let head = scaled_attempts(all.take(i + 1), factors);
                let rest = choose|rest: Seq<Attempt>| scaled_attempts(all, factors) == head + rest;
                lemma_searched_early(done + next, rest, limit as nat, reads, texts, after as nat);
            }
        }
        left = after;
        if found.is_some() {
            return (found, left);
        }
    }
    assert(all.take(all.len() as int) =~= all);
    (None, left)
}

/// Tries the tiles of some images.
fn search_tiles<
    Q: Fn(&GrayImage) -> Vec<Option<Vec<u8>>>,
    R: Fn(&GrayImage) -> Vec<Option<String>>,
>(
    images: &Vec<GrayImage>,
    limit: usize,
    quirc: &Q,
    rqrr: &R,
) -> (r: (Option<Vec<String>>, usize))
    requires
        all_gray_wf(images@),
        can_read(*quirc, *rqrr),
    ensures
        searched(
            tile_attempts(grays_of(images@)),
            limit as nat,
            reads_with(readers_of(*quirc, *rqrr), true),
            found_texts(r.0),
            r.1 as nat,
        ),
{
    let ghost reads = reads_with(readers_of(*quirc, *rqrr), true);
    let ghost all = grays_of(images@);
    let mut left: usize = limit;
    proof {
        lemma_searched_nothing(limit as nat, reads);
    }
    for i in 0..images.len()
        invariant
            reads == reads_with(readers_of(*quirc, *rqrr), true),
            all_gray_wf(images@),
            can_read(*quirc, *rqrr),
            all == grays_of(images@),
            searched(tile_attempts(all.take(i as int)), limit as nat, reads, None, left as nat),
    {
        let parts: Vec<GrayImage> = tile_variants(&images[i]);
        let (found, after) = search_images(&parts, left, quirc, rqrr);
        proof {
            let done = tile_attempts(all.take(i as int));
            let next = plain_attempts(tiles(all[i as int]));
            assert(all.take(i + 1).drop_last() =~= all.take(i as int));
            lemma_searched_both(done, next, limit as nat, reads, left as nat, found_texts(found), after as nat);
            if let Some(texts) = found_texts(found) {
                lemma_tile_attempts_split(all, i + 1);
                let head = tile_attempts(all.take(i + 1));
                let rest = choose|rest: Seq<Attempt>| tile_attempts(all) == head + rest;
                lemma_searched_early(done + next, rest, limit as nat, reads, texts, after as nat);
            }
        }
        left = after;
        if found.is_some() {
            return (found, left);
        }
    }
    assert(all.take(all.len() as int) =~= all);
    (None, left)
}

/// Tries the tiles of the parts of some images.
fn search_crops<
    Q: Fn(&GrayImage) -> Vec<Option<Vec<u8>>>,
    R: Fn(&GrayImage) -> Vec<Option<String>>,
>(
    images: &Vec<GrayImage>,
    limit: usize,
    quirc: &Q,
    rqrr: &R,
) -> (r: (Option<Vec<String>>, usize))
    requires
        all_gray_wf(images@),
        can_read(*quirc, *rqrr),
    ensures
        searched(
            crop_attempts(grays_of(images@)),
            limit as nat,
            reads_with(readers_of(*quirc, *rqrr), true),
            found_texts(r.0),
            r.1 as nat,
        ),
{
    let ghost reads = reads_with(readers_of(*quirc, *rqrr), true);
    let ghost all = grays_of(images@);
    let mut left: usize = limit;
    proof {
        lemma_searched_nothing(limit as nat, reads);
    }
    for i in 0..images.len()
        invariant
            reads == reads_with(readers_of(*quirc, *rqrr), true),
            all_gray_wf(images@),
            can_read(*quirc, *rqrr),
            all == grays_of(images@),
            searched(crop_attempts(all.take(i as int)), limit as nat, reads, None, left as nat),
    {
        if left == 0 {
            proof {
                lemma_crop_attempts_split(all, i as int);
                let head = crop_attempts(all.take(i as int));
                let rest = choose|rest: Seq<Attempt>| crop_attempts(all) == head + rest;
                lemma_searched_exhausted(rest, reads);
                lemma_searched_both(crop_attempts(all.take(i as int)), rest, limit as nat, reads, 0, None, 0);
            }
            return (None, 0);
        }
        let parts: Vec<GrayImage> = crop_variants(&images[i]);
        let (found, after) = search_tiles(&parts, left, quirc, rqrr);
        proof {
            let done = crop_attempts(all.take(i as int));
            let next = tile_attempts(crops(all[i as int]));
            assert(all.take(i + 1).drop_last() =~= all.take(i as int));
            lemma_searched_both(done, next, limit as nat, reads, left as nat, found_texts(found), after as nat);
            if let Some(texts) = found_texts(found) {
                lemma_crop_attempts_split(all, i + 1);
                let head = crop_attempts(all.take(i + 1));
                let rest = choose|rest: Seq<Attempt>| crop_attempts(all) == head + rest;
                lemma_searched_early(done + next, rest, limit as nat, reads, texts, after as nat);
            }
        }
        left = after;
        if found.is_some() {
            return (found, left);
        }
    }
    assert(all.take(all.len() as int) =~= all);
    (None, left)
}

/// Tries a variant of an image.
fn search_variant<
    Q: Fn(&GrayImage) -> Vec<Option<Vec<u8>>>,
    R: Fn(&GrayImage) -> Vec<Option<String>>,
>(
    variant: &GrayImage,
    aggressive: bool,
    limit: usize,
    quirc: &Q,
    rqrr: &R,
) -> (r: (Option<Vec<String>>, usize))
    requires
        variant@.wf(),
        can_read(*quirc, *rqrr),
    ensures
        searched(
            variant_attempts(variant@, aggressive),
            limit as nat,
            reads_with(readers_of(*quirc, *rqrr), aggressive),
            found_texts(r.0),
            r.1 as nat,
        ),
{
    let ghost reads = reads_with(readers_of(*quirc, *rqrr), aggressive);
    let positions: Vec<GrayImage> = oriented_variants(variant, aggressive);
    let (found, left) = search_positions(&positions, aggressive, limit, quirc, rqrr);
    if !aggressive {
        return (found, left);
    }
    let ghost whole = scaled_attempts(grays_of(positions@), scales(true));
    let ghost parts = crop_attempts(grays_of(positions@));
    if found.is_some() {
        proof {
            lemma_searched_early(whole, parts, limit as nat, reads, found_texts(found)->0, left as nat);
        }
        return (found, left);
    }
    let (more, after) = search_crops(&positions, left, quirc, rqrr);
    proof {
        lemma_searched_both(whole, parts, limit as nat, reads, left as nat, found_texts(more), after as nat);
    }
    (more, after)
}

/// Searches an image for codes.
pub fn decode_qr_payloads_with<
    Q: Fn(&GrayImage) -> Vec<Option<Vec<u8>>>,
    R: Fn(&GrayImage) -> Vec<Option<String>>,
>(
    gray: &GrayImage,
    aggressive: bool,
    quirc: &Q,
    rqrr: &R,
) -> (r: Vec<String>)
    requires
        gray@.wf(),
        is_countable(gray@),
        can_read(*quirc, *rqrr),
    ensures
        with_outcome(readers_of(*quirc, *rqrr), gray@, aggressive, texts_of(r@)),
        is_text_set(texts_of(r@)),
{
    let ghost reads = reads_with(readers_of(*quirc, *rqrr), aggressive);
    let variants: Vec<GrayImage> = if aggressive {
        build_gray_variants(gray)
    } else {
        build_fast_gray_variants(gray)
    };
    let limit: usize = if aggressive { 80 } else { 20 };
    let ghost all = grays_of(variants@);
    let ghost attempts = all_attempts(all, aggressive);
    let mut left: usize = limit;
    proof {
        lemma_searched_nothing(limit as nat, reads);
    }
    for i in 0..variants.len()
        invariant
            reads == reads_with(readers_of(*quirc, *rqrr), aggressive),
            all_gray_wf(variants@),
            can_read(*quirc, *rqrr),
            all == grays_of(variants@),
            attempts == all_attempts(all, aggressive),
            all == if aggressive { all_variants(gray@) } else { fast_variants(gray@) },
            limit == attempt_limit(aggressive),
            searched(all_attempts(all.take(i as int), aggressive), limit as nat, reads, None, left as nat),
    {
        let ghost done = all_attempts(all.take(i as int), aggressive);
        if left == 0 {
            let none: Vec<String> = Vec::new();
            proof {
                lemma_all_attempts_split(all, aggressive, i as int);
                let rest = choose|rest: Seq<Attempt>| attempts == done + rest;
                assert(leads_to(done + rest, limit as nat, rest, 0, reads));
                assert(search_outcome(rest, 0, reads, texts_of(none@)));
                assert(search_outcome(attempts, limit as nat, reads, texts_of(none@)));
            }
            return none;
        }
        let (found, after) = search_variant(&variants[i], aggressive, left, quirc, rqrr);
        proof {
            let next = variant_attempts(all[i as int], aggressive);
            assert(all.take(i + 1).drop_last() =~= all.take(i as int));
            lemma_searched_both(done, next, limit as nat, reads, left as nat, found_texts(found), after as nat);
            if let Some(texts) = found_texts(found) {
                lemma_all_attempts_split(all, aggressive, i + 1);
                let head = all_attempts(all.take(i + 1), aggressive);
                let rest = choose|rest: Seq<Attempt>| attempts == head + rest;
                assert(search_outcome(done + next + rest, limit as nat, reads, texts));
            }
        }
        left = after;
        if let Some(texts) = found {
            proof {
                law_search(readers_of(*quirc, *rqrr), attempts, limit as nat, aggressive, texts_of(texts@));
            }
            return texts;
        }
    }
    let none: Vec<String> = Vec::new();
    proof {
        assert(all.take(all.len() as int) =~= all);
        assert(attempts + Seq::empty() =~= attempts);
        assert(leads_to(attempts + Seq::empty(), limit as nat, Seq::empty(), left as nat, reads));
        assert(search_outcome(Seq::empty(), left as nat, reads, texts_of(none@)));
        assert(search_outcome(attempts, limit as nat, reads, texts_of(none@)));
    }
    none
}

/// Whether `found` may be the texts found in an image that is brought to the size it is
/// searched at, searched fast, and then aggressively where nothing was found.
pub open spec fn decode_outcome(readers: Readers, gray: Gray, found: Seq<Seq<char>>) -> bool {
    exists|base: Gray, fast: Seq<Seq<char>>|
        {
            &&& #[trigger] normalized_outcome(gray, base)
            &&& #[trigger] with_outcome(readers, base, false, fast)
            &&& if fast.len() > 0 {
                found == fast
            } else {
                with_outcome(readers, base, true, found)
            }
        }
}

/// The texts found in an image.
pub fn decode_qr_payloads<
    Q: Fn(&GrayImage) -> Vec<Option<Vec<u8>>>,
    R: Fn(&GrayImage) -> Vec<Option<String>>,
>(
    gray: &GrayImage,
    quirc: &Q,
    rqrr: &R,
) -> (r: Vec<String>)
    requires
        gray@.wf(),
        can_read(*quirc, *rqrr),
    ensures
        decode_outcome(readers_of(*quirc, *rqrr), gray@, texts_of(r@)),
{
    let base: GrayImage = normalize_gray_input(gray);
    let fast: Vec<String> = decode_qr_payloads_with(&base, false, quirc, rqrr);
    assert(normalized_outcome(gray@, base@));
    assert(with_outcome(readers_of(*quirc, *rqrr), base@, false, texts_of(fast@)));
    if fast.len() > 0 {
        return fast;
    }
    decode_qr_payloads_with(&base, true, quirc, rqrr)
}

/// Whether `found` may be the texts of the first image in which any are found.
pub open spec fn first_decoded(readers: Readers, grays: Seq<Gray>, found: Seq<Seq<char>>) -> bool
    decreases grays.len(),
{
    if grays.len() == 0 {
        found.len() == 0
    } else {
        exists|texts: Seq<Seq<char>>|
            {
                &&& #[trigger] decode_outcome(readers, grays[0], texts)
                &&& if texts.len() > 0 {
                    found == texts
                } else {
                    first_decoded(readers, grays.drop_first(), found)
                }
            }
    }
}

/// The texts of the first image in which any are found.
fn decode_first<
    Q: Fn(&GrayImage) -> Vec<Option<Vec<u8>>>,
    R: Fn(&GrayImage) -> Vec<Option<String>>,
>(
    grays: &Vec<GrayImage>,
    start: usize,
    quirc: &Q,
    rqrr: &R,
) -> (r: Vec<String>)
    requires
        start <= grays@.len(),
        all_gray_wf(grays@),
        can_read(*quirc, *rqrr),
    ensures
        first_decoded(
            readers_of(*quirc, *rqrr),
            grays_of(grays@).subrange(start as int, grays@.len() as int),
            texts_of(r@),
        ),
    decreases grays@.len() - start,
{
    let ghost rest = grays_of(grays@).subrange(start as int, grays@.len() as int);
    if start == grays.len() {
        return Vec::new();
    }
    let texts: Vec<String> = decode_qr_payloads(&grays[start], quirc, rqrr);
    assert(decode_outcome(readers_of(*quirc, *rqrr), rest[0], texts_of(texts@)));
    if texts.len() > 0 {
        return texts;
    }
    assert(rest.drop_first() =~= grays_of(grays@).subrange(start + 1, grays@.len() as int));
    decode_first(grays, start + 1, quirc, rqrr)
}

/// Whether `found` may be the texts found in a picture: in its gray levels or, where there are
/// none, in its colors.
#[verifier::opaque]
pub open spec fn dynamic_outcome(readers: Readers, picture: Picture, found: Seq<Seq<char>>) -> bool {
    exists|luma: Gray, base: Gray, primary: Seq<Seq<char>>|
        {
            &&& #[trigger] luma_outcome(picture, luma)
            &&& #[trigger] normalized_outcome(luma, base)
            &&& #[trigger] decode_outcome(readers, base, primary)
            &&& if primary.len() > 0 {
                found == primary
            } else {
                exists|colors: Seq<Gray>| #[trigger]
                    channels_outcome(picture, colors) && first_decoded(readers, colors, found)
            }
        }
}

/// The texts found in a picture.
pub fn decode_qr_payloads_from_dynamic<
    Q: Fn(&GrayImage) -> Vec<Option<Vec<u8>>>,
    R: Fn(&GrayImage) -> Vec<Option<String>>,
>(
    image: &DynamicImage,
    quirc: &Q,
    rqrr: &R,
) -> (r: Vec<String>)
    requires
        image.wf(),
        can_read(*quirc, *rqrr),
    ensures
        dynamic_outcome(readers_of(*quirc, *rqrr), image@, texts_of(r@)),
{
    proof {
        reveal(dynamic_outcome);
    }
    let luma: GrayImage = image.to_luma8();
    let base: GrayImage = normalize_gray_input(&luma);
    let primary: Vec<String> = decode_qr_payloads(&base, quirc, rqrr);
    assert(luma_outcome(image@, luma@));
    assert(normalized_outcome(luma@, base@));
    assert(decode_outcome(readers_of(*quirc, *rqrr), base@, texts_of(primary@)));
    if primary.len() > 0 {
        return primary;
    }
    let colors: Vec<GrayImage> = dynamic_gray_candidates(image);
    let found: Vec<String> = decode_first(&colors, 0, quirc, rqrr);
    assert(channels_outcome(image@, grays_of(colors@)));
    assert(grays_of(colors@).subrange(0, colors@.len() as int) =~= grays_of(colors@));
    found
}

/// Whether `found` may be the texts of the first image in which an aggressive search finds
/// any.
pub open spec fn first_aggressive(readers: Readers, grays: Seq<Gray>, found: Seq<Seq<char>>) -> bool
    decreases grays.len(),
{
    if grays.len() == 0 {
        found.len() == 0
    } else {
        exists|base: Gray, texts: Seq<Seq<char>>|
            {
                &&& #[trigger] normalized_outcome(grays[0], base)
                &&& #[trigger] with_outcome(readers, base, true, texts)
                &&& if texts.len() > 0 {
                    found == texts
                } else {
                    first_aggressive(readers, grays.drop_first(), found)
                }
            }
    }
}

/// The texts of the first image in which an aggressive search finds any.
fn search_first<
    Q: Fn(&GrayImage) -> Vec<Option<Vec<u8>>>,
    R: Fn(&GrayImage) -> Vec<Option<String>>,
>(
    grays: &Vec<GrayImage>,
    start: usize,
    quirc: &Q,
    rqrr: &R,
) -> (r: Vec<String>)
    requires
        start <= grays@.len(),
        all_gray_wf(grays@),
        can_read(*quirc, *rqrr),
    ensures
        first_aggressive(
            readers_of(*quirc, *rqrr),
            grays_of(grays@).subrange(start as int, grays@.len() as int),
            texts_of(r@),
        ),
    decreases grays@.len() - start,
{
    let ghost rest = grays_of(grays@).subrange(start as int, grays@.len() as int);
    if start == grays.len() {
        return Vec::new();
    }
    let base: GrayImage = normalize_gray_input(&grays[start]);
    let texts: Vec<String> = decode_qr_payloads_with(&base, true, quirc, rqrr);
    assert(normalized_outcome(rest[0], base@));
    assert(with_outcome(readers_of(*quirc, *rqrr), base@, true, texts_of(texts@)));
    if texts.len() > 0 {
        return texts;
    }
    assert(rest.drop_first() =~= grays_of(grays@).subrange(start + 1, grays@.len() as int));
    search_first(grays, start + 1, quirc, rqrr)
}

/// Whether `found` may be the texts found in the picture of a rendered page.
#[verifier::opaque]
pub open spec fn rendered_outcome(readers: Readers, picture: Picture, found: Seq<Seq<char>>) -> bool {
    exists|luma: Gray, variants: Seq<Gray>|
        {
            &&& #[trigger] luma_outcome(picture, luma)
            &&& #[trigger] rendered_variants(luma, variants)
            &&& first_aggressive(readers, variants, found)
        }
}

/// The texts found in the picture of a rendered page.
pub fn decode_qr_payloads_from_rendered<
    Q: Fn(&GrayImage) -> Vec<Option<Vec<u8>>>,
    R: Fn(&GrayImage) -> Vec<Option<String>>,
>(
    image: &DynamicImage,
    quirc: &Q,
    rqrr: &R,
) -> (r: Vec<String>)
    requires
        image.wf(),
        can_read(*quirc, *rqrr),
    ensures
        rendered_outcome(readers_of(*quirc, *rqrr), image@, texts_of(r@)),
{
    proof {
        reveal(rendered_outcome);
    }
    let luma: GrayImage = image.to_luma8();
    let variants: Vec<GrayImage> = build_rendered_variants(&luma);
    let found: Vec<String> = search_first(&variants, 0, quirc, rqrr);
    assert(luma_outcome(image@, luma@));
    assert(rendered_variants(luma@, grays_of(variants@)));
    assert(grays_of(variants@).subrange(0, variants@.len() as int) =~= grays_of(variants@));
    found
}

/// What a search finds was read in one of the images that it tries.
pub open spec fn was_read(attempts: Seq<Attempt>, reads: Reads, found: Seq<Seq<char>>) -> bool {
    exists|i: int, image: Gray|
        0 <= i < attempts.len() && #[trigger] attempt_outcome(attempts[i], image) && may_read(reads, image, found)
}

/// What a search finds is a set in order; and where it is not empty, it was read in one image,
/// which is among the first `limit` of those to try.
pub proof fn law_search(
    readers: Readers,
    attempts: Seq<Attempt>,
    limit: nat,
    aggressive: bool,
    found: Seq<Seq<char>>,
)
    requires
        search_outcome(attempts, limit, reads_with(readers, aggressive), found),
    ensures
        is_text_set(found),
        found.len() > 0 ==> was_read(
            attempts.take(if limit < attempts.len() { limit as int } else { attempts.len() as int }),
            reads_with(readers, aggressive),
            found,
        ),
    decreases limit,
{
    let reads = reads_with(readers, aggressive);
    if limit > 0 && attempts.len() > 0 {
        let tried = attempts.take(if limit < attempts.len() { limit as int } else { attempts.len() as int });
        let (image, texts): (Gray, Seq<Seq<char>>) = choose|image: Gray, texts: Seq<Seq<char>>|
            {
                &&& #[trigger] attempt_outcome(attempts[0], image)
                &&& #[trigger] may_read(reads, image, texts)
                &&& if texts.len() > 0 {
                    found == texts
                } else {
                    search_outcome(attempts.drop_first(), (limit - 1) as nat, reads, found)
                }
            };
        if texts.len() > 0 {
            law_texts_in(readers, image, aggressive, texts);
            assert(attempt_outcome(tried[0], image));
        } else {
            let rest = attempts.drop_first();
            let left = (limit - 1) as nat;
            law_search(readers, rest, left, aggressive, found);
            if found.len() > 0 {
                let later = rest.take(if left < rest.len() { left as int } else { rest.len() as int });
                let (i, image) = choose|i: int, image: Gray|
                    0 <= i < later.len() && #[trigger] attempt_outcome(later[i], image) && may_read(
                        reads,
                        image,
                        found,
                    );
                assert(tried[i + 1] == later[i]);
                assert(attempt_outcome(tried[i + 1], image));
            }
        }
    }
}

/// The first attempt of a search is on the image as it is.
proof fn lemma_first_attempt(gray: Gray, aggressive: bool)
    ensures
        ({
            let variants = if aggressive { all_variants(gray) } else { fast_variants(gray) };
            let attempts = all_attempts(variants, aggressive);
            attempts.len() > 0 && attempts[0] == (Attempt { source: gray, scale: Some(one()) })
        }),
{
    let variants = if aggressive { all_variants(gray) } else { fast_variants(gray) };
    let positions = orientations(gray, aggressive);
    let factors = scales(aggressive);
    assert(variants[0] == gray);
    assert(positions[0] == gray);
    lemma_all_attempts_split(variants, aggressive, 1);
    lemma_scaled_attempts_split(positions, factors, 1);
    assert(variants.take(1).drop_last() =~= Seq::empty());
    assert(variants.take(1).last() == gray);
    assert(positions.take(1).drop_last() =~= Seq::empty());
    assert(positions.take(1).last() == gray);
    let start = attempts_at(gray, factors);
    assert(scaled_attempts(Seq::empty(), factors) + start =~= start);
    assert(all_attempts(Seq::empty(), aggressive) + variant_attempts(gray, aggressive) =~= variant_attempts(
        gray,
        aggressive,
    ));
    assert(start[0] == (Attempt { source: gray, scale: Some(one()) }));
}

/// What is found in an image is a set in order. The image as it is is tried first, and the
/// first success ends the search: where something is read in it whatever its readers give,
/// that is what is found.
pub proof fn law_unmodified_first(readers: Readers, gray: Gray, aggressive: bool, found: Seq<Seq<char>>)
    requires
        with_outcome(readers, gray, aggressive, found),
    ensures
        is_text_set(found),
        (forall|texts: Seq<Seq<char>>| #[trigger]
            texts_outcome(readers, gray, aggressive, texts) ==> texts.len() > 0) ==> texts_outcome(
            readers,
            gray,
            aggressive,
            found,
        ),
{
    let variants = if aggressive { all_variants(gray) } else { fast_variants(gray) };
    let attempts = all_attempts(variants, aggressive);
    let limit = attempt_limit(aggressive);
    let reads = reads_with(readers, aggressive);
    law_search(readers, attempts, limit, aggressive, found);
    lemma_first_attempt(gray, aggressive);
    lemma_one_is_near();
    let (image, texts): (Gray, Seq<Seq<char>>) = choose|image: Gray, texts: Seq<Seq<char>>|
        {
            &&& #[trigger] attempt_outcome(attempts[0], image)
            &&& #[trigger] may_read(reads, image, texts)
            &&& if texts.len() > 0 {
                found == texts
            } else {
                search_outcome(attempts.drop_first(), (limit - 1) as nat, reads, found)
            }
        };
    assert(image == gray);
    assert(texts_outcome(readers, gray, aggressive, texts));
}

/// Where the texts in the image as it is are always the same, and there are any, they are what
/// is found.
pub proof fn law_unmodified_result(
    readers: Readers,
    gray: Gray,
    aggressive: bool,
    texts: Seq<Seq<char>>,
    found: Seq<Seq<char>>,
)
    requires
        with_outcome(readers, gray, aggressive, found),
        forall|other: Seq<Seq<char>>| #[trigger]
            texts_outcome(readers, gray, aggressive, other) ==> other == texts,
        texts.len() > 0,
    ensures
        found == texts,
{
    law_unmodified_first(readers, gray, aggressive, found);
}

/// What is found in an image is a set in order.
pub proof fn law_decoded_set(readers: Readers, gray: Gray, found: Seq<Seq<char>>)
    requires
        decode_outcome(readers, gray, found),
    ensures
        is_text_set(found),
{
    let (base, fast): (Gray, Seq<Seq<char>>) = choose|base: Gray, fast: Seq<Seq<char>>|
        {
            &&& #[trigger] normalized_outcome(gray, base)
            &&& #[trigger] with_outcome(readers, base, false, fast)
            &&& if fast.len() > 0 {
                found == fast
            } else {
                with_outcome(readers, base, true, found)
            }
        };
    if fast.len() > 0 {
        law_search(readers, all_attempts(fast_variants(base), false), attempt_limit(false), false, found);
    } else {
        law_search(readers, all_attempts(all_variants(base), true), attempt_limit(true), true, found);
    }
}

proof fn lemma_first_decoded_set(readers: Readers, grays: Seq<Gray>, found: Seq<Seq<char>>)
    requires
        first_decoded(readers, grays, found),
    ensures
        is_text_set(found),
    decreases grays.len(),
{
    if grays.len() > 0 {
        let texts = choose|texts: Seq<Seq<char>>|
            {
                &&& #[trigger] decode_outcome(readers, grays[0], texts)
                &&& if texts.len() > 0 {
                    found == texts
                } else {
                    first_decoded(readers, grays.drop_first(), found)
                }
            };
        if texts.len() > 0 {
            law_decoded_set(readers, grays[0], found);
        } else {
            lemma_first_decoded_set(readers, grays.drop_first(), found);
        }
    }
}

/// What is found in a picture is a set in order.
pub proof fn law_dynamic_set(readers: Readers, picture: Picture, found: Seq<Seq<char>>)
    requires
        dynamic_outcome(readers, picture, found),
    ensures
        is_text_set(found),
{
    reveal(dynamic_outcome);
    let (luma, base, primary): (Gray, Gray, Seq<Seq<char>>) = choose|
        luma: Gray,
        base: Gray,
        primary: Seq<Seq<char>>,
    |
        {
            &&& #[trigger] luma_outcome(picture, luma)
            &&& #[trigger] normalized_outcome(luma, base)
            &&& #[trigger] decode_outcome(readers, base, primary)
            &&& if primary.len() > 0 {
                found == primary
            } else {
                exists|colors: Seq<Gray>| #[trigger]
                    channels_outcome(picture, colors) && first_decoded(readers, colors, found)
            }
        };
    if primary.len() > 0 {
        law_decoded_set(readers, base, found);
    } else {
        let colors = choose|colors: Seq<Gray>| #[trigger]
            channels_outcome(picture, colors) && first_decoded(readers, colors, found);
        lemma_first_decoded_set(readers, colors, found);
    }
}

proof fn lemma_first_aggressive_set(readers: Readers, grays: Seq<Gray>, found: Seq<Seq<char>>)
    requires
        first_aggressive(readers, grays, found),
    ensures
        is_text_set(found),
    decreases grays.len(),
{
    if grays.len() > 0 {
        let (base, texts): (Gray, Seq<Seq<char>>) = choose|base: Gray, texts: Seq<Seq<char>>|
            {
                &&& #[trigger] normalized_outcome(grays[0], base)
                &&& #[trigger] with_outcome(readers, base, true, texts)
                &&& if texts.len() > 0 {
                    found == texts
                } else {
                    first_aggressive(readers, grays.drop_first(), found)
                }
            };
        if texts.len() > 0 {
            law_search(readers, all_attempts(all_variants(base), true), attempt_limit(true), true, found);
        } else {
            lemma_first_aggressive_set(readers, grays.drop_first(), found);
        }
    }
}

/// What is found in the picture of a rendered page is a set in order.
pub proof fn law_rendered_set(readers: Readers, picture: Picture, found: Seq<Seq<char>>)
    requires
        rendered_outcome(readers, picture, found),
    ensures
        is_text_set(found),
{
    reveal(rendered_outcome);
    let (luma, variants): (Gray, Seq<Gray>) = choose|luma: Gray, variants: Seq<Gray>|
        {
            &&& #[trigger] luma_outcome(picture, luma)
            &&& #[trigger] rendered_variants(luma, variants)
            &&& first_aggressive(readers, variants, found)
        };
    lemma_first_aggressive_set(readers, variants, found);
}

/// A search that finds nothing has made each of the first `limit` attempts, and read nothing in
/// any: so where one of them always has something to read, something is found.
pub proof fn law_nothing_found(attempts: Seq<Attempt>, limit: nat, reads: Reads, found: Seq<Seq<char>>, i: int)
    requires
        search_outcome(attempts, limit, reads, found),
        0 <= i < attempts.len(),
        i < limit,
    ensures
        found.len() == 0 ==> exists|image: Gray, texts: Seq<Seq<char>>|
            #[trigger] attempt_outcome(attempts[i], image) && #[trigger] may_read(reads, image, texts) && texts.len()
                == 0,
        (forall|image: Gray, texts: Seq<Seq<char>>|
            #[trigger] attempt_outcome(attempts[i], image) && #[trigger] may_read(reads, image, texts) ==> texts.len()
                > 0) ==> found.len() > 0,
    decreases limit,
{
    let (image, texts): (Gray, Seq<Seq<char>>) = choose|image: Gray, texts: Seq<Seq<char>>|
        {
            &&& #[trigger] attempt_outcome(attempts[0], image)
            &&& #[trigger] may_read(reads, image, texts)
            &&& if texts.len() > 0 {
                found == texts
            } else {
                search_outcome(attempts.drop_first(), (limit - 1) as nat, reads, found)
            }
        };
    if i > 0 && texts.len() == 0 {
        assert(attempts.drop_first()[i - 1] == attempts[i]);
        law_nothing_found(attempts.drop_first(), (limit - 1) as nat, reads, found, i - 1);
    }
}

proof fn lemma_scaled_index(positions: Seq<Gray>, factors: Seq<Binary>, i: int, k: int)
    requires
        0 <= i < positions.len(),
        0 <= k < factors.len(),
    ensures
        scaled_attempts(positions, factors).len() == positions.len() * factors.len(),
        0 <= i * factors.len() + k < positions.len() * factors.len(),
        scaled_attempts(positions, factors)[i * factors.len() + k] == (Attempt {
            source: positions[i],
            scale: Some(factors[k]),
        }),
    decreases positions.len(),
{
    let n = factors.len() as int;
    let m = positions.len() as int;
    lemma_scaled_len(positions, factors);
    assert(0 <= i * n + k < m * n) by (nonlinear_arith)
        requires
            0 <= i < m,
            0 <= k < n,
    ;
    let head = positions.drop_last();
    lemma_scaled_len(head, factors);
    assert((m - 1) * n == m * n - n) by (nonlinear_arith);
    if i < m - 1 {
        lemma_scaled_index(head, factors, i, k);
    } else {
        let last = attempts_at(positions.last(), factors);
        assert(scaled_attempts(positions, factors)[(m - 1) * n + k] == last[k]);
    }
}

proof fn lemma_scaled_len(positions: Seq<Gray>, factors: Seq<Binary>)
    ensures
        scaled_attempts(positions, factors).len() == positions.len() * factors.len(),
    decreases positions.len(),
{
    let n = factors.len() as int;
    let m = positions.len() as int;
    if m > 0 {
        lemma_scaled_len(positions.drop_last(), factors);
        assert((m - 1) * n + n == m * n) by (nonlinear_arith);
    } else {
        assert(0 * n == 0);
    }
}

/// Where attempts stand that are made with one more variant of an image: behind those before.
proof fn lemma_all_attempts_index(variants: Seq<Gray>, aggressive: bool, v: int, k: int)
    requires
        0 <= v < variants.len(),
        0 <= k < variant_attempts(variants[v], aggressive).len(),
    ensures
        ({
            let at = all_attempts(variants.take(v), aggressive).len() + k;
            &&& at < all_attempts(variants, aggressive).len()
            &&& all_attempts(variants, aggressive)[at] == variant_attempts(variants[v], aggressive)[k]
        }),
{
    lemma_all_attempts_split(variants, aggressive, v + 1);
    let head = all_attempts(variants.take(v + 1), aggressive);
    assert(variants.take(v + 1).drop_last() =~= variants.take(v));
    assert(variants.take(v + 1).last() == variants[v]);
    let rest = choose|rest: Seq<Attempt>| all_attempts(variants, aggressive) == head + rest;
    let at = all_attempts(variants.take(v), aggressive).len() + k;
    assert(head[at] == variant_attempts(variants[v], aggressive)[k]);
    assert((head + rest)[at] == head[at]);
}

/// A fast search tries three forms of an image, as it is and half as large again: the image
/// itself, with its contrast stretched, and that in black and white. These are six attempts, and
/// all of them are made.
pub proof fn law_fast_attempts(gray: Gray, v: int)
    requires
        0 <= v < 3,
    ensures
        all_attempts(fast_variants(gray), false).len() == 6,
        all_attempts(fast_variants(gray), false)[2 * v] == (Attempt {
            source: fast_variants(gray)[v],
            scale: Some(Binary { mantissa: 0x80_0000, exponent: -23 }),
        }),
        all_attempts(fast_variants(gray), false)[2 * v + 1] == (Attempt {
            source: fast_variants(gray)[v],
            scale: Some(Binary { mantissa: 0xc0_0000, exponent: -23 }),
        }),
        attempt_limit(false) >= 6,
{
    let variants = fast_variants(gray);
    lemma_fast_len(variants, 3);
    lemma_fast_len(variants, v);
    assert(variants.take(3) =~= variants);
    let positions = orientations(variants[v], false);
    let factors = scales(false);
    lemma_scaled_index(positions, factors, 0, 0);
    lemma_scaled_index(positions, factors, 0, 1);
    assert(0 * factors.len() + 0 == 0 && 0 * factors.len() + 1 == 1);
    lemma_all_attempts_index(variants, false, v, 0);
    lemma_all_attempts_index(variants, false, v, 1);
}

proof fn lemma_fast_len(variants: Seq<Gray>, v: int)
    requires
        0 <= v <= variants.len(),
    ensures
        all_attempts(variants.take(v), false).len() == 2 * v,
    decreases v,
{
    if v > 0 {
        let some = variants.take(v);
        assert(some.drop_last() =~= variants.take(v - 1));
        lemma_fast_len(variants, v - 1);
        let positions = orientations(some.last(), false);
        let factors = scales(false);
        lemma_scaled_len(positions, factors);
        assert(positions.len() * factors.len() == 2) by (nonlinear_arith)
            requires
                positions.len() == 1,
                factors.len() == 2,
        ;
    }
}

/// An aggressive search first tries the image in its five positions, each as it is, half as large
/// again and twice as large. These are the first 15 of up to 80 attempts.
pub proof fn law_aggressive_attempts(gray: Gray, i: int)
    requires
        0 <= i < 5,
    ensures
        all_attempts(all_variants(gray), true).len() >= 15,
        all_attempts(all_variants(gray), true)[3 * i] == (Attempt {
            source: orientations(gray, true)[i],
            scale: Some(Binary { mantissa: 0x80_0000, exponent: -23 }),
        }),
        all_attempts(all_variants(gray), true)[3 * i + 1] == (Attempt {
            source: orientations(gray, true)[i],
            scale: Some(Binary { mantissa: 0xc0_0000, exponent: -23 }),
        }),
        all_attempts(all_variants(gray), true)[3 * i + 2] == (Attempt {
            source: orientations(gray, true)[i],
            scale: Some(Binary { mantissa: 0x80_0000, exponent: -22 }),
        }),
        attempt_limit(true) == 80,
{
    let variants = all_variants(gray);
    let positions = orientations(gray, true);
    let factors = scales(true);
    assert(variants[0] == gray);
    assert(factors.len() == 3);
    lemma_scaled_index(positions, factors, i, 0);
    lemma_scaled_index(positions, factors, i, 1);
    lemma_scaled_index(positions, factors, i, 2);
    lemma_scaled_index(positions, factors, 4, 2);
    let whole = scaled_attempts(positions, factors);
    assert(variants.take(0) =~= Seq::<Gray>::empty());
    assert(whole.len() == 15);
    lemma_all_attempts_index(variants, true, 0, 3 * i);
    lemma_all_attempts_index(variants, true, 0, 3 * i + 1);
    lemma_all_attempts_index(variants, true, 0, 3 * i + 2);
    lemma_all_attempts_index(variants, true, 0, 14);
}

/// Behind them an aggressive search tries the tiles of the parts of each position of an image, as
/// they are: each tile of each part is among the attempts on it.
pub proof fn law_parts_tried(variant: Gray, i: int, j: int, k: int)
    requires
        0 <= i < 5,
        0 <= j < crops(orientations(variant, true)[i]).len(),
        0 <= k < tiles(crops(orientations(variant, true)[i])[j]).len(),
    ensures
        variant_attempts(variant, true).contains(
            Attempt { source: tiles(crops(orientations(variant, true)[i])[j])[k], scale: None },
        ),
{
    let positions = orientations(variant, true);
    let parts = crops(positions[i]);
    let wanted = Attempt { source: tiles(parts[j])[k], scale: None };
    assert(plain_attempts(tiles(parts[j]))[k] == wanted);
    lemma_tile_listed(parts, j, wanted);
    lemma_crop_listed(positions, i, wanted);
    let whole = scaled_attempts(positions, scales(true));
    let rest = crop_attempts(positions);
    let at = choose|at: int| 0 <= at < rest.len() && rest[at] == wanted;
    assert((whole + rest)[whole.len() + at] == wanted);
}

proof fn lemma_tile_listed(images: Seq<Gray>, j: int, wanted: Attempt)
    requires
        0 <= j < images.len(),
        plain_attempts(tiles(images[j])).contains(wanted),
    ensures
        tile_attempts(images).contains(wanted),
    decreases images.len(),
{
    let head = tile_attempts(images.drop_last());
    let last = plain_attempts(tiles(images.last()));
    if j == images.len() - 1 {
        let at = choose|at: int| 0 <= at < last.len() && last[at] == wanted;
        assert((head + last)[head.len() + at] == wanted);
    } else {
        lemma_tile_listed(images.drop_last(), j, wanted);
        let at = choose|at: int| 0 <= at < head.len() && head[at] == wanted;
        assert((head + last)[at] == wanted);
    }
}

proof fn lemma_crop_listed(images: Seq<Gray>, i: int, wanted: Attempt)
    requires
        0 <= i < images.len(),
        tile_attempts(crops(images[i])).contains(wanted),
    ensures
        crop_attempts(images).contains(wanted),
    decreases images.len(),
{
    let head = crop_attempts(images.drop_last());
    let last = tile_attempts(crops(images.last()));
    if i == images.len() - 1 {
        let at = choose|at: int| 0 <= at < last.len() && last[at] == wanted;
        assert((head + last)[head.len() + at] == wanted);
    } else {
        lemma_crop_listed(images.drop_last(), i, wanted);
        let at = choose|at: int| 0 <= at < head.len() && head[at] == wanted;
        assert((head + last)[at] == wanted);
    }
}

/// An image that is not too large is searched fast and, only where that finds nothing,
/// aggressively.
pub proof fn law_fast_then_aggressive(readers: Readers, gray: Gray, found: Seq<Seq<char>>)
    requires
        decode_outcome(readers, gray, found),
        gray.width <= 2400,
        gray.height <= 2400,
        gray.width * gray.height <= 3_600_000,
    ensures
        (found.len() > 0 && with_outcome(readers, gray, false, found)) || (with_outcome(readers, gray, true, found)
            && exists|none: Seq<Seq<char>>| none.len() == 0 && #[trigger] with_outcome(readers, gray, false, none)),
{
    let (base, fast): (Gray, Seq<Seq<char>>) = choose|base: Gray, fast: Seq<Seq<char>>|
        {
            &&& #[trigger] normalized_outcome(gray, base)
            &&& #[trigger] with_outcome(readers, base, false, fast)
            &&& if fast.len() > 0 {
                found == fast
            } else {
                with_outcome(readers, base, true, found)
            }
        };
    assert(base == gray);
}

/// A code that the first reader decodes in a gray picture as it is, is what is found in it: where
/// the reader always finds the same codes there, and some of them are decoded, the texts of these
/// are the result, in order and each once.
pub proof fn law_read_as_it_is(readers: Readers, gray: Gray, bytes: Seq<Option<Seq<u8>>>, found: Seq<Seq<char>>)
    requires
        dynamic_outcome(readers, Picture::Luma(gray), found),
        0 < gray.width <= 2400,
        0 < gray.height <= 2400,
        gray.width * gray.height <= 3_600_000,
        forall|codes: Seq<Option<Seq<u8>>>| #[trigger] first_finds(readers, gray, codes) ==> codes == bytes,
        payload_texts(bytes).len() > 0,
    ensures
        found == text_set(payload_texts(bytes)),
{
    reveal(dynamic_outcome);
    let texts = text_set(payload_texts(bytes));
    law_text_set(payload_texts(bytes));
    let (luma, base, primary): (Gray, Gray, Seq<Seq<char>>) = choose|luma: Gray, base: Gray, primary: Seq<Seq<char>>|
        {
            &&& #[trigger] luma_outcome(Picture::Luma(gray), luma)
            &&& #[trigger] normalized_outcome(luma, base)
            &&& #[trigger] decode_outcome(readers, base, primary)
            &&& if primary.len() > 0 {
                found == primary
            } else {
                exists|colors: Seq<Gray>| #[trigger]
                    channels_outcome(Picture::Luma(gray), colors) && first_decoded(readers, colors, found)
            }
        };
    assert(luma == gray && base == gray);
    let (again, fast): (Gray, Seq<Seq<char>>) = choose|again: Gray, fast: Seq<Seq<char>>|
        {
            &&& #[trigger] normalized_outcome(gray, again)
            &&& #[trigger] with_outcome(readers, again, false, fast)
            &&& if fast.len() > 0 {
                primary == fast
            } else {
                with_outcome(readers, again, true, primary)
            }
        };
    assert(again == gray);
    assert forall|other: Seq<Seq<char>>| #[trigger] texts_outcome(readers, gray, false, other) implies other == texts by {
        let codes = choose|codes: Seq<Option<Seq<u8>>>| #[trigger]
            first_finds(readers, gray, codes) && other == text_set(payload_texts(codes));
        assert(codes == bytes);
    }
    law_unmodified_result(readers, gray, false, texts, fast);
}

/// The texts of the first image in which any are found: all images before it were searched, and
/// nothing was found in them.
pub proof fn law_first_decoded(readers: Readers, grays: Seq<Gray>, found: Seq<Seq<char>>) -> (i: int)
    requires
        first_decoded(readers, grays, found),
    ensures
        0 <= i <= grays.len(),
        found.len() == 0 ==> i == grays.len(),
        found.len() > 0 ==> i < grays.len() && decode_outcome(readers, grays[i], found),
        forall|j: int| 0 <= j < i ==> decode_outcome(readers, #[trigger] grays[j], Seq::empty()),
    decreases grays.len(),
{
    if grays.len() == 0 {
        0
    } else {
        let texts = choose|texts: Seq<Seq<char>>|
            {
                &&& #[trigger] decode_outcome(readers, grays[0], texts)
                &&& if texts.len() > 0 {
                    found == texts
                } else {
                    first_decoded(readers, grays.drop_first(), found)
                }
            };
        if texts.len() > 0 {
            0
        } else {
            assert(texts =~= Seq::<Seq<char>>::empty());
            let rest = grays.drop_first();
            let i = law_first_decoded(readers, rest, found);
            assert forall|j: int| 0 <= j < i + 1 implies decode_outcome(readers, #[trigger] grays[j], Seq::empty()) by {
                if j > 0 {
                    assert(rest[j - 1] == grays[j]);
                }
            }
            i + 1
        }
    }
}

/// A picture is searched in its gray levels and, only where nothing is found in them, in its
/// colors.
pub proof fn law_gray_then_colors(readers: Readers, picture: Picture, found: Seq<Seq<char>>)
    requires
        dynamic_outcome(readers, picture, found),
    ensures
        exists|luma: Gray, base: Gray, primary: Seq<Seq<char>>|
            {
                &&& #[trigger] luma_outcome(picture, luma)
                &&& #[trigger] normalized_outcome(luma, base)
                &&& #[trigger] decode_outcome(readers, base, primary)
                &&& primary.len() > 0 ==> found == primary
                &&& primary.len() == 0 ==> exists|rgb: Rgb, outs: Seq<Gray>|
                    #[trigger] rgb_outcome(picture, rgb) && #[trigger] all_normalized(channels(rgb), outs)
                        && first_decoded(readers, outs, found)
            },
{
    reveal(dynamic_outcome);
    let (luma, base, primary): (Gray, Gray, Seq<Seq<char>>) = choose|luma: Gray, base: Gray, primary: Seq<Seq<char>>|
        {
            &&& #[trigger] luma_outcome(picture, luma)
            &&& #[trigger] normalized_outcome(luma, base)
            &&& #[trigger] decode_outcome(readers, base, primary)
            &&& if primary.len() > 0 {
                found == primary
            } else {
                exists|colors: Seq<Gray>| #[trigger]
                    channels_outcome(picture, colors) && first_decoded(readers, colors, found)
            }
        };
    if primary.len() == 0 {
        let colors = choose|colors: Seq<Gray>| #[trigger]
            channels_outcome(picture, colors) && first_decoded(readers, colors, found);
        let rgb = choose|rgb: Rgb| #[trigger] rgb_outcome(picture, rgb) && all_normalized(channels(rgb), colors);
        assert(all_normalized(channels(rgb), colors));
    }
    assert(luma_outcome(picture, luma) && normalized_outcome(luma, base) && decode_outcome(readers, base, primary));
}

/// A rendered page is searched aggressively in its five forms, one after the other: what is found
/// is what the first of them has in which anything is found.
pub proof fn law_first_aggressive(readers: Readers, grays: Seq<Gray>, found: Seq<Seq<char>>) -> (i: int)
    requires
        first_aggressive(readers, grays, found),
    ensures
        0 <= i <= grays.len(),
        found.len() == 0 ==> i == grays.len(),
        found.len() > 0 ==> i < grays.len() && searched_at(readers, grays[i], found),
        forall|j: int| 0 <= j < i ==> searched_at(readers, #[trigger] grays[j], Seq::empty()),
    decreases grays.len(),
{
    if grays.len() == 0 {
        0
    } else {
        let texts = lemma_aggressive_step(readers, grays, found);
        if texts.len() > 0 {
            0
        } else {
            assert(texts =~= Seq::<Seq<char>>::empty());
            let rest = grays.drop_first();
            let i = law_first_aggressive(readers, rest, found);
            assert forall|j: int| 0 <= j < i + 1 implies searched_at(readers, #[trigger] grays[j], Seq::empty()) by {
                if j > 0 {
                    assert(rest[j - 1] == grays[j]);
                }
            }
            i + 1
        }
    }
}

proof fn lemma_aggressive_step(readers: Readers, grays: Seq<Gray>, found: Seq<Seq<char>>) -> (texts: Seq<Seq<char>>)
    requires
        grays.len() > 0,
        first_aggressive(readers, grays, found),
    ensures
        searched_at(readers, grays[0], texts),
        texts.len() > 0 ==> found == texts,
        texts.len() == 0 ==> first_aggressive(readers, grays.drop_first(), found),
{
    let (base, texts): (Gray, Seq<Seq<char>>) = choose|base: Gray, texts: Seq<Seq<char>>|
        {
            &&& #[trigger] normalized_outcome(grays[0], base)
            &&& #[trigger] with_outcome(readers, base, true, texts)
            &&& if texts.len() > 0 {
                found == texts
            } else {
                first_aggressive(readers, grays.drop_first(), found)
            }
        };
    reveal(searched_at);
    texts
}

/// Whether an aggressive search of an image, brought to the size it is searched at, may find these
/// texts.
#[verifier::opaque]
pub open spec fn searched_at(readers: Readers, gray: Gray, texts: Seq<Seq<char>>) -> bool {
    exists|base: Gray| #[trigger] normalized_outcome(gray, base) && with_outcome(readers, base, true, texts)
}

/// What is found on a rendered page is what the first of its five forms has in which an aggressive
/// search finds anything.
pub proof fn law_rendered(readers: Readers, picture: Picture, found: Seq<Seq<char>>)
    requires
        rendered_outcome(readers, picture, found),
    ensures
        exists|luma: Gray, forms: Seq<Gray>|
            #[trigger] luma_outcome(picture, luma) && #[trigger] rendered_variants(luma, forms) && first_aggressive(
                readers,
                forms,
                found,
            ),
{
    reveal(rendered_outcome);
}

/// An image of any size is brought to the size it is searched at before it is searched.
pub proof fn law_normalized_first(readers: Readers, gray: Gray, found: Seq<Seq<char>>)
    requires
        decode_outcome(readers, gray, found),
    ensures
        exists|base: Gray| #[trigger]
            normalized_outcome(gray, base) && (with_outcome(readers, base, false, found) || with_outcome(
                readers,
                base,
                true,
                found,
            )),
{
    let (base, fast): (Gray, Seq<Seq<char>>) = choose|base: Gray, fast: Seq<Seq<char>>|
        {
            &&& #[trigger] normalized_outcome(gray, base)
            &&& #[trigger] with_outcome(readers, base, false, fast)
            &&& if fast.len() > 0 {
                found == fast
            } else {
                with_outcome(readers, base, true, found)
            }
        };
    assert(normalized_outcome(gray, base));
}

} // verus!
