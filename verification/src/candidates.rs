//! Payloads that stand as plain text in a document.

use vstd::prelude::*;
use vstd::string::*;
use vstd::utf8::{decode_utf8, encode_utf8, is_ascii_chars, is_ascii_chars_encode_utf8, valid_utf8};
use crate::text::{alphanumeric, chars_of, comma_count, count_commas, found, found_at, is_alphanumeric,
    law_parts_of_text, occurs, occurs_at, slice_of, string_of, texts_of};

verus! {

/// The text of bytes in UTF-8, with replacement characters for what is none.
pub uninterp spec fn utf8_lossy(bytes: Seq<u8>) -> Seq<char>;

/// Calls `String::from_utf8_lossy`. Claimed of it: bytes that are valid give the text that
/// they encode, and there is a text for any bytes but none. Which characters stand for what is
/// not valid is not stated.
#[verifier::external_body]
pub(crate) fn lossy_text(bytes: &[u8]) -> (r: String)
    ensures
        r@ == utf8_lossy(bytes@),
        valid_utf8(bytes@) ==> r@ == decode_utf8(bytes@),
        bytes@.len() > 0 ==> r@.len() > 0,
{
    String::from_utf8_lossy(bytes).to_string()
}

/// Calls `String::from_utf8`. Claimed of it: it succeeds just on valid bytes, and gives the
/// text that they encode.
#[verifier::external_body]
pub(crate) fn strict_text(bytes: Vec<u8>) -> (r: Option<String>)
    ensures
        r is Some <==> valid_utf8(bytes@),
        r matches Some(text) ==> text@ == decode_utf8(bytes@),
{
    String::from_utf8(bytes).ok()
}

/// Claims of `char::from_u32` that it gives the character with that number, for the numbers
/// that have one.
pub assume_specification[ char::from_u32 ](i: u32) -> (r: Option<char>)
    ensures
        r is Some <==> i < 0xd800 || 0xe000 <= i <= 0x10ffff,
        r matches Some(c) ==> c == i as char,
;

/// The text of 16-bit units in UTF-16, unless a surrogate stands alone.
pub open spec fn utf16_text(units: Seq<u16>) -> Option<Seq<char>>
    decreases units.len(),
{
    if units.len() == 0 {
        Some(Seq::empty())
    } else if units[0] < 0xd800 || units[0] >= 0xe000 {
        match utf16_text(units.drop_first()) {
            Some(rest) => Some(seq![units[0] as char] + rest),
            None => None,
        }
    } else if units[0] < 0xdc00 && units.len() >= 2 && 0xdc00 <= units[1] < 0xe000 {
        match utf16_text(units.subrange(2, units.len() as int)) {
            Some(rest) => Some(seq![surrogate_pair(units[0], units[1])] + rest),
            None => None,
        }
    } else {
        None
    }
}

/// The character of a pair of surrogates.
pub open spec fn surrogate_pair(high: u16, low: u16) -> char {
    (0x10000 + (high - 0xd800) * 0x400 + (low - 0xdc00)) as char
}

/// The text of units in UTF-16.
fn decode_utf16(units: &Vec<u16>) -> (r: Option<Vec<char>>)
    ensures
        r is Some <==> utf16_text(units@) is Some,
        r matches Some(text) ==> utf16_text(units@) == Some(text@),
{
    let mut out: Vec<char> = Vec::new();
    let mut i: usize = 0;
    assert(units@.subrange(0, units@.len() as int) =~= units@);
    assert(forall|rest: Seq<char>| Seq::<char>::empty() + rest =~= rest);
    while i < units.len()
        invariant
            i <= units@.len(),
            utf16_text(units@) is Some <==> utf16_text(units@.subrange(i as int, units@.len() as int)) is Some,
            utf16_text(units@.subrange(i as int, units@.len() as int)) matches Some(rest) ==> utf16_text(units@)
                == Some(out@ + rest),
        decreases units@.len() - i,
    {
        let unit: u16 = units[i];
        let ghost rest = units@.subrange(i as int, units@.len() as int);
        let ghost done = out@;
        if unit < 0xd800 || unit >= 0xe000 {
            match char::from_u32(unit as u32) {
                Some(c) => {
                    out.push(c);
                    proof {
                        assert(rest.drop_first() =~= units@.subrange(i + 1, units@.len() as int));
                        assert(c == unit as char);
                        if let Some(tail) = utf16_text(rest.drop_first()) {
                            assert(done + (seq![c] + tail) =~= done.push(c) + tail);
                        }
                    }
                },
                None => {
                    return None;
                },
            }
            i = i + 1;
        } else if unit < 0xdc00 && units.len() - i >= 2 && 0xdc00 <= units[i + 1] && units[i + 1] < 0xe000 {
            let low: u16 = units[i + 1];
            let scalar: u32 = 0x10000 + (unit - 0xd800) as u32 * 0x400 + (low - 0xdc00) as u32;
            match char::from_u32(scalar) {
                Some(c) => {
                    out.push(c);
                    proof {
                        assert(rest.subrange(2, rest.len() as int) =~= units@.subrange(i + 2, units@.len() as int));
                        assert(c == surrogate_pair(unit, low));
                        if let Some(tail) = utf16_text(rest.subrange(2, rest.len() as int)) {
                            assert(done + (seq![c] + tail) =~= done.push(c) + tail);
                        }
                    }
                },
                None => {
                    return None;
                },
            }
            i = i + 2;
        } else {
            return None;
        }
    }
    assert(out@ + Seq::<char>::empty() =~= out@);
    assert(units@.subrange(i as int, units@.len() as int) =~= Seq::<u16>::empty());
    assert(utf16_text(Seq::<u16>::empty()) == Some(Seq::<char>::empty()));
    Some(out)
}

/// The 16-bit units of pairs of bytes from `start` on, a last byte alone left out.
pub open spec fn byte_pairs(bytes: Seq<u8>, start: int, big_endian: bool) -> Seq<u16> {
    Seq::new(
        ((bytes.len() - start) / 2) as nat,
        |i: int|
            {
                let first = bytes[start + 2 * i];
                let second = bytes[start + 2 * i + 1];
                if big_endian {
                    (first * 256 + second) as u16
                } else {
                    (second * 256 + first) as u16
                }
            },
    )
}

/// The 16-bit units of pairs of bytes.
fn pair_bytes(bytes: &[u8], start: usize, big_endian: bool) -> (r: Vec<u16>)
    requires
        start <= bytes@.len(),
    ensures
        r@ == byte_pairs(bytes@, start as int, big_endian),
{
    let mut out: Vec<u16> = Vec::new();
    let count: usize = (bytes.len() - start) / 2;
    for i in 0..count
        invariant
            start <= bytes@.len(),
            count == (bytes@.len() - start) / 2,
            out@.len() == i,
            forall|j: int| 0 <= j < i ==> #[trigger] out@[j] == byte_pairs(bytes@, start as int, big_endian)[j],
    {
        assert(bytes.len() <= usize::MAX);
        let first: u16 = bytes[start + 2 * i] as u16;
        let second: u16 = bytes[start + 2 * i + 1] as u16;
        out.push(if big_endian { first * 256 + second } else { second * 256 + first });
    }
    assert(out@ =~= byte_pairs(bytes@, start as int, big_endian));
    out
}

/// How many bytes are zero.
pub open spec fn zero_count(bytes: Seq<u8>) -> nat
    decreases bytes.len(),
{
    if bytes.len() == 0 {
        0
    } else {
        zero_count(bytes.drop_last()) + if bytes.last() == 0 { 1nat } else { 0nat }
    }
}

/// The UTF-16 that some bytes may be: as a byte order mark says, or big-endian where more
/// than a third of the bytes is zero.
pub open spec fn utf16_units(bytes: Seq<u8>) -> Option<Seq<u16>> {
    if bytes.len() < 2 {
        None
    } else if bytes[0] == 0xfe && bytes[1] == 0xff {
        Some(byte_pairs(bytes, 2, true))
    } else if bytes[0] == 0xff && bytes[1] == 0xfe {
        Some(byte_pairs(bytes, 2, false))
    } else if zero_count(bytes) * 3 > bytes.len() {
        Some(byte_pairs(bytes, 0, true))
    } else {
        None
    }
}

/// The texts that the bytes of a document may stand for: the one in UTF-8, unless it is
/// empty, and the one in UTF-16 where they look like it.
pub open spec fn byte_texts(bytes: Seq<u8>) -> Seq<Seq<char>> {
    let first = if utf8_lossy(bytes).len() > 0 { seq![utf8_lossy(bytes)] } else { Seq::empty() };
    match utf16_units(bytes) {
        Some(units) => match utf16_text(units) {
            Some(text) => first.push(text),
            None => first,
        },
        None => first,
    }
}

/// The UTF-16 that some bytes may be.
fn units_of(bytes: &[u8]) -> (r: Option<Vec<u16>>)
    ensures
        r is Some <==> utf16_units(bytes@) is Some,
        r matches Some(units) ==> utf16_units(bytes@) == Some(units@),
{
    if bytes.len() < 2 {
        return None;
    }
    if bytes[0] == 0xfe && bytes[1] == 0xff {
        return Some(pair_bytes(bytes, 2, true));
    }
    if bytes[0] == 0xff && bytes[1] == 0xfe {
        return Some(pair_bytes(bytes, 2, false));
    }
    let mut zeros: usize = 0;
    for i in 0..bytes.len()
        invariant
            zeros == zero_count(bytes@.take(i as int)),
            zeros <= i,
    {
        assert(bytes@.take(i + 1).drop_last() =~= bytes@.take(i as int));
        if bytes[i] == 0 {
            zeros = zeros + 1;
        }
    }
    assert(bytes@.take(bytes@.len() as int) =~= bytes@);
    if zeros as u128 * 3 > bytes.len() as u128 {
        Some(pair_bytes(bytes, 0, true))
    } else {
        None
    }
}

/// The 16-bit units of a character in UTF-16.
pub open spec fn char_units(c: char) -> Seq<u16> {
    let n = c as u32;
    if n < 0x10000 {
        seq![n as u16]
    } else {
        seq![(0xd800 + (n - 0x10000) / 0x400) as u16, (0xdc00 + (n - 0x10000) % 0x400) as u16]
    }
}

/// The 16-bit units of a text in UTF-16.
pub open spec fn text_units(text: Seq<char>) -> Seq<u16>
    decreases text.len(),
{
    if text.len() == 0 {
        Seq::empty()
    } else {
        char_units(text[0]) + text_units(text.drop_first())
    }
}

/// The bytes of 16-bit units behind a byte order mark, in the order that it says.
pub open spec fn marked_bytes(units: Seq<u16>, big_endian: bool) -> Seq<u8> {
    let mark = if big_endian { seq![0xfeu8, 0xff] } else { seq![0xffu8, 0xfe] };
    mark + Seq::new(
        2 * units.len(),
        |i: int|
            if (i % 2 == 0) == big_endian {
                (units[i / 2] / 256) as u8
            } else {
                (units[i / 2] % 256) as u8
            },
    )
}

/// The number of a character is that of no surrogate, and gives the character back.
proof fn lemma_char(c: char)
    ensures
        c as u32 <= 0x10ffff,
        !(0xd800 <= c as u32 && (c as u32) < 0xe000),
        (c as u32) as char == c,
{
}

/// A text in UTF-16 is read back from its units.
proof fn lemma_text_units(text: Seq<char>)
    ensures
        utf16_text(text_units(text)) == Some(text),
    decreases text.len(),
{
    let units = text_units(text);
    if text.len() > 0 {
        let c = text[0];
        let rest = text.drop_first();
        let n = c as u32;
        lemma_text_units(rest);
        lemma_char(c);
        assert(text =~= seq![c] + rest);
        if n < 0x10000 {
            assert(units.drop_first() =~= text_units(rest));
        } else {
            assert(units.subrange(2, units.len() as int) =~= text_units(rest));
            let high = units[0];
            let low = units[1];
            assert(n - 0x10000 == (n - 0x10000) / 0x400 * 0x400 + (n - 0x10000) % 0x400);
            assert(high == 0xd800 + (n - 0x10000) / 0x400);
            assert(low == 0xdc00 + (n - 0x10000) % 0x400);
            assert(0x10000 + (high - 0xd800) * 0x400 + (low - 0xdc00) == n);
        }
    } else {
        assert(text =~= Seq::<char>::empty());
    }
}

/// A text that is written in UTF-16 behind a byte order mark, of either kind, is the last of
/// the texts that its bytes may stand for.
pub proof fn law_utf16_read_back(text: Seq<char>, big_endian: bool)
    ensures
        utf16_units(marked_bytes(text_units(text), big_endian)) == Some(text_units(text)),
        byte_texts(marked_bytes(text_units(text), big_endian)).last() == text,
{
    let units = text_units(text);
    let bytes = marked_bytes(units, big_endian);
    lemma_text_units(text);
    let pairs = byte_pairs(bytes, 2, big_endian);
    assert forall|i: int| 0 <= i < units.len() implies #[trigger] pairs[i] == units[i] by {
        let unit = units[i];
        assert((2 * i) / 2 == i && (2 * i + 1) / 2 == i);
        assert((2 * i) % 2 == 0 && (2 * i + 1) % 2 == 1);
        assert(bytes[2 + 2 * i] == if big_endian { (unit / 256) as u8 } else { (unit % 256) as u8 });
        assert(bytes[2 + 2 * i + 1] == if big_endian { (unit % 256) as u8 } else { (unit / 256) as u8 });
        assert(unit / 256 * 256 + unit % 256 == unit);
    }
    assert(pairs =~= units);
}

/// The texts that the bytes of a document may stand for. No bytes stand for none; otherwise the
/// first is their text in UTF-8, which is the one that they encode where they are valid. Of a
/// text that is written in UTF-16 behind a byte order mark there are two, and the second is
/// that text.
pub fn decode_pdf_text_bytes(bytes: &[u8]) -> (r: Vec<String>)
    ensures
        texts_of(r@) == byte_texts(bytes@),
        bytes@.len() == 0 ==> r@.len() == 0,
        bytes@.len() > 0 ==> r@.len() > 0 && r@[0]@ == utf8_lossy(bytes@),
        bytes@.len() > 0 && valid_utf8(bytes@) ==> r@[0]@ == decode_utf8(bytes@),
        forall|text: Seq<char>, big_endian: bool|
            bytes@ == #[trigger] marked_bytes(text_units(text), big_endian) ==> r@.len() == 2 && r@[1]@ == text,
{
    let mut out: Vec<String> = Vec::new();
    let utf8: String = lossy_text(bytes);
    proof {
        assert forall|text: Seq<char>, big_endian: bool|
            bytes@ == #[trigger] marked_bytes(text_units(text), big_endian) implies byte_texts(bytes@).len() == 2
            && byte_texts(bytes@)[1] == text by {
            law_utf16_read_back(text, big_endian);
            lemma_text_units(text);
        }
    }
    if !utf8.as_str().is_empty() {
        out.push(utf8);
    }
    let ghost first = texts_of(out@);
    assert(first =~= if utf8_lossy(bytes@).len() > 0 { seq![utf8_lossy(bytes@)] } else { Seq::empty() });
    if let Some(units) = units_of(bytes) {
        if let Some(text) = decode_utf16(&units) {
            let second: String = string_of(&text);
            out.push(second);
            assert(texts_of(out@) =~= first.push(text@));
        }
    }
    assert(texts_of(out@) == byte_texts(bytes@));
    assert(forall|i: int| 0 <= i < out@.len() ==> (#[trigger] out@[i])@ == texts_of(out@)[i]);
    out
}

/// What a payload in the text begins with.
pub open spec fn opening() -> Seq<char> {
    seq!['0', '1', ',', '3', '2']
}

/// A text without the characters that `dropped` picks, and with plain commas.
pub open spec fn squeezed(text: Seq<char>, dropped: spec_fn(char) -> bool) -> Seq<char>
    decreases text.len(),
{
    if text.len() == 0 {
        text
    } else if dropped(text.last()) {
        squeezed(text.drop_last(), dropped)
    } else {
        squeezed(text.drop_last(), dropped).push(
            if text.last() == '，' {
                ','
            } else {
                text.last()
            },
        )
    }
}

/// Spaces, line ends and zeros, and tabs where `tabs` says so.
pub open spec fn is_gap(c: char, tabs: bool) -> bool {
    c == '\0' || c == '\r' || c == '\n' || c == ' ' || (tabs && c == '\t')
}

/// A text without gaps, and with plain commas.
fn squeeze(chars: &Vec<char>, tabs: bool) -> (r: Vec<char>)
    ensures
        r@ == squeezed(chars@, |c: char| is_gap(c, tabs)),
{
    let mut out: Vec<char> = Vec::new();
    assert(chars@.take(0) =~= Seq::<char>::empty());
    for i in 0..chars.len()
        invariant
            out@ == squeezed(chars@.take(i as int), |c: char| is_gap(c, tabs)),
    {
        assert(chars@.take(i + 1).drop_last() =~= chars@.take(i as int));
        let c: char = chars[i];
        if !(c == '\0' || c == '\r' || c == '\n' || c == ' ' || (tabs && c == '\t')) {
            out.push(if c == '，' { ',' } else { c });
        }
    }
    assert(chars@.take(chars@.len() as int) =~= chars@);
    out
}

/// A text squeezed, where that looks like the payload of an invoice: it has the opening of
/// one, at least six commas and at least twenty bytes.
pub open spec fn qr_like(text: Seq<char>) -> Option<Seq<char>> {
    let s = squeezed(text, |c: char| is_gap(c, false));
    if occurs(s, opening()) && comma_count(s) >= 6 && encode_utf8(s).len() >= 20 {
        Some(s)
    } else {
        None
    }
}

/// What a payload in the text begins with.
fn opening_chars() -> (r: Vec<char>)
    ensures
        r@ == opening(),
{
    let mut out: Vec<char> = Vec::new();
    out.push('0');
    out.push('1');
    out.push(',');
    out.push('3');
    out.push('2');
    assert(out@ =~= opening());
    out
}

/// A text squeezed, where that looks like the payload of an invoice.
pub fn normalize_qr_like_text(text: &str) -> (r: Option<String>)
    ensures
        r is Some <==> qr_like(text@) is Some,
        r matches Some(s) ==> qr_like(text@) == Some(s@),
{
    let chars: Vec<char> = chars_of(text);
    let s: Vec<char> = squeeze(&chars, false);
    let pattern: Vec<char> = opening_chars();
    if !found(&s, &pattern) || count_commas(&s) < 6 {
        return None;
    }
    let out: String = string_of(&s);
    if out.as_str().as_bytes().len() < 20 {
        return None;
    }
    Some(out)
}

/// A character that a payload in the text is made of.
pub open spec fn is_payload_char(c: char) -> bool {
    is_alphanumeric(c) || c == ',' || c == '.' || c == '-'
}

/// How many characters of a payload stand in `text` from place `i` on, up to `limit`.
pub open spec fn payload_run(text: Seq<char>, i: int, limit: nat) -> nat
    decreases limit,
{
    if limit > 0 && 0 <= i < text.len() && is_payload_char(text[i]) {
        1 + payload_run(text, i + 1, (limit - 1) as nat)
    } else {
        0
    }
}

/// The payload that begins in `text` at place `i`, where one does: at most 221 characters.
pub open spec fn payload_at(text: Seq<char>, i: int) -> Option<Seq<char>> {
    if occurs_at(text, opening(), i) {
        qr_like(text.subrange(i, i + payload_run(text, i, 221)))
    } else {
        None
    }
}

/// The payloads that begin in `text` before place `n`.
pub open spec fn payloads_before(text: Seq<char>, n: int) -> Seq<Seq<char>>
    decreases n,
{
    if n <= 0 {
        Seq::empty()
    } else {
        match payload_at(text, n - 1) {
            Some(payload) => payloads_before(text, n - 1).push(payload),
            None => payloads_before(text, n - 1),
        }
    }
}

/// The payloads in a text, in order: whatever begins like one in the squeezed text and looks
/// like one.
pub open spec fn qr_candidates(text: Seq<char>) -> Seq<Seq<char>> {
    let s = squeezed(text, |c: char| is_gap(c, true));
    payloads_before(s, s.len() as int)
}

proof fn lemma_payload_run(text: Seq<char>, i: int, limit: nat)
    requires
        0 <= i <= text.len(),
    ensures
        payload_run(text, i, limit) <= limit,
        i + payload_run(text, i, limit) <= text.len(),
    decreases limit,
{
    if limit > 0 && i < text.len() && is_payload_char(text[i]) {
        lemma_payload_run(text, i + 1, (limit - 1) as nat);
    }
}

/// Where the payload that begins at `start` ends.
fn payload_end(text: &Vec<char>, start: usize) -> (r: usize)
    requires
        start <= text@.len(),
    ensures
        r == start + payload_run(text@, start as int, 221),
        start <= r <= text@.len(),
{
    let mut end: usize = start;
    proof {
        lemma_payload_run(text@, start as int, 221);
    }
    while end < text.len() && end - start < 221 && (alphanumeric(text[end]) || text[end] == ',' || text[end] == '.'
        || text[end] == '-')
        invariant
            start <= end <= text@.len(),
            end - start <= 221,
            payload_run(text@, start as int, 221) == (end - start) + payload_run(
                text@,
                end as int,
                (221 - (end - start)) as nat,
            ),
        decreases text@.len() - end,
    {
        end = end + 1;
    }
    end
}

/// The payloads in a text.
pub fn extract_qr_candidates(text: &str) -> (r: Vec<String>)
    ensures
        texts_of(r@) == qr_candidates(text@),
{
    let chars: Vec<char> = chars_of(text);
    let s: Vec<char> = squeeze(&chars, true);
    let pattern: Vec<char> = opening_chars();
    let mut out: Vec<String> = Vec::new();
    assert(texts_of(out@) =~= Seq::<Seq<char>>::empty());
    for i in 0..s.len()
        invariant
            pattern@ == opening(),
            texts_of(out@) == payloads_before(s@, i as int),
    {
        if found_at(&s, &pattern, i) {
            let end: usize = payload_end(&s, i);
            let run: Vec<char> = slice_of(&s, i, end);
            let candidate: String = string_of(&run);
            if let Some(payload) = normalize_qr_like_text(candidate.as_str()) {
                let ghost before = texts_of(out@);
                let ghost added = payload@;
                out.push(payload);
                assert(texts_of(out@) =~= before.push(added));
            }
        }
    }
    out
}

/// A squeezed text has no gaps and no wide commas.
proof fn lemma_squeezed_plain(text: Seq<char>, dropped: spec_fn(char) -> bool)
    requires
        !dropped(','),
    ensures
        forall|i: int|
            0 <= i < squeezed(text, dropped).len() ==> !dropped(#[trigger] squeezed(text, dropped)[i]) && squeezed(
                text,
                dropped,
            )[i] != '，',
    decreases text.len(),
{
    if text.len() > 0 {
        let head = squeezed(text.drop_last(), dropped);
        let all = squeezed(text, dropped);
        lemma_squeezed_plain(text.drop_last(), dropped);
        assert forall|i: int| 0 <= i < all.len() implies !dropped(#[trigger] all[i]) && all[i] != '，' by {
            if i < head.len() {
                assert(all[i] == head[i]);
            }
        }
    }
}

/// Squeezing leaves a text without gaps and without wide commas as it is.
proof fn lemma_squeezed_same(text: Seq<char>, dropped: spec_fn(char) -> bool)
    requires
        forall|i: int| 0 <= i < text.len() ==> !dropped(#[trigger] text[i]) && text[i] != '，',
    ensures
        squeezed(text, dropped) == text,
    decreases text.len(),
{
    if text.len() > 0 {
        let head = text.drop_last();
        assert forall|i: int| 0 <= i < head.len() implies !dropped(#[trigger] head[i]) && head[i] != '，' by {
            assert(head[i] == text[i]);
        }
        lemma_squeezed_same(head, dropped);
        assert(text.last() == text[text.len() - 1]);
        assert(squeezed(text, dropped) =~= text);
    }
}

/// A text that was normalized is normal: normalizing it again gives it back.
pub proof fn law_normalized_again(text: Seq<char>)
    ensures
        qr_like(text) matches Some(payload) ==> qr_like(payload) == Some(payload),
{
    if let Some(payload) = qr_like(text) {
        lemma_squeezed_plain(text, |c: char| is_gap(c, false));
        lemma_squeezed_same(payload, |c: char| is_gap(c, false));
    }
}

/// What every payload read from a text looks like: it begins with the opening of an invoice,
/// has at least six commas and at least twenty bytes, and at most 221 characters, each of them
/// a letter, a digit, a comma, a point or a hyphen.
pub open spec fn is_extracted(payload: Seq<char>) -> bool {
    &&& occurs_at(payload, opening(), 0)
    &&& comma_count(payload) >= 6
    &&& encode_utf8(payload).len() >= 20
    &&& payload.len() <= 221
    &&& forall|i: int| 0 <= i < payload.len() ==> is_payload_char(#[trigger] payload[i])
}

proof fn lemma_run_chars(text: Seq<char>, i: int, limit: nat, k: int)
    requires
        0 <= i <= k < i + payload_run(text, i, limit),
    ensures
        k < text.len(),
        is_payload_char(text[k]),
    decreases limit,
{
    if limit > 0 && i < text.len() && is_payload_char(text[i]) && i < k {
        lemma_run_chars(text, i + 1, (limit - 1) as nat, k);
    }
}

proof fn lemma_run_reaches(text: Seq<char>, i: int, limit: nat, n: nat)
    requires
        0 <= i,
        i + n <= text.len(),
        n <= limit,
        forall|k: int| i <= k < i + n ==> is_payload_char(#[trigger] text[k]),
    ensures
        payload_run(text, i, limit) >= n,
    decreases n,
{
    if n > 0 {
        assert(is_payload_char(text[i]));
        lemma_run_reaches(text, i + 1, (limit - 1) as nat, (n - 1) as nat);
    }
}

proof fn lemma_payload_at(text: Seq<char>, i: int)
    requires
        0 <= i <= text.len(),
    ensures
        payload_at(text, i) matches Some(payload) ==> is_extracted(payload),
{
    if let Some(payload) = payload_at(text, i) {
        let run = payload_run(text, i, 221);
        let part = text.subrange(i, i + run);
        lemma_payload_run(text, i, 221);
        let head = text.subrange(i, i + 5);
        assert(head == opening());
        assert forall|k: int| i <= k < i + 5 implies is_payload_char(#[trigger] text[k]) by {
            assert(text[k] == head[k - i]);
        }
        lemma_run_reaches(text, i, 221, 5);
        assert forall|k: int| 0 <= k < part.len() implies is_payload_char(#[trigger] part[k]) by {
            lemma_run_chars(text, i, 221, i + k);
        }
        lemma_squeezed_same(part, |c: char| is_gap(c, false));
        assert(payload == part);
        assert(payload.subrange(0, 5) =~= head);
    }
}

proof fn lemma_payloads_before(text: Seq<char>, n: int)
    requires
        n <= text.len(),
    ensures
        forall|i: int|
            0 <= i < payloads_before(text, n).len() ==> is_extracted(#[trigger] payloads_before(text, n)[i]),
    decreases n,
{
    if n > 0 {
        let before = payloads_before(text, n - 1);
        let all = payloads_before(text, n);
        lemma_payloads_before(text, n - 1);
        lemma_payload_at(text, n - 1);
        assert forall|i: int| 0 <= i < all.len() implies is_extracted(#[trigger] all[i]) by {
            if i < before.len() {
                assert(all[i] == before[i]);
            }
        }
    }
}

/// Whatever text payloads are read from, each of them looks like the payload of an invoice.
pub proof fn law_extracted(text: Seq<char>)
    ensures
        forall|i: int| 0 <= i < qr_candidates(text).len() ==> is_extracted(#[trigger] qr_candidates(text)[i]),
{
    let s = squeezed(text, |c: char| is_gap(c, true));
    lemma_payloads_before(s, s.len() as int);
}

/// A text that is the payload of an invoice as it may stand in a document: it begins with
/// `01,32`, has at least six commas and from 20 to 221 characters, each of them a letter or a
/// digit of ASCII, a comma, a hyphen or a point.
pub open spec fn is_plain_payload(payload: Seq<char>) -> bool {
    &&& 20 <= payload.len() <= 221
    &&& payload[0] == '0' && payload[1] == '1' && payload[2] == ',' && payload[3] == '3' && payload[4] == '2'
    &&& payload.filter(|c: char| c == ',').len() >= 6
    &&& forall|i: int|
        0 <= i < payload.len() ==> {
            let n = #[trigger] payload[i] as u32;
            48 <= n <= 57 || 65 <= n <= 90 || 97 <= n <= 122 || 44 <= n <= 46
        }
}

/// A character that can stand in a payload, or between its characters without belonging to it.
pub open spec fn goes_on(c: char) -> bool {
    let n = c as u32;
    ||| 48 <= n <= 57 || 65 <= n <= 90 || 97 <= n <= 122 || 44 <= n <= 46
    ||| n == 0 || n == 9 || n == 10 || n == 13 || n == 32 || n == 0xff0c
}

proof fn lemma_squeezed_concat(a: Seq<char>, b: Seq<char>, dropped: spec_fn(char) -> bool)
    ensures
        squeezed(a + b, dropped) == squeezed(a, dropped) + squeezed(b, dropped),
    decreases b.len(),
{
    let all = a + b;
    if b.len() == 0 {
        assert(all =~= a);
        assert(squeezed(a, dropped) + squeezed(b, dropped) =~= squeezed(a, dropped));
    } else {
        lemma_squeezed_concat(a, b.drop_last(), dropped);
        assert(all.drop_last() =~= a + b.drop_last());
        assert(all.last() == b.last());
        assert(squeezed(all, dropped) =~= squeezed(a, dropped) + squeezed(b, dropped));
    }
}

proof fn lemma_squeezed_one(c: char, dropped: spec_fn(char) -> bool)
    ensures
        dropped(c) ==> squeezed(seq![c], dropped) == Seq::<char>::empty(),
        !dropped(c) ==> squeezed(seq![c], dropped) == seq![if c == '，' { ',' } else { c }],
{
    assert(seq![c].drop_last() =~= Seq::<char>::empty());
    assert(squeezed(Seq::<char>::empty(), dropped) =~= Seq::<char>::empty());
    assert(seq![c].last() == c);
    if !dropped(c) {
        assert(squeezed(seq![c], dropped) =~= seq![if c == '，' { ',' } else { c }]);
    }
}

proof fn lemma_run_exact(text: Seq<char>, i: int, limit: nat, n: nat)
    requires
        0 <= i,
        i + n <= text.len(),
        n <= limit,
        forall|k: int| i <= k < i + n ==> is_payload_char(#[trigger] text[k]),
        n == limit || i + n == text.len() || !is_payload_char(text[i + n]),
    ensures
        payload_run(text, i, limit) == n,
    decreases n,
{
    if n > 0 {
        assert(is_payload_char(text[i]));
        lemma_run_exact(text, i + 1, (limit - 1) as nat, (n - 1) as nat);
    }
}

proof fn lemma_payload_listed(text: Seq<char>, i: int, n: int)
    requires
        0 <= i < n,
        payload_at(text, i) is Some,
    ensures
        payloads_before(text, n).contains(payload_at(text, i)->0),
    decreases n,
{
    let all = payloads_before(text, n);
    let payload = payload_at(text, i)->0;
    if i == n - 1 {
        assert(all.last() == payload);
        assert(all[all.len() - 1] == payload);
    } else {
        lemma_payload_listed(text, i, n - 1);
        let before = payloads_before(text, n - 1);
        let k = choose|k: int| 0 <= k < before.len() && before[k] == payload;
        assert(all[k] == payload);
    }
}

proof fn lemma_plain_payload(payload: Seq<char>, tabs: bool)
    requires
        is_plain_payload(payload),
    ensures
        squeezed(payload, |c: char| is_gap(c, tabs)) == payload,
        qr_like(payload) == Some(payload),
        payload.subrange(0, 5) == opening(),
        forall|i: int| 0 <= i < payload.len() ==> is_payload_char(#[trigger] payload[i]),
{
    assert forall|i: int| 0 <= i < payload.len() implies !is_gap(#[trigger] payload[i], tabs) && payload[i] != '，'
        && !is_gap(payload[i], false) && is_payload_char(payload[i]) by {
        lemma_char(payload[i]);
        let n = payload[i] as u32;
        assert(48 <= n <= 57 || 65 <= n <= 90 || 97 <= n <= 122 || 44 <= n <= 46);
    }
    lemma_squeezed_same(payload, |c: char| is_gap(c, tabs));
    lemma_squeezed_same(payload, |c: char| is_gap(c, false));
    law_parts_of_text(payload);
    assert(payload.subrange(0, 5) =~= opening());
    assert(occurs_at(payload, opening(), 0));
    assert(is_ascii_chars(payload)) by {
        assert forall|i: int| 0 <= i < payload.len() implies '\0' <= #[trigger] payload[i] <= '\u{7f}' by {
            let n = payload[i] as u32;
            assert(48 <= n <= 57 || 65 <= n <= 90 || 97 <= n <= 122 || 44 <= n <= 46);
        }
    }
    is_ascii_chars_encode_utf8(payload);
}

/// A payload that stands in a text is found there, whatever stands before it, and whatever
/// stands behind it that does not go on with it.
pub proof fn law_payload_found(front: Seq<char>, payload: Seq<char>, back: Seq<char>)
    requires
        is_plain_payload(payload),
        back.len() == 0 || payload.len() == 221 || !goes_on(back[0]),
    ensures
        qr_candidates(front + payload + back).contains(payload),
{
    let dropped = |c: char| is_gap(c, true);
    let f = squeezed(front, dropped);
    let b = squeezed(back, dropped);
    let s = squeezed(front + payload + back, dropped);
    lemma_plain_payload(payload, true);
    lemma_squeezed_concat(front + payload, back, dropped);
    lemma_squeezed_concat(front, payload, dropped);
    assert(s =~= f + payload + b);
    let i = f.len() as int;
    let n = payload.len();
    assert forall|k: int| i <= k < i + n implies is_payload_char(#[trigger] s[k]) by {
        assert(s[k] == payload[k - i]);
    }
    if n < 221 && back.len() > 0 {
        let rest = back.drop_first();
        assert(back =~= seq![back[0]] + rest);
        lemma_squeezed_concat(seq![back[0]], rest, dropped);
        lemma_squeezed_one(back[0], dropped);
        assert(b[0] == back[0]);
        assert(s[i + n] == back[0]);
    }
    lemma_run_exact(s, i, 221, n);
    assert(s.subrange(i, i + n) =~= payload);
    assert(s.subrange(i, i + 5) =~= payload.subrange(0, 5));
    assert(occurs_at(s, opening(), i));
    assert(payload_at(s, i) == Some(payload));
    lemma_payload_listed(s, i, s.len() as int);
}

/// Whatever text payloads are read from, each is the payload of an invoice, and stands in the
/// text: it is the text without gaps and with plain commas, but for something before it and
/// something behind it.
pub proof fn law_payloads_plain(text: Seq<char>, payload: Seq<char>)
    requires
        qr_candidates(text).contains(payload),
    ensures
        is_plain_payload(payload),
        occurs(squeezed(text, |c: char| is_gap(c, true)), payload),
{
    let s = squeezed(text, |c: char| is_gap(c, true));
    let all = qr_candidates(text);
    let k = choose|k: int| 0 <= k < all.len() && all[k] == payload;
    law_extracted(text);
    law_parts_of_text(payload);
    lemma_payload_from(s, s.len() as int, payload);
    assert(is_extracted(all[k]));
    let head = payload.subrange(0, 5);
    assert(head == opening());
    assert(head[0] == payload[0] && head[1] == payload[1] && head[2] == payload[2] && head[3] == payload[3] && head[4]
        == payload[4]);
    assert forall|i: int| 0 <= i < payload.len() implies {
        let n = #[trigger] payload[i] as u32;
        48 <= n <= 57 || 65 <= n <= 90 || 97 <= n <= 122 || 44 <= n <= 46
    } by {
        assert(is_payload_char(payload[i]));
    }
    assert(is_ascii_chars(payload)) by {
        assert forall|i: int| 0 <= i < payload.len() implies '\0' <= #[trigger] payload[i] <= '\u{7f}' by {
            assert(is_payload_char(payload[i]));
        }
    }
    is_ascii_chars_encode_utf8(payload);
}

proof fn lemma_payload_from(text: Seq<char>, n: int, payload: Seq<char>)
    requires
        n <= text.len(),
        payloads_before(text, n).contains(payload),
    ensures
        occurs(text, payload),
    decreases n,
{
    if n > 0 {
        let all = payloads_before(text, n);
        let before = payloads_before(text, n - 1);
        let k = choose|k: int| 0 <= k < all.len() && all[k] == payload;
        if k < before.len() {
            assert(before[k] == payload);
            lemma_payload_from(text, n - 1, payload);
        } else {
            let i = n - 1;
            let run = payload_run(text, i, 221);
            let part = text.subrange(i, i + run);
            lemma_payload_run(text, i, 221);
            assert forall|j: int| 0 <= j < part.len() implies !is_gap(#[trigger] part[j], false) && part[j] != '，' by {
                lemma_run_chars(text, i, 221, i + j);
            }
            lemma_squeezed_same(part, |c: char| is_gap(c, false));
            assert(occurs_at(text, payload, i));
        }
    }
}

/// Spaces, tabs, line ends and zeros in a text do not matter to the payloads in it, wherever
/// they stand; and a wide comma counts as a comma.
pub proof fn law_gaps(front: Seq<char>, back: Seq<char>)
    ensures
        qr_candidates(front + seq![' '] + back) == qr_candidates(front + back),
        qr_candidates(front + seq!['\t'] + back) == qr_candidates(front + back),
        qr_candidates(front + seq!['\n'] + back) == qr_candidates(front + back),
        qr_candidates(front + seq!['\r'] + back) == qr_candidates(front + back),
        qr_candidates(front + seq!['\0'] + back) == qr_candidates(front + back),
        qr_candidates(front + seq!['，'] + back) == qr_candidates(front + seq![','] + back),
        qr_like(front + seq![' '] + back) == qr_like(front + back),
        qr_like(front + seq!['\n'] + back) == qr_like(front + back),
        qr_like(front + seq!['\r'] + back) == qr_like(front + back),
        qr_like(front + seq!['\0'] + back) == qr_like(front + back),
        qr_like(front + seq!['，'] + back) == qr_like(front + seq![','] + back),
{
    lemma_gap(front, ' ', back, true);
    lemma_gap(front, '\t', back, true);
    lemma_gap(front, '\n', back, true);
    lemma_gap(front, '\r', back, true);
    lemma_gap(front, '\0', back, true);
    lemma_gap(front, ' ', back, false);
    lemma_gap(front, '\n', back, false);
    lemma_gap(front, '\r', back, false);
    lemma_gap(front, '\0', back, false);
    lemma_wide_comma(front, back, true);
    lemma_wide_comma(front, back, false);
}

proof fn lemma_gap(front: Seq<char>, gap: char, back: Seq<char>, tabs: bool)
    requires
        is_gap(gap, tabs),
    ensures
        squeezed(front + seq![gap] + back, |c: char| is_gap(c, tabs)) == squeezed(
            front + back,
            |c: char| is_gap(c, tabs),
        ),
{
    let dropped = |c: char| is_gap(c, tabs);
    lemma_squeezed_concat(front + seq![gap], back, dropped);
    lemma_squeezed_concat(front, seq![gap], dropped);
    lemma_squeezed_concat(front, back, dropped);
    lemma_squeezed_one(gap, dropped);
    assert(squeezed(front, dropped) + Seq::<char>::empty() =~= squeezed(front, dropped));
}

proof fn lemma_wide_comma(front: Seq<char>, back: Seq<char>, tabs: bool)
    ensures
        squeezed(front + seq!['，'] + back, |c: char| is_gap(c, tabs)) == squeezed(
            front + seq![','] + back,
            |c: char| is_gap(c, tabs),
        ),
{
    let dropped = |c: char| is_gap(c, tabs);
    lemma_squeezed_concat(front + seq!['，'], back, dropped);
    lemma_squeezed_concat(front, seq!['，'], dropped);
    lemma_squeezed_concat(front + seq![','], back, dropped);
    lemma_squeezed_concat(front, seq![','], dropped);
    lemma_squeezed_one('，', dropped);
    lemma_squeezed_one(',', dropped);
}

/// A text without gaps and wide commas is normal as it is, just where it holds `01,32`, has at
/// least six commas and at least twenty bytes.
pub proof fn law_normalized(text: Seq<char>)
    requires
        forall|i: int|
            0 <= i < text.len() ==> {
                let n = #[trigger] text[i] as u32;
                n != 0 && n != 10 && n != 13 && n != 32 && n != 0xff0c
            },
    ensures
        qr_like(text) == if occurs(text, seq!['0', '1', ',', '3', '2']) && text.filter(|c: char| c == ',').len() >= 6
            && encode_utf8(text).len() >= 20 {
            Some(text)
        } else {
            None
        },
{
    assert forall|i: int| 0 <= i < text.len() implies !is_gap(#[trigger] text[i], false) && text[i] != '，' by {
        let n = text[i] as u32;
        assert(n != 0 && n != 10 && n != 13 && n != 32 && n != 0xff0c);
    }
    lemma_squeezed_same(text, |c: char| is_gap(c, false));
    law_parts_of_text(text);
    assert(opening() =~= seq!['0', '1', ',', '3', '2']);
}

/// Bytes without a byte order mark are read as UTF-16, the higher byte first, just where more than
/// a third of them is zero; a last byte alone is left out.
pub proof fn law_unmarked(bytes: Seq<u8>)
    requires
        bytes.len() >= 2,
        !(bytes[0] == 0xfe && bytes[1] == 0xff),
        !(bytes[0] == 0xff && bytes[1] == 0xfe),
    ensures
        utf16_units(bytes) is Some <==> 3 * bytes.filter(|b: u8| b == 0).len() > bytes.len(),
        utf16_units(bytes) matches Some(units) ==> units.len() == bytes.len() / 2 && forall|i: int|
            0 <= i < units.len() ==> #[trigger] units[i] == bytes[2 * i] * 256 + bytes[2 * i + 1],
{
    lemma_zero_count(bytes);
    let units = byte_pairs(bytes, 0, true);
    assert forall|i: int| 0 <= i < units.len() implies #[trigger] units[i] == bytes[2 * i] * 256 + bytes[2 * i + 1] by {
        assert(bytes[0 + 2 * i] == bytes[2 * i]);
        assert(bytes[0 + 2 * i + 1] == bytes[2 * i + 1]);
    }
}

proof fn lemma_zero_count(bytes: Seq<u8>)
    ensures
        zero_count(bytes) == bytes.filter(|b: u8| b == 0).len(),
    decreases bytes.len(),
{
    reveal(Seq::filter);
    if bytes.len() > 0 {
        lemma_zero_count(bytes.drop_last());
    }
}

/// A surrogate that stands alone makes units no text, and a text begins with what its units begin
/// with.
pub proof fn law_utf16_text(units: Seq<u16>)
    ensures
        utf16_text(Seq::empty()) == Some(Seq::<char>::empty()),
        units.len() > 0 && 0xdc00 <= units[0] < 0xe000 ==> utf16_text(units) is None,
        units.len() == 1 && 0xd800 <= units[0] < 0xe000 ==> utf16_text(units) is None,
        units.len() > 1 && 0xd800 <= units[0] < 0xdc00 && !(0xdc00 <= units[1] < 0xe000) ==> utf16_text(units) is None,
        units.len() > 0 && !(0xd800 <= units[0] < 0xe000) ==> (utf16_text(units) matches Some(text) ==> text.len() > 0
            && text[0] == units[0] as char && utf16_text(units.drop_first()) == Some(text.drop_first())),
{
    if units.len() > 0 && !(0xd800 <= units[0] < 0xe000) {
        if let Some(rest) = utf16_text(units.drop_first()) {
            assert((seq![units[0] as char] + rest).drop_first() =~= rest);
        }
    }
}

} // verus!
