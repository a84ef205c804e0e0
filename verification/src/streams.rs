//! Streams of a document: how they are compressed, and the images in them.

use vstd::prelude::*;
use crate::candidates::{lossy_text, utf8_lossy};
use crate::pdf::{has_name, integer_at, is_named, key, lookup, name_is, PdfDictionary, PdfObject, PdfStream};
use crate::text::{text_equal, texts_of};

verus! {

/// How compressed bytes are to be read.
#[derive(Clone, Copy)]
pub struct CodecParms {
    pub predictor: i64,
    pub columns: i64,
    pub colors: i64,
    pub bits: i64,
    pub early_change: i64,
}

/// Bytes after the filter named was undone, with its parameters, where that succeeds.
pub uninterp spec fn unpacked(filter: Seq<u8>, parms: CodecParms, content: Seq<u8>) -> Option<Seq<u8>>;

/// The larger of two integers.
pub open spec fn larger(a: int, b: int) -> int {
    if a < b {
        b
    } else {
        a
    }
}

/// The bits of a row of predicted samples.
pub open spec fn row_bits(parms: CodecParms) -> int {
    larger(1, parms.colors as int) * larger(1, parms.bits as int) * larger(1, parms.columns as int)
}

/// Whether rows of samples are predicted from the row above, as in PNG files.
pub open spec fn looks_up(predictor: i64) -> bool {
    10 <= predictor <= 15
}

/// Whether rows are predicted from the row above and are so long that their bits cannot be
/// counted in 32 bits.
pub open spec fn is_wide(parms: CodecParms) -> bool {
    looks_up(parms.predictor) && row_bits(parms) > 0xffff_ffff
}

/// Calls `lopdf::Stream::decompressed_content` on a stream with that filter and those
/// parameters. Claimed of it: whether it succeeds, and what it gives, depends on the filter,
/// the parameters and the bytes alone. What the bytes are is not stated.
#[verifier::external_body]
fn unpack(filter: &Vec<u8>, parms: CodecParms, content: &Vec<u8>) -> (r: Option<Vec<u8>>)
    requires
        row_bits(parms) <= usize::MAX,
        !is_wide(parms),
    ensures
        r is Some <==> unpacked(filter@, parms, content@) is Some,
        r matches Some(bytes) ==> unpacked(filter@, parms, content@) == Some(bytes@),
{
    let mut values = lopdf::Dictionary::new();
    values.set("Predictor", parms.predictor);
    values.set("Columns", parms.columns);
    values.set("Colors", parms.colors);
    values.set("BitsPerComponent", parms.bits);
    values.set("EarlyChange", parms.early_change);
    let mut dict = lopdf::Dictionary::new();
    dict.set("Filter", lopdf::Object::Name(filter.clone()));
    dict.set("DecodeParms", values);
    lopdf::Stream::new(dict, content.clone()).decompressed_content().ok()
}

/// The names in an array, where it holds nothing else.
pub open spec fn all_names(items: Seq<PdfObject>) -> Option<Seq<Seq<u8>>>
    decreases items.len(),
{
    if items.len() == 0 {
        Some(Seq::empty())
    } else {
        match (all_names(items.drop_last()), items.last()) {
            (Some(names), PdfObject::Name(name)) => Some(names.push(name@)),
            _ => None,
        }
    }
}

/// The byte strings that some vectors hold.
pub open spec fn byte_lists(lists: Seq<Vec<u8>>) -> Seq<Seq<u8>> {
    lists.map_values(|list: Vec<u8>| list@)
}

/// The filters of a stream: a name, or an array of names.
pub open spec fn filter_list(dict: PdfDictionary) -> Option<Seq<Seq<u8>>> {
    match lookup(dict, "Filter"@) {
        Some(PdfObject::Name(name)) => Some(seq![name@]),
        Some(PdfObject::Array(items)) => all_names(items@),
        _ => None,
    }
}

/// An integer, or what stands for it where there is none.
pub open spec fn integer_or(value: Option<i64>, default: i64) -> i64 {
    match value {
        Some(v) => v,
        None => default,
    }
}

/// The parameters for filter `i` of a stream: those for all of them, or those at the place of
/// the filter.
pub open spec fn parms_at(dict: PdfDictionary, i: int) -> Option<PdfDictionary> {
    match lookup(dict, "DecodeParms"@) {
        Some(PdfObject::Dictionary(parms)) => Some(parms),
        Some(PdfObject::Array(items)) => if 0 <= i < items@.len() {
            match items@[i] {
                PdfObject::Dictionary(parms) => Some(parms),
                _ => None,
            }
        } else {
            None
        },
        _ => None,
    }
}

/// How compressed bytes are to be read, by their parameters.
pub open spec fn codec_parms(parms: Option<PdfDictionary>) -> CodecParms {
    match parms {
        Some(dict) => CodecParms {
            predictor: integer_or(integer_at(dict, "Predictor"@), 1),
            columns: integer_or(integer_at(dict, "Columns"@), 1),
            colors: integer_or(integer_at(dict, "Colors"@), 1),
            bits: integer_or(integer_at(dict, "BitsPerComponent"@), 8),
            early_change: integer_or(integer_at(dict, "EarlyChange"@), 1),
        },
        None => CodecParms { predictor: 1, columns: 1, colors: 1, bits: 8, early_change: 1 },
    }
}

/// Whether a filter has parameters.
pub open spec fn has_parms(filter: Seq<u8>) -> bool {
    filter == key("FlateDecode"@) || filter == key("LZWDecode"@)
}

/// Bytes after a filter was undone. The bits of a row have to be countable. Rows that are
/// predicted from the one above, and whose bits cannot be counted in 32 bits, are not undone;
/// where there are no bytes at all, there is nothing to undo.
pub open spec fn undone(filter: Seq<u8>, parms: Option<PdfDictionary>, content: Seq<u8>) -> Option<Seq<u8>> {
    let read = codec_parms(if has_parms(filter) { parms } else { None });
    if row_bits(read) > usize::MAX {
        None
    } else if is_wide(read) {
        match unpacked(filter, CodecParms { predictor: 1, ..read }, content) {
            Some(bytes) if bytes.len() == 0 => Some(bytes),
            _ => None,
        }
    } else {
        unpacked(filter, read, content)
    }
}

/// Bytes after the first `n` of some filters were undone, each with its parameters.
pub open spec fn undone_first(
    filters: Seq<Seq<u8>>,
    n: int,
    dict: PdfDictionary,
    content: Seq<u8>,
) -> Option<Seq<u8>>
    decreases n,
{
    if n <= 0 {
        Some(content)
    } else {
        match undone_first(filters, n - 1, dict, content) {
            Some(bytes) => undone(filters[n - 1], parms_at(dict, n - 1), bytes),
            None => None,
        }
    }
}

/// The bytes of a stream with its filters undone. A stream that names no filters has them as
/// they are; an empty list of filters leaves none.
pub open spec fn decompressed(stream: PdfStream) -> Option<Seq<u8>> {
    match filter_list(stream.dict) {
        Some(filters) => if filters.len() == 0 {
            Some(Seq::empty())
        } else {
            undone_first(filters, filters.len() as int, stream.dict, stream.content@)
        },
        None => Some(stream.content@),
    }
}

/// The filters of a stream.
fn list_filters(dict: &PdfDictionary) -> (r: Option<Vec<Vec<u8>>>)
    ensures
        r is Some <==> filter_list(*dict) is Some,
        r matches Some(names) ==> filter_list(*dict) == Some(byte_lists(names@)),
{
    match dict.get("Filter") {
        Some(PdfObject::Name(name)) => {
            let mut out: Vec<Vec<u8>> = Vec::new();
            let copy: Vec<u8> = name.clone();
            assert(copy@ =~= name@);
            out.push(copy);
            assert(byte_lists(out@) =~= seq![name@]);
            Some(out)
        },
        Some(PdfObject::Array(items)) => {
            let mut out: Vec<Vec<u8>> = Vec::new();
            assert(byte_lists(out@) =~= Seq::<Seq<u8>>::empty());
            for i in 0..items.len()
                invariant
                    all_names(items@.take(i as int)) == Some(byte_lists(out@)),
                    filter_list(*dict) == all_names(items@),
            {
                assert(items@.take(i + 1).drop_last() =~= items@.take(i as int));
                match &items[i] {
                    PdfObject::Name(name) => {
                        let ghost before = byte_lists(out@);
                        let copy: Vec<u8> = name.clone();
                        assert(copy@ =~= name@);
                        out.push(copy);
                        assert(byte_lists(out@) =~= before.push(name@));
                    },
                    _ => {
                        proof {
                            lemma_all_names_prefix(items@, i + 1);
                        }
                        return None;
                    },
                }
            }
            assert(items@.take(items@.len() as int) =~= items@);
            Some(out)
        },
        _ => None,
    }
}

proof fn lemma_all_names_prefix(items: Seq<PdfObject>, n: int)
    requires
        0 <= n <= items.len(),
        all_names(items.take(n)) is None,
    ensures
        all_names(items) is None,
    decreases items.len(),
{
    if n < items.len() {
        assert(items.drop_last().take(n) =~= items.take(n));
        lemma_all_names_prefix(items.drop_last(), n);
    } else {
        assert(items.take(n) =~= items);
    }
}

pub(crate) fn or_default(value: Option<i64>, default: i64) -> (r: i64)
    ensures
        r == integer_or(value, default),
{
    match value {
        Some(v) => v,
        None => default,
    }
}

/// The parameters for filter `i` of a stream.
fn find_parms(dict: &PdfDictionary, i: usize) -> (r: Option<&PdfDictionary>)
    ensures
        r is Some <==> parms_at(*dict, i as int) is Some,
        r matches Some(parms) ==> parms_at(*dict, i as int) == Some(*parms),
{
    match dict.get("DecodeParms") {
        Some(PdfObject::Dictionary(parms)) => Some(parms),
        Some(PdfObject::Array(items)) => {
            if i < items.len() {
                match &items[i] {
                    PdfObject::Dictionary(parms) => Some(parms),
                    _ => None,
                }
            } else {
                None
            }
        },
        _ => None,
    }
}

/// How compressed bytes are to be read, by their parameters.
fn read_parms(parms: Option<&PdfDictionary>) -> (r: CodecParms)
    ensures
        r == codec_parms(
            match parms {
                Some(dict) => Some(*dict),
                None => None,
            },
        ),
{
    match parms {
        Some(dict) => CodecParms {
            predictor: or_default(dict.integer("Predictor"), 1),
            columns: or_default(dict.integer("Columns"), 1),
            colors: or_default(dict.integer("Colors"), 1),
            bits: or_default(dict.integer("BitsPerComponent"), 8),
            early_change: or_default(dict.integer("EarlyChange"), 1),
        },
        None => CodecParms { predictor: 1, columns: 1, colors: 1, bits: 8, early_change: 1 },
    }
}

/// The bits of a row of predicted samples, as far as they can be counted.
fn count_bits(parms: CodecParms) -> (r: Option<usize>)
    ensures
        r is Some <==> row_bits(parms) <= usize::MAX,
        r matches Some(n) ==> n == row_bits(parms),
{
    let colors: u128 = if parms.colors < 1 { 1 } else { parms.colors as u128 };
    let bits: u128 = if parms.bits < 1 { 1 } else { parms.bits as u128 };
    let columns: u128 = if parms.columns < 1 { 1 } else { parms.columns as u128 };
    let most: u128 = usize::MAX as u128;
    assert(1 <= colors * bits <= 0x7fff_ffff_ffff_ffff * 0x7fff_ffff_ffff_ffff) by (nonlinear_arith)
        requires
            1 <= colors <= 0x7fff_ffff_ffff_ffff,
            1 <= bits <= 0x7fff_ffff_ffff_ffff,
    ;
    let sample: u128 = colors * bits;
    if sample > most {
        assert(sample * columns > most) by (nonlinear_arith)
            requires
                sample > most,
                columns >= 1,
        ;
        return None;
    }
    assert(0 <= sample * columns <= 0xffff_ffff_ffff_ffff * 0x7fff_ffff_ffff_ffff) by (nonlinear_arith)
        requires
            0 <= sample <= 0xffff_ffff_ffff_ffff,
            1 <= columns <= 0x7fff_ffff_ffff_ffff,
    ;
    let total: u128 = sample * columns;
    if total > most {
        None
    } else {
        Some(total as usize)
    }
}

/// Undoes a filter.
fn undo(filter: &Vec<u8>, parms: Option<&PdfDictionary>, content: &Vec<u8>) -> (r: Option<Vec<u8>>)
    ensures
        ({
            let wanted = undone(
                filter@,
                match parms {
                    Some(dict) => Some(*dict),
                    None => None,
                },
                content@,
            );
            &&& r is Some <==> wanted is Some
            &&& r matches Some(bytes) ==> wanted == Some(bytes@)
        }),
{
    let counts: bool = name_is(filter, "FlateDecode") || name_is(filter, "LZWDecode");
    let read: CodecParms = read_parms(if counts { parms } else { None });
    match count_bits(read) {
        None => None,
        Some(total) => if 10 <= read.predictor && read.predictor <= 15 && total > 0xffff_ffff {
            let plain: CodecParms = CodecParms { predictor: 1, ..read };
            assert(row_bits(plain) == row_bits(read));
            match unpack(filter, plain, content) {
                Some(bytes) => if bytes.len() == 0 {
                    Some(bytes)
                } else {
                    None
                },
                None => None,
            }
        } else {
            unpack(filter, read, content)
        },
    }
}

/// The bytes of a stream with its filters undone.
pub fn decompressed_content(stream: &PdfStream) -> (r: Option<Vec<u8>>)
    ensures
        r is Some <==> decompressed(*stream) is Some,
        r matches Some(bytes) ==> decompressed(*stream) == Some(bytes@),
{
    let mut bytes: Vec<u8> = stream.content.clone();
    assert(bytes@ =~= stream.content@);
    let filters: Vec<Vec<u8>> = match list_filters(&stream.dict) {
        Some(filters) => filters,
        None => {
            return Some(bytes);
        },
    };
    if filters.len() == 0 {
        let none: Vec<u8> = Vec::new();
        assert(none@ =~= Seq::<u8>::empty());
        return Some(none);
    }
    let ghost all = byte_lists(filters@);
    for i in 0..filters.len()
        invariant
            all == byte_lists(filters@),
            all.len() > 0,
            filter_list(stream.dict) == Some(all),
            undone_first(all, i as int, stream.dict, stream.content@) == Some(bytes@),
    {
        match undo(&filters[i], find_parms(&stream.dict, i), &bytes) {
            Some(next) => {
                bytes = next;
            },
            None => {
                proof {
                    lemma_undone_none(all, i + 1, all.len() as int, stream.dict, stream.content@);
                }
                return None;
            },
        }
    }
    Some(bytes)
}

/// Where a filter cannot be undone, those after it cannot either.
proof fn lemma_undone_none(filters: Seq<Seq<u8>>, n: int, m: int, dict: PdfDictionary, content: Seq<u8>)
    requires
        0 < n <= m,
        undone_first(filters, n, dict, content) is None,
    ensures
        undone_first(filters, m, dict, content) is None,
    decreases m,
{
    if n < m {
        lemma_undone_none(filters, n, m - 1, dict, content);
    }
}

/// The filters of an image: all names that its dictionary has for them.
pub open spec fn filter_names(dict: PdfDictionary) -> Seq<Seq<char>> {
    match lookup(dict, "Filter"@) {
        Some(PdfObject::Name(name)) => seq![utf8_lossy(name@)],
        Some(PdfObject::Array(items)) => names_among(items@),
        _ => Seq::empty(),
    }
}

/// The names in an array.
pub open spec fn names_among(items: Seq<PdfObject>) -> Seq<Seq<char>>
    decreases items.len(),
{
    if items.len() == 0 {
        Seq::empty()
    } else {
        match items.last() {
            PdfObject::Name(name) => names_among(items.drop_last()).push(utf8_lossy(name@)),
            _ => names_among(items.drop_last()),
        }
    }
}

/// The filters of an image.
pub fn extract_filter_names(stream: &PdfStream) -> (r: Vec<String>)
    ensures
        texts_of(r@) == filter_names(stream.dict),
{
    let mut out: Vec<String> = Vec::new();
    assert(texts_of(out@) =~= Seq::<Seq<char>>::empty());
    match stream.dict.get("Filter") {
        Some(PdfObject::Name(name)) => {
            let text: String = lossy_text(name.as_slice());
            out.push(text);
            assert(texts_of(out@) =~= filter_names(stream.dict));
        },
        Some(PdfObject::Array(items)) => {
            for i in 0..items.len()
                invariant
                    texts_of(out@) == names_among(items@.take(i as int)),
            {
                assert(items@.take(i + 1).drop_last() =~= items@.take(i as int));
                if let PdfObject::Name(name) = &items[i] {
                    let ghost before = texts_of(out@);
                    let text: String = lossy_text(name.as_slice());
                    out.push(text);
                    assert(texts_of(out@) =~= before.push(utf8_lossy(name@)));
                }
            }
            assert(items@.take(items@.len() as int) =~= items@);
        },
        _ => {},
    }
    out
}

/// A filter that image streams may have.
pub open spec fn is_safe_filter(name: Seq<char>) -> bool {
    ||| name == "DCTDecode"@
    ||| name == "JPXDecode"@
    ||| name == "FlateDecode"@
    ||| name == "LZWDecode"@
    ||| name == "RunLengthDecode"@
    ||| name == "CCITTFaxDecode"@
    ||| name == "JBIG2Decode"@
    ||| name == "ASCII85Decode"@
    ||| name == "ASCIIHexDecode"@
}

/// Whether an image has only filters that image streams may have.
pub fn is_safe_filter_chain(stream: &PdfStream) -> (r: bool)
    ensures
        r == forall|i: int|
            0 <= i < filter_names(stream.dict).len() ==> is_safe_filter(#[trigger] filter_names(stream.dict)[i]),
{
    let names: Vec<String> = extract_filter_names(stream);
    let ghost all = filter_names(stream.dict);
    for i in 0..names.len()
        invariant
            all == texts_of(names@),
            all == filter_names(stream.dict),
            forall|j: int| 0 <= j < i ==> is_safe_filter(#[trigger] all[j]),
    {
        let name: &str = names[i].as_str();
        let safe: bool = text_equal(name, "DCTDecode") || text_equal(name, "JPXDecode") || text_equal(
            name,
            "FlateDecode",
        ) || text_equal(name, "LZWDecode") || text_equal(name, "RunLengthDecode") || text_equal(
            name,
            "CCITTFaxDecode",
        ) || text_equal(name, "JBIG2Decode") || text_equal(name, "ASCII85Decode") || text_equal(
            name,
            "ASCIIHexDecode",
        );
        if !safe {
            assert(!is_safe_filter(all[i as int]));
            return false;
        }
        assert(is_safe_filter(all[i as int]));
    }
    true
}

/// The low 32 bits of a positive integer.
pub open spec fn low32(value: i64) -> u32 {
    (value % 0x1_0000_0000) as u32
}

/// The low 8 bits of an integer.
pub open spec fn low8(value: i64) -> u8 {
    (value as int % 256) as u8
}

/// A side of an image: a positive integer, of which 32 bits are kept.
pub open spec fn side_at(dict: PdfDictionary, k: Seq<char>) -> Option<u32> {
    match integer_at(dict, k) {
        Some(value) if value > 0 => Some(low32(value)),
        _ => None,
    }
}

/// A side of an image.
pub(crate) fn read_side(dict: &PdfDictionary, k: &str) -> (r: Option<u32>)
    ensures
        r == side_at(*dict, k@),
{
    match dict.integer(k) {
        Some(value) => if value > 0 {
            Some((value as u64 % 0x1_0000_0000) as u32)
        } else {
            None
        },
        None => None,
    }
}

/// Whether an image is worth decoding: it has a size, not too large in itself or once it is
/// unpacked, and filters that image streams may have.
pub open spec fn is_worth_decoding(stream: PdfStream) -> bool {
    match (side_at(stream.dict, "Width"@), side_at(stream.dict, "Height"@)) {
        (Some(w), Some(h)) => {
            let area = w * h;
            let stated = integer_or(integer_at(stream.dict, "BitsPerComponent"@), 8);
            let bpc = if stated < 1 { 1 } else if stated > 16 { 16 } else { stated as int };
            let names = filter_names(stream.dict);
            let flate = exists|i: int| 0 <= i < names.len() && #[trigger] names[i] == "FlateDecode"@;
            &&& w <= 9000
            &&& h <= 9000
            &&& area <= 40_000_000
            &&& area * 4 * bpc / 8 <= 64_000_000
            &&& flate ==> stream.content@.len() <= 600_000 && area <= 6_000_000
            &&& forall|i: int| 0 <= i < names.len() ==> is_safe_filter(#[trigger] names[i])
        },
        _ => false,
    }
}

/// Whether a name is among some.
fn has_text(names: &Vec<String>, wanted: &str) -> (r: bool)
    ensures
        r == exists|i: int| 0 <= i < names@.len() && #[trigger] texts_of(names@)[i] == wanted@,
{
    for i in 0..names.len()
        invariant
            forall|j: int| 0 <= j < i ==> #[trigger] texts_of(names@)[j] != wanted@,
    {
        if text_equal(names[i].as_str(), wanted) {
            assert(texts_of(names@)[i as int] == wanted@);
            return true;
        }
    }
    false
}

/// Whether an image is worth decoding.
pub fn should_decode_stream_image(stream: &PdfStream) -> (r: bool)
    ensures
        r == is_worth_decoding(*stream),
{
    let w: u32 = match read_side(&stream.dict, "Width") {
        Some(side) => side,
        None => {
            return false;
        },
    };
    let h: u32 = match read_side(&stream.dict, "Height") {
        Some(side) => side,
        None => {
            return false;
        },
    };
    if w > 9000 || h > 9000 {
        return false;
    }
    assert(0 <= w * h <= 9000 * 9000) by (nonlinear_arith)
        requires
            w <= 9000,
            h <= 9000,
    ;
    let area: u64 = w as u64 * h as u64;
    if area > 40_000_000 {
        return false;
    }
    let stated: i64 = or_default(stream.dict.integer("BitsPerComponent"), 8);
    let bpc: u64 = if stated < 1 { 1 } else if stated > 16 { 16 } else { stated as u64 };
    assert(0 <= area * 4 * bpc <= 40_000_000 * 4 * 16) by (nonlinear_arith)
        requires
            area <= 40_000_000,
            bpc <= 16,
    ;
    if area * 4 * bpc / 8 > 64_000_000 {
        return false;
    }
    let names: Vec<String> = extract_filter_names(stream);
    if has_text(&names, "FlateDecode") {
        if stream.content.len() > 600_000 || area > 6_000_000 {
            return false;
        }
    }
    is_safe_filter_chain(stream)
}

/// A stream that names no filter has its bytes as they are; one with a filter and no parameters
/// has what that filter unpacks them to; and one with two has what the second unpacks from what
/// the first unpacks.
pub proof fn law_filters_undone(stream: PdfStream, items: Seq<PdfObject>, f: Vec<u8>, g: Vec<u8>)
    requires
        lookup(stream.dict, "DecodeParms"@) is None,
    ensures
        ({
            let plain = CodecParms { predictor: 1, columns: 1, colors: 1, bits: 8, early_change: 1 };
            &&& lookup(stream.dict, "Filter"@) is None ==> decompressed(stream) == Some(stream.content@)
            &&& lookup(stream.dict, "Filter"@) == Some(PdfObject::Name(f)) ==> decompressed(stream) == unpacked(
                f@,
                plain,
                stream.content@,
            )
            &&& (lookup(stream.dict, "Filter"@) matches Some(PdfObject::Array(all)) && all@ == items && items == seq![
                PdfObject::Name(f),
                PdfObject::Name(g),
            ]) ==> decompressed(stream) == match unpacked(f@, plain, stream.content@) {
                Some(bytes) => unpacked(g@, plain, bytes),
                None => None,
            }
        }),
{
    reveal_with_fuel(undone_first, 3);
    reveal_with_fuel(all_names, 3);
    let plain = CodecParms { predictor: 1, columns: 1, colors: 1, bits: 8, early_change: 1 };
    let (x, y, z) = (larger(1, plain.colors as int), larger(1, plain.bits as int), larger(1, plain.columns as int));
    assert(x * y * z == 8) by (nonlinear_arith)
        requires
            x == 1,
            y == 8,
            z == 1,
    ;
    assert(seq![f@][0] == f@);
    assert(seq![f@, g@][0] == f@ && seq![f@, g@][1] == g@);
    if items == seq![PdfObject::Name(f), PdfObject::Name(g)] {
        assert(items.drop_last() =~= seq![PdfObject::Name(f)]);
        assert(items.drop_last().drop_last() =~= Seq::<PdfObject>::empty());
        assert(items.drop_last().last() == PdfObject::Name(f));
        assert(items.last() == PdfObject::Name(g));
        assert(all_names(items) =~= Some(seq![f@, g@])) by {
            assert(Seq::<Seq<u8>>::empty().push(f@).push(g@) =~= seq![f@, g@]);
        }
    }
}

/// The parameters of a filter are those given for all filters, or those at its place in a list.
pub proof fn law_parms_at(dict: PdfDictionary, i: int, parms: PdfDictionary, items: Vec<PdfObject>)
    ensures
        lookup(dict, "DecodeParms"@) is None ==> parms_at(dict, i) is None,
        lookup(dict, "DecodeParms"@) == Some(PdfObject::Dictionary(parms)) ==> parms_at(dict, i) == Some(parms),
        lookup(dict, "DecodeParms"@) == Some(PdfObject::Array(items)) && 0 <= i < items@.len() && items@[i]
            == PdfObject::Dictionary(parms) ==> parms_at(dict, i) == Some(parms),
        lookup(dict, "DecodeParms"@) == Some(PdfObject::Array(items)) && i >= items@.len() ==> parms_at(dict, i)
            is None,
{
}

/// An image stream without filters is worth decoding just where its sides are up to 9000 pixels,
/// its area is up to 40,000,000 of them, and four samples of its bits for each come to no more
/// than 64,000,000 bytes.
pub proof fn law_worth_decoding(stream: PdfStream, width: i64, height: i64, bits: i64)
    requires
        lookup(stream.dict, "Width"@) == Some(PdfObject::Integer(width)),
        lookup(stream.dict, "Height"@) == Some(PdfObject::Integer(height)),
        lookup(stream.dict, "BitsPerComponent"@) == Some(PdfObject::Integer(bits)) || (lookup(
            stream.dict,
            "BitsPerComponent"@,
        ) is None && bits == 8),
        width <= 0xffff_ffff,
        height <= 0xffff_ffff,
        1 <= bits <= 16,
        lookup(stream.dict, "Filter"@) is None,
    ensures
        is_worth_decoding(stream) <==> 1 <= width <= 9000 && 1 <= height <= 9000 && width * height <= 40_000_000 && (width
            * height * 4 * bits) / 8 <= 64_000_000,
{
}

/// A filter that image streams may have, of a list of nine.
pub open spec fn is_listed(text: Seq<char>) -> bool {
    text == "DCTDecode"@ || text == "JPXDecode"@ || text == "FlateDecode"@ || text == "LZWDecode"@ || text
        == "RunLengthDecode"@ || text == "CCITTFaxDecode"@ || text == "JBIG2Decode"@ || text == "ASCII85Decode"@ || text
        == "ASCIIHexDecode"@
}

/// An image stream with a filter is decoded where that is of a list of nine and the image is not
/// too large: up to 6,000,000 pixels and 600,000 bytes where it is deflated. It is not decoded
/// with any other filter, nor without a size.
pub proof fn law_filtered_image(stream: PdfStream, name: Vec<u8>, width: i64, height: i64)
    requires
        lookup(stream.dict, "Filter"@) == Some(PdfObject::Name(name)),
        lookup(stream.dict, "Width"@) == Some(PdfObject::Integer(width)),
        lookup(stream.dict, "Height"@) == Some(PdfObject::Integer(height)),
        lookup(stream.dict, "BitsPerComponent"@) is None,
        1 <= width <= 4000,
        1 <= height <= 4000,
    ensures
        utf8_lossy(name@) != "FlateDecode"@ ==> (is_worth_decoding(stream) <==> is_listed(utf8_lossy(name@))),
        utf8_lossy(name@) == "FlateDecode"@ ==> (is_worth_decoding(stream) <==> stream.content@.len() <= 600_000 && width
            * height <= 6_000_000),
{
    let names = filter_names(stream.dict);
    let text = utf8_lossy(name@);
    assert(names.len() == 1 && names[0] == text);
    let area = width * height;
    assert(1 <= area <= 16_000_000) by (nonlinear_arith)
        requires
            area == width * height,
            1 <= width <= 4000,
            1 <= height <= 4000,
    ;
    assert(area * 4 * 8 / 8 == 4 * area);
    assert(side_at(stream.dict, "Width"@) == Some(width as u32));
    assert(side_at(stream.dict, "Height"@) == Some(height as u32));
    assert((width as u32) * (height as u32) == area);
}

/// An image stream without a size is not decoded.
pub proof fn law_no_size(stream: PdfStream)
    requires
        lookup(stream.dict, "Width"@) is None || lookup(stream.dict, "Height"@) is None,
    ensures
        !is_worth_decoding(stream),
{
}

/// The parameters of a filter are the integers of its dictionary, each with a value of its own
/// where it is missing.
pub proof fn law_codec_parms(dict: PdfDictionary, value: i64)
    ensures
        lookup(dict, "Predictor"@) == Some(PdfObject::Integer(value)) ==> codec_parms(Some(dict)).predictor == value,
        lookup(dict, "Columns"@) == Some(PdfObject::Integer(value)) ==> codec_parms(Some(dict)).columns == value,
        lookup(dict, "Colors"@) == Some(PdfObject::Integer(value)) ==> codec_parms(Some(dict)).colors == value,
        lookup(dict, "BitsPerComponent"@) == Some(PdfObject::Integer(value)) ==> codec_parms(Some(dict)).bits == value,
        lookup(dict, "EarlyChange"@) == Some(PdfObject::Integer(value)) ==> codec_parms(Some(dict)).early_change
            == value,
        lookup(dict, "Predictor"@) is None ==> codec_parms(Some(dict)).predictor == 1,
        lookup(dict, "Columns"@) is None ==> codec_parms(Some(dict)).columns == 1,
        lookup(dict, "Colors"@) is None ==> codec_parms(Some(dict)).colors == 1,
        lookup(dict, "BitsPerComponent"@) is None ==> codec_parms(Some(dict)).bits == 8,
        lookup(dict, "EarlyChange"@) is None ==> codec_parms(Some(dict)).early_change == 1,
{
}

/// Deflated bytes and those of LZW are undone with their parameters, where the bits of a row can
/// be counted in 32 bits; other filters are undone without.
pub proof fn law_undone(filter: Seq<u8>, parms: PdfDictionary, content: Seq<u8>)
    ensures
        (filter == key("FlateDecode"@) || filter == key("LZWDecode"@)) && row_bits(codec_parms(Some(parms)))
            <= 0xffff_ffff ==> undone(filter, Some(parms), content) == unpacked(
            filter,
            codec_parms(Some(parms)),
            content,
        ),
        filter != key("FlateDecode"@) && filter != key("LZWDecode"@) ==> undone(filter, Some(parms), content) == unpacked(
            filter,
            CodecParms { predictor: 1, columns: 1, colors: 1, bits: 8, early_change: 1 },
            content,
        ),
{
    let plain = CodecParms { predictor: 1, columns: 1, colors: 1, bits: 8, early_change: 1 };
    let (x, y, z) = (larger(1, plain.colors as int), larger(1, plain.bits as int), larger(1, plain.columns as int));
    assert(x * y * z == 8) by (nonlinear_arith)
        requires
            x == 1,
            y == 8,
            z == 1,
    ;
}

/// The filters of an image are its one name, or all names of its list, in order, whatever else is
/// in it; a list with one more name has one more filter, behind the others.
pub proof fn law_filter_names(dict: PdfDictionary, items: Seq<PdfObject>, object: PdfObject, name: Vec<u8>)
    ensures
        lookup(dict, "Filter"@) is None ==> filter_names(dict).len() == 0,
        lookup(dict, "Filter"@) == Some(PdfObject::Name(name)) ==> filter_names(dict) == seq![utf8_lossy(name@)],
        (lookup(dict, "Filter"@) matches Some(PdfObject::Array(all)) && all@ == items) ==> filter_names(dict)
            == names_among(items),
        names_among(Seq::empty()).len() == 0,
        names_among(items.push(PdfObject::Name(name))) == names_among(items).push(utf8_lossy(name@)),
        !(object is Name) ==> names_among(items.push(object)) == names_among(items),
{
    assert(items.push(PdfObject::Name(name)).drop_last() =~= items);
    assert(items.push(object).drop_last() =~= items);
}

/// The filters of a stream are its one name, or the names of a list of nothing but names.
pub proof fn law_filter_list(dict: PdfDictionary, items: Seq<PdfObject>, object: PdfObject, name: Vec<u8>)
    ensures
        lookup(dict, "Filter"@) is None ==> filter_list(dict) is None,
        lookup(dict, "Filter"@) == Some(PdfObject::Name(name)) ==> filter_list(dict) == Some(seq![name@]),
        (lookup(dict, "Filter"@) matches Some(PdfObject::Array(all)) && all@ == items) ==> filter_list(dict) == all_names(
            items,
        ),
        all_names(Seq::empty()) == Some(Seq::<Seq<u8>>::empty()),
        all_names(items) matches Some(names) ==> all_names(items.push(PdfObject::Name(name))) == Some(
            names.push(name@),
        ),
        !(object is Name) ==> all_names(items.push(object)) is None,
{
    assert(items.push(PdfObject::Name(name)).drop_last() =~= items);
    assert(items.push(object).drop_last() =~= items);
}

} // verus!
