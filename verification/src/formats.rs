//! Which files are scanned, and as what.

use vstd::prelude::*;
use crate::picture::ImageFormat;
use crate::text::{all_digits, chars_of, law_lowercase, law_number, lowercase, lowercase_chars, number_of, parse_number,
    place_value, slice_of, string_of, text_equal};

verus! {

/// The extension of a file name in lower case.
pub fn extension_lower(extension: Option<&str>) -> (r: Option<String>)
    ensures
        r is Some <==> extension is Some,
        r matches Some(lower) ==> lower@ == lowercase(extension->0@),
{
    match extension {
        Some(text) => {
            let chars: Vec<char> = chars_of(text);
            let lower: Vec<char> = lowercase_chars(&chars);
            Some(string_of(&lower))
        },
        None => None,
    }
}

/// The format of image files with an extension.
pub open spec fn image_format(ext: Seq<char>) -> Option<ImageFormat> {
    if ext == "png"@ {
        Some(ImageFormat::Png)
    } else if ext == "jpg"@ || ext == "jpeg"@ {
        Some(ImageFormat::Jpeg)
    } else if ext == "bmp"@ {
        Some(ImageFormat::Bmp)
    } else if ext == "webp"@ {
        Some(ImageFormat::WebP)
    } else if ext == "tif"@ || ext == "tiff"@ {
        Some(ImageFormat::Tiff)
    } else {
        None
    }
}

/// The format of image files with an extension.
pub fn format_of(ext: &str) -> (r: Option<ImageFormat>)
    ensures
        r == image_format(ext@),
{
    if text_equal(ext, "png") {
        Some(ImageFormat::Png)
    } else if text_equal(ext, "jpg") || text_equal(ext, "jpeg") {
        Some(ImageFormat::Jpeg)
    } else if text_equal(ext, "bmp") {
        Some(ImageFormat::Bmp)
    } else if text_equal(ext, "webp") {
        Some(ImageFormat::WebP)
    } else if text_equal(ext, "tif") || text_equal(ext, "tiff") {
        Some(ImageFormat::Tiff)
    } else {
        None
    }
}

/// The extensions of image files.
pub open spec fn is_image_ext(ext: Seq<char>) -> bool {
    ||| ext == "png"@
    ||| ext == "jpg"@
    ||| ext == "jpeg"@
    ||| ext == "bmp"@
    ||| ext == "webp"@
    ||| ext == "tif"@
    ||| ext == "tiff"@
}

/// The extensions of word files.
pub open spec fn is_word_ext(ext: Seq<char>) -> bool {
    ext == "doc"@ || ext == "docx"@
}

/// Whether image files have an extension.
pub fn is_supported_image_ext(ext: &str) -> (r: bool)
    ensures
        r == is_image_ext(ext@),
{
    text_equal(ext, "png") || text_equal(ext, "jpg") || text_equal(ext, "jpeg") || text_equal(ext, "bmp")
        || text_equal(ext, "webp") || text_equal(ext, "tif") || text_equal(ext, "tiff")
}

/// Whether word files have an extension.
pub fn is_supported_word_ext(ext: &str) -> (r: bool)
    ensures
        r == is_word_ext(ext@),
{
    text_equal(ext, "doc") || text_equal(ext, "docx")
}

/// Whether a file with an extension, in whatever case, is scanned.
pub open spec fn is_supported(extension: Option<Seq<char>>) -> bool {
    extension matches Some(text) && (lowercase(text) == "pdf"@ || is_image_ext(lowercase(text)) || is_word_ext(
        lowercase(text),
    ))
}

/// The text of an extension.
pub open spec fn extension_text(extension: Option<&str>) -> Option<Seq<char>> {
    match extension {
        Some(text) => Some(text@),
        None => None,
    }
}

/// Whether a file with the extension given is scanned.
pub fn is_supported_input_path(extension: Option<&str>) -> (r: bool)
    ensures
        r == is_supported(extension_text(extension)),
{
    match extension_lower(extension) {
        Some(ext) => text_equal(ext.as_str(), "pdf") || is_supported_image_ext(ext.as_str())
            || is_supported_word_ext(ext.as_str()),
        None => false,
    }
}

/// Every extension of image files has a format.
pub proof fn law_image_formats(ext: Seq<char>)
    ensures
        image_format(ext) is Some <==> is_image_ext(ext),
{
}

/// What a file is scanned as.
#[derive(Clone, Copy)]
pub enum FileKind {
    Image(ImageFormat),
    Pdf,
    Docx,
    Doc,
    Other,
}

/// What a file with an extension in lower case is scanned as.
pub open spec fn file_kind(extension: Option<Seq<char>>) -> FileKind {
    match extension {
        Some(text) => {
            let ext = lowercase(text);
            match image_format(ext) {
                Some(format) => FileKind::Image(format),
                None => if ext == "pdf"@ {
                    FileKind::Pdf
                } else if ext == "docx"@ {
                    FileKind::Docx
                } else if ext == "doc"@ {
                    FileKind::Doc
                } else {
                    FileKind::Other
                },
            }
        },
        None => FileKind::Other,
    }
}

/// What a file with the extension given is scanned as.
pub fn kind_of(extension: Option<&str>) -> (r: FileKind)
    ensures
        r == file_kind(extension_text(extension)),
{
    match extension_lower(extension) {
        Some(ext) => match format_of(ext.as_str()) {
            Some(format) => FileKind::Image(format),
            None => {
                if text_equal(ext.as_str(), "pdf") {
                    FileKind::Pdf
                } else if text_equal(ext.as_str(), "docx") {
                    FileKind::Docx
                } else if text_equal(ext.as_str(), "doc") {
                    FileKind::Doc
                } else {
                    FileKind::Other
                }
            },
        },
        None => FileKind::Other,
    }
}

/// A file is scanned just where there is something to scan it as.
pub proof fn law_supported_kinds(extension: Option<Seq<char>>)
    ensures
        is_supported(extension) <==> !(file_kind(extension) is Other),
{
}

/// The place of the last hyphen of a text.
pub open spec fn last_hyphen(text: Seq<char>) -> Option<int>
    decreases text.len(),
{
    if text.len() == 0 {
        None
    } else if text.last() == '-' {
        Some(text.len() - 1)
    } else {
        last_hyphen(text.drop_last())
    }
}

/// The page number in the name of a rendered page: what stands behind its last hyphen.
pub open spec fn render_page_no(stem: Seq<char>) -> Option<nat> {
    match last_hyphen(stem) {
        Some(i) => number_of(stem.subrange(i + 1, stem.len() as int), usize::MAX as nat),
        None => None,
    }
}

/// The page number in the name of a rendered page, without its extension.
pub fn parse_render_page_no(stem: Option<&str>) -> (r: Option<usize>)
    ensures
        r matches Some(n) ==> stem is Some && render_page_no(stem->0@) == Some(n as nat),
        r is None ==> stem is None || render_page_no(stem->0@) is None,
{
    let chars: Vec<char> = match stem {
        Some(text) => chars_of(text),
        None => {
            return None;
        },
    };
    let mut i: usize = chars.len();
    assert(chars@.take(i as int) =~= chars@);
    while i > 0
        invariant
            stem is Some,
            chars@ == stem->0@,
            i <= chars@.len(),
            last_hyphen(chars@) == last_hyphen(chars@.take(i as int)),
        decreases i,
    {
        assert(chars@.take(i as int).drop_last() =~= chars@.take(i - 1));
        assert(chars@.take(i as int).last() == chars@[i - 1]);
        if chars[i - 1] == '-' {
            let tail: Vec<char> = slice_of(&chars, i, chars.len());
            return match parse_number(&tail, usize::MAX as u64) {
                Some(n) => Some(n as usize),
                None => None,
            };
        }
        i = i - 1;
    }
    None
}

/// Files are scanned by their extension, in whatever case: documents, the two kinds of word
/// files, and images in five formats with seven extensions; and no others.
pub proof fn law_kinds(text: Seq<char>)
    ensures
        ({
            let ext = lowercase(text);
            let kind = file_kind(Some(text));
            &&& kind is Pdf <==> ext == seq!['p', 'd', 'f']
            &&& kind is Docx <==> ext == seq!['d', 'o', 'c', 'x']
            &&& kind is Doc <==> ext == seq!['d', 'o', 'c']
            &&& kind == FileKind::Image(ImageFormat::Png) <==> ext == seq!['p', 'n', 'g']
            &&& kind == FileKind::Image(ImageFormat::Jpeg) <==> ext == seq!['j', 'p', 'g'] || ext == seq![
                'j',
                'p',
                'e',
                'g',
            ]
            &&& kind == FileKind::Image(ImageFormat::Bmp) <==> ext == seq!['b', 'm', 'p']
            &&& kind == FileKind::Image(ImageFormat::WebP) <==> ext == seq!['w', 'e', 'b', 'p']
            &&& kind == FileKind::Image(ImageFormat::Tiff) <==> ext == seq!['t', 'i', 'f'] || ext == seq![
                't',
                'i',
                'f',
                'f',
            ]
            &&& file_kind(Some(text)) == file_kind(Some(ext))
            &&& is_supported(Some(text)) <==> !(kind is Other)
        }),
        file_kind(None) is Other,
        !is_supported(None),
{
    let ext = lowercase(text);
    law_lowercase(text);
    reveal_strlit("pdf");
    reveal_strlit("docx");
    reveal_strlit("doc");
    reveal_strlit("png");
    reveal_strlit("jpg");
    reveal_strlit("jpeg");
    reveal_strlit("bmp");
    reveal_strlit("webp");
    reveal_strlit("tif");
    reveal_strlit("tiff");
    assert("pdf"@ =~= seq!['p', 'd', 'f']);
    assert("docx"@ =~= seq!['d', 'o', 'c', 'x']);
    assert("doc"@ =~= seq!['d', 'o', 'c']);
    assert("png"@ =~= seq!['p', 'n', 'g']);
    assert("jpg"@ =~= seq!['j', 'p', 'g']);
    assert("jpeg"@ =~= seq!['j', 'p', 'e', 'g']);
    assert("bmp"@ =~= seq!['b', 'm', 'p']);
    assert("webp"@ =~= seq!['w', 'e', 'b', 'p']);
    assert("tif"@ =~= seq!['t', 'i', 'f']);
    assert("tiff"@ =~= seq!['t', 'i', 'f', 'f']);
    if ext.len() == 3 {
        assert(ext =~= seq![ext[0], ext[1], ext[2]]);
        assert(seq!['p', 'd', 'f'][1] != seq!['p', 'n', 'g'][1]);
        assert(seq!['p', 'd', 'f'][0] != seq!['d', 'o', 'c'][0]);
        assert(seq!['p', 'd', 'f'][0] != seq!['j', 'p', 'g'][0]);
        assert(seq!['p', 'd', 'f'][0] != seq!['b', 'm', 'p'][0]);
        assert(seq!['p', 'd', 'f'][0] != seq!['t', 'i', 'f'][0]);
        assert(seq!['d', 'o', 'c'][0] != seq!['p', 'n', 'g'][0]);
        assert(seq!['d', 'o', 'c'][0] != seq!['j', 'p', 'g'][0]);
        assert(seq!['d', 'o', 'c'][0] != seq!['b', 'm', 'p'][0]);
        assert(seq!['d', 'o', 'c'][0] != seq!['t', 'i', 'f'][0]);
        assert(seq!['p', 'n', 'g'][0] != seq!['j', 'p', 'g'][0]);
        assert(seq!['p', 'n', 'g'][0] != seq!['b', 'm', 'p'][0]);
        assert(seq!['p', 'n', 'g'][0] != seq!['t', 'i', 'f'][0]);
        assert(seq!['j', 'p', 'g'][0] != seq!['b', 'm', 'p'][0]);
        assert(seq!['j', 'p', 'g'][0] != seq!['t', 'i', 'f'][0]);
        assert(seq!['b', 'm', 'p'][0] != seq!['t', 'i', 'f'][0]);
    }
    if ext.len() == 4 {
        assert(seq!['d', 'o', 'c', 'x'][0] != seq!['j', 'p', 'e', 'g'][0]);
        assert(seq!['d', 'o', 'c', 'x'][0] != seq!['w', 'e', 'b', 'p'][0]);
        assert(seq!['d', 'o', 'c', 'x'][0] != seq!['t', 'i', 'f', 'f'][0]);
        assert(seq!['j', 'p', 'e', 'g'][0] != seq!['w', 'e', 'b', 'p'][0]);
        assert(seq!['j', 'p', 'e', 'g'][0] != seq!['t', 'i', 'f', 'f'][0]);
        assert(seq!['w', 'e', 'b', 'p'][0] != seq!['t', 'i', 'f', 'f'][0]);
    }
}

/// The digits behind the last hyphen of a name are its page number; a name without a hyphen,
/// or with something else behind the last one, has none.
pub proof fn law_render_page_no(front: Seq<char>, tail: Seq<char>)
    requires
        !tail.contains('-'),
    ensures
        render_page_no(tail) is None,
        ({
            let number = render_page_no(front + seq!['-'] + tail);
            &&& number is Some ==> tail.len() > 0
            &&& tail.len() > 0 && all_digits(tail) && place_value(tail) <= usize::MAX ==> number is Some && number->0
                == place_value(tail)
            &&& number is Some && tail[0] != '+' ==> all_digits(tail) && number->0 == place_value(tail)
        }),
{
    let stem = front + seq!['-'] + tail;
    lemma_last_hyphen(front, tail);
    lemma_no_hyphen(tail);
    assert(stem.subrange(front.len() as int + 1, stem.len() as int) =~= tail);
    law_number(tail, usize::MAX as nat);
}

proof fn lemma_no_hyphen(tail: Seq<char>)
    requires
        !tail.contains('-'),
    ensures
        last_hyphen(tail) is None,
    decreases tail.len(),
{
    if tail.len() > 0 {
        assert(tail[tail.len() - 1] == tail.last());
        assert(!tail.drop_last().contains('-')) by {
            if tail.drop_last().contains('-') {
                let i = choose|i: int| 0 <= i < tail.drop_last().len() && tail.drop_last()[i] == '-';
                assert(tail[i] == '-');
            }
        }
        lemma_no_hyphen(tail.drop_last());
    }
}

proof fn lemma_last_hyphen(front: Seq<char>, tail: Seq<char>)
    requires
        !tail.contains('-'),
    ensures
        last_hyphen(front + seq!['-'] + tail) == Some(front.len() as int),
    decreases tail.len(),
{
    let stem = front + seq!['-'] + tail;
    if tail.len() > 0 {
        assert(tail[tail.len() - 1] == tail.last());
        assert(!tail.drop_last().contains('-')) by {
            if tail.drop_last().contains('-') {
                let i = choose|i: int| 0 <= i < tail.drop_last().len() && tail.drop_last()[i] == '-';
                assert(tail[i] == '-');
            }
        }
        lemma_last_hyphen(front, tail.drop_last());
        assert(stem.drop_last() =~= front + seq!['-'] + tail.drop_last());
    }
}

} // verus!
