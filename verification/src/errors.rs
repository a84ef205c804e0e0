//! Why a file could not be scanned.

use vstd::prelude::*;
use crate::text::{decimal, decimal_text, occurs, occurs_at};

verus! {

/// Why a file could not be scanned.
#[derive(Debug, Clone, Copy, PartialEq, Eq, Structural)]
pub enum ScanError {
    /// The text of a document cannot be read.
    PdfText,
    /// A document cannot be read.
    PdfFile,
    /// The images of a page cannot be followed.
    PageImages { page: usize },
    /// The images in the annotations of a page cannot be followed.
    AnnotationImages { page: usize },
    /// A word file is of the format before packed files.
    LegacyWord,
    /// A word file cannot be opened.
    WordFile,
    /// A word file is no archive.
    WordArchive,
    /// An image file cannot be opened.
    ImageFile,
    /// The scan ended without a result.
    Disconnected,
}

/// The message for an error with a file.
pub open spec fn error_text(error: ScanError, file: Seq<char>) -> Seq<char> {
    match error {
        ScanError::PdfText => "无法读取 PDF 文本流: "@ + file,
        ScanError::PdfFile => "无法读取 PDF 文件: "@ + file,
        ScanError::PageImages { page } => "提取 PDF 图片失败: "@ + file + " 第 "@ + decimal(page as nat)
            + " 页"@,
        ScanError::AnnotationImages { page } => "提取 PDF 注释图片失败: "@ + file + " 第 "@ + decimal(page as nat)
            + " 页"@,
        ScanError::LegacyWord => "原生模式暂不支持 .doc，请先另存为 .docx: "@ + file,
        ScanError::WordFile => "无法打开 Word 文件: "@ + file,
        ScanError::WordArchive => "无法解析 docx 压缩结构: "@ + file,
        ScanError::ImageFile => "无法打开图片文件: "@ + file,
        ScanError::Disconnected => "扫描线程异常: 通道已断开"@,
    }
}

/// Two texts, one after the other.
fn joined(head: &str, tail: &str) -> (r: String)
    ensures
        r@ == head@ + tail@,
{
    let mut out: String = head.to_owned();
    out.append(tail);
    out
}

impl ScanError {
    /// The message for the error with a file.
    pub fn message(&self, file: &str) -> (r: String)
        ensures
            r@ == error_text(*self, file@),
    {
        match self {
            ScanError::PdfText => joined("无法读取 PDF 文本流: ", file),
            ScanError::PdfFile => joined("无法读取 PDF 文件: ", file),
            ScanError::PageImages { page } => {
                let number: String = decimal_text(*page as u64);
                let mut out: String = joined("提取 PDF 图片失败: ", file);
                out.append(" 第 ");
                out.append(number.as_str());
                out.append(" 页");
                out
            },
            ScanError::AnnotationImages { page } => {
                let number: String = decimal_text(*page as u64);
                let mut out: String = joined("提取 PDF 注释图片失败: ", file);
                out.append(" 第 ");
                out.append(number.as_str());
                out.append(" 页");
                out
            },
            ScanError::LegacyWord => joined("原生模式暂不支持 .doc，请先另存为 .docx: ", file),
            ScanError::WordFile => joined("无法打开 Word 文件: ", file),
            ScanError::WordArchive => joined("无法解析 docx 压缩结构: ", file),
            ScanError::ImageFile => joined("无法打开图片文件: ", file),
            ScanError::Disconnected => "扫描线程异常: 通道已断开".to_owned(),
        }
    }
}

/// Every message about a file names it, and one about a page names that too.
pub proof fn law_messages(error: ScanError, file: Seq<char>)
    ensures
        !(error is Disconnected) ==> occurs(error_text(error, file), file),
        error matches ScanError::PageImages { page } ==> occurs(error_text(error, file), decimal(page as nat)),
        error matches ScanError::AnnotationImages { page } ==> occurs(error_text(error, file), decimal(page as nat)),
{
    let text = error_text(error, file);
    match error {
        ScanError::PdfText => lemma_ends("无法读取 PDF 文本流: "@, file),
        ScanError::PdfFile => lemma_ends("无法读取 PDF 文件: "@, file),
        ScanError::PageImages { page } => lemma_middle("提取 PDF 图片失败: "@, file, decimal(page as nat)),
        ScanError::AnnotationImages { page } => lemma_middle("提取 PDF 注释图片失败: "@, file, decimal(page as nat)),
        ScanError::LegacyWord => lemma_ends("原生模式暂不支持 .doc，请先另存为 .docx: "@, file),
        ScanError::WordFile => lemma_ends("无法打开 Word 文件: "@, file),
        ScanError::WordArchive => lemma_ends("无法解析 docx 压缩结构: "@, file),
        ScanError::ImageFile => lemma_ends("无法打开图片文件: "@, file),
        ScanError::Disconnected => {},
    }
}

proof fn lemma_ends(head: Seq<char>, file: Seq<char>)
    ensures
        occurs(head + file, file),
{
    let n = head.len() as int;
    assert((head + file).subrange(n, n + file.len()) =~= file);
    assert(occurs_at(head + file, file, n));
}

proof fn lemma_middle(head: Seq<char>, file: Seq<char>, page: Seq<char>)
    ensures
        occurs(head + file + " 第 "@ + page + " 页"@, file),
        occurs(head + file + " 第 "@ + page + " 页"@, page),
{
    let text = head + file + " 第 "@ + page + " 页"@;
    let n = head.len() as int;
    let m = (head + file + " 第 "@).len() as int;
    assert(text.subrange(n, n + file.len()) =~= file);
    assert(text.subrange(m, m + page.len()) =~= page);
    assert(occurs_at(text, file, n));
    assert(occurs_at(text, page, m));
}

/// Each error has the words that say what went wrong.
pub proof fn law_words(file: Seq<char>)
    ensures
        error_text(ScanError::PdfText, file) == "无法读取 PDF 文本流: "@ + file,
        error_text(ScanError::PdfFile, file) == "无法读取 PDF 文件: "@ + file,
        error_text(ScanError::LegacyWord, file) == "原生模式暂不支持 .doc，请先另存为 .docx: "@ + file,
        error_text(ScanError::WordFile, file) == "无法打开 Word 文件: "@ + file,
        error_text(ScanError::WordArchive, file) == "无法解析 docx 压缩结构: "@ + file,
        error_text(ScanError::ImageFile, file) == "无法打开图片文件: "@ + file,
        error_text(ScanError::Disconnected, file) == "扫描线程异常: 通道已断开"@,
{
}

} // verus!
