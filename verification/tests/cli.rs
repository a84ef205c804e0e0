use qr_scan::cli::{expand_inputs, parse_args, usage_lines, ArgError, FoundFile, PathPart, Request};
use qr_scan::formats::{
    extension_lower, is_supported_image_ext, is_supported_input_path, is_supported_word_ext, kind_of,
    parse_render_page_no, FileKind,
};
use std::path::{Component, Path};

fn args(list: &[&str]) -> Request {
    parse_args(&list.iter().map(|s| s.to_string()).collect())
}

fn refusal(request: Request) -> String {
    match request {
        Request::Refused(error) => error.message(),
        _ => panic!("accepted"),
    }
}

fn scan(request: Request) -> (Vec<String>, Option<String>, u64) {
    match request {
        Request::Scan { inputs, csv_output, timeout_secs } => (inputs, csv_output, timeout_secs),
        _ => panic!("refused"),
    }
}

#[test]
fn inputs_alone_take_the_defaults() {
    assert_eq!(scan(args(&["pdf/", "a.png"])), (vec!["pdf/".to_string(), "a.png".to_string()], None, 5));
}

#[test]
fn options_may_stand_anywhere() {
    let (inputs, csv_output, timeout_secs) = scan(args(&["--csv", "o.csv", "a", "-t", "45", "b", "--timeout", "0"]));
    assert_eq!(inputs, vec!["a".to_string(), "b".to_string()]);
    assert_eq!(csv_output, Some("o.csv".to_string()));
    assert_eq!(timeout_secs, 1);
    assert_eq!(scan(args(&["a", "-t", "+7"])).2, 7);
}

#[test]
fn help_is_asked_for() {
    assert!(matches!(args(&["a", "-h", "--csv"]), Request::Help));
    assert!(matches!(args(&["--help"]), Request::Help));
    assert_eq!(usage_lines().len(), 5);
    assert_eq!(usage_lines()[0], "用法:");
}

#[test]
fn bad_command_lines_are_refused() {
    assert_eq!(refusal(args(&[])), "未提供输入文件或目录");
    assert_eq!(refusal(args(&["--csv", "o.csv"])), "未提供输入文件或目录");
    assert_eq!(refusal(args(&["a", "--csv"])), "--csv 缺少输出文件路径");
    assert_eq!(refusal(args(&["a", "-t"])), "--timeout 缺少秒数");
    assert_eq!(refusal(args(&["--timeout", "-1", "a"])), "无效超时秒数: -1");
    assert!(matches!(args(&["-t", "x", "-h"]), Request::Refused(ArgError::InvalidTimeout(_))));
}

#[test]
fn extensions_are_compared_in_lower_case() {
    assert_eq!(extension_lower(Some("PnG")), Some("png".to_string()));
    assert_eq!(extension_lower(None), None);
    for ext in ["pdf", "PNG", "jpg", "jpeg", "bmp", "webp", "tif", "TIFF", "doc", "DocX"] {
        assert!(is_supported_input_path(Some(ext)), "{ext}");
    }
    for ext in ["", "gif", "xml", "pdf "] {
        assert!(!is_supported_input_path(Some(ext)), "{ext}");
    }
    assert!(!is_supported_input_path(None));
}

#[test]
fn kinds_of_files() {
    assert!(is_supported_image_ext("webp"));
    assert!(!is_supported_image_ext("WEBP"));
    assert!(is_supported_word_ext("doc"));
    assert!(!is_supported_word_ext("pdf"));
    assert!(matches!(kind_of(Some("PDF")), FileKind::Pdf));
    assert!(matches!(kind_of(Some("docx")), FileKind::Docx));
    assert!(matches!(kind_of(Some("doc")), FileKind::Doc));
    assert!(matches!(kind_of(Some("jpeg")), FileKind::Image(qr_scan::picture::ImageFormat::Jpeg)));
    assert!(matches!(kind_of(Some("txt")), FileKind::Other));
    assert!(matches!(kind_of(None), FileKind::Other));
}

#[test]
fn rendered_pages_are_numbered() {
    assert_eq!(parse_render_page_no(Some("page-1")), Some(1));
    assert_eq!(parse_render_page_no(Some("page-012")), Some(12));
    assert_eq!(parse_render_page_no(Some("a-b-3")), Some(3));
    assert_eq!(parse_render_page_no(Some("page")), None);
    assert_eq!(parse_render_page_no(Some("page-")), None);
    assert_eq!(parse_render_page_no(Some("page-x")), None);
    assert_eq!(parse_render_page_no(Some("page-18446744073709551616")), None);
    assert_eq!(parse_render_page_no(None), None);
}

fn parts(path: &str) -> Vec<PathPart> {
    Path::new(path)
        .components()
        .map(|component| {
            let rank = match component {
                Component::Prefix(_) => 0,
                Component::RootDir => 1,
                Component::CurDir => 2,
                Component::ParentDir => 3,
                Component::Normal(_) => 4,
            };
            PathPart { rank, name: component.as_os_str().as_encoded_bytes().to_vec() }
        })
        .collect()
}

fn found(path: &str) -> FoundFile {
    let extension = Path::new(path).extension().and_then(|text| text.to_str());
    FoundFile { parts: parts(path), extension: extension.map(str::to_string) }
}

fn expanded<'a>(paths: &[&'a str]) -> Vec<&'a str> {
    let files: Vec<FoundFile> = paths.iter().map(|path| found(path)).collect();
    expand_inputs(&files).into_iter().map(|place| paths[place]).collect()
}

#[test]
fn inputs_are_sorted_and_unique() {
    let paths =
        ["b/a.pdf", "a/b.PDF", "a.pdf", "/z.png", "a//b.PDF", "../x.doc", "a/b.jpg", "./q.tif", "b/a.pdf", "ab.webp"];
    let ordered = expanded(&paths);
    let mut wanted: Vec<&Path> = paths.iter().map(Path::new).collect();
    wanted.sort();
    wanted.dedup();
    let wanted: Vec<&str> = wanted.iter().map(|path| path.to_str().unwrap()).collect();
    assert_eq!(ordered, wanted);
    assert_eq!(ordered.iter().filter(|path| **path == "a/b.PDF").count(), 1);
}

#[test]
fn inputs_do_not_depend_on_how_they_were_found() {
    let once = expanded(&["c.pdf", "a.txt", "b/x.docx", "a.pdf", "no_extension"]);
    assert_eq!(once, vec!["a.pdf", "b/x.docx", "c.pdf"]);
    assert_eq!(expanded(&["a.pdf", "c.pdf", "c.pdf", "b/x.docx", "a.pdf", "b.rs"]), once);
    assert_eq!(expanded(&once), once);
    assert!(expanded(&["a.txt", "b"]).is_empty());
}
