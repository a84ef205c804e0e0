use qr_scan::errors::ScanError;
use qr_scan::formats::{kind_of, FileKind};
use qr_scan::pages::ScanImage;
use qr_scan::pdf_text::scan_pdf_text_rows;
use qr_scan::picture::{DynamicImage, ImageFormat};
use qr_scan::raster::GrayImage;
use qr_scan::scan::{
    append_outcome, collect_file_images, list_pages, next_action, progress_text, scan_images, Action, RenderScan,
    RenderedFile, ScanOutcome, Stage, WorkEvent,
};
use qr_scan::word::{
    collect_word_images, extract_payloads_from_docx_xml, holds_text, insert_xml_payloads, media_format_of,
    scan_word_text_rows,
};
use qr_scan::invoice::QrRow;
use std::io::Write;

/// What the first reader finds.
fn read_bytes(gray: &GrayImage) -> Vec<Option<Vec<u8>>> {
    let mut decoder = quircs::Quirc::default();
    let codes = decoder.identify(gray.width as usize, gray.height as usize, &gray.pixels);
    codes.map(|code| code.ok().and_then(|code| code.decode().ok()).map(|data| data.payload)).collect()
}

/// What the second reader finds.
fn read_texts(gray: &GrayImage) -> Vec<Option<String>> {
    let source = image::GrayImage::from_raw(gray.width, gray.height, gray.pixels.clone()).unwrap();
    let mut prepared = rqrr::PreparedImage::prepare(source);
    let grids = prepared.detect_grids();
    grids.into_iter().map(|grid| grid.decode().ok().map(|found| found.1)).collect()
}

const CODE: [&str; 29] = [
    "#######..#..#..##..##.#######",
    "#.....#...###.###..#..#.....#",
    "#.###.#.###.#.#...#...#.###.#",
    "#.###.#..###...##.....#.###.#",
    "#.###.#...#....##..##.#.###.#",
    "#.....#..#....##.#.#..#.....#",
    "#######.#.#.#.#.#.#.#.#######",
    "........###.######.#.........",
    "###.#####.##.##..##..##...#..",
    ".#..##..#.##..#..##...##.#..#",
    "#######..#....#..##...#..#..#",
    "..####.....#.#...#.###.#.#.#.",
    "##.#..#.#...###..##...##.#.#.",
    "..####.....##....##...##.#.##",
    "#.#...#######...#...#.###...#",
    "##.#.#...#..##...#..##.#.#...",
    "###...##.###.##..####.##....#",
    ".###.#...###..#..##...##..#.#",
    "#.....###.#...#...#.#.###.#.#",
    ".##..#..#.##.###.#.#.#...#.#.",
    "#..######.#.#....########...#",
    "........#.####...##.#...#.#.#",
    "#######.##.##.#.#####.#.#.#.#",
    "#.....#.##..#########...##.#.",
    "#.###.#.#####..####.######.#.",
    "#.###.#..#.#.#...###.#..##.##",
    "#.###.#.#.#..#....#.....#...#",
    "#.....#.#.#..#.####.#.##.#.#.",
    "#######.#.#..##..##.#.####.##",
];

const PAYLOAD: &str = "01,32,,24512000,88.50,20240315,12345678,9AF3";

/// The code, eight pixels to a module, in a white border four modules wide.
fn picture() -> (u32, Vec<u8>) {
    let side = 37 * 8;
    let mut pixels = vec![255u8; (side * side) as usize];
    for (row, modules) in CODE.iter().enumerate() {
        for (column, module) in modules.bytes().enumerate() {
            if module == b'#' {
                for y in 0..8 {
                    for x in 0..8 {
                        pixels[((row + 4) * 8 + y) * side as usize + (column + 4) * 8 + x] = 0;
                    }
                }
            }
        }
    }
    (side, pixels)
}

fn png() -> Vec<u8> {
    let (side, pixels) = picture();
    let image = image::GrayImage::from_raw(side, side, pixels).unwrap();
    let mut bytes = Vec::new();
    image.write_to(&mut std::io::Cursor::new(&mut bytes), image::ImageFormat::Png).unwrap();
    bytes
}

fn failed<T>(result: Result<T, ScanError>) -> Option<ScanError> {
    result.err()
}

fn archive(files: &[(&str, &[u8])]) -> Vec<u8> {
    let mut writer = zip::ZipWriter::new(std::io::Cursor::new(Vec::new()));
    for (name, content) in files {
        writer.start_file(*name, zip::write::SimpleFileOptions::default()).unwrap();
        writer.write_all(content).unwrap();
    }
    writer.finish().unwrap().into_inner()
}

/// A document of one page with a content stream and an image on it.
fn pdf(content: &[u8], image: Option<&[u8]>) -> Vec<u8> {
    let mut document = lopdf::Document::with_version("1.5");
    let pages = document.new_object_id();
    let stream = document.add_object(lopdf::Stream::new(lopdf::Dictionary::new(), content.to_vec()));
    let mut objects = lopdf::Dictionary::new();
    if let Some(bytes) = image {
        let mut dict = lopdf::Dictionary::new();
        dict.set("Subtype", lopdf::Object::Name(b"Image".to_vec()));
        dict.set("Width", 296);
        dict.set("Height", 296);
        objects.set("Im0", document.add_object(lopdf::Stream::new(dict, bytes.to_vec())));
    }
    let mut resources = lopdf::Dictionary::new();
    resources.set("XObject", lopdf::Object::Dictionary(objects));
    let mut page = lopdf::Dictionary::new();
    page.set("Type", lopdf::Object::Name(b"Page".to_vec()));
    page.set("Parent", lopdf::Object::Reference(pages));
    page.set("Contents", lopdf::Object::Reference(stream));
    page.set("Resources", lopdf::Object::Dictionary(resources));
    let page = document.add_object(lopdf::Object::Dictionary(page));
    let mut tree = lopdf::Dictionary::new();
    tree.set("Type", lopdf::Object::Name(b"Pages".to_vec()));
    tree.set("Kids", lopdf::Object::Array(vec![lopdf::Object::Reference(page)]));
    tree.set("Count", 1);
    document.objects.insert(pages, lopdf::Object::Dictionary(tree));
    let mut catalog = lopdf::Dictionary::new();
    catalog.set("Type", lopdf::Object::Name(b"Catalog".to_vec()));
    catalog.set("Pages", lopdf::Object::Reference(pages));
    let catalog = document.add_object(lopdf::Object::Dictionary(catalog));
    document.trailer.set("Root", lopdf::Object::Reference(catalog));
    let mut bytes = Vec::new();
    document.save_to(&mut bytes).unwrap();
    bytes
}

#[test]
fn text_of_a_document_is_read() {
    let bytes = pdf(b"BT (01,32,,24512000,88.50,20240315,12345678,9AF3) Tj ET", None);
    let rows = scan_pdf_text_rows("a.pdf", Some(&bytes)).unwrap();
    assert_eq!(rows.len(), 1);
    assert_eq!(rows[0].content, PAYLOAD);
    assert_eq!(rows[0].page, 1);
    assert_eq!(rows[0].file, "a.pdf");
    assert_eq!(rows[0].issue_amount, "88.50");
}

#[test]
fn text_in_parts_is_read_from_an_array() {
    let bytes = pdf(b"BT [(01,32,,24512000,88.50,20240315,1,7) 12 (x)] TJ ET", None);
    assert_eq!(scan_pdf_text_rows("a.pdf", Some(&bytes)).unwrap()[0].content, "01,32,,24512000,88.50,20240315,1,7");
    let bytes = pdf(b"BT <30312c33322c2c32343531323030302c38382e35302c32303234303331352c312c37> Tj ET", None);
    assert_eq!(scan_pdf_text_rows("a.pdf", Some(&bytes)).unwrap()[0].content, "01,32,,24512000,88.50,20240315,1,7");
}

#[test]
fn documents_without_text_have_no_text_rows() {
    let bytes = pdf(b"q Q", None);
    assert!(scan_pdf_text_rows("a.pdf", Some(&bytes)).unwrap().is_empty());
    assert!(failed(scan_pdf_text_rows("a.pdf", Some(b"no document"))) == Some(ScanError::PdfText));
    assert!(failed(scan_pdf_text_rows("a.pdf", None)) == Some(ScanError::PdfText));
}

#[test]
fn images_of_a_document_are_searched() {
    let bytes = pdf(b"q Q", Some(&png()));
    let images = collect_file_images(FileKind::Pdf, Some(&bytes)).unwrap();
    assert_eq!(images.len(), 1);
    assert_eq!(images[0].page, 1);
    let rows = scan_images("a.pdf", &images, &read_bytes, &read_texts).unwrap();
    assert_eq!(rows.len(), 1);
    assert_eq!(rows[0].content, PAYLOAD);
    assert_eq!(rows[0].qr_index, 1);
    assert!(failed(collect_file_images(FileKind::Pdf, Some(b"no document"))) == Some(ScanError::PdfFile));
    assert!(failed(collect_file_images(FileKind::Pdf, None)) == Some(ScanError::PdfFile));
}

#[test]
fn image_files_are_searched() {
    let bytes = png();
    let images = collect_file_images(kind_of(Some("PNG")), Some(&bytes)).unwrap();
    assert_eq!(scan_images("a.PNG", &images, &read_bytes, &read_texts).unwrap()[0].content, PAYLOAD);
    assert!(failed(collect_file_images(kind_of(Some("jpg")), Some(&bytes))) == Some(ScanError::ImageFile));
    assert!(failed(collect_file_images(kind_of(Some("png")), None)) == Some(ScanError::ImageFile));
    assert!(collect_file_images(FileKind::Other, Some(&bytes)).unwrap().is_empty());
}

#[test]
fn word_text_is_read() {
    let text = format!("<w:t>{PAYLOAD}</w:t>");
    let bytes = archive(&[("word/document.xml", text.as_bytes()), ("other/b.xml", b"01,32,1,2,3,4,5,6,7,8,9,10")]);
    let rows = scan_word_text_rows("a.docx", FileKind::Docx, Some(&bytes)).unwrap();
    assert_eq!(rows.len(), 1);
    assert_eq!(rows[0].content, PAYLOAD);
    assert_eq!(rows[0].page, 1);
    assert!(scan_word_text_rows("a.pdf", FileKind::Pdf, Some(&bytes)).unwrap().is_empty());
}

#[test]
fn word_payloads_are_a_set() {
    let other = "01,32,1,2,3,4,5,6,7,8,9,10";
    let text = format!("{PAYLOAD};{other};{PAYLOAD}");
    let bytes = archive(&[("word/a.xml", text.as_bytes()), ("word/b.xml", PAYLOAD.as_bytes()), ("word/c.xml", b"\xff")]);
    let payloads = extract_payloads_from_docx_xml(FileKind::Docx, Some(&bytes)).unwrap();
    assert_eq!(payloads, vec![PAYLOAD.to_string(), other.to_string()]);
}

#[test]
fn word_text_must_be_valid() {
    let mut out = Vec::new();
    insert_xml_payloads(Some([PAYLOAD.as_bytes(), &[0xff]].concat()), &mut out);
    insert_xml_payloads(None, &mut out);
    assert!(out.is_empty());
    insert_xml_payloads(Some(PAYLOAD.as_bytes().to_vec()), &mut out);
    assert_eq!(out, vec![PAYLOAD.to_string()]);
}

#[test]
fn word_files_that_cannot_be_read() {
    let legacy = scan_word_text_rows("a.doc", FileKind::Doc, Some(b""));
    assert!(failed(legacy) == Some(ScanError::LegacyWord));
    assert!(failed(scan_word_text_rows("a.docx", FileKind::Docx, None)) == Some(ScanError::WordFile));
    assert!(failed(scan_word_text_rows("a.docx", FileKind::Docx, Some(b"x"))) == Some(ScanError::WordArchive));
    assert!(failed(collect_word_images(FileKind::Doc, None)) == Some(ScanError::LegacyWord));
    assert!(failed(collect_word_images(FileKind::Docx, None)) == Some(ScanError::WordFile));
    assert!(failed(collect_word_images(FileKind::Docx, Some(b"x"))) == Some(ScanError::WordArchive));
}

#[test]
fn word_images_are_searched() {
    let image = png();
    let files: [(&str, &[u8]); 5] = [
        ("word/media/image1.PNG", &image),
        ("word/media/image2.jpg", &image),
        ("word/media/notes.txt", &image),
        ("word/image3.png", &image),
        ("Word/Media/image4.png", &image),
    ];
    let bytes = archive(&files);
    let images = collect_file_images(FileKind::Docx, Some(&bytes)).unwrap();
    assert_eq!(images.len(), 2);
    assert_eq!(scan_images("a.docx", &images, &read_bytes, &read_texts).unwrap()[0].content, PAYLOAD);
}

#[test]
fn files_of_a_word_file_are_told_by_name() {
    assert!(holds_text("word/document.xml") && holds_text("word/a/b.xml"));
    assert!(!holds_text("word/document.xml.rels") && !holds_text("Word/document.xml") && !holds_text("document.xml"));
    assert!(matches!(media_format_of("word/media/a.b.JPEG", 12_000_000), Some(ImageFormat::Jpeg)));
    assert!(matches!(media_format_of("WORD/media/a.tif", 0), Some(ImageFormat::Tiff)));
    assert!(media_format_of("word/media/a.png", 12_000_001).is_none());
    assert!(media_format_of("word/a.png", 5).is_none());
    assert!(media_format_of("word/media/png", 5).is_none());
    assert!(media_format_of("word/media/a.gif", 5).is_none());
}

#[test]
fn a_word_file_gives_sixteen_images() {
    let small = image::GrayImage::new(3, 2);
    let mut bytes = Vec::new();
    small.write_to(&mut std::io::Cursor::new(&mut bytes), image::ImageFormat::Png).unwrap();
    let names: Vec<String> = (0..20).map(|i| format!("word/media/{i}.png")).collect();
    let files: Vec<(&str, &[u8])> = names.iter().map(|name| (name.as_str(), bytes.as_slice())).collect();
    assert_eq!(collect_word_images(FileKind::Docx, Some(&archive(&files))).unwrap().len(), 16);
}

fn scan(page: usize, width: u32, pixels: Vec<u8>) -> ScanImage {
    ScanImage { page, image: DynamicImage::ImageLuma8(GrayImage::from_raw(width, width, pixels).unwrap()) }
}

#[test]
fn the_first_image_with_an_invoice_is_shown() {
    let (side, pixels) = picture();
    let images = vec![scan(3, 12, vec![255; 144]), scan(0, side, pixels.clone()), scan(7, side, pixels)];
    let rows = scan_images("a.pdf", &images, &read_bytes, &read_texts).unwrap();
    assert_eq!(rows.len(), 1);
    assert_eq!((rows[0].page, rows[0].qr_index), (1, 1));
    assert!(scan_images("a.pdf", &Vec::new(), &read_bytes, &read_texts).unwrap().is_empty());
}

#[test]
fn an_image_without_pixels_ends_the_search() {
    let (side, pixels) = picture();
    let blank = || scan(1, 0, vec![]);
    let before = vec![blank(), scan(1, side, pixels.clone())];
    assert!(scan_images("a.pdf", &before, &read_bytes, &read_texts).is_none());
    let after = vec![scan(1, side, pixels), blank()];
    assert_eq!(scan_images("a.pdf", &after, &read_bytes, &read_texts).unwrap().len(), 1);
    let none = |_: &GrayImage| Vec::new();
    let mut many: Vec<ScanImage> = (0..36).map(|_| scan(1, 1, vec![9])).collect();
    many.push(blank());
    assert!(scan_images("a.pdf", &many, &none, &|_: &GrayImage| Vec::new()).unwrap().is_empty());
}

#[test]
fn rendered_pages_are_tried_until_something_is_found() {
    let mut render = RenderScan::new();
    assert_eq!(render.next_resolution(), Some(200));
    render.add_page(1, None, &read_bytes, &read_texts);
    render.add_page(1, Some(b"no image"), &read_bytes, &read_texts);
    assert!(render.rows("a.pdf").is_empty());
    assert_eq!(render.next_resolution(), Some(300));
    let bytes = png();
    render.add_page(4, Some(&bytes), &read_bytes, &read_texts);
    render.add_page(5, Some(&bytes), &read_bytes, &read_texts);
    assert_eq!(render.candidates, vec![(4, PAYLOAD.to_string())]);
    assert_eq!(render.next_resolution(), None);
    let rows = render.rows("a.pdf");
    assert_eq!((rows.len(), rows[0].page), (1, 4));
}

#[test]
fn rendering_ends_after_three_resolutions() {
    let mut render = RenderScan::new();
    let tried: Vec<u32> = std::iter::from_fn(|| render.next_resolution()).collect();
    assert_eq!(tried, vec![200, 300, 400]);
}

fn rendered(extension: &str, stem: &str) -> RenderedFile {
    RenderedFile { extension: Some(extension.to_string()), stem: Some(stem.to_string()) }
}

#[test]
fn rendered_pages_are_ordered_by_number() {
    let files = vec![
        rendered("png", "page-10"),
        rendered("txt", "page-1"),
        rendered("PNG", "page-2"),
        rendered("png", "page"),
        RenderedFile { extension: Some("png".to_string()), stem: None },
        RenderedFile { extension: None, stem: Some("page-3".to_string()) },
        rendered("png", "page-02"),
    ];
    assert_eq!(list_pages(&files), vec![(1, 3), (1, 4), (2, 2), (2, 6), (10, 0)]);
}

fn row(content: &str) -> QrRow {
    qr_scan::invoice::build_qr_row("a", 1, 1, content.to_string())
}

fn is_search(action: Action, millis: u64) -> bool {
    matches!(action, Action::Search { wait_millis } if wait_millis == millis)
}

fn is_failure(action: Action, message: &str) -> bool {
    matches!(action, Action::Finish(ScanOutcome::Failed(text)) if text == message)
}

fn is_completed(action: Action, count: usize) -> bool {
    matches!(action, Action::Finish(ScanOutcome::Completed(rows)) if rows.len() == count)
}

fn is_timeout(action: Action) -> bool {
    matches!(action, Action::Finish(ScanOutcome::TimedOut))
}

fn found(rows: Vec<QrRow>) -> WorkEvent {
    WorkEvent::Ended(Ok(rows))
}

fn broken() -> WorkEvent {
    WorkEvent::Ended(Err("m".to_string()))
}

const LOST: &str = "扫描线程异常: 通道已断开";

#[test]
fn text_is_read_first() {
    let image = FileKind::Image(ImageFormat::Png);
    for kind in [FileKind::Pdf, FileKind::Docx, FileKind::Doc] {
        assert!(matches!(next_action(kind, 5, 1, Stage::Begin), Action::ReadText { wait_millis: 4999 }));
        assert!(matches!(next_action(kind, 0, 0, Stage::Begin), Action::ReadText { wait_millis: 0 }));
    }
    assert!(is_search(next_action(image, 5, 0, Stage::Begin), 2000));
    assert!(is_search(next_action(FileKind::Other, 1, 0, Stage::Begin), 1000));
    assert!(is_timeout(next_action(image, 0, 0, Stage::Begin)));
    let read = |elapsed, event| next_action(FileKind::Pdf, 2, elapsed, Stage::TextRead(event));
    assert!(is_search(read(0, found(vec![])), 2000));
    assert!(is_search(read(700, found(vec![])), 1300));
    assert!(is_timeout(read(2000, found(vec![]))));
    assert!(is_completed(read(0, found(vec![row("x")])), 1));
    assert!(is_completed(read(2001, found(vec![row("x")])), 1));
    assert!(is_failure(read(0, broken()), "m"));
    assert!(is_failure(read(0, WorkEvent::Lost), LOST));
    assert!(is_timeout(read(2000, WorkEvent::Waited)));
}

#[test]
fn the_search_is_awaited_in_two_parts() {
    let image = FileKind::Image(ImageFormat::Png);
    let waited = || Stage::FirstWait(WorkEvent::Waited);
    let rendering = next_action(FileKind::Pdf, 5, 2000, waited());
    assert!(matches!(rendering, Action::RenderMeanwhile { wait_millis: 3000 }));
    assert!(is_timeout(next_action(FileKind::Pdf, 2, 2000, waited())));
    assert!(is_timeout(next_action(FileKind::Pdf, 5, 5001, waited())));
    assert!(matches!(next_action(image, 5, 2000, waited()), Action::Await { wait_millis: 3000 }));
    assert!(is_timeout(next_action(image, 2, 2000, waited())));
    assert!(is_timeout(next_action(FileKind::Pdf, 9, 9000, Stage::LastWait(WorkEvent::Waited))));
}

#[test]
fn the_search_goes_on_while_pages_are_rendered() {
    let after = |elapsed, rendered, search| {
        next_action(FileKind::Pdf, 9, elapsed, Stage::RenderedMeanwhile { rendered, search })
    };
    let nothing = || found(vec![]);
    assert!(is_timeout(after(9000, nothing(), WorkEvent::Waited)));
    assert!(is_timeout(after(9000, WorkEvent::Waited, WorkEvent::Waited)));
    assert!(matches!(after(2000, nothing(), WorkEvent::Waited), Action::Await { wait_millis: 7000 }));
    assert!(matches!(after(6500, nothing(), WorkEvent::Waited), Action::Await { wait_millis: 2500 }));
    assert!(is_completed(after(9000, WorkEvent::Waited, found(vec![row("x")])), 1));
    assert!(is_completed(after(3000, nothing(), found(vec![row("x")])), 1));
    assert!(is_completed(after(3000, found(vec![row("x")]), found(vec![row("y"), row("z")])), 1));
    assert!(matches!(after(3000, nothing(), nothing()), Action::RenderAfter { wait_millis: 6000 }));
    assert!(is_timeout(after(9000, nothing(), nothing())));
    assert!(is_failure(after(3000, broken(), WorkEvent::Waited), "m"));
    assert!(is_failure(after(3000, nothing(), broken()), "m"));
    assert!(is_failure(after(3000, WorkEvent::Lost, WorkEvent::Waited), LOST));
    assert!(is_failure(after(3000, nothing(), WorkEvent::Lost), LOST));
    let stage = Stage::RenderedMeanwhile { rendered: nothing(), search: WorkEvent::Waited };
    let endless = next_action(FileKind::Pdf, u64::MAX, 1, stage);
    assert!(matches!(endless, Action::Await { wait_millis: u64::MAX }));
}

#[test]
fn the_end_of_the_search_decides() {
    let image = FileKind::Image(ImageFormat::Png);
    let stages: [fn(WorkEvent) -> Stage; 2] = [Stage::FirstWait, Stage::LastWait];
    for stage in stages {
        let rendering = next_action(FileKind::Pdf, 5, 1000, stage(found(vec![])));
        assert!(matches!(rendering, Action::RenderAfter { wait_millis: 4000 }));
        assert!(is_timeout(next_action(FileKind::Pdf, 5, 5000, stage(found(vec![])))));
        assert!(is_completed(next_action(image, 5, 5000, stage(found(vec![]))), 0));
        assert!(is_completed(next_action(FileKind::Pdf, 5, 0, stage(found(vec![row("x")]))), 1));
        assert!(is_failure(next_action(FileKind::Pdf, 5, 0, stage(broken())), "m"));
        assert!(is_failure(next_action(image, 5, 0, stage(WorkEvent::Lost)), LOST));
    }
    let after = |event| next_action(FileKind::Pdf, 5, 0, Stage::RenderedAfter(event));
    assert!(is_completed(after(found(vec![])), 0));
    assert!(is_completed(after(found(vec![row("x")])), 1));
    assert!(is_failure(after(broken()), "m"));
    assert!(is_failure(after(WorkEvent::Lost), LOST));
    assert!(is_timeout(after(WorkEvent::Waited)));
}

#[test]
fn every_file_is_reported() {
    let mut rows = Vec::new();
    append_outcome(&mut rows, "a", ScanOutcome::Completed(vec![row("x"), row("y")]));
    append_outcome(&mut rows, "b", ScanOutcome::Completed(vec![]));
    append_outcome(&mut rows, "c", ScanOutcome::TimedOut);
    append_outcome(&mut rows, "d", ScanOutcome::Failed(" no\ngood ".to_string()));
    let shown: Vec<(&str, &str)> = rows.iter().map(|row| (row.file.as_str(), row.content.as_str())).collect();
    let wanted =
        vec![("a", "x"), ("a", "y"), ("b", "识别失败"), ("c", "识别失败: 超时"), ("d", "识别失败: no good")];
    assert_eq!(shown, wanted);
}

#[test]
fn progress_is_shown() {
    let found = ScanOutcome::Completed(vec![row("x"), row("y")]);
    assert_eq!(progress_text(1, 12, "a.pdf", &found, 5), "[1/12] a.pdf -> 本文件识别 2 条");
    let nothing = ScanOutcome::Completed(vec![]);
    assert_eq!(progress_text(2, 12, "a.pdf", &nothing, 5), "[2/12] a.pdf -> 本文件识别 1 条");
    assert_eq!(progress_text(3, 12, "a.pdf", &ScanOutcome::TimedOut, 5), "[3/12] a.pdf -> 超时跳过 (>5s)");
    let lost = ScanOutcome::Failed("m".to_string());
    assert_eq!(progress_text(12, 12, "a.pdf", &lost, 5), "[12/12] a.pdf -> 失败: m");
}

#[test]
fn errors_name_the_file() {
    let messages = [
        (ScanError::PdfText, "无法读取 PDF 文本流: f"),
        (ScanError::PdfFile, "无法读取 PDF 文件: f"),
        (ScanError::PageImages { page: 12 }, "提取 PDF 图片失败: f 第 12 页"),
        (ScanError::AnnotationImages { page: 3 }, "提取 PDF 注释图片失败: f 第 3 页"),
        (ScanError::LegacyWord, "原生模式暂不支持 .doc，请先另存为 .docx: f"),
        (ScanError::WordFile, "无法打开 Word 文件: f"),
        (ScanError::WordArchive, "无法解析 docx 压缩结构: f"),
        (ScanError::ImageFile, "无法打开图片文件: f"),
        (ScanError::Disconnected, "扫描线程异常: 通道已断开"),
    ];
    for (error, message) in messages {
        assert_eq!(error.message("f"), message);
    }
}
