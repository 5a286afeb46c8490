use cbz_editor::archive::{entry_kind, read_cbz, sort_pages, EntryKind};
use cbz_editor::book::{thumbnail_batch, viewer_go, CbzBook, MergeOutcome, Page};
use cbz_editor::lang::{lang_code, lang_of_locale, Lang};
use cbz_editor::comicinfo::{patch_pagecount, reads_right_to_left, update_pagecount};
use cbz_editor::natural::{natural_order_of, Order};
use cbz_editor::paths::{
    copy_name, dropped_name, extract_file_name, is_cbz_path, is_dropped_image, numbered_copy_name,
};
use cbz_editor::picture::{
    concat_h, crop_region, decode_picture, join_side_by_side, picture_rgb8, split_at_cut,
};
use cbz_editor::text::{is_image_ext, short_name};
use std::io::{Cursor, Read, Write};

fn png(w: u32, h: u32, rgb: [u8; 3]) -> Vec<u8> {
    let img = image::RgbImage::from_pixel(w, h, image::Rgb(rgb));
    let mut out = Cursor::new(Vec::new());
    image::DynamicImage::ImageRgb8(img)
        .write_to(&mut out, image::ImageFormat::Png)
        .unwrap();
    out.into_inner()
}

/// A picture whose left `split` columns are `a` and the rest `b`.
fn two_tone_png(w: u32, h: u32, split: u32, a: [u8; 3], b: [u8; 3]) -> Vec<u8> {
    let img = image::RgbImage::from_fn(w, h, |x, _| if x < split { image::Rgb(a) } else { image::Rgb(b) });
    let mut out = Cursor::new(Vec::new());
    image::DynamicImage::ImageRgb8(img)
        .write_to(&mut out, image::ImageFormat::Png)
        .unwrap();
    out.into_inner()
}

fn zip_of(entries: &[(&str, &[u8])]) -> Vec<u8> {
    let mut w = zip::ZipWriter::new(Cursor::new(Vec::new()));
    for (name, data) in entries {
        if name.ends_with('/') {
            w.add_directory(*name, zip::write::SimpleFileOptions::default()).unwrap();
        } else {
            w.start_file(*name, zip::write::SimpleFileOptions::default()).unwrap();
            w.write_all(data).unwrap();
        }
    }
    w.finish().unwrap().into_inner()
}

fn page(name: &str, bytes: &[u8]) -> Page {
    Page { name: name.to_string(), bytes: bytes.to_vec(), failed: false, delete: false, uid: 0 }
}

fn names(book: &CbzBook) -> Vec<String> {
    book.pages().iter().map(|p| p.name.clone()).collect()
}

fn pixel(bytes: &[u8], x: u32, y: u32) -> [u8; 3] {
    let p = decode_picture(bytes).unwrap();
    let rgb = picture_rgb8(&p);
    let i = ((y * rgb.width() + x) * 3) as usize;
    let d = rgb.data();
    [d[i], d[i + 1], d[i + 2]]
}

fn near(c: [u8; 3], want: [u8; 3]) -> bool {
    c.iter().zip(want.iter()).all(|(a, b)| (*a as i32 - *b as i32).abs() <= 40)
}

#[test]
fn image_extensions_are_exact() {
    for e in ["jpg", "jpeg", "png", "webp", "gif", "bmp"] {
        assert!(is_image_ext(e));
    }
    assert!(!is_image_ext("JPG"));
    assert!(!is_image_ext("tiff"));
    assert!(!is_image_ext(""));
}

#[test]
fn cbz_paths_by_extension_ignoring_case() {
    assert!(is_cbz_path("/home/me/Volume 1.cbz"));
    assert!(is_cbz_path("Volume.CBZ"));
    assert!(is_cbz_path("a/b/c.Zip"));
    assert!(is_cbz_path("dir.cbz/"));
    assert!(!is_cbz_path("book.cbr"));
    assert!(!is_cbz_path(".cbz"));
    assert!(!is_cbz_path("a/.."));
    assert!(!is_cbz_path("noext"));
}

#[test]
fn short_names_keep_the_tail() {
    assert_eq!(short_name("chapter1/page01.jpg"), "page01.jpg");
    assert_eq!(short_name("plain.png"), "plain.png");
    assert_eq!(short_name("dir/"), "");
    let long = "a_rather_long_page_name_042.jpg";
    assert_eq!(short_name(long), "…g_page_name_042.jpg");
    assert_eq!(short_name(long).chars().count(), 20);
    assert_eq!(short_name("x/12345678901234567890"), "12345678901234567890");
}

#[test]
fn natural_order_puts_page2_before_page10() {
    let c = |a: &str, b: &str| natural_order_of(&a.chars().collect(), &b.chars().collect());
    assert_eq!(c("page2", "page10"), Order::Less);
    assert_eq!(c("page10", "page2"), Order::Greater);
    assert_eq!(c("page10", "page10"), Order::Equal);
    assert_eq!(c("p1", "p01"), Order::Less);
    assert_eq!(c("p007", "p7b"), Order::Greater);
    assert_eq!(c("a", "b"), Order::Less);
    assert_eq!(c("abc", "ab"), Order::Greater);
    assert_eq!(c("img99999999999999999999999", "img100000000000000000000000"), Order::Less);
}

#[test]
fn sorting_pages_is_natural() {
    let pages = vec![page("p10.jpg", b"c"), page("p2.jpg", b"b"), page("p1.jpg", b"a")];
    let sorted = sort_pages(pages);
    let ns: Vec<&str> = sorted.iter().map(|p| p.name.as_str()).collect();
    assert_eq!(ns, vec!["p1.jpg", "p2.jpg", "p10.jpg"]);
}

#[test]
fn entry_kinds_ignore_case() {
    assert_eq!(entry_kind("ComicInfo.XML"), EntryKind::Metadata);
    assert_eq!(entry_kind("dir/a.JPG"), EntryKind::Image);
    assert_eq!(entry_kind("a.jpeg"), EntryKind::Image);
    assert_eq!(entry_kind("a.Webp"), EntryKind::Image);
    assert_eq!(entry_kind("a.bmp"), EntryKind::Image);
    assert_eq!(entry_kind("notes.txt"), EntryKind::Other);
    assert_eq!(entry_kind("jpg"), EntryKind::Other);
    assert_eq!(entry_kind("meta/comicinfo.xml"), EntryKind::Metadata);
    assert_eq!(entry_kind("notes.xml"), EntryKind::Other);
    assert_eq!(entry_kind("MyComicInfo.xml"), EntryKind::Other);
}

#[test]
fn comicinfo_is_kept_over_other_xml() {
    let data = zip_of(&[
        ("ComicInfo.xml", b"<ComicInfo/>"),
        ("notes.xml", b"<notes/>"),
        ("p1.jpg", b"one"),
    ]);
    let (pages, ci) = read_cbz(data).unwrap();
    assert_eq!(pages.len(), 1);
    assert_eq!(ci, Some(b"<ComicInfo/>".to_vec()));
}

#[test]
fn reading_an_archive() {
    let data = zip_of(&[
        ("page10.jpg", b"ten"),
        ("sub/", b""),
        ("sub/page2.PNG", b"two"),
        ("page1.gif", b"one"),
        ("notes.txt", b"skip"),
        ("ComicInfo.xml", b"<ComicInfo/>"),
        ("cover.bmp", b"bmp"),
    ]);
    let (pages, ci) = read_cbz(data).unwrap();
    let ns: Vec<&str> = pages.iter().map(|p| p.name.as_str()).collect();
    assert_eq!(ns, vec!["cover.bmp", "page1.gif", "page10.jpg", "sub/page2.PNG"]);
    assert_eq!(pages[2].bytes, b"ten".to_vec());
    assert!(pages.iter().all(|p| p.uid == 0 && !p.delete && !p.failed));
    assert_eq!(ci, Some(b"<ComicInfo/>".to_vec()));
}

#[test]
fn reading_natural_order_across_names() {
    let data = zip_of(&[("img10.jpg", b"a"), ("img9.jpg", b"b"), ("img100.jpg", b"c")]);
    let (pages, ci) = read_cbz(data).unwrap();
    let ns: Vec<&str> = pages.iter().map(|p| p.name.as_str()).collect();
    assert_eq!(ns, vec!["img9.jpg", "img10.jpg", "img100.jpg"]);
    assert_eq!(ci, None);
}

#[test]
fn reading_garbage_fails() {
    assert!(read_cbz(b"not a zip".to_vec()).is_err());
}

#[test]
fn page_count_is_rewritten() {
    let xml = b"<ComicInfo><PageCount>3</PageCount><Title>x</Title></ComicInfo>";
    assert_eq!(
        update_pagecount(xml, 12),
        b"<ComicInfo><PageCount>12</PageCount><Title>x</Title></ComicInfo>".to_vec()
    );
    let empty = b"<PageCount></PageCount>";
    assert_eq!(update_pagecount(empty, 0), b"<PageCount>0</PageCount>".to_vec());
}

#[test]
fn page_count_missing_or_misplaced_keeps_bytes() {
    let none = b"<ComicInfo><Title>x</Title></ComicInfo>";
    assert_eq!(update_pagecount(none, 5), none.to_vec());
    let reversed = b"</PageCount>1<PageCount>";
    assert_eq!(update_pagecount(reversed, 5), reversed.to_vec());
    let bad = b"\xff<Title/>";
    assert_eq!(update_pagecount(bad, 5), bad.to_vec());
}

#[test]
fn page_count_rewrite_keeps_every_other_byte() {
    let xml = b"\xff<PageCount>1</PageCount>";
    assert_eq!(update_pagecount(xml, 4), b"\xff<PageCount>4</PageCount>".to_vec());
    let xml = b"<T>\xE9</T><PageCount>1</PageCount>";
    assert_eq!(update_pagecount(xml, 2), b"<T>\xE9</T><PageCount>2</PageCount>".to_vec());
}

#[test]
fn page_count_set_twice_keeps_the_last() {
    let xml = b"<a><PageCount>7</PageCount></a>".to_vec();
    let once = update_pagecount(&xml, 123);
    assert_eq!(update_pagecount(&once, 8), update_pagecount(&xml, 8));
    let invalid = b"\xfe<PageCount>1</PageCount>\xff".to_vec();
    let once = update_pagecount(&invalid, 40);
    assert_eq!(update_pagecount(&once, 2), update_pagecount(&invalid, 2));
    let none = b"\xfe<Title/>".to_vec();
    assert_eq!(update_pagecount(&update_pagecount(&none, 1), 2), update_pagecount(&none, 2));
    let text = b"<PageCount>1</PageCount><PageCount>2</PageCount>".to_vec();
    let patched = patch_pagecount(&text, b"fallback", 99);
    assert_eq!(patched, b"<PageCount>99</PageCount><PageCount>2</PageCount>".to_vec());
    assert_eq!(patch_pagecount(&patched, b"fallback", 5), patch_pagecount(&text, b"fallback", 5));
    assert_eq!(patch_pagecount(&b"none".to_vec(), b"fallback", 5), b"fallback".to_vec());
}

#[test]
fn reading_direction_from_metadata() {
    assert!(reads_right_to_left(&None));
    assert!(reads_right_to_left(&Some(b"<Manga>YesAndRightToLeft</Manga>".to_vec())));
    assert!(!reads_right_to_left(&Some(b"<Manga>No</Manga>".to_vec())));
    assert!(!reads_right_to_left(&Some(b"righttoleft".to_vec())));
}

#[test]
fn opening_numbers_pages() {
    let book = CbzBook::open(
        vec![page("a.jpg", b"1"), page("b.jpg", b"2"), page("c.jpg", b"3")],
        Some(b"<x/>".to_vec()),
    );
    let uids: Vec<u64> = book.pages().iter().map(|p| p.uid).collect();
    assert_eq!(uids, vec![0, 1, 2]);
    assert_eq!(book.next_uid(), 3);
    assert!(!book.rtl());
    assert!(!book.dirty_order());
    assert_eq!(book.cover(), &None);
    let manga = CbzBook::open(vec![], None);
    assert!(manga.rtl());
    let empty = CbzBook::new();
    assert!(!empty.rtl());
    assert_eq!(empty.pages().len(), 0);
}

fn abc() -> CbzBook {
    CbzBook::open(
        vec![page("a.jpg", b"1"), page("b.jpg", b"2"), page("c.jpg", b"3"), page("d.jpg", b"4")],
        None,
    )
}

#[test]
fn moving_pages() {
    let mut b = abc();
    b.move_left(0);
    assert_eq!(names(&b), vec!["a.jpg", "b.jpg", "c.jpg", "d.jpg"]);
    assert!(!b.dirty_order());
    b.move_left(2);
    assert_eq!(names(&b), vec!["a.jpg", "c.jpg", "b.jpg", "d.jpg"]);
    assert!(b.dirty_order());
    b.move_right(3);
    assert_eq!(names(&b), vec!["a.jpg", "c.jpg", "b.jpg", "d.jpg"]);
    b.move_start(3);
    assert_eq!(names(&b), vec!["d.jpg", "a.jpg", "c.jpg", "b.jpg"]);
    b.move_end(0);
    assert_eq!(names(&b), vec!["a.jpg", "c.jpg", "b.jpg", "d.jpg"]);
    b.move_start(9);
    b.move_end(9);
    assert_eq!(names(&b), vec!["a.jpg", "c.jpg", "b.jpg", "d.jpg"]);
}

#[test]
fn move_right_then_left_restores_order() {
    let mut b = abc();
    b.move_right(1);
    assert_eq!(names(&b), vec!["a.jpg", "c.jpg", "b.jpg", "d.jpg"]);
    b.move_left(2);
    assert_eq!(names(&b), vec!["a.jpg", "b.jpg", "c.jpg", "d.jpg"]);
}

#[test]
fn dragging_a_page_to_an_insertion_point() {
    let mut b = abc();
    // a dropped between c and d
    b.move_page(0, 3);
    assert_eq!(names(&b), vec!["b.jpg", "c.jpg", "a.jpg", "d.jpg"]);
    assert!(b.dirty_order());
    // d dropped before everything
    b.move_page(3, 0);
    assert_eq!(names(&b), vec!["d.jpg", "b.jpg", "c.jpg", "a.jpg"]);
    // b dropped past the end
    b.move_page(1, 99);
    assert_eq!(names(&b), vec!["d.jpg", "c.jpg", "a.jpg", "b.jpg"]);
}

#[test]
fn dragging_a_page_onto_its_own_place_keeps_it_and_marks_the_order() {
    let mut b = abc();
    b.move_page(9, 0);
    assert_eq!(names(&b), vec!["a.jpg", "b.jpg", "c.jpg", "d.jpg"]);
    assert!(!b.dirty_order());
    b.move_page(1, 1);
    b.move_page(1, 2);
    assert_eq!(names(&b), vec!["a.jpg", "b.jpg", "c.jpg", "d.jpg"]);
    assert!(b.dirty_order());
}

#[test]
fn dragging_a_page_away_and_back_restores_order() {
    let mut b = abc();
    b.move_page(1, 4);
    assert_eq!(names(&b), vec!["a.jpg", "c.jpg", "d.jpg", "b.jpg"]);
    b.move_page(3, 1);
    assert_eq!(names(&b), vec!["a.jpg", "b.jpg", "c.jpg", "d.jpg"]);
}

#[test]
fn marking_duplicates_marks_every_copy() {
    let mut b = CbzBook::open(
        vec![
            page("a.jpg", b"same"),
            page("b.jpg", b"other"),
            page("c.jpg", b"same"),
            page("d.jpg", b"other"),
            page("e.jpg", b"same"),
            page("f.jpg", b"alone"),
        ],
        None,
    );
    b.toggle_delete(4);
    let n = b.mark_duplicates();
    assert_eq!(n, 4);
    let flags: Vec<bool> = b.pages().iter().map(|p| p.delete).collect();
    assert_eq!(flags, vec![true, true, true, true, true, false]);
    assert!(!b.dirty_order());
    assert_eq!(b.mark_duplicates(), 0);
    let again: Vec<bool> = b.pages().iter().map(|p| p.delete).collect();
    assert_eq!(again, flags);
    assert_eq!(CbzBook::new().mark_duplicates(), 0);
}

#[test]
fn toggling_deletion_twice_restores() {
    let mut b = abc();
    b.toggle_delete(1);
    assert!(b.pages()[1].delete);
    assert_eq!(b.kept_count(), 3);
    b.toggle_delete(1);
    assert!(!b.pages()[1].delete);
    assert_eq!(b.kept_count(), 4);
    b.toggle_delete(7);
    assert_eq!(b.kept_count(), 4);
    b.mark_failed(0);
    assert!(b.pages()[0].failed);
}

#[test]
fn inserting_pictures() {
    let mut b = abc();
    b.insert_image(1, "new.png".to_string(), b"N".to_vec());
    assert_eq!(names(&b), vec!["a.jpg", "new.png", "b.jpg", "c.jpg", "d.jpg"]);
    assert_eq!(b.pages()[1].uid, 4);
    assert_eq!(b.next_uid(), 5);
    assert!(b.dirty_order());
    b.insert_image(100, "last.png".to_string(), b"L".to_vec());
    assert_eq!(names(&b).last().unwrap(), "last.png");
    assert_eq!(b.pages()[5].uid, 5);
}

#[test]
fn dropping_several_pictures() {
    let mut b = abc();
    let n = b.insert_images(
        2,
        vec![("x.png".to_string(), b"x".to_vec()), ("y.gif".to_string(), b"y".to_vec())],
    );
    assert_eq!(n, 2);
    assert_eq!(names(&b), vec!["a.jpg", "b.jpg", "x.png", "y.gif", "c.jpg", "d.jpg"]);
    assert_eq!(b.pages()[2].uid, 4);
    assert_eq!(b.pages()[3].uid, 5);
    assert!(b.dirty_order());
    let mut c = abc();
    assert_eq!(c.insert_images(0, vec![]), 0);
    assert!(!c.dirty_order());
    c.insert_images(99, vec![("z.png".to_string(), b"z".to_vec())]);
    assert_eq!(names(&c).last().unwrap(), "z.png");
}

#[test]
fn page_numbers_stay_distinct() {
    let mut b = abc();
    b.insert_image(0, "n.png".to_string(), vec![1]);
    b.move_end(0);
    b.insert_images(3, vec![("m.png".to_string(), vec![2]), ("o.png".to_string(), vec![3])]);
    let mut uids: Vec<u64> = b.pages().iter().map(|p| p.uid).collect();
    assert!(uids.iter().all(|u| *u < b.next_uid()));
    uids.sort();
    uids.dedup();
    assert_eq!(uids.len(), b.pages().len());
}

#[test]
fn viewer_stays_within_the_book() {
    assert_eq!(viewer_go(0, 5, -1), 0);
    assert_eq!(viewer_go(3, 5, 4), 4);
    assert_eq!(viewer_go(3, 5, 1), 4);
    assert_eq!(viewer_go(3, 5, -2), 1);
    assert_eq!(viewer_go(2, 0, 1), 2);
}

#[test]
fn thumbnails_in_batches() {
    let needs = vec![true, false, true, true];
    assert_eq!(thumbnail_batch(&needs, 2), (vec![0, 2], true));
    assert_eq!(thumbnail_batch(&needs, 3), (vec![0, 2, 3], false));
    assert_eq!(thumbnail_batch(&needs, 6), (vec![0, 2, 3], false));
    assert_eq!(thumbnail_batch(&needs, 0), (vec![], true));
    assert_eq!(thumbnail_batch(&vec![false, false], 0), (vec![], false));
}

#[test]
fn merging_two_pages_left_to_right() {
    let red = png(2, 2, [255, 0, 0]);
    let blue = png(3, 4, [0, 0, 255]);
    let mut b = CbzBook::open(vec![page("a.png", &red), page("b.png", &blue), page("c.png", &red)], Some(b"<x/>".to_vec()));
    assert!(!b.rtl());
    assert!(matches!(b.merge_next(0), MergeOutcome::Merged));
    assert_eq!(names(&b), vec!["merged-3.jpg", "c.png"]);
    assert_eq!(b.pages()[0].uid, 3);
    assert_eq!(b.next_uid(), 4);
    assert!(b.dirty_order());
    let merged = decode_picture(&b.pages()[0].bytes).unwrap();
    assert_eq!((merged.width(), merged.height()), (7, 4));
    assert!(near(pixel(&b.pages()[0].bytes, 0, 1), [255, 0, 0]));
    assert!(near(pixel(&b.pages()[0].bytes, 6, 1), [0, 0, 255]));
}

#[test]
fn merging_two_pages_right_to_left() {
    let red = png(4, 4, [255, 0, 0]);
    let blue = png(4, 4, [0, 0, 255]);
    let mut b = CbzBook::open(vec![page("a.png", &red), page("b.png", &blue)], None);
    assert!(b.rtl());
    assert!(matches!(b.merge_next(0), MergeOutcome::Merged));
    assert_eq!(b.pages().len(), 1);
    assert!(near(pixel(&b.pages()[0].bytes, 0, 2), [0, 0, 255]));
    assert!(near(pixel(&b.pages()[0].bytes, 7, 2), [255, 0, 0]));
}

#[test]
fn merge_refusals() {
    let red = png(2, 2, [255, 0, 0]);
    let mut b = CbzBook::open(vec![page("a.png", &red), page("b.png", b"garbage")], None);
    assert!(matches!(b.merge_next(1), MergeOutcome::NoNextPage));
    assert!(matches!(b.merge_next(5), MergeOutcome::NoNextPage));
    match b.merge_next(0) {
        MergeOutcome::DecodeFailed { page, message } => {
            assert_eq!(page, 1);
            assert!(!message.is_empty());
        }
        other => panic!("unexpected {:?}", other),
    }
    let mut c = CbzBook::open(vec![page("a.png", b"junk"), page("b.png", &red)], None);
    assert!(matches!(c.merge_next(0), MergeOutcome::DecodeFailed { page: 0, .. }));
    assert_eq!(c.pages().len(), 2);
    assert_eq!(c.next_uid(), 2);
}

#[test]
fn jpeg_refusals_reach_the_caller_and_change_nothing() {
    // a strip 65537 pixels wide cannot be written as JPEG
    let wide = png(65537, 1, [9, 9, 9]);
    let img = decode_picture(&wide).unwrap();
    let mut b = CbzBook::open(vec![page("wide.png", &wide)], None);
    assert!(b.finish_crop(&img, None, true).is_err());
    assert_eq!(b.cover(), &None);
    assert!(b.finish_crop(&img, Some([0, 0, 65535, 1]), false).unwrap().is_some());
    // cut at column 1: the right half is 65536 wide
    assert!(b.finish_split(0, &img, 1, false).is_err());
    assert_eq!(names(&b), vec!["wide.png"]);
    assert_eq!(b.next_uid(), 1);
    assert!(b.finish_split(0, &img, 32768, false).unwrap());
    assert_eq!(names(&b), vec!["split-1.jpg", "split-2.jpg"]);
    // two strips 40000 wide joined are 80000 wide
    let half = png(40000, 1, [1, 2, 3]);
    let mut c = CbzBook::open(vec![page("a.png", &half), page("b.png", &half)], None);
    match c.merge_next(0) {
        MergeOutcome::EncodeFailed { message } => assert!(!message.is_empty()),
        other => panic!("unexpected {:?}", other),
    }
    assert_eq!(names(&c), vec!["a.png", "b.png"]);
    assert_eq!(c.next_uid(), 2);
}

#[test]
fn splitting_a_double_page() {
    let double = two_tone_png(8, 4, 4, [255, 0, 0], [0, 0, 255]);
    let mut b = CbzBook::open(vec![page("a.png", b"x"), page("double.png", &double)], Some(b"<x/>".to_vec()));
    let img = decode_picture(&double).unwrap();
    assert!(b.finish_split(1, &img, 4, false).unwrap());
    assert_eq!(names(&b), vec!["a.png", "split-2.jpg", "split-3.jpg"]);
    assert_eq!(b.next_uid(), 4);
    assert!(b.dirty_order());
    let first = decode_picture(&b.pages()[1].bytes).unwrap();
    assert_eq!((first.width(), first.height()), (4, 4));
    assert!(near(pixel(&b.pages()[1].bytes, 1, 1), [255, 0, 0]));
    assert!(near(pixel(&b.pages()[2].bytes, 1, 1), [0, 0, 255]));
}

#[test]
fn splitting_right_to_left_reads_the_right_half_first() {
    let double = two_tone_png(8, 4, 4, [255, 0, 0], [0, 0, 255]);
    let mut b = CbzBook::open(vec![page("double.png", &double)], None);
    let img = decode_picture(&double).unwrap();
    assert!(b.finish_split(0, &img, 4, true).unwrap());
    assert!(near(pixel(&b.pages()[0].bytes, 1, 1), [0, 0, 255]));
    assert!(near(pixel(&b.pages()[1].bytes, 1, 1), [255, 0, 0]));
}

#[test]
fn split_cut_is_kept_off_the_edges_and_past_the_end_changes_nothing() {
    let double = two_tone_png(8, 2, 4, [255, 0, 0], [0, 0, 255]);
    let img = decode_picture(&double).unwrap();
    let rgb = picture_rgb8(&img);
    let (l, r) = split_at_cut(&rgb, 0, false);
    assert_eq!((l.width(), r.width()), (1, 7));
    let (l, r) = split_at_cut(&rgb, 100, false);
    assert_eq!((l.width(), r.width()), (7, 1));
    let mut b = CbzBook::open(vec![page("double.png", &double)], None);
    assert!(!b.finish_split(3, &img, 4, false).unwrap());
    assert_eq!(names(&b), vec!["double.png"]);
    assert_eq!(b.next_uid(), 3);
    assert!(!b.dirty_order());
}

#[test]
fn split_then_join_gives_back_the_pixels() {
    let src = two_tone_png(9, 3, 2, [10, 20, 30], [200, 100, 50]);
    let rgb = picture_rgb8(&decode_picture(&src).unwrap());
    for rtl in [false, true] {
        let (first, second) = split_at_cut(&rgb, 5, rtl);
        let (l, r) = if rtl { (&second, &first) } else { (&first, &second) };
        let joined = join_side_by_side(l, r, rgb.height());
        assert_eq!((joined.width(), joined.height()), (9, 3));
        assert_eq!(joined.data(), rgb.data());
    }
}

#[test]
fn joining_pads_shorter_pictures_after_scaling() {
    let a = decode_picture(&png(2, 1, [255, 255, 255])).unwrap();
    let b = decode_picture(&png(1, 3, [255, 255, 255])).unwrap();
    let joined = concat_h(a, b);
    assert_eq!((joined.width(), joined.height()), (7, 3));
}

#[test]
fn cropping_the_cover() {
    let src = png(6, 4, [0, 255, 0]);
    let img = decode_picture(&src).unwrap();
    let mut b = CbzBook::open(vec![page("a.png", &src)], None);
    assert!(b.finish_crop(&img, None, false).unwrap().is_none());
    assert_eq!(b.cover(), &None);
    let region = b.finish_crop(&img, Some([1, 1, 2, 2]), false).unwrap().unwrap();
    assert_eq!((region.width(), region.height()), (2, 2));
    let cover = b.cover().clone().unwrap();
    let c = decode_picture(&cover).unwrap();
    assert_eq!((c.width(), c.height()), (2, 2));
    let whole = b.finish_crop(&img, Some([1, 1, 2, 2]), true).unwrap().unwrap();
    assert_eq!((whole.width(), whole.height()), (6, 4));
    let rgb = picture_rgb8(&img);
    let clipped = crop_region(&rgb, Some([4, 3, 10, 10]), false).unwrap();
    assert_eq!((clipped.width(), clipped.height()), (2, 1));
}

#[test]
fn saved_entries() {
    let pages = vec![
        page("p1.jpg", b"one"),
        page("000_COVER.jpg", b"cov"),
        page("p2.png", b"two"),
        page("gone.jpg", b"del"),
        page("noext", b"three"),
    ];
    let mut b = CbzBook::open(pages, Some(b"<ComicInfo><PageCount>9</PageCount></ComicInfo>".to_vec()));
    b.toggle_delete(3);
    let es = b.cbz_entries();
    let ns: Vec<&str> = es.iter().map(|e| e.name.as_str()).collect();
    assert_eq!(ns, vec!["ComicInfo.xml", "000_cover.jpg", "p1.jpg", "p2.png", "noext"]);
    assert_eq!(es[0].data, b"<ComicInfo><PageCount>4</PageCount></ComicInfo>".to_vec());
    assert_eq!(es[1].data, b"cov".to_vec());
    b.move_start(2);
    let es = b.cbz_entries();
    let ns: Vec<&str> = es.iter().map(|e| e.name.as_str()).collect();
    assert_eq!(ns, vec!["ComicInfo.xml", "000_cover.jpg", "p0000.png", "p0001.jpg", "p0002.jpg"]);
    assert_eq!(es[2].data, b"two".to_vec());
}

fn unzip(data: Vec<u8>) -> Vec<(String, Vec<u8>)> {
    let mut z = zip::ZipArchive::new(Cursor::new(data)).unwrap();
    let mut out = Vec::new();
    for i in 0..z.len() {
        let mut f = z.by_index(i).unwrap();
        assert_eq!(f.compression(), zip::CompressionMethod::Stored);
        let mut buf = Vec::new();
        f.read_to_end(&mut buf).unwrap();
        out.push((f.name().to_string(), buf));
    }
    out
}

#[test]
fn built_archive_holds_exactly_the_planned_entries() {
    let mut b = CbzBook::open(
        vec![page("a.png", &[1]), page("b.png", &[2]), page("c.jpg", &[3]), page("d.gif", &[4])],
        Some(b"<ComicInfo><PageCount>7</PageCount></ComicInfo>".to_vec()),
    );
    b.toggle_delete(0);
    b.toggle_delete(3);
    b.move_right(1);
    b.move_left(2);
    assert!(b.dirty_order());
    let got = unzip(b.build_cbz().unwrap());
    let want: Vec<(String, Vec<u8>)> = vec![
        ("ComicInfo.xml".to_string(), b"<ComicInfo><PageCount>2</PageCount></ComicInfo>".to_vec()),
        ("p0000.png".to_string(), vec![2]),
        ("p0001.jpg".to_string(), vec![3]),
    ];
    assert_eq!(got, want);
    let c = CbzBook::open(vec![page("p1.jpg", &[1]), page("000_Cover.JPG", &[0]), page("p2.jpg", &[2])], None);
    let got = unzip(c.build_cbz().unwrap());
    let want: Vec<(String, Vec<u8>)> = vec![
        ("000_cover.jpg".to_string(), vec![0]),
        ("p1.jpg".to_string(), vec![1]),
        ("p2.jpg".to_string(), vec![2]),
    ];
    assert_eq!(got, want);
    // two pages saved under one name: the writer refuses the archive
    let d = CbzBook::open(vec![page("x/a.jpg", &[1]), page("x/a.jpg", &[2])], None);
    assert!(d.build_cbz().is_err());
}

#[test]
fn saved_cover_prefers_the_cropped_one() {
    let src = png(2, 2, [1, 2, 3]);
    let img = decode_picture(&src).unwrap();
    let mut b = CbzBook::open(vec![page("a/000_cover.png", b"old"), page("b.png", b"b")], None);
    let es = b.cbz_entries();
    assert_eq!(es.len(), 2);
    assert_eq!(es[0].name, "000_cover.jpg");
    assert_eq!(es[0].data, b"old".to_vec());
    b.finish_crop(&img, None, true).unwrap().unwrap();
    let es = b.cbz_entries();
    assert_eq!(es[0].data, b.cover().clone().unwrap());
    assert_eq!(es.len(), 2);
}

#[test]
fn built_archive_reads_back() {
    let mut b = CbzBook::open(
        vec![page("p10.jpg", b"ten"), page("p9.jpg", b"nine")],
        Some(b"<PageCount>0</PageCount>".to_vec()),
    );
    b.move_left(1);
    let data = b.build_cbz().unwrap();
    let (pages, ci) = read_cbz(data).unwrap();
    let ns: Vec<&str> = pages.iter().map(|p| p.name.as_str()).collect();
    assert_eq!(ns, vec!["p0000.jpg", "p0001.jpg"]);
    assert_eq!(pages[0].bytes, b"nine".to_vec());
    assert_eq!(pages[1].bytes, b"ten".to_vec());
    assert_eq!(ci, Some(b"<PageCount>2</PageCount>".to_vec()));
}

#[test]
fn every_thumbnail_is_made_after_enough_batches() {
    let mut needs = vec![true; 14];
    needs[3] = false;
    let mut calls = 0;
    loop {
        let (picked, pending) = thumbnail_batch(&needs, 6);
        calls += 1;
        for k in picked {
            needs[k] = false;
        }
        if !pending {
            break;
        }
    }
    assert!(needs.iter().all(|x| !x));
    assert_eq!(calls, 3);
}

#[test]
fn saved_order_survives_reading_back() {
    let pages: Vec<Page> = (0..12).map(|k| page(&format!("img{}.png", k), format!("b{}", k).as_bytes())).collect();
    let mut b = CbzBook::open(pages, None);
    b.move_page(11, 0);
    b.move_page(5, 2);
    let before: Vec<Vec<u8>> = b.pages().iter().map(|p| p.bytes.clone()).collect();
    let (pages, _) = read_cbz(b.build_cbz().unwrap()).unwrap();
    let after: Vec<Vec<u8>> = pages.iter().map(|p| p.bytes.clone()).collect();
    assert_eq!(after, before);
    assert_eq!(pages[0].name, "p0000.png");
    assert_eq!(pages[11].name, "p0011.png");
}

#[test]
fn saved_book_reads_back_with_cover_and_page_count() {
    let mut b = CbzBook::open(
        vec![
            page("000_Cover.JPG", b"old cover"),
            page("a/1.PNG", b"one"),
            page("a/2.webp", b"two"),
            page("a/3.gif", b"three"),
        ],
        Some(b"<ComicInfo><PageCount>9</PageCount></ComicInfo>".to_vec()),
    );
    b.toggle_delete(3);
    let data = b.build_cbz().unwrap();
    let (pages, ci) = read_cbz(data).unwrap();
    let ns: Vec<&str> = pages.iter().map(|p| p.name.as_str()).collect();
    assert_eq!(ns, vec!["000_cover.jpg", "a/1.PNG", "a/2.webp"]);
    assert_eq!(pages[0].bytes, b"old cover".to_vec());
    assert_eq!(ci, Some(b"<ComicInfo><PageCount>3</PageCount></ComicInfo>".to_vec()));
    // renumbered after a move: extensions keep their case
    b.move_page(2, 1);
    let (pages, _) = read_cbz(b.build_cbz().unwrap()).unwrap();
    let ns: Vec<&str> = pages.iter().map(|p| p.name.as_str()).collect();
    assert_eq!(ns, vec!["000_cover.jpg", "p0000.webp", "p0001.PNG"]);
}

#[test]
fn later_copies_are_numbered() {
    assert_eq!(numbered_copy_name("/home/a/Tome 3.cbz", Lang::Fr, 0), "Tome 3 (édité).cbz");
    assert_eq!(numbered_copy_name("/home/a/Tome 3.cbz", Lang::Fr, 1), "Tome 3 (édité 2).cbz");
    assert_eq!(numbered_copy_name("Band.cbz", Lang::De, 9), "Band (bearbeitet 10).cbz");
    assert_eq!(numbered_copy_name("x.cbz", Lang::En, 0), copy_name("x.cbz", Lang::En));
    let names: Vec<String> = (0..20).map(|k| numbered_copy_name("x.cbz", Lang::En, k)).collect();
    for i in 0..names.len() {
        for j in 0..i {
            assert_ne!(names[i], names[j]);
        }
    }
}

#[test]
fn edited_copy_names() {
    assert_eq!(copy_name("/home/a/Tome 3.cbz", Lang::Fr), "Tome 3 (édité).cbz");
    assert_eq!(copy_name("archive.tar.zip", Lang::En), "archive.tar (edited).cbz");
    assert_eq!(copy_name("/", Lang::Fr), "sortie (édité).cbz");
    assert_eq!(copy_name(".hidden", Lang::De), ".hidden (bearbeitet).cbz");
    assert_eq!(copy_name("Band.cbz", Lang::Es), "Band (editado).cbz");
    assert_eq!(copy_name("Volume.cbz", Lang::It), "Volume (modificato).cbz");
}

#[test]
fn interface_language_from_locale() {
    assert_eq!(lang_of_locale("de_DE.UTF-8"), Lang::De);
    assert_eq!(lang_of_locale("EN-gb"), Lang::En);
    assert_eq!(lang_of_locale("es"), Lang::Es);
    assert_eq!(lang_of_locale("it_IT@euro"), Lang::It);
    assert_eq!(lang_of_locale("fr_CA"), Lang::Fr);
    assert_eq!(lang_of_locale("ja_JP.UTF-8"), Lang::Fr);
    assert_eq!(lang_of_locale("C"), Lang::Fr);
    assert_eq!(lang_of_locale("english"), Lang::Fr);
    assert_eq!(lang_of_locale(""), Lang::Fr);
    for l in [Lang::Fr, Lang::En, Lang::Es, Lang::De, Lang::It] {
        assert_eq!(lang_of_locale(&lang_code(l)), l);
    }
}

#[test]
fn extraction_names() {
    let (n, e) = extract_file_name("dir/page.png", Some("/x/Vol 1.cbz"), 3);
    assert_eq!((n.as_str(), e.as_str()), ("Vol 1 - page.png", "png"));
    let (n, e) = extract_file_name("", None, 7);
    assert_eq!((n.as_str(), e.as_str()), ("image - p007.jpg", "jpg"));
    let (n, _) = extract_file_name("a.b.JPEG", Some("/x/.hidden"), 0);
    assert_eq!(n, ".hidden - a.b.JPEG");
}

#[test]
fn dropped_files() {
    assert!(is_dropped_image(Some("/tmp/a.JPG"), "x"));
    assert!(is_dropped_image(Some("/tmp/noext"), "n.png"));
    assert!(!is_dropped_image(None, "doc.pdf"));
    assert!(is_dropped_image(None, "pic.WebP"));
    assert_eq!(dropped_name(Some("/tmp/dir/pic.png"), "other"), "pic.png");
    assert_eq!(dropped_name(None, "pic.gif"), "pic.gif");
    assert_eq!(dropped_name(Some("/"), "fallback.png"), "fallback.png");
}

#[test]
fn decoding_reports_failures() {
    assert!(decode_picture(b"nope").is_err());
    let p = decode_picture(&png(5, 3, [0, 0, 0])).unwrap();
    assert_eq!((p.width(), p.height()), (5, 3));
}
