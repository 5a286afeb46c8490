use cbz_editor::archive::{read_cbz, write_stored_zip, ZipEntry, MAX_ENTRY_BYTES, MAX_READ_BYTES};
use cbz_editor::book::CbzBook;
use cbz_editor::comicinfo::{decimal_byte_vec, find_bytes, text_says_right_to_left};
use cbz_editor::natural::is_digit_char;
use cbz_editor::paths::{extension, extension_of_name, file_name, file_stem, stem_of_name};
use cbz_editor::picture::{
    blank_rgb8, concat_fits_exec, copy_rgb8, decode_picture, jpeg_of, picture_rgb8, to_height,
};
use cbz_editor::save::is_cover_page_name;
use cbz_editor::text::{
    chars_contain, chars_end_with, chars_equal, chars_occur_at, chars_of, decimal_chars,
    image_extensions, lower_char, lower_chars, string_of, zero_padded_chars,
};
use std::io::Cursor;

fn v(s: &str) -> Vec<char> {
    s.chars().collect()
}

fn s(v: Option<Vec<char>>) -> Option<String> {
    v.map(|c| c.into_iter().collect())
}

fn png(w: u32, h: u32) -> Vec<u8> {
    let img = image::RgbImage::from_pixel(w, h, image::Rgb([10, 200, 30]));
    let mut out = Cursor::new(Vec::new());
    image::DynamicImage::ImageRgb8(img).write_to(&mut out, image::ImageFormat::Png).unwrap();
    out.into_inner()
}

#[test]
fn file_names_like_std_paths() {
    assert_eq!(s(file_name(&v("a/b/c.jpg"))), Some("c.jpg".to_string()));
    assert_eq!(s(file_name(&v("a/b/"))), Some("b".to_string()));
    assert_eq!(s(file_name(&v("a/b/."))), Some("b".to_string()));
    assert_eq!(s(file_name(&v("a/.."))), None);
    assert_eq!(s(file_name(&v("/"))), None);
    assert_eq!(s(file_name(&v(""))), None);
    assert_eq!(s(file_name(&v("."))), None);
}

#[test]
fn extensions_and_stems_like_std_paths() {
    assert_eq!(s(extension(&v("dir/page.PNG"))), Some("PNG".to_string()));
    assert_eq!(s(extension(&v(".bashrc"))), None);
    assert_eq!(s(extension(&v("name."))), Some("".to_string()));
    assert_eq!(s(extension(&v("a.tar.gz"))), Some("gz".to_string()));
    assert_eq!(s(extension_of_name(&v("noext"))), None);
    assert_eq!(s(file_stem(&v("/x/Vol 1.cbz"))), Some("Vol 1".to_string()));
    assert_eq!(s(file_stem(&v("/"))), None);
    assert_eq!(stem_of_name(&v(".hidden")).into_iter().collect::<String>(), ".hidden");
    assert_eq!(stem_of_name(&v("a.b.c")).into_iter().collect::<String>(), "a.b");
    for (p, std_ext) in [("x/y.JpG", "JpG"), ("..z", "z")] {
        let expected = std::path::Path::new(p).extension().map(|e| e.to_string_lossy().into_owned());
        assert_eq!(expected.as_deref(), Some(std_ext));
        assert_eq!(s(extension(&v(p))), expected);
    }
}

#[test]
fn character_helpers() {
    assert_eq!(lower_char('Q'), 'q');
    assert_eq!(lower_char('é'), 'é');
    assert_eq!(lower_chars(&v("AbC-É")), v("abc-É"));
    assert!(chars_equal(&v("abc"), &v("abc")));
    assert!(!chars_equal(&v("abc"), &v("abd")));
    assert!(chars_end_with(&v("page.jpg"), &v(".jpg")));
    assert!(!chars_end_with(&v("jpg"), &v(".jpg")));
    assert!(chars_occur_at(&v("xx000_cover"), &v("000"), 2));
    assert!(!chars_occur_at(&v("xx000_cover"), &v("000"), 3));
    assert!(chars_contain(&v("a/000_cover.jpg"), &v("000_cover")));
    assert!(!chars_contain(&v("000_cove"), &v("000_cover")));
    assert_eq!(chars_of("añb"), v("añb"));
    assert_eq!(string_of(&v("añb")), "añb");
    assert_eq!(image_extensions().len(), 6);
    assert!(is_digit_char('7'));
    assert!(!is_digit_char('a'));
}

#[test]
fn decimal_helpers() {
    assert_eq!(decimal_chars(0), v("0"));
    assert_eq!(decimal_chars(1907), v("1907"));
    assert_eq!(zero_padded_chars(7, 3), v("007"));
    assert_eq!(zero_padded_chars(12345, 4), v("12345"));
    assert_eq!(decimal_byte_vec(42), b"42".to_vec());
}

#[test]
fn byte_search() {
    let text = b"ab<PageCount>".to_vec();
    assert_eq!(find_bytes(&text, &b"<Page".to_vec()), Some(2));
    assert_eq!(find_bytes(&text, &b"zz".to_vec()), None);
    assert_eq!(find_bytes(&text, &Vec::new()), Some(0));
    assert!(text_says_right_to_left(&b"<Manga>YesAndRightToLeft</Manga>".to_vec()));
    assert!(!text_says_right_to_left(&b"<Manga>No</Manga>".to_vec()));
}

#[test]
fn cover_page_names() {
    assert!(is_cover_page_name("000_Cover.jpg"));
    assert!(is_cover_page_name("x/000_cover_2.png"));
    assert!(!is_cover_page_name("001_cover.jpg"));
}

#[test]
fn stored_zip_reads_back() {
    let data = write_stored_zip(vec![
        ZipEntry { name: "b.png".to_string(), data: png(2, 2) },
        ZipEntry { name: "info/ComicInfo.xml".to_string(), data: b"<x/>".to_vec() },
        ZipEntry { name: "notes.txt".to_string(), data: b"skip".to_vec() },
    ])
    .unwrap();
    let (pages, ci) = read_cbz(data).unwrap();
    assert_eq!(pages.len(), 1);
    assert_eq!(pages[0].name, "b.png");
    assert_eq!(ci, Some(b"<x/>".to_vec()));
    let err = write_stored_zip(vec![
        ZipEntry { name: "same.jpg".to_string(), data: vec![1] },
        ZipEntry { name: "same.jpg".to_string(), data: vec![2] },
    ]);
    assert!(err.is_err());
}

#[test]
fn stored_zip_entries_are_uncompressed() {
    let data = write_stored_zip(vec![
        ZipEntry { name: "a.txt".to_string(), data: vec![7u8; 4000] },
        ZipEntry { name: "b.txt".to_string(), data: Vec::new() },
    ])
    .unwrap();
    let mut z = zip::ZipArchive::new(Cursor::new(data)).unwrap();
    assert_eq!(z.len(), 2);
    for i in 0..2 {
        let f = z.by_index(i).unwrap();
        assert_eq!(f.compression(), zip::CompressionMethod::Stored);
        assert_eq!(f.compressed_size(), f.size());
    }
    assert_eq!(z.by_index(0).unwrap().size(), 4000);
}

#[test]
fn read_limits() {
    assert_eq!(MAX_ENTRY_BYTES, 512 * 1024 * 1024);
    assert_eq!(MAX_READ_BYTES, 4 * 1024 * 1024 * 1024);
}

#[test]
fn stored_zip_refuses_a_name_too_long() {
    let long = "x".repeat(65536);
    assert!(write_stored_zip(vec![ZipEntry { name: long, data: vec![1] }]).is_err());
    let fits = "x".repeat(65535);
    assert!(write_stored_zip(vec![ZipEntry { name: fits, data: vec![1] }]).is_ok());
    assert!(write_stored_zip(Vec::new()).is_ok());
}

#[test]
fn reading_direction_can_be_set() {
    let mut b = CbzBook::open(Vec::new(), None);
    assert!(b.rtl());
    b.set_rtl(false);
    assert!(!b.rtl());
}

#[test]
fn resizing_to_a_height_keeps_proportions() {
    let p = decode_picture(&png(40, 10)).unwrap();
    let r = to_height(p, 20);
    assert_eq!((r.width(), r.height()), (80, 20));
    let p = decode_picture(&png(3, 10)).unwrap();
    let r = to_height(p, 2);
    assert_eq!((r.width(), r.height()), (1, 2));
    let p = decode_picture(&png(5, 5)).unwrap();
    let r = to_height(p, 5);
    assert_eq!((r.width(), r.height()), (5, 5));
}

#[test]
fn join_limits() {
    assert!(concat_fits_exec(10, 10, 20, 5));
    assert!(!concat_fits_exec(u32::MAX, 1, u32::MAX, 1));
}

#[test]
fn raw_pictures() {
    let b = blank_rgb8(2, 3);
    assert_eq!((b.width(), b.height()), (2, 3));
    assert!(b.data().iter().all(|x| *x == 0));
    assert_eq!(b.data().len(), 18);
    let p = picture_rgb8(&decode_picture(&png(2, 2)).unwrap());
    let c = copy_rgb8(&p);
    assert_eq!(c.data(), p.data());
    assert_eq!(&c.data()[0..3], &[10, 200, 30]);
    let jpeg = jpeg_of(&c, 92).unwrap();
    assert_eq!(&jpeg[0..2], &[0xff, 0xd8]);
    assert!(jpeg_of(&blank_rgb8(0, 3), 92).is_err());
    assert!(jpeg_of(&blank_rgb8(65536, 1), 92).is_err());
    assert!(jpeg_of(&blank_rgb8(65535, 1), 92).is_ok());
    let back = decode_picture(&jpeg).unwrap();
    assert_eq!((back.width(), back.height()), (2, 2));
}
