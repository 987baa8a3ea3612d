use img_tournament::month_img_list::{
    filter_by_extension, filter_by_year_month, get_month_img_files, is_image_extension, DatedFile,
};

fn strs(v: &[&str]) -> Vec<String> {
    v.iter().map(|s| s.to_string()).collect()
}

fn dated(path: &str, modified: Option<(i32, u32)>) -> DatedFile {
    DatedFile { path: path.to_string(), modified }
}

#[test]
fn keeps_image_extensions_in_any_case() {
    let got = filter_by_extension(strs(&[
        "/d/a.png", "/d/b.TXT", "/d/c.JPeG", "/d/noext", "/d/e.tar.gz", "/d/f.jpg", "/d/g.BMP",
        "/d/h.gif", "/d/i.webp", "/d/j.Avif", "/d/k.pngx",
    ]));
    assert_eq!(
        got,
        strs(&["/d/a.png", "/d/c.JPeG", "/d/f.jpg", "/d/g.BMP", "/d/h.gif", "/d/i.webp", "/d/j.Avif"])
    );
}

#[test]
fn hidden_file_name_has_no_extension() {
    assert!(filter_by_extension(strs(&["/d/.png", "/d/.hidden"])).is_empty());
    assert_eq!(filter_by_extension(strs(&["/d/.x.png"])), strs(&["/d/.x.png"]));
}

#[test]
fn empty_list_stays_empty() {
    assert!(filter_by_extension(vec![]).is_empty());
    assert!(filter_by_year_month(vec![], 2025, 7).is_empty());
}

#[test]
fn filter_by_year_and_month() {
    let files = vec![
        dated("a.png", Some((2025, 7))),
        dated("b.png", Some((2025, 8))),
        dated("c.png", Some((2024, 7))),
        dated("d.png", None),
        dated("e.txt", Some((2025, 7))),
    ];
    assert_eq!(filter_by_year_month(files, 2025, 7), strs(&["a.png", "e.txt"]));
}

#[test]
fn month_images_with_and_without_date_filter() {
    let files = || {
        vec![
            dated("a.png", Some((2025, 7))),
            dated("b.jpg", Some((2025, 8))),
            dated("c.txt", Some((2025, 7))),
            dated("d.gif", None),
        ]
    };
    assert_eq!(get_month_img_files(files(), 2025, 7, true), strs(&["a.png"]));
    assert_eq!(get_month_img_files(files(), 2025, 7, false), strs(&["a.png", "b.jpg", "d.gif"]));
    assert!(get_month_img_files(files(), 1999, 1, true).is_empty());
}

#[test]
fn image_extension_check_ignores_ascii_case() {
    assert!(is_image_extension("png"));
    assert!(is_image_extension("JPEG"));
    assert!(is_image_extension("WebP"));
    assert!(!is_image_extension("txt"));
    assert!(!is_image_extension("pn"));
    assert!(!is_image_extension(""));
}

#[test]
fn extension_filter_distributes_and_is_idempotent() {
    let a = strs(&["a.png", "b.txt", "c.gif"]);
    let b = strs(&["d", "e.JPG"]);
    let mut ab = a.clone();
    ab.extend(b.clone());
    let mut fa = filter_by_extension(a.clone());
    let fb = filter_by_extension(b);
    assert_eq!(filter_by_extension(fa.clone()), fa);
    fa.extend(fb);
    assert_eq!(filter_by_extension(ab), fa);
}
