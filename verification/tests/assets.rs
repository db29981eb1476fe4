use mini_assets::{
    extension_of_name, extension_of_path, file_extensions, output_manifest_text, scan_categories,
    Category, Error, I18nStr, Image, Locale, Manifest, OUTPUT_MANIFEST_COMMENTS, VERSION,
};

fn s(x: &str) -> String {
    x.to_string()
}

fn category(id: &str, parents: &[&str]) -> Category {
    Category {
        id: s(id),
        parents: parents.iter().map(|p| s(p)).collect(),
        name: I18nStr::new(vec![Locale::ZhHans.value(s(id))]),
    }
}

fn ids(cats: &[Category]) -> Vec<String> {
    cats.iter().map(|c| c.id.clone()).collect()
}

#[test]
fn locale_value_goes_to_its_slot() {
    let name = I18nStr::new(vec![Locale::En.value(s("bear"))]);
    assert_eq!(name.text(Locale::En).map(|t| t.as_str()), Some("bear"));
    assert_eq!(name.text(Locale::ZhHans), None);
    assert_eq!(name.text(Locale::ZhHant), None);
}

#[test]
fn new_keeps_the_last_value_of_each_locale() {
    let name = I18nStr::new(vec![
        Locale::En.value(s("bear")),
        Locale::ZhHans.value(s("狗熊")),
        Locale::En.value(s("black bear")),
    ]);
    assert_eq!(name.text(Locale::En).map(|t| t.as_str()), Some("black bear"));
    assert_eq!(name.text(Locale::ZhHans).map(|t| t.as_str()), Some("狗熊"));
    assert_eq!(name.text(Locale::ZhHant), None);
}

#[test]
fn new_of_nothing_is_empty() {
    let name = I18nStr::new(vec![]);
    assert_eq!(name.text(Locale::En), None);
    assert_eq!(name.text(Locale::ZhHans), None);
    assert_eq!(name.text(Locale::ZhHant), None);
}

#[test]
fn localize_replaces_one_slot_only() {
    let mut name = I18nStr::new(vec![
        Locale::ZhHans.value(s("哺乳动物")),
        Locale::En.value(s("mammal")),
    ]);
    let after = name.localize(Locale::En.value(s("mammalia"))).clone();
    assert_eq!(after.text(Locale::En).map(|t| t.as_str()), Some("mammalia"));
    assert_eq!(after.text(Locale::ZhHans).map(|t| t.as_str()), Some("哺乳动物"));
    assert_eq!(after, name);
}

#[test]
fn localize_order_of_distinct_locales_does_not_matter() {
    let a = I18nStr::new(vec![Locale::ZhHant.value(s("哺乳動物")), Locale::En.value(s("mammalia"))]);
    let b = I18nStr::new(vec![Locale::En.value(s("mammalia")), Locale::ZhHant.value(s("哺乳動物"))]);
    assert_eq!(a, b);
}

#[test]
fn override_categories_repairs_parents() {
    let mut m = Manifest::from_parts(
        s(""),
        s(""),
        250,
        vec![],
        vec![
            category("外星人", &["外星人"]),
            category("狗熊", &["哺乳动物 1", "哺乳动物"]),
            category("哺乳动物", &[]),
        ],
    );
    m.override_categories();
    assert_eq!(m.categories[0].parents, Vec::<String>::new());
    assert_eq!(m.categories[1].parents, vec![s("哺乳动物")]);
    assert_eq!(m.categories[2].parents, Vec::<String>::new());
    assert_eq!(ids(&m.categories), vec![s("外星人"), s("狗熊"), s("哺乳动物")]);
    assert_eq!(m.categories[1].name, category("狗熊", &[]).name);
}

#[test]
fn override_categories_twice_is_once() {
    let mut m = Manifest::from_parts(
        s(""),
        s(""),
        250,
        vec![],
        vec![category("a", &["b", "a", "c", "b"]), category("b", &["a", "x"])],
    );
    m.override_categories();
    let once: Vec<Category> = m.categories.clone();
    m.override_categories();
    assert_eq!(m.categories, once);
    assert_eq!(m.categories[0].parents, vec![s("b"), s("b")]);
    assert_eq!(m.categories[1].parents, vec![s("a")]);
}

#[test]
fn override_include_formats_keeps_first_occurrences() {
    let mut m = Manifest::new(250);
    m.override_include_formats(vec![
        vec![s("jpg"), s("png")],
        vec![],
        vec![s("png"), s("jpeg"), s("jpg")],
    ]);
    assert_eq!(m.include_formats, vec![s("jpg"), s("png"), s("jpeg")]);
    m.override_include_formats(vec![vec![s("gif")]]);
    assert_eq!(m.include_formats, vec![s("gif")]);
}

#[test]
fn category_exists_and_get_category() {
    let m = Manifest::from_parts(s(""), s(""), 1, vec![], vec![category("a", &[]), category("b", &["a"])]);
    assert!(m.category_exists("a"));
    assert!(m.category_exists("b"));
    assert!(!m.category_exists("c"));
    assert!(!m.category_exists(""));
    assert_eq!(m.get_category("b").map(|c| c.parents.clone()), Some(vec![s("a")]));
    assert!(m.get_category("c").is_none());
}

#[test]
fn new_manifest_is_empty() {
    let m = Manifest::new(180);
    assert_eq!(m.width(), 180);
    assert_eq!(m.version().as_str(), "");
    assert!(m.include_formats.is_empty());
    assert!(m.categories.is_empty());
}

#[test]
fn default_manifest_is_empty() {
    let m = Manifest::default();
    assert_eq!(m.width(), 0);
    assert_eq!(m.version().as_str(), "");
    assert_eq!(m.datetime, "");
    assert!(m.include_formats.is_empty());
    assert!(m.categories.is_empty());
}

#[test]
fn override_version_and_datetime() {
    let mut m = Manifest::from_parts(s("0.0.1"), s("old"), 250, vec![s("jpg")], vec![]);
    m.override_version().override_dt_now();
    assert_eq!(m.version().as_str(), VERSION);
    assert_eq!(VERSION, "0.1.0");
    assert_eq!(m.datetime.len(), 20);
    assert!(m.datetime.ends_with('Z'));
    assert_eq!(&m.datetime[10..11], "T");
    assert_eq!(m.include_formats, vec![s("jpg")]);
    assert_eq!(m.width(), 250);
}

#[test]
fn set_width_changes_the_width_only() {
    let mut m = Manifest::from_parts(s("v"), s("d"), 250, vec![], vec![category("a", &[])]);
    m.set_width(180);
    assert_eq!(m.width(), 180);
    assert_eq!(m.version().as_str(), "v");
    assert_eq!(ids(&m.categories), vec![s("a")]);
}

#[test]
fn reconcile_with_no_configuration_takes_the_scanned_folders() {
    let mut m = Manifest::new(250);
    let scanned = vec![
        Category { id: s("外星人"), parents: vec![s("x")], name: I18nStr::new(vec![]) },
        category("狗熊", &[]),
    ];
    m.reconcile_categories(scanned, vec![]);
    assert_eq!(ids(&m.categories), vec![s("外星人"), s("狗熊")]);
    assert_eq!(m.categories[0].parents, Vec::<String>::new());
    assert_eq!(m.categories[0].name, I18nStr::new(vec![Locale::ZhHans.value(s("外星人"))]));
}

#[test]
fn reconcile_drops_gone_folders_and_adds_new_ones() {
    let mut m = Manifest::from_parts(
        s(""),
        s(""),
        250,
        vec![],
        vec![category("a", &["b"]), category("gone", &[]), category("b", &[])],
    );
    let scanned = vec![category("b", &[]), category("new", &[]), category("a", &[])];
    m.reconcile_categories(scanned, vec![true, false, true]);
    assert_eq!(ids(&m.categories), vec![s("a"), s("b"), s("new")]);
    assert_eq!(m.categories[0].parents, vec![s("b")]);
}

#[test]
fn scan_categories_of_a_file_is_an_error() {
    match scan_categories(Locale::ZhHans, vec!["_albums"], "./botimages", None) {
        Err(Error::NonFolder(p)) => assert_eq!(p, "./botimages"),
        other => panic!("unexpected {:?}", other),
    }
}

#[test]
fn scan_categories_skips_and_names() {
    let cats = scan_categories(
        Locale::En,
        vec!["_albums"],
        ".",
        Some(vec![s("狗熊"), s("_albums"), s("外星人")]),
    )
    .unwrap();
    assert_eq!(ids(&cats), vec![s("狗熊"), s("外星人")]);
    assert_eq!(cats[0].name, I18nStr::new(vec![Locale::En.value(s("狗熊"))]));
    assert!(cats[1].parents.is_empty());
}

#[test]
fn extension_of_names() {
    assert_eq!(extension_of_name("gouxiong1.png"), Some(s("png")));
    assert_eq!(extension_of_name("a.tar.gz"), Some(s("gz")));
    assert_eq!(extension_of_name("a."), Some(s("")));
    assert_eq!(extension_of_name("..a"), Some(s("a")));
    assert_eq!(extension_of_name(".bashrc"), None);
    assert_eq!(extension_of_name("noext"), None);
    assert_eq!(extension_of_name(""), None);
    assert_eq!(extension_of_name("图片.jpeg"), Some(s("jpeg")));
}

#[test]
fn extension_of_paths() {
    assert_eq!(extension_of_path("botimages/狗熊/gouxiong2.jpg"), Some(s("jpg")));
    assert_eq!(extension_of_path("a.b/c"), None);
    assert_eq!(extension_of_path("dir/.hidden"), None);
    assert_eq!(extension_of_path("a/.."), None);
    assert_eq!(extension_of_path("/"), None);
    assert_eq!(extension_of_path("x/y.png/"), Some(s("png")));
}

#[test]
fn file_extensions_in_order() {
    let paths = vec![s("c/a.jpg"), s("c/b"), s("c/d.png"), s("c/e.jpg")];
    assert_eq!(file_extensions(&paths), vec![s("jpg"), s("png"), s("jpg")]);
}

#[test]
fn digest_of_content() {
    let d = Image::make_digest("a.jpg", b"abc").unwrap();
    assert_eq!(d, "ba7816bf8f01cfe");
    let e = Image::make_digest("a.jpg", b"").unwrap_err();
    match e {
        Error::EmptyImage(f) => assert_eq!(f, "a.jpg"),
        other => panic!("unexpected {:?}", other),
    }
}

#[test]
fn image_new_cases() {
    let cat = category("狗熊", &[]);
    let img = Image::new(&cat, s("狗熊/gouxiong1.png"), Some(b"abc".to_vec())).unwrap();
    assert_eq!(img.extension(), "png");
    assert_eq!(img.digest(), "ba7816bf8f01cfe");
    assert_eq!(img.file(), "狗熊/gouxiong1.png");
    assert_eq!(img.category().id, "狗熊");
    assert_eq!(img.output_file_name(), "ba7816bf8f01cfe.png");
    assert!(Image::new(&cat, s("狗熊/noext"), Some(b"abc".to_vec())).is_none());
    assert!(Image::new(&cat, s("狗熊/a.png"), Some(vec![])).is_none());
    assert!(Image::new(&cat, s("狗熊/a.png"), None).is_none());
}

#[test]
fn same_content_same_output_name() {
    let a = category("a", &[]);
    let b = category("b", &[]);
    let x = Image::new(&a, s("a/one.jpg"), Some(b"same".to_vec())).unwrap();
    let y = Image::new(&b, s("b/two.jpg"), Some(b"same".to_vec())).unwrap();
    assert_eq!(x.output_file_name(), y.output_file_name());
    let z = Image::new(&b, s("b/two.jpg"), Some(b"other".to_vec())).unwrap();
    assert_ne!(x.output_file_name(), z.output_file_name());
}

#[test]
fn scan_images_keeps_the_good_files() {
    let cat = category("c", &[]);
    let files = vec![
        (s("c/a.jpg"), Some(b"abc".to_vec())),
        (s("c/b"), Some(b"abc".to_vec())),
        (s("c/c.png"), Some(vec![])),
        (s("c/d.png"), None),
        (s("c/e.gif"), Some(b"x".to_vec())),
    ];
    let images = cat.scan_images(files);
    let names: Vec<String> = images.iter().map(|i| i.file().to_string()).collect();
    assert_eq!(names, vec![s("c/a.jpg"), s("c/e.gif")]);
    assert_eq!(images[0].digest(), "ba7816bf8f01cfe");
}

#[test]
fn output_manifest_text_prefixes_comments() {
    let text = output_manifest_text("---\nversion: 0.1.0\n");
    assert!(text.starts_with("# 本文件由 mini-assets-gen 生成到输出目录中"));
    assert_eq!(text, format!("{}{}", OUTPUT_MANIFEST_COMMENTS, "---\nversion: 0.1.0\n"));
}

#[test]
fn error_from_message() {
    match Error::from("boom") {
        Error::Message(m) => assert_eq!(m, "boom"),
        other => panic!("unexpected {:?}", other),
    }
}

#[test]
fn digest_of_hash_is_the_first_hex_digits() {
    let hash = [0xab, 0x01, 0xff, 0x10, 0x00, 0x9c, 0x7e, 0x55, 0x42];
    assert_eq!(mini_assets::digest_of_hash(&hash), "ab01ff10009c7e5");
}

#[test]
fn new_manifest_is_dated_in_utc() {
    let m = Manifest::new(250);
    let d = m.datetime.as_bytes();
    let n = d.len();
    assert!(n >= 20);
    assert_eq!(d[n - 1], b'Z');
    assert_eq!(d[n - 10], b'T');
    assert_eq!(d[n - 16], b'-');
    assert_eq!(d[n - 7], b':');
}

#[test]
fn image_new_keeps_any_file_with_an_extension() {
    let cat = category("c", &[]);
    for name in ["c/logo.svg", "c/art.psd", "c/pic.jxl", "notes.txt"] {
        let img = Image::new(&cat, s(name), Some(b"abc".to_vec())).unwrap();
        assert_eq!(img.digest(), "ba7816bf8f01cfe");
    }
    let img = Image::new(&cat, s("c/PHOTO.JPG"), Some(b"abc".to_vec())).unwrap();
    assert_eq!(img.extension(), "JPG");
    assert_eq!(img.output_file_name(), "ba7816bf8f01cfe.JPG");
    assert!(Image::new(&cat, s("dir/README"), Some(b"abc".to_vec())).is_none());
}

#[test]
fn datetime_of_readings() {
    assert_eq!(mini_assets::datetime_of(0, 0), Some(s("1970-01-01T00:00:00Z")));
    assert_eq!(mini_assets::datetime_of(1431648000, 0), Some(s("2015-05-15T00:00:00Z")));
    assert_eq!(mini_assets::datetime_of(1626106927, 999_999_999), Some(s("2021-07-12T16:22:07Z")));
    assert_eq!(mini_assets::datetime_of(u64::MAX, 0), None);
    assert_eq!(mini_assets::datetime_of(i64::MAX as u64, 0), None);
}

#[test]
fn new_dated_and_override_dt() {
    let m = Manifest::new_dated(250, Some((1626106927, 0)));
    assert_eq!(m.datetime, "2021-07-12T16:22:07Z");
    assert_eq!(m.width(), 250);
    let mut m = Manifest::new_dated(180, None);
    assert_eq!(m.datetime, "");
    m.override_dt(Some((0, 0)));
    assert_eq!(m.datetime, "1970-01-01T00:00:00Z");
    m.override_dt(Some((u64::MAX, 0)));
    assert_eq!(m.datetime, "");
    assert_eq!(m.width(), 180);
}

#[test]
fn extension_of_dot_dot_is_none() {
    assert_eq!(extension_of_name(".."), None);
    assert_eq!(extension_of_name("..."), Some(s("")));
    assert_eq!(extension_of_name("."), None);
}

#[test]
fn error_texts() {
    assert_eq!(Error::from("bad input").to_string(), "bad input");
    assert_eq!(Error::NonFolder(s("./x")).to_string(), "the path `./x` is not a folder");
    assert_eq!(Error::EmptyImage(s("a.jpg")).to_string(), "the image file `a.jpg` is empty");
    assert_eq!(
        Error::InvalidIntInput(s("abc")).to_string(),
        "the input value `abc` is not an invalid integer"
    );
    assert_eq!(Error::IO(s("denied")).to_string(), "denied");
    assert_eq!(Error::MissingExtension.to_string(), "missing extension name");
    assert_eq!(Error::InvalidUnicode.to_string(), "invalid unicode");
}

#[test]
fn new_of_concatenation_is_new_then_localize() {
    let a = vec![Locale::En.value(s("bear")), Locale::ZhHans.value(s("狗熊"))];
    let b = vec![Locale::En.value(s("black bear")), Locale::ZhHant.value(s("狗熊"))];
    let mut all = a.clone();
    all.extend(b.clone());
    let mut step = I18nStr::new(a);
    for v in b {
        step.localize(v);
    }
    assert_eq!(I18nStr::new(all), step);
}

#[test]
fn scan_with_one_more_skip_or_another_locale() {
    let names = vec![s("a"), s("b"), s("_albums"), s("c"), s("b")];
    let all = scan_categories(Locale::ZhHans, vec!["_albums"], ".", Some(names.clone())).unwrap();
    let fewer = scan_categories(Locale::ZhHans, vec!["_albums", "b"], ".", Some(names.clone())).unwrap();
    let expected: Vec<String> = ids(&all).into_iter().filter(|id| id != "b").collect();
    assert_eq!(ids(&fewer), expected);
    let en = scan_categories(Locale::En, vec!["_albums"], ".", Some(names)).unwrap();
    assert_eq!(ids(&en), ids(&all));
    assert_eq!(en[1].name, I18nStr::new(vec![Locale::En.value(s("b"))]));
}
