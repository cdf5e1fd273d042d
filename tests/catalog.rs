use photo_tools::catalog::{identity, photo_database, Catalog, CatalogError};
use photo_tools::names::split_name;
use photo_tools::photo::{is_orphan, parse_filter, source_path, FilterMode, Photo, PhotoDir, SourcePath};

fn dir(filter: FilterMode) -> PhotoDir {
    PhotoDir {
        path: String::from("/photos"),
        filter,
        raw_ext: String::from("RAF"),
        img_ext: String::from("JPG"),
    }
}

fn names(list: &[&str]) -> Vec<String> {
    list.iter().map(|s| s.to_string()).collect()
}

fn record(c: &Catalog, key: &str) -> (String, bool, bool) {
    let p = c.get(&key.to_string()).expect("record present");
    (p.file_name.clone(), p.has_raw, p.has_jpg)
}

#[test]
fn scenario_catalog_img_filter() {
    let d = dir(FilterMode::Img);
    let c = photo_database(&d, &names(&["a.RAF", "a.JPG", "b.RAF", "c.JPG"])).ok().unwrap();
    assert_eq!(c.len(), 3);
    assert_eq!(record(&c, "/photos/a.JPG"), ("a".to_string(), true, true));
    assert_eq!(record(&c, "/photos/b.JPG"), ("b".to_string(), true, false));
    assert_eq!(record(&c, "/photos/c.JPG"), ("c".to_string(), false, true));
}

#[test]
fn identity_uses_filter_extension() {
    let raw = dir(FilterMode::Raw);
    let img = dir(FilterMode::Img);
    let c = photo_database(&raw, &names(&["x.JPG"])).ok().unwrap();
    assert!(c.get(&"/photos/x.RAF".to_string()).is_some());
    assert!(c.get(&"/photos/x.JPG".to_string()).is_none());
    assert_eq!(identity(&img, &"x".to_string()), "/photos/x.JPG");
    assert_eq!(identity(&raw, &"x".to_string()), "/photos/x.RAF");
}

#[test]
fn merge_in_either_order() {
    let d = dir(FilterMode::Raw);
    let a = photo_database(&d, &names(&["p.RAF", "p.JPG"])).ok().unwrap();
    let b = photo_database(&d, &names(&["p.JPG", "p.RAF"])).ok().unwrap();
    assert_eq!(a.len(), 1);
    assert_eq!(b.len(), 1);
    assert_eq!(record(&a, "/photos/p.RAF"), ("p".to_string(), true, true));
    assert_eq!(record(&b, "/photos/p.RAF"), ("p".to_string(), true, true));
}

#[test]
fn merge_among_other_files() {
    let d = dir(FilterMode::Img);
    let c = photo_database(&d, &names(&["q.JPG", "r.RAF", "notes.txt", "q.RAF", "r.TIF"])).ok().unwrap();
    assert_eq!(c.len(), 2);
    assert_eq!(record(&c, "/photos/q.JPG"), ("q".to_string(), true, true));
    assert_eq!(record(&c, "/photos/r.JPG"), ("r".to_string(), true, false));
}

#[test]
fn duplicate_observation_changes_nothing() {
    let mut c = Catalog::new();
    let key = "/photos/d.JPG".to_string();
    c.observe(key.clone(), "d".to_string(), true, false);
    c.observe(key.clone(), "d".to_string(), true, false);
    assert_eq!(c.len(), 1);
    assert_eq!(record(&c, "/photos/d.JPG"), ("d".to_string(), true, false));
    c.observe(key.clone(), "d".to_string(), false, true);
    c.observe(key.clone(), "d".to_string(), false, true);
    assert_eq!(record(&c, "/photos/d.JPG"), ("d".to_string(), true, true));
    let (k, p) = c.entry(0);
    assert_eq!(k, &key);
    assert!(p.has_raw && p.has_jpg);
}

#[test]
fn other_extensions_are_ignored() {
    let d = dir(FilterMode::Raw);
    let c = photo_database(&d, &names(&["a.PNG", "b.raf", "c.jpg", "d.XMP"])).ok().unwrap();
    assert_eq!(c.len(), 0);
    assert!(c.get(&"/photos/a.RAF".to_string()).is_none());
}

#[test]
fn name_without_extension_is_an_error() {
    let d = dir(FilterMode::Raw);
    match photo_database(&d, &names(&["a.RAF", "README", "b.RAF"])) {
        Err(CatalogError::MalformedName(n)) => assert_eq!(n, "README"),
        Ok(_) => panic!("expected an error"),
    }
    match photo_database(&d, &names(&[".hidden"])) {
        Err(CatalogError::MalformedName(n)) => assert_eq!(n, ".hidden"),
        Ok(_) => panic!("expected an error"),
    }
}

#[test]
fn equal_extensions_complete_every_photo() {
    let d = PhotoDir {
        path: String::from("/p"),
        filter: FilterMode::Raw,
        raw_ext: String::from("DNG"),
        img_ext: String::from("DNG"),
    };
    let c = photo_database(&d, &names(&["z.DNG"])).ok().unwrap();
    assert_eq!(record(&c, "/p/z.DNG"), ("z".to_string(), true, true));
}

#[test]
fn empty_directory_gives_empty_catalog() {
    let d = dir(FilterMode::Img);
    let c = photo_database(&d, &Vec::new()).ok().unwrap();
    assert_eq!(c.len(), 0);
}

#[test]
fn split_name_at_last_dot() {
    assert_eq!(split_name("a.b.c"), Some(("a.b".to_string(), "c".to_string())));
    assert_eq!(split_name("IMG_001.RAF"), Some(("IMG_001".to_string(), "RAF".to_string())));
    assert_eq!(split_name("foo."), Some(("foo".to_string(), "".to_string())));
    assert_eq!(split_name("..x"), Some((".".to_string(), "x".to_string())));
    assert_eq!(split_name(".foo"), None);
    assert_eq!(split_name("noext"), None);
    assert_eq!(split_name(""), None);
}

#[test]
fn orphan_partition_by_filter() {
    let raw_only = Photo { file_name: "a".to_string(), has_raw: true, has_jpg: false };
    let img_only = Photo { file_name: "b".to_string(), has_raw: false, has_jpg: true };
    let both = Photo { file_name: "c".to_string(), has_raw: true, has_jpg: true };
    assert!(is_orphan(FilterMode::Raw, &raw_only));
    assert!(!is_orphan(FilterMode::Raw, &img_only));
    assert!(!is_orphan(FilterMode::Raw, &both));
    assert!(!is_orphan(FilterMode::Img, &raw_only));
    assert!(is_orphan(FilterMode::Img, &img_only));
    assert!(!is_orphan(FilterMode::Img, &both));
}

#[test]
fn filter_names() {
    assert_eq!(parse_filter("RAW"), Some(FilterMode::Raw));
    assert_eq!(parse_filter("IMG"), Some(FilterMode::Img));
    assert_eq!(parse_filter("raw"), None);
    assert_eq!(parse_filter("JPG"), None);
    assert_eq!(parse_filter(""), None);
}

#[test]
fn source_path_choices() {
    match source_path(&String::new()) {
        SourcePath::Canonicalize(p) => assert_eq!(p, "./"),
        SourcePath::AsGiven(_) => panic!("expected canonicalize"),
    }
    match source_path(&"./pics".to_string()) {
        SourcePath::Canonicalize(p) => assert_eq!(p, "./pics"),
        SourcePath::AsGiven(_) => panic!("expected canonicalize"),
    }
    match source_path(&"/home/me/pics".to_string()) {
        SourcePath::AsGiven(p) => assert_eq!(p, "/home/me/pics"),
        SourcePath::Canonicalize(_) => panic!("expected as given"),
    }
}
