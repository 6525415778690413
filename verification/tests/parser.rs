use makedeb_srcinfo::SrcInfo;

#[test]
fn valid() {
    let file = "pkgbase = test\npkgname = test\npkgver = 1.0\npkgrel = 1\narch = amd64\npostrm = file\nfocal_postrm = focal_file\npostrm_amd64 = file_amd64\nfocal_postrm_amd64 = focal_file_amd64\n";
    let srcinfo = SrcInfo::new(&file).unwrap();

    // Checks for extended variables.
    let extended_values = srcinfo.get_extended_values("postrm").unwrap();

    assert!(extended_values.len() == 4);
    assert!(extended_values.contains(&"postrm".to_owned()));
    assert!(extended_values.contains(&"focal_postrm".to_owned()));
    assert!(extended_values.contains(&"postrm_amd64".to_owned()));
    assert!(extended_values.contains(&"focal_postrm_amd64".to_owned()));

    assert!(srcinfo.get_string("postrm").unwrap() == "file");
    assert!(srcinfo.get_string("focal_postrm").unwrap() == "focal_file");
    assert!(srcinfo.get_string("postrm_amd64").unwrap() == "file_amd64");
    assert!(srcinfo.get_string("focal_postrm_amd64").unwrap() == "focal_file_amd64");
}

#[test]
fn no_value() {
    let file = "pkgbase = test\npkgname = test\npkgver = 1.0\npkgrel\narch = amd64\n";
    let srcinfo = SrcInfo::new(&file);
    let err = srcinfo.unwrap_err();

    assert!(err.line_num.unwrap() == 4);
}

#[test]
fn delimiter_error_message() {
    let file = "pkgbase = test\nbroken-line\n";
    let err = SrcInfo::new(&file).unwrap_err();
    assert_eq!(err.msg, "No ' = ' delimiter found.");
    assert_eq!(err.line_num, Some(2));
}

#[test]
fn minimal_document_parses() {
    let file = "pkgbase = a\npkgname = a\npkgver = 1\npkgrel = 1\narch = any\n";
    assert!(SrcInfo::new(&file).is_ok());
}

#[test]
fn comments_and_blank_lines_skipped() {
    let file = "# a comment\n\npkgbase = a\npkgname = a\npkgver = 1\npkgrel = 1\n\n# more\narch = any\n";
    let srcinfo = SrcInfo::new(&file).unwrap();
    assert_eq!(srcinfo.get_string("pkgbase").unwrap(), "a");
}

#[test]
fn missing_required_key() {
    let file = "pkgbase = a\npkgname = a\npkgver = 1\npkgrel = 1\n";
    let err = SrcInfo::new(&file).unwrap_err();
    assert_eq!(err.msg, "Required key 'arch' not found.");
    assert_eq!(err.line_num, None);
}

#[test]
fn duplicate_string_key() {
    let file = "pkgbase = a\npkgname = a\npkgver = 1\npkgrel = 1\narch = any\npkgdesc = one\npkgdesc = two\n";
    let err = SrcInfo::new(&file).unwrap_err();
    assert_eq!(
        err.msg,
        "Key 'pkgdesc' is present more than once when it is not allowed to."
    );
    assert_eq!(err.line_num, None);
}

#[test]
fn value_keeps_later_delimiters_and_loses_tabs() {
    let file =
        "pkgbase = a\npkgname = a\npkgver = 1\npkgrel = 1\narch = any\npkgdesc = a = b\tc\n";
    let srcinfo = SrcInfo::new(&file).unwrap();
    assert_eq!(srcinfo.get_string("pkgdesc").unwrap(), "a = bc");
}

#[test]
fn array_values_accumulate_in_order() {
    let file = "pkgbase = a\npkgname = a\npkgver = 1\npkgrel = 1\narch = any\ndepends = one\ndepends = two\n";
    let srcinfo = SrcInfo::new(&file).unwrap();
    let depends = srcinfo.get_array("depends").unwrap();
    assert_eq!(depends.len(), 2);
    assert_eq!(depends[0], "one");
    assert_eq!(depends[1], "two");
}

#[test]
fn wrong_kind_of_key_gives_nothing() {
    let file = "pkgbase = a\npkgname = a\npkgver = 1\npkgrel = 1\narch = any\nfoo = bar\n";
    let srcinfo = SrcInfo::new(&file).unwrap();
    // pkgname is an array key, pkgbase a string key.
    assert!(srcinfo.get_string("pkgname").is_none());
    assert!(srcinfo.get_array("pkgbase").is_none());
    // An unclassified key yields nothing even though it is stored.
    assert!(srcinfo.get_string("foo").is_none());
    assert!(srcinfo.get_array("foo").is_none());
}

#[test]
fn extended_values_absent() {
    let file = "pkgbase = a\npkgname = a\npkgver = 1\npkgrel = 1\narch = any\n";
    let srcinfo = SrcInfo::new(&file).unwrap();
    // Extendable key with no occurrence at all.
    assert!(srcinfo.get_extended_values("depends").is_none());
    // A key that cannot be extended yields nothing regardless.
    assert!(srcinfo.get_extended_values("pkgbase").is_none());
}

#[test]
fn qualified_string_key_may_repeat() {
    // Only the exact unqualified name of a single-valued key is held to the
    // one-value rule; a qualified variant occurring twice is stored as two
    // values, and the accessor hands back the first.
    let file = "pkgbase = a\npkgname = a\npkgver = 1\npkgrel = 1\narch = any\nfocal_postrm = one\nfocal_postrm = two\n";
    let srcinfo = SrcInfo::new(&file).unwrap();
    assert_eq!(srcinfo.get_string("focal_postrm").unwrap(), "one");
}

#[test]
fn extended_values_only_qualified() {
    let file = "pkgbase = a\npkgname = a\npkgver = 1\npkgrel = 1\narch = any\nfocal_depends = x\n";
    let srcinfo = SrcInfo::new(&file).unwrap();
    let names = srcinfo.get_extended_values("depends").unwrap();
    assert_eq!(names, vec!["focal_depends".to_owned()]);
    let values = srcinfo.get_array("focal_depends").unwrap();
    assert_eq!(values.len(), 1);
    assert_eq!(values[0], "x");
}
