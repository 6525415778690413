use makedeb_srcinfo::{SplitDependency, SplitPackage};

#[test]
fn split_version() {
    let ver1 = SplitPackage::new("pkg1");
    let ver2 = SplitPackage::new("pkg2=1.0");
    let ver3 = SplitPackage::new("pkg3>=1.0=1.3");

    assert!(ver1.pkgname == "pkg1");
    assert!(ver1.operator.is_none());
    assert!(ver1.version.is_none());

    assert!(ver2.pkgname == "pkg2");
    assert!(ver2.operator.as_ref().unwrap() == "=");
    assert!(ver2.version.as_ref().unwrap() == "1.0");

    assert!(ver3.pkgname == "pkg3");
    assert!(ver3.operator.as_ref().unwrap() == ">=");
    assert!(ver3.version.as_ref().unwrap() == "1.0=1.3");
}

#[test]
fn split_dependency() {
    let ver1 = SplitDependency::new("pkg1");
    let ver2 = SplitDependency::new("pkg2=1.0|pkg4");
    let ver3 = SplitDependency::new("pkg3>=1.0=1.3|pkg5=5|pkg6");

    assert_eq!(ver1.as_control(), "pkg1");
    assert_eq!(ver2.as_control(), "pkg2 (= 1.0) | pkg4");
    assert_eq!(ver3.as_control(), "pkg3 (>= 1.0=1.3) | pkg5 (= 5) | pkg6");
}

#[test]
fn every_operator_splits() {
    let le = SplitPackage::new("a<=2");
    assert!(le.pkgname == "a");
    assert!(le.operator.as_ref().unwrap() == "<=");
    assert!(le.version.as_ref().unwrap() == "2");

    let gt = SplitPackage::new("a>2");
    assert!(gt.operator.as_ref().unwrap() == ">");
    assert!(gt.version.as_ref().unwrap() == "2");

    let lt = SplitPackage::new("a<2");
    assert!(lt.operator.as_ref().unwrap() == "<");
    assert!(lt.version.as_ref().unwrap() == "2");
}

#[test]
fn alternatives_parse_in_order() {
    let dep = SplitDependency::new("pkg2=1.0|pkg4");
    assert_eq!(dep.deps.len(), 2);
    assert!(dep.deps[0].pkgname == "pkg2");
    assert!(dep.deps[0].operator.as_ref().unwrap() == "=");
    assert!(dep.deps[0].version.as_ref().unwrap() == "1.0");
    assert!(dep.deps[1].pkgname == "pkg4");
    assert!(dep.deps[1].operator.is_none());
    assert!(dep.deps[1].version.is_none());
}

#[test]
fn single_alternative_control() {
    let dep = SplitDependency::new("pkg2=1.0");
    assert_eq!(dep.deps.len(), 1);
    assert_eq!(dep.as_control(), "pkg2 (= 1.0)");
}

#[test]
fn empty_token_is_all_name() {
    let pkg = SplitPackage::new("");
    assert!(pkg.pkgname == "");
    assert!(pkg.operator.is_none());
    assert!(pkg.version.is_none());
}
