use butterfly::archive::{PackageArchive, PackageTarget};

fn entry(path: &str, content: &str) -> (String, Vec<u8>) {
    (path.to_string(), content.as_bytes().to_vec())
}

fn possums_archive() -> PackageArchive {
    let mut hart = PackageArchive::new(
        "fixtures/happyhumans-possums-8.1.4-20160427165340-x86_64-linux.hart",
    );
    let entries = vec![
        entry(
            "hab/pkgs/happyhumans/possums/8.1.4/20160427165340/IDENT",
            "happyhumans/possums/8.1.4/20160427165340\n",
        ),
        entry(
            "hab/pkgs/happyhumans/possums/8.1.4/20160427165340/DEPS",
            "core/glibc/2.22/20160427000149\ncore/gcc-libs/5.2.0/20160427001305\n",
        ),
        entry(
            "hab/pkgs/happyhumans/possums/8.1.4/20160427165340/TDEPS",
            "core/glibc/2.22/20160427000149\ncore/gcc-libs/5.2.0/20160427001305\ncore/linux-headers/4.3/20160426232255\n",
        ),
        entry(
            "hab/pkgs/happyhumans/possums/8.1.4/20160427165340/TARGET",
            "x86_64-linux\n",
        ),
        entry(
            "hab/pkgs/happyhumans/possums/8.1.4/20160427165340/EXPOSES",
            "8080 8081\n",
        ),
        entry(
            "hab/pkgs/happyhumans/possums/8.1.4/20160427165340/SVC_USER",
            "hab\n",
        ),
        entry("not/a/metadata/path", "ignored"),
    ];
    hart.load(&entries).expect("metadata loads");
    hart
}

#[test]
fn reading_artifact_metadata() {
    let hart = possums_archive();
    let ident = hart.ident().unwrap();
    assert_eq!(ident.origin, "happyhumans");
    assert_eq!(ident.name, "possums");
    assert_eq!(ident.version, Some("8.1.4".to_string()));
    assert_eq!(ident.release, Some("20160427165340".to_string()));
}

#[test]
fn reading_artifact_deps() {
    let hart = possums_archive();
    let _ = hart.deps().unwrap();
    let _ = hart.tdeps().unwrap();
}

#[test]
fn reading_artifact_large_tdeps() {
    let mut hart = PackageArchive::new(
        "fixtures/unhappyhumans-possums-8.1.4-20160427165340-x86_64-linux.hart",
    );
    let mut tdeps = String::new();
    for i in 0..1024 {
        tdeps.push_str(&format!("core/dep{}/1.0.0/20160427165340\n", i));
    }
    let entries = vec![(
        "hab/pkgs/unhappyhumans/possums/8.1.4/20160427165340/TDEPS".to_string(),
        tdeps.into_bytes(),
    )];
    hart.load(&entries).expect("metadata loads");
    let tdeps = hart.tdeps().unwrap();
    assert_eq!(1024, tdeps.len());
}

#[test]
fn reading_artifact_target() {
    let hart = possums_archive();
    let target = hart.target().unwrap();
    assert_eq!(PackageTarget::x86_64_linux(), target);
}

#[test]
fn exposes_parses_ports() {
    let hart = possums_archive();
    assert_eq!(hart.exposes().unwrap(), vec![8080u16, 8081u16]);
}

#[test]
fn is_a_service_detects_svc_user() {
    let hart = possums_archive();
    assert!(hart.is_a_service());
}

#[test]
fn missing_metadata_is_not_found() {
    let mut hart = PackageArchive::new("fixtures/empty.hart");
    hart.load(&Vec::new()).expect("empty archive loads");
    assert!(hart.ident().is_err());
    assert!(hart.cflags().unwrap().is_none());
    assert!(!hart.is_a_service());
    assert!(hart.deps().unwrap().is_empty());
}

#[test]
fn unloaded_archive_errors() {
    let hart = PackageArchive::new("fixtures/none.hart");
    assert!(hart.ident().is_err());
}

#[test]
fn metadata_values_are_trimmed() {
    let hart = possums_archive();
    assert_eq!(hart.svc_user().unwrap(), "hab");
}

#[test]
fn file_name_takes_the_last_component() {
    let hart = possums_archive();
    assert_eq!(
        hart.file_name(),
        "happyhumans-possums-8.1.4-20160427165340-x86_64-linux.hart"
    );
}

#[test]
fn non_fully_qualified_deps_are_rejected() {
    let mut hart = PackageArchive::new("fixtures/loose.hart");
    let entries = vec![(
        "hab/pkgs/o/n/1/2/DEPS".to_string(),
        b"core/glibc\n".to_vec(),
    )];
    hart.load(&entries).expect("metadata loads");
    assert!(hart.deps().is_err());
}
