use dsh_desktop::package::{
    extraction_target, find_metadata, metadata_entry, open_package, plan_install,
    relative_path_of_entry, skin_id_for, InstallPlan,
};
use dsh_desktop::skin::SkinError;
use std::io::Write;

fn zip_of(entries: &[(&str, &[u8])]) -> Vec<u8> {
    let mut w = zip::ZipWriter::new(std::io::Cursor::new(Vec::new()));
    let opts = zip::write::SimpleFileOptions::default();
    for (name, data) in entries {
        if name.ends_with('/') {
            w.add_directory(name.trim_end_matches('/'), opts).unwrap();
        } else {
            w.start_file(*name, opts).unwrap();
            w.write_all(data).unwrap();
        }
    }
    w.finish().unwrap().into_inner()
}

/// Plans a package the way the installer does: the metadata entry, then the
/// `id` it declares (given here as the installer's JSON reading gives it).
fn plan(bytes: Vec<u8>, root: &str, declared: Option<&str>) -> Result<InstallPlan, SkinError> {
    let mut archive = open_package(bytes)?;
    let meta = find_metadata(&mut archive)?;
    Ok(plan_install(&mut archive, root, &meta.name, declared.map(|d| d.to_string())))
}

fn targets(p: &InstallPlan) -> Vec<(&str, &[u8])> {
    p.files.iter().map(|f| (f.path.as_str(), f.data.as_slice())).collect()
}

#[test]
fn test_install_skin_zip() {
    let bytes = zip_of(&[
        ("pkg/skin.json", br#"{"id":"pkg","name":"Test"}"#),
        ("pkg/theme.css", b"body{}"),
    ]);
    let mut archive = open_package(bytes).unwrap();
    let meta = find_metadata(&mut archive).unwrap();
    assert_eq!(meta.name, "pkg/skin.json");
    assert_eq!(meta.contents, Some(br#"{"id":"pkg","name":"Test"}"#.to_vec()));
    let found = meta.name.ends_with("skin.json");
    assert!(found, "zip 内应找到 skin.json");
    let p = plan_install(&mut archive, "/tmp/dsh-skins-test/skins", &meta.name, Some("pkg".to_string()));
    assert_eq!(p.skin_id, "pkg");
    assert!(p.failure.is_none());
    assert_eq!(
        targets(&p),
        vec![
            ("/tmp/dsh-skins-test/skins/pkg/skin.json", &br#"{"id":"pkg","name":"Test"}"#[..]),
            ("/tmp/dsh-skins-test/skins/pkg/theme.css", &b"body{}"[..]),
        ]
    );
}

#[test]
fn plan_puts_entries_under_the_skin_directory() {
    let bytes = zip_of(&[
        ("pkg/", b""),
        ("pkg/skin.json", br#"{"id":"pkg","name":"Test"}"#),
        ("pkg/theme.css", b"body{}"),
        ("pkg/assets/bg.png", b"\x89PNG"),
        ("/etc/evil", b"x"),
        ("pkg/../../evil.txt", b"x"),
    ]);
    let p = plan(bytes, "/data/skins", Some("pkg")).unwrap();
    assert_eq!(p.skin_id, "pkg");
    assert_eq!(p.dest, "/data/skins/pkg");
    assert!(p.failure.is_none());
    assert_eq!(
        targets(&p),
        vec![
            ("/data/skins/pkg/skin.json", &br#"{"id":"pkg","name":"Test"}"#[..]),
            ("/data/skins/pkg/theme.css", &b"body{}"[..]),
            ("/data/skins/pkg/assets/bg.png", &b"\x89PNG"[..]),
        ]
    );
}

#[test]
fn a_package_packed_from_inside_its_directory_takes_its_declared_id() {
    let bytes = zip_of(&[("skin.json", br#"{"id":"x","name":"X"}"#), ("theme.css", b"body{}")]);
    let p = plan(bytes, "/s", Some("x")).unwrap();
    assert_eq!(p.skin_id, "x");
    assert_eq!(p.dest, "/s/x");
    let paths: Vec<&str> = p.files.iter().map(|f| f.path.as_str()).collect();
    assert_eq!(paths, vec!["/s/x/skin.json", "/s/x/theme.css"]);
}

#[test]
fn a_package_in_a_directory_installs_under_that_directory() {
    let bytes = zip_of(&[
        ("d/skin.json", br#"{"id":"other","name":"D"}"#),
        ("d/theme.css", b"body{}"),
    ]);
    let p = plan(bytes, "/s", Some("other")).unwrap();
    assert_eq!(p.skin_id, "d");
    assert_eq!(p.dest, "/s/d");
    let paths: Vec<&str> = p.files.iter().map(|f| f.path.as_str()).collect();
    assert_eq!(paths, vec!["/s/d/skin.json", "/s/d/theme.css"]);
}

#[test]
fn unreadable_metadata_is_found_and_installing_stops_there() {
    let opts = zip::write::SimpleFileOptions::default()
        .compression_method(zip::CompressionMethod::Stored);
    let mut w = zip::ZipWriter::new(std::io::Cursor::new(Vec::new()));
    w.start_file("pkg/theme.css", opts).unwrap();
    w.write_all(b"body{}").unwrap();
    w.start_file("pkg/skin.json", opts).unwrap();
    w.write_all(b"{\"id\":\"pkg\"}MARK").unwrap();
    let mut bytes = w.finish().unwrap().into_inner();
    let at = bytes.windows(4).position(|x| x == b"MARK").unwrap();
    bytes[at] = b'N';
    let mut archive = open_package(bytes).unwrap();
    let meta = find_metadata(&mut archive).unwrap();
    assert_eq!(meta.name, "pkg/skin.json");
    assert_eq!(meta.index, 1);
    assert_eq!(meta.contents, None);
    let p = plan_install(&mut archive, "/s", &meta.name, None);
    assert_eq!(p.skin_id, "pkg");
    assert!(matches!(p.failure, Some(SkinError::Archive(_))));
    assert_eq!(targets(&p), vec![("/s/pkg/theme.css", &b"body{}"[..])]);
}

#[test]
fn a_flat_package_without_an_id_is_the_skin_named_skin() {
    let bytes = zip_of(&[("theme.css", b"a{}"), ("skin.json", b"{}")]);
    let p = plan(bytes, "/s", None).unwrap();
    assert_eq!(p.skin_id, "skin");
    assert_eq!(p.dest, "/s/skin");
    let paths: Vec<&str> = p.files.iter().map(|f| f.path.as_str()).collect();
    assert_eq!(paths, vec!["/s/skin/theme.css", "/s/skin/skin.json"]);
}

#[test]
fn a_package_without_a_declared_id_takes_its_directory() {
    let bytes = zip_of(&[("bad/skin.json", b"{}")]);
    let p = plan(bytes, "/s", None).unwrap();
    assert_eq!(p.skin_id, "bad");
    assert_eq!(targets(&p), vec![("/s/bad/skin.json", &b"{}"[..])]);
}

#[test]
fn only_skin_json_itself_is_the_metadata() {
    let bytes = zip_of(&[
        ("pkg/assets/myskin.json", b"{}"),
        ("pkg/skin.json", br#"{"id":"pkg","name":"P"}"#),
    ]);
    let mut archive = open_package(bytes).unwrap();
    let meta = find_metadata(&mut archive).unwrap();
    assert_eq!(meta.name, "pkg/skin.json");
    assert_eq!(meta.index, 1);
    let p = plan_install(&mut archive, "/s", &meta.name, Some("pkg".to_string()));
    assert_eq!(p.skin_id, "pkg");
    let paths: Vec<&str> = p.files.iter().map(|f| f.path.as_str()).collect();
    assert_eq!(paths, vec!["/s/pkg/assets/myskin.json", "/s/pkg/skin.json"]);
}

#[test]
fn an_invalid_declared_id_is_not_used() {
    let bytes = zip_of(&[("pkg/skin.json", b"{}")]);
    assert_eq!(plan(bytes.clone(), "/s", Some("../up")).unwrap().skin_id, "pkg");
    assert_eq!(plan(bytes.clone(), "/s", Some("..")).unwrap().skin_id, "pkg");
    assert_eq!(plan(bytes, "/s", Some("")).unwrap().skin_id, "pkg");
}

#[test]
fn a_package_without_skin_json_is_refused() {
    let bytes = zip_of(&[("theme.css", b"a{}"), ("pkg/notskin.json", b"{}")]);
    assert!(matches!(plan(bytes, "/s", None), Err(SkinError::NoSkinJson)));
}

#[test]
fn bytes_that_are_no_zip_are_refused() {
    match open_package(b"not a zip".to_vec()) {
        Err(SkinError::NotAPackage(why)) => assert!(!why.is_empty()),
        _ => panic!("expected a refusal"),
    }
}

#[test]
fn metadata_entries() {
    assert!(metadata_entry("skin.json"));
    assert!(metadata_entry("pkg/skin.json"));
    assert!(!metadata_entry("a/b/skin.json"));
    assert!(!metadata_entry("myskin.json"));
    assert!(!metadata_entry("pkg/myskin.json"));
    assert!(!metadata_entry("skin.json/"));
}

#[test]
fn skin_ids_for_packages() {
    assert_eq!(skin_id_for("pkg/skin.json", Some("neon".to_string())), "pkg");
    assert_eq!(skin_id_for("skin.json", Some("neon".to_string())), "neon");
    assert_eq!(skin_id_for("../skin.json", Some("neon".to_string())), "neon");
    assert_eq!(skin_id_for("pkg/skin.json", None), "pkg");
    assert_eq!(skin_id_for("skin.json", None), "skin");
    assert_eq!(skin_id_for("../skin.json", None), "skin");
    assert_eq!(skin_id_for("skin.json", Some("a/b".to_string())), "skin");
}

#[test]
fn relative_paths_drop_the_package_directory() {
    assert_eq!(relative_path_of_entry("pkg/theme.css", Some("pkg")), "theme.css");
    assert_eq!(relative_path_of_entry("pkg/pkg/x", Some("pkg")), "x");
    assert_eq!(relative_path_of_entry("other/x", Some("pkg")), "other/x");
    assert_eq!(relative_path_of_entry("pkg", Some("pkg")), "pkg");
    assert_eq!(relative_path_of_entry("a/pkg/x", Some("pkg")), "a/pkg/x");
    assert_eq!(relative_path_of_entry("pkg/x", None), "pkg/x");
}

#[test]
fn extraction_targets() {
    assert_eq!(extraction_target("pkg/", Some("pkg"), "/s/pkg"), None);
    assert_eq!(extraction_target("/etc/passwd", Some("pkg"), "/s/pkg"), None);
    assert_eq!(extraction_target("pkg/a.css", Some("pkg"), "/s/pkg"), Some("/s/pkg/a.css".to_string()));
    // An entry whose `..` would climb out of the skin's directory is skipped.
    assert_eq!(extraction_target("pkg/../x", Some("pkg"), "/s/pkg"), None);
    assert_eq!(extraction_target("pkg/../../evil.txt", Some("pkg"), "/s/pkg"), None);
    assert_eq!(extraction_target("pkg/a/../b", Some("pkg"), "/s/pkg"), None);
    assert_eq!(extraction_target("pkg/.", Some("pkg"), "/s/pkg"), None);
}
