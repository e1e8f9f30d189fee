use dsh_desktop::inject::build_inject_js;
use dsh_desktop::skin::{
    default_version, order_skins, skin_info_from_meta, theme_path, AppConfig, SkinError, SkinInfo,
    SkinMeta, SkinTheme, valid_skin_id,
};

fn meta(name: &str) -> SkinMeta {
    SkinMeta {
        id: name.to_string(),
        name: name.to_string(),
        version: default_version(),
        author: String::new(),
        description: String::new(),
        preview: String::new(),
        theme: SkinTheme::default(),
    }
}

fn info(id: &str, name: &str) -> SkinInfo {
    SkinInfo {
        id: id.to_string(),
        name: name.to_string(),
        version: "1.0.0".to_string(),
        author: String::new(),
        description: String::new(),
        preview: String::new(),
        dark: false,
        active: false,
    }
}

#[test]
fn test_read_skin() {
    // skin.json: {"id":"aurora","name":"电光紫","version":"1.0.0","author":"likun",
    // "description":"测试","preview":"#6c4dff","theme":{"dark":false,"primary":"#6c4dff"}}
    let m = SkinMeta {
        id: "aurora".to_string(),
        name: "电光紫".to_string(),
        version: "1.0.0".to_string(),
        author: "likun".to_string(),
        description: "测试".to_string(),
        preview: "#6c4dff".to_string(),
        theme: SkinTheme { dark: false, primary: "#6c4dff".to_string(), background: String::new() },
    };
    let info = skin_info_from_meta("/tmp/dsh-skins-test/aurora", m).expect("应能读取皮肤");
    assert_eq!(info.id, "aurora");
    assert_eq!(info.name, "电光紫");
    assert_eq!(info.preview, "#6c4dff");
}

#[test]
fn skin_id_comes_from_the_directory_not_the_metadata() {
    let mut m = meta("Any");
    m.id = "other".to_string();
    m.theme.dark = true;
    let info = skin_info_from_meta("/data/skins/neon-green/", m).unwrap();
    assert_eq!(info.id, "neon-green");
    assert_eq!(info.name, "Any");
    assert_eq!(info.version, "0.0.0");
    assert!(info.dark);
    assert!(!info.active);
}

#[test]
fn a_directory_without_a_final_name_has_no_skin() {
    assert!(skin_info_from_meta("/", meta("x")).is_none());
    assert!(skin_info_from_meta("skins/..", meta("x")).is_none());
    assert!(skin_info_from_meta(".", meta("x")).is_none());
    assert!(skin_info_from_meta("", meta("x")).is_none());
}

#[test]
fn default_version_is_zero() {
    assert_eq!(default_version(), "0.0.0");
}

#[test]
fn defaults_are_empty() {
    let t = SkinTheme::default();
    assert!(!t.dark);
    assert_eq!(t.primary, "");
    assert_eq!(t.background, "");
    assert_eq!(AppConfig::default().active_skin, "");
}

#[test]
fn listing_sorts_by_name_and_marks_the_active_skin() {
    let found = vec![
        info("neon-green", "荧光绿"),
        info("b", "Beta"),
        info("aurora-purple", "电光紫"),
        info("a", "Alpha"),
    ];
    let r = order_skins(found, "aurora-purple");
    let names: Vec<&str> = r.iter().map(|s| s.name.as_str()).collect();
    let mut expected = vec!["荧光绿", "Beta", "电光紫", "Alpha"];
    expected.sort();
    assert_eq!(names, expected);
    assert_eq!(names, vec!["Alpha", "Beta", "电光紫", "荧光绿"]);
    let active: Vec<&str> = r.iter().filter(|s| s.active).map(|s| s.id.as_str()).collect();
    assert_eq!(active, vec!["aurora-purple"]);
}

#[test]
fn listing_keeps_equal_names_in_the_order_found() {
    let found = vec![info("z", "Same"), info("a", "Other"), info("m", "Same"), info("b", "Same")];
    let r = order_skins(found, "");
    let ids: Vec<&str> = r.iter().map(|s| s.id.as_str()).collect();
    assert_eq!(ids, vec!["a", "z", "m", "b"]);
    assert!(r.iter().all(|s| !s.active));
}

#[test]
fn listing_clears_stale_active_marks() {
    let mut stale = info("old", "Old");
    stale.active = true;
    let r = order_skins(vec![stale, info("new", "New")], "new");
    assert_eq!(r[0].id, "new");
    assert!(r[0].active);
    assert_eq!(r[1].id, "old");
    assert!(!r[1].active);
}

#[test]
fn listing_of_nothing_is_empty() {
    assert!(order_skins(Vec::new(), "x").is_empty());
}

#[test]
fn activation_then_active_theme_is_that_skin_css() {
    let mut cfg = AppConfig::default();
    assert_eq!(cfg.active_theme("/data/skins"), None);
    cfg.activate("aurora-purple");
    assert_eq!(cfg.active_skin, "aurora-purple");
    assert_eq!(
        cfg.active_theme("/data/skins"),
        Some(theme_path("/data/skins", "aurora-purple"))
    );
    assert_eq!(theme_path("/data/skins", "aurora-purple"), "/data/skins/aurora-purple/theme.css");
}

#[test]
fn removing_the_active_skin_clears_it() {
    let mut cfg = AppConfig { active_skin: "a".to_string() };
    assert!(!cfg.forget_removed("b"));
    assert_eq!(cfg.active_skin, "a");
    assert!(cfg.forget_removed("a"));
    assert_eq!(cfg.active_skin, "");
    assert_eq!(cfg.active_theme("/x"), None);
}

#[test]
fn error_messages() {
    assert_eq!(SkinError::NotInstalled("pkg".to_string()).message(), "皮肤 pkg 不存在");
    assert_eq!(SkinError::CannotOpen("denied".to_string()).message(), "打开文件失败: denied");
    assert_eq!(
        SkinError::NotAPackage("bad".to_string()).message(),
        "不是有效的 .dshskin 包: bad"
    );
    assert_eq!(SkinError::Archive("broken".to_string()).message(), "broken");
    assert_eq!(SkinError::NoSkinJson.message(), "包内未找到 skin.json");
    assert_eq!(SkinError::InvalidAfterInstall.message(), "解压后 skin.json 无效");
    assert_eq!(SkinError::Io("disk full".to_string()).message(), "disk full");
    assert_eq!(SkinError::NoConfigDir.message(), "无效配置路径");
}

#[test]
fn test_build_inject_js() {
    let js = build_inject_js("body { background: red !important; }");
    assert!(js.contains("dsh-skin"));
    assert!(js.contains("body { background: red !important; }"));
    // CSS 中若有引号/换行也应被安全转义
    let js2 = build_inject_js("a { content: \"x\"; }\n b{}");
    assert!(js2.contains("\\\"x\\\""));
}

#[test]
fn inject_script_embeds_the_json_literal() {
    let js = build_inject_js("a\"b\nc");
    let expected = "(function() {\n  var old = document.getElementById('dsh-skin');\n  if (old) old.remove();\n  var s = document.createElement('style');\n  s.id = 'dsh-skin';\n  s.textContent = \"a\\\"b\\nc\";\n  document.head.appendChild(s);\n})();";
    assert_eq!(js, expected);
    assert!(build_inject_js("").contains("s.textContent = \"\";"));
}

#[test]
fn control_characters_are_escaped_in_hex() {
    assert!(build_inject_js("\u{1}").contains("s.textContent = \"\\u0001\";"));
    assert!(build_inject_js("\u{1f}").contains("s.textContent = \"\\u001f\";"));
    assert!(build_inject_js("\t\r\\").contains("s.textContent = \"\\t\\r\\\\\";"));
    assert!(build_inject_js("é/").contains("s.textContent = \"é/\";"));
}

#[test]
fn skin_ids_name_one_directory() {
    assert!(valid_skin_id("aurora-purple"));
    assert!(valid_skin_id("电光紫"));
    assert!(valid_skin_id("..x"));
    assert!(!valid_skin_id(""));
    assert!(!valid_skin_id("."));
    assert!(!valid_skin_id(".."));
    assert!(!valid_skin_id("a/b"));
    assert!(!valid_skin_id("/"));
}
