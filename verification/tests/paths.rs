use dsh_desktop::paths::{
    app_data_dir, app_data_dir_in, components, config_path, config_path_in, file_name, join_path,
    path_within, skin_dir_in, skins_dir, skins_dir_in,
};
use std::path::{Component, Path};

fn std_components(p: &str) -> Vec<String> {
    Path::new(p)
        .components()
        .map(|c| match c {
            Component::RootDir => "/".to_string(),
            Component::CurDir => ".".to_string(),
            Component::ParentDir => "..".to_string(),
            Component::Normal(n) => n.to_string_lossy().to_string(),
            Component::Prefix(_) => unreachable!(),
        })
        .collect()
}

const SAMPLES: [&str; 18] = [
    "", "/", "//", ".", "./", "./a", "a/.", "a/./b", "..", "../x", "/a/../b", "a//b/", "/x/y",
    "skins", "skins/pkg", "skins/pkg/../../etc", "a/b/c.css", ".hidden/x",
];

#[test]
fn components_match_std() {
    for p in SAMPLES {
        assert_eq!(components(p), std_components(p), "components of {:?}", p);
    }
}

#[test]
fn join_matches_std() {
    for a in SAMPLES {
        for b in SAMPLES {
            let std = Path::new(a).join(b);
            assert_eq!(join_path(a, b), std.to_string_lossy(), "{:?} join {:?}", a, b);
        }
    }
}

#[test]
fn file_name_matches_std() {
    for p in SAMPLES {
        let std = Path::new(p).file_name().map(|n| n.to_string_lossy().to_string());
        assert_eq!(file_name(p), std, "file name of {:?}", p);
    }
}

#[test]
fn data_locations() {
    assert_eq!(app_data_dir_in(None), "./com.likun.dsh-desktop");
    assert_eq!(
        app_data_dir_in(Some("/home/u/.config".to_string())),
        "/home/u/.config/com.likun.dsh-desktop"
    );
    assert_eq!(skins_dir_in("/d"), "/d/skins");
    assert_eq!(config_path_in("/d/"), "/d/config.json");
    assert_eq!(skin_dir_in("/d/skins", "pkg"), "/d/skins/pkg");
}

#[test]
fn data_locations_follow_the_config_dir() {
    let expected = dirs::config_dir()
        .unwrap_or_else(|| ".".into())
        .join("com.likun.dsh-desktop");
    assert_eq!(app_data_dir(), expected.to_string_lossy());
    assert_eq!(skins_dir(), expected.join("skins").to_string_lossy());
    assert_eq!(config_path(), expected.join("config.json").to_string_lossy());
}

#[test]
fn staying_within_a_directory() {
    assert!(path_within("/s/pkg/a.css", "/s/pkg"));
    assert!(path_within("/s/pkg/a/b", "/s/pkg/"));
    assert!(!path_within("/s/pkg", "/s/pkg"));
    assert!(!path_within("/s/pkg/.", "/s/pkg"));
    assert!(!path_within("/s/pkg/../x", "/s/pkg"));
    assert!(!path_within("/s/pkg/a/../b", "/s/pkg"));
    assert!(!path_within("/etc/x", "/s/pkg"));
    for a in SAMPLES {
        for b in SAMPLES {
            if path_within(a, b) {
                assert!(Path::new(a).starts_with(b));
            }
        }
    }
}
