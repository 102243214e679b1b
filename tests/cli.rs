use keks_meet::assets::GrassFs;
use keks_meet::cli::{file_resource, port_resource, to_decimal, DownloadHandler};
use keks_meet::config::{css_overrides, AppearanceConfig};
use keks_meet::protocol::ProvideInfo;

fn labelled(label: Option<&str>) -> ProvideInfo {
    ProvideInfo {
        id: "f".to_string(),
        kind: "file".to_string(),
        track_kind: None,
        label: label.map(|l| l.to_string()),
        size: Some(3),
    }
}

#[test]
fn download_path_chosen() {
    let h = DownloadHandler { path: Some("/tmp/out".to_string()) };
    assert_eq!(h.target_path(&labelled(Some("x"))), "/tmp/out");
}

#[test]
fn download_path_sanitized() {
    let h = DownloadHandler { path: None };
    assert_eq!(h.target_path(&labelled(Some("../../etc/passwd"))), "____etc_passwd");
    assert_eq!(h.target_path(&labelled(Some("a...b"))), "a_.b");
    assert_eq!(h.target_path(&labelled(Some("notes.txt"))), "notes.txt");
    assert_eq!(h.target_path(&labelled(None)), "download");
}

#[test]
fn decimal_formatting() {
    assert_eq!(to_decimal(0), "0");
    assert_eq!(to_decimal(8080), "8080");
    assert_eq!(to_decimal(u64::MAX), "18446744073709551615");
}

#[test]
fn port_resource_defaults() {
    let r = port_resource(8080, None);
    assert_eq!(r.id, "p8080");
    assert_eq!(r.kind, "port");
    assert_eq!(r.label, Some("port 8080".to_string()));
    assert_eq!(r.size, None);
    assert_eq!(port_resource(22, Some("ssh".to_string())).id, "ssh");
}

#[test]
fn file_resource_defaults() {
    let r = file_resource("a.txt".to_string(), 12, None);
    assert_eq!(r.id, "file");
    assert_eq!(r.kind, "file");
    assert_eq!(r.label, Some("a.txt".to_string()));
    assert_eq!(r.size, Some(12));
}

#[test]
fn style_path_mapping() {
    assert_eq!(GrassFs::map("/master.sass"), Some("../client-web/style/master.sass".to_string()));
    assert_eq!(GrassFs::map("a/b/_x.sass"), Some("../client-web/style/_x.sass".to_string()));
    assert_eq!(GrassFs::map("plain"), Some("../client-web/style/plain".to_string()));
    assert_eq!(GrassFs::map("a/b/"), Some("../client-web/style/b".to_string()));
    assert_eq!(GrassFs::map("a/b/."), Some("../client-web/style/b".to_string()));
    assert_eq!(GrassFs::map("a/b/.//"), Some("../client-web/style/b".to_string()));
    assert_eq!(GrassFs::map("."), None);
    assert_eq!(GrassFs::map("./"), None);
    assert_eq!(GrassFs::map(""), None);
    assert_eq!(GrassFs::map("/"), None);
    assert_eq!(GrassFs::map("a/.."), None);
}

#[test]
fn css_overrides_text() {
    let a = AppearanceConfig {
        accent: "#a00".to_string(),
        accent_light: "#f00".to_string(),
        accent_dark: "#500".to_string(),
        background: "#111".to_string(),
        background_dark: "#000".to_string(),
        background_light: "#222".to_string(),
    };
    assert_eq!(
        css_overrides(&a),
        ":root {\n--bg: #111;\n--bg-dark: #000;\n--bg-light: #222;\n--ac: #a00;\n--ac-dark: #500;\n--ac-dark-transparent: #500c9;\n--ac-light: #f00;\n}\n"
    );
}
