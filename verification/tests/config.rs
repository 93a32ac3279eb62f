use lntrn_compositor::config::{
    allowlist_entries, default_gap, default_outer_gap, read_icon_key, read_wallpaper_setting,
    reload_extra_allowlist, resolve_icon_name,
};
use lntrn_compositor::query::{sanitize, window_rects_response, WindowRow};
use lntrn_compositor::text::parse_i32;
use lntrn_compositor::trust::exe_is_trusted;

#[test]
fn icon_key_in_desktop_entry() {
    let f = "[Desktop Entry]\nName=Foo\nIcon = firefox \nExec=foo\n";
    assert_eq!(read_icon_key(f), Some("firefox".to_string()));
}

#[test]
fn icon_key_outside_entry_is_ignored() {
    let f = "[Desktop Action new]\nIcon=wrong\n[Desktop Entry]\nIconic=x\nIcon=\nIcon=right\r\n";
    assert_eq!(read_icon_key(f), Some("right".to_string()));
    assert_eq!(read_icon_key("[Other]\nIcon=x\n"), None);
    assert_eq!(read_icon_key(""), None);
}

#[test]
fn wallpaper_setting_in_appearance() {
    let t = "[general]\nwallpaper = \"/no\"\n[appearance]\ntheme = dark\nwallpaper = \"/home/u/pic.png\"\n";
    assert_eq!(read_wallpaper_setting(t), "/home/u/pic.png");
    assert_eq!(read_wallpaper_setting("[appearance]\nwallpaper\t=  x.jpg  \n"), "x.jpg");
    assert_eq!(read_wallpaper_setting("[appearance]\nwallpapers = \"a\"\n"), "");
    assert_eq!(read_wallpaper_setting(""), "");
}

#[test]
fn allowlist_entries_are_the_quoted_paths() {
    let t = "# trusted\npaths = [\"/usr/bin/a\", \"/opt/b\"]\n\n  \"/c\"  # \"/d\"\n";
    assert_eq!(
        allowlist_entries(t),
        vec!["/usr/bin/a".to_string(), "/opt/b".to_string(), "/c".to_string(), "/d".to_string()]
    );
    assert!(allowlist_entries("#\"/x\"\n").is_empty());
    reload_extra_allowlist();
}

#[test]
fn sanitize_replaces_delimiters() {
    assert_eq!(sanitize("a\tb\nc\rd"), "a b c d");
    assert_eq!(sanitize("plain"), "plain");
}

#[test]
fn gap_parsing_and_clamping() {
    assert_eq!(default_gap("12"), 12);
    assert_eq!(default_gap("abc"), 8);
    assert_eq!(default_gap(""), 8);
    assert_eq!(default_gap("-5"), 0);
    assert_eq!(default_gap("100"), 32);
    assert_eq!(default_gap("+7"), 7);
    assert_eq!(default_gap(" 7"), 8);
    assert_eq!(default_outer_gap("16"), 16);
}

#[test]
fn parse_i32_matches_std() {
    for s in ["0", "-0", "+1", "2147483647", "-2147483648", "2147483648", "-2147483649", "", "-", "+", "1a", "99999999999", "007"] {
        assert_eq!(parse_i32(s), s.parse::<i32>().ok(), "input {s:?}");
    }
}

#[test]
fn icon_name_resolution() {
    assert_eq!(resolve_icon_name("", Some("x".to_string())), None);
    assert_eq!(resolve_icon_name("foot", Some("terminal".to_string())), Some("terminal".to_string()));
    assert_eq!(resolve_icon_name("firefox", None), Some("firefox".to_string()));
}

fn row(x: i32, y: i32, w: i32, h: i32, app_id: &str, title: &str) -> WindowRow {
    WindowRow { x, y, w, h, app_id: app_id.to_string(), title: title.to_string() }
}

#[test]
fn query_reply_lists_windows_then_done() {
    let rows = vec![
        row(0, 0, 1920, 1080, "term", "shell"),
        row(-10, 20, 0, 50, "ghost", "no area"),
        row(-10, 20, 300, 200, "ed\tit", "a\nb"),
    ];
    assert_eq!(
        window_rects_response(&rows),
        "win:0\t0\t1920\t1080\tterm\tshell\nwin:-10\t20\t300\t200\ted it\ta b\ndone\n"
    );
}

#[test]
fn query_reply_without_windows_is_done() {
    assert_eq!(window_rects_response(&vec![]), "done\n");
    assert_eq!(window_rects_response(&vec![row(1, 1, 5, -1, "x", "y")]), "done\n");
    assert_eq!(window_rects_response(&vec![row(i32::MIN, 0, 1, 1, "", "")]), "win:-2147483648\t0\t1\t1\t\t\ndone\n");
}

#[test]
fn trust_under_bin_directory_by_component() {
    let none: Vec<String> = vec![];
    assert!(exe_is_trusted("/home/u/.lantern/bin/bar", Some("/home/u/.lantern/bin"), &none));
    assert!(!exe_is_trusted("/home/u/.lantern/binx/foo", Some("/home/u/.lantern/bin"), &none));
    assert!(!exe_is_trusted("/usr/bin/foo", Some("/home/u/.lantern/bin"), &none));
    assert!(!exe_is_trusted("/home/u/.lantern/bin/bar", None, &none));
}

#[test]
fn trust_by_allowlist_entry() {
    let list = vec!["/usr/bin/grim".to_string(), "/usr/bin/wl-copy".to_string()];
    assert!(exe_is_trusted("/usr/bin/wl-copy", None, &list));
    assert!(exe_is_trusted("/usr/bin/grim", Some("/home/u/.lantern/bin"), &list));
    assert!(exe_is_trusted("/usr//bin/grim", None, &list));
    assert!(!exe_is_trusted("/usr/bin/gri", None, &list));
}
