use wotwot::paths::{app_dir_in, default_address, join_path, sock_path, state_file_in, DEFAULT_PORT};
use wotwot::text::{has_ansi_escape, parse_u16, parse_usize};

#[test]
fn joins_like_pathbuf_push() {
    assert_eq!(join_path("/home/u/.config", "wotwot"), "/home/u/.config/wotwot");
    assert_eq!(join_path("/home/u/.config/", "wotwot"), "/home/u/.config/wotwot");
    assert_eq!(join_path("", "wotwot"), "wotwot");
    let mut p = std::path::PathBuf::from("/tmp/x");
    p.push("wotwot");
    assert_eq!(join_path("/tmp/x", "wotwot"), p.to_string_lossy());
}

#[test]
fn state_and_socket_paths() {
    assert_eq!(app_dir_in(None), "./wotwot");
    assert_eq!(app_dir_in(Some("/c")), "/c/wotwot");
    assert_eq!(state_file_in("/c/wotwot"), "/c/wotwot/state.json");
    assert_eq!(state_file_in("rel"), "rel/state.json");
}

#[test]
fn api_address_defaults_to_loopback_and_follows_wotwot_url() {
    assert_eq!(DEFAULT_PORT, 47291);
    assert_eq!(default_address(), "127.0.0.1:47291");
    assert_eq!(sock_path(None), "127.0.0.1:47291");
    assert_eq!(sock_path(Some("http://host:8080")), "host:8080");
    assert_eq!(sock_path(Some("http://10.0.0.2:9000/")), "10.0.0.2:9000");
    assert_eq!(sock_path(Some("box:1234")), "box:1234");
    assert_eq!(sock_path(Some("http://")), "");
}

#[test]
fn parses_numbers_like_std() {
    for s in ["0", "7", "+7", "007", "", "+", "-1", " 1", "1 ", "18446744073709551615", "18446744073709551616", "4294967296", "12a"] {
        assert_eq!(parse_usize(s), s.parse::<usize>().ok(), "{:?}", s);
    }
    for s in ["65535", "65536", "+200", "200x", "0"] {
        assert_eq!(parse_u16(s), s.parse::<u16>().ok(), "{:?}", s);
    }
}

#[test]
fn detects_ansi_escapes() {
    assert!(has_ansi_escape("\x1b[31mred\x1b[0m"));
    assert!(!has_ansi_escape("plain **md**"));
}
