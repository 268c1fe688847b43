use filexfer::{format_size, listing_names, parse_want_list, Config, DEFAULT_PORT};

#[test]
fn want_list_takes_first_word_of_each_line() {
    let text = "a.txt\n  b.bin  extra words\n\n   \nc.dat\r\nlast";
    assert_eq!(parse_want_list(text), vec!["a.txt", "b.bin", "c.dat", "last"]);
}

#[test]
fn want_list_of_empty_text_is_empty() {
    assert!(parse_want_list("").is_empty());
    assert!(parse_want_list("\n\n \t\n").is_empty());
}

#[test]
fn want_list_splits_on_unicode_white_space() {
    assert_eq!(parse_want_list("x\u{3000}y\nz\u{a0}w"), vec!["x", "z"]);
    assert_eq!(parse_want_list("日本語.txt 1\n"), vec!["日本語.txt"]);
}

#[test]
fn listing_keeps_two_word_lines() {
    let text = "a.txt 10B\nbad line here\nsingle\n b.bin\t2KB \nnul\0name 3B\n";
    assert_eq!(listing_names(text), vec!["a.txt", "b.bin"]);
}

#[test]
fn format_size_picks_largest_unit() {
    assert_eq!(format_size(0), "0B");
    assert_eq!(format_size(10), "10B");
    assert_eq!(format_size(1023), "1023B");
    assert_eq!(format_size(1024), "1KB");
    assert_eq!(format_size(2048), "2KB");
    assert_eq!(format_size(1536), "1KB");
    assert_eq!(format_size(5 * 1024 * 1024), "5MB");
    assert_eq!(format_size(3 * 1024 * 1024 * 1024), "3GB");
    assert_eq!(format_size(4096 * 1024 * 1024 * 1024), "4096GB");
    assert_eq!(format_size(u64::MAX), "17179869183GB");
}

#[test]
fn config_defaults_and_overrides() {
    let c = Config::from_settings(None, None);
    assert_eq!(c.ip, "0.0.0.0");
    assert_eq!(c.port, DEFAULT_PORT);
    assert_eq!(c.address(), "0.0.0.0:3000");
    let c = Config::from_settings(Some("127.0.0.1".to_string()), Some("8080".to_string()));
    assert_eq!(c.address(), "127.0.0.1:8080");
}
