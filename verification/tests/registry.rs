use pslmap::addr::ipv4_to_string;
use pslmap::addr::ipv6_to_string;
use pslmap::addr::parse_ipv4;
use pslmap::addr::parse_ipv6;
use pslmap::methods::log_level_parser;
use pslmap::methods::LogLevel;
use pslmap::strings::u64_to_dec;
use pslmap::tld::get_all_tlds;
use pslmap::tld::is_recognized_tld;

#[test]
fn the_registry_holds_the_common_labels() {
    let tlds = get_all_tlds();
    assert!(tlds.iter().any(|t| t == "com"));
    assert!(tlds.iter().any(|t| t == "net"));
    assert!(tlds.iter().any(|t| t == "io"));
}

#[test]
fn tld_matching_ignores_ascii_case() {
    assert!(is_recognized_tld("com"));
    assert!(is_recognized_tld("COM"));
    assert!(is_recognized_tld("CoM"));
    assert!(!is_recognized_tld("zzzz"));
    assert!(!is_recognized_tld(""));
}

#[test]
fn log_levels_parse_case_insensitively_with_a_silent_default() {
    assert_eq!(log_level_parser("debug"), LogLevel::Debug);
    assert_eq!(log_level_parser("DEBUG"), LogLevel::Debug);
    assert_eq!(log_level_parser("warn"), LogLevel::Warn);
    assert_eq!(log_level_parser("Info"), LogLevel::Info);
    assert_eq!(log_level_parser("none"), LogLevel::Silent);
    assert_eq!(log_level_parser("garbage"), LogLevel::Silent);
}

#[test]
fn ipv4_literals_parse_and_render_exactly() {
    assert_eq!(parse_ipv4("10.0.0.1"), Some(0x0A000001));
    assert_eq!(parse_ipv4("255.255.255.255"), Some(0xFFFFFFFF));
    assert_eq!(parse_ipv4("0.0.0.0"), Some(0));
    assert_eq!(parse_ipv4("256.0.0.1"), None);
    assert_eq!(parse_ipv4("10.0.0"), None);
    assert_eq!(parse_ipv4("10.0.0.01"), None);
    assert_eq!(parse_ipv4("10.0.0.1.2"), None);
    assert_eq!(ipv4_to_string(0x0A000001), "10.0.0.1".to_string());
    assert_eq!(ipv4_to_string(0xFFFFFFFF), "255.255.255.255".to_string());
}

#[test]
fn ipv6_literals_parse_both_forms() {
    assert_eq!(parse_ipv6("::1"), Some(1));
    assert_eq!(parse_ipv6("::"), Some(0));
    assert_eq!(
        parse_ipv6("1:2:3:4:5:6:7:8"),
        Some(0x00010002000300040005000600070008)
    );
    assert_eq!(parse_ipv6("2001:db8::1"), Some(0x20010db8000000000000000000000001));
    assert_eq!(parse_ipv6("fe80::"), Some(0xfe800000000000000000000000000000));
    assert_eq!(parse_ipv6("ABCD::ef"), Some(0xabcd00000000000000000000000000ef));
    assert_eq!(parse_ipv6("1:2:3:4:5:6:7:8:9"), None);
    assert_eq!(parse_ipv6("1::2::3"), None);
    assert_eq!(parse_ipv6(":1:2:3:4:5:6:7"), None);
    assert_eq!(parse_ipv6("12345::"), None);
    assert_eq!(parse_ipv6("1:2:3:4:5:6:7"), None);
    assert_eq!(parse_ipv6("::ffff:1.2.3.4"), None);
}

#[test]
fn ipv6_renders_with_zero_run_compression() {
    assert_eq!(ipv6_to_string(0), "::".to_string());
    assert_eq!(ipv6_to_string(1), "::1".to_string());
    assert_eq!(
        ipv6_to_string(0x20010db8000000000000000000000001),
        "2001:db8::1".to_string()
    );
    assert_eq!(
        ipv6_to_string(0xfe800000000000000000000000000000),
        "fe80::".to_string()
    );
    // A single zero group is written out, not compressed.
    assert_eq!(
        ipv6_to_string(0x00010000000200030004000500060007),
        "1:0:2:3:4:5:6:7".to_string()
    );
    // Of two equal runs, the leftmost is compressed.
    assert_eq!(
        ipv6_to_string(0x00010000000000020003000000000004),
        "1::2:3:0:0:4".to_string()
    );
    assert_eq!(
        ipv6_to_string(0x00010002000300040005000600070008),
        "1:2:3:4:5:6:7:8".to_string()
    );
}

#[test]
fn decimal_rendering_has_no_leading_zeros() {
    assert_eq!(u64_to_dec(0), "0".to_string());
    assert_eq!(u64_to_dec(65535), "65535".to_string());
    assert_eq!(u64_to_dec(18446744073709551615), "18446744073709551615".to_string());
}
