use pslmap::addr::IpAddress;
use pslmap::classify::classify;
use pslmap::classify::AddressKind;
use pslmap::errors::ResolveError;
use pslmap::expand::expand;
use pslmap::expand::filter_by_family;
use pslmap::ports::parse_ports;
use pslmap::resolve::TargetParser;
use pslmap::target::AddressFamilyPreference;
use pslmap::target::Target;

fn v4(a: u8, b: u8, c: u8, d: u8) -> IpAddress {
    IpAddress::V4(
        ((a as u32) << 24) | ((b as u32) << 16) | ((c as u32) << 8) | (d as u32),
    )
}

#[test]
fn test_parser() {
    let test_targets = vec!["192.168.5.5-192.168.5.10", "192.168.5.5/24", "baidu.com"];
    let test_ports = vec!["80", "80-90", "80-90,5432", "80,81,143,443-445"];

    for t in &test_targets {
        for p in &test_ports {
            let ret = TargetParser::target_from_input(
                t,
                Some(p.to_string()),
                AddressFamilyPreference::Ipv4First,
            );
            println!("{:?}", ret);
            println!(">>>>>>>>>>>>>>>>>>>>>>>>>>>>>>>>>>>>>>>>>>>>>>>>>>>>>>>>");
        }
    }
}

#[test]
fn ports_empty_and_whitespace_are_no_ports() {
    assert_eq!(parse_ports("").unwrap(), Vec::<u16>::new());
    assert_eq!(parse_ports("   ").unwrap(), Vec::<u16>::new());
    assert_eq!(TargetParser::ports_parser(None).unwrap(), Vec::<u16>::new());
}

#[test]
fn ports_reversed_or_equal_range_is_a_range_order_error() {
    assert_eq!(
        parse_ports("90-80"),
        Err(ResolveError::RangeOrder("90-80".to_string()))
    );
    assert_eq!(
        parse_ports("80-80"),
        Err(ResolveError::RangeOrder("80-80".to_string()))
    );
}

#[test]
fn ports_are_the_ordered_union_of_the_pieces() {
    assert_eq!(parse_ports("80,90-92,70").unwrap(), vec![80, 90, 91, 92, 70]);
    assert_eq!(parse_ports("80,80-82").unwrap(), vec![80, 81, 82]);
    assert_eq!(parse_ports("80,81,143,443-445").unwrap(), vec![80, 81, 143, 443, 444, 445]);
    assert_eq!(parse_ports(" 80 , 81 ").unwrap(), vec![80, 81]);
    assert_eq!(parse_ports("80 - 82").unwrap(), vec![80, 81, 82]);
    assert_eq!(parse_ports("0,65535").unwrap(), vec![0, 65535]);
}

#[test]
fn ports_malformed_tokens_fail_naming_the_piece() {
    assert_eq!(
        parse_ports("abc"),
        Err(ResolveError::PortParse("abc".to_string()))
    );
    assert_eq!(
        parse_ports("80,65536"),
        Err(ResolveError::PortParse("65536".to_string()))
    );
    assert_eq!(
        parse_ports("80-"),
        Err(ResolveError::PortParse("80-".to_string()))
    );
    assert_eq!(
        parse_ports("80-90-100"),
        Err(ResolveError::PortParse("80-90-100".to_string()))
    );
}

#[test]
fn classify_recognizes_each_form() {
    assert_eq!(classify("10.0.0.1").unwrap(), AddressKind::Ipv4Literal);
    assert_eq!(classify("2001:db8::1").unwrap(), AddressKind::Ipv6Literal);
    assert_eq!(classify("::1").unwrap(), AddressKind::Ipv6Literal);
    assert_eq!(classify("192.168.5.0/30").unwrap(), AddressKind::Ipv4Subnet);
    assert_eq!(classify("2001:db8::/126").unwrap(), AddressKind::Ipv6Subnet);
    assert_eq!(
        classify("192.168.5.5-192.168.5.8").unwrap(),
        AddressKind::Ipv4Range
    );
    assert_eq!(classify("::1-::4").unwrap(), AddressKind::Ipv6Range);
    assert_eq!(classify("baidu.com").unwrap(), AddressKind::Domain);
    assert_eq!(classify("WWW.EXAMPLE.COM").unwrap(), AddressKind::Domain);
}

#[test]
fn classify_rejects_unrecognized_tokens() {
    assert_eq!(
        classify("300.300.300.300"),
        Err(ResolveError::AddressClassification("300.300.300.300".to_string()))
    );
    assert_eq!(
        classify("host.zzzz"),
        Err(ResolveError::AddressClassification("host.zzzz".to_string()))
    );
    assert_eq!(
        classify("10.0.0.01"),
        Err(ResolveError::AddressClassification("10.0.0.01".to_string()))
    );
}

#[test]
fn a_literal_expands_to_one_target_without_origin() {
    let ports = vec![80u16];
    let got = expand("10.0.0.1", &ports, AddressFamilyPreference::Ipv4First).unwrap();
    assert_eq!(
        got,
        vec![Target { address: v4(10, 0, 0, 1), ports: vec![80], origin: None }]
    );
    let got6 = expand("::1", &ports, AddressFamilyPreference::Ipv4First).unwrap();
    assert_eq!(
        got6,
        vec![Target { address: IpAddress::V6(1), ports: vec![80], origin: None }]
    );
}

#[test]
fn a_subnet_expands_to_its_full_block() {
    let ports = vec![443u16];
    let got = expand("192.168.5.0/30", &ports, AddressFamilyPreference::Ipv4First).unwrap();
    let origin = Some("192.168.5.0/30".to_string());
    assert_eq!(got.len(), 4);
    for (i, t) in got.iter().enumerate() {
        assert_eq!(t.address, v4(192, 168, 5, i as u8));
        assert_eq!(t.ports, vec![443]);
        assert_eq!(t.origin, origin);
    }
    // Host bits in the token do not shift the block.
    let same = expand("192.168.5.3/30", &ports, AddressFamilyPreference::Ipv4First).unwrap();
    assert_eq!(same.len(), 4);
    assert_eq!(same[0].address, v4(192, 168, 5, 0));
    assert_eq!(same[3].address, v4(192, 168, 5, 3));
}

#[test]
fn a_range_expands_inclusively_in_ascending_order() {
    let ports = Vec::new();
    let got = expand(
        "192.168.5.5-192.168.5.8",
        &ports,
        AddressFamilyPreference::Ipv4First,
    )
    .unwrap();
    assert_eq!(got.len(), 4);
    for (i, t) in got.iter().enumerate() {
        assert_eq!(t.address, v4(192, 168, 5, 5 + i as u8));
        assert_eq!(t.origin, Some("192.168.5.5-192.168.5.8".to_string()));
    }
    let got6 = expand("::1-::4", &ports, AddressFamilyPreference::Ipv4First).unwrap();
    assert_eq!(got6.len(), 4);
    for (i, t) in got6.iter().enumerate() {
        assert_eq!(t.address, IpAddress::V6(1 + i as u128));
    }
}

#[test]
fn a_reversed_range_is_a_range_order_error() {
    let ports = Vec::new();
    assert_eq!(
        expand(
            "192.168.5.10-192.168.5.5",
            &ports,
            AddressFamilyPreference::Ipv4First
        ),
        Err(ResolveError::RangeOrder("192.168.5.10-192.168.5.5".to_string()))
    );
}

#[test]
fn a_single_address_range_is_allowed() {
    let ports = Vec::new();
    let got = expand(
        "10.0.0.7-10.0.0.7",
        &ports,
        AddressFamilyPreference::Ipv4First,
    )
    .unwrap();
    assert_eq!(got.len(), 1);
    assert_eq!(got[0].address, v4(10, 0, 0, 7));
}

#[test]
fn the_family_preference_picks_one_family() {
    let answers = vec![
        v4(1, 2, 3, 4),
        IpAddress::V6(7),
        v4(5, 6, 7, 8),
        IpAddress::V6(9),
    ];
    let kept4 = filter_by_family(&answers, AddressFamilyPreference::Ipv4First);
    assert_eq!(kept4, vec![v4(1, 2, 3, 4), v4(5, 6, 7, 8)]);
    let kept6 = filter_by_family(&answers, AddressFamilyPreference::Ipv6First);
    assert_eq!(kept6, vec![IpAddress::V6(7), IpAddress::V6(9)]);
    assert_eq!(kept4.len() + kept6.len(), answers.len());
}

#[test]
fn resolving_a_list_concatenates_per_token_expansions() {
    let pref = AddressFamilyPreference::Ipv4First;
    let whole =
        TargetParser::target_from_input("10.0.0.1,10.0.0.2", Some("80".to_string()), pref)
            .unwrap();
    let ports = vec![80u16];
    let mut parts = expand("10.0.0.1", &ports, pref).unwrap();
    parts.extend(expand("10.0.0.2", &ports, pref).unwrap());
    assert_eq!(whole, parts);
}

#[test]
fn duplicate_targets_across_tokens_are_kept() {
    let pref = AddressFamilyPreference::Ipv4First;
    let got = TargetParser::target_from_input("10.0.0.1,10.0.0.1", None, pref).unwrap();
    assert_eq!(got.len(), 2);
    assert_eq!(got[0].address, got[1].address);
}

#[test]
fn an_empty_target_list_is_an_error() {
    let pref = AddressFamilyPreference::Ipv4First;
    assert_eq!(
        TargetParser::target_from_input("", None, pref),
        Err(ResolveError::EmptyTargetSet)
    );
    assert_eq!(
        TargetParser::target_from_input("   ", None, pref),
        Err(ResolveError::EmptyTargetSet)
    );
    assert_eq!(
        TargetParser::target_from_input(" , ,", None, pref),
        Err(ResolveError::EmptyTargetSet)
    );
}

#[test]
fn a_bad_port_expression_fails_the_whole_resolution() {
    let pref = AddressFamilyPreference::Ipv4First;
    assert_eq!(
        TargetParser::target_from_input("10.0.0.1", Some("80-80".to_string()), pref),
        Err(ResolveError::RangeOrder("80-80".to_string()))
    );
}

#[test]
fn a_bad_token_aborts_the_batch() {
    let pref = AddressFamilyPreference::Ipv4First;
    assert_eq!(
        TargetParser::target_from_input("10.0.0.1,not.a.zzzz", None, pref),
        Err(ResolveError::AddressClassification("not.a.zzzz".to_string()))
    );
}

#[test]
fn lines_resolve_in_file_order() {
    let pref = AddressFamilyPreference::Ipv4First;
    let lines = vec![
        "10.0.0.2".to_string(),
        "".to_string(),
        "10.0.0.1,10.0.0.3".to_string(),
    ];
    let got = TargetParser::target_from_lines(&lines, None, pref).unwrap();
    let addrs: Vec<IpAddress> = got.iter().map(|t| t.address).collect();
    assert_eq!(addrs, vec![v4(10, 0, 0, 2), v4(10, 0, 0, 1), v4(10, 0, 0, 3)]);
}

#[test]
fn empty_lines_resolve_to_the_empty_set_error() {
    let pref = AddressFamilyPreference::Ipv4First;
    let lines = vec!["".to_string(), "   ".to_string()];
    assert_eq!(
        TargetParser::target_from_lines(&lines, None, pref),
        Err(ResolveError::EmptyTargetSet)
    );
}

#[test]
fn an_ipv6_subnet_expands_to_its_full_block() {
    let ports = Vec::new();
    let got = expand("2001:db8::/126", &ports, AddressFamilyPreference::Ipv4First).unwrap();
    assert_eq!(got.len(), 4);
    assert_eq!(got[0].address, IpAddress::V6(0x20010db8u128 << 96));
    assert_eq!(got[3].address, IpAddress::V6((0x20010db8u128 << 96) | 3));
    assert_eq!(got[0].origin, Some("2001:db8::/126".to_string()));
}

#[test]
fn a_full_prefix_subnet_is_one_address() {
    let ports = Vec::new();
    let got = expand("10.0.0.1/32", &ports, AddressFamilyPreference::Ipv4First).unwrap();
    assert_eq!(got.len(), 1);
    assert_eq!(got[0].address, v4(10, 0, 0, 1));
}

#[test]
fn a_block_at_the_top_of_the_space_expands_fully() {
    let ports = Vec::new();
    let got = expand(
        "255.255.255.252/30",
        &ports,
        AddressFamilyPreference::Ipv4First,
    )
    .unwrap();
    assert_eq!(got.len(), 4);
    assert_eq!(got[0].address, v4(255, 255, 255, 252));
    assert_eq!(got[3].address, v4(255, 255, 255, 255));
}

#[test]
fn a_failed_domain_lookup_is_a_dns_error() {
    let pref = AddressFamilyPreference::Ipv4First;
    let got = TargetParser::target_from_input("no-such-host-aa-bb-cc.com", None, pref);
    assert_eq!(
        got,
        Err(ResolveError::Dns("no-such-host-aa-bb-cc.com".to_string()))
    );
}
