use pslmap::addr::IpAddress;
use pslmap::aggregate::aggregate;
use pslmap::aggregate::Protocol;
use pslmap::aggregate::ScanKind;
use pslmap::records::PingState;
use pslmap::records::PortState;
use pslmap::records::ResultRecord;
use pslmap::resolve::TargetParser;
use pslmap::target::AddressFamilyPreference;

fn v4(a: u8, b: u8, c: u8, d: u8) -> IpAddress {
    IpAddress::V4(
        ((a as u32) << 24) | ((b as u32) << 16) | ((c as u32) << 8) | (d as u32),
    )
}

fn ping(addr: IpAddress, up: bool, cost_ms: u64) -> ResultRecord {
    ResultRecord::Ping {
        addr,
        status: if up { PingState::Up } else { PingState::Down },
        cost_ms,
    }
}

#[test]
fn host_discovery_end_to_end() {
    let pref = AddressFamilyPreference::Ipv4First;
    let targets =
        TargetParser::target_from_input("10.0.0.1,10.0.0.2", Some("80,443".to_string()), pref)
            .unwrap();
    assert_eq!(targets.len(), 2);
    assert_eq!(targets[0].ports, vec![80, 443]);
    assert_eq!(targets[1].ports, vec![80, 443]);

    let records = vec![ping(v4(10, 0, 0, 1), true, 500), ping(v4(10, 0, 0, 2), false, 500)];
    let report = aggregate(ScanKind::HostDiscovery, &records, targets.len() as u64, 500);
    assert_eq!(
        report.lines,
        vec!["10.0.0.1 -> up (0.50s)".to_string(), "other 1 hosts -> down".to_string()]
    );
    assert_eq!(
        report.tail,
        "pslmap done: 2 ip addresses (1 hosts up) scanned in 0.50 seconds".to_string()
    );
    assert_eq!(report.hosts_up, 1);
    assert_eq!(report.hosts_not_up, 1);
}

#[test]
fn shuffling_records_gives_an_identical_report() {
    let records_one = vec![
        ping(v4(10, 0, 0, 3), true, 120),
        ping(v4(10, 0, 0, 1), true, 300),
        ping(v4(10, 0, 0, 2), false, 90),
        ResultRecord::Port { addr: v4(10, 0, 0, 1), port: 443, status: PortState::Open, cost_ms: 80 },
    ];
    let records_two = vec![
        records_one[3].clone(),
        records_one[2].clone(),
        records_one[0].clone(),
        records_one[1].clone(),
    ];
    let one = aggregate(ScanKind::HostDiscovery, &records_one, 4, 999);
    let two = aggregate(ScanKind::HostDiscovery, &records_two, 4, 999);
    assert_eq!(one, two);
}

#[test]
fn report_lines_are_sorted_by_address() {
    let records = vec![
        ping(v4(10, 0, 0, 2), true, 100),
        ping(IpAddress::V6(1), true, 100),
        ping(v4(10, 0, 0, 1), true, 100),
    ];
    let report = aggregate(ScanKind::HostDiscovery, &records, 3, 300);
    assert_eq!(
        report.lines,
        vec![
            "10.0.0.1 -> up (0.10s)".to_string(),
            "10.0.0.2 -> up (0.10s)".to_string(),
            "::1 -> up (0.10s)".to_string(),
        ]
    );
}

#[test]
fn records_sharing_a_key_collapse_to_the_least() {
    let records = vec![
        ResultRecord::Port { addr: v4(10, 0, 0, 1), port: 80, status: PortState::Open, cost_ms: 200 },
        ResultRecord::Port { addr: v4(10, 0, 0, 1), port: 80, status: PortState::Open, cost_ms: 100 },
    ];
    let report = aggregate(ScanKind::PortScan(Protocol::Tcp), &records, 1, 200);
    assert_eq!(report.lines, vec!["10.0.0.1:80/tcp -> open (0.10s)".to_string()]);
    assert_eq!(report.hosts_up, 1);
}

#[test]
fn port_lines_show_protocol_and_status_and_tally_open_only() {
    let records = vec![
        ResultRecord::Port { addr: v4(10, 0, 0, 1), port: 443, status: PortState::Closed, cost_ms: 50 },
        ResultRecord::Port { addr: v4(10, 0, 0, 1), port: 80, status: PortState::Open, cost_ms: 120 },
        ResultRecord::Port { addr: v4(10, 0, 0, 1), port: 8080, status: PortState::Filtered, cost_ms: 1234 },
    ];
    let report = aggregate(ScanKind::PortScan(Protocol::Udp), &records, 1, 1404);
    assert_eq!(
        report.lines,
        vec![
            "10.0.0.1:80/udp -> open (0.12s)".to_string(),
            "10.0.0.1:443/udp -> closed (0.05s)".to_string(),
            "10.0.0.1:8080/udp -> filtered (1.23s)".to_string(),
        ]
    );
    assert_eq!(report.hosts_up, 1);
    assert_eq!(report.hosts_not_up, 0);
    assert_eq!(
        report.tail,
        "pslmap done: 1 ip addresses (1 ports up) scanned in 1.40 seconds".to_string()
    );
}

#[test]
fn os_guess_lines_join_names_and_cpes() {
    let records = vec![ResultRecord::OsGuess {
        addr: v4(10, 0, 0, 9),
        names: vec!["Linux 5.4".to_string(), "FreeBSD".to_string()],
        cpes: vec!["cpe:a,cpe:b".to_string(), "cpe:c".to_string()],
        cost_ms: 1000,
    }];
    let report = aggregate(ScanKind::OsDetection, &records, 1, 1000);
    assert_eq!(
        report.lines,
        vec!["10.0.0.9 -> Linux 5.4|FreeBSD cpe:a,cpe:b|cpe:c (1.00s)".to_string()]
    );
    assert_eq!(report.tail, "pslmap done: scanned in 1.00 seconds".to_string());
}

#[test]
fn mac_answers_render_with_vendor_and_misses_collapse() {
    let records = vec![
        ResultRecord::Mac {
            addr: v4(192, 168, 1, 5),
            mac: Some("aa:bb:cc:dd:ee:ff".to_string()),
            ouis: "Vendor Inc".to_string(),
            cost_ms: 250,
        },
        ResultRecord::Mac {
            addr: v4(192, 168, 1, 6),
            mac: None,
            ouis: "".to_string(),
            cost_ms: 250,
        },
    ];
    let report = aggregate(ScanKind::HostDiscovery, &records, 2, 500);
    assert_eq!(
        report.lines,
        vec![
            "192.168.1.5 -> up (0.25s) (aa:bb:cc:dd:ee:ff) (Vendor Inc)".to_string(),
            "other 1 hosts -> down".to_string(),
        ]
    );
    assert_eq!(report.hosts_up, 1);
    assert_eq!(report.hosts_not_up, 1);
}

#[test]
fn elapsed_seconds_round_half_up_to_two_decimals() {
    let report = aggregate(
        ScanKind::HostDiscovery,
        &vec![ping(v4(1, 1, 1, 1), true, 5)],
        1,
        995,
    );
    assert_eq!(report.lines, vec!["1.1.1.1 -> up (0.01s)".to_string()]);
    assert_eq!(
        report.tail,
        "pslmap done: 1 ip addresses (1 hosts up) scanned in 1.00 seconds".to_string()
    );
}

#[test]
fn an_empty_batch_reports_only_the_tail() {
    let report = aggregate(ScanKind::HostDiscovery, &Vec::new(), 0, 10);
    assert_eq!(report.lines, Vec::<String>::new());
    assert_eq!(
        report.tail,
        "pslmap done: 0 ip addresses (0 hosts up) scanned in 0.01 seconds".to_string()
    );
    assert_eq!(report.hosts_up, 0);
    assert_eq!(report.hosts_not_up, 0);
}
