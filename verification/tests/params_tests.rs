use tcping::params::{select_address, CmdLineOpt, OptionMap, ParamError, ProgParameters};

fn args(words: &[&str]) -> Vec<String> {
    words.iter().map(|w| w.to_string()).collect()
}

fn parsed(words: &[&str]) -> Result<ProgParameters, ParamError> {
    ProgParameters::new(&args(words))
}

#[test]
fn all_options_given() {
    let p = parsed(&["tcping", "-h", "example.org", "-p", "443", "-i", "7", "-t", "3", "-w", "2"]).unwrap();
    assert_eq!(p.target_host, "example.org");
    assert_eq!(p.target_port, "443");
    assert_eq!(p.interval_count, 7);
    assert_eq!(p.connection_timeout, 3);
    assert_eq!(p.wait_interval, 2);
}

#[test]
fn options_in_any_order() {
    let p = parsed(&["tcping", "-w", "9", "-i", "1", "-p", "80", "-t", "4", "-h", "::1"]).unwrap();
    assert_eq!(
        p,
        ProgParameters {
            target_host: "::1".to_string(),
            target_port: "80".to_string(),
            interval_count: 1,
            connection_timeout: 4,
            wait_interval: 9,
        }
    );
}

#[test]
fn timeout_and_wait_have_defaults() {
    let p = parsed(&["tcping", "-h", "localhost", "-p", "22", "-i", "3"]).unwrap();
    assert_eq!(p.connection_timeout, 5);
    assert_eq!(p.wait_interval, 1);
}

#[test]
fn zero_seconds_are_raised_to_one() {
    let p = parsed(&["tcping", "-h", "localhost", "-p", "22", "-i", "3", "-t", "0", "-w", "0"]).unwrap();
    assert_eq!(p.connection_timeout, 1);
    assert_eq!(p.wait_interval, 1);
}

#[test]
fn large_seconds_are_kept() {
    let p = parsed(&["x", "-h", "a", "-p", "1", "-i", "4294967295", "-t", "18446744073709551615", "-w", "86400"]).unwrap();
    assert_eq!(p.interval_count, u32::MAX);
    assert_eq!(p.connection_timeout, u64::MAX);
    assert_eq!(p.wait_interval, 86_400);
}

#[test]
fn the_last_of_a_repeated_option_counts() {
    let p = parsed(&["tcping", "-h", "first", "-i", "1", "-p", "80", "-h", "second", "-i", "2"]).unwrap();
    assert_eq!(p.target_host, "second");
    assert_eq!(p.interval_count, 2);
}

#[test]
fn what_follows_an_option_is_its_value() {
    let p = parsed(&["tcping", "-h", "-p", "-p", "-h", "-i", "2"]).unwrap();
    assert_eq!(p.target_host, "-p");
    assert_eq!(p.target_port, "-h");
}

#[test]
fn no_words_at_all() {
    assert_eq!(parsed(&[]), Err(ParamError::InvalidParameters));
}

#[test]
fn program_name_alone_misses_intervals() {
    assert_eq!(parsed(&["tcping"]), Err(ParamError::MissingIntervals));
}

#[test]
fn unknown_option_is_rejected() {
    assert_eq!(parsed(&["tcping", "-x", "1"]), Err(ParamError::InvalidParameters));
    assert_eq!(parsed(&["tcping", "-h", "a", "-p", "1", "-i", "1", "--help"]), Err(ParamError::InvalidParameters));
    assert_eq!(parsed(&["tcping", "-h", "a", "-p", "1", "-i", "1", "-H", "b"]), Err(ParamError::InvalidParameters));
    assert_eq!(parsed(&["tcping", "host", "-p", "1", "-i", "1"]), Err(ParamError::InvalidParameters));
    assert_eq!(parsed(&["tcping", "", "x"]), Err(ParamError::InvalidParameters));
    assert_eq!(parsed(&["tcping", "-", "x"]), Err(ParamError::InvalidParameters));
    assert_eq!(parsed(&["tcping", "-hh", "x"]), Err(ParamError::InvalidParameters));
    assert_eq!(parsed(&["tcping", "-\u{e9}", "x"]), Err(ParamError::InvalidParameters));
}

#[test]
fn dangling_option_is_rejected() {
    assert_eq!(parsed(&["tcping", "-h"]), Err(ParamError::InvalidParameters));
    assert_eq!(parsed(&["tcping", "-h", "a", "-p", "1", "-i", "1", "-w"]), Err(ParamError::InvalidParameters));
}

#[test]
fn pairing_comes_before_anything_else() {
    assert_eq!(parsed(&["tcping", "-i", "zero", "-q", "1"]), Err(ParamError::InvalidParameters));
}

#[test]
fn intervals_are_required() {
    assert_eq!(parsed(&["tcping", "-h", "a", "-p", "1"]), Err(ParamError::MissingIntervals));
}

#[test]
fn intervals_must_be_a_number() {
    for bad in ["", "x", "-1", "1.5", "4294967296", " 1", "1 "] {
        assert_eq!(parsed(&["tcping", "-h", "a", "-p", "1", "-i", bad]), Err(ParamError::InvalidInterval));
    }
}

#[test]
fn zero_intervals_are_rejected() {
    assert_eq!(parsed(&["tcping", "-h", "a", "-p", "1", "-i", "0"]), Err(ParamError::NeedAtLeastOneInterval));
    assert_eq!(parsed(&["tcping", "-h", "a", "-p", "1", "-i", "+000"]), Err(ParamError::NeedAtLeastOneInterval));
}

#[test]
fn wait_must_be_a_number() {
    for bad in ["", "x", "-1", "-0", "1.5", "18446744073709551616"] {
        assert_eq!(parsed(&["tcping", "-h", "a", "-p", "1", "-i", "1", "-w", bad]), Err(ParamError::InvalidWait));
    }
}

#[test]
fn timeout_must_be_a_number() {
    for bad in ["", "x", "-1", "-0", "1.5", "18446744073709551616"] {
        assert_eq!(parsed(&["tcping", "-h", "a", "-p", "1", "-i", "1", "-t", bad]), Err(ParamError::InvalidTimeout));
    }
}

#[test]
fn faults_are_reported_in_a_fixed_order() {
    assert_eq!(parsed(&["tcping", "-i", "x", "-w", "x", "-t", "x"]), Err(ParamError::InvalidInterval));
    assert_eq!(parsed(&["tcping", "-i", "0", "-w", "x", "-t", "x"]), Err(ParamError::NeedAtLeastOneInterval));
    assert_eq!(parsed(&["tcping", "-i", "1", "-w", "x", "-t", "x"]), Err(ParamError::InvalidWait));
    assert_eq!(parsed(&["tcping", "-i", "1", "-w", "1", "-t", "x"]), Err(ParamError::InvalidTimeout));
    assert_eq!(parsed(&["tcping", "-i", "1", "-w", "1", "-t", "1"]), Err(ParamError::HostRequired));
    assert_eq!(parsed(&["tcping", "-i", "1", "-w", "1", "-t", "1", "-p", "1"]), Err(ParamError::HostRequired));
    assert_eq!(parsed(&["tcping", "-i", "1", "-w", "1", "-t", "1", "-h", "a"]), Err(ParamError::PortRequired));
}

#[test]
fn host_and_port_are_kept_as_given() {
    let p = parsed(&["tcping", "-h", "Ex\u{e4}mple.ORG", "-p", "http", "-i", "1"]).unwrap();
    assert_eq!(p.target_host, "Ex\u{e4}mple.ORG");
    assert_eq!(p.target_port, "http");
    assert_eq!(p.endpoint(), "Ex\u{e4}mple.ORG:http");
}

#[test]
fn endpoint_joins_host_and_port() {
    let p = parsed(&["tcping", "-h", "127.0.0.1", "-p", "8080", "-i", "1"]).unwrap();
    assert_eq!(p.endpoint(), "127.0.0.1:8080");
}

#[test]
fn scan_collects_the_values() {
    let map = OptionMap::scan(&args(&["tcping", "-t", "a", "-w", "b", "-t", "c"])).unwrap();
    assert_eq!(map.get(CmdLineOpt::TimeOut), Some(&"c".to_string()));
    assert_eq!(map.get(CmdLineOpt::Wait), Some(&"b".to_string()));
    assert_eq!(map.get(CmdLineOpt::HostName), None);
    assert_eq!(map.get(CmdLineOpt::PortVal), None);
    assert_eq!(map.get(CmdLineOpt::Intervals), None);
}

#[test]
fn option_map_insert_replaces() {
    let mut map = OptionMap::new();
    assert_eq!(map.get(CmdLineOpt::PortVal), None);
    map.insert(CmdLineOpt::PortVal, "1".to_string());
    map.insert(CmdLineOpt::HostName, "h".to_string());
    map.insert(CmdLineOpt::PortVal, "2".to_string());
    assert_eq!(map.get(CmdLineOpt::PortVal), Some(&"2".to_string()));
    assert_eq!(map.get(CmdLineOpt::HostName), Some(&"h".to_string()));
    assert_eq!(map.get(CmdLineOpt::Wait), None);
}

#[test]
fn usage_text() {
    let usage = ProgParameters::get_usage();
    assert!(usage.starts_with("tcping -h -p -i -t -w\n\n \t-h\t(required) Host name, ipv4, or ipv6 address\n"));
    assert!(usage.ends_with(" \t-w\tWait Interval. Wait between intervals in seconds (Default: 1)\n"));
    assert_eq!(usage.lines().count(), 7);
    assert!(usage.contains("\n \t-p\t(required) Port (1-65535)\n"));
    assert!(usage.contains("\n \t-i\t(required) Intervals.  Number of tests to run before exit\n"));
    assert!(usage.contains("\n \t-t\tConnection Timeout. Wait before failing connection attempt (Default: OS Defined)\n"));
}

#[test]
fn fault_messages() {
    assert_eq!(ParamError::InvalidParameters.message(), "Invalid Parameters");
    assert_eq!(ParamError::InvalidInterval.message(), "Invalid Interval");
    assert_eq!(ParamError::MissingIntervals.message(), "Missing Intervals argument");
    assert_eq!(ParamError::NeedAtLeastOneInterval.message(), "Need at least 1 Interval");
    assert_eq!(ParamError::InvalidWait.message(), "Invalid Wait");
    assert_eq!(ParamError::InvalidTimeout.message(), "Invalid Timeout");
    assert_eq!(ParamError::HostRequired.message(), "Host required!");
    assert_eq!(ParamError::PortRequired.message(), "Port required!");
    assert_eq!(ParamError::InvalidHostPort.message(), "Invalid host/port");
    assert_eq!(ParamError::UnresolvableHostPort.message(), "Unresolvable host/port");
}

#[test]
fn failed_lookup_is_an_invalid_host_port() {
    assert_eq!(select_address::<u16>(None), Err(ParamError::InvalidHostPort));
}

#[test]
fn empty_lookup_is_unresolvable() {
    assert_eq!(select_address::<u16>(Some(vec![])), Err(ParamError::UnresolvableHostPort));
}

#[test]
fn first_address_found_is_chosen() {
    assert_eq!(select_address(Some(vec![7u16])), Ok(7));
    assert_eq!(select_address(Some(vec!["a".to_string(), "b".to_string(), "c".to_string()])), Ok("a".to_string()));
}
