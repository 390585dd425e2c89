use ip_snipper::args::resolve;
use ip_snipper::args::usage_text;
use ip_snipper::args::Resolution;
use ip_snipper::args::UsageError;
use ip_snipper::digits::parse_u16;
use ip_snipper::digits::u16_to_dec;
use ip_snipper::ip::IpAddress;

fn argv(args: &[&str]) -> Vec<String> {
    args.iter().map(|a| a.to_string()).collect()
}

fn chars(s: &str) -> Vec<char> {
    s.chars().collect()
}

#[test]
fn help_flags_resolve_to_help() {
    assert_eq!(resolve(&argv(&["prog", "-h"])), Resolution::Help);
    assert_eq!(resolve(&argv(&["prog", "-help"])), Resolution::Help);
}

#[test]
fn bare_address_uses_four_workers() {
    let r = resolve(&argv(&["prog", "10.0.0.1"]));
    assert_eq!(
        r,
        Resolution::Run {
            target: IpAddress::V4 { o0: 10, o1: 0, o2: 0, o3: 1 },
            workers: 4,
        }
    );
}

#[test]
fn explicit_worker_count_is_taken() {
    let r = resolve(&argv(&["prog", "-j", "16", "10.0.0.1"]));
    assert_eq!(
        r,
        Resolution::Run {
            target: IpAddress::V4 { o0: 10, o1: 0, o2: 0, o3: 1 },
            workers: 16,
        }
    );
}

#[test]
fn worker_flag_without_address_is_a_usage_error() {
    assert_eq!(
        resolve(&argv(&["prog", "-j", "16"])),
        Resolution::Usage(UsageError::BadWorkerSyntax)
    );
}

#[test]
fn every_usage_error_has_an_input() {
    assert_eq!(resolve(&argv(&["prog"])), Resolution::Usage(UsageError::TooFew));
    assert_eq!(
        resolve(&argv(&["prog", "1.2.3.4", "x", "y", "z"])),
        Resolution::Usage(UsageError::TooMany)
    );
    assert_eq!(
        resolve(&argv(&["prog", "-j", "abc", "1.2.3.4"])),
        Resolution::Usage(UsageError::BadWorkerCount)
    );
    assert_eq!(
        resolve(&argv(&["prog", "-j", "8", "not-an-ip"])),
        Resolution::Usage(UsageError::BadIp)
    );
    assert_eq!(
        resolve(&argv(&["prog", "nonsense"])),
        Resolution::Usage(UsageError::BadIp)
    );
}

#[test]
fn help_wins_in_position_one() {
    assert_eq!(resolve(&argv(&["prog", "-h", "10.0.0.1"])), Resolution::Help);
}

#[test]
fn six_workers_over_v6_loopback() {
    let r = resolve(&argv(&["prog", "-j", "6", "::1"]));
    assert_eq!(
        r,
        Resolution::Run {
            target: IpAddress::V6 { s0: 0, s1: 0, s2: 0, s3: 0, s4: 0, s5: 0, s6: 0, s7: 1 },
            workers: 6,
        }
    );
}

#[test]
fn usage_error_messages_match_the_diagnostics() {
    assert_eq!(
        UsageError::TooFew.message(),
        "Not enough arguments. Use -h or -help for usage instructions."
    );
    assert_eq!(UsageError::TooMany.message(), "Too many arguments.");
    assert_eq!(UsageError::BadWorkerSyntax.message(), "Usage: -j <num_threads> <IP>");
    assert_eq!(UsageError::BadWorkerCount.message(), "Invalid thread count");
    assert_eq!(UsageError::BadIp.message(), "Invalid IP address");
}

#[test]
fn usage_text_names_the_three_forms() {
    let text = usage_text();
    assert!(text.starts_with("Usage: "));
    assert!(text.contains("-h or -help"));
    assert!(text.contains("<IP>"));
    assert!(text.contains("-j <num_threads> <IP>"));
}

#[test]
fn decimal_worker_counts_parse_like_std() {
    assert_eq!(parse_u16(&chars("0")), Some(0));
    assert_eq!(parse_u16(&chars("4")), Some(4));
    assert_eq!(parse_u16(&chars("+123")), Some(123));
    assert_eq!(parse_u16(&chars("65535")), Some(65535));
    assert_eq!(parse_u16(&chars("000065535")), Some(65535));
    assert_eq!(parse_u16(&chars("65536")), None);
    assert_eq!(parse_u16(&chars("")), None);
    assert_eq!(parse_u16(&chars("+")), None);
    assert_eq!(parse_u16(&chars("12a")), None);
    assert_eq!(parse_u16(&chars("-1")), None);
    assert_eq!(parse_u16(&chars("1 ")), None);
}

#[test]
fn decimal_rendering_has_no_leading_zeros() {
    assert_eq!(u16_to_dec(0), "0");
    assert_eq!(u16_to_dec(7), "7");
    assert_eq!(u16_to_dec(10), "10");
    assert_eq!(u16_to_dec(1024), "1024");
    assert_eq!(u16_to_dec(65535), "65535");
}
