use bluecsv::cli::{cli_command, parse_stream_flag, parse_unsigned, should_stream, CliCommand, StreamMode};
use bluecsv::release::{asset_name, binary_path, install_dir, release_tag, target_triple, HostArch, HostOs};

fn args(v: &[&str]) -> Vec<String> {
    v.iter().map(|s| s.to_string()).collect()
}

#[test]
fn stream_flags_are_taken_out_anywhere() {
    let (mode, rest) = parse_stream_flag(&args(&["bluecsv", "align", "--stream", "f.csv"]));
    assert_eq!(mode, StreamMode::Force);
    assert_eq!(rest, args(&["bluecsv", "align", "f.csv"]));
    let (mode, rest) = parse_stream_flag(&args(&["bluecsv", "--stream", "--no-stream", "unalign", "-"]));
    assert_eq!(mode, StreamMode::Never);
    assert_eq!(rest, args(&["bluecsv", "unalign", "-"]));
    let (mode, _) = parse_stream_flag(&args(&["bluecsv", "infer", "x"]));
    assert_eq!(mode, StreamMode::Auto);
}

#[test]
fn subcommands() {
    assert!(matches!(cli_command(&args(&["b", "align", "x.csv"])), CliCommand::Align(p) if p == "x.csv"));
    assert!(matches!(cli_command(&args(&["b", "unalign", "-"])), CliCommand::Unalign(p) if p == "-"));
    assert!(matches!(cli_command(&args(&["b", "infer", "y"])), CliCommand::Infer(p) if p == "y"));
    assert!(matches!(
        cli_command(&args(&["b", "stats", "y", "2"])),
        CliCommand::Stats(p, c) if p == "y" && c == "2"
    ));
    assert!(matches!(cli_command(&args(&["b", "stats", "y"])), CliCommand::Usage));
    assert!(matches!(cli_command(&args(&["b"])), CliCommand::Usage));
}

#[test]
fn streaming_decision() {
    assert!(!should_stream("-", StreamMode::Force, Some(1 << 40), 10));
    assert!(should_stream("f", StreamMode::Force, None, 10));
    assert!(!should_stream("f", StreamMode::Never, Some(1 << 40), 10));
    assert!(should_stream("f", StreamMode::Auto, Some(10), 10));
    assert!(!should_stream("f", StreamMode::Auto, Some(9), 10));
    assert!(!should_stream("f", StreamMode::Auto, None, 10));
}

#[test]
fn unsigned_numbers_read_like_std() {
    for s in ["0", "42", "+7", "007", "", "+", "-1", " 1", "1 ", "1a", "18446744073709551615", "18446744073709551616"] {
        assert_eq!(parse_unsigned(s, u64::MAX), s.parse::<u64>().ok(), "{s:?}");
    }
    assert_eq!(parse_unsigned("300", 255), None);
    assert_eq!(parse_unsigned("255", 255), Some(255));
}

#[test]
fn release_paths() {
    assert_eq!(target_triple(HostOs::Mac, HostArch::Aarch64), Ok("aarch64-apple-darwin"));
    assert_eq!(target_triple(HostOs::Linux, HostArch::X8664), Ok("x86_64-unknown-linux-gnu"));
    assert!(target_triple(HostOs::Windows, HostArch::X8664).unwrap_err().starts_with("no prebuilt"));
    assert_eq!(release_tag("0.6.3"), "v0.6.3");
    assert_eq!(asset_name("x86_64-apple-darwin"), "bluecsv-ls-x86_64-apple-darwin.tar.gz");
    assert_eq!(install_dir("0.6.3"), "bluecsv-ls-0.6.3");
    assert_eq!(binary_path("0.6.3"), "bluecsv-ls-0.6.3/bluecsv-ls");
}
