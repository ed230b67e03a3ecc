use moshcatty::cli::{
    console_window_size, drain_continues, initial_size, ioctl_window_size, on_stdin, parse_command_line,
    resize_after_probe, resize_probe_due, Command, StdinAction, StdinEvent,
};

fn args(a: &[&str]) -> Vec<String> {
    a.iter().map(|s| s.to_string()).collect()
}

fn connect(host: &str, port: &str) -> Command {
    Command::Connect { host: host.to_string(), port: port.to_string() }
}

#[test]
fn cli_host_and_port() {
    assert_eq!(parse_command_line(&args(&["example.org", "60001"])), connect("example.org", "60001"));
}

#[test]
fn cli_help_flags() {
    assert_eq!(parse_command_line(&args(&["-#"])), Command::Help);
    assert_eq!(parse_command_line(&args(&["--help"])), Command::Help);
    assert_eq!(parse_command_line(&args(&["h", "1", "--help"])), Command::Help);
}

#[test]
fn cli_too_few_positionals() {
    assert_eq!(parse_command_line(&args(&[])), Command::Usage);
    assert_eq!(parse_command_line(&args(&["host"])), Command::Usage);
    assert_eq!(parse_command_line(&args(&["-v", "host"])), Command::Usage);
}

#[test]
fn cli_options_are_dropped() {
    assert_eq!(parse_command_line(&args(&["-v", "h", "-x", "2"])), connect("h", "2"));
    assert_eq!(parse_command_line(&args(&["--", "h", "2", "extra"])), connect("h", "2"));
}

#[test]
fn cli_value_options_take_the_next_argument() {
    assert_eq!(
        parse_command_line(&args(&["-p", "60001", "-s", "x", "-c", "y", "h", "9"])),
        connect("h", "9")
    );
    // the value of -p is taken whatever it is, help flag included
    assert_eq!(parse_command_line(&args(&["-p", "--help", "h", "9"])), connect("h", "9"));
    assert_eq!(parse_command_line(&args(&["h", "9", "-p"])), connect("h", "9"));
}

#[test]
fn cli_non_ascii_arguments() {
    assert_eq!(parse_command_line(&args(&["hôte", "1"])), connect("hôte", "1"));
    assert_eq!(parse_command_line(&args(&["—p", "1"])), connect("—p", "1"));
}

#[test]
fn cli_initial_size() {
    assert_eq!(initial_size(None, None, None, None), (80, 24));
    assert_eq!(initial_size(Some(100), Some(90), None, Some(30)), (100, 30));
    assert_eq!(initial_size(None, Some(90), Some(40), Some(30)), (90, 40));
}

#[test]
fn cli_resize_after_probe() {
    assert_eq!(resize_after_probe((80, 24), Some(80), Some(24)), None);
    assert_eq!(resize_after_probe((80, 24), Some(81), Some(24)), Some((81, 24)));
    assert_eq!(resize_after_probe((80, 24), Some(80), Some(25)), Some((80, 25)));
    assert_eq!(resize_after_probe((80, 24), None, Some(25)), None);
    assert_eq!(resize_after_probe((80, 24), Some(81), None), None);
}

#[test]
fn cli_stdin_actions() {
    assert_eq!(on_stdin(StdinEvent::Data(b"ls".to_vec())), StdinAction::SendKeys(b"ls".to_vec()));
    assert_eq!(on_stdin(StdinEvent::Data(vec![])), StdinAction::Nothing);
    assert_eq!(on_stdin(StdinEvent::Eof), StdinAction::DrainAndStop);
    assert_eq!(on_stdin(StdinEvent::Empty), StdinAction::Nothing);
    assert_eq!(on_stdin(StdinEvent::Disconnected), StdinAction::Stop);
}

#[test]
fn cli_ioctl_window_size() {
    assert_eq!(ioctl_window_size(0, 132, 43), Some((132, 43)));
    assert_eq!(ioctl_window_size(-1, 132, 43), None);
    assert_eq!(ioctl_window_size(0, 0, 43), None);
    assert_eq!(ioctl_window_size(0, 132, 0), None);
}

#[test]
fn cli_console_window_size() {
    assert_eq!(console_window_size(0, 0, 119, 29), Some((120, 30)));
    assert_eq!(console_window_size(5, 5, 4, 10), None);
    // a reversed rectangle wraps round as the unsigned cast does
    assert_eq!(console_window_size(0, 0, -2, 0), Some((65535, 1)));
}

#[test]
fn cli_timing_decisions() {
    assert!(!resize_probe_due(250_000_000));
    assert!(resize_probe_due(250_000_001));
    assert!(drain_continues(1_999_999_999, false));
    assert!(!drain_continues(2_000_000_000, false));
    assert!(!drain_continues(0, true));
}
