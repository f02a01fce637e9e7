use static_http::config::{parse_args, parse_port, Config, ConfigError};

fn args(text: &[&str]) -> Vec<String> {
    text.iter().map(|arg| arg.to_string()).collect()
}

fn settings(text: &[&str]) -> (String, u16, String) {
    let Config { port, address, directory } = parse_args(&args(text)).unwrap();
    (address, port, directory)
}

fn refused(text: &[&str]) -> ConfigError {
    match parse_args(&args(text)) {
        Ok(config) => panic!("accepted: {config:?}"),
        Err(e) => e,
    }
}

#[test]
fn args_defaults() {
    assert_eq!(settings(&[]), ("0.0.0.0".to_owned(), 8080, ".".to_owned()));
}

#[test]
fn args_each_option() {
    assert_eq!(
        settings(&["-b", "127.0.0.1"]),
        ("127.0.0.1".to_owned(), 8080, ".".to_owned())
    );
    assert_eq!(settings(&["-p", "80"]), ("0.0.0.0".to_owned(), 80, ".".to_owned()));
    assert_eq!(
        settings(&["-d", "/srv/www"]),
        ("0.0.0.0".to_owned(), 8080, "/srv/www".to_owned())
    );
}

#[test]
fn args_all_options_in_any_order() {
    assert_eq!(
        settings(&["-d", "site", "-p", "8000", "-b", "::1"]),
        ("::1".to_owned(), 8000, "site".to_owned())
    );
}

#[test]
fn args_later_option_replaces() {
    assert_eq!(
        settings(&["-p", "1", "-p", "2", "-d", "a", "-d", "b"]),
        ("0.0.0.0".to_owned(), 2, "b".to_owned())
    );
}

#[test]
fn args_value_may_look_like_an_option() {
    assert_eq!(
        settings(&["-d", "-p", "-b", "-d"]),
        ("-d".to_owned(), 8080, "-p".to_owned())
    );
}

#[test]
fn args_missing_value() {
    assert_eq!(refused(&["-b"]), ConfigError::MissingValue);
    assert_eq!(refused(&["-p"]), ConfigError::MissingValue);
    assert_eq!(refused(&["-d"]), ConfigError::MissingValue);
    assert_eq!(refused(&["-p", "80", "-d"]), ConfigError::MissingValue);
}

#[test]
fn args_bad_option() {
    assert_eq!(refused(&["--help"]), ConfigError::BadOption);
    assert_eq!(refused(&["-x", "1"]), ConfigError::BadOption);
    assert_eq!(refused(&[""]), ConfigError::BadOption);
    assert_eq!(refused(&["-p", "80", "extra"]), ConfigError::BadOption);
    assert_eq!(refused(&["-P", "80"]), ConfigError::BadOption);
}

#[test]
fn args_invalid_port() {
    assert_eq!(refused(&["-p", "http"]), ConfigError::InvalidPort);
    assert_eq!(refused(&["-p", "65536"]), ConfigError::InvalidPort);
    assert_eq!(refused(&["-p", "-1"]), ConfigError::InvalidPort);
    assert_eq!(refused(&["-p", ""]), ConfigError::InvalidPort);
}

#[test]
fn args_first_fault_decides() {
    assert_eq!(refused(&["-p", "x", "--bad"]), ConfigError::InvalidPort);
    assert_eq!(refused(&["--bad", "-p", "x"]), ConfigError::BadOption);
    assert_eq!(refused(&["-p", "1", "-q"]), ConfigError::BadOption);
}

#[test]
fn port_like_std() {
    let samples = [
        "0", "1", "80", "8080", "65535", "65536", "99999", "4294967296", "00080", "+80", "+", "-",
        "-0", "++1", "", " 80", "80 ", "8 0", "0x50", "1e3", "\u{664}", "12a", "+065535",
        "000000000000000000000000000001", "18446744073709551616",
    ];
    for sample in samples {
        assert_eq!(parse_port(sample), sample.parse::<u16>().ok(), "{sample:?}");
    }
}

#[test]
fn port_exact_values() {
    assert_eq!(parse_port("8080"), Some(8080));
    assert_eq!(parse_port("65535"), Some(65535));
    assert_eq!(parse_port("+7"), Some(7));
    assert_eq!(parse_port("007"), Some(7));
    assert_eq!(parse_port("65536"), None);
    assert_eq!(parse_port("port"), None);
}
