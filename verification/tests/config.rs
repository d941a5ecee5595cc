use erps::config::{
    get_url, parse_flag, parse_port, resolve, CommandLine, ConfigError, ServerSetting, Setting,
};

fn file() -> Setting {
    Setting {
        server_setting: Some(ServerSetting {
            server_ip: Some("10.0.0.1".to_string()),
            port: Some("1883".to_string()),
            sql_ip: Some("10.0.0.2".to_string()),
            mysql_account: Some("erps".to_string()),
            mysql_password: Some("pw".to_string()),
        }),
    }
}

fn line() -> CommandLine {
    CommandLine { server: None, port: None, client_id: None, backup: None }
}

#[test]
fn url_names_account_host_and_database() {
    assert!(file().has_database());
    assert_eq!(get_url(&file()), "mysql://erps:pw@10.0.0.2:3306/erps");
    assert!(!Setting { server_setting: None }.has_database());
}

#[test]
fn port_is_a_run_of_digits_up_to_65535() {
    assert_eq!(parse_port("1883"), Some(1883));
    assert_eq!(parse_port("0"), Some(0));
    assert_eq!(parse_port("00080"), Some(80));
    assert_eq!(parse_port("65535"), Some(65535));
    assert_eq!(parse_port("65536"), None);
    assert_eq!(parse_port("99999999999999999999"), None);
    assert_eq!(parse_port(""), None);
    assert_eq!(parse_port("18a3"), None);
    assert_eq!(parse_port("-1"), None);
    assert_eq!(parse_port("+80"), Some(80));
    assert_eq!(parse_port("+0"), Some(0));
    assert_eq!(parse_port("+65535"), Some(65535));
    assert_eq!(parse_port("+65536"), None);
    assert_eq!(parse_port("+"), None);
    assert_eq!(parse_port("++1"), None);
    assert_eq!(parse_port("+-1"), None);
    assert_eq!(parse_port("8+0"), None);
    assert_eq!(parse_port(" 80"), None);
    assert_eq!(parse_port("８０"), None);
}

#[test]
fn flag_is_true_or_false() {
    assert_eq!(parse_flag("true"), Some(true));
    assert_eq!(parse_flag("false"), Some(false));
    assert_eq!(parse_flag("True"), None);
    assert_eq!(parse_flag(""), None);
}

#[test]
fn file_settings_are_the_default() {
    let s = resolve(&line(), &file()).ok().unwrap();
    assert_eq!(s.server, "10.0.0.1");
    assert_eq!(s.port, 1883);
    assert_eq!(s.client_id, "Elo Rank Server");
    assert!(!s.backup);
}

#[test]
fn command_line_overrides_the_file() {
    let given = CommandLine {
        server: Some("broker".to_string()),
        port: Some("8883".to_string()),
        client_id: Some("standby".to_string()),
        backup: Some("true".to_string()),
    };
    let s = resolve(&given, &file()).ok().unwrap();
    assert_eq!(s.server, "broker");
    assert_eq!(s.port, 8883);
    assert_eq!(s.client_id, "standby");
    assert!(s.backup);
}

#[test]
fn each_config_error_has_its_input() {
    let none = Setting { server_setting: None };
    assert!(matches!(resolve(&line(), &none), Err(ConfigError::NoServer)));
    let only_server = CommandLine { server: Some("b".to_string()), ..line() };
    assert!(matches!(resolve(&only_server, &none), Err(ConfigError::NoPort)));
    let bad_port = CommandLine { port: Some("http".to_string()), ..line() };
    assert!(matches!(resolve(&bad_port, &file()), Err(ConfigError::BadPort)));
    let bad_flag = CommandLine { backup: Some("yes".to_string()), ..line() };
    assert!(matches!(resolve(&bad_flag, &file()), Err(ConfigError::BadFlag)));
}

#[test]
fn port_is_read_as_the_standard_parser_reads_it() {
    for text in ["", "+", "0", "+7", "007", "65535", "65536", "+065535", "-0", "1e3", "12 ", "+ 1"] {
        assert_eq!(parse_port(text), text.parse::<u16>().ok(), "{:?}", text);
    }
}
