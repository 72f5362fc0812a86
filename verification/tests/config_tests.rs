use currentcost::config::{
    directory_or_here, get_path_to_bin_location, Config, ConfigError, ConnectConfig,
    DatabaseConfig,
};
use currentcost::settings::{flag_under, integer_under, text_under};
use std::path::Path;
use toml::Value;

fn words(args: &[&str]) -> Vec<String> {
    args.iter().map(|a| String::from(*a)).collect()
}

fn parsed(text: &str) -> Value {
    text.parse::<Value>().unwrap()
}

const SETTINGS: &str = r#"
[serial]
port = "/dev/ttyUSB0"
bit_rate = 57600
timeout = 5

[logging]
data_log_output_dir = "out"
data_log = "data.log"
connect_debug_log_location = "logs"
connect_debug_log = "debug.log"

[database]
ignore_db = false
db_name = "currentcost"
hostname = "localhost"
user = "pi"
"#;

#[test]
fn database_settings_are_looked_up() {
    let database = DatabaseConfig::new(&parsed(SETTINGS)["database"]).unwrap();
    assert!(database.use_database());
    assert_eq!(database.database_name(), "currentcost");
    assert_eq!(database.host(), "localhost");
    assert_eq!(database.user(), "pi");
    let ignored = parsed("ignore_db = true\ndb_name = \"a\"\nhostname = \"b\"\nuser = \"c\"");
    assert!(!DatabaseConfig::new(&ignored).unwrap().use_database());
}

#[test]
fn database_settings_must_all_be_there() {
    for text in [
        "",
        "db_name = \"a\"\nhostname = \"b\"\nuser = \"c\"",
        "ignore_db = true\nhostname = \"b\"\nuser = \"c\"",
        "ignore_db = true\ndb_name = \"a\"\nuser = \"c\"",
        "ignore_db = true\ndb_name = \"a\"\nhostname = \"b\"",
        "ignore_db = \"true\"\ndb_name = \"a\"\nhostname = \"b\"\nuser = \"c\"",
        "ignore_db = true\ndb_name = 1\nhostname = \"b\"\nuser = \"c\"",
    ] {
        assert_eq!(DatabaseConfig::new(&parsed(text)).unwrap_err(), ConfigError::MissingSetting);
    }
    assert_eq!(
        DatabaseConfig::new(&Value::Integer(5)).unwrap_err(),
        ConfigError::MissingSetting
    );
}

#[test]
fn database_settings_from_their_parts() {
    let database = DatabaseConfig::from_parts(false, "currentcost", "localhost", "pi");
    assert!(database.use_database());
    assert_eq!(database.database_name(), "currentcost");
    assert_eq!(database.host(), "localhost");
    assert_eq!(database.user(), "pi");
    assert!(!DatabaseConfig::from_parts(true, "a", "b", "c").use_database());
}

#[test]
fn run_settings_need_the_name_of_the_log() {
    assert_eq!(
        Config::new(&words(&[]), SETTINGS).unwrap_err(),
        ConfigError::NotEnoughArguments
    );
    assert_eq!(
        Config::new(&words(&["store"]), "not toml at all =").unwrap_err(),
        ConfigError::NotEnoughArguments
    );
    let config = Config::new(&words(&["store", "data.log", "more"]), SETTINGS).unwrap();
    assert_eq!(config.filename, "data.log");
    assert!(config.database.use_database());
    assert_eq!(config.database.user(), "pi");
}

#[test]
fn run_settings_need_the_store_in_toml() {
    let args = words(&["store", "data.log"]);
    assert_eq!(Config::new(&args, "[database").unwrap_err(), ConfigError::MalformedSettings);
    assert_eq!(Config::new(&args, "").unwrap_err(), ConfigError::MissingSetting);
    assert_eq!(
        Config::new(&args, "[database]\nignore_db = true").unwrap_err(),
        ConfigError::MissingSetting
    );
}

#[test]
fn connect_settings_are_looked_up() {
    let config = ConnectConfig::new(&parsed(SETTINGS)).unwrap();
    assert_eq!(config.port, "/dev/ttyUSB0");
    assert_eq!(config.bit_rate, 57600);
    assert_eq!(config.timeout, 5);
    assert_eq!(Path::new(&config.data_log_path), Path::new("out").join("data.log"));
    assert_eq!(Path::new(&config.debug_log_path), Path::new("logs").join("debug.log"));
}

#[test]
fn connect_settings_must_all_be_there() {
    for missing in [
        "port = ",
        "bit_rate = ",
        "timeout = ",
        "data_log_output_dir = ",
        "data_log = ",
        "connect_debug_log_location = ",
        "connect_debug_log = ",
        "[serial]",
        "[logging]",
    ] {
        let text: String = SETTINGS
            .lines()
            .filter(|line| !line.starts_with(missing))
            .map(|line| format!("{}\n", line))
            .collect();
        let result = match missing {
            "[serial]" | "[logging]" => ConnectConfig::new(&parsed(&text.replace("[database]", ""))),
            _ => ConnectConfig::new(&parsed(&text)),
        };
        assert_eq!(result.unwrap_err(), ConfigError::MissingSetting, "{}", missing);
    }
    let mistyped = SETTINGS.replace("timeout = 5", "timeout = \"5\"");
    assert_eq!(ConnectConfig::new(&parsed(&mistyped)).unwrap_err(), ConfigError::MissingSetting);
}

#[test]
fn a_bit_rate_out_of_range_is_found_before_a_later_setting_is_missed() {
    let text = "[serial]\nport = \"p\"\nbit_rate = 0\n";
    assert_eq!(ConnectConfig::new(&parsed(text)).unwrap_err(), ConfigError::BitRateOutOfRange);
    let text = "[serial]\nbit_rate = 0\n";
    assert_eq!(ConnectConfig::new(&parsed(text)).unwrap_err(), ConfigError::MissingSetting);
    let text = SETTINGS.replace("57600", "4294967295");
    assert_eq!(ConnectConfig::new(&parsed(&text)).unwrap_err(), ConfigError::BitRateOutOfRange);
    let text = SETTINGS.replace("57600", "4294967294");
    assert_eq!(ConnectConfig::new(&parsed(&text)).unwrap().bit_rate, 4294967294);
}

#[test]
fn bit_rate_must_be_in_range() {
    for bit_rate in [0, -1, 4294967295, 4294967296, i64::MAX, i64::MIN] {
        assert_eq!(
            ConnectConfig::from_parts("/dev/ttyUSB0", bit_rate, 5, "data.log", "debug.log")
                .unwrap_err(),
            ConfigError::BitRateOutOfRange
        );
    }
    let config =
        ConnectConfig::from_parts("/dev/ttyUSB0", 57600, 5, "out/data.log", "debug.log").unwrap();
    assert_eq!(config.port, "/dev/ttyUSB0");
    assert_eq!(config.bit_rate, 57600);
    assert_eq!(config.timeout, 5);
    assert_eq!(config.data_log_path, "out/data.log");
    assert_eq!(config.debug_log_path, "debug.log");
    assert_eq!(ConnectConfig::from_parts("p", 4294967294, 0, "", "").unwrap().bit_rate, 4294967294);
    assert_eq!(ConnectConfig::from_parts("p", 1, 0, "", "").unwrap().bit_rate, 1);
}

#[test]
fn timeout_wraps_as_a_cast_does() {
    for timeout in
        [0i64, 5, -1, 4294967295, 4294967296, 4294967301, i64::MAX, i64::MIN, -4294967297]
    {
        let config = ConnectConfig::from_parts("p", 9600, timeout, "", "").unwrap();
        assert_eq!(config.timeout, timeout as u32);
        let text = SETTINGS.replace("timeout = 5", &format!("timeout = {}", timeout));
        assert_eq!(ConnectConfig::new(&parsed(&text)).unwrap().timeout, timeout as u32);
    }
}

#[test]
fn settings_are_found_by_key_and_kind() {
    let table = parsed("a = \"text\"\nb = 7\nc = true\nd = 1.5\n[e]\nf = \"inner\"");
    assert_eq!(text_under(&table, "a"), Some(String::from("text")));
    assert_eq!(text_under(&table, "b"), None);
    assert_eq!(text_under(&table, "zz"), None);
    assert_eq!(integer_under(&table, "b"), Some(7));
    assert_eq!(integer_under(&table, "a"), None);
    assert_eq!(integer_under(&table, "d"), None);
    assert_eq!(flag_under(&table, "c"), Some(true));
    assert_eq!(flag_under(&table, "b"), None);
    assert_eq!(text_under(&table["e"], "f"), Some(String::from("inner")));
    assert_eq!(text_under(&table["a"], "a"), None);
}

#[test]
fn directory_of_the_program() {
    assert_eq!(directory_or_here(None), ".");
    assert_eq!(directory_or_here(Some(String::from("bin"))), "bin");
    assert_eq!(directory_or_here(Some(String::new())), "");
    assert_eq!(get_path_to_bin_location(&words(&["target/debug/store", "x"])), "target/debug");
    assert_eq!(get_path_to_bin_location(&words(&["store"])), "");
    assert_eq!(get_path_to_bin_location(&words(&["/"])), ".");
    assert_eq!(get_path_to_bin_location(&words(&[""])), ".");
}

#[test]
fn config_error_messages() {
    assert_eq!(ConfigError::NotEnoughArguments.message(), "not enough arguments");
    assert_eq!(ConfigError::MalformedSettings.message(), "settings are not valid TOML");
    assert_eq!(ConfigError::MissingSetting.message(), "setting not found");
    assert_eq!(ConfigError::BitRateOutOfRange.message(), "bit rate out of range");
}

#[test]
fn the_directory_is_a_leading_part_of_the_program_path() {
    for program in [
        "target/debug/store",
        "store",
        "./store",
        "../bin/store",
        "/usr/local/bin/store",
        "bin//store",
        "bin/store/",
        "bin/./store",
        "bin/..",
        "/store",
        "/",
        "//",
        "",
        ".",
        "..",
        "dépôt/°C/store",
    ] {
        let directory = get_path_to_bin_location(&words(&[program]));
        assert!(
            directory == "." || (directory.len() < program.len() && program.starts_with(&directory)),
            "{:?} -> {:?}",
            program,
            directory
        );
    }
    assert_eq!(get_path_to_bin_location(&words(&["dépôt/store"])), "dépôt");
    assert_eq!(get_path_to_bin_location(&words(&["/store"])), "/");
}
