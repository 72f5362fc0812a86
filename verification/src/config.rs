//! The settings of the two programs.
//!
//! The settings are written in TOML. The caller reads the file; the library
//! looks the settings up, checks them and holds them.

use crate::settings::{
    toml_document, entry, entry_of, flag_at, flag_under, integer_at, integer_under, parse_toml,
    text_at, text_under,
};
use vstd::prelude::*;

verus! {

/// Why settings were refused.
#[derive(Clone, Copy, Debug, PartialEq, Eq, Structural)]
pub enum ConfigError {
    /// The command line does not name the log file.
    NotEnoughArguments,
    /// The settings are not TOML.
    MalformedSettings,
    /// A setting is not there, or is of another kind than it should be.
    MissingSetting,
    /// The bit rate is not above zero and below the largest 32-bit number.
    BitRateOutOfRange,
}

impl ConfigError {
    /// The text of the error.
    pub open spec fn message_spec(self) -> Seq<char> {
        match self {
            ConfigError::NotEnoughArguments => "not enough arguments"@,
            ConfigError::MalformedSettings => "settings are not valid TOML"@,
            ConfigError::MissingSetting => "setting not found"@,
            ConfigError::BitRateOutOfRange => "bit rate out of range"@,
        }
    }

    /// The text of the error, for a report.
    pub fn message(&self) -> (text: &'static str)
        ensures
            text@ == self.message_spec(),
    {
        match self {
            ConfigError::NotEnoughArguments => "not enough arguments",
            ConfigError::MalformedSettings => "settings are not valid TOML",
            ConfigError::MissingSetting => "setting not found",
            ConfigError::BitRateOutOfRange => "bit rate out of range",
        }
    }
}

/// Where the store is, and whether it is used at all.
#[derive(Clone, Debug)]
pub struct DatabaseConfig {
    ignore_db: bool,
    database_name: String,
    host: String,
    user: String,
}

/// What the store's settings hold.
pub struct DatabaseConfigView {
    pub ignore_db: bool,
    pub database_name: Seq<char>,
    pub host: Seq<char>,
    pub user: Seq<char>,
}

impl View for DatabaseConfig {
    type V = DatabaseConfigView;

    closed spec fn view(&self) -> DatabaseConfigView {
        DatabaseConfigView {
            ignore_db: self.ignore_db,
            database_name: self.database_name@,
            host: self.host@,
            user: self.user@,
        }
    }
}

/// The store's settings that a table holds under the keys `ignore_db`,
/// `db_name`, `hostname` and `user`.
pub open spec fn database_spec(table: toml::Value) -> Result<DatabaseConfigView, ConfigError> {
    match (
        flag_at(table, "ignore_db"@),
        text_at(table, "db_name"@),
        text_at(table, "hostname"@),
        text_at(table, "user"@),
    ) {
        (Some(ignore_db), Some(database_name), Some(host), Some(user)) => Ok(
            DatabaseConfigView { ignore_db, database_name, host, user },
        ),
        _ => Err(ConfigError::MissingSetting),
    }
}

/// The store's settings in a result, by what they hold.
pub open spec fn database_view(result: Result<DatabaseConfig, ConfigError>) -> Result<
    DatabaseConfigView,
    ConfigError,
> {
    match result {
        Ok(config) => Ok(config@),
        Err(error) => Err(error),
    }
}

impl DatabaseConfig {
    /// The store's settings from the table that holds them.
    pub fn new(args: &toml::Value) -> (result: Result<DatabaseConfig, ConfigError>)
        ensures
            database_view(result) == database_spec(*args),
    {
        let ignore_db = match flag_under(args, "ignore_db") {
            Some(flag) => flag,
            None => {
                return Err(ConfigError::MissingSetting);
            },
        };
        let database_name = match text_under(args, "db_name") {
            Some(text) => text,
            None => {
                return Err(ConfigError::MissingSetting);
            },
        };
        let host = match text_under(args, "hostname") {
            Some(text) => text,
            None => {
                return Err(ConfigError::MissingSetting);
            },
        };
        let user = match text_under(args, "user") {
            Some(text) => text,
            None => {
                return Err(ConfigError::MissingSetting);
            },
        };
        Ok(DatabaseConfig { ignore_db, database_name, host, user })
    }

    /// The store's settings from their parts: whether to leave the store
    /// alone, its name, its host and the user to connect as.
    pub fn from_parts(ignore_db: bool, db_name: &str, hostname: &str, user: &str) -> (config:
        DatabaseConfig)
        ensures
            config@ == (DatabaseConfigView {
                ignore_db,
                database_name: db_name@,
                host: hostname@,
                user: user@,
            }),
    {
        DatabaseConfig {
            ignore_db,
            database_name: db_name.to_owned(),
            host: hostname.to_owned(),
            user: user.to_owned(),
        }
    }

    /// Whether the store takes part in a run. Where it does not, the
    /// watermark is zero and nothing is uploaded.
    pub fn use_database(&self) -> (used: bool)
        ensures
            used == !self@.ignore_db,
    {
        !self.ignore_db
    }

    /// The name of the database.
    pub fn database_name(&self) -> (name: &str)
        ensures
            name@ == self@.database_name,
    {
        self.database_name.as_str()
    }

    /// The host of the database.
    pub fn host(&self) -> (host: &str)
        ensures
            host@ == self@.host,
    {
        self.host.as_str()
    }

    /// The user to connect as.
    pub fn user(&self) -> (user: &str)
        ensures
            user@ == self@.user,
    {
        self.user.as_str()
    }
}

/// The settings of a synchronisation run.
#[derive(Clone, Debug)]
pub struct Config {
    /// The path of the log.
    pub filename: String,
    /// The store.
    pub database: DatabaseConfig,
}

/// What the settings of a run hold.
pub struct ConfigView {
    pub filename: Seq<char>,
    pub database: DatabaseConfigView,
}

impl View for Config {
    type V = ConfigView;

    open spec fn view(&self) -> ConfigView {
        ConfigView { filename: self.filename@, database: self.database@ }
    }
}

/// The settings of a run for a command line and the text of the settings
/// file: the second word of the command line names the log, and the table
/// `database` of the file holds the store's settings.
pub open spec fn config_spec(args: Seq<String>, properties: Seq<char>) -> Result<
    ConfigView,
    ConfigError,
> {
    if args.len() < 2 {
        Err(ConfigError::NotEnoughArguments)
    } else {
        match toml_document(properties) {
            None => Err(ConfigError::MalformedSettings),
            Some(document) => match entry_of(document, "database"@) {
                None => Err(ConfigError::MissingSetting),
                Some(table) => match database_spec(table) {
                    Err(error) => Err(error),
                    Ok(database) => Ok(ConfigView { filename: args[1]@, database }),
                },
            },
        }
    }
}

/// The settings of a run in a result, by what they hold.
pub open spec fn config_view(result: Result<Config, ConfigError>) -> Result<
    ConfigView,
    ConfigError,
> {
    match result {
        Ok(config) => Ok(config@),
        Err(error) => Err(error),
    }
}

impl Config {
    /// The settings of a run from the command line and the text of the
    /// settings file.
    pub fn new(args: &[String], properties: &str) -> (result: Result<Config, ConfigError>)
        ensures
            config_view(result) == config_spec(args@, properties@),
    {
        if args.len() < 2 {
            return Err(ConfigError::NotEnoughArguments);
        }
        let document = match parse_toml(properties) {
            Ok(document) => document,
            Err(_) => {
                return Err(ConfigError::MalformedSettings);
            },
        };
        let table = match entry(&document, "database") {
            Some(table) => table,
            None => {
                return Err(ConfigError::MissingSetting);
            },
        };
        match DatabaseConfig::new(table) {
            Ok(database) => Ok(Config { filename: args[1].clone(), database }),
            Err(error) => Err(error),
        }
    }
}

/// The settings of the program that listens to the device.
#[derive(Clone, Debug)]
pub struct ConnectConfig {
    /// The serial port.
    pub port: String,
    /// The bit rate of the port.
    pub bit_rate: u32,
    /// The read timeout in seconds.
    pub timeout: u32,
    /// The path of the log of readings.
    pub data_log_path: String,
    /// The path of the program's own log.
    pub debug_log_path: String,
}

/// The settings of the listening program as the file holds them.
pub struct ConnectSettings {
    pub port: Seq<char>,
    pub bit_rate: i64,
    pub timeout: i64,
    pub data_log_dir: Seq<char>,
    pub data_log: Seq<char>,
    pub debug_log_dir: Seq<char>,
    pub debug_log: Seq<char>,
}

/// A bit rate that the serial port takes.
pub open spec fn bit_rate_in_range(bit_rate: i64) -> bool {
    0 < bit_rate < u32::MAX
}

/// The logging part of the settings of the listening program.
pub open spec fn connect_logging_spec(
    args: toml::Value,
    port: Seq<char>,
    bit_rate: i64,
    timeout: i64,
) -> Result<ConnectSettings, ConfigError> {
    match entry_of(args, "logging"@) {
        None => Err(ConfigError::MissingSetting),
        Some(logging) => match (
            text_at(logging, "data_log_output_dir"@),
            text_at(logging, "data_log"@),
            text_at(logging, "connect_debug_log_location"@),
            text_at(logging, "connect_debug_log"@),
        ) {
            (Some(data_log_dir), Some(data_log), Some(debug_log_dir), Some(debug_log)) => Ok(
                ConnectSettings {
                    port,
                    bit_rate,
                    timeout,
                    data_log_dir,
                    data_log,
                    debug_log_dir,
                    debug_log,
                },
            ),
            _ => Err(ConfigError::MissingSetting),
        },
    }
}

/// The settings of the listening program that a document holds: the port,
/// the bit rate and the timeout in its table `serial`, the directories and
/// names of the two logs in its table `logging`. A bit rate out of range is
/// found before a setting is missed that stands behind it in this order.
pub open spec fn connect_spec(args: toml::Value) -> Result<ConnectSettings, ConfigError> {
    match entry_of(args, "serial"@) {
        None => Err(ConfigError::MissingSetting),
        Some(serial) => match (text_at(serial, "port"@), integer_at(serial, "bit_rate"@)) {
            (Some(port), Some(bit_rate)) => if !bit_rate_in_range(bit_rate) {
                Err(ConfigError::BitRateOutOfRange)
            } else {
                match integer_at(serial, "timeout"@) {
                    None => Err(ConfigError::MissingSetting),
                    Some(timeout) => connect_logging_spec(args, port, bit_rate, timeout),
                }
            },
            _ => Err(ConfigError::MissingSetting),
        },
    }
}

/// The path of a file in a directory, as the platform that the library is
/// built for joins the two.
pub uninterp spec fn joined_path(directory: Seq<char>, file: Seq<char>) -> Seq<char>;

/// Joins a directory and a file name with `std::path::Path::join`. The
/// result is named; how the two are joined follows the platform's rules for
/// paths.
#[verifier::external_body]
fn join_path(directory: &str, file: &str) -> (joined: String)
    ensures
        joined@ == joined_path(directory@, file@),
{
    std::path::Path::new(directory).join(file).to_string_lossy().into_owned()
}

impl ConnectConfig {
    /// The settings of the listening program from the document that holds
    /// them. The timeout is taken modulo 2^32. Each of the two paths is the
    /// name of the log joined to its directory.
    pub fn new(args: &toml::Value) -> (result: Result<ConnectConfig, ConfigError>)
        ensures
            match connect_spec(*args) {
                Err(error) => result matches Err(refused) && refused == error,
                Ok(settings) => result is Ok && {
                    let config = result->Ok_0;
                    &&& config.port@ == settings.port
                    &&& config.bit_rate == settings.bit_rate
                    &&& config.timeout == settings.timeout % 0x1_0000_0000
                    &&& config.data_log_path@ == joined_path(
                        settings.data_log_dir,
                        settings.data_log,
                    )
                    &&& config.debug_log_path@ == joined_path(
                        settings.debug_log_dir,
                        settings.debug_log,
                    )
                },
            },
    {
        let serial = match entry(args, "serial") {
            Some(table) => table,
            None => {
                return Err(ConfigError::MissingSetting);
            },
        };
        let port = match text_under(serial, "port") {
            Some(text) => text,
            None => {
                return Err(ConfigError::MissingSetting);
            },
        };
        let bit_rate = match integer_under(serial, "bit_rate") {
            Some(number) => number,
            None => {
                return Err(ConfigError::MissingSetting);
            },
        };
        if bit_rate <= 0 || bit_rate >= 0xffff_ffff {
            return Err(ConfigError::BitRateOutOfRange);
        }
        let timeout = match integer_under(serial, "timeout") {
            Some(number) => number,
            None => {
                return Err(ConfigError::MissingSetting);
            },
        };
        let logging = match entry(args, "logging") {
            Some(table) => table,
            None => {
                return Err(ConfigError::MissingSetting);
            },
        };
        let data_log_dir = match text_under(logging, "data_log_output_dir") {
            Some(text) => text,
            None => {
                return Err(ConfigError::MissingSetting);
            },
        };
        let data_log = match text_under(logging, "data_log") {
            Some(text) => text,
            None => {
                return Err(ConfigError::MissingSetting);
            },
        };
        let debug_log_dir = match text_under(logging, "connect_debug_log_location") {
            Some(text) => text,
            None => {
                return Err(ConfigError::MissingSetting);
            },
        };
        let debug_log = match text_under(logging, "connect_debug_log") {
            Some(text) => text,
            None => {
                return Err(ConfigError::MissingSetting);
            },
        };
        let data_log_path = join_path(data_log_dir.as_str(), data_log.as_str());
        let debug_log_path = join_path(debug_log_dir.as_str(), debug_log.as_str());
        ConnectConfig::from_parts(
            port.as_str(),
            bit_rate,
            timeout,
            data_log_path.as_str(),
            debug_log_path.as_str(),
        )
    }

    /// The settings of the listening program from their parts. The bit rate
    /// must be above zero and below the largest 32-bit number. The timeout
    /// is taken modulo 2^32.
    pub fn from_parts(
        port: &str,
        bit_rate: i64,
        timeout: i64,
        data_log_path: &str,
        debug_log_path: &str,
    ) -> (result: Result<ConnectConfig, ConfigError>)
        ensures
            !bit_rate_in_range(bit_rate) ==> (result matches Err(refused) && refused
                == ConfigError::BitRateOutOfRange),
            bit_rate_in_range(bit_rate) ==> result is Ok && {
                let config = result->Ok_0;
                &&& config.port@ == port@
                &&& config.bit_rate == bit_rate
                &&& config.timeout == timeout % 0x1_0000_0000
                &&& config.data_log_path@ == data_log_path@
                &&& config.debug_log_path@ == debug_log_path@
            },
    {
        if bit_rate <= 0 || bit_rate >= 0xffff_ffff {
            return Err(ConfigError::BitRateOutOfRange);
        }
        let seconds: i64 = timeout % 0x1_0000_0000;
        let wrapped: i64 = if seconds < 0 {
            seconds + 0x1_0000_0000
        } else {
            seconds
        };
        Ok(
            ConnectConfig {
                port: port.to_owned(),
                bit_rate: bit_rate as u32,
                timeout: wrapped as u32,
                data_log_path: data_log_path.to_owned(),
                debug_log_path: debug_log_path.to_owned(),
            },
        )
    }
}

/// `part` is a leading part of `whole`, and shorter than it.
pub open spec fn is_leading_part(part: Seq<char>, whole: Seq<char>) -> bool {
    part.len() < whole.len() && part == whole.take(part.len() as int)
}

/// The directory of a path: the path without its last component, as the
/// platform that the library is built for tells the components of a path
/// apart; `None` where the path has no component to leave out.
pub uninterp spec fn parent_path(path: Seq<char>) -> Option<Seq<char>>;

/// The directory of a path, as `std::path::Path::parent` gives it: the path
/// without its last component, and `None` where it has none to leave out,
/// as the empty path has none. The result is named; which part of a path its
/// last component is follows the platform's rules for paths. What is left
/// without it is a leading part of the path.
#[verifier::external_body]
fn parent_of(path: &str) -> (parent: Option<String>)
    ensures
        match parent {
            Some(directory) => parent_path(path@) == Some(directory@) && is_leading_part(
                directory@,
                path@,
            ),
            None => parent_path(path@) is None,
        },
        path@.len() == 0 ==> parent is None,
{
    std::path::Path::new(path).parent().map(|parent| parent.to_string_lossy().into_owned())
}

/// The given directory, or `.` where none is given.
pub fn directory_or_here(parent: Option<String>) -> (directory: String)
    ensures
        directory@ == match parent {
            Some(given) => given@,
            None => seq!['.'],
        },
{
    match parent {
        Some(given) => given,
        None => {
            proof {
                reveal_strlit(".");
            }
            let here = ".".to_owned();
            assert(here@ =~= seq!['.']);
            here
        },
    }
}

/// The directory of a program for the first word of its command line: the
/// word without its last component, and `.` where it has none to leave out.
pub open spec fn bin_location(program: Seq<char>) -> Seq<char> {
    match parent_path(program) {
        Some(directory) => directory,
        None => seq!['.'],
    }
}

/// The directory of the program, taken from the first word of the command
/// line: that word without its last component, which is a leading part of
/// the word, and `.` where the word has no component to leave out, as the
/// empty word has none.
pub fn get_path_to_bin_location(args: &[String]) -> (directory: String)
    requires
        args@.len() > 0,
    ensures
        directory@ == bin_location(args@[0]@),
        directory@ == seq!['.'] || is_leading_part(directory@, args@[0]@),
        args@[0]@.len() == 0 ==> directory@ == seq!['.'],
{
    directory_or_here(parent_of(args[0].as_str()))
}

} // verus!
