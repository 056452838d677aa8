//! The scraper's settings, read from `NTHW_*` environment variables.
use vstd::prelude::*;
use crate::text::{chars_of, chars_equal};

verus! {

/// The scraper's settings.
pub struct Config {
    pub base_driver_port: u16,
    pub downloaded_websites_path: String,
    pub failed_downloads_path: String,
    pub generate_resized_screenshots: bool,
    pub resized_screenshots_path: String,
    pub nthw_frontend_json_path: String,
    pub nthw_frontend_tags_path: String,
    pub nthw_git_path: String,
    pub nthw_raw_websites_path: String,
    pub nthw_unique_words_path: String,
    pub update: bool,
    pub nthw_frontend_full_json_path: String,
    pub worker_count: usize,
}

/// What looking up one environment variable gave.
pub enum EnvValue {
    Present(String),
    NotPresent,
    NotUnicode,
}

/// The environment variables behind the settings, field by field:
/// `NTHW_BASE_DRIVER_PORT`, `NTHW_DOWNLOADED_WEBSITES_PATH`,
/// `NTHW_FAILED_DOWNLOADS_PATH`, `NTHW_GENERATE_RESIZED_SCREENSHOTS`,
/// `NTHW_RESIZED_SCREENSHOTS_PATH`, `NTHW_FRONTEND_JSON_PATH`,
/// `NTHW_FRONTEND_TAGS_PATH`, `NTHW_NTHW_GIT_PATH`, `NTHW_RAW_WEBSITES_PATH`,
/// `NTHW_UNIQUE_WORDS_PATH`, `NTHW_UPDATE`, `NTHW_FRONTEND_FULL_JSON_PATH`,
/// `NTHW_WORKER_COUNT`.
pub struct ConfigEnv {
    pub base_driver_port: EnvValue,
    pub downloaded_websites_path: EnvValue,
    pub failed_downloads_path: EnvValue,
    pub generate_resized_screenshots: EnvValue,
    pub resized_screenshots_path: EnvValue,
    pub nthw_frontend_json_path: EnvValue,
    pub nthw_frontend_tags_path: EnvValue,
    pub nthw_git_path: EnvValue,
    pub nthw_raw_websites_path: EnvValue,
    pub nthw_unique_words_path: EnvValue,
    pub update: EnvValue,
    pub nthw_frontend_full_json_path: EnvValue,
    pub worker_count: EnvValue,
}

/// A setting, in the order in which the settings are read.
#[derive(PartialEq, Eq, Structural, Clone, Copy)]
pub enum ConfigField {
    BaseDriverPort,
    DownloadedWebsitesPath,
    FailedDownloadsPath,
    GenerateResizedScreenshots,
    ResizedScreenshotsPath,
    FrontendJsonPath,
    FrontendTagsPath,
    GitPath,
    RawWebsitesPath,
    UniqueWordsPath,
    Update,
    FrontendFullJsonPath,
    WorkerCount,
}

/// Why a setting could not be read.
#[derive(PartialEq, Eq, Structural, Clone, Copy)]
pub enum ConfigErrorKind {
    /// The variable is not set.
    NotPresent,
    /// The variable does not hold valid unicode.
    NotUnicode,
    /// The value is not a number of the setting's type.
    InvalidNumber,
    /// The value is neither `true` nor `false`.
    InvalidBool,
}

#[derive(PartialEq, Eq, Structural, Clone, Copy)]
pub struct ConfigError {
    pub field: ConfigField,
    pub kind: ConfigErrorKind,
}

pub open spec fn field_index(f: ConfigField) -> int {
    match f {
        ConfigField::BaseDriverPort => 0,
        ConfigField::DownloadedWebsitesPath => 1,
        ConfigField::FailedDownloadsPath => 2,
        ConfigField::GenerateResizedScreenshots => 3,
        ConfigField::ResizedScreenshotsPath => 4,
        ConfigField::FrontendJsonPath => 5,
        ConfigField::FrontendTagsPath => 6,
        ConfigField::GitPath => 7,
        ConfigField::RawWebsitesPath => 8,
        ConfigField::UniqueWordsPath => 9,
        ConfigField::Update => 10,
        ConfigField::FrontendFullJsonPath => 11,
        ConfigField::WorkerCount => 12,
    }
}

pub open spec fn is_digit(c: char) -> bool {
    '0' <= c <= '9'
}

/// The value of a string of decimal digits.
pub open spec fn digits_value(s: Seq<char>) -> nat
    decreases s.len(),
{
    if s.len() == 0 {
        0
    } else {
        digits_value(s.drop_last()) * 10 + (s.last() as u32 - 48) as nat
    }
}

/// The digits of an unsigned number: the text without one leading `+`.
pub open spec fn unsigned_digits(s: Seq<char>) -> Seq<char> {
    if s.len() > 0 && s[0] == '+' {
        s.drop_first()
    } else {
        s
    }
}

pub open spec fn all_digits(d: Seq<char>) -> bool {
    forall|i: int| 0 <= i < d.len() ==> is_digit(#[trigger] d[i])
}

/// `str::parse` for an unsigned integer type whose largest value is `max`:
/// an optional `+` followed by at least one decimal digit, nothing else, and
/// a value of at most `max`.
pub open spec fn parse_unsigned(s: Seq<char>, max: nat) -> Option<nat> {
    let d = unsigned_digits(s);
    if d.len() > 0 && all_digits(d) && digits_value(d) <= max {
        Some(digits_value(d))
    } else {
        None
    }
}

/// `str::parse::<bool>`.
pub open spec fn parse_bool(s: Seq<char>) -> Option<bool> {
    if s == "true"@ {
        Some(true)
    } else if s == "false"@ {
        Some(false)
    } else {
        None
    }
}

pub fn parse_unsigned_chars(s: &str, max: u64) -> (r: Option<u64>)
    ensures
        match parse_unsigned(s@, max as nat) {
            Some(v) => r == Some(v as u64),
            None => r is None,
        },
{
    let cs = chars_of(s);
    let start: usize = if cs.len() > 0 && cs[0] == '+' {
        1
    } else {
        0
    };
    let ghost d = cs@.skip(start as int);
    assert(d =~= unsigned_digits(s@));
    if cs.len() == start {
        return None;
    }
    let mut acc: u64 = 0;
    let mut over = false;
    let mut i = start;
    while i < cs.len()
        invariant
            start <= i <= cs.len(),
            cs@ == s@,
            d == cs@.skip(start as int),
            d == unsigned_digits(s@),
            forall|q: int| 0 <= q < i - start ==> is_digit(#[trigger] d[q]),
            !over ==> acc == digits_value(d.take(i - start)) && acc <= max,
            over ==> digits_value(d.take(i - start)) > max,
        decreases cs.len() - i,
    {
        let c = cs[i];
        if !('0' <= c && c <= '9') {
            assert(!is_digit(d[i - start]));
            return None;
        }
        let digit = (c as u32 - 48) as u64;
        let ghost t = d.take(i - start + 1);
        assert(t.drop_last() =~= d.take(i - start));
        assert(t.last() == c);
        if !over {
            let next: u128 = acc as u128 * 10 + digit as u128;
            if next > max as u128 {
                over = true;
            } else {
                acc = next as u64;
            }
        }
        i += 1;
    }
    assert(d.take(cs.len() - start) =~= d);
    if over {
        None
    } else {
        Some(acc)
    }
}

pub fn parse_bool_chars(s: &str) -> (r: Option<bool>)
    ensures
        r == parse_bool(s@),
{
    let cs = chars_of(s);
    let t = chars_of("true");
    let f = chars_of("false");
    if chars_equal(&cs, &t) {
        Some(true)
    } else if chars_equal(&cs, &f) {
        Some(false)
    } else {
        None
    }
}

/// A path setting.
pub open spec fn text_setting(v: EnvValue) -> Result<Seq<char>, ConfigErrorKind> {
    match v {
        EnvValue::Present(s) => Ok(s@),
        EnvValue::NotPresent => Err(ConfigErrorKind::NotPresent),
        EnvValue::NotUnicode => Err(ConfigErrorKind::NotUnicode),
    }
}

/// A number setting whose type's largest value is `max`.
pub open spec fn number_setting(v: EnvValue, max: nat) -> Result<nat, ConfigErrorKind> {
    match v {
        EnvValue::Present(s) => match parse_unsigned(s@, max) {
            Some(n) => Ok(n),
            None => Err(ConfigErrorKind::InvalidNumber),
        },
        EnvValue::NotPresent => Err(ConfigErrorKind::NotPresent),
        EnvValue::NotUnicode => Err(ConfigErrorKind::NotUnicode),
    }
}

/// A yes/no setting.
pub open spec fn bool_setting(v: EnvValue) -> Result<bool, ConfigErrorKind> {
    match v {
        EnvValue::Present(s) => match parse_bool(s@) {
            Some(b) => Ok(b),
            None => Err(ConfigErrorKind::InvalidBool),
        },
        EnvValue::NotPresent => Err(ConfigErrorKind::NotPresent),
        EnvValue::NotUnicode => Err(ConfigErrorKind::NotUnicode),
    }
}

pub open spec fn error_of<T>(r: Result<T, ConfigErrorKind>) -> Option<ConfigErrorKind> {
    match r {
        Ok(_) => None,
        Err(k) => Some(k),
    }
}

/// Why setting `f` cannot be read from `env`, if it cannot.
pub open spec fn field_error(env: ConfigEnv, f: ConfigField) -> Option<ConfigErrorKind> {
    match f {
        ConfigField::BaseDriverPort => error_of(number_setting(env.base_driver_port, 0xFFFF)),
        ConfigField::DownloadedWebsitesPath => error_of(text_setting(env.downloaded_websites_path)),
        ConfigField::FailedDownloadsPath => error_of(text_setting(env.failed_downloads_path)),
        ConfigField::GenerateResizedScreenshots => error_of(
            bool_setting(env.generate_resized_screenshots),
        ),
        ConfigField::ResizedScreenshotsPath => error_of(text_setting(env.resized_screenshots_path)),
        ConfigField::FrontendJsonPath => error_of(text_setting(env.nthw_frontend_json_path)),
        ConfigField::FrontendTagsPath => error_of(text_setting(env.nthw_frontend_tags_path)),
        ConfigField::GitPath => error_of(text_setting(env.nthw_git_path)),
        ConfigField::RawWebsitesPath => error_of(text_setting(env.nthw_raw_websites_path)),
        ConfigField::UniqueWordsPath => error_of(text_setting(env.nthw_unique_words_path)),
        ConfigField::Update => error_of(bool_setting(env.update)),
        ConfigField::FrontendFullJsonPath => error_of(
            text_setting(env.nthw_frontend_full_json_path),
        ),
        ConfigField::WorkerCount => error_of(number_setting(env.worker_count, usize::MAX as nat)),
    }
}

/// `c` holds the values of the settings in `env`.
pub open spec fn config_matches(c: Config, env: ConfigEnv) -> bool {
    &&& number_setting(env.base_driver_port, 0xFFFF) == Ok::<nat, ConfigErrorKind>(
        c.base_driver_port as nat,
    )
    &&& text_setting(env.downloaded_websites_path) == Ok::<Seq<char>, ConfigErrorKind>(
        c.downloaded_websites_path@,
    )
    &&& text_setting(env.failed_downloads_path) == Ok::<Seq<char>, ConfigErrorKind>(
        c.failed_downloads_path@,
    )
    &&& bool_setting(env.generate_resized_screenshots) == Ok::<bool, ConfigErrorKind>(
        c.generate_resized_screenshots,
    )
    &&& text_setting(env.resized_screenshots_path) == Ok::<Seq<char>, ConfigErrorKind>(
        c.resized_screenshots_path@,
    )
    &&& text_setting(env.nthw_frontend_json_path) == Ok::<Seq<char>, ConfigErrorKind>(
        c.nthw_frontend_json_path@,
    )
    &&& text_setting(env.nthw_frontend_tags_path) == Ok::<Seq<char>, ConfigErrorKind>(
        c.nthw_frontend_tags_path@,
    )
    &&& text_setting(env.nthw_git_path) == Ok::<Seq<char>, ConfigErrorKind>(c.nthw_git_path@)
    &&& text_setting(env.nthw_raw_websites_path) == Ok::<Seq<char>, ConfigErrorKind>(
        c.nthw_raw_websites_path@,
    )
    &&& text_setting(env.nthw_unique_words_path) == Ok::<Seq<char>, ConfigErrorKind>(
        c.nthw_unique_words_path@,
    )
    &&& bool_setting(env.update) == Ok::<bool, ConfigErrorKind>(c.update)
    &&& text_setting(env.nthw_frontend_full_json_path) == Ok::<Seq<char>, ConfigErrorKind>(
        c.nthw_frontend_full_json_path@,
    )
    &&& number_setting(env.worker_count, usize::MAX as nat) == Ok::<nat, ConfigErrorKind>(
        c.worker_count as nat,
    )
}

fn read_text(v: &EnvValue, field: ConfigField) -> (r: Result<String, ConfigError>)
    ensures
        match r {
            Ok(s) => text_setting(*v) == Ok::<Seq<char>, ConfigErrorKind>(s@),
            Err(e) => e.field == field && text_setting(*v) == Err::<Seq<char>, ConfigErrorKind>(
                e.kind,
            ),
        },
{
    match v {
        EnvValue::Present(s) => Ok(s.clone()),
        EnvValue::NotPresent => Err(ConfigError { field, kind: ConfigErrorKind::NotPresent }),
        EnvValue::NotUnicode => Err(ConfigError { field, kind: ConfigErrorKind::NotUnicode }),
    }
}

fn read_number(v: &EnvValue, max: u64, field: ConfigField) -> (r: Result<u64, ConfigError>)
    ensures
        match r {
            Ok(n) => number_setting(*v, max as nat) == Ok::<nat, ConfigErrorKind>(n as nat),
            Err(e) => e.field == field && number_setting(*v, max as nat) == Err::<
                nat,
                ConfigErrorKind,
            >(e.kind),
        },
{
    match v {
        EnvValue::Present(s) => match parse_unsigned_chars(s.as_str(), max) {
            Some(n) => Ok(n),
            None => Err(ConfigError { field, kind: ConfigErrorKind::InvalidNumber }),
        },
        EnvValue::NotPresent => Err(ConfigError { field, kind: ConfigErrorKind::NotPresent }),
        EnvValue::NotUnicode => Err(ConfigError { field, kind: ConfigErrorKind::NotUnicode }),
    }
}

fn read_bool(v: &EnvValue, field: ConfigField) -> (r: Result<bool, ConfigError>)
    ensures
        match r {
            Ok(b) => bool_setting(*v) == Ok::<bool, ConfigErrorKind>(b),
            Err(e) => e.field == field && bool_setting(*v) == Err::<bool, ConfigErrorKind>(e.kind),
        },
{
    match v {
        EnvValue::Present(s) => match parse_bool_chars(s.as_str()) {
            Some(b) => Ok(b),
            None => Err(ConfigError { field, kind: ConfigErrorKind::InvalidBool }),
        },
        EnvValue::NotPresent => Err(ConfigError { field, kind: ConfigErrorKind::NotPresent }),
        EnvValue::NotUnicode => Err(ConfigError { field, kind: ConfigErrorKind::NotUnicode }),
    }
}

impl Config {
    /// The settings held by `env`; the first setting (in the order of the
    /// fields) that is missing or malformed is reported.
    pub fn new(env: &ConfigEnv) -> (r: Result<Config, ConfigError>)
        ensures
            match r {
                Ok(c) => config_matches(c, *env) && forall|f: ConfigField|
                    #[trigger] field_error(*env, f) is None,
                Err(e) => field_error(*env, e.field) == Some(e.kind) && forall|f: ConfigField|
                    field_index(f) < field_index(e.field) ==> #[trigger] field_error(*env, f) is None,
            },
    {
        let base_driver_port = read_number(&env.base_driver_port, 0xFFFF, ConfigField::BaseDriverPort)?;
        let downloaded_websites_path = read_text(
            &env.downloaded_websites_path,
            ConfigField::DownloadedWebsitesPath,
        )?;
        let failed_downloads_path = read_text(
            &env.failed_downloads_path,
            ConfigField::FailedDownloadsPath,
        )?;
        let generate_resized_screenshots = read_bool(
            &env.generate_resized_screenshots,
            ConfigField::GenerateResizedScreenshots,
        )?;
        let resized_screenshots_path = read_text(
            &env.resized_screenshots_path,
            ConfigField::ResizedScreenshotsPath,
        )?;
        let nthw_frontend_json_path = read_text(
            &env.nthw_frontend_json_path,
            ConfigField::FrontendJsonPath,
        )?;
        let nthw_frontend_tags_path = read_text(
            &env.nthw_frontend_tags_path,
            ConfigField::FrontendTagsPath,
        )?;
        let nthw_git_path = read_text(&env.nthw_git_path, ConfigField::GitPath)?;
        let nthw_raw_websites_path = read_text(
            &env.nthw_raw_websites_path,
            ConfigField::RawWebsitesPath,
        )?;
        let nthw_unique_words_path = read_text(
            &env.nthw_unique_words_path,
            ConfigField::UniqueWordsPath,
        )?;
        let update = read_bool(&env.update, ConfigField::Update)?;
        let nthw_frontend_full_json_path = read_text(
            &env.nthw_frontend_full_json_path,
            ConfigField::FrontendFullJsonPath,
        )?;
        let worker_count = read_number(&env.worker_count, usize::MAX as u64, ConfigField::WorkerCount)?;
        Ok(Config {
            base_driver_port: base_driver_port as u16,
            downloaded_websites_path,
            failed_downloads_path,
            generate_resized_screenshots,
            resized_screenshots_path,
            nthw_frontend_json_path,
            nthw_frontend_tags_path,
            nthw_git_path,
            nthw_raw_websites_path,
            nthw_unique_words_path,
            update,
            nthw_frontend_full_json_path,
            worker_count: worker_count as usize,
        })
    }
}

} // verus!
