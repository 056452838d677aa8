use nthw::config::{Config, ConfigEnv, ConfigErrorKind, ConfigField, EnvValue};
use nthw::config::{parse_bool_chars, parse_unsigned_chars};

fn present(s: &str) -> EnvValue {
    EnvValue::Present(s.to_string())
}

fn full_env() -> ConfigEnv {
    ConfigEnv {
        base_driver_port: present("4444"),
        downloaded_websites_path: present("downloaded.json"),
        failed_downloads_path: present("failed.txt"),
        generate_resized_screenshots: present("false"),
        resized_screenshots_path: present("resized"),
        nthw_frontend_json_path: present("front.json"),
        nthw_frontend_tags_path: present("tags.json"),
        nthw_git_path: present("wiki"),
        nthw_raw_websites_path: present("raw"),
        nthw_unique_words_path: present("unique"),
        update: present("true"),
        nthw_frontend_full_json_path: present("full.json"),
        worker_count: present("8"),
    }
}

#[test]
fn config_reads_every_setting() {
    let c = Config::new(&full_env()).ok().unwrap();
    assert_eq!(c.base_driver_port, 4444);
    assert_eq!(c.downloaded_websites_path, "downloaded.json");
    assert_eq!(c.failed_downloads_path, "failed.txt");
    assert!(!c.generate_resized_screenshots);
    assert_eq!(c.resized_screenshots_path, "resized");
    assert_eq!(c.nthw_frontend_json_path, "front.json");
    assert_eq!(c.nthw_frontend_tags_path, "tags.json");
    assert_eq!(c.nthw_git_path, "wiki");
    assert_eq!(c.nthw_raw_websites_path, "raw");
    assert_eq!(c.nthw_unique_words_path, "unique");
    assert!(c.update);
    assert_eq!(c.nthw_frontend_full_json_path, "full.json");
    assert_eq!(c.worker_count, 8);
}

#[test]
fn config_reports_missing_variable() {
    let mut env = full_env();
    env.nthw_git_path = EnvValue::NotPresent;
    let e = Config::new(&env).err().unwrap();
    assert!(e.field == ConfigField::GitPath);
    assert!(e.kind == ConfigErrorKind::NotPresent);
}

#[test]
fn config_reports_non_unicode_variable() {
    let mut env = full_env();
    env.failed_downloads_path = EnvValue::NotUnicode;
    let e = Config::new(&env).err().unwrap();
    assert!(e.field == ConfigField::FailedDownloadsPath);
    assert!(e.kind == ConfigErrorKind::NotUnicode);
}

#[test]
fn config_rejects_port_out_of_range() {
    let mut env = full_env();
    env.base_driver_port = present("65536");
    let e = Config::new(&env).err().unwrap();
    assert!(e.field == ConfigField::BaseDriverPort);
    assert!(e.kind == ConfigErrorKind::InvalidNumber);
}

#[test]
fn config_rejects_bad_bool() {
    let mut env = full_env();
    env.update = present("yes");
    let e = Config::new(&env).err().unwrap();
    assert!(e.field == ConfigField::Update);
    assert!(e.kind == ConfigErrorKind::InvalidBool);
}

#[test]
fn config_reports_first_bad_setting() {
    let mut env = full_env();
    env.worker_count = present("many");
    env.generate_resized_screenshots = present("TRUE");
    env.nthw_raw_websites_path = EnvValue::NotPresent;
    let e = Config::new(&env).err().unwrap();
    assert!(e.field == ConfigField::GenerateResizedScreenshots);
    assert!(e.kind == ConfigErrorKind::InvalidBool);
}

#[test]
fn config_rejects_negative_worker_count() {
    let mut env = full_env();
    env.worker_count = present("-1");
    let e = Config::new(&env).err().unwrap();
    assert!(e.field == ConfigField::WorkerCount);
    assert!(e.kind == ConfigErrorKind::InvalidNumber);
}

#[test]
fn unsigned_parsing_follows_str_parse() {
    assert_eq!(parse_unsigned_chars("65535", 65535), Some(65535));
    assert_eq!(parse_unsigned_chars("+12", 65535), Some(12));
    assert_eq!(parse_unsigned_chars("007", 65535), Some(7));
    assert_eq!(parse_unsigned_chars("65536", 65535), None);
    assert_eq!(parse_unsigned_chars("", 65535), None);
    assert_eq!(parse_unsigned_chars("+", 65535), None);
    assert_eq!(parse_unsigned_chars("-0", 65535), None);
    assert_eq!(parse_unsigned_chars(" 1", 65535), None);
    assert_eq!(parse_unsigned_chars("18446744073709551615", u64::MAX), Some(u64::MAX));
    assert_eq!(parse_unsigned_chars("18446744073709551616", u64::MAX), None);
}

#[test]
fn bool_parsing_follows_str_parse() {
    assert_eq!(parse_bool_chars("true"), Some(true));
    assert_eq!(parse_bool_chars("false"), Some(false));
    assert_eq!(parse_bool_chars("True"), None);
    assert_eq!(parse_bool_chars(""), None);
}
