use podspine::config::book_overrides::{sidecar_candidates, sidecar_path, BookOverrides, GlobalKeys};
use podspine::config::{
    binds_collide, canonical_ip, parse_duration, parse_size, split_number_unit, without_slashes,
    BindAddr, Cli, Config, ConfigError, FileConfig, Ip, StartUp, StorageMode, TranscodeMode,
    DEFAULT_CACHE_SIZE_BYTES, DEFAULT_DATA_DIR,
};

fn cli(library: Option<&str>) -> Cli {
    Cli {
        library: library.map(str::to_string),
        ..Default::default()
    }
}

fn v4(a: u32, b: u32, c: u32, d: u32, port: u16) -> BindAddr {
    BindAddr {
        ip: Ip::V4((a << 24) | (b << 16) | (c << 8) | d),
        port,
    }
}

fn mapped(addr: BindAddr) -> BindAddr {
    match addr.ip {
        Ip::V4(n) => BindAddr {
            ip: Ip::V6(0xffff_0000_0000u128 + n as u128),
            port: addr.port,
        },
        Ip::V6(_) => addr,
    }
}

/// The addresses that the tests write down; `None` for anything else.
fn parsed(text: &str) -> Option<BindAddr> {
    let (host, port) = text.rsplit_once(':')?;
    let port: u16 = port.parse().ok()?;
    let parts: Vec<u32> = host.split('.').map(|p| p.parse().ok()).collect::<Option<_>>()?;
    match parts.as_slice() {
        [a, b, c, d] => Some(v4(*a, *b, *c, *d, port)),
        _ => None,
    }
}

fn resolve(cli: &Cli, file: &FileConfig) -> Result<Config, ConfigError> {
    let bind = parsed(&Config::bind_text(cli, file));
    let metrics = Config::metrics_bind_text(cli, file).and_then(|t| parsed(&t));
    Config::resolve(cli, file, bind, metrics)
}

#[test]
fn library_only_uses_defaults() {
    let c = resolve(&cli(Some("/books")), &FileConfig::default()).unwrap();
    assert_eq!(c.library, "/books");
    assert_eq!(c.data_dir, DEFAULT_DATA_DIR);
    assert_eq!(c.bind, v4(0, 0, 0, 0, 8080));
    assert_eq!(c.base_url, "http://localhost:8080");
}

#[test]
fn missing_library_from_all_sources_errors() {
    let err = resolve(&cli(None), &FileConfig::default()).unwrap_err();
    assert!(matches!(err, ConfigError::MissingLibrary));
}

#[test]
fn library_can_come_from_the_file_layer() {
    let file = FileConfig {
        library: Some("/from-toml".to_string()),
        ..Default::default()
    };
    let c = resolve(&cli(None), &file).unwrap();
    assert_eq!(c.library, "/from-toml");
}

#[test]
fn cli_overrides_file() {
    let file = FileConfig {
        library: Some("/from-toml".to_string()),
        bind: Some("127.0.0.1:9000".to_string()),
        ..Default::default()
    };
    let mut c = cli(Some("/from-cli"));
    c.bind = Some("0.0.0.0:7000".to_string());
    let resolved = resolve(&c, &file).unwrap();
    assert_eq!(resolved.library, "/from-cli");
    assert_eq!(resolved.bind, v4(0, 0, 0, 0, 7000));
}

#[test]
fn base_url_defaults_to_the_bind_port_and_trims_slash() {
    let mut c = cli(Some("/books"));
    c.bind = Some("0.0.0.0:1234".to_string());
    assert_eq!(
        resolve(&c, &FileConfig::default()).unwrap().base_url,
        "http://localhost:1234"
    );

    c.base_url = Some("https://podspine.example.com/".to_string());
    assert_eq!(
        resolve(&c, &FileConfig::default()).unwrap().base_url,
        "https://podspine.example.com"
    );
}

#[test]
fn default_cover_url_resolves_from_cli_over_file_and_defaults_none() {
    let c = resolve(&cli(Some("/books")), &FileConfig::default()).unwrap();
    assert_eq!(c.default_cover_url, None);

    let file = FileConfig {
        default_cover_url: Some("http://toml/cover.png".to_string()),
        ..Default::default()
    };
    let mut cl = cli(Some("/books"));
    cl.default_cover_url = Some("http://cli/cover.png".to_string());
    let resolved = resolve(&cl, &file).unwrap();
    assert_eq!(
        resolved.default_cover_url.as_deref(),
        Some("http://cli/cover.png")
    );
}

#[test]
fn bad_bind_address_is_rejected() {
    let mut c = cli(Some("/books"));
    c.bind = Some("not-an-address".to_string());
    let r = resolve(&c, &FileConfig::default());
    assert!(matches!(&r, Err(ConfigError::BadBind { value }) if value == "not-an-address"));
}

#[test]
fn metrics_are_off_unless_a_bind_is_given() {
    let c = resolve(&cli(Some("/books")), &FileConfig::default()).unwrap();
    assert_eq!(c.metrics_bind, None);
}

#[test]
fn metrics_bind_is_parsed_and_cli_beats_toml() {
    let mut c = cli(Some("/books"));
    c.metrics_bind = Some("127.0.0.1:9090".to_string());
    let file = FileConfig {
        metrics_bind: Some("0.0.0.0:9999".to_string()),
        ..FileConfig::default()
    };
    let resolved = resolve(&c, &file).unwrap();
    assert_eq!(resolved.metrics_bind, Some(v4(127, 0, 0, 1, 9090)));
}

#[test]
fn metrics_bind_falls_back_to_toml() {
    let file = FileConfig {
        metrics_bind: Some("127.0.0.1:9090".to_string()),
        ..FileConfig::default()
    };
    let resolved = resolve(&cli(Some("/books")), &file).unwrap();
    assert_eq!(resolved.metrics_bind, Some(v4(127, 0, 0, 1, 9090)));
}

#[test]
fn bad_metrics_bind_address_is_rejected() {
    let mut c = cli(Some("/books"));
    c.metrics_bind = Some("nope".to_string());
    let r = resolve(&c, &FileConfig::default());
    assert!(matches!(&r, Err(ConfigError::BadMetricsBind { value }) if value == "nope"));
}

fn validate_binds(bind: BindAddr, metrics: BindAddr) -> Result<(), ConfigError> {
    let mut c = cli(Some("/books"));
    c.bind = Some("bind".to_string());
    c.metrics_bind = Some("metrics".to_string());
    let resolved =
        Config::resolve(&c, &FileConfig::default(), Some(bind), Some(metrics)).unwrap();
    resolved.validate(true, true)
}

#[test]
fn metrics_bind_may_not_reuse_the_feed_servers_address() {
    assert!(matches!(
        validate_binds(v4(127, 0, 0, 1, 8080), v4(127, 0, 0, 1, 8080)),
        Err(ConfigError::MetricsBindConflict { .. })
    ));
}

#[test]
fn a_wildcard_feed_bind_collides_with_a_specific_metrics_bind() {
    assert!(matches!(
        validate_binds(v4(0, 0, 0, 0, 8080), v4(127, 0, 0, 1, 8080)),
        Err(ConfigError::MetricsBindConflict { .. })
    ));
}

#[test]
fn a_wildcard_metrics_bind_collides_with_a_specific_feed_bind() {
    assert!(matches!(
        validate_binds(v4(127, 0, 0, 1, 8080), v4(0, 0, 0, 0, 8080)),
        Err(ConfigError::MetricsBindConflict { .. })
    ));
}

#[test]
fn different_ports_never_collide() {
    assert!(
        validate_binds(v4(0, 0, 0, 0, 8080), v4(0, 0, 0, 0, 9090)).is_ok(),
        "distinct ports must be allowed, wildcard or not"
    );
}

#[test]
fn distinct_interfaces_on_one_port_are_allowed() {
    assert!(validate_binds(v4(127, 0, 0, 1, 8080), v4(192, 0, 2, 1, 8080)).is_ok());
}

#[test]
fn collision_check_is_symmetric_and_port_scoped() {
    let loopback = v4(127, 0, 0, 1, 8080);
    let wildcard = v4(0, 0, 0, 0, 8080);
    let other_port = v4(0, 0, 0, 0, 9090);
    let v6_wildcard = BindAddr { ip: Ip::V6(0), port: 8080 };

    assert!(binds_collide(loopback, wildcard));
    assert!(binds_collide(wildcard, loopback));
    assert!(binds_collide(loopback, loopback));
    assert!(binds_collide(v6_wildcard, loopback));
    assert!(!binds_collide(loopback, other_port));
    assert!(!binds_collide(wildcard, other_port));
}

#[test]
fn ipv4_mapped_ipv6_is_the_same_address_as_its_ipv4_form() {
    let loopback = v4(127, 0, 0, 1, 8080);
    let mapped_loopback = mapped(loopback);
    assert!(binds_collide(mapped_loopback, loopback));
    assert!(binds_collide(loopback, mapped_loopback));

    let mapped_wildcard = mapped(v4(0, 0, 0, 0, 8080));
    assert!(binds_collide(mapped_wildcard, loopback));

    let elsewhere = mapped(v4(192, 0, 2, 1, 8080));
    assert!(!binds_collide(elsewhere, loopback));
    let mapped_other_port = mapped(v4(127, 0, 0, 1, 9090));
    assert!(!binds_collide(mapped_other_port, loopback));
    assert_eq!(canonical_ip(mapped_loopback.ip), Ip::V4(0x7f00_0001));
}

#[test]
fn a_real_ipv6_address_is_left_alone() {
    let v6 = BindAddr {
        ip: Ip::V6(0x2001_0db8_0000_0000_0000_0000_0000_0001),
        port: 8080,
    };
    let loopback = v4(127, 0, 0, 1, 8080);
    assert!(!binds_collide(v6, loopback));
    assert!(binds_collide(v6, v6));
}

#[test]
fn mapped_metrics_bind_is_rejected_end_to_end() {
    assert!(matches!(
        validate_binds(v4(127, 0, 0, 1, 8080), mapped(v4(127, 0, 0, 1, 8080))),
        Err(ConfigError::MetricsBindConflict { .. })
    ));
}

#[test]
fn validate_rejects_a_missing_library() {
    let c = resolve(&cli(Some("/definitely/does/not/exist/12345")), &FileConfig::default()).unwrap();
    assert!(matches!(c.validate(false, false), Err(ConfigError::LibraryNotFound(_))));
}

#[test]
fn validate_rejects_a_missing_or_non_dir_library() {
    let c = resolve(&cli(Some("/lib")), &FileConfig::default()).unwrap();
    assert!(matches!(c.validate(true, false), Err(ConfigError::LibraryNotDir(p)) if p == "/lib"));
    assert!(matches!(c.validate(false, false), Err(ConfigError::LibraryNotFound(p)) if p == "/lib"));
    assert!(c.validate(true, true).is_ok());
}

#[test]
fn validate_accepts_a_real_dir_and_creates_data_dir() {
    let c = resolve(&cli(Some("/books")), &FileConfig::default()).unwrap();
    c.validate(true, true).unwrap();
    let StartUp::MakeDataDir(dir) = c.start_up(true, true, None) else {
        panic!("the data directory is to be made");
    };
    assert_eq!(dir, DEFAULT_DATA_DIR);
    assert!(c.data_dir_ready(Ok(())).is_ok());
    assert!(matches!(c.start_up(true, true, Some(Ok(()))), StartUp::Ready));
}

#[test]
fn validate_reports_data_dir_when_the_path_is_unwritable() {
    let mut cl = cli(Some("/books"));
    cl.data_dir = Some("/tmp/iam-a-file/data".to_string());
    let c = resolve(&cl, &FileConfig::default()).unwrap();
    let failed = || Err("not a directory".to_string());
    assert!(matches!(
        c.data_dir_ready(failed()),
        Err(ConfigError::DataDir { path, reason }) if path == "/tmp/iam-a-file/data" && reason == "not a directory"
    ));
    assert!(matches!(
        c.start_up(true, true, Some(failed())),
        StartUp::Refuse(ConfigError::DataDir { .. })
    ));
}

#[test]
fn the_data_directory_is_made_only_after_all_other_checks() {
    let c = resolve(&cli(Some("/books")), &FileConfig::default()).unwrap();
    for made in [None, Some(Ok(())), Some(Err("x".to_string()))] {
        assert!(matches!(
            c.start_up(false, false, made.clone()),
            StartUp::Refuse(ConfigError::LibraryNotFound(_))
        ));
        assert!(matches!(
            c.start_up(true, false, made),
            StartUp::Refuse(ConfigError::LibraryNotDir(_))
        ));
    }
    let mut cl = cli(Some("/books"));
    cl.metrics_bind = Some("0.0.0.0:8080".to_string());
    let bind = Some(v4(0, 0, 0, 0, 8080));
    let c = Config::resolve(&cl, &FileConfig::default(), bind, bind).unwrap();
    assert!(matches!(
        c.start_up(true, true, None),
        StartUp::Refuse(ConfigError::MetricsBindConflict { .. })
    ));
}

#[test]
fn resolve_takes_data_dir_bind_base_url_from_the_file_layer() {
    let file = FileConfig {
        library: Some("/lib".to_string()),
        data_dir: Some("/from-toml-data".to_string()),
        bind: Some("127.0.0.1:9999".to_string()),
        base_url: Some("https://toml.example/".to_string()),
        default_cover_url: Some("https://toml/cover.png".to_string()),
        force_embedded_chapters: Some(true),
        ..Default::default()
    };
    let c = resolve(&cli(None), &file).unwrap();
    assert_eq!(c.data_dir, "/from-toml-data");
    assert_eq!(c.bind, v4(127, 0, 0, 1, 9999));
    assert_eq!(c.base_url, "https://toml.example");
    assert_eq!(c.default_cover_url.as_deref(), Some("https://toml/cover.png"));
    assert!(c.force_embedded_chapters);
}

#[test]
fn transcode_defaults_off_and_resolves_cli_over_file() {
    let c = resolve(&cli(Some("/books")), &FileConfig::default()).unwrap();
    assert_eq!(c.transcode, TranscodeMode::Off, "copy-first by default");
    assert!(!c.transcode.is_on());

    let file = FileConfig {
        transcode: Some(TranscodeMode::Aac),
        ..Default::default()
    };
    let c = resolve(&cli(Some("/books")), &file).unwrap();
    assert_eq!(c.transcode, TranscodeMode::Aac, "set from the file layer");
    assert!(c.transcode.is_on());

    let mut cl = cli(Some("/books"));
    cl.transcode = Some(TranscodeMode::Mp3);
    assert_eq!(resolve(&cl, &file).unwrap().transcode, TranscodeMode::Mp3);
}

#[test]
fn mode_labels_are_pinned_and_round_trip() {
    for (mode, label) in [(StorageMode::Full, "full"), (StorageMode::Saver, "saver")] {
        assert_eq!(mode.label(), label);
        assert_eq!(StorageMode::from_label(label), Some(mode));
    }
    for (mode, label) in [
        (TranscodeMode::Off, "off"),
        (TranscodeMode::Aac, "aac"),
        (TranscodeMode::Mp3, "mp3"),
    ] {
        assert_eq!(mode.label(), label);
        assert_eq!(TranscodeMode::from_label(label), Some(mode));
    }
    assert_eq!(StorageMode::from_label(""), None);
    assert_eq!(StorageMode::from_label("Saver"), None);
    assert_eq!(TranscodeMode::from_label(""), None);
    assert_eq!(TranscodeMode::from_label("flac"), None);
}

#[test]
fn storage_mode_defaults_to_full_and_cache_defaults_apply() {
    let c = resolve(&cli(Some("/books")), &FileConfig::default()).unwrap();
    assert_eq!(c.storage_mode, StorageMode::Full);
    assert_eq!(c.cache_size_bytes, Some(DEFAULT_CACHE_SIZE_BYTES));
    assert_eq!(c.cache_ttl, None);
}

#[test]
fn remux_non_faststart_defaults_off_and_resolves_from_either_layer() {
    let c = resolve(&cli(Some("/books")), &FileConfig::default()).unwrap();
    assert!(!c.remux_non_faststart, "default off");

    let file = FileConfig {
        remux_non_faststart: Some(true),
        ..Default::default()
    };
    assert!(
        resolve(&cli(Some("/books")), &file).unwrap().remux_non_faststart,
        "enabled from the file layer"
    );

    let mut cl = cli(Some("/books"));
    cl.remux_non_faststart = true;
    assert!(
        resolve(&cl, &FileConfig::default()).unwrap().remux_non_faststart,
        "enabled from the CLI flag"
    );
}

#[test]
fn storage_knobs_resolve_from_cli_over_file() {
    let file = FileConfig {
        storage_mode: Some(StorageMode::Full),
        cache_size: Some("1GB".to_string()),
        cache_ttl: Some("7d".to_string()),
        ..Default::default()
    };
    let mut cl = cli(Some("/books"));
    cl.storage_mode = Some(StorageMode::Saver);
    cl.cache_size = Some("512MB".to_string());
    cl.cache_ttl = Some("30d".to_string());
    let c = resolve(&cl, &file).unwrap();
    assert_eq!(c.storage_mode, StorageMode::Saver);
    assert_eq!(c.cache_size_bytes, Some(512 * 1024 * 1024));
    assert_eq!(c.cache_ttl, Some(30 * 86_400));
}

#[test]
fn storage_knobs_resolve_from_the_file_layer() {
    let file = FileConfig {
        storage_mode: Some(StorageMode::Saver),
        cache_size: Some("off".to_string()),
        cache_ttl: Some("12h".to_string()),
        ..Default::default()
    };
    let c = resolve(&cli(Some("/books")), &file).unwrap();
    assert_eq!(c.storage_mode, StorageMode::Saver);
    assert_eq!(c.cache_size_bytes, None);
    assert_eq!(c.cache_ttl, Some(12 * 3600));
}

#[test]
fn parse_size_handles_units_and_unbounded() {
    assert_eq!(parse_size("2GB").unwrap(), Some(2 * 1024 * 1024 * 1024));
    assert_eq!(parse_size("500 mb").unwrap(), Some(500 * 1024 * 1024));
    assert_eq!(parse_size("1048576").unwrap(), Some(1_048_576));
    assert_eq!(parse_size("1.5gb").unwrap(), Some(1_610_612_736));
    for unbounded in ["0", "off", "none", "unbounded", ""] {
        assert_eq!(parse_size(unbounded).unwrap(), None, "{unbounded:?}");
    }
    assert!(parse_size("banana").is_err());
    assert!(parse_size("10 zb").is_err());
    assert!(parse_size("-5gb").is_err(), "negative size rejected");
}

#[test]
fn a_size_below_one_byte_is_a_mistake() {
    for tiny in ["0.5", "0.0004kb", ".9b", "0.0000001 mb"] {
        let err = parse_size(tiny).unwrap_err();
        assert!(err.starts_with("less than one byte"), "{tiny}: {err}");
    }
    for zero in ["0kb", "0.0", "-0", "00 gb"] {
        assert_eq!(parse_size(zero).unwrap(), None, "{zero}");
    }
    assert_eq!(parse_size("1").unwrap(), Some(1));
    assert_eq!(parse_size("0.001kb").unwrap(), Some(1));
    let mut cl = cli(Some("/books"));
    cl.cache_size = Some("0.5".to_string());
    assert!(matches!(
        resolve(&cl, &FileConfig::default()),
        Err(ConfigError::BadCacheSize { .. })
    ));
}

#[test]
fn parse_duration_handles_units_and_off() {
    assert_eq!(parse_duration("30d").unwrap(), Some(2_592_000));
    assert_eq!(parse_duration("12h").unwrap(), Some(43_200));
    assert_eq!(parse_duration("90").unwrap(), Some(90));
    assert_eq!(parse_duration("2w").unwrap(), Some(1_209_600));
    for off in ["0", "off", "none", "never", ""] {
        assert_eq!(parse_duration(off).unwrap(), None, "{off:?}");
    }
    assert!(parse_duration("5 fortnights").is_err());
    assert!(parse_duration("1.5h").is_err());
    assert_eq!(parse_duration("0h").unwrap(), None, "zero with a unit is no-TTL");
}

#[test]
fn bad_cache_size_and_ttl_are_config_errors() {
    let mut cl = cli(Some("/books"));
    cl.cache_size = Some("lots".to_string());
    assert!(matches!(
        resolve(&cl, &FileConfig::default()),
        Err(ConfigError::BadCacheSize { .. })
    ));
    let mut cl = cli(Some("/books"));
    cl.cache_ttl = Some("soon".to_string());
    assert!(matches!(
        resolve(&cl, &FileConfig::default()),
        Err(ConfigError::BadCacheTtl { .. })
    ));
}

#[test]
fn stem_sidecar_for_a_top_level_file() {
    let audio = "/lib/Author - Title.m4b";
    let mut files = vec!["/lib/.podspine.toml".to_string()];
    assert_eq!(sidecar_path(audio, false, "/lib", &files), None, "no sidecar yet (stem)");

    files.push("/lib/Author - Title.podspine.toml".to_string());
    assert_eq!(
        sidecar_path(audio, false, "/lib", &files).as_deref(),
        Some("/lib/Author - Title.podspine.toml")
    );
}

#[test]
fn folder_sidecar_for_an_mp3_folder_and_a_lone_file_in_a_subfolder() {
    let files = vec![
        "/lib/A Folder Book/.podspine.toml".to_string(),
        "/lib/Single/.podspine.toml".to_string(),
    ];
    assert_eq!(
        sidecar_path("/lib/A Folder Book", true, "/lib", &files).as_deref(),
        Some("/lib/A Folder Book/.podspine.toml"),
        "mp3 folder: inside file"
    );
    assert_eq!(
        sidecar_path("/lib/Single/audio.m4b", false, "/lib", &files).as_deref(),
        Some("/lib/Single/.podspine.toml"),
        "lone file in a subfolder: folder-level file applies"
    );
}

#[test]
fn a_sidecar_beside_the_audio_comes_before_one_for_the_folder() {
    assert_eq!(
        sidecar_candidates("/lib/Single/audio.m4b", false, "/lib"),
        vec!["/lib/Single/audio.podspine.toml", "/lib/Single/.podspine.toml"]
    );
}

#[test]
fn server_wide_keys_in_a_sidecar_are_reported_in_order() {
    let mut own = BookOverrides::default();
    assert!(own.ignored_global_keys().is_empty());
    own.globals = GlobalKeys { bind: true, cache_size: true, ..Default::default() };
    assert_eq!(own.ignored_global_keys(), vec!["bind", "cache_size"]);
    own.globals = GlobalKeys {
        library: true,
        data_dir: true,
        bind: true,
        base_url: true,
        config: true,
        cache_size: true,
        cache_ttl: true,
    };
    assert_eq!(
        own.ignored_global_keys(),
        vec!["library", "data_dir", "bind", "base_url", "config", "cache_size", "cache_ttl"]
    );
}

#[test]
fn an_error_quotes_the_value_that_is_wrong() {
    let err = parse_size("10 zb").unwrap_err();
    assert!(err.contains("\"zb\""), "{err}");
    let err = parse_duration("5 fort\"nights").unwrap_err();
    assert!(err.contains("\\\""), "{err}");
}

#[test]
fn a_value_is_cut_at_its_first_letter() {
    let chars: Vec<char> = " 2.5 Gb".chars().collect();
    let (number, unit) = split_number_unit(&chars);
    assert_eq!(number.iter().collect::<String>(), "2.5");
    assert_eq!(unit.iter().collect::<String>().to_lowercase(), "gb");
}

#[test]
fn all_slashes_at_the_end_of_an_address_go() {
    assert_eq!(without_slashes("http://h//"), "http://h");
    assert_eq!(without_slashes("///"), "");
    assert_eq!(without_slashes("http://h"), "http://h");
}

#[test]
fn a_bad_size_or_duration_says_what_is_wrong() {
    let size = |s: &str| parse_size(s).unwrap_err();
    assert_eq!(size("banana"), "not a number: \"\"");
    assert_eq!(size("1\"b"), "not a number: \"1\\\"\"");
    assert_eq!(size("10 ZB"), "unknown size unit \"zb\" (use B/KB/MB/GB/TB)");
    assert_eq!(size(" -5gb"), "not a positive size: \" -5gb\"");
    let duration = |s: &str| parse_duration(s).unwrap_err();
    assert_eq!(duration("1.5h"), "not a whole number: \"1.5\"");
    assert_eq!(
        duration("5 fortnights"),
        "unknown duration unit \"fortnights\" (use s/m/h/d/w)"
    );
}
