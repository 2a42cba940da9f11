use red_crescent::config::{
    default_workers, load_file_config, Config, ConfigFile, Settings, DEFAULT_TIMEOUT_MS,
};
use red_crescent::runtime::{render_config, ConfigId, ConfigIds};

#[test]
fn missing_file_is_not_an_error() {
    let config = load_file_config(b"/nonexistent/rc_config.lua", ConfigFile::Missing).ok().unwrap();
    assert!(config.bind.is_none());
}

fn load_error(file: ConfigFile) -> String {
    load_file_config(b"/srv/rc_config.lua", file).err().unwrap()
}

#[test]
fn serve_dir_is_rejected_with_an_explanation() {
    let err = load_error(ConfigFile::Table {
        names_serve_dir: true,
        settings: Ok(Settings::default()),
    });
    assert!(err.contains("--serve-dir"), "{err}");
    assert!(err.starts_with("/srv/rc_config.lua: 'serve_dir' cannot be set here"), "{err}");
}

#[test]
fn config_file_failures_name_the_file() {
    assert_eq!(
        load_error(ConfigFile::Unreadable("denied".to_string())),
        "cannot read /srv/rc_config.lua: denied"
    );
    assert_eq!(
        load_error(ConfigFile::Failed("syntax error".to_string())),
        "/srv/rc_config.lua: syntax error"
    );
    assert_eq!(
        load_error(ConfigFile::Table {
            names_serve_dir: false,
            settings: Err("unknown field".to_string()),
        }),
        "/srv/rc_config.lua: unknown field"
    );
    let settings = Settings { workers: Some(3), ..Default::default() };
    let loaded = load_file_config(
        b"/srv/rc_config.lua",
        ConfigFile::Table { names_serve_dir: false, settings: Ok(settings) },
    );
    assert_eq!(loaded.ok().unwrap().workers, Some(3));
}

#[test]
fn limits_in_megabytes_become_bytes() {
    let mut ids = ConfigIds::new();
    let id = ConfigId::new(&mut ids);
    let r = render_config(&Config::default(None), id, b"/srv".to_vec(), b"/data".to_vec(), None);
    assert_eq!(r.limits.memory_bytes, 64 * 1024 * 1024);
    assert_eq!(r.limits.timeout_ms, 5000);
    assert_eq!(r.thread_limits.memory_bytes, 256 * 1024 * 1024);
    assert_eq!(r.thread_limits.timeout_ms, None);
    assert_eq!((r.serve_dir.as_slice(), r.data_dir.as_slice()), (b"/srv".as_slice(), b"/data".as_slice()));
    assert!(r.pool && r.c_module_path.is_none());
    assert_eq!(r.pool_max_requests, 10_000);
}

#[test]
fn c_modules_are_off_when_unset() {
    let resolved = Config::resolve(&Settings::default(), Settings::default(), 4);
    assert!(resolved.c_module_dirs.is_empty());
}

#[test]
fn flags_win_over_the_file_which_wins_over_defaults() {
    let cli = Settings { bind: Some("1.2.3.4:80".to_string()), ..Default::default() };
    let file = Settings {
        bind: Some("9.9.9.9:99".to_string()),
        workers: Some(16),
        ..Default::default()
    };
    let resolved = Config::resolve(&cli, file, 4);
    assert_eq!(resolved.bind, "1.2.3.4:80", "flag must win");
    assert_eq!(resolved.workers, 16, "file must fill the gap");
    assert_eq!(resolved.timeout_ms, DEFAULT_TIMEOUT_MS, "default must fill the rest");
}

#[test]
fn defaults_fill_everything() {
    let c = Config::default(None);
    assert_eq!(c.bind, "127.0.0.1:8080");
    assert_eq!(c.serve_dir, b"./demos");
    assert_eq!(c.data_dir, b"./data");
    assert_eq!(c.index, "index.lhtml");
    assert_eq!((c.workers, c.timeout_ms, c.memory_limit_mb), (4, 5000, 64));
    assert_eq!(Config::default(Some(12)).workers, 12, "one per core");
    assert_eq!(c.max_body_size, 1024 * 1024);
    assert_eq!(c.max_upload_size, 256 * 1024 * 1024);
    assert_eq!(c.max_upload_files, 256);
    assert!(c.static_files && c.lua_pool && !c.dev);
    assert!(c.fallback.is_none());
    assert_eq!(c.thread_memory_limit_mb, 256);
    assert_eq!(c.sqlite_idle_connections, 2);
    assert_eq!(c.lua_pool_max_requests, 10_000);
    assert_eq!(c.inline_render_budget_us, 1000);
}

#[test]
fn lists_replace_each_other_whole() {
    let cli = Settings { threads: vec!["a.lua".to_string()], ..Default::default() };
    let file = Settings {
        threads: vec!["b.lua".to_string(), "c.lua".to_string()],
        c_module_dirs: vec![b"/opt/lua".to_vec()],
        fallback: Some("app.lhtml".to_string()),
        ..Default::default()
    };
    let c = Config::resolve(&cli, file, 4);
    assert_eq!(c.threads, ["a.lua"]);
    assert_eq!(c.c_module_dirs, [b"/opt/lua".to_vec()]);
    assert_eq!(c.fallback.as_deref(), Some("app.lhtml"));
}

#[test]
fn the_config_file_is_in_the_serve_dir_unless_named() {
    let none = Settings::default();
    assert_eq!(none.serve_dir(), b"./demos");
    assert_eq!(none.config_path(b"/srv"), Some(b"/srv/rc_config.lua".to_vec()));
    let named = Settings {
        serve_dir: Some(b"/www".to_vec()),
        config: Some(b"/etc/rc.lua".to_vec()),
        ..Default::default()
    };
    assert_eq!(named.serve_dir(), b"/www");
    assert_eq!(named.config_path(b"/srv"), Some(b"/etc/rc.lua".to_vec()));
    let off = Settings { no_config: true, ..Default::default() };
    assert_eq!(off.config_path(b"/srv"), None);
}

#[test]
fn a_zero_thread_timeout_is_none() {
    let mut c = Config::default(None);
    assert_eq!(c.thread_deadline_ms(), None);
    c.thread_timeout_ms = Some(0);
    assert_eq!(c.thread_deadline_ms(), None);
    c.thread_timeout_ms = Some(5);
    assert_eq!(c.thread_deadline_ms(), Some(5));
    assert_eq!(default_workers(Some(12)), 12);
    assert_eq!(default_workers(None), 4);
}
