//! Server configuration.
//!
//! Settings come from three places, in decreasing priority: command-line flags,
//! environment variables, and an optional `rc_config.lua` in the serve directory.
//! Anything still unset falls back to the defaults below.

use vstd::prelude::*;
use vstd::utf8::*;
use crate::path;
use crate::path::PathBytes;
use crate::text;

verus! {

pub const DEFAULT_BIND: &'static str = "127.0.0.1:8080";

pub const DEFAULT_SERVE_DIR: &'static str = "./demos";

pub const DEFAULT_DATA_DIR: &'static str = "./data";

pub const DEFAULT_INDEX: &'static str = "index.lhtml";

pub const DEFAULT_TIMEOUT_MS: u64 = 5000;

pub const DEFAULT_MEMORY_LIMIT_MB: usize = 64;

/// Higher than the request cap: a thread is long-lived and hitting this kills only
/// that thread.
pub const DEFAULT_THREAD_MEMORY_LIMIT_MB: usize = 256;

/// Warm SQLite connections parked per database, per worker thread.
pub const DEFAULT_SQLITE_IDLE_CONNECTIONS: usize = 2;

/// A backstop against slow accumulation, so it is generous.
pub const DEFAULT_LUA_POOL_MAX_REQUESTS: u32 = 10_000;

pub const DEFAULT_INLINE_RENDER_BUDGET_US: u64 = 1000;

pub const DEFAULT_MAX_BODY_SIZE: usize = 1_048_576;

pub const DEFAULT_MAX_UPLOAD_SIZE: usize = 268_435_456;

pub const DEFAULT_MAX_UPLOAD_FILES: usize = 256;

/// The file looked for inside the serve directory.
pub const CONFIG_FILE_NAME: &'static str = "rc_config.lua";

/// One worker per core, four where the number of cores is not known.
pub open spec fn workers_for(available: Option<usize>) -> usize {
    match available {
        Some(cores) => cores,
        None => 4,
    }
}

/// One per core: a template rendering on its worker can use no more cores than
/// there are workers. `available` is what the machine says of its cores.
pub fn default_workers(available: Option<usize>) -> (n: usize)
    ensures
        n == workers_for(available),
{
    match available {
        Some(cores) => cores,
        None => 4,
    }
}

/// What one source sets. Flags and the config file have the same shape.
pub struct Settings {
    /// Address to bind.
    pub bind: Option<String>,
    /// Directory to serve from, and where the config file is looked for.
    pub serve_dir: Option<PathBytes>,
    /// Path to the config file.
    pub config: Option<PathBytes>,
    /// Ignore the config file entirely.
    pub no_config: bool,
    /// Number of HTTP worker threads.
    pub workers: Option<usize>,
    /// Per-request Lua execution time limit in milliseconds.
    pub timeout_ms: Option<u64>,
    /// Per-request Lua memory limit in megabytes.
    pub memory_limit_mb: Option<usize>,
    /// Maximum request body size in bytes, non-multipart.
    pub max_body_size: Option<usize>,
    /// Writable data directory.
    pub data_dir: Option<PathBytes>,
    /// Maximum total size of a multipart upload in bytes.
    pub max_upload_size: Option<usize>,
    /// Maximum number of file parts in one upload.
    pub max_upload_files: Option<usize>,
    /// Serve files other than templates as static assets.
    pub static_files: Option<bool>,
    /// File served for `/` and directory paths.
    pub index: Option<String>,
    /// Template rendered when a path resolves to no file.
    pub fallback: Option<String>,
    /// Detailed error pages and no template caching.
    pub dev: Option<bool>,
    /// Background thread scripts spawned at boot.
    pub threads: Vec<String>,
    /// Time limit for one awake stretch of a background thread, in milliseconds.
    pub thread_timeout_ms: Option<u64>,
    /// Memory limit for a background thread in megabytes.
    pub thread_memory_limit_mb: Option<usize>,
    /// Warm SQLite connections kept per database, per worker thread.
    pub sqlite_idle_connections: Option<usize>,
    /// Directories of Lua C modules that `require` may load.
    pub c_module_dirs: Vec<PathBytes>,
    /// Reuse Lua states between requests.
    pub lua_pool: Option<bool>,
    /// Requests one pooled Lua state serves before it is retired.
    pub lua_pool_max_requests: Option<u32>,
    /// Templates that render within this many microseconds run on the HTTP worker.
    pub inline_render_budget_us: Option<u64>,
}

impl Settings {
    /// Nothing is set.
    pub open spec fn unset(self) -> bool {
        &&& self.bind is None
        &&& self.serve_dir is None
        &&& self.config is None
        &&& !self.no_config
        &&& self.workers is None
        &&& self.timeout_ms is None
        &&& self.memory_limit_mb is None
        &&& self.max_body_size is None
        &&& self.data_dir is None
        &&& self.max_upload_size is None
        &&& self.max_upload_files is None
        &&& self.static_files is None
        &&& self.index is None
        &&& self.fallback is None
        &&& self.dev is None
        &&& self.threads@.len() == 0
        &&& self.thread_timeout_ms is None
        &&& self.thread_memory_limit_mb is None
        &&& self.sqlite_idle_connections is None
        &&& self.c_module_dirs@.len() == 0
        &&& self.lua_pool is None
        &&& self.lua_pool_max_requests is None
        &&& self.inline_render_budget_us is None
    }
}

impl Default for Settings {
    fn default() -> (s: Settings)
        ensures
            s.unset(),
    {
        Settings {
            bind: None,
            serve_dir: None,
            config: None,
            no_config: false,
            workers: None,
            timeout_ms: None,
            memory_limit_mb: None,
            max_body_size: None,
            data_dir: None,
            max_upload_size: None,
            max_upload_files: None,
            static_files: None,
            index: None,
            fallback: None,
            dev: None,
            threads: Vec::new(),
            thread_timeout_ms: None,
            thread_memory_limit_mb: None,
            sqlite_idle_connections: None,
            c_module_dirs: Vec::new(),
            lua_pool: None,
            lua_pool_max_requests: None,
            inline_render_budget_us: None,
        }
    }
}

pub open spec fn str_of(s: Option<String>) -> Option<Seq<char>> {
    match s {
        Some(t) => Some(t@),
        None => None,
    }
}

pub open spec fn bytes_of(p: Option<PathBytes>) -> Option<Seq<u8>> {
    match p {
        Some(b) => Some(b@),
        None => None,
    }
}

pub open spec fn path_views(list: Seq<PathBytes>) -> Seq<Seq<u8>> {
    list.map_values(|p: PathBytes| p@)
}

pub open spec fn text_views(list: Seq<String>) -> Seq<Seq<char>> {
    list.map_values(|s: String| s@)
}

fn copy_text(s: &Option<String>) -> (r: Option<String>)
    ensures
        str_of(r) == str_of(*s),
{
    match s {
        Some(t) => Some(t.clone()),
        None => None,
    }
}

fn copy_path(p: &Option<PathBytes>) -> (r: Option<PathBytes>)
    ensures
        bytes_of(r) == bytes_of(*p),
{
    match p {
        Some(b) => Some(path::bytes_copy(b.as_slice())),
        None => None,
    }
}

impl Settings {
    /// Where the serve directory is.
    pub open spec fn serve_location(self) -> Seq<u8> {
        match self.serve_dir {
            Some(dir) => dir@,
            None => encode_utf8(DEFAULT_SERVE_DIR@),
        }
    }

    /// The serve directory, which must be known before the config file can be
    /// found, so it is the one setting the file cannot provide.
    pub fn serve_dir(&self) -> (dir: PathBytes)
        ensures
            dir@ == self.serve_location(),
    {
        match &self.serve_dir {
            Some(dir) => path::bytes_copy(dir.as_slice()),
            None => path::bytes_copy(DEFAULT_SERVE_DIR.as_bytes()),
        }
    }

    /// Where to look for the config file, if enabled.
    pub fn config_path(&self, serve_dir: &[u8]) -> (r: Option<PathBytes>)
        ensures
            bytes_of(r) == (if self.no_config {
                None
            } else {
                match self.config {
                    Some(p) => Some(p@),
                    None => Some(path::joined(serve_dir@, encode_utf8(CONFIG_FILE_NAME@))),
                }
            }),
            !self.no_config && self.config is None ==> bytes_of(r) == Some(
                path::joined(serve_dir@, encode_utf8("rc_config.lua"@)),
            ),
    {
        if self.no_config {
            return None;
        }
        match &self.config {
            Some(p) => Some(path::bytes_copy(p.as_slice())),
            None => Some(path::join(serve_dir, CONFIG_FILE_NAME.as_bytes())),
        }
    }
}

// ---- the config file ------------------------------------------------------------

/// What is at the place of the config file.
pub enum ConfigFile {
    Missing,
    /// It is there but cannot be read.
    Unreadable(String),
    /// It does not evaluate to a table.
    Failed(String),
    /// The table it evaluates to: whether it has a `serve_dir` field, and the
    /// settings in it or what is wrong with them.
    Table { names_serve_dir: bool, settings: Result<Settings, String> },
}

/// What a config file that sets the serve directory is told.
pub open spec fn serve_dir_refusal() -> Seq<char> {
    ": 'serve_dir' cannot be set here — the config file is found *inside* the serve directory. Use --serve-dir or RC_SERVE_DIR."@
}

/// The settings of the config file at `path`. A missing file is not an error: every
/// setting then comes from flags and defaults.
pub fn load_file_config(path: &[u8], file: ConfigFile) -> (r: Result<Settings, String>)
    ensures
        match file {
            ConfigFile::Missing => r is Ok && r->Ok_0.unset(),
            ConfigFile::Unreadable(e) => r is Err && r->Err_0@ == "cannot read "@
                + text::lossy_utf8(path@) + ": "@ + e@,
            ConfigFile::Failed(e) => r is Err && r->Err_0@ == text::lossy_utf8(path@) + ": "@ + e@,
            ConfigFile::Table { names_serve_dir, settings } => if names_serve_dir {
                r is Err && r->Err_0@ == text::lossy_utf8(path@) + serve_dir_refusal()
            } else {
                match settings {
                    Ok(s) => r == Ok::<Settings, String>(s),
                    Err(e) => r is Err && r->Err_0@ == text::lossy_utf8(path@) + ": "@ + e@,
                }
            },
        },
{
    let shown = text::lossy(path);
    match file {
        ConfigFile::Missing => Ok(Settings::default()),
        ConfigFile::Unreadable(e) => {
            let mut message = "cannot read ".to_string();
            message.append(shown.as_str());
            message.append(": ");
            message.append(e.as_str());
            Err(message)
        },
        ConfigFile::Failed(e) => Err(text::join3(shown.as_str(), ": ", e.as_str())),
        ConfigFile::Table { names_serve_dir, settings } => {
            if names_serve_dir {
                return Err(
                    text::join2(
                        shown.as_str(),
                        ": 'serve_dir' cannot be set here — the config file is found *inside* the serve directory. Use --serve-dir or RC_SERVE_DIR.",
                    ),
                );
            }
            match settings {
                Ok(s) => Ok(s),
                Err(e) => Err(text::join3(shown.as_str(), ": ", e.as_str())),
            }
        },
    }
}

/// Fully resolved configuration used by the rest of the server.
pub struct Config {
    pub bind: String,
    pub serve_dir: PathBytes,
    pub workers: usize,
    pub timeout_ms: u64,
    pub memory_limit_mb: usize,
    pub max_body_size: usize,
    pub data_dir: PathBytes,
    pub max_upload_size: usize,
    pub max_upload_files: usize,
    pub static_files: bool,
    pub index: String,
    /// Template for paths that resolve to nothing, relative to the serve
    /// directory. `None` makes those a 404.
    pub fallback: Option<String>,
    pub dev: bool,
    pub threads: Vec<String>,
    /// Deadline for one awake stretch of a background thread, if any.
    pub thread_timeout_ms: Option<u64>,
    pub thread_memory_limit_mb: usize,
    pub sqlite_idle_connections: usize,
    /// Directories `require` may load native modules from. Empty leaves C modules
    /// disabled entirely.
    pub c_module_dirs: Vec<PathBytes>,
    pub lua_pool: bool,
    pub lua_pool_max_requests: u32,
    /// Render time under which a template may run on the HTTP worker; 0 never.
    pub inline_render_budget_us: u64,
}

/// Flags win, then the file, then the built-in default.
pub open spec fn picked<T>(flag: Option<T>, file: Option<T>, fallback: T) -> T {
    match flag {
        Some(v) => v,
        None => match file {
            Some(v) => v,
            None => fallback,
        },
    }
}

/// Flags win, then the file.
pub open spec fn first_set<T>(flag: Option<T>, file: Option<T>) -> Option<T> {
    match flag {
        Some(v) => Some(v),
        None => file,
    }
}

fn pick<T>(flag: Option<T>, file: Option<T>, fallback: T) -> (r: T)
    ensures
        r == picked(flag, file, fallback),
{
    match flag {
        Some(v) => v,
        None => match file {
            Some(v) => v,
            None => fallback,
        },
    }
}

/// A repeatable flag is unset when empty, so the file only applies then.
fn pick_texts(flag: &Vec<String>, file: Vec<String>) -> (r: Vec<String>)
    ensures
        text_views(r@) == (if flag@.len() == 0 {
            text_views(file@)
        } else {
            text_views(flag@)
        }),
{
    if flag.len() == 0 {
        return file;
    }
    let mut out: Vec<String> = Vec::new();
    let mut i: usize = 0;
    while i < flag.len()
        invariant
            i <= flag@.len(),
            text_views(out@) == text_views(flag@).take(i as int),
        decreases flag@.len() - i,
    {
        let ghost before = out@;
        out.push(flag[i].clone());
        assert(text_views(out@) =~= text_views(before).push(flag@[i as int]@));
        assert(text_views(flag@).take(i + 1) =~= text_views(flag@).take(i as int).push(
            flag@[i as int]@,
        ));
        i = i + 1;
    }
    assert(text_views(flag@).take(i as int) =~= text_views(flag@));
    out
}

fn pick_paths(flag: &Vec<PathBytes>, file: Vec<PathBytes>) -> (r: Vec<PathBytes>)
    ensures
        path_views(r@) == (if flag@.len() == 0 {
            path_views(file@)
        } else {
            path_views(flag@)
        }),
{
    if flag.len() == 0 {
        return file;
    }
    let mut out: Vec<PathBytes> = Vec::new();
    let mut i: usize = 0;
    while i < flag.len()
        invariant
            i <= flag@.len(),
            path_views(out@) == path_views(flag@).take(i as int),
        decreases flag@.len() - i,
    {
        let ghost before = out@;
        out.push(path::bytes_copy(flag[i].as_slice()));
        assert(path_views(out@) =~= path_views(before).push(flag@[i as int]@));
        assert(path_views(flag@).take(i + 1) =~= path_views(flag@).take(i as int).push(
            flag@[i as int]@,
        ));
        i = i + 1;
    }
    assert(path_views(flag@).take(i as int) =~= path_views(flag@));
    out
}

impl Config {
    /// This configuration is `cli` merged over `file` over the defaults.
    pub open spec fn merges(self, cli: Settings, file: Settings, workers: usize) -> bool {
        &&& self.bind@ == picked(str_of(cli.bind), str_of(file.bind), DEFAULT_BIND@)
        &&& self.serve_dir@ == cli.serve_location()
        &&& self.workers == picked(cli.workers, file.workers, workers)
        &&& self.timeout_ms == picked(cli.timeout_ms, file.timeout_ms, DEFAULT_TIMEOUT_MS)
        &&& self.memory_limit_mb == picked(
            cli.memory_limit_mb,
            file.memory_limit_mb,
            DEFAULT_MEMORY_LIMIT_MB,
        )
        &&& self.max_body_size == picked(
            cli.max_body_size,
            file.max_body_size,
            DEFAULT_MAX_BODY_SIZE,
        )
        &&& self.data_dir@ == picked(
            bytes_of(cli.data_dir),
            bytes_of(file.data_dir),
            encode_utf8(DEFAULT_DATA_DIR@),
        )
        &&& self.max_upload_size == picked(
            cli.max_upload_size,
            file.max_upload_size,
            DEFAULT_MAX_UPLOAD_SIZE,
        )
        &&& self.max_upload_files == picked(
            cli.max_upload_files,
            file.max_upload_files,
            DEFAULT_MAX_UPLOAD_FILES,
        )
        &&& self.static_files == picked(cli.static_files, file.static_files, true)
        &&& self.index@ == picked(str_of(cli.index), str_of(file.index), DEFAULT_INDEX@)
        &&& str_of(self.fallback) == first_set(str_of(cli.fallback), str_of(file.fallback))
        &&& self.dev == picked(cli.dev, file.dev, false)
        &&& text_views(self.threads@) == (if cli.threads@.len() == 0 {
            text_views(file.threads@)
        } else {
            text_views(cli.threads@)
        })
        &&& self.thread_timeout_ms == first_set(cli.thread_timeout_ms, file.thread_timeout_ms)
        &&& self.thread_memory_limit_mb == picked(
            cli.thread_memory_limit_mb,
            file.thread_memory_limit_mb,
            DEFAULT_THREAD_MEMORY_LIMIT_MB,
        )
        &&& self.sqlite_idle_connections == picked(
            cli.sqlite_idle_connections,
            file.sqlite_idle_connections,
            DEFAULT_SQLITE_IDLE_CONNECTIONS,
        )
        &&& path_views(self.c_module_dirs@) == (if cli.c_module_dirs@.len() == 0 {
            path_views(file.c_module_dirs@)
        } else {
            path_views(cli.c_module_dirs@)
        })
        &&& self.lua_pool == picked(cli.lua_pool, file.lua_pool, true)
        &&& self.lua_pool_max_requests == picked(
            cli.lua_pool_max_requests,
            file.lua_pool_max_requests,
            DEFAULT_LUA_POOL_MAX_REQUESTS,
        )
        &&& self.inline_render_budget_us == picked(
            cli.inline_render_budget_us,
            file.inline_render_budget_us,
            DEFAULT_INLINE_RENDER_BUDGET_US,
        )
    }

    /// Merges the three sources: flags and environment win over the file, which
    /// wins over the defaults. `workers` is the default number of workers.
    pub fn resolve(cli: &Settings, file: Settings, workers: usize) -> (config: Config)
        ensures
            config.merges(*cli, file, workers),
    {
        Config {
            serve_dir: cli.serve_dir(),
            bind: pick(copy_text(&cli.bind), file.bind, DEFAULT_BIND.to_string()),
            workers: pick(cli.workers, file.workers, workers),
            timeout_ms: pick(cli.timeout_ms, file.timeout_ms, DEFAULT_TIMEOUT_MS),
            memory_limit_mb: pick(
                cli.memory_limit_mb,
                file.memory_limit_mb,
                DEFAULT_MEMORY_LIMIT_MB,
            ),
            max_body_size: pick(cli.max_body_size, file.max_body_size, DEFAULT_MAX_BODY_SIZE),
            data_dir: pick(
                copy_path(&cli.data_dir),
                file.data_dir,
                path::bytes_copy(DEFAULT_DATA_DIR.as_bytes()),
            ),
            max_upload_size: pick(
                cli.max_upload_size,
                file.max_upload_size,
                DEFAULT_MAX_UPLOAD_SIZE,
            ),
            max_upload_files: pick(
                cli.max_upload_files,
                file.max_upload_files,
                DEFAULT_MAX_UPLOAD_FILES,
            ),
            static_files: pick(cli.static_files, file.static_files, true),
            index: pick(copy_text(&cli.index), file.index, DEFAULT_INDEX.to_string()),
            fallback: match &cli.fallback {
                Some(f) => Some(f.clone()),
                None => file.fallback,
            },
            dev: pick(cli.dev, file.dev, false),
            threads: pick_texts(&cli.threads, file.threads),
            thread_timeout_ms: match cli.thread_timeout_ms {
                Some(ms) => Some(ms),
                None => file.thread_timeout_ms,
            },
            thread_memory_limit_mb: pick(
                cli.thread_memory_limit_mb,
                file.thread_memory_limit_mb,
                DEFAULT_THREAD_MEMORY_LIMIT_MB,
            ),
            sqlite_idle_connections: pick(
                cli.sqlite_idle_connections,
                file.sqlite_idle_connections,
                DEFAULT_SQLITE_IDLE_CONNECTIONS,
            ),
            c_module_dirs: pick_paths(&cli.c_module_dirs, file.c_module_dirs),
            lua_pool: pick(cli.lua_pool, file.lua_pool, true),
            lua_pool_max_requests: pick(
                cli.lua_pool_max_requests,
                file.lua_pool_max_requests,
                DEFAULT_LUA_POOL_MAX_REQUESTS,
            ),
            inline_render_budget_us: pick(
                cli.inline_render_budget_us,
                file.inline_render_budget_us,
                DEFAULT_INLINE_RENDER_BUDGET_US,
            ),
        }
    }

    /// Every setting at its default, on a machine with this many cores, as far as
    /// that is known.
    pub fn default(available: Option<usize>) -> (config: Config)
        ensures
            exists|cli: Settings, file: Settings|
                cli.unset() && file.unset() && #[trigger] config.merges(
                    cli,
                    file,
                    workers_for(available),
                ),
    {
        let cli = Settings::default();
        let file = Settings::default();
        let config = Config::resolve(&cli, file, default_workers(available));
        config
    }

    /// The deadline of background threads: 0 reads as "no deadline", same as
    /// leaving it unset.
    pub open spec fn thread_deadline(self) -> Option<u64> {
        match self.thread_timeout_ms {
            Some(ms) => if ms > 0 {
                Some(ms)
            } else {
                None
            },
            None => None,
        }
    }

    /// The deadline of background threads.
    pub fn thread_deadline_ms(&self) -> (r: Option<u64>)
        ensures
            r == self.thread_deadline(),
    {
        match self.thread_timeout_ms {
            Some(ms) => if ms > 0 {
                Some(ms)
            } else {
                None
            },
            None => None,
        }
    }
}

/// Priority: whatever a flag sets stands, whatever the file says; the file fills
/// what no flag sets; defaults fill the rest.
pub proof fn law_flags_then_file_then_default<T>(flag: Option<T>, file: Option<T>, fallback: T)
    ensures
        flag is Some ==> picked(flag, file, fallback) == flag->0,
        flag is None && file is Some ==> picked(flag, file, fallback) == file->0,
        flag is None && file is None ==> picked(flag, file, fallback) == fallback,
{
}

/// Every setting is its own: a flag sets what it is named after, whatever the file and
/// the other flags say.
pub proof fn law_flags_set_what_they_name(config: Config, cli: Settings, file: Settings, workers: usize)
    requires
        config.merges(cli, file, workers),
    ensures
        cli.bind is Some ==> config.bind@ == cli.bind->0@,
        cli.serve_dir is Some ==> config.serve_dir@ == cli.serve_dir->0@,
        cli.data_dir is Some ==> config.data_dir@ == cli.data_dir->0@,
        cli.index is Some ==> config.index@ == cli.index->0@,
        cli.fallback is Some ==> config.fallback is Some && config.fallback->0@ == cli.fallback->0@,
        cli.workers is Some ==> config.workers == cli.workers->0,
        cli.thread_timeout_ms is Some ==> config.thread_timeout_ms == cli.thread_timeout_ms,
        cli.threads@.len() > 0 ==> text_views(config.threads@) == text_views(cli.threads@),
        cli.c_module_dirs@.len() > 0 ==> path_views(config.c_module_dirs@) == path_views(
            cli.c_module_dirs@,
        ),
        cli.timeout_ms is Some ==> config.timeout_ms == cli.timeout_ms->0,
        cli.memory_limit_mb is Some ==> config.memory_limit_mb == cli.memory_limit_mb->0,
        cli.max_body_size is Some ==> config.max_body_size == cli.max_body_size->0,
        cli.max_upload_size is Some ==> config.max_upload_size == cli.max_upload_size->0,
        cli.max_upload_files is Some ==> config.max_upload_files == cli.max_upload_files->0,
        cli.static_files is Some ==> config.static_files == cli.static_files->0,
        cli.dev is Some ==> config.dev == cli.dev->0,
        cli.thread_memory_limit_mb is Some ==> config.thread_memory_limit_mb == cli.thread_memory_limit_mb->0,
        cli.sqlite_idle_connections is Some ==> config.sqlite_idle_connections == cli.sqlite_idle_connections->0,
        cli.lua_pool is Some ==> config.lua_pool == cli.lua_pool->0,
        cli.lua_pool_max_requests is Some ==> config.lua_pool_max_requests == cli.lua_pool_max_requests->0,
        cli.inline_render_budget_us is Some ==> config.inline_render_budget_us == cli.inline_render_budget_us->0,
{
}

/// What no flag sets, the file sets, each setting its own; the serve directory is not
/// the file's to set.
pub proof fn law_the_file_sets_what_no_flag_does(
    config: Config,
    cli: Settings,
    file: Settings,
    workers: usize,
)
    requires
        config.merges(cli, file, workers),
    ensures
        cli.bind is None && file.bind is Some ==> config.bind@ == file.bind->0@,
        cli.serve_dir is None ==> config.serve_dir@ == encode_utf8("./demos"@),
        cli.data_dir is None && file.data_dir is Some ==> config.data_dir@ == file.data_dir->0@,
        cli.index is None && file.index is Some ==> config.index@ == file.index->0@,
        cli.fallback is None && file.fallback is Some ==> config.fallback is Some
            && config.fallback->0@ == file.fallback->0@,
        cli.workers is None && file.workers is Some ==> config.workers == file.workers->0,
        cli.thread_timeout_ms is None ==> config.thread_timeout_ms == file.thread_timeout_ms,
        cli.threads@.len() == 0 ==> text_views(config.threads@) == text_views(file.threads@),
        cli.c_module_dirs@.len() == 0 ==> path_views(config.c_module_dirs@) == path_views(
            file.c_module_dirs@,
        ),
        cli.timeout_ms is None && file.timeout_ms is Some ==> config.timeout_ms == file.timeout_ms->0,
        cli.memory_limit_mb is None && file.memory_limit_mb is Some ==> config.memory_limit_mb == file.memory_limit_mb->0,
        cli.max_body_size is None && file.max_body_size is Some ==> config.max_body_size == file.max_body_size->0,
        cli.max_upload_size is None && file.max_upload_size is Some ==> config.max_upload_size == file.max_upload_size->0,
        cli.max_upload_files is None && file.max_upload_files is Some ==> config.max_upload_files == file.max_upload_files->0,
        cli.static_files is None && file.static_files is Some ==> config.static_files == file.static_files->0,
        cli.dev is None && file.dev is Some ==> config.dev == file.dev->0,
        cli.thread_memory_limit_mb is None && file.thread_memory_limit_mb is Some ==> config.thread_memory_limit_mb == file.thread_memory_limit_mb->0,
        cli.sqlite_idle_connections is None && file.sqlite_idle_connections is Some ==> config.sqlite_idle_connections == file.sqlite_idle_connections->0,
        cli.lua_pool is None && file.lua_pool is Some ==> config.lua_pool == file.lua_pool->0,
        cli.lua_pool_max_requests is None && file.lua_pool_max_requests is Some ==> config.lua_pool_max_requests == file.lua_pool_max_requests->0,
        cli.inline_render_budget_us is None && file.inline_render_budget_us is Some ==> config.inline_render_budget_us == file.inline_render_budget_us->0,
{
}

/// What neither sets has the documented default.
pub proof fn law_defaults_fill_the_rest(config: Config, cli: Settings, file: Settings, workers: usize)
    requires
        config.merges(cli, file, workers),
    ensures
        cli.bind is None && file.bind is None ==> config.bind@ == "127.0.0.1:8080"@,
        cli.data_dir is None && file.data_dir is None ==> config.data_dir@ == encode_utf8(
            "./data"@,
        ),
        cli.index is None && file.index is None ==> config.index@ == "index.lhtml"@,
        cli.fallback is None && file.fallback is None ==> config.fallback is None,
        cli.workers is None && file.workers is None ==> config.workers == workers,
        cli.timeout_ms is None && file.timeout_ms is None ==> config.timeout_ms == 5000,
        cli.memory_limit_mb is None && file.memory_limit_mb is None ==> config.memory_limit_mb == 64,
        cli.max_body_size is None && file.max_body_size is None ==> config.max_body_size == 1_048_576,
        cli.max_upload_size is None && file.max_upload_size is None ==> config.max_upload_size == 268_435_456,
        cli.max_upload_files is None && file.max_upload_files is None ==> config.max_upload_files == 256,
        cli.static_files is None && file.static_files is None ==> config.static_files == true,
        cli.dev is None && file.dev is None ==> config.dev == false,
        cli.thread_memory_limit_mb is None && file.thread_memory_limit_mb is None ==> config.thread_memory_limit_mb == 256,
        cli.sqlite_idle_connections is None && file.sqlite_idle_connections is None ==> config.sqlite_idle_connections == 2,
        cli.lua_pool is None && file.lua_pool is None ==> config.lua_pool == true,
        cli.lua_pool_max_requests is None && file.lua_pool_max_requests is None ==> config.lua_pool_max_requests == 10_000,
        cli.inline_render_budget_us is None && file.inline_render_budget_us is None ==> config.inline_render_budget_us == 1000,
{
}

/// There is a worker for every core, and four where their number is not known.
pub proof fn law_workers_follow_the_cores(cores: usize)
    ensures
        workers_for(Some(cores)) == cores,
        workers_for(None) == 4,
{
}

/// A background thread has the deadline that was set, and none for 0 or where none
/// was.
pub proof fn law_no_deadline_is_no_deadline(config: Config)
    ensures
        config.thread_timeout_ms is None ==> config.thread_deadline() is None,
        config.thread_timeout_ms == Some(0u64) ==> config.thread_deadline() is None,
        config.thread_timeout_ms is Some && config.thread_timeout_ms->0 != 0
            ==> config.thread_deadline() == config.thread_timeout_ms,
{
}

/// Settings that set nothing leave everything to others.
pub proof fn law_unset_settings_set_nothing(s: Settings)
    requires
        s.unset(),
    ensures
        s.bind is None && s.serve_dir is None && s.config is None && !s.no_config,
        s.data_dir is None && s.index is None && s.fallback is None && s.workers is None,
        s.threads@.len() == 0 && s.c_module_dirs@.len() == 0 && s.thread_timeout_ms is None,
        s.serve_location() == encode_utf8("./demos"@),
        s.timeout_ms is None,
        s.memory_limit_mb is None,
        s.max_body_size is None,
        s.max_upload_size is None,
        s.max_upload_files is None,
        s.static_files is None,
        s.dev is None,
        s.thread_memory_limit_mb is None,
        s.sqlite_idle_connections is None,
        s.lua_pool is None,
        s.lua_pool_max_requests is None,
        s.inline_render_budget_us is None,
{
}

} // verus!
