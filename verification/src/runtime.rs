//! Per-request rendering: the data a request carries, what a run of a template
//! comes to, and which Lua states may serve another request.
//!
//! Isolation comes from the closed environment each request runs in, not from
//! destroying the state. C modules can reach past it, so they turn pooling off.

use vstd::prelude::*;
use crate::config::Config;
use crate::path::PathBytes;
use crate::template::TemplateError;
use crate::text;
use crate::value::{LuaValue, ValueView};

verus! {

#[derive(Clone, Copy)]
pub struct Limits {
    pub timeout_ms: u64,
    pub memory_bytes: usize,
}

/// Limits for a background thread, separate from the per-request [`Limits`].
#[derive(Clone, Copy)]
pub struct ThreadLimits {
    /// Bounds one awake stretch; sleeping resets it. `None` means no deadline.
    pub timeout_ms: Option<u64>,
    /// Applies for the instance's whole life.
    pub memory_bytes: usize,
}

/// Hands out configuration ids.
pub struct ConfigIds {
    /// How many have been handed out: wider than an id, so that the last one can be
    /// handed out too.
    pub next: u128,
}

impl ConfigIds {
    pub fn new() -> (ids: ConfigIds)
        ensures
            forall|id: ConfigId| !#[trigger] ids.issued(id),
            ids.next == 0,
    {
        ConfigIds { next: 0 }
    }

    /// The id has been handed out.
    pub open spec fn issued(self, id: ConfigId) -> bool {
        id.0 < self.next
    }
}

/// Pool key: a state bakes its configuration's directories, cache and limits into
/// its closures. [`ConfigId::new`] never repeats one.
#[derive(Clone, Copy, PartialEq, Eq, Debug, Structural)]
pub struct ConfigId(pub u64);

impl ConfigId {
    /// An id that was not handed out before.
    pub fn new(ids: &mut ConfigIds) -> (id: ConfigId)
        requires
            old(ids).next <= u64::MAX,
        ensures
            id.0 == old(ids).next,
            final(ids).next == old(ids).next + 1,
            !old(ids).issued(id),
            forall|other: ConfigId| #[trigger]
                final(ids).issued(other) <==> old(ids).issued(other) || other == id,
    {
        let id = ConfigId(ids.next as u64);
        ids.next = ids.next + 1;
        id
    }
}

/// Everything rendering needs to know of the configuration.
#[derive(Clone)]
pub struct RenderConfig {
    pub id: ConfigId,
    /// Canonical serve directory; includes and modules are confined to it.
    pub serve_dir: PathBytes,
    /// Canonical data directory; databases, sent files and uploads are confined
    /// to it.
    pub data_dir: PathBytes,
    pub limits: Limits,
    pub max_body_size: usize,
    pub max_upload_size: usize,
    pub max_upload_files: usize,
    /// Warm SQLite connections parked per database, per thread. 0 disables reuse.
    pub sqlite_idle_connections: usize,
    pub thread_limits: ThreadLimits,
    /// `package.cpath` for native modules, `None` when disabled. `Some` means that
    /// pooling is off whatever `pool` says.
    pub c_module_path: Option<String>,
    pub pool: bool,
    /// Requests one pooled state serves before retirement.
    pub pool_max_requests: u32,
}

/// What rendering needs of a configuration, in bytes where it says megabytes.
/// `c_module_path` is the search path of native modules, if there are any.
pub fn render_config(
    config: &Config,
    id: ConfigId,
    serve_dir: PathBytes,
    data_dir: PathBytes,
    c_module_path: Option<String>,
) -> (r: RenderConfig)
    requires
        config.memory_limit_mb * 0x10_0000 <= usize::MAX,
        config.thread_memory_limit_mb * 0x10_0000 <= usize::MAX,
    ensures
        r.id == id,
        r.serve_dir == serve_dir,
        r.data_dir == data_dir,
        r.limits.timeout_ms == config.timeout_ms,
        r.limits.memory_bytes == config.memory_limit_mb * 0x10_0000,
        r.max_body_size == config.max_body_size,
        r.max_upload_size == config.max_upload_size,
        r.max_upload_files == config.max_upload_files,
        r.sqlite_idle_connections == config.sqlite_idle_connections,
        r.thread_limits.timeout_ms == config.thread_deadline(),
        r.thread_limits.memory_bytes == config.thread_memory_limit_mb * 0x10_0000,
        r.c_module_path == c_module_path,
        r.pool == config.lua_pool,
        r.pool_max_requests == config.lua_pool_max_requests,
{
    RenderConfig {
        id,
        serve_dir,
        data_dir,
        limits: Limits {
            timeout_ms: config.timeout_ms,
            memory_bytes: config.memory_limit_mb * 0x10_0000,
        },
        max_body_size: config.max_body_size,
        max_upload_size: config.max_upload_size,
        max_upload_files: config.max_upload_files,
        sqlite_idle_connections: config.sqlite_idle_connections,
        thread_limits: ThreadLimits {
            timeout_ms: config.thread_deadline_ms(),
            memory_bytes: config.thread_memory_limit_mb * 0x10_0000,
        },
        c_module_path,
        pool: config.lua_pool,
        pool_max_requests: config.lua_pool_max_requests,
    }
}

/// A file part of a multipart upload, already spooled to disk.
pub struct UploadedFile {
    /// The form field name the file arrived under.
    pub field: String,
    /// Client-supplied filename; for display only, never used as a disk path.
    pub filename: String,
    pub content_type: Option<String>,
    pub size: u64,
    /// Spool location; anything left there is deleted after the request.
    pub path: PathBytes,
}

pub enum RequestBody {
    Raw(Vec<u8>),
    Multipart { fields: Vec<(String, String)>, files: Vec<UploadedFile> },
}

/// Plain-data snapshot of the HTTP request.
pub struct RequestData {
    pub method: String,
    pub path: String,
    pub query_string: String,
    /// Header names lowercased; repeated headers joined with ", ".
    pub headers: Vec<(String, String)>,
    pub cookies: Vec<(String, String)>,
    pub content_type: Option<String>,
    pub body: RequestBody,
    /// Socket peer, IP only; `None` when the connection has no address.
    pub remote_addr: Option<String>,
}

/// A cookie queued by a template.
pub struct LuaCookie {
    pub name: String,
    pub value: String,
    pub path: Option<String>,
    pub domain: Option<String>,
    pub max_age: Option<i64>,
    pub http_only: bool,
    pub secure: bool,
    pub same_site: Option<String>,
}

/// A file the template asked to serve instead of its rendered output.
pub struct SendFileSpec {
    pub path: PathBytes,
    pub download_name: Option<String>,
    pub content_type: Option<String>,
}

pub struct RenderedResponse {
    pub body: Vec<u8>,
    pub status: u16,
    pub headers: Vec<(String, String)>,
    pub cookies: Vec<LuaCookie>,
    pub send_file: Option<SendFileSpec>,
}

#[derive(Debug)]
pub enum RenderError {
    NotFound,
    Io(String),
    Parse { file: String, line: u32, msg: String },
    Lua(String),
    Timeout,
    Memory,
}

impl RenderError {
    /// What the log and a developer's error page say.
    pub open spec fn text(self) -> Seq<char> {
        match self {
            RenderError::NotFound => "template not found"@,
            RenderError::Io(e) => "I/O error: "@ + e@,
            RenderError::Parse { file, line, msg } => "template parse error in "@ + file@ + ":"@
                + text::decimal(line as nat) + ": "@ + msg@,
            RenderError::Lua(msg) => "Lua error: "@ + msg@,
            RenderError::Timeout => "template execution timed out"@,
            RenderError::Memory => "template exceeded the memory limit"@,
        }
    }

    /// The error in words.
    pub fn message(&self) -> (s: String)
        ensures
            s@ == self.text(),
    {
        match self {
            RenderError::NotFound => "template not found".to_string(),
            RenderError::Io(e) => text::join2("I/O error: ", e.as_str()),
            RenderError::Parse { file, line, msg } => {
                let mut s = "template parse error in ".to_string();
                s.append(file.as_str());
                s.append(":");
                let digits = text::decimal_of(*line as u64);
                s.append(digits.as_str());
                s.append(": ");
                s.append(msg.as_str());
                s
            },
            RenderError::Lua(msg) => text::join2("Lua error: ", msg.as_str()),
            RenderError::Timeout => "template execution timed out".to_string(),
            RenderError::Memory => "template exceeded the memory limit".to_string(),
        }
    }
}

/// A failed load as a failed render.
pub fn template_error_to_render_error(e: TemplateError, file: &str) -> (r: RenderError)
    ensures
        match e {
            TemplateError::NotFound => r is NotFound,
            TemplateError::Io(msg) => r == RenderError::Io(msg),
            TemplateError::Parse { line, msg } => r is Parse && r->file@ == file@ && r->line == line
                && r->Parse_msg == msg,
        },
{
    match e {
        TemplateError::NotFound => RenderError::NotFound,
        TemplateError::Io(msg) => RenderError::Io(msg),
        TemplateError::Parse { line, msg } => RenderError::Parse {
            file: file.to_string(),
            line,
            msg,
        },
    }
}

// ---- what a run leaves behind ---------------------------------------------------

/// What the API functions of one request have collected.
pub struct RenderState {
    pub out: Vec<u8>,
    pub cookies: Vec<LuaCookie>,
    pub redirect: Option<(String, u16)>,
    pub send_file: Option<SendFileSpec>,
    pub include_depth: u32,
}

impl RenderState {
    pub fn new() -> (state: RenderState)
        ensures
            state.out@ == Seq::<u8>::empty(),
            state.cookies@ == Seq::<LuaCookie>::empty(),
            state.redirect is None,
            state.send_file is None,
            state.include_depth == 0,
    {
        RenderState {
            out: Vec::new(),
            cookies: Vec::new(),
            redirect: None,
            send_file: None,
            include_depth: 0,
        }
    }
}

/// One layer of a Lua error: the boundary between Rust and Lua wraps errors once
/// per crossing.
#[derive(Clone, Copy, PartialEq, Eq, Debug, Structural)]
pub enum Cause {
    /// The signal of an early exit.
    Exit,
    /// The memory limit was hit.
    Memory,
    Other,
}

#[derive(Clone, Copy, PartialEq, Eq, Debug, Structural)]
pub enum LuaFailure {
    Exit,
    Memory,
    Error,
}

/// What an error chain means: its outermost control signal decides.
pub open spec fn failure_of(chain: Seq<Cause>) -> LuaFailure
    decreases chain.len(),
{
    if chain.len() == 0 {
        LuaFailure::Error
    } else {
        match chain[0] {
            Cause::Exit => LuaFailure::Exit,
            Cause::Memory => LuaFailure::Memory,
            Cause::Other => failure_of(chain.skip(1)),
        }
    }
}

/// Walks the error chain, outermost first, to find the control signals.
pub fn classify_lua_error(chain: &Vec<Cause>) -> (r: LuaFailure)
    ensures
        r == failure_of(chain@),
{
    let mut i: usize = 0;
    assert(chain@.skip(0) =~= chain@);
    while i < chain.len()
        invariant
            i <= chain@.len(),
            failure_of(chain@.skip(i as int)) == failure_of(chain@),
        decreases chain@.len() - i,
    {
        match chain[i] {
            Cause::Exit => {
                return LuaFailure::Exit;
            },
            Cause::Memory => {
                return LuaFailure::Memory;
            },
            Cause::Other => {},
        }
        assert(chain@.skip(i as int).skip(1) =~= chain@.skip(i + 1));
        i = i + 1;
    }
    LuaFailure::Error
}

/// An error that a run of a template raised.
pub struct LuaError {
    /// Its layers, outermost first.
    pub chain: Vec<Cause>,
    pub text: String,
}

/// The `response` table as a template left it.
pub struct ResponseTable {
    /// `None` where the field could not be read.
    pub status: Option<LuaValue>,
    /// Name and value of each header, in table order; no name where it is not
    /// text. `None` if `headers` is no longer a table.
    pub headers: Option<Vec<(Option<String>, LuaValue)>>,
}

/// A run of a template.
pub struct LuaRun {
    /// The execution deadline interrupted it.
    pub interrupted: bool,
    pub error: Option<LuaError>,
    /// `None` if `response` is no longer a table.
    pub response: Option<ResponseTable>,
}

/// A status a template may set: an integer or a numeric string from 100 to 999.
pub open spec fn status_of(v: ValueView) -> Option<u16> {
    let n = match v {
        ValueView::Integer(n) => Some(n),
        ValueView::Str(bytes) => text::parsed_signed(text::trimmed(text::lossy_utf8(bytes))),
        _ => None,
    };
    match n {
        Some(n) => if 100 <= n <= 999 {
            Some(n as u16)
        } else {
            None
        },
        None => None,
    }
}

/// Accepts integers and numeric strings in the range that a status can have.
pub fn status_from_value(value: &LuaValue) -> (r: Option<u16>)
    ensures
        r == status_of(value@),
{
    let n: i64 = match value {
        LuaValue::Integer(n) => *n,
        LuaValue::Str(bytes) => {
            let s = text::lossy(bytes.as_slice());
            let t = text::trim(s.as_str());
            match text::parse_signed(t.as_str()) {
                Some(n) => n,
                None => {
                    return None;
                },
            }
        },
        _ => {
            return None;
        },
    };
    if 100 <= n && n <= 999 {
        Some(n as u16)
    } else {
        None
    }
}

/// A header value: text and numbers only.
pub open spec fn header_text(v: ValueView) -> Option<Seq<char>> {
    match v {
        ValueView::Str(bytes) => Some(text::lossy_utf8(bytes)),
        ValueView::Integer(n) => Some(text::signed_decimal(n)),
        ValueView::Number(s) => Some(s),
        _ => None,
    }
}

/// A value as a header value, if it can be one.
pub fn header_value_to_string(value: &LuaValue) -> (r: Option<String>)
    ensures
        match r {
            Some(s) => header_text(value@) == Some(s@),
            None => header_text(value@) is None,
        },
{
    match value {
        LuaValue::Str(bytes) => Some(text::lossy(bytes.as_slice())),
        LuaValue::Integer(n) => Some(text::signed_decimal_of(*n)),
        LuaValue::Number(s) => Some(s.clone()),
        _ => None,
    }
}

/// Names and values in specifications.
pub open spec fn pair_views(pairs: Seq<(String, String)>) -> Seq<(Seq<char>, Seq<char>)> {
    pairs.map_values(|p: (String, String)| (p.0@, p.1@))
}

pub open spec fn entry_views(entries: Seq<(Option<String>, LuaValue)>) -> Seq<
    (Option<Seq<char>>, ValueView),
> {
    entries.map_values(|e: (Option<String>, LuaValue)| (opt_text(e.0), e.1@))
}

pub open spec fn opt_text(s: Option<String>) -> Option<Seq<char>> {
    match s {
        Some(t) => Some(t@),
        None => None,
    }
}

/// The headers that count: those with a name and a value that is text or a number.
pub open spec fn kept_headers(entries: Seq<(Option<Seq<char>>, ValueView)>) -> Seq<
    (Seq<char>, Seq<char>),
>
    decreases entries.len(),
{
    if entries.len() == 0 {
        Seq::empty()
    } else {
        let front = kept_headers(entries.drop_last());
        match (entries.last().0, header_text(entries.last().1)) {
            (Some(name), Some(value)) => front.push((name, value)),
            _ => front,
        }
    }
}

fn collect_headers(entries: &Vec<(Option<String>, LuaValue)>) -> (headers: Vec<(String, String)>)
    ensures
        pair_views(headers@) == kept_headers(entry_views(entries@)),
{
    let ghost all = entry_views(entries@);
    let mut headers: Vec<(String, String)> = Vec::new();
    let mut i: usize = 0;
    assert(pair_views(headers@) =~= Seq::empty());
    assert(all.take(0) =~= Seq::empty());
    while i < entries.len()
        invariant
            i <= entries@.len(),
            all == entry_views(entries@),
            pair_views(headers@) == kept_headers(all.take(i as int)),
        decreases entries@.len() - i,
    {
        let ghost before = headers@;
        assert(all.take(i + 1).drop_last() =~= all.take(i as int));
        assert(all.take(i + 1).last() == all[i as int]);
        if let Some(name) = &entries[i].0 {
            if let Some(v) = header_value_to_string(&entries[i].1) {
                headers.push((name.clone(), v));
                assert(pair_views(headers@) =~= pair_views(before).push((name@, v@)));
            }
        }
        i = i + 1;
    }
    assert(all.take(i as int) =~= all);
    headers
}

/// How a run ended, before its response is looked at.
pub open spec fn run_failure(run: LuaRun) -> Option<RenderErrorView> {
    if run.interrupted {
        Some(RenderErrorView::Timeout)
    } else {
        match run.error {
            None => None,
            Some(e) => match failure_of(e.chain@) {
                LuaFailure::Exit => None,
                LuaFailure::Memory => Some(RenderErrorView::Memory),
                LuaFailure::Error => Some(RenderErrorView::Lua(e.text@)),
            },
        }
    }
}

pub enum RenderErrorView {
    Lua(Seq<char>),
    Timeout,
    Memory,
}

/// The status of a response: a redirect's own, else the one the template set, if
/// it is one, else 200.
pub open spec fn final_status(response: Option<ResponseTable>, redirect: Option<(String, u16)>) -> u16 {
    match redirect {
        Some(r) => r.1,
        None => match response {
            Some(table) => match table.status {
                Some(v) => match status_of(v@) {
                    Some(n) => n,
                    None => 200,
                },
                None => 200,
            },
            None => 200,
        },
    }
}

/// The headers of a response: those the template set that count, then the
/// location of a redirect.
pub open spec fn final_headers(
    response: Option<ResponseTable>,
    redirect: Option<(String, u16)>,
) -> Seq<(Seq<char>, Seq<char>)> {
    let own = match response {
        Some(table) => match table.headers {
            Some(entries) => kept_headers(entry_views(entries@)),
            None => Seq::empty(),
        },
        None => Seq::empty(),
    };
    match redirect {
        Some(r) => own.push(("Location"@, r.0@)),
        None => own,
    }
}

/// What a render has come to before it is answered.
pub enum Attempt {
    /// The template could not be loaded.
    NotLoaded(TemplateError),
    /// No Lua state could be built for it.
    NotBuilt(String),
    /// It ran.
    Ran(LuaRun, RenderState),
}

/// Renders one template: turns what loading and running it came to into the
/// response or the error. A timeout counts even where a script caught it, and an
/// early exit is no failure.
pub fn render(attempt: Attempt, display_name: &str) -> (r: Result<RenderedResponse, RenderError>)
    ensures
        match attempt {
            Attempt::NotLoaded(TemplateError::NotFound) => r is Err && r->Err_0 is NotFound,
            Attempt::NotLoaded(TemplateError::Io(msg)) => r is Err && r->Err_0 == RenderError::Io(
                msg,
            ),
            Attempt::NotLoaded(TemplateError::Parse { line, msg }) => {
                &&& r is Err
                &&& r->Err_0 is Parse
                &&& r->Err_0->file@ == display_name@
                &&& r->Err_0->line == line
                &&& r->Err_0->Parse_msg == msg
            },
            Attempt::NotBuilt(e) => r is Err && r->Err_0 == RenderError::Lua(e),
            Attempt::Ran(run, state) => match run_failure(run) {
                Some(RenderErrorView::Timeout) => r is Err && r->Err_0 is Timeout,
                Some(RenderErrorView::Memory) => r is Err && r->Err_0 is Memory,
                Some(RenderErrorView::Lua(e)) => r is Err && r->Err_0 is Lua && r->Err_0->Lua_0@
                    == e,
                None => {
                    &&& r is Ok
                    &&& r->Ok_0.body == state.out
                    &&& r->Ok_0.status == final_status(run.response, state.redirect)
                    &&& pair_views(r->Ok_0.headers@) == final_headers(run.response, state.redirect)
                    &&& r->Ok_0.cookies == state.cookies
                    &&& r->Ok_0.send_file == state.send_file
                },
            },
        },
{
    let (run, state) = match attempt {
        Attempt::NotLoaded(e) => {
            return Err(template_error_to_render_error(e, display_name));
        },
        Attempt::NotBuilt(e) => {
            return Err(RenderError::Lua(e));
        },
        Attempt::Ran(run, state) => (run, state),
    };
    if run.interrupted {
        return Err(RenderError::Timeout);
    }
    if let Some(e) = run.error {
        match classify_lua_error(&e.chain) {
            LuaFailure::Exit => {},
            LuaFailure::Memory => {
                return Err(RenderError::Memory);
            },
            LuaFailure::Error => {
                return Err(RenderError::Lua(e.text));
            },
        }
    }
    let mut status: u16 = 200;
    let mut headers: Vec<(String, String)> = Vec::new();
    assert(pair_views(headers@) =~= Seq::empty());
    if let Some(table) = &run.response {
        if let Some(v) = &table.status {
            if let Some(n) = status_from_value(v) {
                status = n;
            }
        }
        if let Some(entries) = &table.headers {
            headers = collect_headers(entries);
        }
    }
    if let Some((url, redirect_status)) = state.redirect {
        let ghost own = headers@;
        status = redirect_status;
        headers.push(("Location".to_string(), url));
        assert(pair_views(headers@) =~= pair_views(own).push(("Location"@, url@)));
    }
    Ok(
        RenderedResponse {
            body: state.out,
            status,
            headers,
            cookies: state.cookies,
            send_file: state.send_file,
        },
    )
}

// ---- pooled states --------------------------------------------------------------

/// A Lua state that may serve request after request of one configuration.
#[derive(Clone, Copy, PartialEq, Eq, Debug, Structural)]
pub struct Pooled {
    pub config: ConfigId,
    /// Requests it has been given.
    pub requests: u32,
}

/// The state parked on a thread: one, not a queue, since a thread renders one
/// request at a time.
pub struct Pool {
    pub parked: Option<Pooled>,
}

/// Where the state for a request comes from.
#[derive(Clone, Copy, PartialEq, Eq, Debug, Structural)]
pub enum Lease {
    /// Build one, and drop it after the request.
    Unpooled,
    /// Build one, which may be parked.
    Built(Pooled),
    /// Take the parked one.
    Reused(Pooled),
}

/// Whether this configuration reuses states: a native module can reach past the
/// request environment, so it cannot coexist with reuse.
pub open spec fn pools(cfg: RenderConfig) -> bool {
    cfg.pool && cfg.c_module_path is None
}

pub open spec fn lease(parked: Option<Pooled>, id: ConfigId) -> Lease {
    match parked {
        Some(p) => if p.config == id {
            Lease::Reused(Pooled { config: id, requests: (p.requests + 1) as u32 })
        } else {
            Lease::Built(Pooled { config: id, requests: 1 })
        },
        None => Lease::Built(Pooled { config: id, requests: 1 }),
    }
}

impl Pool {
    pub fn new() -> (pool: Pool)
        ensures
            pool.parked is None,
    {
        Pool { parked: None }
    }

    /// The state for the next request. A parked state built for another
    /// configuration is dropped, never handed on.
    pub fn acquire(&mut self, cfg: &RenderConfig) -> (r: Lease)
        requires
            old(self).parked is Some ==> old(self).parked->0.requests < u32::MAX,
        ensures
            if pools(*cfg) {
                r == lease(old(self).parked, cfg.id) && final(self).parked is None
            } else {
                r == Lease::Unpooled && final(self).parked == old(self).parked
            },
    {
        if !cfg.pool || cfg.c_module_path.is_some() {
            return Lease::Unpooled;
        }
        let taken = self.parked;
        self.parked = None;
        match taken {
            Some(p) => if p.config == cfg.id {
                Lease::Reused(Pooled { config: cfg.id, requests: p.requests + 1 })
            } else {
                Lease::Built(Pooled { config: cfg.id, requests: 1 })
            },
            None => Lease::Built(Pooled { config: cfg.id, requests: 1 }),
        }
    }

    /// Parks a state that went through [`retain_start`] and [`retain_next`].
    pub fn park(&mut self, state: Pooled)
        ensures
            final(self).parked == Some(state),
    {
        self.parked = Some(state);
    }
}

/// A state never serves two configurations.
pub proof fn law_states_stay_with_their_config(parked: Option<Pooled>, id: ConfigId)
    ensures
        match lease(parked, id) {
            Lease::Reused(p) => p.config == id && parked is Some && parked->0.config == id,
            Lease::Built(p) => p.config == id && p.requests == 1,
            Lease::Unpooled => false,
        },
{
}

/// What has to be done before a state may serve another request.
#[derive(Clone, Copy, PartialEq, Eq, Debug, Structural)]
pub enum RetainStep {
    /// Replace what the request modified in its environment.
    ResetEnvironment,
    /// Collect, so that finalizers run now and not inside a later request.
    CollectFinalizers,
    /// Reset once more: a finalizer may have modified something.
    ResetAgain,
    /// Restart the collector and see how much memory is used.
    Measure,
    /// Collect, so that the next request has headroom.
    MakeRoom,
    Park,
    Retire,
}

/// How a step went.
#[derive(Clone, Copy)]
pub struct RetainReport {
    /// It succeeded.
    pub ok: bool,
    /// Since the step before, something with a finalizer was created.
    pub finalizers: bool,
    /// Memory used after it.
    pub used: usize,
}

/// The first step after a request: none for a state at its memory or request
/// ceiling.
pub fn retain_start(out_of_memory: bool, state: &Pooled, cfg: &RenderConfig) -> (r: RetainStep)
    ensures
        r == (if out_of_memory || state.requests >= cfg.pool_max_requests {
            RetainStep::Retire
        } else {
            RetainStep::ResetEnvironment
        }),
{
    if out_of_memory {
        return RetainStep::Retire;
    }
    if state.requests >= cfg.pool_max_requests {
        return RetainStep::Retire;
    }
    RetainStep::ResetEnvironment
}

/// What follows a step, given how it went and the memory limit.
pub open spec fn retained(step: RetainStep, report: RetainReport, limit: usize) -> RetainStep {
    match step {
        RetainStep::ResetEnvironment => if !report.ok {
            RetainStep::Retire
        } else if report.finalizers {
            RetainStep::CollectFinalizers
        } else {
            RetainStep::Measure
        },
        RetainStep::CollectFinalizers => if !report.ok || report.finalizers {
            RetainStep::Retire
        } else {
            RetainStep::ResetAgain
        },
        RetainStep::ResetAgain => if report.ok {
            RetainStep::Measure
        } else {
            RetainStep::Retire
        },
        RetainStep::Measure => if report.used > limit / 2 {
            RetainStep::MakeRoom
        } else {
            RetainStep::Park
        },
        RetainStep::MakeRoom => if !report.ok || report.used > limit / 2 {
            RetainStep::Retire
        } else {
            RetainStep::Park
        },
        RetainStep::Park => RetainStep::Park,
        RetainStep::Retire => RetainStep::Retire,
    }
}

/// What follows a step.
pub fn retain_next(step: RetainStep, report: RetainReport, limit: usize) -> (r: RetainStep)
    ensures
        r == retained(step, report, limit),
{
    match step {
        RetainStep::ResetEnvironment => if !report.ok {
            RetainStep::Retire
        } else if report.finalizers {
            RetainStep::CollectFinalizers
        } else {
            RetainStep::Measure
        },
        RetainStep::CollectFinalizers => if !report.ok || report.finalizers {
            RetainStep::Retire
        } else {
            RetainStep::ResetAgain
        },
        RetainStep::ResetAgain => if report.ok {
            RetainStep::Measure
        } else {
            RetainStep::Retire
        },
        RetainStep::Measure => if report.used > limit / 2 {
            RetainStep::MakeRoom
        } else {
            RetainStep::Park
        },
        RetainStep::MakeRoom => if !report.ok || report.used > limit / 2 {
            RetainStep::Retire
        } else {
            RetainStep::Park
        },
        RetainStep::Park => RetainStep::Park,
        RetainStep::Retire => RetainStep::Retire,
    }
}

/// The steps taken, from the first one on.
pub open spec fn retain_walk(reports: Seq<RetainReport>, limit: usize) -> RetainStep
    decreases reports.len(),
{
    if reports.len() == 0 {
        RetainStep::ResetEnvironment
    } else {
        retained(retain_walk(reports.drop_last(), limit), reports.last(), limit)
    }
}

/// A state that is parked left no finalizer behind that has not run, and the next
/// request starts with at least half its memory free: the environment was reset
/// after the last collection of finalizers, and the last measurement was at most
/// half the limit.
pub proof fn law_parked_states_are_clean(reports: Seq<RetainReport>, limit: usize)
    requires
        retain_walk(reports, limit) == RetainStep::Park,
    ensures
        reports.len() >= 2,
        reports[0].ok,
        reports[0].finalizers ==> reports.len() >= 4 && reports[1].ok && !reports[1].finalizers
            && reports[2].ok,
        exists|k: int| 1 <= k < reports.len() && (#[trigger] reports[k]).used <= limit / 2,
{
    let n = reports.len();
    lemma_walk(reports, limit);
}

/// How each step is reached.
proof fn lemma_walk(reports: Seq<RetainReport>, limit: usize)
    ensures
        ({
            let n = reports.len();
            match retain_walk(reports, limit) {
                RetainStep::ResetEnvironment => n == 0,
                RetainStep::CollectFinalizers => n == 1 && reports[0].ok && reports[0].finalizers,
                RetainStep::ResetAgain => n == 2 && reports[0].ok && reports[0].finalizers
                    && reports[1].ok && !reports[1].finalizers,
                RetainStep::Measure => clean(reports) && n == settled(reports),
                RetainStep::MakeRoom => clean(reports) && n == settled(reports) + 1,
                RetainStep::Park => clean(reports) && n > settled(reports) && exists|k: int|
                    1 <= k < n && (#[trigger] reports[k]).used <= limit / 2,
                RetainStep::Retire => true,
            }
        }),
    decreases reports.len(),
{
    if reports.len() > 0 {
        let front = reports.drop_last();
        lemma_walk(front, limit);
        assert(forall|i: int| 0 <= i < front.len() ==> front[i] == reports[i]);
        let n = reports.len() as int;
        match retain_walk(reports, limit) {
            RetainStep::Park => {
                if retain_walk(front, limit) == RetainStep::Park {
                    let k = choose|k: int|
                        1 <= k < front.len() && (#[trigger] front[k]).used <= limit / 2;
                    assert(reports[k].used <= limit / 2);
                } else {
                    assert(reports[n - 1].used <= limit / 2);
                }
            },
            _ => {},
        }
    }
}

/// Reports of a request that left nothing behind, or whose finalizers have run.
spec fn clean(reports: Seq<RetainReport>) -> bool {
    &&& reports.len() >= 1
    &&& reports[0].ok
    &&& reports[0].finalizers ==> reports.len() >= 3 && reports[1].ok && !reports[1].finalizers
        && reports[2].ok
}

/// How many reports it took to get there.
spec fn settled(reports: Seq<RetainReport>) -> int {
    if reports[0].finalizers {
        3
    } else {
        1
    }
}

// ---- what a run comes to ----------------------------------------------------------

/// Layers that say nothing.
pub open spec fn only_wrapping(chain: Seq<Cause>) -> bool {
    forall|i: int| 0 <= i < chain.len() ==> #[trigger] chain[i] is Other
}

/// However often an error was wrapped, the first layer that means something decides;
/// one that none does is an ordinary error.
pub proof fn law_wrapping_changes_nothing(outer: Seq<Cause>, inner: Seq<Cause>)
    requires
        only_wrapping(outer),
    ensures
        failure_of(outer + seq![Cause::Exit] + inner) == LuaFailure::Exit,
        failure_of(outer + seq![Cause::Memory] + inner) == LuaFailure::Memory,
        failure_of(outer) == LuaFailure::Error,
    decreases outer.len(),
{
    let a = outer + seq![Cause::Exit] + inner;
    let b = outer + seq![Cause::Memory] + inner;
    if outer.len() == 0 {
        assert(a[0] == Cause::Exit && b[0] == Cause::Memory);
    } else {
        let less = outer.skip(1);
        assert forall|i: int| 0 <= i < less.len() implies #[trigger] less[i] is Other by {
            assert(less[i] == outer[i + 1]);
        }
        law_wrapping_changes_nothing(less, inner);
        assert(outer[0] is Other);
        assert(a[0] == outer[0] && b[0] == outer[0]);
        assert(a.skip(1) =~= less + seq![Cause::Exit] + inner);
        assert(b.skip(1) =~= less + seq![Cause::Memory] + inner);
    }
}

/// Every number from 100 to 999 is a status, as an integer or as text with blanks
/// around it; no other number is.
pub proof fn law_statuses_are_numbers_in_range(n: int, lead: Seq<char>, tail: Seq<char>, bytes: Seq<u8>)
    requires
        i64::MIN <= n <= i64::MAX,
        text::all_blank(lead),
        text::all_blank(tail),
        text::lossy_utf8(bytes) == lead + text::signed_decimal(n) + tail,
    ensures
        100 <= n <= 999 ==> status_of(ValueView::Integer(n)) == Some(n as u16) && status_of(
            ValueView::Str(bytes),
        ) == Some(n as u16),
        n < 100 || n > 999 ==> status_of(ValueView::Integer(n)) is None && status_of(
            ValueView::Str(bytes),
        ) is None,
{
    text::law_decimal_reads_back(n);
    text::law_decimals_have_no_blanks(n);
    text::law_trimming_takes_the_blanks(lead, text::signed_decimal(n), tail);
}

/// Only an integer and a string can be a status, and a string only as the number that
/// it writes.
pub proof fn law_nothing_else_is_a_status(v: ValueView)
    ensures
        !(v is Integer) && !(v is Str) ==> status_of(v) is None,
        v is Str && status_of(v) is Some ==> text::parsed_signed(
            text::trimmed(text::lossy_utf8(v->Str_0)),
        ) == Some(status_of(v)->0 as int),
{
}

/// A header keeps text as it is and a number in digits; nothing else can be one.
pub proof fn law_header_values_are_text_and_numbers(v: ValueView)
    ensures
        match v {
            ValueView::Str(bytes) => header_text(v) == Some(text::lossy_utf8(bytes)),
            ValueView::Integer(n) => header_text(v) == Some(text::signed_decimal(n)),
            ValueView::Number(s) => header_text(v) == Some(s),
            _ => header_text(v) is None,
        },
{
}

/// Headers are kept one by one, in order: one with a name and a value that can be one
/// is added at the end, and any other is left out without touching the rest.
pub proof fn law_headers_are_kept_one_by_one(
    entries: Seq<(Option<Seq<char>>, ValueView)>,
    name: Option<Seq<char>>,
    v: ValueView,
)
    ensures
        kept_headers(Seq::empty()) == Seq::<(Seq<char>, Seq<char>)>::empty(),
        name is Some && header_text(v) is Some ==> kept_headers(entries.push((name, v)))
            == kept_headers(entries).push((name->0, header_text(v)->0)),
        name is None || header_text(v) is None ==> kept_headers(entries.push((name, v)))
            == kept_headers(entries),
{
    assert(entries.push((name, v)).drop_last() =~= entries);
}

/// A run fails exactly when it was interrupted or raised an error that is no early
/// exit; an interruption counts before everything else.
pub proof fn law_runs_fail_for_a_reason(run: LuaRun)
    ensures
        run.interrupted ==> run_failure(run) == Some(RenderErrorView::Timeout),
        !run.interrupted && run.error is None ==> run_failure(run) is None,
        !run.interrupted && run.error is Some ==> match failure_of(run.error->0.chain@) {
            LuaFailure::Exit => run_failure(run) is None,
            LuaFailure::Memory => run_failure(run) == Some(RenderErrorView::Memory),
            LuaFailure::Error => run_failure(run) == Some(
                RenderErrorView::Lua(run.error->0.text@),
            ),
        },
{
}

/// A redirect has its own status and adds its location behind the headers the template
/// set; without one the template's status counts, and 200 where it set none.
pub proof fn law_responses_are_put_together(
    table: ResponseTable,
    redirect: (String, u16),
)
    ensures
        final_status(Some(table), Some(redirect)) == redirect.1,
        final_status(None, Some(redirect)) == redirect.1,
        final_status(None, None) == 200,
        table.status is None ==> final_status(Some(table), None) == 200,
        table.status is Some && status_of(table.status->0@) is None ==> final_status(
            Some(table),
            None,
        ) == 200,
        table.status is Some && status_of(table.status->0@) is Some ==> Some(
            final_status(Some(table), None),
        ) == status_of(table.status->0@),
        final_headers(Some(table), Some(redirect)) == final_headers(Some(table), None).push(
            ("Location"@, redirect.0@),
        ),
        final_headers(None, Some(redirect)) == seq![("Location"@, redirect.0@)],
        final_headers(None, None) == Seq::<(Seq<char>, Seq<char>)>::empty(),
        table.headers is Some ==> final_headers(Some(table), None) == kept_headers(
            entry_views(table.headers->0@),
        ),
        table.headers is None ==> final_headers(Some(table), None).len() == 0,
{
    assert(Seq::<(Seq<char>, Seq<char>)>::empty().push(("Location"@, redirect.0@)) =~= seq![
        ("Location"@, redirect.0@),
    ]);
}

/// An error says what kind it is and, where there is more to say, ends in that.
pub proof fn law_errors_say_what_went_wrong(err: RenderError)
    ensures
        err is NotFound ==> err.text() == "template not found"@,
        err is Timeout ==> err.text() == "template execution timed out"@,
        err is Memory ==> err.text() == "template exceeded the memory limit"@,
        err matches RenderError::Lua(msg) ==> err.text() == "Lua error: "@ + msg@,
        err matches RenderError::Io(msg) ==> err.text() == "I/O error: "@ + msg@,
        err matches RenderError::Parse { file, line, msg } ==> err.text()
            == "template parse error in "@ + file@ + seq![':'] + text::decimal(line as nat) + seq![
            ':',
            ' ',
        ] + msg@,
{
    reveal_strlit(":");
    reveal_strlit(": ");
    assert(":"@ =~= seq![':']);
    assert(": "@ =~= seq![':', ' ']);
}

/// States are reused where the configuration says so and no native module is allowed.
pub proof fn law_pooling_is_what_the_configuration_says(cfg: RenderConfig)
    ensures
        cfg.pool && cfg.c_module_path is None ==> pools(cfg),
        cfg.c_module_path is Some ==> !pools(cfg),
        !cfg.pool ==> !pools(cfg),
{
}

/// A state parked for a configuration serves the next request of that configuration,
/// counted; where none is parked for it, a fresh one does.
pub proof fn law_parked_states_are_reused(p: Pooled, id: ConfigId)
    requires
        p.requests < u32::MAX,
    ensures
        p.config == id ==> lease(Some(p), id) == Lease::Reused(
            Pooled { config: id, requests: (p.requests + 1) as u32 },
        ),
        p.config != id ==> lease(Some(p), id) == Lease::Built(Pooled { config: id, requests: 1 }),
        lease(None, id) == Lease::Built(Pooled { config: id, requests: 1 }),
{
}

/// A request that cleans up behind itself keeps its state: once everything it left has
/// been dealt with and half the memory is free, the state is parked, and a last
/// collection may make that room.
pub proof fn law_clean_states_are_parked(
    reset: RetainReport,
    collect: RetainReport,
    again: RetainReport,
    measure: RetainReport,
    room: RetainReport,
    limit: usize,
)
    requires
        reset.ok,
        collect.ok,
        !collect.finalizers,
        again.ok,
        room.ok,
        room.used <= limit / 2,
    ensures
        !reset.finalizers && measure.used <= limit / 2 ==> retain_walk(
            seq![reset, measure],
            limit,
        ) == RetainStep::Park,
        !reset.finalizers && measure.used > limit / 2 ==> retain_walk(
            seq![reset, measure, room],
            limit,
        ) == RetainStep::Park,
        reset.finalizers && measure.used <= limit / 2 ==> retain_walk(
            seq![reset, collect, again, measure],
            limit,
        ) == RetainStep::Park,
        reset.finalizers && measure.used > limit / 2 ==> retain_walk(
            seq![reset, collect, again, measure, room],
            limit,
        ) == RetainStep::Park,
{
    reveal_with_fuel(retain_walk, 6);
    assert(seq![reset].drop_last() =~= Seq::empty());
    assert(seq![reset, measure].drop_last() =~= seq![reset]);
    assert(seq![reset, measure, room].drop_last() =~= seq![reset, measure]);
    assert(seq![reset, collect].drop_last() =~= seq![reset]);
    assert(seq![reset, collect, again].drop_last() =~= seq![reset, collect]);
    assert(seq![reset, collect, again, measure].drop_last() =~= seq![reset, collect, again]);
    assert(seq![reset, collect, again, measure, room].drop_last() =~= seq![
        reset,
        collect,
        again,
        measure,
    ]);
}

/// A state that could not be cleaned up, or that keeps more than half the memory after
/// a last collection, serves no other request.
pub proof fn law_soiled_states_are_retired(step: RetainStep, report: RetainReport, limit: usize)
    ensures
        !report.ok && (step is ResetEnvironment || step is CollectFinalizers || step is ResetAgain
            || step is MakeRoom) ==> retained(step, report, limit) == RetainStep::Retire,
        report.finalizers && step is CollectFinalizers ==> retained(step, report, limit)
            == RetainStep::Retire,
        report.used > limit / 2 && step is MakeRoom ==> retained(step, report, limit)
            == RetainStep::Retire,
        retained(RetainStep::Retire, report, limit) == RetainStep::Retire,
        retained(RetainStep::Park, report, limit) == RetainStep::Park,
{
}

/// An id counts as handed out once the counter is past it.
pub proof fn law_ids_below_the_counter_are_out(ids: ConfigIds, id: ConfigId)
    ensures
        ids.issued(id) <==> id.0 < ids.next,
{
}

} // verus!
