//! Finding Lua modules in the serve directory, and the environment that each
//! request runs in.

use vstd::prelude::*;
use vstd::utf8::*;
use crate::path;
use crate::path::PathBytes;
use crate::text;

verus! {

// ---- require --------------------------------------------------------------------

/// A module name as a relative path: dots become separators.
pub open spec fn module_rel(name: Seq<char>) -> Seq<char> {
    name.map_values(
        |c: char|
            if c == '.' {
                '/'
            } else {
                c
            },
    )
}

fn dots_to_slashes(name: &str) -> (r: String)
    ensures
        r@ == module_rel(name@),
{
    let chars = text::chars_of(name);
    let mut out = String::new();
    let mut i: usize = 0;
    while i < chars.len()
        invariant
            i <= chars@.len(),
            chars@ == name@,
            out@ == module_rel(name@).take(i as int),
        decreases chars@.len() - i,
    {
        if chars[i] == '.' {
            out.push('/');
        } else {
            out.push(chars[i]);
        }
        assert(out@ =~= module_rel(name@).take(i + 1));
        i = i + 1;
    }
    assert(module_rel(name@).take(i as int) =~= module_rel(name@));
    out
}

/// The files a module may be, in the order they are tried: `?.lua`, then
/// `?/init.lua`.
pub fn module_candidates(name: &str) -> (r: (String, String))
    ensures
        r.0@ == module_rel(name@) + ".lua"@,
        r.1@ == module_rel(name@) + "/init.lua"@,
{
    let rel = dots_to_slashes(name);
    (text::join2(rel.as_str(), ".lua"), text::join2(rel.as_str(), "/init.lua"))
}

/// Where a candidate is looked for, not yet canonicalized.
pub fn candidate_path(serve_dir: &[u8], candidate: &str) -> (p: PathBytes)
    ensures
        p@ == path::joined(serve_dir@, encode_utf8(candidate@)),
{
    path::join(serve_dir, candidate.as_bytes())
}

/// What is at a candidate's place.
pub struct Probe {
    /// Its canonical path, if it exists.
    pub canonical: Option<PathBytes>,
    pub is_file: bool,
}

/// A candidate is a module: a file inside the serve directory once its links are
/// followed, so a crafted name cannot reach outside.
pub open spec fn usable(serve_dir: Seq<u8>, probe: Probe) -> bool {
    probe.canonical is Some && path::within(probe.canonical->0@, serve_dir) && probe.is_file
}

fn is_usable(serve_dir: &[u8], probe: &Probe) -> (r: bool)
    ensures
        r == usable(serve_dir@, *probe),
{
    match &probe.canonical {
        Some(p) => path::starts_with(p.as_slice(), serve_dir) && probe.is_file,
        None => false,
    }
}

/// What a search for a module came to.
pub enum Found {
    /// The module file, and the candidate it is.
    Module { path: PathBytes, candidate: String },
    /// A `no file '...'` line per path tried.
    Missing(String),
}

/// The line for a path that was tried.
pub open spec fn tried_line(serve_dir: Seq<u8>, candidate: Seq<char>) -> Seq<char> {
    "\n\tno file '"@ + text::lossy_utf8(path::joined(serve_dir, encode_utf8(candidate))) + "'"@
}

/// Resolves a module name like the stock searcher, given what is at each
/// candidate's place.
pub fn find_module(serve_dir: &[u8], name: &str, first: Probe, second: Probe) -> (r: Found)
    ensures
        ({
            let one = module_rel(name@) + ".lua"@;
            let two = module_rel(name@) + "/init.lua"@;
            if usable(serve_dir@, first) {
                r is Module && r->path == first.canonical->0 && r->candidate@ == one
            } else if usable(serve_dir@, second) {
                r is Module && r->path == second.canonical->0 && r->candidate@ == two
            } else {
                r is Missing && r->Missing_0@ == tried_line(serve_dir@, one) + tried_line(
                    serve_dir@,
                    two,
                )
            }
        }),
        r is Module ==> path::within(r->path@, serve_dir@),
{
    let (one, two) = module_candidates(name);
    if is_usable(serve_dir, &first) {
        if let Some(path) = first.canonical {
            return Found::Module { path, candidate: one };
        }
    }
    if is_usable(serve_dir, &second) {
        if let Some(path) = second.canonical {
            return Found::Module { path, candidate: two };
        }
    }
    let a = candidate_path(serve_dir, one.as_str());
    let b = candidate_path(serve_dir, two.as_str());
    let a_text = text::lossy(a.as_slice());
    let b_text = text::lossy(b.as_slice());
    let line_a = text::join3("\n\tno file '", a_text.as_str(), "'");
    let line_b = text::join3("\n\tno file '", b_text.as_str(), "'");
    Found::Missing(text::join2(line_a.as_str(), line_b.as_str()))
}

/// `package.path`: module search confined to the serve directory.
pub fn package_path(serve_dir: &[u8]) -> (s: String)
    ensures
        s@ == text::lossy_utf8(serve_dir@) + "/?.lua;"@ + text::lossy_utf8(serve_dir@)
            + "/?/init.lua"@,
{
    let dir = text::lossy(serve_dir);
    let mut s = dir.clone();
    s.append("/?.lua;");
    s.append(dir.as_str());
    s.append("/?/init.lua");
    s
}

// ---- the request environment ----------------------------------------------------

/// The names of the copied tables.
pub open spec fn table_names() -> Seq<Seq<char>> {
    seq![
        "string"@,
        "table"@,
        "math"@,
        "os"@,
        "io"@,
        "coroutine"@,
        "utf8"@,
        "log"@,
        "json"@,
        "sqlite"@,
        "crypto"@,
        "fs"@,
        "process"@,
        "thread"@,
        "server"@,
    ]
}

/// The names of the shared functions.
pub open spec fn func_names() -> Seq<Seq<char>> {
    seq![
        "assert"@,
        "collectgarbage"@,
        "error"@,
        "ipairs"@,
        "next"@,
        "pairs"@,
        "pcall"@,
        "rawequal"@,
        "rawget"@,
        "rawlen"@,
        "select"@,
        "setmetatable"@,
        "tonumber"@,
        "tostring"@,
        "type"@,
        "unpack"@,
        "xpcall"@,
        "html_escape"@,
        "print"@,
        "exit"@,
        "redirect"@,
        "_out"@,
        "_out_expr"@,
        "_out_raw"@,
    ]
}

/// Library tables each request gets a private copy of. Copying is what makes a
/// reused state safe: a sandbox chaining to the globals would let one request's
/// `string.upper = f` reach the next.
pub fn env_tables() -> (names: Vec<&'static str>)
    ensures
        name_views(names@) == table_names(),
{
    let names = vec![
        "string",
        "table",
        "math",
        "os",
        "io",
        "coroutine",
        "utf8",
        "log",
        "json",
        "sqlite",
        "crypto",
        "fs",
        "process",
        "thread",
        "server",
    ];
    assert(name_views(names@) =~= table_names());
    names
}

/// Shared by reference, since a Lua function value is immutable. Absent on purpose:
/// getmetatable (the metatable of strings leads to the real string table), rawset
/// (walks past the log table's guard), dofile and loadfile (chunks bound to the
/// real globals), and require and load, which the builder replaces.
pub fn env_funcs() -> (names: Vec<&'static str>)
    ensures
        name_views(names@) == func_names(),
{
    let names = vec![
        "assert",
        "collectgarbage",
        "error",
        "ipairs",
        "next",
        "pairs",
        "pcall",
        "rawequal",
        "rawget",
        "rawlen",
        "select",
        "setmetatable",
        "tonumber",
        "tostring",
        "type",
        "unpack",
        "xpcall",
        "html_escape",
        "print",
        "exit",
        "redirect",
        "_out",
        "_out_expr",
        "_out_raw",
    ];
    assert(name_views(names@) =~= func_names());
    names
}

pub open spec fn name_views(names: Seq<&'static str>) -> Seq<Seq<char>> {
    names.map_values(|n: &'static str| n@)
}

/// Names in quotes, separated by commas.
pub open spec fn quoted(names: Seq<Seq<char>>) -> Seq<char>
    decreases names.len(),
{
    if names.len() == 0 {
        Seq::empty()
    } else if names.len() == 1 {
        "\""@ + names[0] + "\""@
    } else {
        quoted(names.drop_last()) + ", "@ + "\""@ + names.last() + "\""@
    }
}

/// Constructor fields that fill each name from an array, counted from 1.
pub open spec fn fields(names: Seq<Seq<char>>, array: Seq<char>) -> Seq<char>
    decreases names.len(),
{
    if names.len() == 0 {
        Seq::empty()
    } else {
        fields(names.drop_last(), array) + names.last() + " = "@ + array + "["@ + text::decimal(
            names.len(),
        ) + "], "@
    }
}

fn quote_names(names: &Vec<&'static str>) -> (s: String)
    ensures
        s@ == quoted(name_views(names@)),
{
    let ghost all = name_views(names@);
    let mut out = String::new();
    let mut i: usize = 0;
    assert(all.take(0) =~= Seq::empty());
    while i < names.len()
        invariant
            i <= names@.len(),
            all == name_views(names@),
            out@ == quoted(all.take(i as int)),
        decreases names@.len() - i,
    {
        assert(all.take(i + 1).drop_last() =~= all.take(i as int));
        assert(all.take(i + 1).last() == names@[i as int]@);
        if i > 0 {
            out.append(", ");
        }
        out.append("\"");
        out.append(names[i]);
        out.append("\"");
        assert(out@ =~= quoted(all.take(i + 1)));
        i = i + 1;
    }
    assert(all.take(i as int) =~= all);
    out
}

fn field_list(names: &Vec<&'static str>, array: &str) -> (s: String)
    ensures
        s@ == fields(name_views(names@), array@),
{
    let ghost all = name_views(names@);
    let mut out = String::new();
    let mut i: usize = 0;
    assert(all.take(0) =~= Seq::empty());
    while i < names.len()
        invariant
            i <= names@.len(),
            all == name_views(names@),
            out@ == fields(all.take(i as int), array@),
        decreases names@.len() - i,
    {
        assert(all.take(i + 1).drop_last() =~= all.take(i as int));
        assert(all.take(i + 1).last() == names@[i as int]@);
        out.append(names[i]);
        out.append(" = ");
        out.append(array);
        out.append("[");
        let digits = text::decimal_of(i as u64 + 1);
        out.append(digits.as_str());
        out.append("], ");
        i = i + 1;
    }
    assert(all.take(i as int) =~= all);
    out
}

/// The builder up to its list of tables.
pub const BUILDER_HEAD: &'static str = r#"
local shared = ...

local search, include = shared.search, shared.include
local set_cookie, send_file = shared.set_cookie, shared.send_file
local native_require = shared.native_require
local mark, unmodified = shared.mark_finalizers, shared.unmodified

local TABLES = { "#;

pub const BUILDER_FUNCS: &'static str = r#" }
local FUNCS = { "#;

/// From the lists to the table of loaded modules.
pub const BUILDER_SETUP: &'static str = r#" }

local next, select, error, tostring, rawload, type = next, select, error, tostring, load, type
local rawget, setmetatable = rawget, setmetatable
local G, VERSION = _G, _VERSION
local pkg_path, pkg_cpath = package.path, package.cpath
local pkg_config, loadlib = package.config, package.loadlib

-- A finalizer left for the incremental collector would run inside a later
-- request, so anything that can create one marks this request for a full
-- collection before the state is handed on.
local function marked(f) return function(...) mark() return f(...) end end

local funcs = {}
for i = 1, #FUNCS do funcs[i] = G[FUNCS[i]] end
for i = 1, #FUNCS do
    if FUNCS[i] == "setmetatable" then
        funcs[i] = function(t, mt)
            if type(mt) == "table" and rawget(mt, "__gc") ~= nil then mark() end
            return setmetatable(t, mt)
        end
    end
end

-- Resolved once per state. A name absent on this backend stays a hole and
-- drops out of the constructors below.
local sources, ismodule = {}, {}
for i = 1, #TABLES do
    local name = TABLES[i]
    local source = G[name]
    if type(source) == "table" then
        if name == "io" then
            local wrapped = {}
            for k, v in next, source do wrapped[k] = v end
            for _, k in next, { "open", "lines", "popen", "tmpfile", "input", "output" } do
                if type(source[k]) == "function" then wrapped[k] = marked(source[k]) end
            end
            source = wrapped
        end
        sources[i] = source
        -- Only what stock require already resolves stays require-able.
        ismodule[i] = package.loaded[name] ~= nil
    end
end

local copies, modules, sizes = {}, {}, {}
local function copy_of(i)
    local copy, n = {}, 0
    for k, v in next, sources[i] do
        copy[k] = v
        n = n + 1
    end
    copies[i], sizes[i] = copy, n
    if ismodule[i] then modules[i] = copy end
end
for i = 1, #TABLES do
    if sources[i] ~= nil then copy_of(i) end
end

local function reset()
    for i = 1, #TABLES do
        local copy = copies[i]
        if copy ~= nil and not unmodified(copy, sources[i], sizes[i]) then copy_of(i) end
    end
end

local function build(request)
    local env
    local preload, loading = {}, {}
    local loaded = { "#;

pub const BUILDER_ENV: &'static str = r#" _G = nil }
    env = {
        "#;

/// From the environment's fields to its end, with `load` bound to it.
pub const BUILDER_TAIL: &'static str = r##"
        _G = nil,
        _VERSION = VERSION,
        request = request,
        -- `loaded` is this request's, so module state dies with it. `searchers`
        -- is absent rather than copied: require below does not consult it.
        package = {
            path = pkg_path,
            cpath = pkg_cpath,
            config = pkg_config,
            loaded = loaded,
            preload = preload,
            loadlib = loadlib,
        },
        require = nil,
        include = nil,
        load = nil,
        loadstring = nil,
        response = {
            status = 200,
            headers = {},
            set_cookie = set_cookie,
            send_file = send_file,
        },
    }
    env._G = env
    loaded._G = env

    env.load = function(chunk, chunkname, mode, ...)
        if select("#", ...) > 0 then return rawload(chunk, chunkname, mode, ...) end
        return rawload(chunk, chunkname, mode, env)
    end

    local function record(name, result)
        if result == nil then result = true end
        loaded[name], loading[name] = result, nil
        return result
    end

    env.require = function(name)
        local module = loaded[name]
        if module ~= nil then return module end
        if loading[name] then
            error("loop or previous error loading module '" .. tostring(name) .. "'", 2)
        end
        loading[name] = true
        local loader = preload[name]
        if loader ~= nil then return record(name, loader(name, ":preload:")) end
        local path
        loader, path = search(name, env)
        if loader ~= nil then return record(name, loader(name, path)) end
        loading[name] = nil
        -- Native modules only, which pools nothing.
        if native_require ~= nil then return native_require(name) end
        error("module '" .. tostring(name) .. "' not found:" .. tostring(path), 2)
    end

    env.include = function(rel) return include(rel, env) end

    return env
end

return build, reset
"##;

/// The Lua source that builds one request's environment: it returns the
/// per-request builder and the reset that runs between requests. The copies live
/// as long as the state and are replaced only once a request has changed one.
pub fn env_builder_source(tables: &Vec<&'static str>, funcs: &Vec<&'static str>) -> (s: String)
    ensures
        s@ == BUILDER_HEAD@ + quoted(name_views(tables@)) + BUILDER_FUNCS@ + quoted(
            name_views(funcs@),
        ) + BUILDER_SETUP@ + fields(name_views(tables@), "modules"@) + BUILDER_ENV@ + fields(
            name_views(tables@),
            "copies"@,
        ) + fields(name_views(funcs@), "funcs"@) + BUILDER_TAIL@,
{
    let mut s = BUILDER_HEAD.to_string();
    let t = quote_names(tables);
    s.append(t.as_str());
    s.append(BUILDER_FUNCS);
    let f = quote_names(funcs);
    s.append(f.as_str());
    s.append(BUILDER_SETUP);
    let loaded = field_list(tables, "modules");
    s.append(loaded.as_str());
    s.append(BUILDER_ENV);
    let copies = field_list(tables, "copies");
    s.append(copies.as_str());
    let shared = field_list(funcs, "funcs");
    s.append(shared.as_str());
    s.append(BUILDER_TAIL);
    s
}

// ---- copies between requests ----------------------------------------------------

/// A library table, or a request's copy of one: its entries by name and identity
/// of the value.
pub struct TableCopy {
    pub entries: Vec<(Vec<u8>, u64)>,
    pub has_metatable: bool,
}

/// Some entry has this name and value.
pub open spec fn holds(entries: Seq<(Vec<u8>, u64)>, name: Seq<u8>, value: u64) -> bool {
    exists|i: int| 0 <= i < entries.len() && (#[trigger] entries[i]).0@ == name && entries[i].1
        == value
}

/// A copy still holds what its source does, and nothing more.
pub open spec fn intact(copy: TableCopy, source: TableCopy) -> bool {
    &&& !copy.has_metatable
    &&& copy.entries@.len() == source.entries@.len()
    &&& forall|i: int|
        0 <= i < copy.entries@.len() ==> holds(
            source.entries@,
            (#[trigger] copy.entries@[i]).0@,
            copy.entries@[i].1,
        )
}

fn has_entry(entries: &Vec<(Vec<u8>, u64)>, name: &[u8], value: u64) -> (r: bool)
    ensures
        r == holds(entries@, name@, value),
{
    let mut i: usize = 0;
    while i < entries.len()
        invariant
            i <= entries@.len(),
            forall|k: int|
                0 <= k < i ==> !((#[trigger] entries@[k]).0@ == name@ && entries@[k].1 == value),
        decreases entries@.len() - i,
    {
        if entries[i].1 == value && path::same_bytes(entries[i].0.as_slice(), name) {
            return true;
        }
        i = i + 1;
    }
    false
}

/// Whether a request left its copy as it was: the same entries, no more and no
/// fewer, and no metatable, which would change no field.
pub fn unmodified(copy: &TableCopy, source: &TableCopy) -> (r: bool)
    ensures
        r == intact(*copy, *source),
{
    if copy.has_metatable || copy.entries.len() != source.entries.len() {
        return false;
    }
    let mut i: usize = 0;
    while i < copy.entries.len()
        invariant
            i <= copy.entries@.len(),
            forall|k: int|
                0 <= k < i ==> holds(
                    source.entries@,
                    (#[trigger] copy.entries@[k]).0@,
                    copy.entries@[k].1,
                ),
        decreases copy.entries@.len() - i,
    {
        if !has_entry(&source.entries, copy.entries[i].0.as_slice(), copy.entries[i].1) {
            assert(!holds(source.entries@, copy.entries@[i as int].0@, copy.entries@[i as int].1));
            return false;
        }
        i = i + 1;
    }
    true
}

/// Something a running request did that matters once it is over, remembered until
/// it is asked for.
pub struct Mark {
    pub set: bool,
}

impl Mark {
    pub fn mark(&mut self)
        ensures
            final(self).set,
    {
        self.set = true;
    }

    /// Whether it was marked since the last call, clearing the mark.
    pub fn take(&mut self) -> (was: bool)
        ensures
            was == old(self).set,
            !final(self).set,
    {
        let was = self.set;
        self.set = false;
        was
    }
}

/// What would lead past a request's environment is not in it: the metatable of
/// strings, raw assignment, and chunks bound to the real globals.
pub proof fn law_ways_out_are_not_shared(i: int)
    requires
        0 <= i < func_names().len(),
    ensures
        func_names()[i] != "getmetatable"@,
        func_names()[i] != "rawset"@,
        func_names()[i] != "dofile"@,
        func_names()[i] != "loadfile"@,
        func_names()[i] != "load"@,
        func_names()[i] != "require"@,
{
    reveal_strlit("getmetatable");
    reveal_strlit("rawset");
    reveal_strlit("dofile");
    reveal_strlit("loadfile");
    reveal_strlit("load");
    reveal_strlit("require");
    reveal_strlit("assert");
    reveal_strlit("collectgarbage");
    reveal_strlit("error");
    reveal_strlit("ipairs");
    reveal_strlit("next");
    reveal_strlit("pairs");
    reveal_strlit("pcall");
    reveal_strlit("rawequal");
    reveal_strlit("rawget");
    reveal_strlit("rawlen");
    reveal_strlit("select");
    reveal_strlit("setmetatable");
    reveal_strlit("tonumber");
    reveal_strlit("tostring");
    reveal_strlit("type");
    reveal_strlit("unpack");
    reveal_strlit("xpcall");
    reveal_strlit("html_escape");
    reveal_strlit("print");
    reveal_strlit("exit");
    reveal_strlit("redirect");
    reveal_strlit("_out");
    reveal_strlit("_out_expr");
    reveal_strlit("_out_raw");
    assert("require"@.len() == 7);
    assert(func_names()[i].len() != 7);
    assert("getmetatable"@[0] != "setmetatable"@[0]);
    assert("rawset"@[0] != "assert"@[0]);
    assert("rawset"@[0] != "ipairs"@[0]);
    assert("rawset"@[3] != "rawget"@[3]);
    assert("rawset"@[3] != "rawlen"@[3]);
    assert("rawset"@[0] != "select"@[0]);
    assert("rawset"@[0] != "unpack"@[0]);
    assert("rawset"@[0] != "xpcall"@[0]);
    assert("dofile"@[0] != "assert"@[0]);
    assert("dofile"@[0] != "ipairs"@[0]);
    assert("dofile"@[0] != "rawget"@[0]);
    assert("dofile"@[0] != "rawlen"@[0]);
    assert("dofile"@[0] != "select"@[0]);
    assert("dofile"@[0] != "unpack"@[0]);
    assert("dofile"@[0] != "xpcall"@[0]);
    assert("loadfile"@[0] != "rawequal"@[0]);
    assert("loadfile"@[0] != "tonumber"@[0]);
    assert("loadfile"@[0] != "tostring"@[0]);
    assert("loadfile"@[0] != "redirect"@[0]);
    assert("loadfile"@[0] != "_out_raw"@[0]);
    assert("load"@[0] != "next"@[0]);
    assert("load"@[0] != "type"@[0]);
    assert("load"@[0] != "exit"@[0]);
    assert("load"@[0] != "_out"@[0]);
}

/// Entries in specifications.
pub open spec fn entry_set(entries: Seq<(Vec<u8>, u64)>) -> Seq<(Seq<u8>, u64)> {
    entries.map_values(|e: (Vec<u8>, u64)| (e.0@, e.1))
}

/// A copy that passes for unmodified holds exactly the entries of its source, as
/// long as no table lists an entry twice.
pub proof fn law_unmodified_copies_are_equal(copy: TableCopy, source: TableCopy)
    requires
        intact(copy, source),
        entry_set(copy.entries@).no_duplicates(),
        entry_set(source.entries@).no_duplicates(),
    ensures
        entry_set(copy.entries@).to_set() == entry_set(source.entries@).to_set(),
        !copy.has_metatable,
{
    let a = entry_set(copy.entries@);
    let b = entry_set(source.entries@);
    a.unique_seq_to_set();
    b.unique_seq_to_set();
    assert(a.to_set().subset_of(b.to_set())) by {
        assert forall|e: (Seq<u8>, u64)| a.to_set().contains(e) implies b.to_set().contains(e) by {
            let i = choose|i: int| 0 <= i < a.len() && a[i] == e;
            assert(holds(source.entries@, copy.entries@[i].0@, copy.entries@[i].1));
            let j = choose|j: int|
                0 <= j < source.entries@.len() && (#[trigger] source.entries@[j]).0@
                    == copy.entries@[i].0@ && source.entries@[j].1 == copy.entries@[i].1;
            assert(b[j] == e);
        }
    }
    vstd::set_lib::lemma_subset_equality(a.to_set(), b.to_set());
}

/// A dot in a module's name leads into a directory, and every other character stands
/// for itself.
pub proof fn law_dots_lead_into_directories(a: Seq<char>, b: Seq<char>)
    ensures
        module_rel(a + seq!['.'] + b) == module_rel(a) + seq!['/'] + module_rel(b),
        !a.contains('.') ==> module_rel(a) == a,
{
    assert(module_rel(a + seq!['.'] + b) =~= module_rel(a) + seq!['/'] + module_rel(b));
    if !a.contains('.') {
        assert forall|i: int| 0 <= i < a.len() implies module_rel(a)[i] == a[i] by {
            assert(a.contains(a[i]));
        }
        assert(module_rel(a) =~= a);
    }
}

/// A module is any file of the serve directory, at any depth and of any name.
pub proof fn law_modules_are_files_of_the_serve_dir(serve_dir: Seq<u8>, probe: Probe)
    ensures
        usable(serve_dir, probe) <==> probe.canonical is Some && probe.is_file && path::within(
            probe.canonical->0@,
            serve_dir,
        ),
{
}

/// The line for a path that was tried shows where it was looked for.
pub proof fn law_lines_show_where_was_looked(serve_dir: Seq<u8>, candidate: Seq<char>)
    ensures
        tried_line(serve_dir, candidate) == seq!['\n', '\t'] + "no file '"@ + text::lossy_utf8(
            path::joined(serve_dir, encode_utf8(candidate)),
        ) + seq!['\''],
{
    reveal_strlit("\n\tno file '");
    reveal_strlit("no file '");
    reveal_strlit("'");
    assert("\n\tno file '"@ =~= seq!['\n', '\t'] + "no file '"@);
    assert("'"@ =~= seq!['\'']);
}

/// What a template can call without asking: these functions and no others.
pub proof fn law_templates_have_their_functions()
    ensures
        func_names().len() == 24,
        func_names().contains("assert"@),
        func_names().contains("collectgarbage"@),
        func_names().contains("error"@),
        func_names().contains("ipairs"@),
        func_names().contains("next"@),
        func_names().contains("pairs"@),
        func_names().contains("pcall"@),
        func_names().contains("rawequal"@),
        func_names().contains("rawget"@),
        func_names().contains("rawlen"@),
        func_names().contains("select"@),
        func_names().contains("setmetatable"@),
        func_names().contains("tonumber"@),
        func_names().contains("tostring"@),
        func_names().contains("type"@),
        func_names().contains("unpack"@),
        func_names().contains("xpcall"@),
        func_names().contains("html_escape"@),
        func_names().contains("print"@),
        func_names().contains("exit"@),
        func_names().contains("redirect"@),
        func_names().contains("_out"@),
        func_names().contains("_out_expr"@),
        func_names().contains("_out_raw"@),
{
    assert(func_names()[0] == "assert"@);
    assert(func_names()[1] == "collectgarbage"@);
    assert(func_names()[2] == "error"@);
    assert(func_names()[3] == "ipairs"@);
    assert(func_names()[4] == "next"@);
    assert(func_names()[5] == "pairs"@);
    assert(func_names()[6] == "pcall"@);
    assert(func_names()[7] == "rawequal"@);
    assert(func_names()[8] == "rawget"@);
    assert(func_names()[9] == "rawlen"@);
    assert(func_names()[10] == "select"@);
    assert(func_names()[11] == "setmetatable"@);
    assert(func_names()[12] == "tonumber"@);
    assert(func_names()[13] == "tostring"@);
    assert(func_names()[14] == "type"@);
    assert(func_names()[15] == "unpack"@);
    assert(func_names()[16] == "xpcall"@);
    assert(func_names()[17] == "html_escape"@);
    assert(func_names()[18] == "print"@);
    assert(func_names()[19] == "exit"@);
    assert(func_names()[20] == "redirect"@);
    assert(func_names()[21] == "_out"@);
    assert(func_names()[22] == "_out_expr"@);
    assert(func_names()[23] == "_out_raw"@);
}

/// What libraries a template has: these and no others.
pub proof fn law_templates_have_their_libraries()
    ensures
        table_names().len() == 15,
        table_names().contains("string"@),
        table_names().contains("table"@),
        table_names().contains("math"@),
        table_names().contains("os"@),
        table_names().contains("io"@),
        table_names().contains("coroutine"@),
        table_names().contains("utf8"@),
        table_names().contains("log"@),
        table_names().contains("json"@),
        table_names().contains("sqlite"@),
        table_names().contains("crypto"@),
        table_names().contains("fs"@),
        table_names().contains("process"@),
        table_names().contains("thread"@),
        table_names().contains("server"@),
{
    assert(table_names()[0] == "string"@);
    assert(table_names()[1] == "table"@);
    assert(table_names()[2] == "math"@);
    assert(table_names()[3] == "os"@);
    assert(table_names()[4] == "io"@);
    assert(table_names()[5] == "coroutine"@);
    assert(table_names()[6] == "utf8"@);
    assert(table_names()[7] == "log"@);
    assert(table_names()[8] == "json"@);
    assert(table_names()[9] == "sqlite"@);
    assert(table_names()[10] == "crypto"@);
    assert(table_names()[11] == "fs"@);
    assert(table_names()[12] == "process"@);
    assert(table_names()[13] == "thread"@);
    assert(table_names()[14] == "server"@);
}

/// A list of names is each name in quotes, in order, with a comma and a space between
/// neighbours.
pub proof fn law_names_are_quoted_one_by_one(names: Seq<Seq<char>>, name: Seq<char>)
    ensures
        quoted(Seq::empty()) == Seq::<char>::empty(),
        quoted(seq![name]) == seq!['"'] + name + seq!['"'],
        names.len() > 0 ==> quoted(names.push(name)) == quoted(names) + seq![',', ' ', '"'] + name
            + seq!['"'],
{
    reveal_strlit("\"");
    reveal_strlit(", ");
    assert("\""@ =~= seq!['"']);
    assert(", "@ + "\""@ =~= seq![',', ' ', '"']);
    assert(names.push(name).drop_last() =~= names);
    if names.len() > 0 {
        assert(quoted(names.push(name)) =~= quoted(names) + (", "@ + "\""@) + name + "\""@);
    }
}

/// Each name is filled from its own place in the array, counted from 1.
pub proof fn law_fields_are_counted_from_one(
    names: Seq<Seq<char>>,
    name: Seq<char>,
    array: Seq<char>,
)
    ensures
        fields(Seq::empty(), array) == Seq::<char>::empty(),
        fields(names.push(name), array) == fields(names, array) + name + seq![' ', '=', ' '] + array
            + seq!['['] + text::decimal(names.len() + 1) + seq![']', ',', ' '],
{
    reveal_strlit(" = ");
    reveal_strlit("[");
    reveal_strlit("], ");
    assert(" = "@ =~= seq![' ', '=', ' ']);
    assert("["@ =~= seq!['[']);
    assert("], "@ =~= seq![']', ',', ' ']);
    assert(names.push(name).drop_last() =~= names);
}

/// A copy that nobody touched is kept: one with the entries of its source, in whatever
/// order, and no metatable passes for unmodified.
pub proof fn law_untouched_copies_are_kept(copy: TableCopy, source: TableCopy)
    requires
        !copy.has_metatable,
        copy.entries@.len() == source.entries@.len(),
        forall|i: int|
            0 <= i < copy.entries@.len() ==> entry_set(source.entries@).contains(
                #[trigger] entry_set(copy.entries@)[i],
            ),
    ensures
        intact(copy, source),
{
    let a = entry_set(copy.entries@);
    let b = entry_set(source.entries@);
    assert forall|i: int| 0 <= i < copy.entries@.len() implies holds(
        source.entries@,
        (#[trigger] copy.entries@[i]).0@,
        copy.entries@[i].1,
    ) by {
        assert(b.contains(a[i]));
        let j = choose|j: int| 0 <= j < b.len() && b[j] == a[i];
        assert(source.entries@[j].0@ == copy.entries@[i].0@);
    }
}

/// A copy that was touched is replaced: one entry that its source does not have, one
/// more or fewer, or a metatable is enough.
pub proof fn law_touched_copies_are_replaced(copy: TableCopy, source: TableCopy, i: int)
    ensures
        copy.has_metatable ==> !intact(copy, source),
        copy.entries@.len() != source.entries@.len() ==> !intact(copy, source),
        0 <= i < copy.entries@.len() && !entry_set(source.entries@).contains(
            entry_set(copy.entries@)[i],
        ) ==> !intact(copy, source),
{
    if 0 <= i < copy.entries@.len() && intact(copy, source) {
        let a = entry_set(copy.entries@);
        let b = entry_set(source.entries@);
        assert(holds(source.entries@, copy.entries@[i].0@, copy.entries@[i].1));
        let j = choose|j: int|
            0 <= j < source.entries@.len() && (#[trigger] source.entries@[j]).0@
                == copy.entries@[i].0@ && source.entries@[j].1 == copy.entries@[i].1;
        assert(b[j] == a[i]);
    }
}

} // verus!
