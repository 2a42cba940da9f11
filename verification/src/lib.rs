//! Red Crescent: a web server that renders HTML with embedded Lua.

pub mod api;
pub mod config;
pub mod crypto_api;
pub mod fs_api;
pub mod listen;
pub mod lua_runtime;
pub mod path;
pub mod process_api;
pub mod resolve;
pub mod runtime;
pub mod sqlite_api;
pub mod template;
pub mod text;
pub mod threads;
pub mod value;
pub mod watchdog;
pub mod web;

use vstd::prelude::*;
use vstd::utf8::*;
use crate::path::PathBytes;

verus! {

/// What is at the place of a configured directory: its canonical path, or the
/// system's words for why it has none.
pub struct DirLookup {
    pub canonical: Result<PathBytes, String>,
    pub is_dir: bool,
}

/// Why a C-module directory is refused, if it is: it must exist and sit outside the
/// serve directory, since a library below it would also be downloadable.
pub open spec fn module_dir_refusal(
    dir: Seq<u8>,
    lookup: DirLookup,
    serve_dir: Seq<u8>,
) -> Option<Seq<char>> {
    match lookup.canonical {
        Err(e) => Some(
            "C module directory '"@ + text::lossy_utf8(dir) + "' is not usable: "@ + e@,
        ),
        Ok(p) => if !lookup.is_dir {
            Some("C module directory '"@ + text::lossy_utf8(p@) + "' is not a directory"@)
        } else if path::within(p@, serve_dir) {
            Some(
                "C module directory '"@ + text::lossy_utf8(p@)
                    + "' must not be inside the serve directory '"@ + text::lossy_utf8(serve_dir)
                    + "' — a .so there would also be downloadable as a static file"@,
            )
        } else {
            None
        },
    }
}

/// Why one C-module directory is refused, if it is.
fn check_module_dir(dir: &[u8], lookup: &DirLookup, serve_dir: &[u8]) -> (r: Option<String>)
    ensures
        match r {
            Some(message) => module_dir_refusal(dir@, *lookup, serve_dir@) == Some(message@),
            None => module_dir_refusal(dir@, *lookup, serve_dir@) is None,
        },
{
    let mut message = "C module directory '".to_string();
    match &lookup.canonical {
        Err(e) => {
            let shown = text::lossy(dir);
            message.append(shown.as_str());
            message.append("' is not usable: ");
            message.append(e.as_str());
            Some(message)
        },
        Ok(p) => {
            let shown = text::lossy(p.as_slice());
            message.append(shown.as_str());
            if !lookup.is_dir {
                message.append("' is not a directory");
                return Some(message);
            }
            if path::starts_with(p.as_slice(), serve_dir) {
                let serve = text::lossy(serve_dir);
                message.append("' must not be inside the serve directory '");
                message.append(serve.as_str());
                message.append("' — a .so there would also be downloadable as a static file");
                return Some(message);
            }
            None
        },
    }
}

/// The search pattern of each directory.
pub open spec fn module_patterns(lookups: Seq<DirLookup>) -> Seq<Seq<char>> {
    lookups.map_values(|l: DirLookup| text::lossy_utf8(l.canonical->Ok_0@) + "/?.so"@)
}

/// Validates C-module directories and builds the `package.cpath` they imply;
/// `None` leaves native modules disabled. `lookups` says what is at each
/// directory's place.
pub fn resolve_c_module_dirs(
    dirs: &Vec<PathBytes>,
    lookups: &Vec<DirLookup>,
    serve_dir: &[u8],
) -> (r: Result<Option<String>, String>)
    requires
        lookups@.len() == dirs@.len(),
    ensures
        match r {
            Ok(None) => dirs@.len() == 0,
            Ok(Some(cpath)) => {
                &&& dirs@.len() > 0
                &&& forall|i: int|
                    0 <= i < dirs@.len() ==> module_dir_refusal(
                        (#[trigger] dirs@[i])@,
                        lookups@[i],
                        serve_dir@,
                    ) is None
                &&& cpath@ == text::separated(module_patterns(lookups@), ";"@)
            },
            Err(message) => exists|i: int|
                {
                    &&& 0 <= i < dirs@.len()
                    &&& module_dir_refusal((#[trigger] dirs@[i])@, lookups@[i], serve_dir@) == Some(
                        message@,
                    )
                    &&& forall|k: int|
                        0 <= k < i ==> module_dir_refusal(
                            (#[trigger] dirs@[k])@,
                            lookups@[k],
                            serve_dir@,
                        ) is None
                },
        },
{
    if dirs.len() == 0 {
        return Ok(None);
    }
    let mut parts: Vec<String> = Vec::new();
    let mut i: usize = 0;
    assert(text::views(parts@) =~= module_patterns(lookups@).take(0));
    while i < dirs.len()
        invariant
            i <= dirs@.len(),
            lookups@.len() == dirs@.len(),
            text::views(parts@) == module_patterns(lookups@).take(i as int),
            forall|k: int|
                0 <= k < i ==> module_dir_refusal(
                    (#[trigger] dirs@[k])@,
                    lookups@[k],
                    serve_dir@,
                ) is None,
        decreases dirs@.len() - i,
    {
        if let Some(message) = check_module_dir(dirs[i].as_slice(), &lookups[i], serve_dir) {
            assert(module_dir_refusal(dirs@[i as int]@, lookups@[i as int], serve_dir@) == Some(
                message@,
            ));
            return Err(message);
        }
        assert(module_dir_refusal(dirs@[i as int]@, lookups@[i as int], serve_dir@) is None);
        let shown = match &lookups[i].canonical {
            Ok(p) => text::lossy(p.as_slice()),
            Err(_) => String::new(),
        };
        let ghost before = parts@;
        // One pattern covers submodules: dots become separators.
        let pattern = text::join2(shown.as_str(), "/?.so");
        parts.push(pattern);
        proof {
            assert(text::views(parts@) =~= text::views(before).push(pattern@));
            assert(module_patterns(lookups@).take(i + 1) =~= module_patterns(lookups@).take(
                i as int,
            ).push(pattern@));
        }
        i = i + 1;
    }
    assert(module_patterns(lookups@).take(i as int) =~= module_patterns(lookups@));
    Ok(Some(text::join_with(&parts, ";")))
}

/// What became of the data directory at startup.
pub enum DataDir {
    /// It could not be created.
    NotCreated(String),
    /// It has no canonical form.
    NotResolved(String),
    /// Its canonical form.
    Real(PathBytes),
}

/// Checks the data directory and names its upload spool. Refuses a data directory
/// inside the serve directory: databases and uploads must never be reachable as
/// static files.
pub fn setup_data_dir(data_dir: &[u8], serve_dir: &[u8], state: DataDir) -> (r: Result<
    (PathBytes, PathBytes),
    String,
>)
    ensures
        match state {
            DataDir::NotCreated(e) => r is Err && r->Err_0@ == "cannot create data directory '"@
                + text::lossy_utf8(data_dir@) + "': "@ + e@,
            DataDir::NotResolved(e) => r is Err && r->Err_0@ == "data directory '"@
                + text::lossy_utf8(data_dir@) + "' is not usable: "@ + e@,
            DataDir::Real(p) => if path::within(p@, serve_dir@) {
                r is Err && r->Err_0@ == "data directory '"@ + text::lossy_utf8(p@)
                    + "' must not be inside the serve directory '"@ + text::lossy_utf8(serve_dir@)
                    + "' — databases and uploads would become downloadable"@
            } else {
                &&& r is Ok
                &&& r->Ok_0.0 == p
                &&& r->Ok_0.1@ == path::joined(p@, encode_utf8(".spool"@))
            },
        },
{
    match state {
        DataDir::NotCreated(e) => {
            let shown = text::lossy(data_dir);
            let mut message = "cannot create data directory '".to_string();
            message.append(shown.as_str());
            message.append("': ");
            message.append(e.as_str());
            Err(message)
        },
        DataDir::NotResolved(e) => {
            let shown = text::lossy(data_dir);
            let mut message = "data directory '".to_string();
            message.append(shown.as_str());
            message.append("' is not usable: ");
            message.append(e.as_str());
            Err(message)
        },
        DataDir::Real(p) => {
            if path::starts_with(p.as_slice(), serve_dir) {
                let shown = text::lossy(p.as_slice());
                let serve = text::lossy(serve_dir);
                let mut message = "data directory '".to_string();
                message.append(shown.as_str());
                message.append("' must not be inside the serve directory '");
                message.append(serve.as_str());
                message.append("' — databases and uploads would become downloadable");
                return Err(message);
            }
            let spool = path::join(p.as_slice(), ".spool".as_bytes());
            Ok((p, spool))
        },
    }
}

/// Where the fallback template is looked for, not yet canonicalized.
pub fn fallback_path(serve_dir: &[u8], rel: &str) -> (p: PathBytes)
    ensures
        p@ == path::joined(serve_dir@, encode_utf8(text::without_leading_slashes(rel@))),
{
    let tail = text::trim_leading_slashes(rel);
    path::join(serve_dir, tail.as_str().as_bytes())
}

/// The fallback template, checked once at startup so that a typo is a boot error
/// rather than a page that misbehaves later. It must be a template inside the serve
/// directory: a static file could not set its own status. `canonical` is its
/// canonical path, or why there is none.
pub fn resolve_fallback(
    fallback: Option<&str>,
    serve_dir: &[u8],
    canonical: Result<PathBytes, String>,
) -> (r: Result<Option<PathBytes>, String>)
    ensures
        match fallback {
            None => r is Ok && r->Ok_0 is None,
            Some(rel) => match canonical {
                Err(e) => r is Err && r->Err_0@ == "fallback template '"@ + rel@
                    + "' is not usable: "@ + e@,
                Ok(p) => if !path::within(p@, serve_dir@) {
                    r is Err && r->Err_0@ == "fallback template '"@ + rel@
                        + "' must be inside the serve directory"@
                } else if !path::lhtml_file(p@) {
                    r is Err && r->Err_0@ == "fallback template '"@ + rel@
                        + "' must be a .lhtml file"@
                } else {
                    r is Ok && r->Ok_0 == Some(p)
                },
            },
        },
{
    let rel = match fallback {
        Some(rel) => rel,
        None => {
            return Ok(None);
        },
    };
    let mut message = "fallback template '".to_string();
    message.append(rel);
    match canonical {
        Err(e) => {
            message.append("' is not usable: ");
            message.append(e.as_str());
            Err(message)
        },
        Ok(p) => {
            if !path::starts_with(p.as_slice(), serve_dir) {
                message.append("' must be inside the serve directory");
                return Err(message);
            }
            if !path::is_lhtml(p.as_slice()) {
                message.append("' must be a .lhtml file");
                return Err(message);
            }
            Ok(Some(p))
        },
    }
}

/// A directory of native modules is accepted exactly when it exists, is a directory and
/// lies outside the serve directory; otherwise it is told which of these it is not.
pub proof fn law_module_dirs_lie_outside(dir: Seq<u8>, lookup: DirLookup, serve_dir: Seq<u8>)
    ensures
        module_dir_refusal(dir, lookup, serve_dir) is None <==> lookup.canonical is Ok
            && lookup.is_dir && !path::within(lookup.canonical->Ok_0@, serve_dir),
        lookup.canonical is Err ==> module_dir_refusal(dir, lookup, serve_dir) == Some(
            "C module directory '"@ + text::lossy_utf8(dir) + "' is not usable: "@
                + lookup.canonical->Err_0@,
        ),
        lookup.canonical is Ok && !lookup.is_dir ==> module_dir_refusal(dir, lookup, serve_dir)
            == Some(
            "C module directory '"@ + text::lossy_utf8(lookup.canonical->Ok_0@)
                + "' is not a directory"@,
        ),
        lookup.canonical is Ok && lookup.is_dir && path::within(lookup.canonical->Ok_0@, serve_dir)
            ==> module_dir_refusal(dir, lookup, serve_dir) == Some(
            "C module directory '"@ + text::lossy_utf8(lookup.canonical->Ok_0@)
                + "' must not be inside the serve directory '"@ + text::lossy_utf8(serve_dir)
                + "' — a .so there would also be downloadable as a static file"@,
        ),
{
}

/// Modules are looked for in every directory, in the order given.
pub proof fn law_every_module_dir_is_searched(lookups: Seq<DirLookup>, i: int)
    requires
        0 <= i < lookups.len(),
    ensures
        module_patterns(lookups).len() == lookups.len(),
        module_patterns(lookups)[i] == text::lossy_utf8(lookups[i].canonical->Ok_0@) + seq![
            '/',
            '?',
            '.',
            's',
            'o',
        ],
{
    reveal_strlit("/?.so");
    assert("/?.so"@ =~= seq!['/', '?', '.', 's', 'o']);
}

} // verus!
