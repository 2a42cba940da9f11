//! What a template can ask of the response: a redirect, cookies, another template
//! in its place or a file instead of it.

use vstd::prelude::*;
use vstd::utf8::*;
use crate::path;
use crate::path::PathBytes;
use crate::runtime;
use crate::runtime::{LuaCookie, RenderState, SendFileSpec};
use crate::text;
use crate::web;

verus! {

pub const MAX_INCLUDE_DEPTH: u32 = 16;

pub const DEFAULT_REDIRECT: u16 = 302;

// ---- redirects ------------------------------------------------------------------

/// The status a redirect asks for.
pub open spec fn redirect_status(status: Option<u16>) -> u16 {
    match status {
        Some(n) => n,
        None => DEFAULT_REDIRECT,
    }
}

/// Records a redirect; the template is left right after. Recording comes first, so
/// that even a script that catches the exit cannot lose it. Fails on a status that
/// is no redirect.
pub fn redirect(state: &mut RenderState, url: String, status: Option<u16>) -> (r: Result<(), String>)
    ensures
        ({
            let code = redirect_status(status);
            if 300 <= code <= 399 {
                &&& r is Ok
                &&& final(state).redirect == Some((url, code))
            } else {
                &&& r is Err
                &&& r->Err_0@ == "redirect: status must be a 3xx code, got "@ + text::decimal(
                    code as nat,
                )
                &&& final(state).redirect == old(state).redirect
            }
        }),
        final(state).out == old(state).out,
        final(state).cookies == old(state).cookies,
        final(state).send_file == old(state).send_file,
        final(state).include_depth == old(state).include_depth,
{
    let code: u16 = match status {
        Some(n) => n,
        None => DEFAULT_REDIRECT,
    };
    if code < 300 || code > 399 {
        let mut message = "redirect: status must be a 3xx code, got ".to_string();
        let digits = text::decimal_of(code as u64);
        message.append(digits.as_str());
        return Err(message);
    }
    state.redirect = Some((url, code));
    Ok(())
}

// ---- cookies --------------------------------------------------------------------

/// The fields of a cookie as a template gives them.
pub struct CookieSpec {
    pub name: Option<String>,
    pub value: Option<String>,
    pub path: Option<String>,
    pub domain: Option<String>,
    pub max_age: Option<i64>,
    pub http_only: Option<bool>,
    pub secure: Option<bool>,
    pub same_site: Option<String>,
}

pub open spec fn known_mode(word: Seq<char>) -> bool {
    let w = text::lowercase_of(word);
    w == "strict"@ || w == "lax"@ || w == "none"@
}

/// Why a cookie is refused, if it is.
pub open spec fn cookie_refusal(spec: CookieSpec) -> Option<Seq<char>> {
    if spec.name is None {
        Some("set_cookie: 'name' field is required"@)
    } else if spec.value is None {
        Some("set_cookie: 'value' field is required"@)
    } else if spec.same_site is Some && !known_mode(spec.same_site->0@) {
        Some(
            "set_cookie: same_site must be 'strict', 'lax' or 'none', got '"@ + spec.same_site->0@
                + "'"@,
        )
    } else {
        None
    }
}

/// Queues a cookie.
pub fn set_cookie(state: &mut RenderState, spec: CookieSpec) -> (r: Result<(), String>)
    ensures
        match cookie_refusal(spec) {
            Some(message) => {
                &&& r is Err
                &&& r->Err_0@ == message
                &&& final(state).cookies@ == old(state).cookies@
            },
            None => {
                &&& r is Ok
                &&& final(state).cookies@ == old(state).cookies@.push(
                    LuaCookie {
                        name: spec.name->0,
                        value: spec.value->0,
                        path: spec.path,
                        domain: spec.domain,
                        max_age: spec.max_age,
                        http_only: spec.http_only == Some(true),
                        secure: spec.secure == Some(true),
                        same_site: spec.same_site,
                    },
                )
            },
        },
        final(state).out == old(state).out,
        final(state).redirect == old(state).redirect,
        final(state).send_file == old(state).send_file,
        final(state).include_depth == old(state).include_depth,
{
    let name = match spec.name {
        Some(name) => name,
        None => {
            return Err("set_cookie: 'name' field is required".to_string());
        },
    };
    let value = match spec.value {
        Some(value) => value,
        None => {
            return Err("set_cookie: 'value' field is required".to_string());
        },
    };
    if let Some(word) = &spec.same_site {
        let lower = text::to_lowercase(word.as_str());
        let known = text::same(lower.as_str(), "strict") || text::same(lower.as_str(), "lax")
            || text::same(lower.as_str(), "none");
        if !known {
            let mut message =
                "set_cookie: same_site must be 'strict', 'lax' or 'none', got '".to_string();
            message.append(word.as_str());
            message.append("'");
            return Err(message);
        }
    }
    let http_only = match spec.http_only {
        Some(b) => b,
        None => false,
    };
    let secure = match spec.secure {
        Some(b) => b,
        None => false,
    };
    state.cookies.push(
        LuaCookie {
            name,
            value,
            path: spec.path,
            domain: spec.domain,
            max_age: spec.max_age,
            http_only,
            secure,
            same_site: spec.same_site,
        },
    );
    Ok(())
}

// ---- includes -------------------------------------------------------------------

/// Where a template to be rendered in place is looked for, not yet canonicalized.
pub fn include_path(serve_dir: &[u8], rel: &str) -> (p: PathBytes)
    ensures
        p@ == path::joined(serve_dir@, encode_utf8(text::without_leading_slashes(rel@))),
{
    let tail = text::trim_leading_slashes(rel);
    path::join(serve_dir, tail.as_str().as_bytes())
}

/// Why it may not be rendered, if it may not: `canonical` is the canonical path it
/// was found at.
pub open spec fn include_refusal(
    depth: u32,
    serve_dir: Seq<u8>,
    rel: Seq<char>,
    canonical: Option<Seq<u8>>,
) -> Option<Seq<char>> {
    if depth >= MAX_INCLUDE_DEPTH {
        Some("include: depth limit (16) exceeded — recursive include?"@)
    } else {
        match canonical {
            None => Some("include: file not found: "@ + rel),
            Some(p) => if !path::within(p, serve_dir) {
                Some("include: path escapes the serve directory: "@ + rel)
            } else if !path::lhtml_file(p) {
                Some(
                    "include: only .lhtml files can be included (use require() for .lua modules)"@,
                )
            } else {
                None
            },
        }
    }
}

/// The template to render in place and its name in error messages, or why it is
/// refused. Confined to the serve directory, and not nested without end.
pub fn check_include(
    state: &RenderState,
    serve_dir: &[u8],
    rel: &str,
    canonical: Option<PathBytes>,
) -> (r: Result<(PathBytes, String), String>)
    ensures
        match include_refusal(state.include_depth, serve_dir@, rel@, web::opt_bytes(canonical)) {
            Some(message) => r is Err && r->Err_0@ == message,
            None => {
                &&& r is Ok
                &&& canonical == Some(r->Ok_0.0)
                &&& r->Ok_0.1@ == web::display_text(r->Ok_0.0@, serve_dir@, rel@)
                &&& path::within(r->Ok_0.0@, serve_dir@)
            },
        },
{
    if state.include_depth >= MAX_INCLUDE_DEPTH {
        return Err("include: depth limit (16) exceeded — recursive include?".to_string());
    }
    let abs = match canonical {
        Some(p) => p,
        None => {
            return Err(text::join2("include: file not found: ", rel));
        },
    };
    if !path::starts_with(abs.as_slice(), serve_dir) {
        return Err(text::join2("include: path escapes the serve directory: ", rel));
    }
    if !path::is_lhtml(abs.as_slice()) {
        return Err(
            "include: only .lhtml files can be included (use require() for .lua modules)".to_string(),
        );
    }
    let name = web::display_name(abs.as_slice(), serve_dir, rel);
    Ok((abs, name))
}

/// A template is about to be rendered in place.
pub fn enter_include(state: &mut RenderState)
    requires
        old(state).include_depth < MAX_INCLUDE_DEPTH,
    ensures
        *final(state) == (RenderState {
            include_depth: (old(state).include_depth + 1) as u32,
            ..*old(state)
        }),
        final(state).include_depth == old(state).include_depth + 1,
        final(state).include_depth <= MAX_INCLUDE_DEPTH,
{
    state.include_depth = state.include_depth + 1;
}

/// It has been rendered, or has failed.
pub fn leave_include(state: &mut RenderState)
    requires
        old(state).include_depth > 0,
    ensures
        *final(state) == (RenderState {
            include_depth: (old(state).include_depth - 1) as u32,
            ..*old(state)
        }),
        final(state).include_depth == old(state).include_depth - 1,
{
    state.include_depth = state.include_depth - 1;
}

/// A template that keeps rendering itself is stopped: once the depth limit is
/// reached, nothing more is rendered in place.
pub proof fn law_includes_end(
    depth: u32,
    serve_dir: Seq<u8>,
    rel: Seq<char>,
    canonical: Option<Seq<u8>>,
)
    requires
        include_refusal(depth, serve_dir, rel, canonical) is None,
    ensures
        depth < MAX_INCLUDE_DEPTH,
        canonical is Some,
        path::within(canonical->0, serve_dir),
        path::lhtml_file(canonical->0),
{
}

// ---- sending files --------------------------------------------------------------

/// Why a file may not be sent, if it may not. Inside the serve directory the rule
/// of static files applies: server-side source never reaches a client, by any
/// route. The data directory is exempt: a `.lua` file there is user content.
pub open spec fn send_refusal(
    data_dir: Seq<u8>,
    serve_dir: Seq<u8>,
    shown: Seq<char>,
    canonical: Option<Seq<u8>>,
    is_file: bool,
) -> Option<Seq<char>> {
    match canonical {
        None => Some("send_file: file not found: "@ + shown),
        Some(p) => if !path::within(p, data_dir) && !path::within(p, serve_dir) {
            Some("send_file: path is outside the data and serve directories: "@ + shown)
        } else if !is_file {
            Some("send_file: not a regular file: "@ + shown)
        } else if path::within(p, data_dir) {
            None
        } else if path::lua_file(p) {
            Some("send_file: refusing to send Lua source from the serve directory: "@ + shown)
        } else if web::hidden_below(p, serve_dir) {
            Some("send_file: refusing to send a hidden file from the serve directory: "@ + shown)
        } else {
            None
        },
    }
}

/// Asks for a file to be sent in place of the rendered output. `shown` is the path
/// as the template gave it, `canonical` where it leads.
pub fn send_file(
    state: &mut RenderState,
    data_dir: &[u8],
    serve_dir: &[u8],
    shown: &str,
    canonical: Option<PathBytes>,
    is_file: bool,
    download_name: Option<String>,
    content_type: Option<String>,
) -> (r: Result<(), String>)
    ensures
        match send_refusal(data_dir@, serve_dir@, shown@, web::opt_bytes(canonical), is_file) {
            Some(message) => {
                &&& r is Err
                &&& r->Err_0@ == message
                &&& final(state).send_file == old(state).send_file
            },
            None => {
                &&& r is Ok
                &&& canonical is Some
                &&& final(state).send_file == Some(
                    SendFileSpec { path: canonical->0, download_name, content_type },
                )
            },
        },
        final(state).out == old(state).out,
        final(state).cookies == old(state).cookies,
        final(state).redirect == old(state).redirect,
        final(state).include_depth == old(state).include_depth,
{
    let abs = match canonical {
        Some(p) => p,
        None => {
            return Err(text::join2("send_file: file not found: ", shown));
        },
    };
    let in_data = path::starts_with(abs.as_slice(), data_dir);
    if !in_data && !path::starts_with(abs.as_slice(), serve_dir) {
        return Err(
            text::join2("send_file: path is outside the data and serve directories: ", shown),
        );
    }
    if !is_file {
        return Err(text::join2("send_file: not a regular file: ", shown));
    }
    if !in_data {
        if path::is_lua(abs.as_slice()) {
            return Err(
                text::join2(
                    "send_file: refusing to send Lua source from the serve directory: ",
                    shown,
                ),
            );
        }
        if web::is_hidden_below(abs.as_slice(), serve_dir) {
            return Err(
                text::join2(
                    "send_file: refusing to send a hidden file from the serve directory: ",
                    shown,
                ),
            );
        }
    }
    state.send_file = Some(SendFileSpec { path: abs, download_name, content_type });
    Ok(())
}

/// A file that is sent lies in the data directory, or is one that the serve
/// directory would serve as a static file.
pub proof fn law_sent_files_are_public(
    data_dir: Seq<u8>,
    serve_dir: Seq<u8>,
    shown: Seq<char>,
    canonical: Option<Seq<u8>>,
    is_file: bool,
)
    requires
        send_refusal(data_dir, serve_dir, shown, canonical, is_file) is None,
    ensures
        canonical is Some,
        is_file,
        path::within(canonical->0, data_dir) || (path::within(canonical->0, serve_dir)
            && !path::lua_file(canonical->0) && !web::hidden_below(canonical->0, serve_dir)),
{
}

} // verus!
