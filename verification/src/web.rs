//! The HTTP layer: where a request path leads inside the serve directory, how
//! much of a body is read, and what is answered.
//!
//! Paths that resolve to no file go to the fallback template, if there is one;
//! server-side source and hidden files never reach a client.

pub mod handlers;
pub mod laws;
pub mod upload;

use vstd::prelude::*;
use vstd::utf8::*;
use crate::api;
use crate::config::Config;
use crate::path;
use crate::path::PathBytes;
use crate::resolve;
use crate::runtime;
use crate::runtime::{LuaCookie, RenderConfig, RenderError, RenderedResponse, RequestBody, RequestData};
use crate::text;

verus! {

/// What every request handler works with.
pub struct AppState {
    pub config: Config,
    /// Canonical; every served path must stay under it.
    pub serve_dir: PathBytes,
    /// Canonical writable sandbox for databases, sent files and uploads.
    pub data_dir: PathBytes,
    /// Where multipart file parts land first.
    pub spool_dir: PathBytes,
    /// Canonical template for paths that resolve to no file.
    pub fallback: Option<PathBytes>,
    pub render_cfg: RenderConfig,
}

// ---- pages ----------------------------------------------------------------------

/// A finished answer that no template had a part in.
pub struct Page {
    pub status: u16,
    /// HTML, as opposed to bare text.
    pub html: bool,
    pub body: String,
}

/// The page for a status, its title and, where there is one, a detail.
pub open spec fn page_text(status: u16, title: Seq<char>, detail: Option<Seq<char>>) -> Seq<char> {
    let code = text::decimal(status as nat);
    let shown = match detail {
        Some(d) => "<pre>"@ + api::escaped_text(d) + "</pre>"@,
        None => Seq::empty(),
    };
    "<!DOCTYPE html><html><head><title>"@ + code + " "@ + title
        + "</title></head><body style=\"font-family:sans-serif;max-width:48rem;margin:3rem auto\"><h1>"@
        + code + " "@ + title + "</h1>"@ + shown + "</body></html>"@
}

/// A page is an error page with this status, title and detail.
pub open spec fn is_page(page: Page, status: u16, title: Seq<char>, detail: Option<Seq<char>>) -> bool {
    page.status == status && page.html && page.body@ == page_text(status, title, detail)
}

/// A page is this bare text.
pub open spec fn is_text(page: Page, status: u16, body: Seq<char>) -> bool {
    page.status == status && !page.html && page.body@ == body
}

pub fn error_page(status: u16, title: &str, detail: Option<&str>) -> (page: Page)
    ensures
        is_page(
            page,
            status,
            title@,
            match detail {
                Some(d) => Some(d@),
                None => None,
            },
        ),
{
    let code = text::decimal_of(status as u64);
    let mut shown = String::new();
    if let Some(d) = detail {
        let inner = api::html_escape(d);
        shown = "<pre>".to_string();
        shown.append(inner.as_str());
        shown.append("</pre>");
    }
    let mut body = "<!DOCTYPE html><html><head><title>".to_string();
    body.append(code.as_str());
    body.append(" ");
    body.append(title);
    body.append(
        "</title></head><body style=\"font-family:sans-serif;max-width:48rem;margin:3rem auto\"><h1>",
    );
    body.append(code.as_str());
    body.append(" ");
    body.append(title);
    body.append("</h1>");
    body.append(shown.as_str());
    body.append("</body></html>");
    Page { status, html: true, body }
}

pub fn not_found() -> (page: Page)
    ensures
        is_page(page, 404, "Not Found"@, None),
{
    error_page(404, "Not Found", None)
}

pub fn forbidden() -> (page: Page)
    ensures
        is_page(page, 403, "Forbidden"@, None),
{
    error_page(403, "Forbidden", None)
}

pub fn internal_error() -> (page: Page)
    ensures
        is_page(page, 500, "Internal Server Error"@, None),
{
    error_page(500, "Internal Server Error", None)
}

pub fn bad_request(body: &str) -> (page: Page)
    ensures
        is_text(page, 400, body@),
{
    Page { status: 400, html: false, body: body.to_string() }
}

// ---- sizes for people -----------------------------------------------------------

/// `n / d` rounded to the nearest integer, halves to the even one.
pub open spec fn rounded(n: nat, d: nat) -> nat
    recommends
        d > 0,
{
    let q = n / d;
    let r = n % d;
    if 2 * r < d || (2 * r == d && q % 2 == 0) {
        q
    } else {
        q + 1
    }
}

/// The spacing of double-precision numbers around `n`, in units of 1.
pub open spec fn spacing(n: nat, unit: nat) -> nat
    decreases n,
{
    if n < 0x20_0000_0000_0000 || unit == 0 {
        unit
    } else {
        spacing(n / 2, unit * 2)
    }
}

/// `n` as a double holds it.
pub open spec fn as_double(n: nat) -> nat {
    rounded(n, spacing(n, 1)) * spacing(n, 1)
}

/// A size in the largest unit that keeps the number at 1 or above, up to TiB,
/// without decimals.
pub open spec fn human_size(n: nat) -> Seq<char> {
    let f = as_double(n);
    if n < 0x400 {
        text::decimal(n) + " B"@
    } else if f < 0x10_0000 {
        text::decimal(rounded(f, 0x400)) + " "@ + "KiB"@
    } else if f < 0x4000_0000 {
        text::decimal(rounded(f, 0x10_0000)) + " "@ + "MiB"@
    } else if f < 0x100_0000_0000 {
        text::decimal(rounded(f, 0x4000_0000)) + " "@ + "GiB"@
    } else {
        text::decimal(rounded(f, 0x100_0000_0000)) + " "@ + "TiB"@
    }
}

fn round_to(n: u128, d: u128) -> (q: u128)
    requires
        0 < d,
        n <= 0x1_0000_0000_0000_0000,
        d <= 0x100_0000_0000,
    ensures
        q == rounded(n as nat, d as nat),
        q <= n + 1,
{
    let q: u128 = n / d;
    let r: u128 = n % d;
    assert(q <= n) by (nonlinear_arith)
        requires
            q == n / d,
            0 < d,
    ;
    assert(r < d);
    if 2 * r < d || (2 * r == d && q % 2 == 0) {
        q
    } else {
        q + 1
    }
}

proof fn lemma_rounded_bound(n: nat, d: nat)
    requires
        0 < d,
    ensures
        rounded(n, d) * d <= n + d,
        rounded(n, d) <= n / d + 1,
{
    let q = n / d;
    assert(q * d + n % d == n) by (nonlinear_arith)
        requires
            q == n / d,
            0 < d,
    ;
    assert((q + 1) * d == q * d + d) by (nonlinear_arith);
}

/// The double nearest to `n`.
fn to_double(n: u64) -> (f: u128)
    ensures
        f == as_double(n as nat),
        f <= 0x1_0000_0000_0000_0000,
{
    let mut unit: u128 = 1;
    let mut rest: u64 = n;
    assert(n as nat == rest * unit + 0 && 0 < unit) by (nonlinear_arith)
        requires
            unit == 1,
            rest == n,
    ;
    while rest >= 0x20_0000_0000_0000
        invariant
            spacing(n as nat, 1) == spacing(rest as nat, unit as nat),
            rest * unit <= n,
            1 <= unit <= 0x800,
            unit == 1 || unit == 2 || unit == 4 || unit == 8 || unit == 16 || unit == 32 || unit
                == 64 || unit == 128 || unit == 256 || unit == 512 || unit == 1024 || unit == 2048,
        decreases rest,
    {
        assert(unit <= 0x400) by (nonlinear_arith)
            requires
                rest * unit <= 0xffff_ffff_ffff_ffff,
                rest >= 0x20_0000_0000_0000,
                1 <= unit <= 0x800,
                unit == 1 || unit == 2 || unit == 4 || unit == 8 || unit == 16 || unit == 32
                    || unit == 64 || unit == 128 || unit == 256 || unit == 512 || unit == 1024
                    || unit == 2048,
        ;
        assert((rest / 2) * (unit * 2) <= rest * unit) by (nonlinear_arith)
            requires
                rest >= 0,
                unit >= 1,
        ;
        rest = rest / 2;
        unit = unit * 2;
    }
    let q = round_to(n as u128, unit);
    proof {
        lemma_double_bound(n as nat, unit as nat);
    }
    q * unit
}

/// Rounding to a unit that divides 2^64 does not go beyond it.
proof fn lemma_double_bound(n: nat, unit: nat)
    requires
        n <= 0xffff_ffff_ffff_ffff,
        unit == 1 || unit == 2 || unit == 4 || unit == 8 || unit == 16 || unit == 32 || unit == 64
            || unit == 128 || unit == 256 || unit == 512 || unit == 1024 || unit == 2048,
    ensures
        rounded(n, unit) * unit <= 0x1_0000_0000_0000_0000,
{
    lemma_rounded_bound(n, unit);
    let q = rounded(n, unit);
    let top = 0x1_0000_0000_0000_0000 as nat / unit;
    assert(q <= top);
    assert(q * unit <= top * unit) by (nonlinear_arith)
        requires
            q <= top,
            0 < unit,
    ;
    assert(top * unit <= 0x1_0000_0000_0000_0000);
}

/// A size in a unit that people read.
pub fn human_bytes(bytes: usize) -> (s: String)
    ensures
        s@ == human_size(bytes as nat),
{
    let n: u64 = bytes as u64;
    if n < 0x400 {
        let mut s = text::decimal_of(n);
        s.append(" B");
        return s;
    }
    let f = to_double(n);
    let (unit, word) = if f < 0x10_0000 {
        (0x400u128, "KiB")
    } else if f < 0x4000_0000 {
        (0x10_0000u128, "MiB")
    } else if f < 0x100_0000_0000 {
        (0x4000_0000u128, "GiB")
    } else {
        (0x100_0000_0000u128, "TiB")
    };
    let q = round_to(f, unit);
    proof {
        lemma_rounded_bound(f as nat, unit as nat);
        assert(f as nat / unit as nat <= 0x40_0000_0000_0000) by (nonlinear_arith)
            requires
                f <= 0x1_0000_0000_0000_0000,
                unit >= 0x400,
        ;
    }
    let mut s = text::decimal_of(q as u64);
    s.append(" ");
    s.append(word);
    s
}

/// The 413 page states the limit even outside dev mode: it is a constraint the
/// client can act on.
pub open spec fn too_large_detail(limit: nat) -> Seq<char> {
    "This request is larger than the server's limit of "@ + human_size(limit) + " ("@
        + text::decimal(limit) + " bytes)."@
}

pub open spec fn too_many_files_detail(limit: nat) -> Seq<char> {
    "This request contains more than the server's limit of "@ + text::decimal(limit) + " files."@
}

pub fn payload_too_large(limit_bytes: usize) -> (page: Page)
    ensures
        is_page(page, 413, "Payload Too Large"@, Some(too_large_detail(limit_bytes as nat))),
{
    let size = human_bytes(limit_bytes);
    let digits = text::decimal_of(limit_bytes as u64);
    let mut detail = "This request is larger than the server's limit of ".to_string();
    detail.append(size.as_str());
    detail.append(" (");
    detail.append(digits.as_str());
    detail.append(" bytes).");
    error_page(413, "Payload Too Large", Some(detail.as_str()))
}

pub fn payload_too_large_files(limit: usize) -> (page: Page)
    ensures
        is_page(page, 413, "Payload Too Large"@, Some(too_many_files_detail(limit as nat))),
{
    let digits = text::decimal_of(limit as u64);
    let mut detail = "This request contains more than the server's limit of ".to_string();
    detail.append(digits.as_str());
    detail.append(" files.");
    error_page(413, "Payload Too Large", Some(detail.as_str()))
}

/// What a failed render shows, and to whom: the detail is for dev mode only.
pub open spec fn render_error_detail(err: RenderError, dev: bool) -> Option<Seq<char>> {
    if !dev {
        None
    } else {
        match err {
            RenderError::Timeout => Some("Template execution timed out."@),
            RenderError::Memory => Some("Template exceeded the memory limit."@),
            _ => Some(err.text()),
        }
    }
}

pub fn render_error_response(err: &RenderError, dev: bool) -> (page: Page)
    ensures
        err is NotFound ==> is_page(page, 404, "Not Found"@, None),
        !(err is NotFound) ==> is_page(
            page,
            500,
            "Internal Server Error"@,
            render_error_detail(*err, dev),
        ),
{
    match err {
        RenderError::NotFound => not_found(),
        RenderError::Timeout => error_page(
            500,
            "Internal Server Error",
            if dev {
                Some("Template execution timed out.")
            } else {
                None
            },
        ),
        RenderError::Memory => error_page(
            500,
            "Internal Server Error",
            if dev {
                Some("Template exceeded the memory limit.")
            } else {
                None
            },
        ),
        _ => {
            let detail = err.message();
            error_page(
                500,
                "Internal Server Error",
                if dev {
                    Some(detail.as_str())
                } else {
                    None
                },
            )
        },
    }
}

/// Outside dev mode an error page says nothing of what went wrong: any two
/// failures other than a missing template look the same.
pub proof fn law_production_pages_hide_details(a: RenderError, b: RenderError)
    ensures
        render_error_detail(a, false) == render_error_detail(b, false),
        render_error_detail(a, false) is None,
{
}

// ---- request paths --------------------------------------------------------------

/// The value of a hexadecimal digit.
pub open spec fn hex_digit(b: u8) -> Option<int> {
    if 0x30 <= b <= 0x39 {
        Some(b - 0x30)
    } else if 0x41 <= b <= 0x46 {
        Some(b - 0x41 + 10)
    } else if 0x61 <= b <= 0x66 {
        Some(b - 0x61 + 10)
    } else {
        None
    }
}

/// `bytes` with every `%` and two hexadecimal digits replaced by the byte they
/// write.
pub open spec fn percent_decoded(bytes: Seq<u8>) -> Seq<u8>
    decreases bytes.len(),
{
    if bytes.len() == 0 {
        Seq::empty()
    } else if bytes[0] == 0x25 && bytes.len() >= 3 && hex_digit(bytes[1]) is Some && hex_digit(
        bytes[2],
    ) is Some {
        seq![(hex_digit(bytes[1])->0 * 16 + hex_digit(bytes[2])->0) as u8] + percent_decoded(
            bytes.skip(3),
        )
    } else {
        seq![bytes[0]] + percent_decoded(bytes.skip(1))
    }
}

/// `percent_encoding::percent_decode_str` and its `decode_utf8`: every `%` and two
/// hexadecimal digits become one byte, and the result is text if it is well-formed
/// UTF-8.
#[verifier::external_body]
fn percent_decode(path: &str) -> (r: Option<String>)
    ensures
        match r {
            Some(t) => {
                &&& valid_utf8(percent_decoded(encode_utf8(path@)))
                &&& t@ == decode_utf8(percent_decoded(encode_utf8(path@)))
            },
            None => !valid_utf8(percent_decoded(encode_utf8(path@))),
        },
{
    percent_encoding::percent_decode_str(path).decode_utf8().ok().map(|p| p.into_owned())
}

/// The path a request asks for, or nothing if its encoding is broken or it holds a
/// NUL.
pub open spec fn decoded_path(raw: Seq<char>) -> Option<Seq<char>> {
    let bytes = percent_decoded(encode_utf8(raw));
    if valid_utf8(bytes) && !decode_utf8(bytes).contains('\0') {
        Some(decode_utf8(bytes))
    } else {
        None
    }
}

/// `s[i]` ends a segment.
pub open spec fn separates(c: char) -> bool {
    c == '/' || c == '\\'
}

/// Some segment of `s`, between separators of either kind, is `..`.
pub open spec fn climbs(s: Seq<char>) -> bool {
    exists|i: int|
        0 <= i <= s.len() - 2 && #[trigger] s[i] == '.' && s[i + 1] == '.' && (i == 0 || separates(
            s[i - 1],
        )) && (i + 2 == s.len() || separates(s[i + 2]))
}

/// Whether some segment is a parent directory.
pub fn has_parent_segment(s: &str) -> (r: bool)
    ensures
        r == climbs(s@),
{
    let chars = text::chars_of(s);
    let n: usize = chars.len();
    let mut i: usize = 0;
    while n - i >= 2
        invariant
            n == chars@.len(),
            chars@ == s@,
            i <= n,
            forall|k: int|
                0 <= k < i && k <= s@.len() - 2 ==> !(#[trigger] s@[k] == '.' && s@[k + 1] == '.'
                    && (k == 0 || separates(s@[k - 1])) && (k + 2 == s@.len() || separates(
                    s@[k + 2],
                ))),
        decreases n - i,
    {
        let starts = i == 0 || chars[i - 1] == '/' || chars[i - 1] == '\\';
        let ends = i + 2 == n || chars[i + 2] == '/' || chars[i + 2] == '\\';
        if chars[i] == '.' && chars[i + 1] == '.' && starts && ends {
            return true;
        }
        i = i + 1;
    }
    false
}

fn has_nul(s: &str) -> (r: bool)
    ensures
        r == s@.contains('\0'),
{
    let chars = text::chars_of(s);
    let mut i: usize = 0;
    while i < chars.len()
        invariant
            i <= chars@.len(),
            chars@ == s@,
            forall|k: int| 0 <= k < i ==> s@[k] != '\0',
        decreases chars@.len() - i,
    {
        if chars[i] == '\0' {
            assert(s@[i as int] == '\0');
            return true;
        }
        i = i + 1;
    }
    false
}

/// Where to look for what a request asks for.
pub struct Target {
    /// The decoded request path.
    pub decoded: String,
    /// The file or directory it names under the serve directory, not yet
    /// canonicalized.
    pub path: PathBytes,
}

/// What a request path names: nothing if its encoding is broken, a refusal if a
/// segment is `..`.
pub open spec fn target_of(serve_dir: Seq<u8>, raw: Seq<char>) -> Result<(Seq<char>, Seq<u8>), u16> {
    match decoded_path(raw) {
        None => Err(400),
        Some(decoded) => {
            let relative = text::without_leading_slashes(decoded);
            if climbs(relative) {
                Err(403)
            } else {
                Ok((decoded, path::joined(serve_dir, encode_utf8(relative))))
            }
        },
    }
}

/// The file or directory a request path names, or the page that refuses it.
/// Canonicalization is authoritative later; this rejects the obvious case without
/// touching the filesystem.
pub fn request_target(serve_dir: &[u8], raw: &str) -> (r: Result<Target, Page>)
    ensures
        match target_of(serve_dir@, raw@) {
            Ok(t) => r is Ok && r->Ok_0.decoded@ == t.0 && r->Ok_0.path@ == t.1,
            Err(400) => r is Err && is_text(
                r->Err_0,
                400,
                "400 Bad Request: invalid path encoding"@,
            ),
            Err(_) => r is Err && is_page(r->Err_0, 403, "Forbidden"@, None),
        },
{
    let decoded = match percent_decode(raw) {
        Some(p) => p,
        None => {
            return Err(bad_request("400 Bad Request: invalid path encoding"));
        },
    };
    if has_nul(decoded.as_str()) {
        return Err(bad_request("400 Bad Request: invalid path encoding"));
    }
    let relative = text::trim_leading_slashes(decoded.as_str());
    if has_parent_segment(relative.as_str()) {
        return Err(forbidden());
    }
    let path = resolve::target(serve_dir, relative.as_str());
    Ok(Target { decoded, path })
}

// ---- routing --------------------------------------------------------------------

/// How a request is answered.
pub enum Route {
    /// Render this template.
    Template {
        path: PathBytes,
        /// The name used in error messages.
        display_name: String,
    },
    /// Send this file as it is.
    Static(PathBytes),
    Refused(Page),
}

pub enum RouteView {
    Template(Seq<u8>),
    Static(Seq<u8>),
    NotFound,
    Forbidden,
}

/// A file below the serve directory that some component hides; one that is not
/// below it counts as hidden.
pub open spec fn hidden_below(p: Seq<u8>, dir: Seq<u8>) -> bool {
    match path::stripped(p, dir) {
        Some(rel) => path::has_hidden(rel),
        None => true,
    }
}

/// Where a request goes: `found` is the canonical path its target has, if any.
pub open spec fn route_of(
    serve_dir: Seq<u8>,
    fallback: Option<Seq<u8>>,
    static_files: bool,
    found: Option<Seq<u8>>,
) -> RouteView {
    match found {
        None => match fallback {
            Some(p) => RouteView::Template(p),
            None => RouteView::NotFound,
        },
        Some(p) => if !path::within(p, serve_dir) {
            RouteView::Forbidden
        } else if path::lhtml_file(p) {
            RouteView::Template(p)
        } else if !static_files || path::lua_file(p) || hidden_below(p, serve_dir) {
            RouteView::NotFound
        } else {
            RouteView::Static(p)
        },
    }
}

/// The serve-dir-relative name of a template, or the request path where it has
/// none.
pub open spec fn display_text(p: Seq<u8>, serve_dir: Seq<u8>, decoded: Seq<char>) -> Seq<char> {
    match path::stripped(p, serve_dir) {
        Some(rel) => text::lossy_utf8(rel),
        None => decoded,
    }
}

pub open spec fn opt_bytes(p: Option<PathBytes>) -> Option<Seq<u8>> {
    match p {
        Some(b) => Some(b@),
        None => None,
    }
}

/// Whether a file below the serve directory is hidden.
pub fn is_hidden_below(p: &[u8], dir: &[u8]) -> (r: bool)
    ensures
        r == hidden_below(p@, dir@),
{
    match path::strip_prefix(p, dir) {
        Some(rel) => path::is_hidden(rel.as_slice()),
        None => true,
    }
}

/// The name of a template in error messages.
pub fn display_name(p: &[u8], serve_dir: &[u8], decoded: &str) -> (s: String)
    ensures
        s@ == display_text(p@, serve_dir@, decoded@),
{
    match path::strip_prefix(p, serve_dir) {
        Some(rel) => text::lossy(rel.as_slice()),
        None => decoded.to_string(),
    }
}

/// Decides how a request is answered.
pub fn route(
    serve_dir: &[u8],
    fallback: &Option<PathBytes>,
    static_files: bool,
    decoded: &str,
    found: Option<PathBytes>,
) -> (r: Route)
    ensures
        match route_of(serve_dir@, opt_bytes(*fallback), static_files, opt_bytes(found)) {
            RouteView::Template(p) => r is Template && r->path@ == p && r->display_name@
                == display_text(p, serve_dir@, decoded@),
            RouteView::Static(p) => r is Static && r->Static_0@ == p,
            RouteView::NotFound => r is Refused && is_page(r->Refused_0, 404, "Not Found"@, None),
            RouteView::Forbidden => r is Refused && is_page(r->Refused_0, 403, "Forbidden"@, None),
        },
{
    let abs = match found {
        Some(p) => p,
        None => {
            return match fallback {
                Some(p) => Route::Template {
                    display_name: display_name(p.as_slice(), serve_dir, decoded),
                    path: path::bytes_copy(p.as_slice()),
                },
                None => Route::Refused(not_found()),
            };
        },
    };
    if !path::starts_with(abs.as_slice(), serve_dir) {
        return Route::Refused(forbidden());
    }
    if path::is_lhtml(abs.as_slice()) {
        let name = display_name(abs.as_slice(), serve_dir, decoded);
        return Route::Template { path: abs, display_name: name };
    }
    if !static_files {
        return Route::Refused(not_found());
    }
    // Never serve server-side source or hidden files.
    if path::is_lua(abs.as_slice()) {
        return Route::Refused(not_found());
    }
    if is_hidden_below(abs.as_slice(), serve_dir) {
        return Route::Refused(not_found());
    }
    Route::Static(abs)
}

/// Nothing outside the serve directory is answered with: what is rendered or sent
/// lies within it, as long as the fallback does.
pub proof fn law_answers_stay_in_the_serve_dir(
    serve_dir: Seq<u8>,
    fallback: Option<Seq<u8>>,
    static_files: bool,
    found: Option<Seq<u8>>,
)
    requires
        fallback is Some ==> path::within(fallback->0, serve_dir),
    ensures
        match route_of(serve_dir, fallback, static_files, found) {
            RouteView::Template(p) => path::within(p, serve_dir),
            RouteView::Static(p) => path::within(p, serve_dir),
            _ => true,
        },
{
}

/// Server-side source and hidden files never reach a client as they are, whatever
/// is asked for.
pub proof fn law_source_is_never_sent(
    serve_dir: Seq<u8>,
    fallback: Option<Seq<u8>>,
    static_files: bool,
    found: Option<Seq<u8>>,
)
    ensures
        match route_of(serve_dir, fallback, static_files, found) {
            RouteView::Static(p) => {
                &&& !path::lua_file(p)
                &&& !path::lhtml_file(p)
                &&& !hidden_below(p, serve_dir)
                &&& static_files
            },
            _ => true,
        },
{
}

/// The fallback catches only what resolves to nothing: an existing file wins, and
/// an escape is refused whether or not there is a fallback.
pub proof fn law_fallback_does_not_shadow(
    serve_dir: Seq<u8>,
    fallback: Option<Seq<u8>>,
    static_files: bool,
    p: Seq<u8>,
)
    ensures
        route_of(serve_dir, fallback, static_files, Some(p)) == route_of(
            serve_dir,
            None,
            static_files,
            Some(p),
        ),
        !path::within(p, serve_dir) ==> route_of(serve_dir, fallback, static_files, Some(p))
            == RouteView::Forbidden,
{
}

// ---- bodies ---------------------------------------------------------------------

/// How a request body is read.
pub enum BodyPlan {
    /// Streamed to the spool, part by part.
    Multipart,
    /// Into memory.
    Plain,
    /// Refused from its declared length, before a byte is read.
    TooLarge {
        page: Page,
        /// Read and discard some of it first. Not for a client that waits to be
        /// told to go on: reading is what would tell it.
        drain: bool,
    },
}

/// The `Content-Type` of a request, in lower case.
pub fn content_type_of(header: Option<&str>) -> (r: Option<String>)
    ensures
        match header {
            Some(v) => r is Some && r->0@ == text::lowercase_of(v@),
            None => r is None,
        },
{
    match header {
        Some(v) => Some(text::to_lowercase(v)),
        None => None,
    }
}

pub open spec fn is_multipart(content_type: Option<Seq<char>>) -> bool {
    content_type is Some && "multipart/form-data"@.is_prefix_of(content_type->0)
}

pub open spec fn size_limit(multipart: bool, config: Config) -> usize {
    if multipart {
        config.max_upload_size
    } else {
        config.max_body_size
    }
}

/// The length a request declares is over the limit.
pub open spec fn declares_too_much(content_length: Option<Seq<char>>, limit: nat) -> bool {
    match content_length {
        Some(s) => match text::parsed_unsigned(s, u64::MAX as nat) {
            Some(n) => n > limit,
            None => false,
        },
        None => false,
    }
}

pub open spec fn awaits_continue(expect: Option<Seq<char>>) -> bool {
    expect is Some && text::same_letters(text::trimmed(expect->0), "100-continue"@)
}

pub open spec fn opt_str(s: Option<&str>) -> Option<Seq<char>> {
    match s {
        Some(t) => Some(t@),
        None => None,
    }
}

pub open spec fn opt_string(s: Option<String>) -> Option<Seq<char>> {
    match s {
        Some(t) => Some(t@),
        None => None,
    }
}

/// Decides how a body is read, from its content type in lower case and the two
/// headers that announce it.
pub fn body_plan(
    content_type: &Option<String>,
    content_length: Option<&str>,
    expect: Option<&str>,
    config: &Config,
) -> (plan: BodyPlan)
    ensures
        ({
            let multipart = is_multipart(opt_string(*content_type));
            let limit = size_limit(multipart, *config);
            if declares_too_much(opt_str(content_length), limit as nat) {
                &&& plan is TooLarge
                &&& is_page(
                    plan->page,
                    413,
                    "Payload Too Large"@,
                    Some(too_large_detail(limit as nat)),
                )
                &&& plan->drain == !awaits_continue(opt_str(expect))
            } else if multipart {
                plan is Multipart
            } else {
                plan is Plain
            }
        }),
{
    let multipart = match content_type {
        Some(ct) => text::has_prefix(ct.as_str(), "multipart/form-data"),
        None => false,
    };
    let limit: usize = if multipart {
        config.max_upload_size
    } else {
        config.max_body_size
    };
    if let Some(s) = content_length {
        if let Some(declared) = text::parse_unsigned(s, u64::MAX) {
            if declared > limit as u64 {
                let waiting = match expect {
                    Some(v) => {
                        let t = text::trim(v);
                        text::eq_ignore_case(t.as_str(), "100-continue")
                    },
                    None => false,
                };
                return BodyPlan::TooLarge { page: payload_too_large(limit), drain: !waiting };
            }
        }
    }
    if multipart {
        BodyPlan::Multipart
    } else {
        BodyPlan::Plain
    }
}

/// What reading a plain body came to.
pub enum PlainRead {
    Bytes(Vec<u8>),
    Unreadable,
    /// More came than the limit allows.
    TooLarge,
}

/// The body of a plain request, or the page that refuses it.
pub fn plain_body(read: PlainRead, limit: usize) -> (r: Result<RequestBody, Page>)
    ensures
        match read {
            PlainRead::Bytes(bytes) => r == Ok::<RequestBody, Page>(RequestBody::Raw(bytes)),
            PlainRead::Unreadable => r is Err && is_text(
                r->Err_0,
                400,
                "400 Bad Request: unreadable body"@,
            ),
            PlainRead::TooLarge => r is Err && is_page(
                r->Err_0,
                413,
                "Payload Too Large"@,
                Some(too_large_detail(limit as nat)),
            ),
        },
{
    match read {
        PlainRead::Bytes(bytes) => Ok(RequestBody::Raw(bytes)),
        PlainRead::Unreadable => Err(bad_request("400 Bad Request: unreadable body")),
        PlainRead::TooLarge => Err(payload_too_large(limit)),
    }
}

/// How much of a rejected request is read and thrown away, so that the client can
/// finish sending and read the answer.
pub const REJECT_DRAIN_BYTES: usize = 134_217_728;

/// And for how long, in microseconds.
pub const REJECT_DRAIN_TIME_US: u64 = 5_000_000;

/// A body being discarded.
pub struct Drain {
    pub drained: usize,
}

impl Drain {
    pub fn new() -> (d: Drain)
        ensures
            d.drained == 0,
    {
        Drain { drained: 0 }
    }

    /// Counts a chunk; true when enough has been discarded.
    pub fn chunk(&mut self, len: usize, elapsed_us: u64) -> (stop: bool)
        requires
            old(self).drained < REJECT_DRAIN_BYTES,
        ensures
            stop == (old(self).drained + len >= REJECT_DRAIN_BYTES || elapsed_us
                >= REJECT_DRAIN_TIME_US),
            stop == (old(self).drained + len >= 134_217_728 || elapsed_us >= 5_000_000),
            final(self).drained as int == if old(self).drained + len >= REJECT_DRAIN_BYTES {
                REJECT_DRAIN_BYTES as int
            } else {
                old(self).drained + len
            },
    {
        if len >= REJECT_DRAIN_BYTES - self.drained {
            self.drained = REJECT_DRAIN_BYTES;
            return true;
        }
        self.drained = self.drained + len;
        elapsed_us >= REJECT_DRAIN_TIME_US
    }
}

// ---- headers --------------------------------------------------------------------

/// The order of strings: by the first character in which they differ, the shorter
/// one first where none does.
pub open spec fn before(a: Seq<char>, b: Seq<char>) -> bool
    decreases a.len(),
{
    if b.len() == 0 {
        false
    } else if a.len() == 0 {
        true
    } else if a[0] != b[0] {
        (a[0] as int) < (b[0] as int)
    } else {
        before(a.skip(1), b.skip(1))
    }
}

proof fn lemma_before_trans(a: Seq<char>, b: Seq<char>, c: Seq<char>)
    requires
        before(a, b),
        before(b, c),
    ensures
        before(a, c),
    decreases a.len(),
{
    if a.len() > 0 && a[0] == b[0] && b[0] == c[0] {
        lemma_before_trans(a.skip(1), b.skip(1), c.skip(1));
    }
}

proof fn lemma_before_total(a: Seq<char>, b: Seq<char>)
    ensures
        before(a, b) || before(b, a) || a == b,
        !(before(a, b) && a == b),
    decreases a.len(),
{
    if a.len() == 0 {
        if b.len() == 0 {
            assert(a =~= b);
        }
    } else if b.len() > 0 && a[0] == b[0] {
        lemma_before_total(a.skip(1), b.skip(1));
        if a.skip(1) == b.skip(1) {
            assert(a =~= seq![a[0]] + a.skip(1));
            assert(b =~= seq![b[0]] + b.skip(1));
        }
    } else if b.len() > 0 {
        lemma_char_order(a[0], b[0]);
    }
}

proof fn lemma_char_order(a: char, b: char)
    ensures
        a != b ==> (a as int) < (b as int) || (b as int) < (a as int),
{
}

/// Whether `a` comes before `b`.
fn comes_before(a: &str, b: &str) -> (r: bool)
    ensures
        r == before(a@, b@),
{
    let x = text::chars_of(a);
    let y = text::chars_of(b);
    let mut i: usize = 0;
    assert(a@.skip(0) =~= a@);
    assert(b@.skip(0) =~= b@);
    while i < x.len() && i < y.len()
        invariant
            x@ == a@,
            y@ == b@,
            i <= x@.len(),
            i <= y@.len(),
            before(a@.skip(i as int), b@.skip(i as int)) == before(a@, b@),
        decreases x@.len() - i,
    {
        if x[i] != y[i] {
            return text::code_point(x[i]) < text::code_point(y[i]);
        }
        assert(a@.skip(i as int).skip(1) =~= a@.skip(i + 1));
        assert(b@.skip(i as int).skip(1) =~= b@.skip(i + 1));
        i = i + 1;
    }
    i < y.len()
}

/// Header lines as they came: name and value, no value where it is not text.
pub open spec fn line_views(lines: Seq<(String, Option<String>)>) -> Seq<
    (Seq<char>, Option<Seq<char>>),
> {
    lines.map_values(|l: (String, Option<String>)| (l.0@, opt_string(l.1)))
}

/// One value per name in lower case; repeated headers joined with ", ".
pub open spec fn collapsed(lines: Seq<(Seq<char>, Option<Seq<char>>)>) -> Map<Seq<char>, Seq<char>>
    decreases lines.len(),
{
    if lines.len() == 0 {
        Map::empty()
    } else {
        let front = collapsed(lines.drop_last());
        let name = text::lowercase_of(lines.last().0);
        match lines.last().1 {
            None => front,
            Some(value) => if front.contains_key(name) {
                front.insert(name, front[name] + ", "@ + value)
            } else {
                front.insert(name, value)
            },
        }
    }
}

/// `list` holds the entries of `m`, sorted by name.
pub open spec fn lists(list: Seq<(Seq<char>, Seq<char>)>, m: Map<Seq<char>, Seq<char>>) -> bool {
    &&& forall|i: int, j: int|
        0 <= i < j < list.len() ==> before((#[trigger] list[i]).0, (#[trigger] list[j]).0)
    &&& forall|i: int|
        0 <= i < list.len() ==> m.contains_key((#[trigger] list[i]).0) && m[list[i].0] == list[i].1
    &&& forall|k: Seq<char>| #[trigger]
        m.contains_key(k) ==> exists|i: int| 0 <= i < list.len() && (#[trigger] list[i]).0 == k
}

proof fn lemma_list_insert(
    list: Seq<(Seq<char>, Seq<char>)>,
    m: Map<Seq<char>, Seq<char>>,
    at: int,
    name: Seq<char>,
    value: Seq<char>,
)
    requires
        lists(list, m),
        0 <= at <= list.len(),
        forall|i: int| 0 <= i < at ==> before((#[trigger] list[i]).0, name),
        forall|i: int| at <= i < list.len() ==> before(name, (#[trigger] list[i]).0),
    ensures
        !m.contains_key(name),
        lists(list.insert(at, (name, value)), m.insert(name, value)),
{
    let new = list.insert(at, (name, value));
    let grown = m.insert(name, value);
    assert forall|i: int| 0 <= i < list.len() implies (#[trigger] list[i]).0 != name by {
        lemma_before_total(list[i].0, name);
        lemma_before_total(name, list[i].0);
    }
    assert(!m.contains_key(name));
    assert forall|i: int| 0 <= i < new.len() implies new[i] == (if i < at {
        list[i]
    } else if i == at {
        (name, value)
    } else {
        list[i - 1]
    }) by {}
    assert forall|i: int, j: int| 0 <= i < j < new.len() implies before(
        (#[trigger] new[i]).0,
        (#[trigger] new[j]).0,
    ) by {
        let a = if i < at {
            list[i].0
        } else if i == at {
            name
        } else {
            list[i - 1].0
        };
        let b = if j < at {
            list[j].0
        } else if j == at {
            name
        } else {
            list[j - 1].0
        };
        assert(new[i].0 == a && new[j].0 == b);
    }
    assert forall|k: Seq<char>| #[trigger] grown.contains_key(k) implies exists|i: int|
        0 <= i < new.len() && (#[trigger] new[i]).0 == k by {
        if k == name {
            assert(new[at].0 == name);
        } else {
            assert(m.contains_key(k));
            let i = choose|i: int| 0 <= i < list.len() && (#[trigger] list[i]).0 == k;
            let j = if i < at {
                i
            } else {
                i + 1
            };
            assert(new[j].0 == k);
        }
    }
}

proof fn lemma_list_update(
    list: Seq<(Seq<char>, Seq<char>)>,
    m: Map<Seq<char>, Seq<char>>,
    at: int,
    value: Seq<char>,
)
    requires
        lists(list, m),
        0 <= at < list.len(),
    ensures
        lists(list.update(at, (list[at].0, value)), m.insert(list[at].0, value)),
{
    let name = list[at].0;
    let new = list.update(at, (name, value));
    let grown = m.insert(name, value);
    assert forall|i: int| 0 <= i < list.len() && i != at implies (#[trigger] list[i]).0 != name by {
        if i < at {
            assert(before(list[i].0, list[at].0));
        } else {
            assert(before(list[at].0, list[i].0));
        }
        lemma_before_total(list[i].0, name);
        lemma_before_total(name, list[i].0);
    }
    assert forall|i: int, j: int| 0 <= i < j < new.len() implies before(
        (#[trigger] new[i]).0,
        (#[trigger] new[j]).0,
    ) by {
        assert(new[i].0 == list[i].0);
        assert(new[j].0 == list[j].0);
    }
    assert forall|k: Seq<char>| #[trigger] grown.contains_key(k) implies exists|i: int|
        0 <= i < new.len() && (#[trigger] new[i]).0 == k by {
        assert(m.contains_key(k));
        let i = choose|i: int| 0 <= i < list.len() && (#[trigger] list[i]).0 == k;
        assert(new[i].0 == k);
    }
}

/// Collapses repeated headers into one comma-joined value, names lowercased and
/// sorted. Values that are not text are left out.
pub fn collapse_headers(lines: &Vec<(String, Option<String>)>) -> (out: Vec<(String, String)>)
    ensures
        lists(runtime::pair_views(out@), collapsed(line_views(lines@))),
{
    let ghost all = line_views(lines@);
    let mut out: Vec<(String, String)> = Vec::new();
    let mut i: usize = 0;
    assert(all.take(0) =~= Seq::empty());
    assert(runtime::pair_views(out@) =~= Seq::empty());
    while i < lines.len()
        invariant
            i <= lines@.len(),
            all == line_views(lines@),
            lists(runtime::pair_views(out@), collapsed(all.take(i as int))),
        decreases lines@.len() - i,
    {
        let ghost list = runtime::pair_views(out@);
        let ghost m = collapsed(all.take(i as int));
        assert(all.take(i + 1).drop_last() =~= all.take(i as int));
        assert(all.take(i + 1).last() == all[i as int]);
        if let Some(value) = &lines[i].1 {
            let name = text::to_lowercase(lines[i].0.as_str());
            let mut at: usize = 0;
            while at < out.len() && comes_before(out[at].0.as_str(), name.as_str())
                invariant
                    at <= out@.len(),
                    list == runtime::pair_views(out@),
                    lists(list, m),
                    forall|k: int| 0 <= k < at ==> before((#[trigger] list[k]).0, name@),
                decreases out@.len() - at,
            {
                assert(list[at as int].0 == out@[at as int].0@);
                at = at + 1;
            }
            if at < out.len() && text::same(out[at].0.as_str(), name.as_str()) {
                let joined = text::join3(out[at].1.as_str(), ", ", value.as_str());
                proof {
                    assert(list[at as int] == (out@[at as int].0@, out@[at as int].1@));
                    lemma_list_update(list, m, at as int, joined@);
                    assert(m.contains_key(name@));
                }
                out[at] = (name, joined);
                assert(runtime::pair_views(out@) =~= list.update(at as int, (name@, joined@)));
            } else {
                proof {
                    if at < out@.len() {
                        assert(list[at as int].0 == out@[at as int].0@);
                        lemma_before_total(list[at as int].0, name@);
                    }
                    assert forall|k: int| at <= k < list.len() implies before(
                        name@,
                        (#[trigger] list[k]).0,
                    ) by {
                        if k > at {
                            assert(before(list[at as int].0, list[k].0));
                            lemma_before_trans(name@, list[at as int].0, list[k].0);
                        }
                    }
                    lemma_list_insert(list, m, at as int, name@, value@);
                }
                let v = value.clone();
                out.insert(at, (name, v));
                assert(runtime::pair_views(out@) =~= list.insert(at as int, (name@, value@)));
            }
        }
        i = i + 1;
    }
    assert(all.take(i as int) =~= all);
    out
}

/// Puts together what a template sees of a request.
pub fn build_request_data(
    method: String,
    decoded_path: String,
    query_string: String,
    lines: &Vec<(String, Option<String>)>,
    cookies: Vec<(String, String)>,
    content_type: Option<String>,
    body: RequestBody,
    remote_addr: Option<String>,
) -> (r: RequestData)
    ensures
        r.method == method,
        r.path == decoded_path,
        r.query_string == query_string,
        lists(runtime::pair_views(r.headers@), collapsed(line_views(lines@))),
        r.cookies == cookies,
        r.content_type == content_type,
        r.body == body,
        r.remote_addr == remote_addr,
{
    RequestData {
        method,
        path: decoded_path,
        query_string,
        headers: collapse_headers(lines),
        cookies,
        content_type,
        body,
        remote_addr,
    }
}

// ---- responses ------------------------------------------------------------------

/// The response to a rendered request.
pub struct Response {
    pub status: u16,
    pub headers: Vec<(String, String)>,
    pub cookies: Vec<LuaCookie>,
    pub body: Vec<u8>,
}

/// Some header has this name, in any case.
pub open spec fn names_header(headers: Seq<(Seq<char>, Seq<char>)>, name: Seq<char>) -> bool {
    exists|i: int| 0 <= i < headers.len() && text::same_letters((#[trigger] headers[i]).0, name)
}

/// Whether some header has this name, in any case.
pub fn has_header(headers: &Vec<(String, String)>, name: &str) -> (r: bool)
    ensures
        r == names_header(runtime::pair_views(headers@), name@),
{
    let ghost all = runtime::pair_views(headers@);
    let mut i: usize = 0;
    while i < headers.len()
        invariant
            i <= headers@.len(),
            all == runtime::pair_views(headers@),
            forall|k: int| 0 <= k < i ==> !text::same_letters((#[trigger] all[k]).0, name@),
        decreases headers@.len() - i,
    {
        assert(all[i as int].0 == headers@[i as int].0@);
        if text::eq_ignore_case(headers[i].0.as_str(), name) {
            return true;
        }
        i = i + 1;
    }
    false
}

/// Whether the file a template asked to send goes out: a redirect comes first.
pub fn sends_file(rendered: &RenderedResponse) -> (r: bool)
    ensures
        r == (rendered.send_file is Some && !names_header(
            runtime::pair_views(rendered.headers@),
            "location"@,
        )),
{
    rendered.send_file.is_some() && !has_header(&rendered.headers, "location")
}

/// The status that goes out: one that HTTP has no room for becomes 200.
pub open spec fn sent_status(status: u16) -> u16 {
    if 100 <= status <= 999 {
        status
    } else {
        200
    }
}

/// The headers that go out: HTML unless the template says otherwise.
pub open spec fn sent_headers(headers: Seq<(Seq<char>, Seq<char>)>) -> Seq<(Seq<char>, Seq<char>)> {
    if names_header(headers, "content-type"@) {
        headers
    } else {
        headers.push(("content-type"@, "text/html; charset=utf-8"@))
    }
}

pub fn build_response(rendered: RenderedResponse) -> (r: Response)
    ensures
        r.status == sent_status(rendered.status),
        100 <= rendered.status <= 999 ==> r.status == rendered.status,
        rendered.status < 100 || rendered.status > 999 ==> r.status == 200,
        runtime::pair_views(r.headers@) == sent_headers(runtime::pair_views(rendered.headers@)),
        r.cookies == rendered.cookies,
        r.body == rendered.body,
{
    let status: u16 = if 100 <= rendered.status && rendered.status <= 999 {
        rendered.status
    } else {
        200
    };
    let mut headers = rendered.headers;
    let ghost own = headers@;
    if !has_header(&headers, "content-type") {
        headers.push(("content-type".to_string(), "text/html; charset=utf-8".to_string()));
        assert(runtime::pair_views(headers@) =~= runtime::pair_views(own).push(
            ("content-type"@, "text/html; charset=utf-8"@),
        ));
    }
    Response { status, headers, cookies: rendered.cookies, body: rendered.body }
}

/// How far a cookie travels with requests from other sites.
#[derive(Clone, Copy, PartialEq, Eq, Debug, Structural)]
pub enum SameSite {
    Strict,
    Lax,
    NotRestricted,
}

pub open spec fn same_site_mode(word: Seq<char>) -> SameSite {
    if text::lowercase_of(word) == "strict"@ {
        SameSite::Strict
    } else if text::lowercase_of(word) == "none"@ {
        SameSite::NotRestricted
    } else {
        SameSite::Lax
    }
}

/// What a cookie's `same_site` field means.
pub fn same_site_of(word: &str) -> (mode: SameSite)
    ensures
        mode == same_site_mode(word@),
{
    let lower = text::to_lowercase(word);
    if text::same(lower.as_str(), "strict") {
        SameSite::Strict
    } else if text::same(lower.as_str(), "none") {
        SameSite::NotRestricted
    } else {
        SameSite::Lax
    }
}

/// A character that may stand in a download name; any other becomes `_`.
pub open spec fn name_char(c: char) -> char {
    let n = c as int;
    if n < 0x20 || (0x7f <= n <= 0x9f) || c == '"' {
        '_'
    } else {
        c
    }
}

/// A download name without control characters and quotes.
pub fn safe_download_name(name: &str) -> (s: String)
    ensures
        s@ == name@.map_values(|c: char| name_char(c)),
{
    let chars = text::chars_of(name);
    let mut out = String::new();
    let mut i: usize = 0;
    while i < chars.len()
        invariant
            i <= chars@.len(),
            chars@ == name@,
            out@ == name@.take(i as int).map_values(|c: char| name_char(c)),
        decreases chars@.len() - i,
    {
        let n: u32 = text::code_point(chars[i]);
        let ghost done = out@;
        if n < 0x20 || (0x7f <= n && n <= 0x9f) || chars[i] == '"' {
            out.push('_');
        } else {
            out.push(chars[i]);
        }
        assert(out@ =~= name@.take(i + 1).map_values(|c: char| name_char(c)));
        i = i + 1;
    }
    assert(name@.take(i as int) =~= name@);
    out
}

/// A download name cannot end the quoted string or the header it stands in.
pub proof fn law_download_names_are_safe(name: Seq<char>, i: int)
    requires
        0 <= i < name.len(),
    ensures
        ({
            let c = name.map_values(|c: char| name_char(c))[i];
            c != '"' && c != '\r' && c != '\n'
        }),
{
}

} // verus!
