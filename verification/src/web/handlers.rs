//! A bare request handler: templates only, one response per run.

use vstd::prelude::*;
use vstd::utf8::*;
use crate::path;
use crate::path::PathBytes;
use crate::runtime;
use crate::text;
use crate::web;
use crate::web::Page;

verus! {

fn plain(status: u16, body: &str) -> (page: Page)
    ensures
        web::is_text(page, status, body@),
{
    Page { status, html: false, body: body.to_string() }
}

/// Refuses what is no template.
pub fn only_templates(request_path: &str) -> (r: Option<Page>)
    ensures
        match r {
            None => path::lhtml_file(encode_utf8(request_path@)),
            Some(page) => !path::lhtml_file(encode_utf8(request_path@)) && web::is_text(
                page,
                400,
                "400 Bad Request: Only .lhtml files are served"@,
            ),
        },
{
    if path::is_lhtml(request_path.as_bytes()) {
        None
    } else {
        Some(plain(400, "400 Bad Request: Only .lhtml files are served"))
    }
}

/// Where the template is looked for, not yet canonicalized.
pub fn template_path(serve_dir: &[u8], request_path: &str) -> (p: PathBytes)
    ensures
        p@ == path::joined(serve_dir@, encode_utf8(text::without_leading_slashes(request_path@))),
{
    let rel = text::trim_leading_slashes(request_path);
    path::join(serve_dir, rel.as_str().as_bytes())
}

/// The template to run: `serve_dir` is the canonical serve directory, if it can be
/// used, and `canonical` the canonical path of the template, if it exists.
pub fn check_template(serve_dir: Option<&[u8]>, canonical: Option<PathBytes>) -> (r: Result<
    PathBytes,
    Page,
>)
    ensures
        match serve_dir {
            None => r is Err && web::is_text(
                r->Err_0,
                500,
                "500 Internal Server Error: Misconfigured SERVE_DIR"@,
            ),
            Some(dir) => match canonical {
                None => r is Err && web::is_text(r->Err_0, 404, "404 File Not Found"@),
                Some(p) => if path::within(p@, dir@) {
                    r == Ok::<PathBytes, Page>(p)
                } else {
                    r is Err && web::is_text(r->Err_0, 403, "403 Forbidden"@)
                },
            },
        },
{
    match serve_dir {
        None => Err(plain(500, "500 Internal Server Error: Misconfigured SERVE_DIR")),
        Some(dir) => match canonical {
            None => Err(plain(404, "404 File Not Found")),
            Some(p) => if path::starts_with(p.as_slice(), dir) {
                Ok(p)
            } else {
                Err(plain(403, "403 Forbidden"))
            },
        },
    }
}

/// A template that cannot be read is missing.
pub fn unreadable() -> (page: Page)
    ensures
        web::is_text(page, 404, "404 File Not Found"@),
{
    plain(404, "404 File Not Found")
}

/// The response to a run.
pub struct Answer {
    pub status: u16,
    pub headers: Vec<(String, String)>,
    pub body: String,
}

/// The headers that go out with a page: HTML unless the template says otherwise.
pub open spec fn answer_headers(headers: Seq<(Seq<char>, Seq<char>)>) -> Seq<
    (Seq<char>, Seq<char>),
> {
    if web::names_header(headers, "content-type"@) {
        headers
    } else {
        headers.push(("content-type"@, "text/html"@))
    }
}

/// Answers with a page or, where the run failed, with its error. `status` is the
/// one the template set, if it is a number.
pub fn answer(
    page: Result<String, String>,
    status: Option<u16>,
    headers: Vec<(String, String)>,
) -> (r: Answer)
    ensures
        match page {
            Ok(body) => {
                &&& r.status == (match status {
                    Some(n) => web::sent_status(n),
                    None => 200,
                })
                &&& status is Some && 100 <= status->0 <= 999 ==> r.status == status->0
                &&& runtime::pair_views(r.headers@) == answer_headers(
                    runtime::pair_views(headers@),
                )
                &&& r.body == body
            },
            Err(e) => {
                &&& r.status == 500
                &&& r.headers@.len() == 0
                &&& r.body@ == "<h1>Lua Runtime Error</h1><p>"@ + e@ + "</p>"@
            },
        },
{
    match page {
        Ok(body) => {
            let sent: u16 = match status {
                Some(n) => if 100 <= n && n <= 999 {
                    n
                } else {
                    200
                },
                None => 200,
            };
            let mut headers = headers;
            let ghost own = headers@;
            if !web::has_header(&headers, "content-type") {
                headers.push(("content-type".to_string(), "text/html".to_string()));
                assert(runtime::pair_views(headers@) =~= runtime::pair_views(own).push(
                    ("content-type"@, "text/html"@),
                ));
            }
            Answer { status: sent, headers, body }
        },
        Err(e) => Answer {
            status: 500,
            headers: Vec::new(),
            body: text::join3("<h1>Lua Runtime Error</h1><p>", e.as_str(), "</p>"),
        },
    }
}

} // verus!
