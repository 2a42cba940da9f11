use red_crescent::config::Config;
use red_crescent::resolve::canonical_target;
use red_crescent::runtime::{RenderError, RenderedResponse, RequestBody};
use red_crescent::web::handlers::{answer, check_template, only_templates, template_path, unreadable};
use red_crescent::web::upload::{spooled, ChunkAction, PartAction, Rejection, Upload};
use red_crescent::web::{
    body_plan, build_request_data, build_response, collapse_headers, content_type_of, display_name,
    error_page, has_header, human_bytes, internal_error, is_hidden_below, not_found,
    payload_too_large, payload_too_large_files, plain_body, render_error_response, request_target,
    route, safe_download_name, same_site_of, sends_file, BodyPlan, Drain, PlainRead, Route,
    SameSite, REJECT_DRAIN_BYTES,
};
use red_crescent::{fallback_path, resolve_c_module_dirs, resolve_fallback, setup_data_dir};
use red_crescent::{DataDir, DirLookup};

const SRV: &[u8] = b"/srv";

#[test]
fn error_pages_escape_their_detail() {
    let page = error_page(500, "Oops", Some("<b>"));
    assert_eq!(page.status, 500);
    assert!(page.html);
    assert_eq!(
        page.body,
        "<!DOCTYPE html><html><head><title>500 Oops</title></head>\
         <body style=\"font-family:sans-serif;max-width:48rem;margin:3rem auto\">\
         <h1>500 Oops</h1><pre>&lt;b&gt;</pre></body></html>"
    );
    assert!(not_found().body.contains("<h1>404 Not Found</h1></body>"));
    assert_eq!(internal_error().status, 500);
}

#[test]
fn sizes_are_rounded_to_a_readable_unit() {
    for (bytes, want) in [
        (0, "0 B"),
        (1023, "1023 B"),
        (1024, "1 KiB"),
        (1536, "2 KiB"),
        (2560, "2 KiB"),
        (1024 * 1024 - 1, "1024 KiB"),
        (1024 * 1024, "1 MiB"),
        (256 * 1024 * 1024, "256 MiB"),
        (5 << 30, "5 GiB"),
        (1 << 40, "1 TiB"),
        (usize::MAX, "16777216 TiB"),
    ] {
        assert_eq!(human_bytes(bytes), want);
        let float = bytes as f64;
        if bytes >= 1024 {
            let exact = float / 1024f64.powi(match want {
                w if w.ends_with("KiB") => 1,
                w if w.ends_with("MiB") => 2,
                w if w.ends_with("GiB") => 3,
                _ => 4,
            });
            assert!(want.starts_with(&format!("{exact:.0} ")), "{bytes}");
        }
    }
}

#[test]
fn oversized_plain_body_reports_its_limit() {
    let page = payload_too_large(4096);
    assert_eq!(page.status, 413);
    assert!(page.body.contains("larger than the server&#x27;s limit of 4 KiB (4096 bytes)."));
    let page = payload_too_large_files(3);
    assert!(page.body.contains("more than the server&#x27;s limit of 3 files."));
    assert!(matches!(plain_body(PlainRead::Bytes(vec![1]), 9), Ok(RequestBody::Raw(b)) if b == [1]));
    let bad = plain_body(PlainRead::Unreadable, 9).err().unwrap();
    assert_eq!((bad.status, bad.html), (400, false));
    assert_eq!(bad.body, "400 Bad Request: unreadable body");
    assert_eq!(plain_body(PlainRead::TooLarge, 9).err().unwrap().status, 413);
}

#[test]
fn prod_error_pages_hide_details_dev_pages_show_them() {
    let err = RenderError::Lua("secret".to_string());
    assert!(!render_error_response(&err, false).body.contains("secret"));
    assert!(render_error_response(&err, true).body.contains("<pre>Lua error: secret</pre>"));
    let timeout = render_error_response(&RenderError::Timeout, true);
    assert!(timeout.body.contains("Template execution timed out."));
    let memory = render_error_response(&RenderError::Memory, true);
    assert!(memory.body.contains("Template exceeded the memory limit."));
    assert_eq!(render_error_response(&RenderError::NotFound, true).status, 404);
    assert_eq!(
        render_error_response(&RenderError::Timeout, false).body,
        render_error_response(&RenderError::Io("x".to_string()), false).body
    );
}

#[test]
fn request_paths_are_decoded() {
    let t = request_target(SRV, "/a%20b/%C3%A9.txt").ok().unwrap();
    assert_eq!(t.decoded, "/a b/é.txt");
    assert_eq!(t.path, "/srv/a b/é.txt".as_bytes());
    let t = request_target(SRV, "/100%/%zz").ok().unwrap();
    assert_eq!(t.decoded, "/100%/%zz");
    for raw in ["/%ff", "/a%00b"] {
        let page = request_target(SRV, raw).err().unwrap();
        assert_eq!(page.status, 400);
        assert_eq!(page.body, "400 Bad Request: invalid path encoding");
    }
}

#[test]
fn path_traversal_is_blocked() {
    for raw in ["/../etc/passwd", "/%2e%2e/etc/passwd", "/a/..", "/a/..%5c..", "/..%2fx"] {
        assert_eq!(request_target(SRV, raw).err().unwrap().status, 403, "{raw}");
    }
    for raw in ["/...", "/a..b", "/..a/", "/"] {
        assert!(request_target(SRV, raw).is_ok(), "{raw}");
    }
}

#[test]
fn root_serves_the_index_template() {
    let t = request_target(SRV, "/").ok().unwrap();
    let index = Some("index.lhtml");
    assert_eq!(canonical_target(t.path, index, true), b"/srv/index.lhtml");
    assert_eq!(canonical_target(b"/srv/a.txt".to_vec(), index, false), b"/srv/a.txt");
}

fn routed(found: Option<&str>, fallback: Option<&str>, static_files: bool) -> String {
    let bytes = |p: &str| p.as_bytes().to_vec();
    match route(SRV, &fallback.map(bytes), static_files, "/asked", found.map(bytes)) {
        Route::Template { path, display_name } => {
            format!("template {} as {display_name}", String::from_utf8(path).unwrap())
        }
        Route::Static(p) => format!("static {}", String::from_utf8(p).unwrap()),
        Route::Refused(page) => page.status.to_string(),
    }
}

#[test]
fn requests_are_routed() {
    assert_eq!(routed(Some("/srv/a/x.lhtml"), None, true), "template /srv/a/x.lhtml as a/x.lhtml");
    assert_eq!(routed(Some("/srv/X.LHTML"), None, false), "template /srv/X.LHTML as X.LHTML");
    assert_eq!(routed(Some("/srv/style.css"), None, true), "static /srv/style.css");
    assert_eq!(routed(Some("/srv/style.css"), None, false), "404");
    assert_eq!(routed(None, None, true), "404");
}

#[test]
fn lua_source_files_are_never_served() {
    for path in ["/srv/libs/helper.lua", "/srv/x.LUA", "/srv/.env", "/srv/.git/config"] {
        assert_eq!(routed(Some(path), None, true), "404", "{path}");
    }
    assert!(is_hidden_below(b"/elsewhere/x", SRV));
}

#[test]
fn a_fallback_template_catches_unresolved_paths() {
    assert_eq!(
        routed(None, Some("/srv/app.lhtml"), true),
        "template /srv/app.lhtml as app.lhtml"
    );
}

#[test]
fn a_fallback_does_not_shadow_real_files_or_escapes() {
    assert_eq!(routed(Some("/srv/a.css"), Some("/srv/app.lhtml"), true), "static /srv/a.css");
    assert_eq!(routed(Some("/etc/passwd"), Some("/srv/app.lhtml"), true), "403");
    assert_eq!(routed(Some("/srv/m.lua"), Some("/srv/app.lhtml"), true), "404");
    assert_eq!(routed(Some("/srv2/a.lhtml"), None, true), "403");
    assert_eq!(display_name(b"/other/x", SRV, "/asked"), "/asked");
}

#[test]
fn oversized_bodies_are_rejected() {
    let config = Config { max_body_size: 100, max_upload_size: 1000, ..Config::default(None) };
    let plan = |ct: Option<&str>, length: Option<&str>, expect: Option<&str>| {
        match body_plan(&content_type_of(ct), length, expect, &config) {
            BodyPlan::Multipart => "multipart".to_string(),
            BodyPlan::Plain => "plain".to_string(),
            BodyPlan::TooLarge { page, drain } => format!("{} {drain}", page.status),
        }
    };
    let multipart = Some("Multipart/Form-Data; boundary=x");
    assert_eq!(plan(None, None, None), "plain");
    assert_eq!(plan(None, Some("100"), None), "plain");
    assert_eq!(plan(None, Some("101"), None), "413 true");
    assert_eq!(plan(multipart, Some("101"), None), "multipart");
    assert_eq!(plan(multipart, Some("1001"), None), "413 true");
    assert_eq!(plan(multipart, Some("1001"), Some(" 100-Continue ")), "413 false");
    assert_eq!(plan(None, Some("18446744073709551616"), None), "plain");
    assert_eq!(plan(None, Some("-5"), None), "plain");
    assert_eq!(plan(None, Some("+101"), None), "413 true");
}

#[test]
fn draining_is_bounded() {
    let mut drain = Drain::new();
    assert!(!drain.chunk(1000, 10));
    assert_eq!(drain.drained, 1000);
    assert!(drain.chunk(1, 5_000_000));
    assert!(Drain::new().chunk(REJECT_DRAIN_BYTES, 0));
}

#[test]
fn repeated_headers_are_joined() {
    let line = |n: &str, v: Option<&str>| (n.to_string(), v.map(str::to_string));
    let lines = vec![
        line("X-B", Some("1")),
        line("accept", Some("*/*")),
        line("x-b", Some("2")),
        line("X-Bin", None),
        line("ÀB", Some("é")),
    ];
    let out = collapse_headers(&lines);
    let got: Vec<(&str, &str)> = out.iter().map(|(n, v)| (n.as_str(), v.as_str())).collect();
    assert_eq!(got, [("accept", "*/*"), ("x-b", "1, 2"), ("àb", "é")]);
    let data = build_request_data(
        "GET".to_string(),
        "/p".to_string(),
        "q=1".to_string(),
        &lines,
        vec![],
        None,
        RequestBody::Raw(vec![]),
        Some("127.0.0.1".to_string()),
    );
    assert_eq!(data.headers, out);
    assert_eq!((data.method.as_str(), data.path.as_str()), ("GET", "/p"));
    assert_eq!(data.remote_addr.as_deref(), Some("127.0.0.1"));
}

fn rendered(status: u16, headers: &[(&str, &str)]) -> RenderedResponse {
    RenderedResponse {
        body: b"x".to_vec(),
        status,
        headers: headers.iter().map(|(n, v)| (n.to_string(), v.to_string())).collect(),
        cookies: vec![],
        send_file: None,
    }
}

#[test]
fn responses_are_html_unless_told_otherwise() {
    let r = build_response(rendered(200, &[("X-A", "1")]));
    assert_eq!(
        r.headers[1],
        ("content-type".to_string(), "text/html; charset=utf-8".to_string())
    );
    let r = build_response(rendered(201, &[("Content-TYPE", "text/plain")]));
    assert_eq!((r.status, r.headers.len()), (201, 1));
    assert_eq!(build_response(rendered(42, &[])).status, 200);
    let headers = vec![("LOCATION".to_string(), "/".to_string())];
    assert!(has_header(&headers, "location"));
    assert!(!sends_file(&rendered(200, &[])));
    let mut with_file = rendered(200, &[]);
    with_file.send_file = Some(red_crescent::runtime::SendFileSpec {
        path: b"/data/f".to_vec(),
        download_name: None,
        content_type: None,
    });
    assert!(sends_file(&with_file));
    with_file.headers = headers;
    assert!(!sends_file(&with_file), "a redirect comes first");
}

#[test]
fn cookie_words_and_download_names() {
    assert_eq!(same_site_of("STRICT"), SameSite::Strict);
    assert_eq!(same_site_of("none"), SameSite::NotRestricted);
    assert_eq!(same_site_of("anything"), SameSite::Lax);
    assert_eq!(safe_download_name("a\"b\r\nc\u{85}é"), "a_b__c_é");
}

#[test]
fn multipart_upload_spools_files_and_collects_fields() {
    let mut up = Upload::new(100, 2);
    assert_eq!(up.open("title".to_string(), None, None), PartAction::Collect);
    assert_eq!(up.chunk(b"he"), ChunkAction::Collected);
    assert_eq!(up.chunk(&[b'y', 0xff]), ChunkAction::Collected);
    up.close_field();
    let name = Some("dir/x.bin".to_string());
    let ct = Some("text/plain".to_string());
    assert_eq!(up.open("doc".to_string(), name, ct), PartAction::Spool);
    assert_eq!(up.chunk(&[0; 40]), ChunkAction::Write);
    assert_eq!(up.chunk(&[0; 10]), ChunkAction::Write);
    up.close_file(b"/data/.spool/1".to_vec());
    let body = up.finish();
    assert_eq!(spooled(&body), [b"/data/.spool/1".to_vec()]);
    match body {
        RequestBody::Multipart { fields, files } => {
            assert_eq!(fields, [("title".to_string(), "hey\u{fffd}".to_string())]);
            assert_eq!(files.len(), 1);
            assert_eq!((files[0].size, files[0].filename.as_str()), (50, "dir/x.bin"));
            assert_eq!(files[0].content_type.as_deref(), Some("text/plain"));
        }
        RequestBody::Raw(_) => panic!("not multipart"),
    }
    assert!(spooled(&RequestBody::Raw(vec![])).is_empty());
}

#[test]
fn too_many_upload_files_are_rejected_and_swept() {
    let mut up = Upload::new(100, 1);
    up.open("a".to_string(), Some("a".to_string()), None);
    up.close_file(b"/data/.spool/1".to_vec());
    let action = up.open("b".to_string(), Some("b".to_string()), None);
    assert_eq!(action, PartAction::Reject(Rejection::TooManyFiles));
    let (page, sweep) = up.reject(Rejection::TooManyFiles);
    assert_eq!(page.status, 413);
    assert!(page.body.contains("limit of 1 files"));
    assert_eq!(sweep, [b"/data/.spool/1".to_vec()]);
}

#[test]
fn oversized_multipart_upload_is_rejected_and_swept() {
    let mut up = Upload::new(10, 5);
    up.open("a".to_string(), Some("a".to_string()), None);
    assert_eq!(up.chunk(&[0; 10]), ChunkAction::Write);
    assert_eq!(up.chunk(&[0; 1]), ChunkAction::Reject(Rejection::TooLarge));
    let (page, sweep) = up.reject(Rejection::TooLarge);
    assert!(page.body.contains("limit of 10 B (10 bytes)"));
    assert!(sweep.is_empty(), "an unfinished spool file removes itself");
    for (why, status, words) in [
        (Rejection::Malformed, 400, "400 Bad Request: malformed multipart"),
        (Rejection::Interrupted, 400, "400 Bad Request: upload interrupted"),
        (Rejection::Internal, 500, "500 Internal Server Error"),
    ] {
        let (page, _) = Upload::new(1, 1).reject(why);
        assert_eq!(page.status, status);
        assert!(page.body.contains(words));
    }
}

fn dir(path: Result<&str, &str>, is_dir: bool) -> DirLookup {
    DirLookup {
        canonical: path.map(|p| p.as_bytes().to_vec()).map_err(str::to_string),
        is_dir,
    }
}

#[test]
fn no_c_module_dirs_means_disabled() {
    assert_eq!(resolve_c_module_dirs(&vec![], &vec![], SRV), Ok(None));
}

#[test]
fn c_module_dirs_enable_native_loading() {
    let dirs = vec![b"/opt/a".to_vec(), b"b".to_vec()];
    let lookups = vec![dir(Ok("/opt/a"), true), dir(Ok("/home/b"), true)];
    assert_eq!(
        resolve_c_module_dirs(&dirs, &lookups, SRV),
        Ok(Some("/opt/a/?.so;/home/b/?.so".to_string()))
    );
}

#[test]
fn missing_c_module_dir_is_a_startup_error() {
    let dirs = vec![b"/nope".to_vec()];
    assert_eq!(
        resolve_c_module_dirs(&dirs, &vec![dir(Err("gone"), false)], SRV),
        Err("C module directory '/nope' is not usable: gone".to_string())
    );
    assert_eq!(
        resolve_c_module_dirs(&dirs, &vec![dir(Ok("/nope"), false)], SRV),
        Err("C module directory '/nope' is not a directory".to_string())
    );
}

#[test]
fn c_module_dir_inside_serve_dir_is_refused() {
    let err = resolve_c_module_dirs(&vec![b"x".to_vec()], &vec![dir(Ok("/srv/x"), true)], SRV);
    assert_eq!(
        err,
        Err("C module directory '/srv/x' must not be inside the serve directory '/srv' — a .so \
             there would also be downloadable as a static file"
            .to_string())
    );
}

#[test]
fn data_dir_inside_serve_dir_is_refused() {
    let real = |p: &str| DataDir::Real(p.as_bytes().to_vec());
    assert_eq!(
        setup_data_dir(b"./data", SRV, real("/data")),
        Ok((b"/data".to_vec(), b"/data/.spool".to_vec()))
    );
    assert_eq!(
        setup_data_dir(b"./data", SRV, real("/srv/data")),
        Err("data directory '/srv/data' must not be inside the serve directory '/srv' — databases \
             and uploads would become downloadable"
            .to_string())
    );
    assert_eq!(
        setup_data_dir(b"./data", SRV, DataDir::NotCreated("full".to_string())),
        Err("cannot create data directory './data': full".to_string())
    );
    assert_eq!(
        setup_data_dir(b"./data", SRV, DataDir::NotResolved("loop".to_string())),
        Err("data directory './data' is not usable: loop".to_string())
    );
}

#[test]
fn a_fallback_is_checked_at_startup() {
    let real = |p: &str| Ok(p.as_bytes().to_vec());
    assert_eq!(fallback_path(SRV, "/app.lhtml"), b"/srv/app.lhtml");
    assert_eq!(resolve_fallback(None, SRV, Err("x".to_string())), Ok(None));
    assert_eq!(
        resolve_fallback(Some("app.lhtml"), SRV, real("/srv/app.lhtml")),
        Ok(Some(b"/srv/app.lhtml".to_vec()))
    );
    assert_eq!(
        resolve_fallback(Some("a"), SRV, Err("gone".to_string())),
        Err("fallback template 'a' is not usable: gone".to_string())
    );
    assert_eq!(
        resolve_fallback(Some("a"), SRV, real("/etc/a.lhtml")),
        Err("fallback template 'a' must be inside the serve directory".to_string())
    );
    assert_eq!(
        resolve_fallback(Some("a"), SRV, real("/srv/a.html")),
        Err("fallback template 'a' must be a .lhtml file".to_string())
    );
}

#[test]
fn the_bare_handler_serves_templates_only() {
    assert!(only_templates("/a.lhtml").is_none());
    assert_eq!(only_templates("/a.txt").unwrap().status, 400);
    assert_eq!(template_path(SRV, "//a.lhtml"), b"/srv/a.lhtml");
    assert_eq!(check_template(None, None).err().unwrap().status, 500);
    assert_eq!(check_template(Some(SRV), None).err().unwrap().status, 404);
    let outside = check_template(Some(SRV), Some(b"/etc/a.lhtml".to_vec()));
    assert_eq!(outside.err().unwrap().body, "403 Forbidden");
    let inside = check_template(Some(SRV), Some(b"/srv/a.lhtml".to_vec()));
    assert_eq!(inside.ok().unwrap(), b"/srv/a.lhtml");
    assert_eq!(unreadable().body, "404 File Not Found");
    let a = answer(Ok("hi".to_string()), Some(201), vec![]);
    assert_eq!((a.status, a.body.as_str()), (201, "hi"));
    assert_eq!(a.headers, [("content-type".to_string(), "text/html".to_string())]);
    let a = answer(Err("boom".to_string()), None, vec![]);
    assert_eq!((a.status, a.body.as_str()), (500, "<h1>Lua Runtime Error</h1><p>boom</p>"));
}
