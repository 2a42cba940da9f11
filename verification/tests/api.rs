use red_crescent::api::html_escape;
use red_crescent::api::modules::{
    candidate_path, env_builder_source, env_funcs, env_tables, find_module, module_candidates,
    package_path, unmodified, Found, Mark, Probe, TableCopy,
};
use red_crescent::api::request::{body_of_shape, build_request_table, header, header_key, BodyTable, JsonShape};
use red_crescent::api::response::{
    check_include, enter_include, include_path, leave_include, redirect, send_file, set_cookie,
    CookieSpec,
};
use red_crescent::api::{escape_bytes, escape_into};
use red_crescent::runtime::{RenderState, RequestBody, RequestData, UploadedFile};
use red_crescent::value::{out_expr, out_raw, params_to_string, print, value_to_string, LuaValue};

#[test]
fn escapes_html_entities() {
    assert_eq!(
        html_escape(r#"<b class="x">&'</b>"#),
        "&lt;b class=&quot;x&quot;&gt;&amp;&#x27;&lt;/b&gt;"
    );
}

/// Escaping copies the runs between replacements, so where the first one falls
/// decides which runs exist at all.
#[test]
fn escapes_every_run_layout() {
    for (input, want) in [
        ("", ""),
        ("plain text", "plain text"),
        ("<lead", "&lt;lead"),
        ("trail>", "trail&gt;"),
        ("mid&dle", "mid&amp;dle"),
        ("a<<b", "a&lt;&lt;b"),
        ("<>&\"'", "&lt;&gt;&amp;&quot;&#x27;"),
        ("pre<mid>post", "pre&lt;mid&gt;post"),
    ] {
        assert_eq!(html_escape(input), want, "input {input:?}");
    }
}

#[test]
fn escaping_preserves_non_ascii() {
    assert_eq!(html_escape("héllo <wörld>"), "héllo &lt;wörld&gt;");
}

#[test]
fn escaping_appends_and_takes_any_bytes() {
    let mut out = b"x".to_vec();
    escape_into(&[0xff, b'<', 0x80], &mut out);
    assert_eq!(out, [b'x', 0xff, b'&', b'l', b't', b';', 0x80]);
    assert_eq!(escape_bytes(b"a"), b"a");
}

fn number(s: &str) -> LuaValue {
    LuaValue::Number(s.to_string())
}

fn text(s: &str) -> LuaValue {
    LuaValue::Str(s.as_bytes().to_vec())
}

/// How every value type reaches the page.
#[test]
fn out_expr_renders_every_value_type() {
    for (values, want) in [
        (vec![LuaValue::Nil], ""),
        (vec![LuaValue::Boolean(true)], "true"),
        (vec![LuaValue::Boolean(false)], "false"),
        (vec![LuaValue::Integer(42)], "42"),
        (vec![number("2.5")], "2.5"),
        (vec![number("5")], "5"),
        (vec![number("-0.125")], "-0.125"),
        (vec![text("a<b>&'\"c")], "a&lt;b&gt;&amp;&#x27;&quot;c"),
        (vec![text("x"), LuaValue::Integer(1), LuaValue::Boolean(true)], "x1true"),
        (vec![LuaValue::Other(Ok("[1,2]".to_string()))], "[1,2]"),
        (vec![LuaValue::Function], "&lt;function&gt;"),
        (vec![LuaValue::Integer(9007199254740993)], "9007199254740993"),
        (vec![LuaValue::Integer(i64::MIN)], "-9223372036854775808"),
    ] {
        let mut out = Vec::new();
        out_expr(&values, &mut out).unwrap();
        assert_eq!(String::from_utf8(out).unwrap(), want);
    }
}

#[test]
fn numbers_print_however_long_their_text() {
    let big = format!("{}", 1e300f64);
    assert_eq!(big.len(), 301);
    let mut out = Vec::new();
    out_expr(&vec![number(&big), number("-2")], &mut out).unwrap();
    assert_eq!(out, format!("{big}-2").as_bytes());
}

#[test]
fn raw_output_is_not_escaped_and_print_joins_with_a_space() {
    let mut out = Vec::new();
    out_raw(&vec![LuaValue::Nil, text("<b>"), LuaValue::Integer(-7)], &mut out).unwrap();
    assert_eq!(out, b"<b>-7");
    print(&vec![LuaValue::Nil, text("<i>"), number("1.5")], &mut out).unwrap();
    assert_eq!(out, b"<b>-7nil <i> 1.5");
}

#[test]
fn output_stops_at_a_value_without_text() {
    let broken = || vec![text("a"), LuaValue::Other(Err("no json".to_string())), text("b")];
    let mut out = Vec::new();
    assert_eq!(out_expr(&broken(), &mut out), Err("no json".to_string()));
    assert_eq!(out, b"a");
    assert_eq!(out_raw(&broken(), &mut out), Err("no json".to_string()));
    assert_eq!(out, b"aa");
    assert_eq!(print(&broken(), &mut out), Err("no json".to_string()));
    assert_eq!(out, b"aaa ");
    assert_eq!(params_to_string(&broken()), Err("no json".to_string()));
}

#[test]
fn values_as_text() {
    assert_eq!(value_to_string(&LuaValue::Nil).unwrap(), "nil");
    assert_eq!(value_to_string(&LuaValue::Function).unwrap(), "<function>");
    assert_eq!(value_to_string(&LuaValue::Str(vec![b'a', 0xff])).unwrap(), "a\u{fffd}");
    assert_eq!(
        params_to_string(&vec![text("a"), LuaValue::Integer(1), LuaValue::Boolean(false)]).unwrap(),
        "a 1 false"
    );
    assert_eq!(params_to_string(&vec![]).unwrap(), "");
}

#[test]
fn redirects_need_a_redirect_status() {
    let mut state = RenderState::new();
    redirect(&mut state, "/a".to_string(), None).unwrap();
    assert_eq!(state.redirect, Some(("/a".to_string(), 302)));
    redirect(&mut state, "/b".to_string(), Some(307)).unwrap();
    assert_eq!(state.redirect, Some(("/b".to_string(), 307)));
    let err = redirect(&mut state, "/c".to_string(), Some(200)).unwrap_err();
    assert_eq!(err, "redirect: status must be a 3xx code, got 200");
    assert_eq!(state.redirect, Some(("/b".to_string(), 307)));
}

fn cookie(name: Option<&str>, value: Option<&str>, same_site: Option<&str>) -> CookieSpec {
    CookieSpec {
        name: name.map(str::to_string),
        value: value.map(str::to_string),
        path: Some("/".to_string()),
        domain: None,
        max_age: Some(60),
        http_only: Some(true),
        secure: None,
        same_site: same_site.map(str::to_string),
    }
}

#[test]
fn cookies_are_checked_and_queued() {
    let mut state = RenderState::new();
    assert_eq!(
        set_cookie(&mut state, cookie(None, Some("v"), None)),
        Err("set_cookie: 'name' field is required".to_string())
    );
    assert_eq!(
        set_cookie(&mut state, cookie(Some("n"), None, None)),
        Err("set_cookie: 'value' field is required".to_string())
    );
    assert_eq!(
        set_cookie(&mut state, cookie(Some("n"), Some("v"), Some("sometimes"))),
        Err("set_cookie: same_site must be 'strict', 'lax' or 'none', got 'sometimes'".to_string())
    );
    set_cookie(&mut state, cookie(Some("n"), Some("v"), Some("STRICT"))).unwrap();
    assert_eq!(state.cookies.len(), 1);
    let c = &state.cookies[0];
    assert_eq!((c.name.as_str(), c.value.as_str(), c.max_age), ("n", "v", Some(60)));
    assert!(c.http_only && !c.secure);
}

#[test]
fn recursive_include_hits_depth_limit() {
    let mut state = RenderState::new();
    let page = || Some(b"/srv/a.lhtml".to_vec());
    for depth in 0..16 {
        assert_eq!(state.include_depth, depth);
        let (path, name) = check_include(&state, b"/srv", "a.lhtml", page()).unwrap();
        assert_eq!((path.as_slice(), name.as_str()), (b"/srv/a.lhtml".as_slice(), "a.lhtml"));
        enter_include(&mut state);
    }
    let err = check_include(&state, b"/srv", "a.lhtml", page()).unwrap_err();
    assert!(err.contains("depth limit (16)"), "{err}");
    leave_include(&mut state);
    assert_eq!(state.include_depth, 15);
}

#[test]
fn includes_are_confined_templates() {
    let state = RenderState::new();
    assert_eq!(include_path(b"/srv", "//p/x.lhtml"), b"/srv/p/x.lhtml");
    assert_eq!(
        check_include(&state, b"/srv", "x.lhtml", None).unwrap_err(),
        "include: file not found: x.lhtml"
    );
    assert_eq!(
        check_include(&state, b"/srv", "l.lhtml", Some(b"/srv2/l.lhtml".to_vec())).unwrap_err(),
        "include: path escapes the serve directory: l.lhtml"
    );
    assert_eq!(
        check_include(&state, b"/srv", "m.lua", Some(b"/srv/m.lua".to_vec())).unwrap_err(),
        "include: only .lhtml files can be included (use require() for .lua modules)"
    );
    assert!(check_include(&state, b"/srv", "x", Some(b"/srv/X.LHTML".to_vec())).is_ok());
}

fn send(path: Option<&str>, is_file: bool) -> Result<Option<Vec<u8>>, String> {
    let mut state = RenderState::new();
    send_file(
        &mut state,
        b"/data",
        b"/srv",
        "given",
        path.map(|p| p.as_bytes().to_vec()),
        is_file,
        Some("d".to_string()),
        None,
    )?;
    Ok(state.send_file.map(|s| s.path))
}

#[test]
fn sent_files_are_confined_and_never_source() {
    assert_eq!(send(None, true), Err("send_file: file not found: given".to_string()));
    assert_eq!(
        send(Some("/etc/passwd"), true),
        Err("send_file: path is outside the data and serve directories: given".to_string())
    );
    assert_eq!(
        send(Some("/data/dir"), false),
        Err("send_file: not a regular file: given".to_string())
    );
    assert_eq!(
        send(Some("/srv/libs/helper.lua"), true),
        Err("send_file: refusing to send Lua source from the serve directory: given".to_string())
    );
    assert_eq!(
        send(Some("/srv/.git/config"), true),
        Err("send_file: refusing to send a hidden file from the serve directory: given".to_string())
    );
    assert_eq!(send(Some("/srv/assets/style.css"), true), Ok(Some(b"/srv/assets/style.css".to_vec())));
    assert_eq!(send(Some("/data/user.lua"), true), Ok(Some(b"/data/user.lua".to_vec())));
    assert_eq!(send(Some("/data/.hidden"), true), Ok(Some(b"/data/.hidden".to_vec())));
}

fn probe(path: Option<&str>, is_file: bool) -> Probe {
    Probe { canonical: path.map(|p| p.as_bytes().to_vec()), is_file }
}

#[test]
fn modules_are_searched_in_order() {
    assert_eq!(
        module_candidates("nope.missing"),
        ("nope/missing.lua".to_string(), "nope/missing/init.lua".to_string())
    );
    assert_eq!(candidate_path(b"/srv", "a/b.lua"), b"/srv/a/b.lua");
    match find_module(b"/srv", "a.b", probe(Some("/srv/a/b.lua"), true), probe(None, false)) {
        Found::Module { path, candidate } => {
            assert_eq!(path, b"/srv/a/b.lua");
            assert_eq!(candidate, "a/b.lua");
        }
        Found::Missing(_) => panic!("not found"),
    }
    match find_module(b"/srv", "pkg", probe(None, false), probe(Some("/srv/pkg/init.lua"), true)) {
        Found::Module { candidate, .. } => assert_eq!(candidate, "pkg/init.lua"),
        Found::Missing(_) => panic!("not found"),
    }
    for first in [probe(None, false), probe(Some("/out/x.lua"), true), probe(Some("/srv/x.lua"), false)] {
        match find_module(b"/srv", "x", first, probe(None, false)) {
            Found::Module { .. } => panic!("found"),
            Found::Missing(tried) => assert_eq!(
                tried,
                "\n\tno file '/srv/x.lua'\n\tno file '/srv/x/init.lua'"
            ),
        }
    }
    assert_eq!(package_path(b"/srv"), "/srv/?.lua;/srv/?/init.lua");
}

#[test]
fn the_environment_source_lists_every_name() {
    let source = env_builder_source(&env_tables(), &env_funcs());
    assert!(source.contains("local TABLES = { \"string\", \"table\", "));
    assert!(source.contains("\"thread\", \"server\" }\nlocal FUNCS = { \"assert\", "));
    assert!(source.contains("local loaded = { string = modules[1], table = modules[2], "));
    assert!(source.contains("server = modules[15],  _G = nil }"));
    assert!(source.contains("server = copies[15], assert = funcs[1], "));
    assert!(source.contains("_out_raw = funcs[24], \n        _G = nil,"));
    assert!(source.contains("return build, reset"));
    assert!(!source.contains("--[[TABLES]]"));
}

#[test]
fn ways_out_of_the_environment_are_not_shared() {
    let funcs = env_funcs();
    for name in ["getmetatable", "rawset", "dofile", "loadfile", "load", "require"] {
        assert!(!funcs.contains(&name), "{name}");
    }
}

fn table(entries: &[(&str, u64)], has_metatable: bool) -> TableCopy {
    TableCopy {
        entries: entries.iter().map(|(n, v)| (n.as_bytes().to_vec(), *v)).collect(),
        has_metatable,
    }
}

#[test]
fn modified_copies_are_noticed() {
    let source = table(&[("upper", 1), ("lower", 2)], false);
    assert!(unmodified(&table(&[("lower", 2), ("upper", 1)], false), &source));
    assert!(!unmodified(&table(&[("lower", 2), ("upper", 9)], false), &source), "replaced");
    assert!(!unmodified(&table(&[("lower", 2)], false), &source), "removed");
    assert!(!unmodified(&table(&[("lower", 2), ("upper", 1), ("x", 3)], false), &source), "added");
    assert!(!unmodified(&table(&[("lower", 2), ("upper", 1)], true), &source), "metatable");
}

#[test]
fn a_mark_is_taken_once() {
    let mut mark = Mark { set: false };
    assert!(!mark.take());
    mark.mark();
    assert!(mark.take());
    assert!(!mark.take());
}

fn request(query: &str, content_type: Option<&str>, body: RequestBody) -> RequestData {
    RequestData {
        method: "POST".to_string(),
        path: "/p".to_string(),
        query_string: query.to_string(),
        headers: vec![("x-custom".to_string(), "1".to_string())],
        cookies: vec![],
        content_type: content_type.map(str::to_string),
        body,
        remote_addr: None,
    }
}

fn pairs(list: &[(&str, &str)]) -> Vec<(String, String)> {
    list.iter().map(|(a, b)| (a.to_string(), b.to_string())).collect()
}

#[test]
fn repeated_query_params_are_exposed() {
    let t = build_request_table(request(
        "a=1&b=x+y&a=%32&&c&%C3%A9=%ff",
        None,
        RequestBody::Raw(vec![]),
    ));
    assert_eq!(
        t.query,
        pairs(&[("a", "2"), ("b", "x y"), ("c", ""), ("é", "\u{fffd}")])
    );
    assert_eq!(t.query_all[0], ("a".to_string(), vec!["1".to_string(), "2".to_string()]));
    assert_eq!(t.query_all.len(), 4);
    assert!(t.raw_body.is_none());
    assert!(matches!(t.body, BodyTable::Empty));
    assert_eq!(t.remote_addr, None);
}

#[test]
fn form_bodies_become_fields() {
    let t = build_request_table(request(
        "",
        Some("application/x-www-form-urlencoded; charset=utf-8"),
        RequestBody::Raw(b"name=Ada&lang=a&lang=b".to_vec()),
    ));
    match t.body {
        BodyTable::Fields(f) => assert_eq!(f, pairs(&[("name", "Ada"), ("lang", "b")])),
        _ => panic!("no fields"),
    }
    assert_eq!(t.raw_body, Some(b"name=Ada&lang=a&lang=b".to_vec()));
}

#[test]
fn json_bodies_are_told_apart() {
    for (body, want) in [
        ("{\"a\":1}", "table"),
        ("[1]", "table"),
        ("5", "scalar"),
        ("null", "scalar"),
        ("true", "scalar"),
        ("\"s\"", "scalar"),
        ("{", "empty"),
        ("", "empty"),
    ] {
        for ct in ["application/json", "application/problem+json"] {
            let t = build_request_table(request(
                "",
                Some(ct),
                RequestBody::Raw(body.as_bytes().to_vec()),
            ));
            let got = match t.body {
                BodyTable::Json => "table",
                BodyTable::JsonScalar => "scalar",
                BodyTable::Empty => "empty",
                BodyTable::Fields(_) => "fields",
            };
            assert_eq!(got, want, "{body} as {ct}");
        }
    }
    assert!(matches!(body_of_shape(JsonShape::Number), BodyTable::JsonScalar));
}

#[test]
fn other_bodies_are_only_raw() {
    let t = build_request_table(request("", Some("text/plain"), RequestBody::Raw(b"{}".to_vec())));
    assert!(matches!(t.body, BodyTable::Empty));
    assert_eq!(t.raw_body, Some(b"{}".to_vec()));
    assert!(t.files.is_empty());
}

#[test]
fn multipart_bodies_have_fields_and_files() {
    let t = build_request_table(request(
        "",
        Some("multipart/form-data; boundary=x"),
        RequestBody::Multipart {
            fields: pairs(&[("a", "1"), ("a", "2")]),
            files: vec![UploadedFile {
                field: "f".to_string(),
                filename: "x.bin".to_string(),
                content_type: None,
                size: 3,
                path: b"/data/.spool/1".to_vec(),
            }],
        },
    ));
    match t.body {
        BodyTable::Fields(f) => assert_eq!(f, pairs(&[("a", "2")])),
        _ => panic!("no fields"),
    }
    assert_eq!(t.files.len(), 1);
    assert!(t.raw_body.is_none());
}

#[test]
fn header_lookup_is_case_insensitive() {
    let headers = pairs(&[("x-custom", "1"), ("accept", "*/*")]);
    assert_eq!(header(&headers, "X-Custom"), Some("1".to_string()));
    assert_eq!(header(&headers, "accept"), Some("*/*".to_string()));
    assert_eq!(header(&headers, "missing"), None);
    assert_eq!(header_key("X-Custom"), "x-custom");
}
