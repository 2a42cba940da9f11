use red_crescent::api::modules::{env_funcs, unmodified, TableCopy};
use red_crescent::config::Config;
use red_crescent::runtime::{
    classify_lua_error, header_value_to_string, render, render_config, retain_next, retain_start,
    status_from_value, template_error_to_render_error, Attempt, Cause, ConfigId, ConfigIds, Lease,
    LuaError, LuaFailure, LuaRun, Pool, Pooled, RenderConfig, RenderError, RenderState,
    RenderedResponse, ResponseTable, RetainReport, RetainStep,
};
use red_crescent::template::TemplateError;
use red_crescent::value::LuaValue;

fn config(ids: &mut ConfigIds) -> RenderConfig {
    let id = ConfigId::new(ids);
    let mut cfg = render_config(&Config::default(None), id, b"/srv".to_vec(), b"/data".to_vec(), None);
    cfg.limits.memory_bytes = 32 * 1024 * 1024;
    cfg
}

fn run(out: &str) -> Attempt {
    let mut state = RenderState::new();
    state.out = out.as_bytes().to_vec();
    Attempt::Ran(LuaRun { interrupted: false, error: None, response: None }, state)
}

fn failing(chain: Vec<Cause>) -> Attempt {
    let error = LuaError { chain, text: "boom".to_string() };
    Attempt::Ran(
        LuaRun { interrupted: false, error: Some(error), response: None },
        RenderState::new(),
    )
}

fn quiet() -> RetainReport {
    RetainReport { ok: true, finalizers: false, used: 1024 }
}

/// One request on this thread: lease, run, and retain with the given reports.
fn request(
    pool: &mut Pool,
    cfg: &RenderConfig,
    attempt: Attempt,
    reports: &[RetainReport],
) -> Result<RenderedResponse, RenderError> {
    let lease = pool.acquire(cfg);
    let result = render(attempt, "p.lhtml");
    let state = match lease {
        Lease::Unpooled => return result,
        Lease::Built(s) | Lease::Reused(s) => s,
    };
    let oom = matches!(result, Err(RenderError::Memory));
    let mut step = retain_start(oom, &state, cfg);
    for report in reports {
        step = retain_next(step, *report, cfg.limits.memory_bytes);
    }
    if step == RetainStep::Park {
        pool.park(state);
    }
    result
}

fn body(pool: &mut Pool, cfg: &RenderConfig) -> String {
    let rendered = request(pool, cfg, run("ok"), &[quiet(), quiet()]).ok().unwrap();
    String::from_utf8(rendered.body).unwrap()
}

fn parked(pool: &Pool) -> Option<u32> {
    pool.parked.as_ref().map(|s| s.requests)
}

#[test]
fn a_state_serves_request_after_request() {
    let mut pool = Pool::new();
    let cfg = config(&mut ConfigIds::new());
    for _ in 0..3 {
        assert_eq!(body(&mut pool, &cfg), "ok");
    }
    assert_eq!(parked(&pool), Some(3), "state was not reused");
}

#[test]
fn the_request_ceiling_retires_a_state() {
    let mut pool = Pool::new();
    let mut cfg = config(&mut ConfigIds::new());
    cfg.pool_max_requests = 2;

    body(&mut pool, &cfg);
    assert_eq!(parked(&pool), Some(1));
    body(&mut pool, &cfg);
    assert_eq!(parked(&pool), None, "the ceiling did not retire the state");
}

#[test]
fn exhausting_the_memory_limit_retires_a_state() {
    let mut pool = Pool::new();
    let mut cfg = config(&mut ConfigIds::new());
    cfg.limits.memory_bytes = 4 * 1024 * 1024;

    let out_of_memory = failing(vec![Cause::Other, Cause::Memory]);
    let Err(err) = request(&mut pool, &cfg, out_of_memory, &[quiet(), quiet()]) else {
        panic!("the memory limit was not hit");
    };
    assert!(matches!(err, RenderError::Memory), "got {err:?}");
    assert_eq!(parked(&pool), None, "a state at its ceiling was parked");

    // The next request gets a fresh one and is unaffected.
    let rendered = request(&mut pool, &cfg, run("fine"), &[quiet(), quiet()]).ok().unwrap();
    assert_eq!(rendered.body, b"fine");
}

#[test]
fn pooling_can_be_turned_off() {
    let mut pool = Pool::new();
    let mut cfg = config(&mut ConfigIds::new());
    cfg.pool = false;

    assert_eq!(body(&mut pool, &cfg), "ok");
    assert_eq!(parked(&pool), None);
}

#[test]
fn native_modules_turn_pooling_off() {
    let mut pool = Pool::new();
    let mut cfg = config(&mut ConfigIds::new());
    cfg.c_module_path = Some("/opt/lua/?.so".to_string());
    assert_eq!(pool.acquire(&cfg), Lease::Unpooled);
}

/// A state bakes in its config, so one built for a different server must
/// never be handed on.
#[test]
fn a_state_is_never_shared_between_configs() {
    let mut pool = Pool::new();
    let mut ids = ConfigIds::new();
    let first = config(&mut ids);
    let second = config(&mut ids);
    assert_ne!(first.id, second.id);

    body(&mut pool, &first);
    assert_eq!(parked(&pool), Some(1));
    body(&mut pool, &second);
    assert_eq!(parked(&pool), Some(1), "a state crossed configs");
}

/// One that registers another would outlive the forced collection too.
#[test]
fn a_resurrecting_finalizer_retires_the_state() {
    let mut pool = Pool::new();
    let cfg = config(&mut ConfigIds::new());
    let left_one = RetainReport { finalizers: true, ..quiet() };
    let rendered = request(&mut pool, &cfg, run("ok"), &[left_one, left_one, quiet(), quiet()]);
    assert_eq!(rendered.ok().unwrap().body, b"ok");
    assert_eq!(parked(&pool), None, "a state with a live finalizer was parked");
}

#[test]
fn a_finalizer_that_has_run_leaves_a_state_usable() {
    let mut pool = Pool::new();
    let cfg = config(&mut ConfigIds::new());
    let left_one = RetainReport { finalizers: true, ..quiet() };
    request(&mut pool, &cfg, run("ok"), &[left_one, quiet(), quiet(), quiet()]).ok().unwrap();
    assert_eq!(parked(&pool), Some(1));
}

#[test]
fn a_heavy_request_leaves_headroom_or_nothing() {
    let cfg = config(&mut ConfigIds::new());
    let heavy = RetainReport { used: 20 * 1024 * 1024, ..quiet() };
    let limit = cfg.limits.memory_bytes;
    assert_eq!(retain_next(RetainStep::Measure, heavy, limit), RetainStep::MakeRoom);
    assert_eq!(retain_next(RetainStep::MakeRoom, heavy, limit), RetainStep::Retire);
    assert_eq!(retain_next(RetainStep::MakeRoom, quiet(), limit), RetainStep::Park);
    let broken = RetainReport { ok: false, ..quiet() };
    for step in [
        RetainStep::ResetEnvironment,
        RetainStep::CollectFinalizers,
        RetainStep::ResetAgain,
        RetainStep::MakeRoom,
    ] {
        assert_eq!(retain_next(step, broken, limit), RetainStep::Retire);
    }
    let state = Pooled { config: cfg.id, requests: 10_000 };
    assert_eq!(retain_start(false, &state, &cfg), RetainStep::Retire);
}

fn string_table(entries: &[(&str, u64)], has_metatable: bool) -> TableCopy {
    TableCopy {
        entries: entries.iter().map(|(n, v)| (n.as_bytes().to_vec(), *v)).collect(),
        has_metatable,
    }
}

const STRING: [(&str, u64); 2] = [("upper", 1), ("lower", 2)];

/// `getmetatable("").__index` is the real `string` table, which no copy
/// can hide, so the function is not in the environment at all.
#[test]
fn the_string_metatable_is_out_of_reach() {
    assert!(!env_funcs().contains(&"getmetatable"));
    assert!(!env_funcs().contains(&"rawset"));
}

/// The copies are reused, not rebuilt, while no request touches them.
#[test]
fn an_untouched_copy_is_reused() {
    assert!(unmodified(&string_table(&STRING, false), &string_table(&STRING, false)));
}

/// A metatable changes no field, so the reset has to look for it.
#[test]
fn a_planted_metatable_does_not_survive_the_request() {
    assert!(!unmodified(&string_table(&STRING, true), &string_table(&STRING, false)));
}

/// Every remaining entry still matches, so only the count gives it away.
#[test]
fn a_removed_entry_is_restored() {
    assert!(!unmodified(&string_table(&STRING[1..], false), &string_table(&STRING, false)));
}

#[test]
fn pcall_cannot_swallow_the_timeout() {
    let mut state = RenderState::new();
    state.out = b"caught".to_vec();
    let run = LuaRun { interrupted: true, error: None, response: None };
    let err = render(Attempt::Ran(run, state), "p.lhtml").err().unwrap();
    assert!(matches!(err, RenderError::Timeout));
    assert_eq!(err.message(), "template execution timed out");
}

#[test]
fn control_signals_are_found_at_any_depth() {
    for depth in 0..4 {
        let mut exit = vec![Cause::Other; depth];
        exit.push(Cause::Exit);
        assert_eq!(classify_lua_error(&exit), LuaFailure::Exit);
        assert!(render(failing(exit), "p").is_ok(), "an early exit is no failure");
        let mut memory = vec![Cause::Other; depth];
        memory.push(Cause::Memory);
        assert_eq!(classify_lua_error(&memory), LuaFailure::Memory);
        assert_eq!(classify_lua_error(&vec![Cause::Other; depth]), LuaFailure::Error);
    }
    assert_eq!(classify_lua_error(&vec![Cause::Exit, Cause::Memory]), LuaFailure::Exit);
}

#[test]
fn errors_in_words() {
    let text = |a: Attempt| render(a, "x.lhtml").err().unwrap().message();
    assert_eq!(text(failing(vec![])), "Lua error: boom");
    assert_eq!(text(failing(vec![Cause::Memory])), "template exceeded the memory limit");
    assert_eq!(text(Attempt::NotBuilt("no state".to_string())), "Lua error: no state");
    assert_eq!(text(Attempt::NotLoaded(TemplateError::NotFound)), "template not found");
    assert_eq!(
        text(Attempt::NotLoaded(TemplateError::Io("denied".to_string()))),
        "I/O error: denied"
    );
    let parse = TemplateError::Parse { line: 7, msg: "bad".to_string() };
    assert_eq!(text(Attempt::NotLoaded(parse)), "template parse error in x.lhtml:7: bad");
    assert!(matches!(
        template_error_to_render_error(TemplateError::NotFound, "f"),
        RenderError::NotFound
    ));
}

fn ran_with(status: LuaValue, headers: Vec<(Option<String>, LuaValue)>) -> (LuaRun, RenderState) {
    let response = ResponseTable { status: Some(status), headers: Some(headers) };
    let run = LuaRun { interrupted: false, error: None, response: Some(response) };
    (run, RenderState::new())
}

#[test]
fn custom_status_codes_are_honored() {
    for (value, want) in [
        (LuaValue::Integer(418), 418),
        (LuaValue::Str(b" 404 ".to_vec()), 404),
        (LuaValue::Integer(99), 200),
        (LuaValue::Integer(1000), 200),
        (LuaValue::Str(b"teapot".to_vec()), 200),
        (LuaValue::Boolean(true), 200),
        (LuaValue::Nil, 200),
    ] {
        let (run, state) = ran_with(value, vec![]);
        assert_eq!(render(Attempt::Ran(run, state), "p").ok().unwrap().status, want);
    }
    assert_eq!(status_from_value(&LuaValue::Integer(999)), Some(999));
}

#[test]
fn headers_are_text_or_numbers() {
    let name = |s: &str| Some(s.to_string());
    let (run, mut state) = ran_with(
        LuaValue::Integer(200),
        vec![
            (name("X-A"), LuaValue::Str(b"a".to_vec())),
            (name("X-B"), LuaValue::Integer(-3)),
            (name("X-C"), LuaValue::Number("1.5".to_string())),
            (name("X-D"), LuaValue::Boolean(true)),
            (None, LuaValue::Str(b"lost".to_vec())),
        ],
    );
    state.redirect = Some(("/next".to_string(), 303));
    let r = render(Attempt::Ran(run, state), "p").ok().unwrap();
    assert_eq!(r.status, 303);
    let got: Vec<(&str, &str)> = r.headers.iter().map(|(n, v)| (n.as_str(), v.as_str())).collect();
    assert_eq!(got, [("X-A", "a"), ("X-B", "-3"), ("X-C", "1.5"), ("Location", "/next")]);
    assert_eq!(header_value_to_string(&LuaValue::Nil), None);
}

#[test]
fn every_config_id_can_be_handed_out() {
    let mut ids = ConfigIds { next: u64::MAX as u128 - 1 };
    let (a, b) = (ConfigId::new(&mut ids), ConfigId::new(&mut ids));
    assert_eq!((a.0, b.0), (u64::MAX - 1, u64::MAX));
}
