use red_crescent::threads::{
    current_run_id, hook_error, join_refusal, join_value, next_deadline, resolve_script,
    run_id_of, run_outcome, script_path, sleep_step, spawn_named, CurrentRun, JoinStep, JoinValue,
    RunStatus, SleepStep, Spawn, ThreadRegistry, MAX_FINISHED_RUNS, MAX_THREADS,
};

fn spawn(registry: &mut ThreadRegistry, name: &str, args: Option<&str>) -> Result<Spawn, String> {
    spawn_named(
        registry,
        b"/srv",
        name,
        "jobs/a.lua",
        Ok(b"/srv/jobs/a.lua".to_vec()),
        true,
        &args.map(str::to_string),
    )
}

fn outcome(
    registry: &ThreadRegistry,
    id: u64,
) -> Option<(RunStatus, Option<String>, Option<String>)> {
    match registry.join(id, true) {
        JoinStep::Done(outcome) => outcome,
        JoinStep::Wait => panic!("still waiting"),
    }
}

#[test]
fn racing_spawns_share_one_run() {
    let mut registry = ThreadRegistry::new();
    let winner = spawn(&mut registry, "w", None).ok().unwrap();
    let loser = spawn(&mut registry, "w", Some("{}")).ok().unwrap();
    assert!(winner.spawned && !loser.spawned);
    assert_eq!(winner.id, loser.id);
    assert_eq!(winner.path, b"/srv/jobs/a.lua");
}

#[test]
fn thread_spawn_is_idempotent_and_names_free_on_exit() {
    let mut registry = ThreadRegistry::default();
    let first = spawn(&mut registry, "w", None).ok().unwrap();
    assert!(registry.is_running("w"));
    assert!(!registry.is_running("other"));
    assert!(registry.finish(first.id, RunStatus::Finished, None, None));
    assert!(!registry.is_running("w"));
    let second = spawn(&mut registry, "w", None).ok().unwrap();
    assert!(second.spawned);
    assert!(second.id > first.id);
}

#[test]
fn run_ids_survive_name_reuse() {
    let mut registry = ThreadRegistry::new();
    let first = registry.claim("w").unwrap().0;
    registry.finish(first, RunStatus::Finished, Some("1".to_string()), None);
    let second = registry.claim("w").unwrap().0;
    registry.finish(second, RunStatus::Failed, None, Some("boom".to_string()));
    assert_eq!(outcome(&registry, first), Some((RunStatus::Finished, Some("1".to_string()), None)));
    assert_eq!(
        outcome(&registry, second),
        Some((RunStatus::Failed, None, Some("boom".to_string())))
    );
    assert_eq!(outcome(&registry, 99), None);
}

#[test]
fn the_first_outcome_stays() {
    let mut registry = ThreadRegistry::new();
    let id = registry.claim("w").unwrap().0;
    assert!(registry.finish(id, RunStatus::Finished, Some("7".to_string()), None));
    assert!(!registry.release(id));
    assert!(!registry.abandon(id));
    assert_eq!(outcome(&registry, id), Some((RunStatus::Finished, Some("7".to_string()), None)));
}

#[test]
fn unfinished_threads_are_reported() {
    let mut registry = ThreadRegistry::new();
    let a = registry.claim("a").unwrap().0;
    let b = registry.claim("b").unwrap().0;
    assert!(registry.abandon(a));
    assert!(registry.release(b));
    let error = |id| outcome(&registry, id).unwrap().2.unwrap();
    assert_eq!(error(a), "thread could not be started");
    assert_eq!(error(b), "thread ended unexpectedly");
    assert_eq!(registry.status(a), Some(RunStatus::Failed));
    assert_eq!(registry.status(77), None);
}

#[test]
fn killing_a_finished_run_reports_false() {
    let mut registry = ThreadRegistry::new();
    let id = registry.claim("w").unwrap().0;
    assert!(!registry.was_cancelled(id));
    assert!(registry.request_kill(id));
    assert!(registry.was_cancelled(id));
    registry.finish(id, RunStatus::Cancelled, None, None);
    assert!(!registry.request_kill(id));
    assert!(!registry.request_kill(12345));
    assert_eq!(registry.status(id), Some(RunStatus::Cancelled));
}

#[test]
fn a_killed_run_has_no_error() {
    let mut registry = ThreadRegistry::new();
    let id = registry.claim("w").unwrap().0;
    assert!(registry.request_kill(id));
    let script = Err("thread was killed".to_string());
    let (status, result, error) = run_outcome(script, registry.was_cancelled(id));
    assert!(registry.finish(id, status, result, error));
    assert_eq!(outcome(&registry, id), Some((RunStatus::Cancelled, None, None)));
}

#[test]
fn an_ended_run_takes_no_other_outcome() {
    let mut registry = ThreadRegistry::new();
    let id = registry.claim("w").unwrap().0;
    assert!(registry.finish(id, RunStatus::Failed, None, Some("boom".to_string())));
    assert!(!registry.finish(id, RunStatus::Running, None, None));
    assert!(!registry.finish(id, RunStatus::Finished, Some("1".to_string()), None));
    assert!(!registry.finish(99, RunStatus::Running, None, None));
    assert_eq!(
        outcome(&registry, id),
        Some((RunStatus::Failed, None, Some("boom".to_string())))
    );
    assert!(!registry.is_running("w"));
    assert_eq!(registry.status(99), None);
}

#[test]
fn the_thread_cap_counts_only_live_runs() {
    let mut registry = ThreadRegistry::new();
    for i in 0..MAX_THREADS {
        assert!(registry.claim(&format!("t{i}")).unwrap().1);
    }
    assert_eq!(registry.claim("one-more"), Err("thread limit (64) reached".to_string()));
    assert_eq!(registry.claim("t3"), Ok((4, false)));
    assert_eq!(
        spawn(&mut registry, "one-more", None).err().unwrap(),
        "thread limit (64) reached"
    );
    registry.finish(4, RunStatus::Finished, None, None);
    assert_eq!(registry.claim("one-more"), Ok((65, true)));
}

#[test]
fn only_the_oldest_outcome_is_forgotten() {
    let mut registry = ThreadRegistry::new();
    let live = registry.claim("live").unwrap().0;
    let mut ended = Vec::new();
    for _ in 0..=MAX_FINISHED_RUNS {
        let id = registry.claim("w").unwrap().0;
        registry.finish(id, RunStatus::Finished, None, None);
        ended.push(id);
    }
    assert_eq!(registry.status(ended[0]), None);
    assert_eq!(registry.status(ended[1]), Some(RunStatus::Finished));
    assert_eq!(registry.status(live), Some(RunStatus::Running));
}

#[test]
fn joining_waits_for_a_live_run() {
    let mut registry = ThreadRegistry::new();
    let id = registry.claim("w").unwrap().0;
    assert!(matches!(registry.join(id, false), JoinStep::Wait));
    assert_eq!(outcome(&registry, id), Some((RunStatus::Running, None, None)));
    registry.finish(id, RunStatus::Finished, None, None);
    assert!(matches!(registry.join(id, false), JoinStep::Done(Some((RunStatus::Finished, _, _)))));
    assert!(matches!(registry.join(id + 1, false), JoinStep::Done(None)));
}

#[test]
fn spawning_a_missing_or_non_lua_script_fails() {
    assert_eq!(script_path(b"/srv", "/jobs/a.lua"), b"/srv/jobs/a.lua");
    assert_eq!(
        resolve_script(b"/srv", "x.lua", Err("gone".to_string()), false),
        Err("thread script 'x.lua': not found: gone".to_string())
    );
    assert_eq!(
        resolve_script(b"/srv", "x.lua", Ok(b"/etc/x.lua".to_vec()), true),
        Err("thread script 'x.lua': escapes the serve directory".to_string())
    );
    assert_eq!(
        resolve_script(b"/srv", "p.lhtml", Ok(b"/srv/p.lhtml".to_vec()), true),
        Err("thread script 'p.lhtml': must be a .lua file".to_string())
    );
    assert_eq!(
        resolve_script(b"/srv", "x.lua", Ok(b"/srv/x.lua".to_vec()), true),
        Ok(b"/srv/x.lua".to_vec())
    );
    // A directory of that name is no script.
    assert_eq!(
        resolve_script(b"/srv", "x.lua", Ok(b"/srv/x.lua".to_vec()), false),
        Err("thread script 'x.lua': must be a .lua file".to_string())
    );
    let mut registry = ThreadRegistry::new();
    let gone = Err("gone".to_string());
    let missing = spawn_named(&mut registry, b"/srv", "w", "x.lua", gone, false, &None);
    assert!(missing.is_err());
    let dir = Ok(b"/srv/x.lua".to_vec());
    assert!(spawn_named(&mut registry, b"/srv", "w", "x.lua", dir, false, &None).is_err());
    assert!(!registry.is_running("w"));
}

#[test]
fn names_and_arguments_are_bounded() {
    let mut registry = ThreadRegistry::new();
    for name in ["", &"x".repeat(65), &"é".repeat(33)] {
        assert_eq!(
            spawn(&mut registry, name, None).err().unwrap(),
            "thread name must be 1..=64 characters"
        );
    }
    assert!(spawn(&mut registry, &"x".repeat(64), None).is_ok());
    let args = "x".repeat(1_048_577);
    assert_eq!(
        spawn(&mut registry, "w", Some(&args)).err().unwrap(),
        "thread args are 1048577 bytes, over the 1048576 byte limit"
    );
    assert!(spawn(&mut registry, "w", Some(&args[1..])).is_ok());
}

#[test]
fn a_thread_cannot_join_itself() {
    let own = CurrentRun { id: Some(5) };
    assert_eq!(current_run_id(&own), Some(5));
    assert_eq!(join_refusal(&own, 5), Some("thread.join: a thread cannot join itself"));
    assert_eq!(join_refusal(&own, 6), None);
    assert_eq!(join_refusal(&CurrentRun { id: None }, 5), None);
    assert_eq!((run_id_of(-3), run_id_of(8)), (0, 8));
}

#[test]
fn a_failed_thread_reports_its_error() {
    let (status, result, error) = run_outcome(Err("boom".to_string()), false);
    assert_eq!(status.as_str(), "failed");
    assert!(matches!(join_value(status, result, error), JoinValue::Error(e) if e == "boom"));
    let (status, result, error) = run_outcome(Err("x".to_string()), true);
    assert_eq!((status.as_str(), result, error), ("cancelled", None, None));
    let (status, result, error) = run_outcome(Ok(Some("[1]".to_string())), true);
    assert_eq!(status.as_str(), "finished");
    assert!(matches!(join_value(status, result, error), JoinValue::Json(j) if j == "[1]"));
    let cancelled = join_value(RunStatus::Cancelled, None, Some("x".to_string()));
    assert!(matches!(cancelled, JoinValue::Nothing));
    assert!(matches!(join_value(RunStatus::Finished, None, None), JoinValue::Nothing));
    assert_eq!(RunStatus::Running.as_str(), "running");
}

#[test]
fn sleep_resets_the_execution_deadline() {
    assert_eq!(next_deadline(1_000, Some(500)), Some(1_500));
    assert_eq!(next_deadline(1_000, None), None);
    assert_eq!(hook_error(false, Some(1_500), 1_499), None);
    assert_eq!(
        hook_error(false, Some(1_500), 1_500),
        Some("thread ran too long without sleeping (execution time limit)")
    );
    assert_eq!(hook_error(true, None, 0), Some("thread was killed"));
    assert_eq!(hook_error(false, None, u64::MAX), None);
}

#[test]
fn killing_a_sleeping_thread_does_not_wait_out_the_nap() {
    assert_eq!(sleep_step(0, 60_000_000, false), SleepStep::Nap(100_000));
    assert_eq!(sleep_step(100_000, 60_000_000, true), SleepStep::Killed);
    assert_eq!(sleep_step(59_990_000, 60_000_000, false), SleepStep::Nap(10_000));
    assert_eq!(sleep_step(60_000_000, 60_000_000, false), SleepStep::Awake);
}

#[test]
fn ids_of_forgotten_runs_do_not_come_back() {
    let mut registry = ThreadRegistry::new();
    let mut last = 0;
    for _ in 0..2 * MAX_FINISHED_RUNS {
        assert!(!registry.exhausted());
        let (id, spawned) = registry.claim("w").unwrap();
        assert!(spawned && id > last);
        assert_eq!(registry.status(id), Some(RunStatus::Running));
        registry.finish(id, RunStatus::Finished, None, None);
        last = id;
    }
    assert_eq!(registry.status(1), None);
}
