use red_crescent::crypto_api::{
    accepted, constant_time_equals, hex_encode, password_hash, password_verify, random_token,
    sha256, token_from,
};
use red_crescent::fs_api;
use red_crescent::fs_api::Standing;
use red_crescent::listen::{activation, classify_socket, Activation, Family, Listener};
use red_crescent::lua_runtime::{block_output, keys_to_remove, process_lhtml, split_blocks};
use red_crescent::path;
use red_crescent::process_api::{
    capture, next_wait, poll, process_result, split_argv, Exit, Poll, MAX_CAPTURE,
};
use red_crescent::sqlite_api::{
    bind_params, checkin_next, checkin_start, db_location, param_count, resolve_db_path,
    sql_value_to_lua, CheckinStep, IdlePool, LuaParam, LuaResult, ParentDir, SqlValue,
};
use red_crescent::text;
use red_crescent::watchdog::Slot;

#[test]
fn crypto_primitives_work() {
    assert_eq!(
        sha256(b"abc"),
        "ba7816bf8f01cfea414140de5dae2223b00361a396177a9cb410ff61f20015ad"
    );
    assert!(constant_time_equals(b"same", b"same"));
    assert!(!constant_time_equals(b"same", b"sama"));
    assert!(!constant_time_equals(b"same", b"samer"));
    let token = random_token(None).unwrap();
    assert_eq!(token.len(), 64);
    assert!(token.chars().all(|c| c.is_ascii_hexdigit()));
    assert_ne!(token, random_token(None).unwrap());
    assert_eq!(random_token(Some(4)).unwrap().len(), 8);
    for n in [0, 1025] {
        assert_eq!(
            random_token(Some(n)),
            Err("random_token: byte count must be 1..=1024".to_string())
        );
    }
    assert_eq!(random_token(Some(1024)).unwrap().len(), 2048);
}

#[test]
fn passwords_verify_against_their_hash() {
    let hash = password_hash("hunter2").unwrap();
    assert!(hash.starts_with("$argon2id$"), "{hash}");
    assert_ne!(hash, password_hash("hunter2").unwrap(), "salted");
    assert!(password_verify("hunter2", &hash));
    assert!(!password_verify("hunter3", &hash));
    assert!(!password_verify("hunter2", "not a hash"));
    assert!(!accepted(None));
}

#[test]
fn tokens_are_hexadecimal() {
    assert_eq!(hex_encode(&[0x00, 0x9f, 0xff]), "009fff");
    assert_eq!(token_from(Ok(vec![0xab])), Ok("ab".to_string()));
    assert_eq!(
        token_from(Err("no entropy".to_string())),
        Err("random_token failed: no entropy".to_string())
    );
}

#[test]
fn fs_paths_are_confined() {
    let data = b"/data";
    let nothing = Vec::new();
    assert_eq!(fs_api::resolve(data, "a/b.txt", &nothing), Ok(b"/data/a/b.txt".to_vec()));
    assert_eq!(fs_api::resolve(data, "/data/a", &nothing), Ok(b"/data/a".to_vec()));
    assert_eq!(
        fs_api::resolve(data, "/etc/passwd", &nothing),
        Err("fs: path is outside the data directory: /etc/passwd".to_string())
    );
    assert_eq!(
        fs_api::resolve(data, "a/../../x", &nothing),
        Err("fs: path must stay inside the data directory: a/../../x".to_string())
    );
    assert_eq!(
        fs_api::places_to_check(data, "/etc/passwd"),
        Err("fs: path is outside the data directory: /etc/passwd".to_string())
    );
    assert_eq!(
        fs_api::resolve(b"/", "/", &nothing),
        Err("fs: path has no parent".to_string())
    );
    assert_eq!(
        fs_api::places_to_check(b"/", "/"),
        Err("fs: path has no parent".to_string())
    );
    assert_eq!(fs_api::link_error(b"/a", b"/b", "no"), "fs.link: /a -> /b: no");
    assert_eq!(fs_api::mkdir_error(b"/a", "no"), "fs.mkdir: /a: no");
}

#[test]
fn fs_looks_at_every_directory_on_the_way() {
    let places = |shown| fs_api::places_to_check(b"/srv/data", shown).unwrap();
    assert_eq!(
        places("link/x/y"),
        [
            b"/srv/data/link/x/y".to_vec(),
            b"/srv/data/link/x".to_vec(),
            b"/srv/data/link".to_vec(),
            b"/srv/data".to_vec(),
        ]
    );
    assert_eq!(places("a"), [b"/srv/data/a".to_vec(), b"/srv/data".to_vec()]);
    // The data directory itself is not inside it.
    assert_eq!(places("/srv/data")[1], b"/srv".to_vec());
}

#[test]
fn no_symlink_leads_fs_outside() {
    let data = b"/data";
    let real = |p: &[u8]| Standing::Real(p.to_vec());
    let escapes = |shown: &str, standing: Vec<Standing>| {
        let r = fs_api::resolve(data, shown, &standing);
        if let Err(e) = &r {
            assert_eq!(*e, format!("fs: path escapes the data directory: {shown}"));
        }
        r.is_err()
    };
    // The parent does not exist yet, and the directory above it is a link out.
    assert!(escapes(
        "link/x/y",
        vec![Standing::Nothing, Standing::Nothing, real(b"/etc"), real(b"/data")]
    ));
    assert!(!escapes(
        "dir/x/y",
        vec![Standing::Nothing, Standing::Nothing, real(b"/data/dir"), real(b"/data")]
    ));
    assert!(!escapes(
        "link/y",
        vec![Standing::Nothing, real(b"/data/elsewhere"), real(b"/data")]
    ));
    assert!(escapes("a/b", vec![Standing::Nothing, real(b"/etc"), real(b"/data")]));
    // The path itself is a link out, or one to what is not there yet.
    assert!(escapes("a", vec![real(b"/etc/a"), real(b"/data")]));
    let dangling = |p: &[u8]| Standing::Dangling(p.to_vec());
    assert!(escapes("a", vec![dangling(b"/etc/new"), real(b"/data")]));
    assert!(!escapes("a", vec![dangling(b"/data/new"), real(b"/data")]));
    assert!(escapes("a/b", vec![Standing::Nothing, dangling(b"/etc/new"), real(b"/data")]));
    assert!(!escapes("a/b", vec![Standing::Nothing, dangling(b"/data/new"), real(b"/data")]));
    assert!(!escapes("a", vec![real(b"/data/a"), real(b"/data")]));
    // The data directory itself.
    assert!(escapes("", vec![real(b"/data"), real(b"/")]));
}

#[test]
fn database_paths_are_confined() {
    let data = b"/data";
    let refused = "sqlite.open: path must be relative and inside the data directory: ";
    for rel in ["/etc/x.db", "../x.db", "a/../x.db"] {
        assert_eq!(db_location(data, rel), Err(format!("{refused}{rel}")));
    }
    assert_eq!(db_location(data, "a/x.db"), Ok(b"/data/a/x.db".to_vec()));
    let at = |p: ParentDir| resolve_db_path(data, "a/x.db", p);
    assert_eq!(at(ParentDir::Real(b"/data/a".to_vec())), Ok(b"/data/a/x.db".to_vec()));
    assert_eq!(
        at(ParentDir::Real(b"/tmp".to_vec())),
        Err("sqlite.open: path escapes the data directory: a/x.db".to_string())
    );
    assert_eq!(
        at(ParentDir::NotCreated("full".to_string())),
        Err("sqlite.open: cannot create parent directory: full".to_string())
    );
    assert_eq!(at(ParentDir::NotResolved("loop".to_string())), Err("loop".to_string()));
}

#[test]
fn sqlite_reuse_can_be_turned_off() {
    let mut pool: IdlePool<u32> = IdlePool::new();
    assert_eq!(checkin_start(0, false), CheckinStep::Discard);
    assert_eq!(pool.checkin(b"/data/x.db", 1, 0), Some(1));
    assert_eq!(pool.checkout(b"/data/x.db"), None);
}

#[test]
fn connections_are_parked_per_database() {
    let mut pool: IdlePool<u32> = IdlePool::new();
    assert_eq!(pool.checkin(b"x", 1, 2), None);
    assert_eq!(pool.checkin(b"x", 2, 2), None);
    assert_eq!(pool.checkin(b"x", 3, 2), Some(3));
    assert_eq!(pool.checkin(b"y", 9, 2), None);
    assert_eq!(pool.checkout(b"x"), Some(2));
    assert_eq!(pool.checkout(b"x"), Some(1));
    assert_eq!(pool.checkout(b"x"), None);
    assert_eq!(pool.checkout(b"y"), Some(9));
}

#[test]
fn an_aborted_transaction_does_not_poison_a_reused_connection() {
    let mut step = checkin_start(2, true);
    assert_eq!(step, CheckinStep::Rollback);
    step = checkin_next(step, true, 0);
    assert_eq!(step, CheckinStep::CountTemporary);
    step = checkin_next(step, true, 0);
    assert_eq!(step, CheckinStep::ResetForeignKeys);
    assert_eq!(checkin_next(step, true, 0), CheckinStep::Park);
    assert_eq!(checkin_next(CheckinStep::Rollback, false, 0), CheckinStep::Discard);
    assert_eq!(checkin_next(CheckinStep::CountTemporary, true, 1), CheckinStep::Discard);
    assert_eq!(checkin_next(CheckinStep::ResetForeignKeys, false, 0), CheckinStep::Discard);
}

#[test]
fn sqlite_values_round_trip() {
    let params = vec![
        LuaParam::Nil,
        LuaParam::Null,
        LuaParam::Boolean(true),
        LuaParam::Integer(-3),
        LuaParam::Number(1.5f64.to_bits()),
        LuaParam::Str("é".as_bytes().to_vec()),
        LuaParam::Str(vec![0xff, 0x00]),
    ];
    let values = bind_params(&params).ok().unwrap();
    assert!(matches!(&values[0], SqlValue::Null));
    assert!(matches!(&values[1], SqlValue::Null));
    assert!(matches!(&values[2], SqlValue::Integer(1)));
    assert!(matches!(&values[4], SqlValue::Real(b) if f64::from_bits(*b) == 1.5));
    assert!(matches!(&values[5], SqlValue::Text(t) if t == "é"));
    assert!(matches!(&values[6], SqlValue::Blob(b) if *b == [0xff, 0x00]));
    let mut back = Vec::new();
    for v in values {
        back.push(sql_value_to_lua(v));
    }
    assert!(matches!(&back[3], LuaResult::Integer(-3)));
    assert!(matches!(&back[5], LuaResult::Str(s) if s == "é".as_bytes()));
    assert!(matches!(&back[6], LuaResult::Str(s) if *s == [0xff, 0x00]));
    let bad = vec![LuaParam::Nil, LuaParam::Other("table".to_string())];
    assert_eq!(
        bind_params(&bad).err().unwrap(),
        "unsupported sqlite parameter type: table"
    );
    assert_eq!((param_count(Some(3), 1), param_count(Some(-1), 2), param_count(None, 4)), (3, 2, 4));
}

#[test]
fn captured_output_is_bounded() {
    let mut kept = Vec::new();
    capture(&mut kept, b"abc");
    capture(&mut kept, b"de");
    assert_eq!(kept, b"abcde");
    let mut full = vec![0u8; MAX_CAPTURE - 1];
    capture(&mut full, b"xyz");
    assert_eq!((full.len(), full[MAX_CAPTURE - 1]), (MAX_CAPTURE, b'x'));
    capture(&mut full, b"more");
    assert_eq!(full.len(), MAX_CAPTURE);
}

#[test]
fn programs_are_run_without_a_shell() {
    let words = |w: &[&str]| w.iter().map(|s| s.to_string()).collect::<Vec<String>>();
    let command = split_argv(words(&["ls", "-l", "a b"])).ok().unwrap();
    assert_eq!(command.program, "ls");
    assert_eq!(command.args, ["-l", "a b"]);
    assert_eq!(split_argv(vec![]).err().unwrap(), "process.run: needs a program to run");
    assert_eq!(poll(true, 9, 5, 1), Poll::Exited);
    assert_eq!(poll(false, 5, 5, 1), Poll::Kill);
    assert_eq!(poll(false, 4, 5, 1), Poll::Sleep(1));
    assert_eq!((next_wait(50), next_wait(2_499), next_wait(2_500), next_wait(u64::MAX)),
        (100, 4_998, 5_000, 5_000));
    let r = process_result("nope", Exit::NotStarted("gone".to_string()), b"", b"");
    assert_eq!((r.ok, r.started, r.error.as_deref()), (false, false, Some("nope: gone")));
    let r = process_result("x", Exit::TimedOut, b"out\xff", b"err");
    assert!(r.timed_out && r.started && !r.ok && r.code.is_none());
    assert_eq!((r.stdout.as_str(), r.stderr.as_str()), ("out\u{fffd}", "err"));
    let r = process_result("x", Exit::Done { success: false, code: Some(3) }, b"", b"");
    assert_eq!((r.ok, r.code), (false, Some(3)));
}

#[test]
fn sockets_are_inherited_only_when_meant_for_us() {
    assert!(matches!(activation(None, Some("1"), 7), Activation::NotActivated));
    assert!(matches!(activation(Some("8"), Some("1"), 7), Activation::NotActivated));
    assert!(matches!(activation(Some("7"), Some("1"), 7), Activation::Inherited));
    for (fds, n) in [(Some("2"), "2"), (Some("x"), "0"), (None, "0")] {
        match activation(Some("7"), fds, 7) {
            Activation::Refused(e) => assert_eq!(
                e,
                format!("systemd passed {n} sockets; exactly one ListenStream= is supported")
            ),
            _ => panic!("not refused"),
        }
    }
    assert_eq!(classify_socket(true, true, Family::Inet), Ok(Listener::Tcp));
    assert_eq!(classify_socket(true, true, Family::Unix), Ok(Listener::Unix));
    assert_eq!(
        classify_socket(true, true, Family::Other(16)),
        Err("inherited socket has unsupported family 16".to_string())
    );
    assert!(classify_socket(false, true, Family::Inet).unwrap_err().contains("ListenStream="));
    assert!(classify_socket(true, false, Family::Inet).unwrap_err().contains("Accept=no"));
}

#[test]
fn deadlines_belong_to_one_request() {
    let mut slot = Slot::new();
    assert!(slot.tick(1_000).is_none(), "idle");
    slot.claim(100, 50, 7, 9);
    assert!(slot.tick(149).is_none());
    assert!(!slot.should_abort());
    let seen = slot.tick(150).unwrap();
    assert_eq!(seen.thread, Some(9));
    assert!(slot.should_abort() && slot.should_abort());
    assert!(slot.interrupted);
    slot.release();
    slot.settle(seen);
    assert!(!slot.expired);
    slot.claim(200, 50, 7, 9);
    assert!(!slot.expired && !slot.interrupted);
    slot.settle(seen);
    assert!(!slot.should_abort());
    slot.claim(0, 0, 1, 1);
    assert_eq!(slot.deadline, 1);
    slot.claim(1, u64::MAX, 1, 1);
    assert_eq!(slot.deadline, u64::MAX);
}

#[test]
fn bare_templates_are_split_and_put_together() {
    let split = split_blocks("a<?lua x ?>b<?lua?>c<?lua open");
    let blocks: Vec<(&str, &str)> =
        split.blocks.iter().map(|(h, c)| (h.as_str(), c.as_str())).collect();
    assert_eq!(blocks, [("a", " x "), ("b", "")]);
    assert_eq!(split.tail, "c<?lua open");
    let outputs = vec!["1".to_string(), block_output("p".to_string(), Some("r".to_string()))];
    assert_eq!(process_lhtml(&split, &outputs), "a1bprc<?lua open");
    assert_eq!(block_output("p".to_string(), None), "p");
    let names = |w: &[&str]| w.iter().map(|s| s.to_string()).collect::<Vec<String>>();
    assert_eq!(
        keys_to_remove(&names(&["print", "x", "string", "y"]), &names(&["string", "print"])),
        ["x", "y"]
    );
}

#[test]
fn paths_are_taken_apart() {
    assert!(path::starts_with(b"/srv/a", b"/srv"));
    assert!(!path::starts_with(b"/srv2/a", b"/srv"));
    assert_eq!(path::strip_prefix(b"/srv/a/b", b"/srv"), Some(b"a/b".to_vec()));
    assert_eq!(path::strip_prefix(b"/x", b"/srv"), None);
    assert_eq!(path::parent(b"/srv/a"), Some(b"/srv".to_vec()));
    assert_eq!(path::parent(b"/"), None);
    assert_eq!(path::join(b"/srv", b"a"), b"/srv/a");
    assert_eq!(path::join(b"/srv/", b"a"), b"/srv/a");
    assert_eq!(path::join(b"/srv", b"/etc"), b"/etc");
    assert!(path::is_all_normal(b"a/b"));
    assert!(!path::is_all_normal(b"a/../b"));
    assert!(path::is_hidden(b"a/.b"));
    assert!(!path::is_hidden(b"a/b."));
    assert!(path::is_lua(b"/a/X.Lua"));
    assert!(!path::is_lua(b"/a/.lua"));
    assert!(path::is_lhtml(b"a.lhtml"));
    assert_eq!(path::lexical(b"/srv//a/./b/"), Some(b"/srv/a/b".to_vec()));
    assert_eq!(path::lexical(b"/srv/../a"), None);
    assert!(path::beneath(b"/srv/a", b"/srv"));
    assert!(!path::beneath(b"/srv-x/a", b"/srv"));
    assert!(!path::beneath(b"/a", b"/srv"));
    assert!(path::beneath(b"/a", b"/"));
    assert!(path::beneath(b"/srv", b"/srv"));
    assert!(path::beneath(b"/", b"/"));
    assert!(!path::beneath(b"/sr", b"/srv"));
}

#[test]
fn numbers_are_read_and_written() {
    assert_eq!(text::decimal_of(u64::MAX), "18446744073709551615");
    assert_eq!(text::signed_decimal_of(i64::MIN), "-9223372036854775808");
    assert_eq!(text::parse_unsigned("0042", 100), Some(42));
    assert_eq!(text::parse_unsigned("101", 100), None);
    assert_eq!(text::parse_unsigned("", 100), None);
    assert_eq!(text::parse_signed("-7"), Some(-7));
    assert_eq!(text::parse_signed("7x"), None);
    assert_eq!(text::trim(" \t\u{3000}x y\u{85} "), "x y");
}
