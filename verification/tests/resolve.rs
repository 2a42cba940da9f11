use red_crescent::resolve::{
    canonical_target, fast, may_try_fast, resolve_canonical, target, Fast, OpenError, Probe,
    Resolved,
};

const ROOT: &[u8] = b"/srv/site";

/// What is on disk: `sub/index.lhtml`, `a.txt`, `link.txt -> a.txt`, `etc -> /etc`.
/// Opening without following symlinks.
fn probe(path: &[u8]) -> Probe {
    let path = std::str::from_utf8(path).unwrap();
    let mut clean = String::new();
    for part in path.split('/').filter(|p| !p.is_empty() && *p != ".") {
        clean.push('/');
        clean.push_str(part);
    }
    let slash = path.ends_with('/');
    match clean.as_str() {
        "/srv/site" | "/srv/site/sub" => Probe::Directory,
        "/srv/site/a.txt" if slash => Probe::Failed(OpenError::NotADirectory),
        "/srv/site/a.txt" | "/srv/site/sub/index.lhtml" => Probe::RegularFile,
        "/etc/passwd" => Probe::RegularFile,
        p if p.starts_with("/srv/site/a.txt/") => Probe::Failed(OpenError::NotADirectory),
        p if p.starts_with("/srv/site/link.txt") || p.starts_with("/srv/site/etc") => {
            Probe::Failed(OpenError::Other)
        }
        _ => Probe::Failed(OpenError::NoEntry),
    }
}

fn is_dir(path: &[u8]) -> bool {
    probe(path) == Probe::Directory
}

fn canonicalize(path: &[u8]) -> Option<Vec<u8>> {
    match path {
        b"/srv/site/link.txt" => Some(b"/srv/site/a.txt".to_vec()),
        b"/srv/site/etc/passwd" => Some(b"/etc/passwd".to_vec()),
        b"/etc/passwd" => Some(b"/etc/passwd".to_vec()),
        _ => match probe(path) {
            Probe::RegularFile | Probe::Directory => Some(path.to_vec()),
            _ => None,
        },
    }
}

/// The outcome, and whether the fast way gave it.
fn resolve(rel: &str, index: Option<&str>) -> (Resolved, bool) {
    let whole = target(ROOT, rel);
    if may_try_fast(&whole) {
        let mut at = whole.clone();
        let mut index_left = index;
        loop {
            match fast(ROOT, &at, index_left, probe(&at)) {
                Fast::Found(p) => return (Resolved::Found(p), true),
                Fast::Missing => return (Resolved::Missing, true),
                Fast::OpenIndex(p) => {
                    at = p;
                    index_left = None;
                }
                Fast::Slow | Fast::Unavailable => break,
            }
        }
    }
    let dir = is_dir(&whole);
    (resolve_canonical(ROOT, canonicalize(&canonical_target(whole, index, dir))), false)
}

fn found(r: (Resolved, bool)) -> (String, bool) {
    match r.0 {
        Resolved::Found(p) => (String::from_utf8(p).unwrap(), r.1),
        Resolved::Missing => panic!("missing"),
        Resolved::Escaped(p) => panic!("escaped to {p:?}"),
    }
}

/// The slow path gives the same answers, so it would hide a fast path that
/// silently stopped working.
#[test]
fn plain_paths_take_the_fast_path_on_linux() {
    let index = Some("index.lhtml");
    assert_eq!(found(resolve("a.txt", index)), ("/srv/site/a.txt".to_string(), true));
    assert_eq!(found(resolve("./a.txt", index)), ("/srv/site/a.txt".to_string(), true));
    assert_eq!(found(resolve("sub//", index)), ("/srv/site/sub/index.lhtml".to_string(), true));
}

#[test]
fn symlinks_resolve_to_their_canonical_target() {
    assert_eq!(found(resolve("link.txt", None)), ("/srv/site/a.txt".to_string(), false));
    assert!(matches!(resolve("etc/passwd", None).0, Resolved::Escaped(_)));
}

#[test]
fn an_absolute_index_cannot_leave_the_root() {
    assert!(matches!(resolve("sub", Some("/etc/passwd")).0, Resolved::Escaped(_)));
}

#[test]
fn missing_paths_and_files_used_as_directories_are_missing() {
    for rel in ["nope", "sub/nope", "a.txt/", "a.txt/x", ""] {
        assert!(matches!(resolve(rel, Some("index.lhtml")).0, Resolved::Missing), "rel: {rel}");
    }
}

#[test]
fn without_an_index_a_directory_is_found_as_itself() {
    assert_eq!(found(resolve("sub", None)).0, "/srv/site/sub");
}

#[test]
fn parent_segments_are_left_to_the_slow_way() {
    assert!(!may_try_fast(b"/srv/site/sub/../a.txt"));
    assert!(matches!(
        fast(ROOT, b"/srv/site/../x", None, Probe::RegularFile),
        Fast::Slow
    ));
}

#[test]
fn a_refused_call_turns_the_fast_way_off() {
    let failed = Probe::Failed(OpenError::Unsupported);
    assert!(matches!(fast(ROOT, b"/srv/site/a.txt", None, failed), Fast::Unavailable));
    assert!(matches!(fast(ROOT, b"/srv/site/a.txt", None, Probe::Other), Fast::Slow));
}
