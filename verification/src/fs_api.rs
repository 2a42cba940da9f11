//! The `fs` module of templates: the few filesystem operations Lua lacks, confined
//! to the data directory.

use vstd::prelude::*;
use vstd::utf8::*;
use crate::path;
use crate::path::PathBytes;
use crate::text;

verus! {

/// The place inside the data directory that a path names, or why it names none.
pub open spec fn located(data_dir: Seq<u8>, shown: Seq<char>) -> Result<Seq<u8>, Seq<char>> {
    let p = encode_utf8(shown);
    if path::absolute(p) && path::stripped(p, data_dir) is None {
        Err("fs: path is outside the data directory: "@ + shown)
    } else {
        let rel = if path::absolute(p) {
            path::stripped(p, data_dir)->0
        } else {
            p
        };
        if !path::all_normal(rel) {
            Err("fs: path must stay inside the data directory: "@ + shown)
        } else {
            Ok(path::joined(data_dir, rel))
        }
    }
}

fn locate(data_dir: &[u8], shown: &str) -> (r: Result<PathBytes, String>)
    ensures
        match located(data_dir@, shown@) {
            Ok(p) => r is Ok && r->Ok_0@ == p,
            Err(e) => r is Err && r->Err_0@ == e,
        },
{
    let given = shown.as_bytes();
    let rel = if path::is_absolute(given) {
        match path::strip_prefix(given, data_dir) {
            Some(rel) => rel,
            None => {
                return Err(text::join2("fs: path is outside the data directory: ", shown));
            },
        }
    } else {
        path::bytes_copy(given)
    };
    if !path::is_all_normal(rel.as_slice()) {
        return Err(text::join2("fs: path must stay inside the data directory: ", shown));
    }
    Ok(path::join(data_dir, rel.as_slice()))
}

/// The parent of a path is shorter than the path.
pub proof fn lemma_parent_is_shorter(p: Seq<u8>)
    ensures
        path::parent_of(p) matches Some(q) ==> q.len() < p.len(),
{
    path::lemma_spans_bounds(p);
    let s = path::spans(p);
    if s.len() >= 2 {
        assert(s[s.len() - 2].1 <= s[s.len() - 1].0 < s[s.len() - 1].1 <= p.len());
    } else if s.len() == 1 {
        assert(s[0].1 <= p.len());
    }
}

/// The directories above `p` that lie within the data directory, nearest first,
/// down to the data directory itself.
pub open spec fn ancestors(p: Seq<u8>, data_dir: Seq<u8>) -> Seq<Seq<u8>>
    decreases p.len(),
{
    proof {
        lemma_parent_is_shorter(p);
    }
    match path::parent_of(p) {
        Some(q) => if path::within(q, data_dir) {
            seq![q] + ancestors(q, data_dir)
        } else {
            Seq::empty()
        },
        None => Seq::empty(),
    }
}

/// The places that decide where `full` leads: itself, its parent, and the parent's
/// ancestors down to the data directory.
pub open spec fn places(full: Seq<u8>, data_dir: Seq<u8>) -> Seq<Seq<u8>> {
    let parent = path::parent_of(full)->0;
    seq![full, parent] + ancestors(parent, data_dir)
}

pub open spec fn path_views(paths: Seq<PathBytes>) -> Seq<Seq<u8>> {
    paths.map_values(|p: PathBytes| p@)
}

/// The places to look at before [`resolve`] can say where a path leads, or why
/// there are none.
pub fn places_to_check(data_dir: &[u8], shown: &str) -> (r: Result<Vec<PathBytes>, String>)
    ensures
        match located(data_dir@, shown@) {
            Err(e) => r is Err && r->Err_0@ == e,
            Ok(full) => if path::parent_of(full) is None {
                r is Err && r->Err_0@ == "fs: path has no parent"@
            } else {
                r is Ok && path_views(r->Ok_0@) == places(full, data_dir@)
            },
        },
{
    let full = match locate(data_dir, shown) {
        Ok(full) => full,
        Err(e) => {
            return Err(e);
        },
    };
    let ghost whole = full@;
    let mut at = match path::parent(full.as_slice()) {
        Some(dir) => dir,
        None => {
            return Err("fs: path has no parent".to_string());
        },
    };
    let mut out: Vec<PathBytes> = Vec::new();
    out.push(full);
    out.push(path::bytes_copy(at.as_slice()));
    assert(path_views(out@) =~= seq![whole, at@]);
    loop
        invariant
            located(data_dir@, shown@) == Ok::<Seq<u8>, Seq<char>>(whole),
            path::parent_of(whole) is Some,
            path_views(out@) + ancestors(at@, data_dir@) == places(whole, data_dir@),
        decreases at@.len(),
    {
        proof {
            lemma_parent_is_shorter(at@);
        }
        let ghost before = path_views(out@);
        let ghost rest = ancestors(at@, data_dir@);
        match path::parent(at.as_slice()) {
            Some(dir) => {
                if !path::starts_with(dir.as_slice(), data_dir) {
                    assert(path_views(out@) =~= before + rest);
                    return Ok(out);
                }
                out.push(path::bytes_copy(dir.as_slice()));
                assert(path_views(out@) =~= before.push(dir@));
                assert(before.push(dir@) + ancestors(dir@, data_dir@) =~= before + rest);
                at = dir;
            },
            None => {
                assert(path_views(out@) =~= before + rest);
                return Ok(out);
            },
        }
    }
}

/// What stands at a place.
pub enum Standing {
    Nothing,
    /// An entry, and the canonical path it leads to.
    Real(PathBytes),
    /// A link to what is not there yet, and the canonical path at which it would be
    /// made.
    Dangling(PathBytes),
}

/// Following what stands there may leave the data directory.
pub open spec fn leads_out(s: Standing, data_dir: Seq<u8>) -> bool {
    match s {
        Standing::Nothing => false,
        Standing::Real(p) => !path::within(p@, data_dir),
        Standing::Dangling(p) => !path::within(p@, data_dir),
    }
}

/// The first place at which something stands.
pub open spec fn nearest(places: Seq<Standing>) -> Standing
    decreases places.len(),
{
    if places.len() == 0 {
        Standing::Nothing
    } else if places[0] is Nothing {
        nearest(places.drop_first())
    } else {
        places[0]
    }
}

/// A symlink points the result outside: the path itself leads out, or the nearest
/// directory above it that exists does.
pub open spec fn escapes(standing: Seq<Standing>, data_dir: Seq<u8>) -> bool {
    standing.len() > 0 && (leads_out(standing[0], data_dir) || leads_out(
        nearest(standing.drop_first()),
        data_dir,
    ))
}

fn is_out(s: &Standing, data_dir: &[u8]) -> (r: bool)
    ensures
        r == leads_out(*s, data_dir@),
{
    match s {
        Standing::Nothing => false,
        Standing::Real(p) => !path::starts_with(p.as_slice(), data_dir),
        Standing::Dangling(p) => !path::starts_with(p.as_slice(), data_dir),
    }
}

fn points_outside(standing: &Vec<Standing>, data_dir: &[u8]) -> (r: bool)
    ensures
        r == escapes(standing@, data_dir@),
{
    if standing.len() == 0 {
        return false;
    }
    if is_out(&standing[0], data_dir) {
        return true;
    }
    let mut i: usize = 1;
    assert(standing@.skip(1) =~= standing@.drop_first());
    while i < standing.len()
        invariant
            1 <= i <= standing@.len(),
            nearest(standing@.skip(i as int)) == nearest(standing@.drop_first()),
            !leads_out(standing@[0], data_dir@),
        decreases standing@.len() - i,
    {
        assert(standing@.skip(i as int)[0] == standing@[i as int]);
        match &standing[i] {
            Standing::Nothing => {},
            found => {
                return is_out(found, data_dir);
            },
        }
        assert(standing@.skip(i as int).drop_first() =~= standing@.skip(i + 1));
        i = i + 1;
    }
    assert(standing@.skip(i as int) =~= Seq::empty());
    false
}

/// Where a path leads inside the data directory, or an error. `standing` is what
/// stands at each of [`places_to_check`], in order. A directory that does not exist
/// yet has no canonical form, so the nearest one above it that does exist is what
/// must lie inside; a symlink cannot point the result outside.
pub fn resolve(data_dir: &[u8], shown: &str, standing: &Vec<Standing>) -> (r: Result<
    PathBytes,
    String,
>)
    ensures
        match located(data_dir@, shown@) {
            Err(e) => r is Err && r->Err_0@ == e,
            Ok(full) => if path::parent_of(full) is None {
                r is Err && r->Err_0@ == "fs: path has no parent"@
            } else if escapes(standing@, data_dir@) {
                r is Err && r->Err_0@ == "fs: path escapes the data directory: "@ + shown@
            } else {
                r is Ok && r->Ok_0@ == full
            },
        },
        r is Ok && path::absolute(data_dir@) ==> path::within(r->Ok_0@, data_dir@),
{
    let full = match locate(data_dir, shown) {
        Ok(full) => full,
        Err(e) => {
            return Err(e);
        },
    };
    if path::parent(full.as_slice()).is_none() {
        return Err("fs: path has no parent".to_string());
    }
    if points_outside(standing, data_dir) {
        return Err(text::join2("fs: path escapes the data directory: ", shown));
    }
    proof {
        if path::absolute(data_dir@) {
            law_located_paths_stay_inside(data_dir@, shown@);
        }
    }
    Ok(full)
}

/// Confinement: a path that is located at all lies within the data directory.
pub proof fn law_located_paths_stay_inside(data_dir: Seq<u8>, shown: Seq<char>)
    requires
        path::absolute(data_dir),
        located(data_dir, shown) is Ok,
    ensures
        path::within(located(data_dir, shown)->Ok_0, data_dir),
{
    let p = encode_utf8(shown);
    let rel = if path::absolute(p) {
        path::stripped(p, data_dir)->0
    } else {
        p
    };
    path::law_normal_paths_stay_within(data_dir, rel);
}

/// The places that are looked at lead up to the data directory and not past it, so
/// that no directory on the way is left out.
pub proof fn law_places_reach_the_data_dir(p: Seq<u8>, data_dir: Seq<u8>)
    requires
        path::absolute(data_dir),
        path::within(p, data_dir),
    ensures
        forall|k: int|
            0 <= k < ancestors(p, data_dir).len() ==> path::within(
                #[trigger] ancestors(p, data_dir)[k],
                data_dir,
            ),
        path::components((seq![p] + ancestors(p, data_dir)).last()) == path::components(data_dir),
    decreases p.len(),
{
    let rest = ancestors(p, data_dir);
    let own = path::components(p);
    let base = path::components(data_dir);
    lemma_parent_is_shorter(p);
    path::law_parent_drops_the_last(p);
    path::lemma_absolute_has_root(data_dir);
    match path::parent_of(p) {
        Some(q) => {
            if path::within(q, data_dir) {
                law_places_reach_the_data_dir(q, data_dir);
                let above = ancestors(q, data_dir);
                assert(rest == seq![q] + above);
                assert forall|k: int| 0 <= k < rest.len() implies path::within(
                    #[trigger] rest[k],
                    data_dir,
                ) by {
                    if k > 0 {
                        assert(rest[k] == above[k - 1]);
                    }
                }
                assert((seq![p] + rest).last() == (seq![q] + above).last());
            } else {
                if base.len() < own.len() {
                    assert(base =~= own.drop_last().take(base.len() as int));
                }
                assert(own =~= base);
                assert((seq![p] + rest).last() == p);
            }
        },
        None => {
            assert(own =~= base);
            assert((seq![p] + rest).last() == p);
        },
    }
}

/// No symlink is followed out of the data directory: of a path that is not refused,
/// neither what stands there nor the nearest directory above it leads elsewhere.
pub proof fn law_symlinks_do_not_lead_out(standing: Seq<Standing>, data_dir: Seq<u8>)
    requires
        standing.len() > 0,
        !escapes(standing, data_dir),
    ensures
        standing[0] is Real ==> path::within(standing[0]->Real_0@, data_dir),
        standing[0] is Dangling ==> path::within(standing[0]->Dangling_0@, data_dir),
        nearest(standing.drop_first()) is Real ==> path::within(
            nearest(standing.drop_first())->Real_0@,
            data_dir,
        ),
        nearest(standing.drop_first()) is Dangling ==> path::within(
            nearest(standing.drop_first())->Dangling_0@,
            data_dir,
        ),
{
}

/// What a hard link or copy that failed both ways says.
pub fn link_error(from: &[u8], to: &[u8], words: &str) -> (s: String)
    ensures
        s@ == "fs.link: "@ + text::lossy_utf8(from@) + " -> "@ + text::lossy_utf8(to@) + ": "@
            + words@,
{
    let a = text::lossy(from);
    let b = text::lossy(to);
    let mut s = "fs.link: ".to_string();
    s.append(a.as_str());
    s.append(" -> ");
    s.append(b.as_str());
    s.append(": ");
    s.append(words);
    s
}

/// What a directory that cannot be created says.
pub fn mkdir_error(target: &[u8], words: &str) -> (s: String)
    ensures
        s@ == "fs.mkdir: "@ + text::lossy_utf8(target@) + ": "@ + words@,
{
    let a = text::lossy(target);
    let mut s = "fs.mkdir: ".to_string();
    s.append(a.as_str());
    s.append(": ");
    s.append(words);
    s
}

// ---- what is accepted -------------------------------------------------------------

/// Every path that stays inside is located where it says: a relative one below the data
/// directory, an absolute one where it stands. One that climbs, or lies elsewhere, is
/// not.
pub proof fn law_paths_that_stay_inside_are_located(data_dir: Seq<u8>, shown: Seq<char>)
    requires
        path::absolute(data_dir),
    ensures
        ({
            let p = encode_utf8(shown);
            let n = path::components(data_dir).len() as int;
            &&& !path::absolute(p) && path::all_normal(p) ==> located(data_dir, shown) == Ok::<
                Seq<u8>,
                Seq<char>,
            >(path::joined(data_dir, p))
            &&& !path::absolute(p) && !path::all_normal(p) ==> located(data_dir, shown) == Err::<
                Seq<u8>,
                Seq<char>,
            >("fs: path must stay inside the data directory: "@ + shown)
            &&& path::absolute(p) && !path::within(p, data_dir) ==> located(data_dir, shown)
                == Err::<Seq<u8>, Seq<char>>("fs: path is outside the data directory: "@ + shown)
            &&& path::absolute(p) && path::within(p, data_dir) && (forall|k: int|
                n <= k < path::components(p).len() ==> path::normal(
                    #[trigger] path::components(p)[k],
                )) ==> located(data_dir, shown) is Ok && path::components(
                located(data_dir, shown)->Ok_0,
            ) == path::components(p)
            &&& path::absolute(p) && path::within(p, data_dir) && (exists|k: int|
                n <= k < path::components(p).len() && !path::normal(
                    #[trigger] path::components(p)[k],
                )) ==> located(data_dir, shown) is Err
        }),
{
    let p = encode_utf8(shown);
    let n = path::components(data_dir).len() as int;
    path::law_stripping_leaves_the_rest(p, data_dir);
    if path::absolute(p) && path::within(p, data_dir) {
        let rel = path::stripped(p, data_dir)->0;
        let own = path::components(p);
        let rest = path::components(rel);
        if forall|k: int| n <= k < own.len() ==> path::normal(#[trigger] own[k]) {
            assert forall|k: int| 0 <= k < rest.len() implies path::normal(#[trigger] rest[k]) by {
                assert(rest[k] == own[n + k]);
            }
            path::law_normal_paths_stay_within(data_dir, rel);
            assert(own =~= own.take(n) + own.skip(n));
            assert(own.take(n) =~= path::components(data_dir));
        }
        if exists|k: int| n <= k < own.len() && !path::normal(#[trigger] own[k]) {
            let k = choose|k: int| n <= k < own.len() && !path::normal(#[trigger] own[k]);
            assert(rest[k - n] == own[k]);
        }
    }
}

/// The places above a path are its directories, each without the last component of the
/// one before.
pub proof fn law_places_climb_one_by_one(p: Seq<u8>, data_dir: Seq<u8>, k: int)
    requires
        0 <= k < ancestors(p, data_dir).len(),
    ensures
        path::components(p).len() > k,
        path::components(ancestors(p, data_dir)[k]) == path::components(p).take(
            path::components(p).len() - 1 - k,
        ),
    decreases p.len(),
{
    lemma_parent_is_shorter(p);
    path::law_parent_drops_the_last(p);
    let q = path::parent_of(p)->0;
    let own = path::components(p);
    let above = ancestors(q, data_dir);
    assert(ancestors(p, data_dir) == seq![q] + above);
    if k == 0 {
        assert(own.drop_last() =~= own.take(own.len() - 1));
    } else {
        law_places_climb_one_by_one(q, data_dir, k - 1);
        assert(ancestors(p, data_dir)[k] == above[k - 1]);
        assert(own.drop_last().take(own.len() - 1 - k) =~= own.take(own.len() - 1 - k));
    }
}

/// A path is looked at itself, then its parent, then what is above that.
pub proof fn law_the_path_itself_is_looked_at_first(full: Seq<u8>, data_dir: Seq<u8>)
    requires
        path::parent_of(full) is Some,
    ensures
        places(full, data_dir).len() == 2 + ancestors(path::parent_of(full)->0, data_dir).len(),
        places(full, data_dir)[0] == full,
        places(full, data_dir)[1] == path::parent_of(full)->0,
        places(full, data_dir).skip(2) == ancestors(path::parent_of(full)->0, data_dir),
{
    assert(places(full, data_dir).skip(2) =~= ancestors(path::parent_of(full)->0, data_dir));
}

/// The nearest place is the first one at which something stands.
pub proof fn law_the_nearest_place_decides(empty: Seq<Standing>, found: Standing, rest: Seq<Standing>)
    requires
        forall|i: int| 0 <= i < empty.len() ==> #[trigger] empty[i] is Nothing,
        !(found is Nothing),
    ensures
        nearest(empty + seq![found] + rest) == found,
        nearest(empty) is Nothing,
    decreases empty.len(),
{
    let all = empty + seq![found] + rest;
    if empty.len() == 0 {
        assert(all[0] == found);
    } else {
        let less = empty.drop_first();
        assert forall|i: int| 0 <= i < less.len() implies #[trigger] less[i] is Nothing by {
            assert(less[i] == empty[i + 1]);
        }
        law_the_nearest_place_decides(less, found, rest);
        assert(all[0] == empty[0]);
        assert(all.drop_first() =~= less + seq![found] + rest);
    }
}

/// A path is refused exactly when what stands there, or at the nearest place above,
/// lies outside; where nothing stands anywhere, nothing leads out.
pub proof fn law_only_what_leads_out_is_refused(
    first: Standing,
    empty: Seq<Standing>,
    found: Standing,
    rest: Seq<Standing>,
    data_dir: Seq<u8>,
)
    requires
        forall|i: int| 0 <= i < empty.len() ==> #[trigger] empty[i] is Nothing,
        !(found is Nothing),
    ensures
        escapes(seq![first] + (empty + seq![found] + rest), data_dir) <==> outside(first, data_dir)
            || outside(found, data_dir),
        escapes(seq![first] + empty, data_dir) <==> outside(first, data_dir),
        !escapes(Seq::empty(), data_dir),
{
    let a = seq![first] + (empty + seq![found] + rest);
    let b = seq![first] + empty;
    assert(a[0] == first && b[0] == first);
    assert(a.drop_first() =~= empty + seq![found] + rest);
    assert(b.drop_first() =~= empty);
    law_the_nearest_place_decides(empty, found, rest);
}

/// It leads, or would lead, to a place that is not within the data directory.
pub open spec fn outside(s: Standing, data_dir: Seq<u8>) -> bool {
    (s is Real && !path::within(s->Real_0@, data_dir)) || (s is Dangling && !path::within(
        s->Dangling_0@,
        data_dir,
    ))
}

} // verus!
