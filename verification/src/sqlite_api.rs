//! The `sqlite` module of templates: where databases may be, which connections are
//! handed on, and how values cross between Lua and SQL.
//!
//! Parameters always go through prepared-statement binding, so templates get
//! injection-safe SQL by construction.

use vstd::prelude::*;
use vstd::utf8::*;
use crate::path;
use crate::path::PathBytes;
use crate::text;

verus! {

// ---- database paths -------------------------------------------------------------

/// The file a database path names, or why it names none.
pub open spec fn db_file(data_dir: Seq<u8>, relpath: Seq<char>) -> Result<Seq<u8>, Seq<char>> {
    let rel = encode_utf8(relpath);
    if path::absolute(rel) || !path::all_normal(rel) {
        Err("sqlite.open: path must be relative and inside the data directory: "@ + relpath)
    } else {
        Ok(path::joined(data_dir, rel))
    }
}

/// The file a database path names: strictly inside the data directory.
pub fn db_location(data_dir: &[u8], relpath: &str) -> (r: Result<PathBytes, String>)
    ensures
        match db_file(data_dir@, relpath@) {
            Ok(p) => r is Ok && r->Ok_0@ == p,
            Err(e) => r is Err && r->Err_0@ == e,
        },
{
    let rel = relpath.as_bytes();
    if path::is_absolute(rel) || !path::is_all_normal(rel) {
        return Err(
            text::join2(
                "sqlite.open: path must be relative and inside the data directory: ",
                relpath,
            ),
        );
    }
    Ok(path::join(data_dir, rel))
}

/// What became of the directory a database is in.
pub enum ParentDir {
    /// It could not be created.
    NotCreated(String),
    /// It has no canonical form.
    NotResolved(String),
    /// Its canonical form.
    Real(PathBytes),
}

/// Resolves a database path, given what became of its directory: a symlink inside
/// the data directory could still point elsewhere.
pub fn resolve_db_path(data_dir: &[u8], relpath: &str, parent: ParentDir) -> (r: Result<
    PathBytes,
    String,
>)
    ensures
        match db_file(data_dir@, relpath@) {
            Err(e) => r is Err && r->Err_0@ == e,
            Ok(p) => match parent {
                ParentDir::NotCreated(e) => r is Err && r->Err_0@
                    == "sqlite.open: cannot create parent directory: "@ + e@,
                ParentDir::NotResolved(e) => r is Err && r->Err_0@ == e@,
                ParentDir::Real(dir) => if path::within(dir@, data_dir@) {
                    r is Ok && r->Ok_0@ == p
                } else {
                    r is Err && r->Err_0@ == "sqlite.open: path escapes the data directory: "@
                        + relpath@
                },
            },
        },
        r is Ok && path::absolute(data_dir@) ==> path::within(r->Ok_0@, data_dir@),
{
    let p = match db_location(data_dir, relpath) {
        Ok(p) => p,
        Err(e) => {
            return Err(e);
        },
    };
    match parent {
        ParentDir::NotCreated(e) => Err(
            text::join2("sqlite.open: cannot create parent directory: ", e.as_str()),
        ),
        ParentDir::NotResolved(e) => Err(e),
        ParentDir::Real(dir) => {
            if !path::starts_with(dir.as_slice(), data_dir) {
                return Err(
                    text::join2("sqlite.open: path escapes the data directory: ", relpath),
                );
            }
            proof {
                if path::absolute(data_dir@) {
                    path::law_normal_paths_stay_within(data_dir@, encode_utf8(relpath@));
                }
            }
            Ok(p)
        },
    }
}

// ---- parked connections ---------------------------------------------------------

/// Connections parked by finished requests, by database path.
pub struct IdlePool<T> {
    entries: Vec<(PathBytes, Vec<T>)>,
}

/// Position of a path, or -1.
pub open spec fn slot<T>(entries: Seq<(PathBytes, Vec<T>)>, p: Seq<u8>) -> int
    decreases entries.len(),
{
    if entries.len() == 0 {
        -1
    } else if entries.last().0@ == p {
        entries.len() - 1
    } else {
        slot(entries.drop_last(), p)
    }
}

proof fn lemma_slot<T>(entries: Seq<(PathBytes, Vec<T>)>, p: Seq<u8>)
    ensures
        -1 <= slot(entries, p) < entries.len(),
        slot(entries, p) >= 0 ==> entries[slot(entries, p)].0@ == p,
        forall|i: int| slot(entries, p) < i < entries.len() ==> (#[trigger] entries[i]).0@ != p,
    decreases entries.len(),
{
    if entries.len() > 0 && entries.last().0@ != p {
        lemma_slot(entries.drop_last(), p);
        assert forall|i: int| slot(entries, p) < i < entries.len() implies (
        #[trigger] entries[i]).0@ != p by {
            if i < entries.len() - 1 {
                assert(entries.drop_last()[i] == entries[i]);
            }
        }
    }
}

proof fn lemma_same_slots<T>(a: Seq<(PathBytes, Vec<T>)>, b: Seq<(PathBytes, Vec<T>)>, p: Seq<u8>)
    requires
        a.len() == b.len(),
        forall|i: int| 0 <= i < a.len() ==> (#[trigger] a[i]).0@ == b[i].0@,
    ensures
        slot(a, p) == slot(b, p),
    decreases a.len(),
{
    if a.len() > 0 {
        assert(a[a.len() - 1].0@ == b[b.len() - 1].0@);
        assert forall|i: int| 0 <= i < a.drop_last().len() implies (
        #[trigger] a.drop_last()[i]).0@ == b.drop_last()[i].0@ by {
            assert(a.drop_last()[i] == a[i]);
        }
        lemma_same_slots(a.drop_last(), b.drop_last(), p);
    }
}

impl<T> IdlePool<T> {
    /// What is parked for a database, the one taken next last.
    pub closed spec fn parked(self, p: Seq<u8>) -> Seq<T> {
        let i = slot(self.entries@, p);
        if i < 0 {
            Seq::empty()
        } else {
            self.entries@[i].1@
        }
    }

    pub fn new() -> (pool: IdlePool<T>)
        ensures
            forall|p: Seq<u8>| (#[trigger] pool.parked(p)).len() == 0,
    {
        IdlePool { entries: Vec::new() }
    }

    fn find(&self, p: &[u8]) -> (r: Option<usize>)
        ensures
            match r {
                Some(i) => slot(self.entries@, p@) == i as int,
                None => slot(self.entries@, p@) == -1,
            },
    {
        let mut i: usize = self.entries.len();
        proof {
            lemma_slot(self.entries@, p@);
        }
        while i > 0
            invariant
                i <= self.entries@.len(),
                forall|j: int| i <= j < self.entries@.len() ==> (#[trigger] self.entries@[j]).0@
                    != p@,
                -1 <= slot(self.entries@, p@) < self.entries@.len(),
                slot(self.entries@, p@) >= 0 ==> self.entries@[slot(self.entries@, p@)].0@ == p@,
                forall|k: int|
                    slot(self.entries@, p@) < k < self.entries@.len() ==> (
                    #[trigger] self.entries@[k]).0@ != p@,
            decreases i,
        {
            if path::same_bytes(self.entries[i - 1].0.as_slice(), p) {
                return Some(i - 1);
            }
            i = i - 1;
        }
        None
    }

    /// Puts a list in the place of another.
    fn replace(&mut self, i: usize, list: Vec<T>) -> (was: Vec<T>)
        requires
            i < old(self).entries@.len(),
        ensures
            was == old(self).entries@[i as int].1,
            final(self).entries@.len() == old(self).entries@.len(),
            final(self).entries@[i as int].0 == old(self).entries@[i as int].0,
            final(self).entries@[i as int].1 == list,
            forall|k: int|
                0 <= k < old(self).entries@.len() && k != i ==> #[trigger] final(self).entries@[k]
                    == old(self).entries@[k],
    {
        let (key, was) = self.entries.remove(i);
        self.entries.insert(i, (key, list));
        was
    }

    /// Takes a parked connection, the one parked last.
    pub fn checkout(&mut self, p: &[u8]) -> (r: Option<T>)
        ensures
            match r {
                Some(conn) => {
                    &&& old(self).parked(p@).len() > 0
                    &&& conn == old(self).parked(p@).last()
                    &&& final(self).parked(p@) == old(self).parked(p@).drop_last()
                },
                None => old(self).parked(p@).len() == 0 && final(self).parked(p@) == old(
                    self,
                ).parked(p@),
            },
            forall|other: Seq<u8>|
                other != p@ ==> #[trigger] final(self).parked(other) == old(self).parked(other),
    {
        let ghost before = self.entries@;
        match self.find(p) {
            None => None,
            Some(i) => {
                proof {
                    lemma_slot(before, p@);
                }
                let empty: Vec<T> = Vec::new();
                let mut list = self.replace(i, empty);
                let r = list.pop();
                let _empty = self.replace(i, list);
                let ghost after = self.entries@;
                proof {
                    assert forall|k: int| 0 <= k < before.len() implies (#[trigger] before[k]).0@
                        == after[k].0@ by {}
                    assert forall|other: Seq<u8>| other != p@ implies #[trigger] self.parked(other)
                        == old(self).parked(other) by {
                        lemma_same_slots(before, after, other);
                        lemma_slot(before, other);
                    }
                    lemma_same_slots(before, after, p@);
                }
                r
            },
        }
    }

    /// Parks a connection, unless as many as `limit` are parked already; hands it
    /// back where it is not parked.
    pub fn checkin(&mut self, p: &[u8], conn: T, limit: usize) -> (back: Option<T>)
        ensures
            if old(self).parked(p@).len() < limit {
                back is None && final(self).parked(p@) == old(self).parked(p@).push(conn)
            } else {
                back == Some(conn) && final(self).parked(p@) == old(self).parked(p@)
            },
            forall|other: Seq<u8>|
                other != p@ ==> #[trigger] final(self).parked(other) == old(self).parked(other),
    {
        let ghost before = self.entries@;
        match self.find(p) {
            Some(i) => {
                proof {
                    lemma_slot(before, p@);
                }
                if self.entries[i].1.len() >= limit {
                    return Some(conn);
                }
                let empty: Vec<T> = Vec::new();
                let mut list = self.replace(i, empty);
                list.push(conn);
                let _empty = self.replace(i, list);
                let ghost after = self.entries@;
                proof {
                    assert forall|k: int| 0 <= k < before.len() implies (#[trigger] before[k]).0@
                        == after[k].0@ by {}
                    assert forall|other: Seq<u8>| other != p@ implies #[trigger] self.parked(other)
                        == old(self).parked(other) by {
                        lemma_same_slots(before, after, other);
                        lemma_slot(before, other);
                    }
                    lemma_same_slots(before, after, p@);
                }
                None
            },
            None => {
                if limit == 0 {
                    return Some(conn);
                }
                let key = path::bytes_copy(p);
                let mut list: Vec<T> = Vec::new();
                list.push(conn);
                self.entries.push((key, list));
                let ghost after = self.entries@;
                proof {
                    assert(after.drop_last() =~= before);
                    assert forall|other: Seq<u8>| other != p@ implies #[trigger] self.parked(other)
                        == old(self).parked(other) by {
                        assert(slot(after, other) == slot(before, other));
                        lemma_slot(before, other);
                    }
                    assert(self.parked(p@) =~= old(self).parked(p@).push(conn));
                }
                None
            },
        }
    }
}

/// What has to be done before a connection may be parked.
#[derive(Clone, Copy, PartialEq, Eq, Debug, Structural)]
pub enum CheckinStep {
    /// Roll back: an open transaction would hand the next request a write lock.
    Rollback,
    /// Count the temporary tables; they live on the connection.
    CountTemporary,
    /// Switch foreign keys off again, as on a fresh connection.
    ResetForeignKeys,
    Park,
    Discard,
}

/// The first step for a connection that a request is done with.
pub fn checkin_start(limit: usize, in_transaction: bool) -> (r: CheckinStep)
    ensures
        r == (if limit == 0 {
            CheckinStep::Discard
        } else if in_transaction {
            CheckinStep::Rollback
        } else {
            CheckinStep::CountTemporary
        }),
{
    if limit == 0 {
        CheckinStep::Discard
    } else if in_transaction {
        CheckinStep::Rollback
    } else {
        CheckinStep::CountTemporary
    }
}

/// What follows a step. Anything unexpected discards the connection; the next open
/// just pays in full.
pub open spec fn checkin_after(step: CheckinStep, ok: bool, temporary: i64) -> CheckinStep {
    match step {
        CheckinStep::Rollback => if ok {
            CheckinStep::CountTemporary
        } else {
            CheckinStep::Discard
        },
        CheckinStep::CountTemporary => if ok && temporary == 0 {
            CheckinStep::ResetForeignKeys
        } else {
            CheckinStep::Discard
        },
        CheckinStep::ResetForeignKeys => if ok {
            CheckinStep::Park
        } else {
            CheckinStep::Discard
        },
        CheckinStep::Park => CheckinStep::Park,
        CheckinStep::Discard => CheckinStep::Discard,
    }
}

/// What follows a step: `ok` says whether it succeeded, `temporary` how many
/// temporary tables were counted.
pub fn checkin_next(step: CheckinStep, ok: bool, temporary: i64) -> (r: CheckinStep)
    ensures
        r == checkin_after(step, ok, temporary),
{
    match step {
        CheckinStep::Rollback => if ok {
            CheckinStep::CountTemporary
        } else {
            CheckinStep::Discard
        },
        CheckinStep::CountTemporary => if ok && temporary == 0 {
            CheckinStep::ResetForeignKeys
        } else {
            CheckinStep::Discard
        },
        CheckinStep::ResetForeignKeys => if ok {
            CheckinStep::Park
        } else {
            CheckinStep::Discard
        },
        CheckinStep::Park => CheckinStep::Park,
        CheckinStep::Discard => CheckinStep::Discard,
    }
}

/// A connection is parked only after its temporary tables were counted as none and
/// its foreign keys were reset; a failed step discards it.
pub proof fn law_parked_connections_are_clean(step: CheckinStep, ok: bool, temporary: i64)
    ensures
        step != CheckinStep::Park && checkin_after(step, ok, temporary) == CheckinStep::Park ==> step
            == CheckinStep::ResetForeignKeys && ok,
        checkin_after(step, ok, temporary) == CheckinStep::ResetForeignKeys ==> step
            == CheckinStep::CountTemporary && ok && temporary == 0,
        !ok && step != CheckinStep::Park ==> checkin_after(step, ok, temporary)
            == CheckinStep::Discard,
{
}

// ---- values ---------------------------------------------------------------------

/// A parameter as a template passes it. A float travels as its bits.
pub enum LuaParam {
    Nil,
    /// The SQL NULL sentinel.
    Null,
    Boolean(bool),
    Integer(i64),
    Number(u64),
    Str(Vec<u8>),
    /// Anything else, by its type name.
    Other(String),
}

/// A value as SQL has it.
pub enum SqlValue {
    Null,
    Integer(i64),
    Real(u64),
    Text(String),
    Blob(Vec<u8>),
}

/// How many parameters there are: an explicit count, else the length of the array.
pub fn param_count(explicit: Option<i64>, len: i64) -> (n: i64)
    ensures
        n == (match explicit {
            Some(n) => if n >= 0 {
                n
            } else {
                len
            },
            None => len,
        }),
{
    match explicit {
        Some(n) => if n >= 0 {
            n
        } else {
            len
        },
        None => len,
    }
}

/// `v` is what binding `p` binds.
pub open spec fn binds(p: LuaParam, v: SqlValue) -> bool {
    match p {
        LuaParam::Nil => v is Null,
        LuaParam::Null => v is Null,
        LuaParam::Boolean(b) => v == SqlValue::Integer(
            if b {
                1
            } else {
                0
            },
        ),
        LuaParam::Integer(n) => v == SqlValue::Integer(n),
        LuaParam::Number(bits) => v == SqlValue::Real(bits),
        LuaParam::Str(bytes) => if valid_utf8(bytes@) {
            v is Text && v->Text_0@ == decode_utf8(bytes@)
        } else {
            v is Blob && v->Blob_0@ == bytes@
        },
        LuaParam::Other(_) => false,
    }
}

/// One parameter as an SQL value: text where it is text, bytes otherwise.
pub fn bind_param(p: &LuaParam) -> (r: Result<SqlValue, String>)
    ensures
        match *p {
            LuaParam::Other(name) => r is Err && r->Err_0@ == "unsupported sqlite parameter type: "@
                + name@,
            _ => r is Ok && binds(*p, r->Ok_0),
        },
{
    match p {
        LuaParam::Nil => Ok(SqlValue::Null),
        LuaParam::Null => Ok(SqlValue::Null),
        LuaParam::Boolean(b) => Ok(
            SqlValue::Integer(
                if *b {
                    1
                } else {
                    0
                },
            ),
        ),
        LuaParam::Integer(n) => Ok(SqlValue::Integer(*n)),
        LuaParam::Number(bits) => Ok(SqlValue::Real(*bits)),
        LuaParam::Str(bytes) => match text::strict_utf8(path::bytes_copy(bytes.as_slice())) {
            Some(s) => Ok(SqlValue::Text(s)),
            None => Ok(SqlValue::Blob(path::bytes_copy(bytes.as_slice()))),
        },
        LuaParam::Other(name) => Err(
            text::join2("unsupported sqlite parameter type: ", name.as_str()),
        ),
    }
}

/// The parameters of a statement, or the first one that has no SQL value.
pub fn bind_params(params: &Vec<LuaParam>) -> (r: Result<Vec<SqlValue>, String>)
    ensures
        match r {
            Ok(values) => {
                &&& values@.len() == params@.len()
                &&& forall|i: int|
                    0 <= i < params@.len() ==> binds(#[trigger] params@[i], values@[i])
            },
            Err(e) => exists|i: int|
                {
                    &&& 0 <= i < params@.len()
                    &&& (#[trigger] params@[i]) is Other
                    &&& e@ == "unsupported sqlite parameter type: "@ + params@[i]->Other_0@
                    &&& forall|k: int| 0 <= k < i ==> !((#[trigger] params@[k]) is Other)
                },
        },
{
    let mut values: Vec<SqlValue> = Vec::new();
    let mut i: usize = 0;
    while i < params.len()
        invariant
            i <= params@.len(),
            values@.len() == i,
            forall|k: int| 0 <= k < i ==> binds(#[trigger] params@[k], values@[k]),
            forall|k: int| 0 <= k < i ==> !((#[trigger] params@[k]) is Other),
        decreases params@.len() - i,
    {
        match bind_param(&params[i]) {
            Ok(v) => values.push(v),
            Err(e) => {
                assert(params@[i as int] is Other);
                return Err(e);
            },
        }
        i = i + 1;
    }
    Ok(values)
}

/// A value as a template gets it back.
pub enum LuaResult {
    Nil,
    Integer(i64),
    Number(u64),
    Str(Vec<u8>),
}

/// An SQL value as a Lua value.
pub fn sql_value_to_lua(v: SqlValue) -> (r: LuaResult)
    ensures
        match v {
            SqlValue::Null => r is Nil,
            SqlValue::Integer(n) => r == LuaResult::Integer(n),
            SqlValue::Real(bits) => r == LuaResult::Number(bits),
            SqlValue::Text(s) => r is Str && r->Str_0@ == encode_utf8(s@),
            SqlValue::Blob(bytes) => r == LuaResult::Str(bytes),
        },
{
    match v {
        SqlValue::Null => LuaResult::Nil,
        SqlValue::Integer(n) => LuaResult::Integer(n),
        SqlValue::Real(bits) => LuaResult::Number(bits),
        SqlValue::Text(s) => LuaResult::Str(path::bytes_copy(s.as_str().as_bytes())),
        SqlValue::Blob(bytes) => LuaResult::Str(bytes),
    }
}

/// Strings come back byte for byte, whether they were stored as text or as bytes.
pub proof fn law_strings_round_trip(bytes: Vec<u8>, v: SqlValue)
    requires
        binds(LuaParam::Str(bytes), v),
    ensures
        match v {
            SqlValue::Text(s) => encode_utf8(s@) == bytes@,
            SqlValue::Blob(b) => b@ == bytes@,
            _ => false,
        },
{
    if valid_utf8(bytes@) {
        decode_utf8_encode_utf8(bytes@);
    }
}

/// A database may be anywhere below the data directory: a relative path of names is
/// accepted and leads there, and every other path is refused.
pub proof fn law_databases_live_below_the_data_dir(data_dir: Seq<u8>, relpath: Seq<char>)
    ensures
        ({
            let rel = encode_utf8(relpath);
            &&& path::all_normal(rel) ==> db_file(data_dir, relpath) == Ok::<Seq<u8>, Seq<char>>(
                path::joined(data_dir, rel),
            )
            &&& !path::all_normal(rel) ==> db_file(data_dir, relpath) == Err::<
                Seq<u8>,
                Seq<char>,
            >("sqlite.open: path must be relative and inside the data directory: "@ + relpath)
        }),
{
    let rel = encode_utf8(relpath);
    if path::absolute(rel) {
        path::lemma_absolute_has_root(rel);
        assert(!path::normal(path::components(rel)[0]));
    }
}

/// A connection that went through every step is parked: rolled back where it had to be,
/// without temporary tables, its foreign keys off again.
pub proof fn law_clean_connections_are_parked(temporary: i64)
    ensures
        checkin_after(CheckinStep::Rollback, true, temporary) == CheckinStep::CountTemporary,
        temporary == 0 ==> checkin_after(CheckinStep::CountTemporary, true, temporary)
            == CheckinStep::ResetForeignKeys,
        temporary != 0 ==> checkin_after(CheckinStep::CountTemporary, true, temporary)
            == CheckinStep::Discard,
        checkin_after(CheckinStep::ResetForeignKeys, true, temporary) == CheckinStep::Park,
{
}

/// What a parameter is bound as: nothing as NULL, truth as 1 and 0, numbers as
/// themselves, a string as text where it is text and as bytes where it is not.
pub proof fn law_parameters_keep_their_value(n: i64, bits: u64, bytes: Vec<u8>, name: String, v: SqlValue)
    ensures
        binds(LuaParam::Nil, v) <==> v is Null,
        binds(LuaParam::Null, v) <==> v is Null,
        binds(LuaParam::Boolean(true), v) <==> v == SqlValue::Integer(1),
        binds(LuaParam::Boolean(false), v) <==> v == SqlValue::Integer(0),
        binds(LuaParam::Integer(n), v) <==> v == SqlValue::Integer(n),
        binds(LuaParam::Number(bits), v) <==> v == SqlValue::Real(bits),
        valid_utf8(bytes@) ==> (binds(LuaParam::Str(bytes), v) <==> v is Text && encode_utf8(
            v->Text_0@,
        ) == bytes@),
        !valid_utf8(bytes@) ==> (binds(LuaParam::Str(bytes), v) <==> v is Blob && v->Blob_0@
            == bytes@),
        !binds(LuaParam::Other(name), v),
{
    if valid_utf8(bytes@) {
        decode_utf8_encode_utf8(bytes@);
        if v is Text {
            encode_utf8_decode_utf8(v->Text_0@);
        }
    }
}

} // verus!
