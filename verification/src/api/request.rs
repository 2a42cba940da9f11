//! The `request` table: what a template sees of a request.

use vstd::prelude::*;
use vstd::utf8::*;
use crate::runtime;
use crate::runtime::{RequestBody, RequestData, UploadedFile};
use crate::text;
use crate::web;

verus! {

// ---- forms and JSON -------------------------------------------------------------

/// The first `b` in `bytes`, or their number.
pub open spec fn first_of(bytes: Seq<u8>, b: u8) -> int
    decreases bytes.len(),
{
    if bytes.len() == 0 || bytes[0] == b {
        0
    } else {
        1 + first_of(bytes.skip(1), b)
    }
}

pub proof fn lemma_first_of(bytes: Seq<u8>, b: u8)
    ensures
        0 <= first_of(bytes, b) <= bytes.len(),
    decreases bytes.len(),
{
    if bytes.len() > 0 && bytes[0] != b {
        lemma_first_of(bytes.skip(1), b);
    }
}

/// A name or value of a form: `+` is a space, `%` escapes are bytes, and what is
/// not UTF-8 is replaced.
pub open spec fn form_text(bytes: Seq<u8>) -> Seq<char> {
    text::lossy_utf8(
        web::percent_decoded(
            bytes.map_values(
                |b: u8|
                    if b == 0x2b {
                        0x20u8
                    } else {
                        b
                    },
            ),
        ),
    )
}

/// The pairs of a form, in order: parts between `&`, each with a name up to the
/// first `=` and a value behind it. Empty parts count for nothing.
pub open spec fn form_pairs(bytes: Seq<u8>) -> Seq<(Seq<char>, Seq<char>)>
    decreases bytes.len(),
{
    if bytes.len() == 0 {
        Seq::empty()
    } else {
        proof {
            lemma_first_of(bytes, 0x26);
        }
        let i = first_of(bytes, 0x26);
        let part = bytes.take(i);
        let rest = if i < bytes.len() {
            form_pairs(bytes.skip(i + 1))
        } else {
            Seq::empty()
        };
        if i == 0 {
            rest
        } else {
            let k = first_of(part, 0x3d);
            let value = if k < part.len() {
                part.skip(k + 1)
            } else {
                Seq::empty()
            };
            seq![(form_text(part.take(k)), form_text(value))] + rest
        }
    }
}

/// `serde_urlencoded::from_bytes` into pairs of strings: the pairs of a form in
/// order. Any bytes are a form.
#[verifier::external_body]
fn urlencoded_pairs(bytes: &[u8]) -> (r: Option<Vec<(String, String)>>)
    ensures
        r is Some,
        runtime::pair_views(r->0@) == form_pairs(bytes@),
{
    serde_urlencoded::from_bytes::<Vec<(String, String)>>(bytes).ok()
}

/// What a JSON document is at its top.
#[derive(Clone, Copy, PartialEq, Eq, Debug, Structural)]
pub enum JsonShape {
    Null,
    Bool,
    Number,
    Text,
    Array,
    Object,
    /// No JSON.
    Invalid,
}

/// What a document is at its top.
pub uninterp spec fn json_shape(bytes: Seq<u8>) -> JsonShape;

/// `serde_json::from_slice` into a `serde_json::Value`: which kind of value the
/// document is, or that it is none.
#[verifier::external_body]
fn json_shape_of(bytes: &[u8]) -> (shape: JsonShape)
    ensures
        shape == json_shape(bytes@),
{
    match serde_json::from_slice::<serde_json::Value>(bytes) {
        Ok(serde_json::Value::Null) => JsonShape::Null,
        Ok(serde_json::Value::Bool(_)) => JsonShape::Bool,
        Ok(serde_json::Value::Number(_)) => JsonShape::Number,
        Ok(serde_json::Value::String(_)) => JsonShape::Text,
        Ok(serde_json::Value::Array(_)) => JsonShape::Array,
        Ok(serde_json::Value::Object(_)) => JsonShape::Object,
        Err(_) => JsonShape::Invalid,
    }
}

// ---- repeated names -------------------------------------------------------------

/// The last value under a name.
pub open spec fn last_value(pairs: Seq<(Seq<char>, Seq<char>)>, name: Seq<char>) -> Option<
    Seq<char>,
>
    decreases pairs.len(),
{
    if pairs.len() == 0 {
        None
    } else if pairs.last().0 == name {
        Some(pairs.last().1)
    } else {
        last_value(pairs.drop_last(), name)
    }
}

/// All values under a name, in order.
pub open spec fn all_values(pairs: Seq<(Seq<char>, Seq<char>)>, name: Seq<char>) -> Seq<Seq<char>>
    decreases pairs.len(),
{
    if pairs.len() == 0 {
        Seq::empty()
    } else if pairs.last().0 == name {
        all_values(pairs.drop_last(), name).push(pairs.last().1)
    } else {
        all_values(pairs.drop_last(), name)
    }
}

/// The single value of a name is the last of all its values.
pub proof fn law_single_value_is_the_last(pairs: Seq<(Seq<char>, Seq<char>)>, name: Seq<char>)
    ensures
        last_value(pairs, name) == (if all_values(pairs, name).len() == 0 {
            None
        } else {
            Some(all_values(pairs, name).last())
        }),
    decreases pairs.len(),
{
    if pairs.len() > 0 && pairs.last().0 != name {
        law_single_value_is_the_last(pairs.drop_last(), name);
    }
}

/// No name occurs twice.
pub open spec fn distinct(pairs: Seq<(Seq<char>, Seq<char>)>) -> bool {
    forall|i: int, j: int|
        0 <= i < j < pairs.len() ==> (#[trigger] pairs[i]).0 != (#[trigger] pairs[j]).0
}

pub proof fn lemma_last_value(pairs: Seq<(Seq<char>, Seq<char>)>, name: Seq<char>, i: int)
    requires
        distinct(pairs),
        0 <= i < pairs.len(),
        pairs[i].0 == name,
    ensures
        last_value(pairs, name) == Some(pairs[i].1),
    decreases pairs.len(),
{
    if i < pairs.len() - 1 {
        assert(pairs[i].0 != pairs[pairs.len() - 1].0);
        assert(distinct(pairs.drop_last())) by {
            assert forall|a: int, b: int| 0 <= a < b < pairs.drop_last().len() implies (
            #[trigger] pairs.drop_last()[a]).0 != (#[trigger] pairs.drop_last()[b]).0 by {
                assert(pairs[a].0 != pairs[b].0);
            }
        }
        lemma_last_value(pairs.drop_last(), name, i);
    }
}

proof fn lemma_no_value(pairs: Seq<(Seq<char>, Seq<char>)>, name: Seq<char>)
    requires
        forall|i: int| 0 <= i < pairs.len() ==> (#[trigger] pairs[i]).0 != name,
    ensures
        last_value(pairs, name) is None,
    decreases pairs.len(),
{
    if pairs.len() > 0 {
        assert(pairs[pairs.len() - 1].0 != name);
        lemma_no_value(pairs.drop_last(), name);
    }
}

/// Changing one entry of a list without repetitions changes one name.
proof fn lemma_update_value(
    pairs: Seq<(Seq<char>, Seq<char>)>,
    at: int,
    value: Seq<char>,
    name: Seq<char>,
)
    requires
        distinct(pairs),
        0 <= at < pairs.len(),
    ensures
        distinct(pairs.update(at, (pairs[at].0, value))),
        last_value(pairs.update(at, (pairs[at].0, value)), name) == (if name == pairs[at].0 {
            Some(value)
        } else {
            last_value(pairs, name)
        }),
{
    let new = pairs.update(at, (pairs[at].0, value));
    assert(distinct(new)) by {
        assert forall|a: int, b: int| 0 <= a < b < new.len() implies (#[trigger] new[a]).0 != (
        #[trigger] new[b]).0 by {
            assert(new[a].0 == pairs[a].0);
            assert(new[b].0 == pairs[b].0);
        }
    }
    if exists|i: int| 0 <= i < pairs.len() && (#[trigger] pairs[i]).0 == name {
        let i = choose|i: int| 0 <= i < pairs.len() && (#[trigger] pairs[i]).0 == name;
        lemma_last_value(pairs, name, i);
        assert(new[i].0 == name);
        lemma_last_value(new, name, i);
        if i != at {
            if i < at {
                assert(pairs[i].0 != pairs[at].0);
            } else {
                assert(pairs[at].0 != pairs[i].0);
            }
        }
    } else {
        lemma_no_value(pairs, name);
        assert forall|i: int| 0 <= i < new.len() implies (#[trigger] new[i]).0 != name by {
            assert(pairs[i].0 != name);
        }
        lemma_no_value(new, name);
        assert(pairs[at].0 != name);
    }
}

/// One value per name, the last one winning.
pub fn latest(pairs: &Vec<(String, String)>) -> (out: Vec<(String, String)>)
    ensures
        distinct(runtime::pair_views(out@)),
        forall|name: Seq<char>| #[trigger]
            last_value(runtime::pair_views(out@), name) == last_value(
                runtime::pair_views(pairs@),
                name,
            ),
{
    let ghost all = runtime::pair_views(pairs@);
    let mut out: Vec<(String, String)> = Vec::new();
    let mut i: usize = 0;
    assert(all.take(0) =~= Seq::empty());
    assert(runtime::pair_views(out@) =~= Seq::empty());
    while i < pairs.len()
        invariant
            i <= pairs@.len(),
            all == runtime::pair_views(pairs@),
            distinct(runtime::pair_views(out@)),
            forall|name: Seq<char>| #[trigger]
                last_value(runtime::pair_views(out@), name) == last_value(
                    all.take(i as int),
                    name,
                ),
        decreases pairs@.len() - i,
    {
        let ghost list = runtime::pair_views(out@);
        let ghost n = pairs@[i as int].0@;
        let ghost v = pairs@[i as int].1@;
        assert(all.take(i + 1).drop_last() =~= all.take(i as int));
        assert(all.take(i + 1).last() == (n, v));
        let mut at: usize = 0;
        while at < out.len() && !text::same(out[at].0.as_str(), pairs[i].0.as_str())
            invariant
                i < pairs@.len(),
                n == pairs@[i as int].0@,
                at <= out@.len(),
                list == runtime::pair_views(out@),
                forall|k: int| 0 <= k < at ==> (#[trigger] list[k]).0 != n,
            decreases out@.len() - at,
        {
            assert(list[at as int].0 == out@[at as int].0@);
            at = at + 1;
        }
        if at < out.len() {
            assert(list[at as int].0 == n);
            out[at] = (pairs[i].0.clone(), pairs[i].1.clone());
            proof {
                assert(runtime::pair_views(out@) =~= list.update(at as int, (n, v)));
                assert forall|name: Seq<char>| #[trigger]
                    last_value(runtime::pair_views(out@), name) == last_value(
                        all.take(i + 1),
                        name,
                    ) by {
                    lemma_update_value(list, at as int, v, name);
                    assert(last_value(list, name) == last_value(all.take(i as int), name));
                }
                lemma_update_value(list, at as int, v, n);
            }
        } else {
            out.push((pairs[i].0.clone(), pairs[i].1.clone()));
            proof {
                let new = runtime::pair_views(out@);
                assert(new =~= list.push((n, v)));
                assert(new.drop_last() =~= list);
                assert(distinct(new)) by {
                    assert forall|a: int, b: int| 0 <= a < b < new.len() implies (
                    #[trigger] new[a]).0 != (#[trigger] new[b]).0 by {
                        assert(new[a] == list[a]);
                        if b < list.len() {
                            assert(list[a].0 != list[b].0);
                        }
                    }
                }
                assert forall|name: Seq<char>| #[trigger]
                    last_value(new, name) == last_value(all.take(i + 1), name) by {
                    assert(last_value(list, name) == last_value(all.take(i as int), name));
                }
            }
        }
        i = i + 1;
    }
    assert(all.take(i as int) =~= all);
    out
}

/// Names with all their values, in specifications.
pub open spec fn group_views(groups: Seq<(String, Vec<String>)>) -> Seq<(Seq<char>, Seq<Seq<char>>)> {
    groups.map_values(|g: (String, Vec<String>)| (g.0@, text::views(g.1@)))
}

/// `groups` lists every name of `pairs` once, with all its values in order.
pub open spec fn groups_of(
    groups: Seq<(Seq<char>, Seq<Seq<char>>)>,
    pairs: Seq<(Seq<char>, Seq<char>)>,
) -> bool {
    &&& forall|i: int, j: int|
        0 <= i < j < groups.len() ==> (#[trigger] groups[i]).0 != (#[trigger] groups[j]).0
    &&& forall|i: int|
        0 <= i < groups.len() ==> (#[trigger] groups[i]).1 == all_values(pairs, groups[i].0)
            && groups[i].1.len() > 0
    &&& forall|name: Seq<char>| #[trigger]
        all_values(pairs, name).len() > 0 ==> exists|i: int|
            0 <= i < groups.len() && (#[trigger] groups[i]).0 == name
}

/// Every name once, with all its values in order.
pub fn grouped(pairs: &Vec<(String, String)>) -> (out: Vec<(String, Vec<String>)>)
    ensures
        groups_of(group_views(out@), runtime::pair_views(pairs@)),
{
    let ghost all = runtime::pair_views(pairs@);
    let mut out: Vec<(String, Vec<String>)> = Vec::new();
    let mut i: usize = 0;
    assert(all.take(0) =~= Seq::empty());
    assert(group_views(out@) =~= Seq::empty());
    while i < pairs.len()
        invariant
            i <= pairs@.len(),
            all == runtime::pair_views(pairs@),
            groups_of(group_views(out@), all.take(i as int)),
        decreases pairs@.len() - i,
    {
        let ghost list = group_views(out@);
        let ghost done = all.take(i as int);
        let ghost n = pairs@[i as int].0@;
        let ghost v = pairs@[i as int].1@;
        assert(all.take(i + 1).drop_last() =~= done);
        assert(all.take(i + 1).last() == (n, v));
        let mut at: usize = 0;
        while at < out.len() && !text::same(out[at].0.as_str(), pairs[i].0.as_str())
            invariant
                i < pairs@.len(),
                n == pairs@[i as int].0@,
                at <= out@.len(),
                list == group_views(out@),
                forall|k: int| 0 <= k < at ==> (#[trigger] list[k]).0 != n,
            decreases out@.len() - at,
        {
            assert(list[at as int].0 == out@[at as int].0@);
            at = at + 1;
        }
        if at < out.len() {
            assert(list[at as int].0 == n);
            let (name, values) = out.remove(at);
            let ghost kept = values@;
            let mut values = values;
            values.push(pairs[i].1.clone());
            assert(text::views(values@) =~= text::views(kept).push(v));
            out.insert(at, (name, values));
            proof {
                assert(group_views(out@) =~= list.update(at as int, (n, list[at as int].1.push(v))));
                lemma_group_more(list, done, at as int, v);
                assert(done.push((n, v)) =~= all.take(i + 1));
            }
        } else {
            let mut values: Vec<String> = Vec::new();
            values.push(pairs[i].1.clone());
            assert(text::views(values@) =~= seq![v]);
            out.push((pairs[i].0.clone(), values));
            proof {
                assert(group_views(out@) =~= list.push((n, seq![v])));
                lemma_group_new(list, done, n, v);
                assert(done.push((n, v)) =~= all.take(i + 1));
            }
        }
        i = i + 1;
    }
    assert(all.take(i as int) =~= all);
    out
}

proof fn lemma_group_more(
    list: Seq<(Seq<char>, Seq<Seq<char>>)>,
    pairs: Seq<(Seq<char>, Seq<char>)>,
    at: int,
    v: Seq<char>,
)
    requires
        groups_of(list, pairs),
        0 <= at < list.len(),
    ensures
        groups_of(
            list.update(at, (list[at].0, list[at].1.push(v))),
            pairs.push((list[at].0, v)),
        ),
{
    let n = list[at].0;
    let new = list.update(at, (n, list[at].1.push(v)));
    let more = pairs.push((n, v));
    assert(more.drop_last() =~= pairs);
    assert forall|i: int, j: int| 0 <= i < j < new.len() implies (#[trigger] new[i]).0 != (
    #[trigger] new[j]).0 by {
        assert(new[i].0 == list[i].0);
        assert(new[j].0 == list[j].0);
    }
    assert forall|i: int| 0 <= i < new.len() implies (#[trigger] new[i]).1 == all_values(
        more,
        new[i].0,
    ) && new[i].1.len() > 0 by {
        assert(list[i].1 == all_values(pairs, list[i].0));
        if i != at {
            if i < at {
                assert(list[i].0 != list[at].0);
            } else {
                assert(list[at].0 != list[i].0);
            }
        }
    }
    assert forall|name: Seq<char>| #[trigger] all_values(more, name).len() > 0 implies exists|
        i: int,
    |
        0 <= i < new.len() && (#[trigger] new[i]).0 == name by {
        if name == n {
            assert(new[at].0 == n);
        } else {
            assert(all_values(pairs, name).len() > 0);
            let i = choose|i: int| 0 <= i < list.len() && (#[trigger] list[i]).0 == name;
            assert(new[i].0 == name);
        }
    }
}

proof fn lemma_group_new(
    list: Seq<(Seq<char>, Seq<Seq<char>>)>,
    pairs: Seq<(Seq<char>, Seq<char>)>,
    n: Seq<char>,
    v: Seq<char>,
)
    requires
        groups_of(list, pairs),
        forall|i: int| 0 <= i < list.len() ==> (#[trigger] list[i]).0 != n,
    ensures
        groups_of(list.push((n, seq![v])), pairs.push((n, v))),
{
    let new = list.push((n, seq![v]));
    let more = pairs.push((n, v));
    assert(more.drop_last() =~= pairs);
    assert(all_values(pairs, n).len() == 0);
    assert(all_values(more, n) =~= seq![v]);
    assert forall|i: int, j: int| 0 <= i < j < new.len() implies (#[trigger] new[i]).0 != (
    #[trigger] new[j]).0 by {
        assert(new[i] == list[i]);
        if j < list.len() {
            assert(list[i].0 != list[j].0);
        }
    }
    assert forall|i: int| 0 <= i < new.len() implies (#[trigger] new[i]).1 == all_values(
        more,
        new[i].0,
    ) && new[i].1.len() > 0 by {
        if i < list.len() {
            assert(new[i] == list[i]);
            assert(list[i].0 != n);
        }
    }
    assert forall|name: Seq<char>| #[trigger] all_values(more, name).len() > 0 implies exists|
        i: int,
    |
        0 <= i < new.len() && (#[trigger] new[i]).0 == name by {
        if name == n {
            assert(new[list.len() as int].0 == n);
        } else {
            assert(all_values(pairs, name).len() > 0);
            let i = choose|i: int| 0 <= i < list.len() && (#[trigger] list[i]).0 == name;
            assert(new[i].0 == name);
        }
    }
}

// ---- the table ------------------------------------------------------------------

/// The `body` field: always a table, so that walking it is safe.
pub enum BodyTable {
    Empty,
    /// One field per name.
    Fields(Vec<(String, String)>),
    /// The array or object that the body is.
    Json,
    /// A JSON value that is neither, as the first element.
    JsonScalar,
}

/// What a template sees of a request.
pub struct RequestTable {
    pub method: String,
    pub path: String,
    /// Nothing rather than a placeholder when there is no peer address.
    pub remote_addr: Option<String>,
    /// Each name of the query with its last value.
    pub query: Vec<(String, String)>,
    /// Each name of the query with all its values, in order.
    pub query_all: Vec<(String, Vec<String>)>,
    /// Names in lower case.
    pub headers: Vec<(String, String)>,
    pub cookies: Vec<(String, String)>,
    /// The bytes of a plain body that has any.
    pub raw_body: Option<Vec<u8>>,
    pub body: BodyTable,
    /// Uploads of a multipart request.
    pub files: Vec<UploadedFile>,
}

pub open spec fn is_form(content_type: Seq<char>) -> bool {
    "application/x-www-form-urlencoded"@.is_prefix_of(content_type)
}

pub open spec fn is_json(content_type: Seq<char>) -> bool {
    "application/json"@.is_prefix_of(content_type) || "+json"@.is_suffix_of(content_type)
}

/// The content type of a request; none is the empty one.
pub open spec fn type_of(content_type: Option<String>) -> Seq<char> {
    match content_type {
        Some(ct) => ct@,
        None => Seq::empty(),
    }
}

/// `body` gives each name of `pairs` its last value.
pub open spec fn fields_of(body: BodyTable, pairs: Seq<(Seq<char>, Seq<char>)>) -> bool {
    match body {
        BodyTable::Fields(list) => {
            &&& distinct(runtime::pair_views(list@))
            &&& forall|name: Seq<char>| #[trigger]
                last_value(runtime::pair_views(list@), name) == last_value(pairs, name)
        },
        _ => false,
    }
}

/// What a plain body becomes, by its content type.
pub open spec fn plain_body_table(body: BodyTable, content_type: Seq<char>, bytes: Seq<u8>) -> bool {
    if bytes.len() == 0 && !is_json(content_type) {
        body is Empty
    } else if is_form(content_type) {
        fields_of(body, form_pairs(bytes))
    } else if is_json(content_type) {
        match json_shape(bytes) {
            JsonShape::Array | JsonShape::Object => body is Json,
            JsonShape::Invalid => body is Empty,
            _ => body is JsonScalar,
        }
    } else {
        body is Empty
    }
}

fn plain_table(content_type: &str, bytes: &[u8]) -> (body: BodyTable)
    ensures
        plain_body_table(body, content_type@, bytes@),
{
    let json = text::has_prefix(content_type, "application/json") || text::has_suffix(
        content_type,
        "+json",
    );
    if bytes.len() == 0 && !json {
        return BodyTable::Empty;
    }
    if text::has_prefix(content_type, "application/x-www-form-urlencoded") {
        let pairs = match urlencoded_pairs(bytes) {
            Some(pairs) => pairs,
            None => Vec::new(),
        };
        return BodyTable::Fields(latest(&pairs));
    }
    if !json {
        return BodyTable::Empty;
    }
    body_of_shape(json_shape_of(bytes))
}

/// What a JSON body becomes: arrays and objects are the table, anything else its
/// first element, and what is no JSON nothing.
pub fn body_of_shape(shape: JsonShape) -> (body: BodyTable)
    ensures
        match shape {
            JsonShape::Array | JsonShape::Object => body is Json,
            JsonShape::Invalid => body is Empty,
            _ => body is JsonScalar,
        },
{
    match shape {
        JsonShape::Array => BodyTable::Json,
        JsonShape::Object => BodyTable::Json,
        JsonShape::Invalid => BodyTable::Empty,
        _ => BodyTable::JsonScalar,
    }
}

/// Builds the table for one request.
pub fn build_request_table(request: RequestData) -> (t: RequestTable)
    ensures
        t.method == request.method,
        t.path == request.path,
        t.remote_addr == request.remote_addr,
        t.headers == request.headers,
        t.cookies == request.cookies,
        ({
            let pairs = form_pairs(encode_utf8(request.query_string@));
            &&& distinct(runtime::pair_views(t.query@))
            &&& forall|name: Seq<char>| #[trigger]
                last_value(runtime::pair_views(t.query@), name) == last_value(pairs, name)
            &&& groups_of(group_views(t.query_all@), pairs)
        }),
        match request.body {
            RequestBody::Multipart { fields, files } => {
                &&& t.raw_body is None
                &&& t.files == files
                &&& fields_of(t.body, runtime::pair_views(fields@))
            },
            RequestBody::Raw(bytes) => {
                &&& t.raw_body == (if bytes@.len() == 0 {
                    None
                } else {
                    Some(bytes)
                })
                &&& t.files@.len() == 0
                &&& plain_body_table(t.body, type_of(request.content_type), bytes@)
            },
        },
{
    let pairs = match urlencoded_pairs(request.query_string.as_str().as_bytes()) {
        Some(pairs) => pairs,
        None => Vec::new(),
    };
    let query = latest(&pairs);
    let query_all = grouped(&pairs);
    let (raw_body, body, files) = match request.body {
        RequestBody::Multipart { fields, files } => (
            None,
            BodyTable::Fields(latest(&fields)),
            files,
        ),
        RequestBody::Raw(bytes) => {
            let body = match &request.content_type {
                Some(ct) => plain_table(ct.as_str(), bytes.as_slice()),
                None => {
                    let none = String::new();
                    plain_table(none.as_str(), bytes.as_slice())
                },
            };
            let raw = if bytes.len() == 0 {
                None
            } else {
                Some(bytes)
            };
            (raw, body, Vec::new())
        },
    };
    RequestTable {
        method: request.method,
        path: request.path,
        remote_addr: request.remote_addr,
        query,
        query_all,
        headers: request.headers,
        cookies: request.cookies,
        raw_body,
        body,
        files,
    }
}

/// What a header lookup finds: the name as given, else in lower case.
pub open spec fn header_named(headers: Seq<(Seq<char>, Seq<char>)>, name: Seq<char>) -> Option<
    Seq<char>,
> {
    match last_value(headers, name) {
        Some(v) => Some(v),
        None => last_value(headers, text::lowercase_of(name)),
    }
}

fn find_last(pairs: &Vec<(String, String)>, name: &str) -> (r: Option<usize>)
    ensures
        match r {
            Some(i) => i < pairs@.len() && last_value(runtime::pair_views(pairs@), name@) == Some(
                pairs@[i as int].1@,
            ),
            None => last_value(runtime::pair_views(pairs@), name@) is None,
        },
{
    let ghost all = runtime::pair_views(pairs@);
    let mut i: usize = pairs.len();
    assert(all.take(i as int) =~= all);
    while i > 0
        invariant
            i <= pairs@.len(),
            all == runtime::pair_views(pairs@),
            last_value(all.take(i as int), name@) == last_value(all, name@),
        decreases i,
    {
        assert(all.take(i as int).last() == (pairs@[i - 1].0@, pairs@[i - 1].1@));
        assert(all.take(i as int).drop_last() =~= all.take(i - 1));
        if text::same(pairs[i - 1].0.as_str(), name) {
            return Some(i - 1);
        }
        i = i - 1;
    }
    None
}

/// What a header is stored under, whatever the case it is asked for in.
pub fn header_key(name: &str) -> (key: String)
    ensures
        key@ == text::lowercase_of(name@),
{
    text::to_lowercase(name)
}

/// A header by name, in any case: names are stored in lower case.
pub fn header(headers: &Vec<(String, String)>, name: &str) -> (r: Option<String>)
    ensures
        match r {
            Some(v) => header_named(runtime::pair_views(headers@), name@) == Some(v@),
            None => header_named(runtime::pair_views(headers@), name@) is None,
        },
{
    match find_last(headers, name) {
        Some(i) => {
            return Some(headers[i].1.clone());
        },
        None => {},
    }
    let key = header_key(name);
    match find_last(headers, key.as_str()) {
        Some(i) => Some(headers[i].1.clone()),
        None => None,
    }
}

} // verus!
