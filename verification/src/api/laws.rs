//! What holds of everything a template is given and can ask for: how a body is read,
//! what becomes of repeated names, and which files, cookies and redirects are
//! accepted.

use vstd::prelude::*;
use crate::api;
use crate::api::request;
use crate::api::request::{BodyTable, JsonShape};
use crate::api::response;
use crate::api::response::CookieSpec;
use crate::path;
use crate::runtime;
use crate::text;
use crate::web;

verus! {

// ---- bodies ---------------------------------------------------------------------

/// A JSON value that is neither an array nor an object.
pub open spec fn scalar(shape: JsonShape) -> bool {
    shape is Null || shape is Bool || shape is Number || shape is Text
}

/// JSON is read as JSON whatever its content type goes on with, such as a character
/// set: an array or an object becomes the table, any other value its first element,
/// and what is no JSON nothing. An empty body is held to the same.
pub proof fn law_json_bodies_are_read(body: BodyTable, ps: Seq<char>, bytes: Seq<u8>)
    requires
        request::plain_body_table(body, "application/json"@ + ps, bytes),
    ensures
        request::json_shape(bytes) is Object || request::json_shape(bytes) is Array ==> body is Json,
        scalar(request::json_shape(bytes)) ==> body is JsonScalar,
        request::json_shape(bytes) is Invalid ==> body is Empty,
{
    let ct = "application/json"@ + ps;
    reveal_strlit("application/json");
    reveal_strlit("application/x-www-form-urlencoded");
    assert("application/json"@.is_prefix_of(ct));
    if "application/x-www-form-urlencoded"@.is_prefix_of(ct) {
        assert(ct[12] == "application/json"@[12]);
        assert(ct.take(33)[12] == "application/x-www-form-urlencoded"@[12]);
    }
}

/// So is every type that ends in `+json`.
pub proof fn law_json_suffixes_are_read(body: BodyTable, kind: Seq<char>, bytes: Seq<u8>)
    requires
        !"application/x-www-form-urlencoded"@.is_prefix_of(kind + "+json"@),
        request::plain_body_table(body, kind + "+json"@, bytes),
    ensures
        request::json_shape(bytes) is Object || request::json_shape(bytes) is Array ==> body is Json,
        scalar(request::json_shape(bytes)) ==> body is JsonScalar,
        request::json_shape(bytes) is Invalid ==> body is Empty,
{
    assert("+json"@.is_suffix_of(kind + "+json"@));
}

/// A form is read as a form whatever its content type goes on with: each name has the
/// last value it was sent with. Without a byte there is nothing to read.
pub proof fn law_form_bodies_are_read(
    body: BodyTable,
    ps: Seq<char>,
    bytes: Seq<u8>,
    name: Seq<char>,
)
    requires
        request::plain_body_table(body, "application/x-www-form-urlencoded"@ + ps, bytes),
        bytes.len() > 0,
    ensures
        body is Fields,
        request::last_value(runtime::pair_views(body->Fields_0@), name) == request::last_value(
            request::form_pairs(bytes),
            name,
        ),
{
    let ct = "application/x-www-form-urlencoded"@ + ps;
    assert("application/x-www-form-urlencoded"@.is_prefix_of(ct));
}

/// A body of any other type is left alone, and so is an empty one that is no JSON.
pub proof fn law_other_bodies_are_left_alone(body: BodyTable, ct: Seq<char>, bytes: Seq<u8>)
    requires
        request::plain_body_table(body, ct, bytes),
        !"application/json"@.is_prefix_of(ct),
        !"+json"@.is_suffix_of(ct),
        bytes.len() == 0 || !"application/x-www-form-urlencoded"@.is_prefix_of(ct),
    ensures
        body is Empty,
{
}

proof fn lemma_first_of(a: Seq<u8>, b: u8, rest: Seq<u8>)
    requires
        !a.contains(b),
    ensures
        request::first_of(a + seq![b] + rest, b) == a.len(),
        request::first_of(a, b) == a.len(),
    decreases a.len(),
{
    let s = a + seq![b] + rest;
    if a.len() == 0 {
        assert(s[0] == b);
    } else {
        let less = a.skip(1);
        assert forall|i: int| 0 <= i < less.len() implies less[i] != b by {
            assert(less[i] == a[i + 1]);
        }
        lemma_first_of(less, b, rest);
        assert(a.contains(a[0]));
        assert(s[0] == a[0]);
        assert(s.skip(1) =~= less + seq![b] + rest);
    }
}

/// A form is read part by part: what stands between two `&` is one pair, split at its
/// first `=`, and parts that are empty count for nothing.
pub proof fn law_forms_are_read_part_by_part(name: Seq<u8>, value: Seq<u8>, rest: Seq<u8>)
    requires
        !name.contains(0x26u8),
        !name.contains(0x3du8),
        !value.contains(0x26u8),
    ensures
        request::form_pairs(Seq::empty()) == Seq::<(Seq<char>, Seq<char>)>::empty(),
        request::form_pairs(seq![0x26u8] + rest) == request::form_pairs(rest),
        request::form_pairs(name + seq![0x3du8] + value + seq![0x26u8] + rest) == seq![
            (request::form_text(name), request::form_text(value)),
        ] + request::form_pairs(rest),
        request::form_pairs(name + seq![0x3du8] + value) == seq![
            (request::form_text(name), request::form_text(value)),
        ],
{
    let amp = seq![0x26u8] + rest;
    assert(amp[0] == 0x26);
    assert(request::first_of(amp, 0x26) == 0);
    assert(amp.skip(1) =~= rest);
    let part = name + seq![0x3du8] + value;
    assert forall|i: int| 0 <= i < part.len() implies part[i] != 0x26u8 by {
        if i < name.len() {
            assert(name.contains(part[i]));
        } else if i > name.len() {
            assert(value.contains(value[i - name.len() - 1]));
            assert(part[i] == value[i - name.len() - 1]);
        } else {
            assert(part[i] == 0x3d);
        }
    }
    assert(!part.contains(0x26u8));
    let s = part + seq![0x26u8] + rest;
    lemma_first_of(part, 0x26, rest);
    let i = part.len() as int;
    assert(s.take(i) =~= part);
    assert(s.skip(i + 1) =~= rest);
    assert(part.take(i) =~= part);
    lemma_first_of(name, 0x3d, value);
    let k = name.len() as int;
    assert(part.take(k) =~= name);
    assert(part.skip(k + 1) =~= value);
    let pair = seq![(request::form_text(name), request::form_text(value))];
    assert(pair + Seq::empty() =~= pair);
}

/// In a form a `+` is a space.
pub proof fn law_plus_is_a_space_in_forms(bytes: Seq<u8>)
    requires
        !bytes.contains(0x25u8),
    ensures
        request::form_text(bytes) == text::lossy_utf8(
            Seq::new(
                bytes.len(),
                |i: int|
                    if bytes[i] == 0x2b {
                        0x20u8
                    } else {
                        bytes[i]
                    },
            ),
        ),
{
    let spaced = Seq::new(
        bytes.len(),
        |i: int|
            if bytes[i] == 0x2b {
                0x20u8
            } else {
                bytes[i]
            },
    );
    let mapped = bytes.map_values(
        |b: u8|
            if b == 0x2b {
                0x20u8
            } else {
                b
            },
    );
    assert(mapped =~= spaced);
    assert forall|i: int| 0 <= i < spaced.len() implies #[trigger] spaced[i] != 0x25 by {
        assert(bytes.contains(bytes[i]));
    }
    web::laws::lemma_plain_bytes(spaced);
}

// ---- repeated names -------------------------------------------------------------

/// The last value under a name wins, all of them are kept in order, and one name
/// leaves the others alone.
pub proof fn law_values_are_kept_by_name(
    pairs: Seq<(Seq<char>, Seq<char>)>,
    name: Seq<char>,
    value: Seq<char>,
    other: Seq<char>,
)
    requires
        other != name,
    ensures
        request::last_value(Seq::empty(), name) is None,
        request::last_value(pairs.push((name, value)), name) == Some(value),
        request::last_value(pairs.push((name, value)), other) == request::last_value(pairs, other),
        request::all_values(Seq::empty(), name) == Seq::<Seq<char>>::empty(),
        request::all_values(pairs.push((name, value)), name) == request::all_values(
            pairs,
            name,
        ).push(value),
        request::all_values(pairs.push((name, value)), other) == request::all_values(pairs, other),
{
    assert(pairs.push((name, value)).drop_last() =~= pairs);
}

/// Every pair of a form is found among its groups, under its own name.
pub proof fn law_no_value_is_lost(
    groups: Seq<(Seq<char>, Seq<Seq<char>>)>,
    pairs: Seq<(Seq<char>, Seq<char>)>,
    i: int,
)
    requires
        request::groups_of(groups, pairs),
        0 <= i < pairs.len(),
    ensures
        exists|g: int|
            0 <= g < groups.len() && (#[trigger] groups[g]).0 == pairs[i].0 && groups[g].1.contains(
                pairs[i].1,
            ),
{
    lemma_value_kept(pairs, i);
    let name = pairs[i].0;
    assert(request::all_values(pairs, name).len() > 0);
    let g = choose|g: int| 0 <= g < groups.len() && (#[trigger] groups[g]).0 == name;
    assert(groups[g].1 == request::all_values(pairs, name));
}

proof fn lemma_value_kept(pairs: Seq<(Seq<char>, Seq<char>)>, i: int)
    requires
        0 <= i < pairs.len(),
    ensures
        request::all_values(pairs, pairs[i].0).contains(pairs[i].1),
    decreases pairs.len(),
{
    let name = pairs[i].0;
    let all = request::all_values(pairs, name);
    let front = pairs.drop_last();
    if i == pairs.len() - 1 {
        assert(all.last() == pairs[i].1);
    } else {
        lemma_value_kept(front, i);
        let less = request::all_values(front, name);
        let k = choose|k: int| 0 <= k < less.len() && less[k] == pairs[i].1;
        assert(all[k] == less[k]);
    }
}

/// A header is found under its name in lower case, whatever the case it is asked for
/// in.
pub proof fn law_headers_are_found_in_any_case(
    headers: Seq<(Seq<char>, Seq<char>)>,
    name: Seq<char>,
    value: Seq<char>,
)
    requires
        request::last_value(headers, text::lowercase_of(name)) == Some(value),
        request::last_value(headers, name) is None || name == text::lowercase_of(name),
    ensures
        request::header_named(headers, name) == Some(value),
{
}

/// A header that is there under neither is not found.
pub proof fn law_missing_headers_are_missing(headers: Seq<(Seq<char>, Seq<char>)>, name: Seq<char>)
    requires
        request::last_value(headers, text::lowercase_of(name)) is None,
        request::last_value(headers, name) is None,
    ensures
        request::header_named(headers, name) is None,
{
}

// ---- redirects and cookies --------------------------------------------------------

/// A redirect goes out with the status that was asked for, and with 302 where none was.
pub proof fn law_redirects_keep_their_status(n: u16)
    ensures
        response::redirect_status(Some(n)) == n,
        response::redirect_status(None) == 302,
{
}

/// A cookie with a name and a value is accepted, with one of the three modes in any
/// case or with none; every other one is refused.
pub proof fn law_cookies_need_a_name_and_a_value(spec: CookieSpec)
    ensures
        response::cookie_refusal(spec) is None <==> spec.name is Some && spec.value is Some && (
        spec.same_site is None || {
            let w = text::lowercase_of(spec.same_site->0@);
            w == seq!['s', 't', 'r', 'i', 'c', 't'] || w == seq!['l', 'a', 'x'] || w == seq![
                'n',
                'o',
                'n',
                'e',
            ]
        }),
        spec.name is None ==> response::cookie_refusal(spec)
            == Some("set_cookie: 'name' field is required"@),
        spec.name is Some && spec.value is None ==> response::cookie_refusal(spec)
            == Some("set_cookie: 'value' field is required"@),
        spec.name is Some && spec.value is Some && response::cookie_refusal(spec) is Some
            ==> spec.same_site is Some && response::cookie_refusal(spec) == Some(
            "set_cookie: same_site must be 'strict', 'lax' or 'none', got '"@ + spec.same_site->0@
                + seq!['\''],
        ),
{
    reveal_strlit("'");
    assert("'"@ =~= seq!['\'']);
    reveal_strlit("strict");
    reveal_strlit("lax");
    reveal_strlit("none");
    assert("strict"@ =~= seq!['s', 't', 'r', 'i', 'c', 't']);
    assert("lax"@ =~= seq!['l', 'a', 'x']);
    assert("none"@ =~= seq!['n', 'o', 'n', 'e']);
}

// ---- includes and files -----------------------------------------------------------

/// Every template of the serve directory can be rendered in place, up to sixteen deep;
/// nothing else can.
pub proof fn law_templates_can_be_included(
    depth: u32,
    serve_dir: Seq<u8>,
    rel: Seq<char>,
    canonical: Option<Seq<u8>>,
)
    ensures
        response::include_refusal(depth, serve_dir, rel, canonical) is None <==> depth < 16
            && canonical is Some && path::within(canonical->0, serve_dir) && path::lhtml_file(
            canonical->0,
        ),
        depth < 16 && canonical is None ==> response::include_refusal(
            depth,
            serve_dir,
            rel,
            canonical,
        ) == Some("include: file not found: "@ + rel),
        depth < 16 && canonical is Some && !path::within(canonical->0, serve_dir)
            ==> response::include_refusal(depth, serve_dir, rel, canonical) == Some(
            "include: path escapes the serve directory: "@ + rel,
        ),
        depth < 16 && canonical is Some && path::within(canonical->0, serve_dir)
            && !path::lhtml_file(canonical->0) ==> response::include_refusal(
            depth,
            serve_dir,
            rel,
            canonical,
        ) == Some(
            "include: only .lhtml files can be included (use require() for .lua modules)"@,
        ),
        depth >= 16 ==> response::include_refusal(depth, serve_dir, rel, canonical) == Some(
            "include: depth limit (16) exceeded — recursive include?"@,
        ),
{
}

/// Every file of the data directory can be sent, source and hidden ones too, and so
/// can every file of the serve directory that is no source and has no hidden name on
/// its way; nothing else can.
pub proof fn law_public_files_can_be_sent(
    data_dir: Seq<u8>,
    serve_dir: Seq<u8>,
    shown: Seq<char>,
    p: Seq<u8>,
)
    requires
        path::absolute(serve_dir),
    ensures
        path::within(p, data_dir) ==> response::send_refusal(
            data_dir,
            serve_dir,
            shown,
            Some(p),
            true,
        ) is None,
        path::within(p, serve_dir) && !path::lua_file(p) && !web::laws::dotted_from(
            p,
            path::components(serve_dir).len() as int,
        ) ==> response::send_refusal(data_dir, serve_dir, shown, Some(p), true) is None,
        path::within(p, data_dir) || path::within(p, serve_dir) ==> response::send_refusal(
            data_dir,
            serve_dir,
            shown,
            Some(p),
            false,
        ) == Some("send_file: not a regular file: "@ + shown),
        response::send_refusal(data_dir, serve_dir, shown, None, true) == Some(
            "send_file: file not found: "@ + shown,
        ),
        !path::within(p, data_dir) && !path::within(p, serve_dir) ==> response::send_refusal(
            data_dir,
            serve_dir,
            shown,
            Some(p),
            true,
        ) == Some("send_file: path is outside the data and serve directories: "@ + shown),
        !path::within(p, data_dir) && path::within(p, serve_dir) && path::lua_file(p)
            ==> response::send_refusal(data_dir, serve_dir, shown, Some(p), true) == Some(
            "send_file: refusing to send Lua source from the serve directory: "@ + shown,
        ),
        !path::within(p, data_dir) && path::within(p, serve_dir) && !path::lua_file(p)
            && web::laws::dotted_from(p, path::components(serve_dir).len() as int)
            ==> response::send_refusal(data_dir, serve_dir, shown, Some(p), true) == Some(
            "send_file: refusing to send a hidden file from the serve directory: "@ + shown,
        ),
{
    web::laws::law_hiding_starts_below_the_directory(p, serve_dir);
}

// ---- escaping -------------------------------------------------------------------

/// Bytes are escaped one by one: put together they come out put together, and every
/// byte but the five comes out as it is, above ASCII too.
pub proof fn law_bytes_are_escaped_one_by_one(a: Seq<u8>, b: u8)
    ensures
        api::escaped(Seq::empty()) == Seq::<u8>::empty(),
        b != 0x26 && b != 0x3c && b != 0x3e && b != 0x22 && b != 0x27 ==> api::escaped(a.push(b))
            == api::escaped(a).push(b),
        b == 0x26 ==> api::escaped(a.push(b)) == api::escaped(a) + seq![
            0x26u8,
            0x61u8,
            0x6du8,
            0x70u8,
            0x3bu8,
        ],
        b == 0x3c ==> api::escaped(a.push(b)) == api::escaped(a) + seq![
            0x26u8,
            0x6cu8,
            0x74u8,
            0x3bu8,
        ],
        b == 0x3e ==> api::escaped(a.push(b)) == api::escaped(a) + seq![
            0x26u8,
            0x67u8,
            0x74u8,
            0x3bu8,
        ],
        b == 0x22 ==> api::escaped(a.push(b)) == api::escaped(a) + seq![
            0x26u8,
            0x71u8,
            0x75u8,
            0x6fu8,
            0x74u8,
            0x3bu8,
        ],
        b == 0x27 ==> api::escaped(a.push(b)) == api::escaped(a) + seq![
            0x26u8,
            0x23u8,
            0x78u8,
            0x32u8,
            0x37u8,
            0x3bu8,
        ],
{
    assert(a.push(b).drop_last() =~= a);
    reveal_strlit("&amp;");
    reveal_strlit("&lt;");
    reveal_strlit("&gt;");
    reveal_strlit("&quot;");
    reveal_strlit("&#x27;");
    vstd::utf8::is_ascii_chars_encode_utf8("&amp;"@);
    vstd::utf8::is_ascii_chars_encode_utf8("&lt;"@);
    vstd::utf8::is_ascii_chars_encode_utf8("&gt;"@);
    vstd::utf8::is_ascii_chars_encode_utf8("&quot;"@);
    vstd::utf8::is_ascii_chars_encode_utf8("&#x27;"@);
    assert(api::escaped(a).push(b) =~= api::escaped(a) + seq![b]);
}

/// The content type that decides is the one that came, as it came.
pub proof fn law_content_types_are_taken_as_they_came(ct: String)
    ensures
        request::type_of(Some(ct)) == ct@,
        request::type_of(None) == Seq::<char>::empty(),
{
}

/// No pair is lost, moved or changed where pairs of strings are spoken of.
pub proof fn law_pairs_are_what_they_hold(
    pairs: Seq<(String, String)>,
    groups: Seq<(String, Vec<String>)>,
    list: Seq<String>,
    i: int,
    j: int,
)
    ensures
        runtime::pair_views(pairs).len() == pairs.len(),
        0 <= i < pairs.len() ==> runtime::pair_views(pairs)[i] == (pairs[i].0@, pairs[i].1@),
        request::group_views(groups).len() == groups.len(),
        0 <= i < groups.len() ==> request::group_views(groups)[i].0 == groups[i].0@
            && request::group_views(groups)[i].1.len() == groups[i].1@.len(),
        0 <= i < groups.len() && 0 <= j < groups[i].1@.len() ==> request::group_views(
            groups,
        )[i].1[j] == groups[i].1@[j]@,
        text::views(list).len() == list.len(),
        0 <= i < list.len() ==> text::views(list)[i] == list[i]@,
{
}

/// A list of fields has every name once, with the last value it was sent with, and no
/// name that was not sent.
pub proof fn law_fields_have_every_name_once(
    body: BodyTable,
    pairs: Seq<(Seq<char>, Seq<char>)>,
    i: int,
    j: int,
    name: Seq<char>,
)
    requires
        request::fields_of(body, pairs),
    ensures
        body is Fields,
        0 <= i < j < body->Fields_0@.len() ==> body->Fields_0@[i].0@ != body->Fields_0@[j].0@,
        0 <= i < body->Fields_0@.len() ==> request::last_value(pairs, body->Fields_0@[i].0@)
            == Some(body->Fields_0@[i].1@),
        request::last_value(pairs, name) is Some ==> exists|k: int|
            0 <= k < body->Fields_0@.len() && (#[trigger] body->Fields_0@[k]).0@ == name,
{
    let list = runtime::pair_views(body->Fields_0@);
    if 0 <= i < j < list.len() {
        assert(list[i].0 != list[j].0);
    }
    if 0 <= i < list.len() {
        assert(list[i] == (body->Fields_0@[i].0@, body->Fields_0@[i].1@));
        request::lemma_last_value(list, list[i].0, i);
        assert(request::last_value(list, list[i].0) == request::last_value(pairs, list[i].0));
    }
    if request::last_value(pairs, name) is Some {
        assert(request::last_value(list, name) is Some);
        lemma_named(list, name);
        let k = choose|k: int| 0 <= k < list.len() && (#[trigger] list[k]).0 == name;
        assert(body->Fields_0@[k].0@ == name);
    }
}

proof fn lemma_named(list: Seq<(Seq<char>, Seq<char>)>, name: Seq<char>)
    requires
        request::last_value(list, name) is Some,
    ensures
        exists|k: int| 0 <= k < list.len() && (#[trigger] list[k]).0 == name,
    decreases list.len(),
{
    if list.last().0 == name {
        assert(list[list.len() - 1].0 == name);
    } else {
        let front = list.drop_last();
        lemma_named(front, name);
        let k = choose|k: int| 0 <= k < front.len() && (#[trigger] front[k]).0 == name;
        assert(list[k].0 == name);
    }
}

/// A list without repetitions names nothing twice, and neither do groups of values,
/// each of which has at least one.
pub proof fn law_names_are_listed_once(
    pairs: Seq<(Seq<char>, Seq<char>)>,
    groups: Seq<(Seq<char>, Seq<Seq<char>>)>,
    i: int,
    j: int,
)
    requires
        0 <= i < j,
    ensures
        request::distinct(pairs) && j < pairs.len() ==> pairs[i].0 != pairs[j].0,
        request::groups_of(groups, pairs) && j < groups.len() ==> groups[i].0 != groups[j].0
            && groups[i].1 == request::all_values(pairs, groups[i].0) && groups[i].1.len() > 0,
{
}

} // verus!
