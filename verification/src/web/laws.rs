//! What holds of every request: which files are sent, how a request path is read,
//! how headers are put together and which status goes out.

use vstd::prelude::*;
use vstd::utf8::*;
use crate::api;
use crate::config::Config;
use crate::path;
use crate::runtime;
use crate::runtime::RenderError;
use crate::text;
use crate::value::ValueView;
use crate::web;
use crate::web::{Page, RouteView, SameSite};
use crate::web::handlers;

verus! {

// ---- routing --------------------------------------------------------------------

/// A name that hides what it names: it starts with a dot and is neither `.` nor `..`.
pub open spec fn dotted(name: Seq<u8>) -> bool {
    name.len() > 0 && name[0] == 0x2e && name != seq![0x2eu8] && name != seq![0x2eu8, 0x2eu8]
}

/// Some component of `p` from the `n`th on hides it.
pub open spec fn dotted_from(p: Seq<u8>, n: int) -> bool {
    exists|k: int| n <= k < path::components(p).len() && dotted(#[trigger] path::components(p)[k])
}

/// A file below a directory is hidden exactly when a name behind the directory's own
/// starts with a dot; what is not below it counts as hidden.
pub proof fn law_hiding_starts_below_the_directory(p: Seq<u8>, dir: Seq<u8>)
    requires
        path::absolute(dir),
    ensures
        path::within(p, dir) ==> (web::hidden_below(p, dir) <==> dotted_from(
            p,
            path::components(dir).len() as int,
        )),
        !path::within(p, dir) ==> web::hidden_below(p, dir),
{
    path::law_stripping_leaves_the_rest(p, dir);
    if path::within(p, dir) {
        let rel = path::stripped(p, dir)->0;
        let n = path::components(dir).len() as int;
        path::law_hidden_names_start_with_a_dot(rel);
        if dotted_from(p, n) {
            let k = choose|k: int|
                n <= k < path::components(p).len() && dotted(#[trigger] path::components(p)[k]);
            assert(path::components(rel)[k - n] == path::components(p)[k]);
        }
        if path::has_hidden(rel) {
            let k = choose|k: int|
                0 <= k < path::components(rel).len() && (#[trigger] path::components(
                    rel,
                )[k]).len() > 0 && path::components(rel)[k][0] == 0x2e && path::components(rel)[k]
                    != seq![0x2eu8] && path::components(rel)[k] != seq![0x2eu8, 0x2eu8];
            assert(path::components(p)[n + k] == path::components(rel)[k]);
            assert(dotted(path::components(p)[n + k]));
        }
    }
}

/// Every ordinary file is sent: below the serve directory, at any depth, with static
/// files on, what is neither a template nor a module and has no hidden name on its way
/// is answered with itself, whatever the fallback.
pub proof fn law_ordinary_files_are_sent(
    serve_dir: Seq<u8>,
    fallback: Option<Seq<u8>>,
    p: Seq<u8>,
)
    requires
        path::absolute(serve_dir),
        path::within(p, serve_dir),
        !path::lhtml_file(p),
        !path::lua_file(p),
        forall|k: int|
            path::components(serve_dir).len() <= k < path::components(p).len() ==> !dotted(
                #[trigger] path::components(p)[k],
            ),
    ensures
        web::route_of(serve_dir, fallback, true, Some(p)) == RouteView::Static(p),
        web::route_of(serve_dir, fallback, false, Some(p)) == RouteView::NotFound,
{
    law_hiding_starts_below_the_directory(p, serve_dir);
}

/// A file in a directory of any depth is sent: `rel` leads from the serve directory to
/// it by names of which none starts with a dot.
pub proof fn law_files_are_sent_at_any_depth(
    serve_dir: Seq<u8>,
    fallback: Option<Seq<u8>>,
    rel: Seq<u8>,
)
    requires
        path::absolute(serve_dir),
        forall|k: int|
            0 <= k < path::components(rel).len() ==> path::normal(
                #[trigger] path::components(rel)[k],
            ) && path::components(rel)[k][0] != 0x2e,
        !path::lhtml_file(path::joined(serve_dir, rel)),
        !path::lua_file(path::joined(serve_dir, rel)),
    ensures
        web::route_of(serve_dir, fallback, true, Some(path::joined(serve_dir, rel)))
            == RouteView::Static(path::joined(serve_dir, rel)),
{
    let p = path::joined(serve_dir, rel);
    let n = path::components(serve_dir).len() as int;
    path::law_normal_paths_stay_within(serve_dir, rel);
    assert forall|k: int| n <= k < path::components(p).len() implies !dotted(
        #[trigger] path::components(p)[k],
    ) by {
        assert(path::components(p)[k] == path::components(rel)[k - n]);
    }
    law_ordinary_files_are_sent(serve_dir, fallback, p);
}

/// Every template below the serve directory is rendered, static files or not.
pub proof fn law_templates_are_rendered(
    serve_dir: Seq<u8>,
    fallback: Option<Seq<u8>>,
    static_files: bool,
    p: Seq<u8>,
)
    requires
        path::within(p, serve_dir),
        path::lhtml_file(p),
    ensures
        web::route_of(serve_dir, fallback, static_files, Some(p)) == RouteView::Template(p),
{
}

/// What is missing goes to the fallback where there is one, and what is there but not
/// to be sent is not found.
pub proof fn law_what_is_not_sent_is_not_found(
    serve_dir: Seq<u8>,
    fallback: Seq<u8>,
    static_files: bool,
    p: Seq<u8>,
    k: int,
)
    requires
        path::absolute(serve_dir),
        path::within(p, serve_dir),
        !path::lhtml_file(p),
    ensures
        web::route_of(serve_dir, Some(fallback), static_files, None) == RouteView::Template(
            fallback,
        ),
        web::route_of(serve_dir, None, static_files, None) == RouteView::NotFound,
        path::lua_file(p) ==> web::route_of(serve_dir, Some(fallback), static_files, Some(p))
            == RouteView::NotFound,
        path::components(serve_dir).len() <= k < path::components(p).len() && dotted(
            path::components(p)[k],
        ) ==> web::route_of(serve_dir, Some(fallback), static_files, Some(p))
            == RouteView::NotFound,
{
    law_hiding_starts_below_the_directory(p, serve_dir);
}

/// A template is named in messages by its path below the serve directory.
pub proof fn law_templates_are_named_by_their_place(
    p: Seq<u8>,
    serve_dir: Seq<u8>,
    decoded: Seq<char>,
) -> (rel: Seq<u8>)
    requires
        path::absolute(serve_dir),
    ensures
        path::within(p, serve_dir) ==> web::display_text(p, serve_dir, decoded)
            == text::lossy_utf8(rel) && path::components(p) == path::components(serve_dir)
            + path::components(rel),
        !path::within(p, serve_dir) ==> web::display_text(p, serve_dir, decoded) == decoded,
{
    path::law_stripping_leaves_the_rest(p, serve_dir);
    let n = path::components(serve_dir).len() as int;
    match path::stripped(p, serve_dir) {
        Some(rel) => {
            assert(path::components(p) =~= path::components(p).take(n) + path::components(p).skip(
                n,
            ));
            assert(path::components(p).take(n) =~= path::components(serve_dir));
            rel
        },
        None => Seq::empty(),
    }
}

// ---- request paths --------------------------------------------------------------

/// A hexadecimal digit, in either case.
pub open spec fn hex_byte(d: int, upper: bool) -> u8 {
    if d < 10 {
        (0x30 + d) as u8
    } else if upper {
        (0x41 + d - 10) as u8
    } else {
        (0x61 + d - 10) as u8
    }
}

/// Every byte can be written as `%` and two hexadecimal digits in either case, and is
/// read back from them.
pub proof fn law_percent_escapes_read_back(b: u8, first_upper: bool, second_upper: bool, rest: Seq<u8>)
    ensures
        web::percent_decoded(
            seq![0x25u8, hex_byte(b as int / 16, first_upper), hex_byte(b as int % 16, second_upper)]
                + rest,
        ) == seq![b] + web::percent_decoded(rest),
{
    let x = hex_byte(b as int / 16, first_upper);
    let y = hex_byte(b as int % 16, second_upper);
    let s = seq![0x25u8, x, y] + rest;
    assert(s[0] == 0x25 && s[1] == x && s[2] == y);
    assert(s.skip(3) =~= rest);
    assert(web::hex_digit(x) == Some(b as int / 16));
    assert(web::hex_digit(y) == Some(b as int % 16));
}

/// Any other byte stands for itself, a `%` that no two digits follow too.
pub proof fn law_other_bytes_stand_for_themselves(b: u8, rest: Seq<u8>)
    requires
        b == 0x25 ==> rest.len() < 2 || !is_hex(rest[0]) || !is_hex(rest[1]),
    ensures
        web::percent_decoded(seq![b] + rest) == seq![b] + web::percent_decoded(rest),
        web::percent_decoded(Seq::empty()) == Seq::<u8>::empty(),
{
    let s = seq![b] + rest;
    assert(s[0] == b);
    assert(s.skip(1) =~= rest);
    if rest.len() >= 2 {
        assert(s[1] == rest[0] && s[2] == rest[1]);
    }
}

/// `0` to `9`, `A` to `F` or `a` to `f`.
pub open spec fn is_hex(b: u8) -> bool {
    0x30 <= b <= 0x39 || 0x41 <= b <= 0x46 || 0x61 <= b <= 0x66
}

pub proof fn lemma_plain_bytes(bytes: Seq<u8>)
    requires
        forall|i: int| 0 <= i < bytes.len() ==> #[trigger] bytes[i] != 0x25,
    ensures
        web::percent_decoded(bytes) == bytes,
    decreases bytes.len(),
{
    if bytes.len() > 0 {
        let rest = bytes.skip(1);
        assert forall|i: int| 0 <= i < rest.len() implies #[trigger] rest[i] != 0x25 by {
            assert(rest[i] == bytes[i + 1]);
        }
        lemma_plain_bytes(rest);
        law_other_bytes_stand_for_themselves(bytes[0], rest);
        assert(bytes =~= seq![bytes[0]] + rest);
    }
}

proof fn lemma_percent_byte(c: char)
    requires
        c != '%',
    ensures
        forall|i: int|
            0 <= i < encode_scalar(c as u32).len() ==> #[trigger] encode_scalar(c as u32)[i] != 0x25,
{
    api::lemma_encode_scalar_bytes(c);
    if (c as u32) < 0x80 {
        assert(c as u8 as int == c as int);
    }
}

proof fn lemma_no_percent(raw: Seq<char>)
    requires
        !raw.contains('%'),
    ensures
        forall|i: int| 0 <= i < encode_utf8(raw).len() ==> #[trigger] encode_utf8(raw)[i] != 0x25,
    decreases raw.len(),
{
    if raw.len() > 0 {
        let rest = raw.drop_first();
        assert forall|i: int| 0 <= i < rest.len() implies rest[i] != '%' by {
            assert(rest[i] == raw[i + 1]);
        }
        lemma_no_percent(rest);
        let head = encode_scalar(raw[0] as u32);
        assert(raw.contains(raw[0]));
        lemma_percent_byte(raw[0]);
        let all = encode_utf8(raw);
        assert(all =~= head + encode_utf8(rest));
        assert forall|i: int| 0 <= i < all.len() implies #[trigger] all[i] != 0x25 by {
            if i < head.len() {
                assert(all[i] == head[i]);
            } else {
                assert(all[i] == encode_utf8(rest)[i - head.len()]);
            }
        }
    }
}

/// A path without `%` asks for itself, unless a NUL is in it.
pub proof fn law_plain_paths_are_taken_as_they_are(raw: Seq<char>)
    requires
        !raw.contains('%'),
    ensures
        !raw.contains('\0') ==> web::decoded_path(raw) == Some(raw),
        raw.contains('\0') ==> web::decoded_path(raw) is None,
{
    lemma_no_percent(raw);
    lemma_plain_bytes(encode_utf8(raw));
    encode_utf8_valid_utf8(raw);
    encode_utf8_decode_utf8(raw);
}

/// Whatever the escapes are, a path asks for the text that they write; bytes that are no
/// text, and text with a NUL, ask for nothing.
pub proof fn law_escaped_paths_ask_for_what_they_write(raw: Seq<char>, t: Seq<char>)
    ensures
        web::percent_decoded(encode_utf8(raw)) == encode_utf8(t) && !t.contains('\0')
            ==> web::decoded_path(raw) == Some(t),
        web::percent_decoded(encode_utf8(raw)) == encode_utf8(t) && t.contains('\0')
            ==> web::decoded_path(raw) is None,
        !valid_utf8(web::percent_decoded(encode_utf8(raw))) ==> web::decoded_path(raw) is None,
{
    encode_utf8_valid_utf8(t);
    encode_utf8_decode_utf8(t);
}

/// Whether some segment is `..` is told segment by segment: a word without separators
/// climbs only if it is `..`, and two texts with a separator between them climb if one
/// of them does.
pub proof fn law_climbing_is_told_by_segments(a: Seq<char>, sep: char, b: Seq<char>)
    requires
        sep == '/' || sep == '\\',
    ensures
        !a.contains('/') && !a.contains('\\') ==> (web::climbs(a) <==> a == seq!['.', '.']),
        web::climbs(a + seq![sep] + b) <==> web::climbs(a) || web::climbs(b),
{
    let s = a + seq![sep] + b;
    let n = a.len() as int;
    if !a.contains('/') && !a.contains('\\') {
        if web::climbs(a) {
            let i = choose|i: int|
                0 <= i <= a.len() - 2 && #[trigger] a[i] == '.' && a[i + 1] == '.' && (i == 0
                    || web::separates(a[i - 1])) && (i + 2 == a.len() || web::separates(a[i + 2]));
            if i > 0 {
                assert(a.contains(a[i - 1]));
            }
            if i + 2 < a.len() {
                assert(a.contains(a[i + 2]));
            }
            assert(a =~= seq!['.', '.']);
        }
        if a == seq!['.', '.'] {
            assert(a[0] == '.' && a[1] == '.');
        }
    }
    assert(s[n] == sep);
    if web::climbs(s) {
        let i = choose|i: int|
            0 <= i <= s.len() - 2 && #[trigger] s[i] == '.' && s[i + 1] == '.' && (i == 0
                || web::separates(s[i - 1])) && (i + 2 == s.len() || web::separates(s[i + 2]));
        if i + 2 <= n {
            assert(a[i] == s[i] && a[i + 1] == s[i + 1]);
            if i > 0 {
                assert(a[i - 1] == s[i - 1]);
            }
            if i + 2 < n {
                assert(a[i + 2] == s[i + 2]);
            }
            assert(web::climbs(a));
        } else {
            assert(i != n && i + 1 != n);
            let j = i - n - 1;
            assert(b[j] == s[i] && b[j + 1] == s[i + 1]);
            if j > 0 {
                assert(b[j - 1] == s[i - 1]);
            }
            if j + 2 < b.len() {
                assert(b[j + 2] == s[i + 2]);
            }
            assert(web::climbs(b));
        }
    }
    if web::climbs(a) {
        let i = choose|i: int|
            0 <= i <= a.len() - 2 && #[trigger] a[i] == '.' && a[i + 1] == '.' && (i == 0
                || web::separates(a[i - 1])) && (i + 2 == a.len() || web::separates(a[i + 2]));
        assert(s[i] == '.' && s[i + 1] == '.');
        if i > 0 {
            assert(s[i - 1] == a[i - 1]);
        }
        if i + 2 < n {
            assert(s[i + 2] == a[i + 2]);
        }
        assert(web::climbs(s));
    }
    if web::climbs(b) {
        let i = choose|i: int|
            0 <= i <= b.len() - 2 && #[trigger] b[i] == '.' && b[i + 1] == '.' && (i == 0
                || web::separates(b[i - 1])) && (i + 2 == b.len() || web::separates(b[i + 2]));
        let j = n + 1 + i;
        assert(s[j] == b[i] && s[j + 1] == b[i + 1]);
        if i > 0 {
            assert(s[j - 1] == b[i - 1]);
        }
        if i + 2 < b.len() {
            assert(s[j + 2] == b[i + 2]);
        }
        assert(web::climbs(s));
    }
}

/// A request names the file below the serve directory that its decoded path, without
/// the slashes in front, leads to; a broken encoding is a bad request and a `..`
/// is forbidden.
pub proof fn law_requests_name_files_below(
    serve_dir: Seq<u8>,
    raw: Seq<char>,
    slashes: nat,
    rel: Seq<char>,
)
    requires
        rel.len() == 0 || rel[0] != '/',
    ensures
        ({
            let decoded = Seq::new(slashes, |i: int| '/') + rel;
            &&& web::decoded_path(raw) == Some(decoded) && !web::climbs(rel) ==> web::target_of(
                serve_dir,
                raw,
            ) == Ok::<(Seq<char>, Seq<u8>), u16>(
                (decoded, path::joined(serve_dir, encode_utf8(rel))),
            )
            &&& web::decoded_path(raw) == Some(decoded) && web::climbs(rel) ==> web::target_of(
                serve_dir,
                raw,
            ) == Err::<(Seq<char>, Seq<u8>), u16>(403)
        }),
        web::decoded_path(raw) is None ==> web::target_of(serve_dir, raw) == Err::<
            (Seq<char>, Seq<u8>),
            u16,
        >(400),
{
    text::law_leading_slashes_are_dropped(slashes, rel);
}

// ---- statuses and headers -----------------------------------------------------------

/// Every status from 100 to 999 goes out as the template set it; HTTP has no others.
pub proof fn law_statuses_go_out_as_they_are(n: u16)
    ensures
        100 <= n <= 999 ==> web::sent_status(n) == n,
        n < 100 || n > 999 ==> web::sent_status(n) == 200,
{
}

/// What a template may set as its status is what the client sees.
pub proof fn law_accepted_statuses_are_sent(v: ValueView)
    requires
        runtime::status_of(v) is Some,
    ensures
        100 <= runtime::status_of(v)->0 <= 999,
        web::sent_status(runtime::status_of(v)->0) == runtime::status_of(v)->0,
{
}

/// No header is lost: what goes out starts with what the template set, in order, and a
/// content type is added only where none was set, in whatever case it was written.
pub proof fn law_headers_go_out_as_set(headers: Seq<(Seq<char>, Seq<char>)>, i: int)
    ensures
        headers.is_prefix_of(web::sent_headers(headers)),
        headers.is_prefix_of(handlers::answer_headers(headers)),
        0 <= i < headers.len() && text::same_letters(headers[i].0, "content-type"@)
            ==> web::sent_headers(headers) == headers && handlers::answer_headers(headers)
            == headers,
        (forall|k: int|
            0 <= k < headers.len() ==> !text::same_letters(
                (#[trigger] headers[k]).0,
                "content-type"@,
            )) ==> {
            &&& web::sent_headers(headers) == headers + seq![
                ("content-type"@, "text/html; charset=utf-8"@),
            ]
            &&& handlers::answer_headers(headers) == headers + seq![
                ("content-type"@, "text/html"@),
            ]
        },
{
    assert(headers.push(("content-type"@, "text/html; charset=utf-8"@)) =~= headers + seq![
        ("content-type"@, "text/html; charset=utf-8"@),
    ]);
    assert(headers.push(("content-type"@, "text/html"@)) =~= headers + seq![
        ("content-type"@, "text/html"@),
    ]);
    assert(headers.is_prefix_of(headers));
    assert(headers.is_prefix_of(headers + seq![("content-type"@, "text/html; charset=utf-8"@)]));
    assert(headers.is_prefix_of(headers + seq![("content-type"@, "text/html"@)]));
}

/// A header is found by its name in any case, wherever it stands, and by no other.
pub proof fn law_headers_are_found_by_name(
    headers: Seq<(Seq<char>, Seq<char>)>,
    header: (Seq<char>, Seq<char>),
    name: Seq<char>,
)
    ensures
        !web::names_header(Seq::empty(), name),
        web::names_header(headers.push(header), name) <==> web::names_header(headers, name)
            || text::same_letters(header.0, name),
{
    let all = headers.push(header);
    let n = headers.len() as int;
    if text::same_letters(header.0, name) {
        assert(all[n].0 == header.0);
    }
    if web::names_header(headers, name) {
        let i = choose|i: int|
            0 <= i < headers.len() && text::same_letters((#[trigger] headers[i]).0, name);
        assert(all[i] == headers[i]);
    }
    if web::names_header(all, name) {
        let i = choose|i: int|
            0 <= i < all.len() && text::same_letters((#[trigger] all[i]).0, name);
        if i < n {
            assert(all[i] == headers[i]);
        }
    }
}

/// The values that came under a name, in order.
pub open spec fn values_under(
    lines: Seq<(Seq<char>, Option<Seq<char>>)>,
    name: Seq<char>,
) -> Seq<Seq<char>>
    decreases lines.len(),
{
    if lines.len() == 0 {
        Seq::empty()
    } else {
        let front = values_under(lines.drop_last(), name);
        if text::lowercase_of(lines.last().0) == name && lines.last().1 is Some {
            front.push(lines.last().1->0)
        } else {
            front
        }
    }
}

/// A name that came once or more has its values in the order they came, with a comma
/// and a space between neighbours; one that came without text, or not at all, has
/// none.
pub proof fn law_repeated_headers_are_joined(
    lines: Seq<(Seq<char>, Option<Seq<char>>)>,
    name: Seq<char>,
)
    ensures
        web::collapsed(lines).contains_key(name) <==> values_under(lines, name).len() > 0,
        values_under(lines, name).len() > 0 ==> web::collapsed(lines)[name] == text::separated(
            values_under(lines, name),
            seq![',', ' '],
        ),
    decreases lines.len(),
{
    if lines.len() > 0 {
        reveal_strlit(", ");
        assert(", "@ =~= seq![',', ' ']);
        law_repeated_headers_are_joined(lines.drop_last(), name);
        let front = values_under(lines.drop_last(), name);
        let all = values_under(lines, name);
        if text::lowercase_of(lines.last().0) == name && lines.last().1 is Some {
            assert(all.drop_last() =~= front);
            assert(all.last() == lines.last().1->0);
        }
    }
}

/// The order of header names is that of a dictionary: a name never comes before
/// itself, the beginning of a name comes before the name, and otherwise the first
/// character that differs decides.
pub proof fn law_names_are_in_dictionary_order(
    p: Seq<char>,
    x: char,
    a: Seq<char>,
    y: char,
    b: Seq<char>,
)
    ensures
        !web::before(p, p),
        web::before(p, p + seq![x] + a),
        !web::before(p + seq![x] + a, p),
        (x as int) < (y as int) ==> web::before(p + seq![x] + a, p + seq![y] + b) && !web::before(
            p + seq![y] + b,
            p + seq![x] + a,
        ),
    decreases p.len(),
{
    let s = p + seq![x] + a;
    let t = p + seq![y] + b;
    if p.len() == 0 {
        assert(s[0] == x && t[0] == y);
    } else {
        let q = p.skip(1);
        law_names_are_in_dictionary_order(q, x, a, y, b);
        assert(s[0] == p[0] && t[0] == p[0]);
        assert(s.skip(1) =~= q + seq![x] + a);
        assert(t.skip(1) =~= q + seq![y] + b);
    }
}

/// A listing of headers has every name once, with its value, in order.
pub proof fn law_listings_are_complete(
    list: Seq<(Seq<char>, Seq<char>)>,
    m: Map<Seq<char>, Seq<char>>,
    name: Seq<char>,
)
    requires
        web::lists(list, m),
    ensures
        m.contains_key(name) <==> exists|i: int| 0 <= i < list.len() && (#[trigger] list[i]).0 == name,
        forall|i: int|
            0 <= i < list.len() && (#[trigger] list[i]).0 == name ==> list[i].1 == m[name],
        forall|i: int, j: int|
            0 <= i < j < list.len() ==> web::before((#[trigger] list[i]).0, (#[trigger] list[j]).0)
                && list[i].0 != list[j].0,
{
    assert forall|i: int, j: int| 0 <= i < j < list.len() implies web::before(
        (#[trigger] list[i]).0,
        (#[trigger] list[j]).0,
    ) && list[i].0 != list[j].0 by {
        law_names_are_in_dictionary_order(list[i].0, 'a', Seq::empty(), 'b', Seq::empty());
    }
}

/// The three words a cookie's `same_site` may have, and what they mean; any other
/// word means the middle one.
pub proof fn law_same_site_words(word: Seq<char>)
    ensures
        text::lowercase_of(word) == seq!['s', 't', 'r', 'i', 'c', 't'] ==> web::same_site_mode(word)
            == SameSite::Strict,
        text::lowercase_of(word) == seq!['n', 'o', 'n', 'e'] ==> web::same_site_mode(word)
            == SameSite::NotRestricted,
        text::lowercase_of(word) != seq!['s', 't', 'r', 'i', 'c', 't'] && text::lowercase_of(word)
            != seq!['n', 'o', 'n', 'e'] ==> web::same_site_mode(word) == SameSite::Lax,
{
    reveal_strlit("strict");
    reveal_strlit("none");
    assert("strict"@ =~= seq!['s', 't', 'r', 'i', 'c', 't']);
    assert("none"@ =~= seq!['n', 'o', 'n', 'e']);
    assert("strict"@.len() != "none"@.len());
}

/// A download name keeps its length and every character that is neither a control
/// character nor a quote.
pub proof fn law_download_names_keep_their_letters(c: char)
    ensures
        0x20 <= c as int && (c as int) < 0x7f && c != '"' ==> web::name_char(c) == c,
        c as int > 0x9f ==> web::name_char(c) == c,
        (c as int) < 0x20 || (0x7f <= c as int <= 0x9f) || c == '"' ==> web::name_char(c) == '_',
{
}

// ---- bodies ---------------------------------------------------------------------

/// A form with files is told by the beginning of its content type, whatever follows.
pub proof fn law_multipart_is_told_by_its_prefix(ct: Seq<char>, ps: Seq<char>)
    ensures
        web::is_multipart(Some("multipart/form-data"@ + ps)),
        !web::is_multipart(None),
        web::is_multipart(Some(ct)) ==> exists|rest: Seq<char>|
            ct == #[trigger] ("multipart/form-data"@ + rest),
{
    assert("multipart/form-data"@.is_prefix_of("multipart/form-data"@ + ps));
    if web::is_multipart(Some(ct)) {
        let n = "multipart/form-data"@.len() as int;
        assert(ct =~= "multipart/form-data"@ + ct.skip(n));
    }
}

/// A declared length is too much exactly when it is a number over the limit that is
/// meant for such a body.
pub proof fn law_declared_lengths_are_held_to_the_limit(n: nat, limit: nat, config: Config)
    requires
        n <= u64::MAX,
    ensures
        web::declares_too_much(Some(text::decimal(n)), limit) <==> n > limit,
        !web::declares_too_much(None, limit),
        web::size_limit(true, config) == config.max_upload_size,
        web::size_limit(false, config) == config.max_body_size,
{
    text::law_decimal_reads_back(n as int);
}

/// A client waits to be told to go on if it says so, in any case and with spaces
/// around it.
pub proof fn law_waiting_clients_say_so(lead: Seq<char>, word: Seq<char>, tail: Seq<char>)
    requires
        text::all_blank(lead),
        text::all_blank(tail),
        word.len() > 0,
        !text::is_space(word[0]),
        !text::is_space(word.last()),
    ensures
        web::awaits_continue(Some(lead + word + tail)) <==> text::same_letters(
            word,
            "100-continue"@,
        ),
        !web::awaits_continue(None),
{
    text::law_trimming_takes_the_blanks(lead, word, tail);
}

// ---- pages ----------------------------------------------------------------------

/// An error page has its status and title in its title and its heading, and shows its
/// detail escaped, as text; without a detail it is the same page without it. Returned
/// are the page in front of the first title, between the two, in front of the detail
/// and behind it.
pub proof fn law_error_pages_show_what_they_are(
    status: u16,
    title: Seq<char>,
    detail: Seq<char>,
) -> (r: (Seq<char>, Seq<char>, Seq<char>, Seq<char>))
    ensures
        ({
            let named = text::decimal(status as nat) + seq![' '] + title;
            let start = r.0 + named + r.1 + named + r.2;
            &&& web::page_text(status, title, Some(detail)) == start + "<pre>"@
                + api::escaped_text(detail) + "</pre>"@ + r.3
            &&& web::page_text(status, title, None) == start + r.3
            &&& "<!DOCTYPE html>"@.is_prefix_of(r.0)
        }),
{
    reveal_strlit("<!DOCTYPE html>");
    reveal_strlit("<!DOCTYPE html><html><head><title>");
    reveal_strlit(" ");
    let a = "<!DOCTYPE html><html><head><title>"@;
    let b =
        "</title></head><body style=\"font-family:sans-serif;max-width:48rem;margin:3rem auto\"><h1>"@;
    let c = "</h1>"@;
    let d = "</body></html>"@;
    let code = text::decimal(status as nat);
    let named = code + seq![' '] + title;
    let start = a + named + b + named + c;
    assert(" "@ =~= seq![' ']);
    assert(web::page_text(status, title, Some(detail)) =~= start + "<pre>"@ + api::escaped_text(
        detail,
    ) + "</pre>"@ + d);
    assert(web::page_text(status, title, None) =~= start + d);
    assert("<!DOCTYPE html>"@ =~= a.take(15));
    (a, b, c, d)
}

/// A page says which status it goes out with and whether it is HTML.
pub proof fn law_pages_carry_their_status(page: Page, status: u16, title: Seq<char>, detail: Option<Seq<char>>)
    ensures
        web::is_page(page, status, title, detail) <==> page.status == status && page.html
            && page.body@ == web::page_text(status, title, detail),
        web::is_text(page, status, title) <==> page.status == status && !page.html && page.body@
            == title,
{
}

/// In dev mode the page of a failed render says what failed.
pub proof fn law_developers_see_what_failed(err: RenderError)
    ensures
        web::render_error_detail(err, true) is Some,
        err is Timeout ==> web::render_error_detail(err, true)
            == Some("Template execution timed out."@),
        err is Memory ==> web::render_error_detail(err, true)
            == Some("Template exceeded the memory limit."@),
        !(err is Timeout) && !(err is Memory) ==> web::render_error_detail(err, true) == Some(
            err.text(),
        ),
{
}

/// The page of a body that is too large says how large it may be, for people and in
/// bytes; that of too many files says how many.
pub proof fn law_limits_are_stated(limit: nat)
    ensures
        web::too_large_detail(limit) == "This request is larger than the server's limit of "@
            + web::human_size(limit) + seq![' ', '('] + text::decimal(limit) + " bytes)."@,
        web::too_many_files_detail(limit)
            == "This request contains more than the server's limit of "@ + text::decimal(limit)
            + " files."@,
{
    reveal_strlit(" (");
    assert(" ("@ =~= seq![' ', '(']);
}

proof fn lemma_rounded(n: nat, d: nat)
    requires
        d > 0,
    ensures
        2 * (web::rounded(n, d) * d) <= 2 * n + d,
        2 * n <= 2 * (web::rounded(n, d) * d) + d,
        d == 1 ==> web::rounded(n, d) == n,
        2 * n == 2 * (web::rounded(n, d) * d) + d || 2 * n + d == 2 * (web::rounded(n, d) * d)
            ==> web::rounded(n, d) % 2 == 0,
{
    let q = n / d;
    let r = n % d;
    assert(q * d + r == n && r < d) by (nonlinear_arith)
        requires
            q == n / d,
            r == n % d,
            0 < d,
    ;
    assert((q + 1) * d == q * d + d) by (nonlinear_arith);
}

/// How many bytes a unit has.
pub open spec fn unit_size(unit: nat) -> nat {
    if unit == 1 {
        1024
    } else if unit == 2 {
        1_048_576
    } else if unit == 3 {
        1_073_741_824
    } else {
        1_099_511_627_776
    }
}

/// The name of a unit.
pub open spec fn unit_name(unit: nat) -> Seq<char> {
    if unit == 1 {
        "KiB"@
    } else if unit == 2 {
        "MiB"@
    } else if unit == 3 {
        "GiB"@
    } else {
        "TiB"@
    }
}

/// A size is told in the largest unit that it has at least one of, rounded to the
/// nearest whole number: at most half a unit off, and to the even one where two are
/// equally near. Bytes are told as they are.
pub proof fn law_sizes_are_told_to_the_nearest_unit(n: nat, unit: nat) -> (q: nat)
    requires
        n < 0x20_0000_0000_0000,
        1 <= unit <= 4,
    ensures
        n < 1024 ==> web::human_size(n) == text::decimal(n) + " B"@,
        unit_size(unit) <= n && (unit < 4 ==> n < unit_size(unit + 1)) ==> {
            &&& web::human_size(n) == text::decimal(q) + " "@ + unit_name(unit)
            &&& 2 * (q * unit_size(unit)) <= 2 * n + unit_size(unit)
            &&& 2 * n <= 2 * (q * unit_size(unit)) + unit_size(unit)
            &&& 2 * n == 2 * (q * unit_size(unit)) + unit_size(unit) || 2 * n + unit_size(unit)
                == 2 * (q * unit_size(unit)) ==> q % 2 == 0
        },
{
    assert(web::spacing(n, 1) == 1);
    lemma_rounded(n, 1);
    assert(web::as_double(n) == n);
    lemma_rounded(n, unit_size(unit));
    web::rounded(n, unit_size(unit))
}

// ---- what is spoken of ------------------------------------------------------------

/// An optional text or path is the text or path, and header lines are the lines, in
/// order.
pub proof fn law_optional_values_are_what_they_hold(
    p: crate::path::PathBytes,
    s: String,
    t: &str,
    lines: Seq<(String, Option<String>)>,
    i: int,
)
    ensures
        web::opt_bytes(Some(p)) == Some(p@),
        web::opt_bytes(None) is None,
        web::opt_string(Some(s)) == Some(s@),
        web::opt_string(None) is None,
        web::opt_str(Some(t)) == Some(t@),
        web::opt_str(None) is None,
        web::line_views(lines).len() == lines.len(),
        0 <= i < lines.len() ==> web::line_views(lines)[i].0 == lines[i].0@ && (lines[i].1 is Some
            <==> web::line_views(lines)[i].1 is Some),
        0 <= i < lines.len() && lines[i].1 is Some ==> web::line_views(lines)[i].1->0
            == lines[i].1->0@,
{
}

/// Sizes beyond what doubles hold exactly are told in TiB, still to the nearest one but
/// for the few bytes that a double leaves out.
pub proof fn law_huge_sizes_are_told_in_tebibytes(n: nat) -> (q: nat)
    requires
        0x20_0000_0000_0000 <= n <= 0xffff_ffff_ffff_ffff,
    ensures
        web::human_size(n) == text::decimal(q) + " "@ + "TiB"@,
        2 * (q * 0x100_0000_0000) <= 2 * n + 0x100_0000_0000 + 4096,
        2 * n <= 2 * (q * 0x100_0000_0000) + 0x100_0000_0000 + 4096,
{
    reveal_with_fuel(web::spacing, 13);
    let u = web::spacing(n, 1);
    assert(1 <= u <= 2048);
    lemma_rounded(n, u);
    let f = web::as_double(n);
    lemma_rounded(f, 0x100_0000_0000);
    web::rounded(f, 0x100_0000_0000)
}

} // verus!
