//! Where a block ends and what a template is made of, said of the text itself:
//! strings, comments and long brackets hide a `?>`, and nothing else does.

use vstd::prelude::*;
use crate::template;
use crate::template::SegmentView;

verus! {

// ---- positions do not matter -----------------------------------------------------

/// A position `n` further on.
pub open spec fn moved(p: Option<int>, n: int) -> Option<int> {
    match p {
        Some(i) => Some(i + n),
        None => None,
    }
}

proof fn lemma_equals_run(s: Seq<char>, n: int, j: int)
    requires
        0 <= n <= s.len(),
        0 <= j,
    ensures
        template::equals_run(s, n + j) == template::equals_run(s.skip(n), j),
    decreases s.len() - n - j,
{
    if n + j < s.len() && s[n + j] == '=' {
        lemma_equals_run(s, n, j + 1);
    }
}

proof fn lemma_bracket_level(s: Seq<char>, n: int, i: int)
    requires
        0 <= n <= s.len(),
        0 <= i,
    ensures
        template::bracket_level(s, n + i) == template::bracket_level(s.skip(n), i),
{
    lemma_equals_run(s, n, i + 1);
}

proof fn lemma_bracket_end(s: Seq<char>, n: int, i: int, level: nat)
    requires
        0 <= n <= s.len(),
        0 <= i,
    ensures
        template::bracket_end(s, n + i, level) == moved(
            template::bracket_end(s.skip(n), i, level),
            n,
        ),
    decreases s.len() - n - i,
{
    if n + i < s.len() {
        lemma_equals_run(s, n, i + 1);
        lemma_bracket_end(s, n, i + 1, level);
    }
}

proof fn lemma_short_string_end(s: Seq<char>, n: int, i: int, quote: char)
    requires
        0 <= n <= s.len(),
        0 <= i,
    ensures
        template::short_string_end(s, n + i, quote) == n + template::short_string_end(
            s.skip(n),
            i,
            quote,
        ),
    decreases s.len() + 1 - n - i,
{
    if n + i < s.len() {
        lemma_short_string_end(s, n, i + 1, quote);
        if n + i + 2 <= s.len() + 1 {
            lemma_short_string_end(s, n, i + 2, quote);
        }
    }
}

proof fn lemma_line_end(s: Seq<char>, n: int, i: int)
    requires
        0 <= n <= s.len(),
        0 <= i,
    ensures
        template::line_end(s, n + i) == n + template::line_end(s.skip(n), i),
    decreases s.len() - n - i,
{
    if n + i < s.len() {
        lemma_line_end(s, n, i + 1);
    }
}

proof fn lemma_element_end(s: Seq<char>, n: int, i: int)
    requires
        0 <= n <= s.len(),
        0 <= i < s.len() - n,
    ensures
        template::element_end(s, n + i) == moved(template::element_end(s.skip(n), i), n),
{
    lemma_short_string_end(s, n, i + 1, s[n + i]);
    lemma_bracket_level(s, n, i);
    lemma_bracket_level(s, n, i + 2);
    if let Some(level) = template::bracket_level(s.skip(n), i) {
        lemma_bracket_end(s, n, i + level as int + 2, level);
    }
    if let Some(level) = template::bracket_level(s.skip(n), i + 2) {
        lemma_bracket_end(s, n, i + 2 + level + 2, level);
    }
    lemma_line_end(s, n, i + 2);
}

/// Where a block ends depends on nothing in front of its code.
pub proof fn law_the_past_does_not_matter(s: Seq<char>, n: int, i: int)
    requires
        0 <= n <= s.len(),
        0 <= i,
    ensures
        template::block_close(s, n + i) == moved(template::block_close(s.skip(n), i), n),
    decreases s.len() - n - i,
{
    if n + i < s.len() && !template::is_close(s, n + i) {
        lemma_element_end(s, n, i);
        template::lemma_element_end(s.skip(n), i);
        if let Some(next) = template::element_end(s.skip(n), i) {
            law_the_past_does_not_matter(s, n, next);
        }
    }
}

/// Code that starts with the element `t` ends where the rest does.
proof fn lemma_past(t: Seq<char>, b: Seq<char>)
    requires
        t.len() > 0,
        !template::is_close(t + b, 0),
        template::element_end(t + b, 0) == Some(t.len() as int),
    ensures
        template::block_close(t + b, 0) == moved(template::block_close(b, 0), t.len() as int),
{
    let s = t + b;
    assert(s.skip(t.len() as int) =~= b);
    law_the_past_does_not_matter(s, t.len() as int, 0);
}

// ---- what code is made of ---------------------------------------------------------

/// A `?>` outside of everything else ends the block right there.
pub proof fn law_a_bare_close_ends_the_block(b: Seq<char>)
    ensures
        template::block_close(seq!['?', '>'] + b, 0) == Some(0int),
        template::block_close(Seq::empty(), 0) is None,
{
    let s = seq!['?', '>'] + b;
    assert(s[0] == '?' && s[1] == '>');
}

/// `n` equals signs.
pub open spec fn signs(n: nat) -> Seq<char> {
    Seq::new(n, |i: int| '=')
}

/// What opens a long bracket of level `n`: `[`, `n` equals signs, `[`.
pub open spec fn long_open(n: nat) -> Seq<char> {
    seq!['['] + signs(n) + seq!['[']
}

/// What closes it.
pub open spec fn long_close(n: nat) -> Seq<char> {
    seq![']'] + signs(n) + seq![']']
}

/// No long bracket, of whatever level, opens at the beginning of `s`.
pub open spec fn opens_no_bracket(s: Seq<char>) -> bool {
    forall|n: nat| !(#[trigger] long_open(n)).is_prefix_of(s)
}

proof fn lemma_signs_of_run(s: Seq<char>, j: int, i: int)
    requires
        0 <= j <= i < j + template::equals_run(s, j),
    ensures
        i < s.len(),
        s[i] == '=',
    decreases s.len() - j,
{
    if i > j {
        lemma_signs_of_run(s, j + 1, i);
    }
}

proof fn lemma_no_bracket(s: Seq<char>)
    requires
        opens_no_bracket(s),
    ensures
        template::bracket_level(s, 0) is None,
{
    if let Some(n) = template::bracket_level(s, 0) {
        let open = long_open(n);
        assert forall|i: int| 0 <= i < n + 2 implies s[i] == open[i] by {
            if 0 < i <= n {
                lemma_signs_of_run(s, 1, i);
            }
        }
        assert(open =~= s.take(n as int + 2));
        assert(open.is_prefix_of(s));
    }
}

/// A character that starts nothing is walked over.
pub proof fn law_plain_characters_are_code(c: char, b: Seq<char>)
    requires
        c != '\'' && c != '"',
        c == '[' ==> opens_no_bracket(seq![c] + b),
        c == '-' ==> b.len() == 0 || b[0] != '-',
        c == '?' ==> b.len() == 0 || b[0] != '>',
    ensures
        template::block_close(seq![c] + b, 0) == moved(template::block_close(b, 0), 1),
{
    let s = seq![c] + b;
    assert(s[0] == c);
    if b.len() > 0 {
        assert(s[1] == b[0]);
    }
    if c == '[' {
        lemma_no_bracket(s);
    }
    lemma_past(seq![c], b);
}

/// Text without anything that could start a string, a comment, a bracket or the end
/// of the block.
pub open spec fn harmless(a: Seq<char>) -> bool {
    forall|i: int|
        0 <= i < a.len() ==> {
            let c = #[trigger] a[i];
            c != '\'' && c != '"' && c != '[' && c != '-' && c != '?'
        }
}

/// Such text is walked over whole.
pub proof fn law_harmless_text_is_code(a: Seq<char>, b: Seq<char>)
    requires
        harmless(a),
    ensures
        template::block_close(a + b, 0) == moved(template::block_close(b, 0), a.len() as int),
    decreases a.len(),
{
    if a.len() == 0 {
        assert(a + b =~= b);
    } else {
        let rest = a.skip(1);
        assert(a[0] != '\'' && a[0] != '"' && a[0] != '[' && a[0] != '-' && a[0] != '?');
        assert(harmless(rest)) by {
            assert forall|i: int| 0 <= i < rest.len() implies {
                let c = #[trigger] rest[i];
                c != '\'' && c != '"' && c != '[' && c != '-' && c != '?'
            } by {
                assert(rest[i] == a[i + 1]);
            }
        }
        law_harmless_text_is_code(rest, b);
        law_plain_characters_are_code(a[0], rest + b);
        assert(a + b =~= seq![a[0]] + (rest + b));
    }
}

/// What may stand between two quotes: a backslash takes the next character along,
/// and neither the quote nor a newline stands alone.
pub open spec fn string_body(body: Seq<char>, quote: char) -> bool
    decreases body.len(),
{
    if body.len() == 0 {
        true
    } else if body[0] == '\\' {
        body.len() >= 2 && string_body(body.skip(2), quote)
    } else {
        body[0] != quote && body[0] != '\n' && string_body(body.skip(1), quote)
    }
}

proof fn lemma_string_scan(body: Seq<char>, quote: char, b: Seq<char>)
    requires
        quote == '\'' || quote == '"',
        string_body(body, quote),
    ensures
        template::short_string_end(body + seq![quote] + b, 0, quote) == body.len() + 1,
    decreases body.len(),
{
    let s = body + seq![quote] + b;
    if body.len() == 0 {
        assert(s[0] == quote);
    } else {
        assert(s[0] == body[0]);
        let n: int = if body[0] == '\\' {
            2
        } else {
            1
        };
        let rest = body.skip(n);
        lemma_string_scan(rest, quote, b);
        assert(s.skip(n) =~= rest + seq![quote] + b);
        lemma_short_string_end(s, n, 0, quote);
    }
}

/// A string is walked over whole, whatever it holds: for either quote character,
/// a `?>` or `--` or `[[` between the quotes is text.
pub proof fn law_strings_are_walked_over(quote: char, body: Seq<char>, b: Seq<char>)
    requires
        quote == '\'' || quote == '"',
        string_body(body, quote),
    ensures
        template::block_close(seq![quote] + body + seq![quote] + b, 0) == moved(
            template::block_close(b, 0),
            (body.len() + 2) as int,
        ),
{
    let t = seq![quote] + body + seq![quote];
    let s = t + b;
    assert(s[0] == quote);
    lemma_string_scan(body, quote, b);
    assert(s.skip(1) =~= body + seq![quote] + b);
    lemma_short_string_end(s, 1, 0, quote);
    lemma_past(t, b);
}

proof fn lemma_string_break(body: Seq<char>, quote: char, b: Seq<char>)
    requires
        quote == '\'' || quote == '"',
        string_body(body, quote),
    ensures
        template::short_string_end(body + seq!['\n'] + b, 0, quote) == body.len(),
    decreases body.len(),
{
    let s = body + seq!['\n'] + b;
    if body.len() == 0 {
        assert(s[0] == '\n');
    } else {
        assert(s[0] == body[0]);
        let n: int = if body[0] == '\\' {
            2
        } else {
            1
        };
        let rest = body.skip(n);
        lemma_string_break(rest, quote, b);
        assert(s.skip(n) =~= rest + seq!['\n'] + b);
        lemma_short_string_end(s, n, 0, quote);
    }
}

/// A string that its line leaves open ends with the line: the code goes on on the
/// next one.
pub proof fn law_strings_end_with_their_line(quote: char, body: Seq<char>, b: Seq<char>)
    requires
        quote == '\'' || quote == '"',
        string_body(body, quote),
    ensures
        template::block_close(seq![quote] + body + seq!['\n'] + b, 0) == moved(
            template::block_close(b, 0),
            (body.len() + 2) as int,
        ),
{
    let t = seq![quote] + body;
    let nl = seq!['\n'] + b;
    let s = t + nl;
    assert(s[0] == quote);
    lemma_string_break(body, quote, b);
    assert(s.skip(1) =~= body + seq!['\n'] + b);
    lemma_short_string_end(s, 1, 0, quote);
    lemma_past(t, nl);
    law_plain_characters_are_code('\n', b);
    assert(seq![quote] + body + seq!['\n'] + b =~= s);
}

proof fn lemma_simple_body(body: Seq<char>, quote: char)
    requires
        forall|i: int|
            0 <= i < body.len() ==> {
                let c = #[trigger] body[i];
                c != quote && c != '\\' && c != '\n'
            },
    ensures
        string_body(body, quote),
    decreases body.len(),
{
    if body.len() > 0 {
        assert(body[0] != quote && body[0] != '\\' && body[0] != '\n');
        let rest = body.skip(1);
        assert forall|i: int| 0 <= i < rest.len() implies {
            let c = #[trigger] rest[i];
            c != quote && c != '\\' && c != '\n'
        } by {
            assert(rest[i] == body[i + 1]);
        }
        lemma_simple_body(rest, quote);
    }
}

/// The block that holds a string, in either quotes, ends where the code behind the
/// string does, never inside it.
pub proof fn law_strings_hide_the_close(
    a: Seq<char>,
    quote: char,
    body: Seq<char>,
    b: Seq<char>,
)
    requires
        harmless(a),
        quote == '\'' || quote == '"',
        forall|i: int|
            0 <= i < body.len() ==> {
                let c = #[trigger] body[i];
                c != quote && c != '\\' && c != '\n'
            },
    ensures
        template::block_close(a + seq![quote] + body + seq![quote] + b, 0) == moved(
            template::block_close(b, 0),
            (a.len() + body.len() + 2) as int,
        ),
{
    lemma_simple_body(body, quote);
    law_strings_are_walked_over(quote, body, b);
    law_harmless_text_is_code(a, seq![quote] + body + seq![quote] + b);
    assert(a + seq![quote] + body + seq![quote] + b =~= a + (seq![quote] + body + seq![quote] + b));
}

/// No newline in a text.
pub open spec fn one_line(t: Seq<char>) -> bool {
    forall|i: int| 0 <= i < t.len() ==> #[trigger] t[i] != '\n'
}

proof fn lemma_line_scan(t: Seq<char>, b: Seq<char>)
    requires
        one_line(t),
        b.len() > 0 ==> b[0] == '\n',
    ensures
        template::line_end(t + b, 0) == t.len(),
    decreases t.len(),
{
    let s = t + b;
    if t.len() == 0 {
        assert(s =~= b);
    } else {
        assert(s[0] == t[0]);
        let rest = t.skip(1);
        assert(one_line(rest)) by {
            assert forall|i: int| 0 <= i < rest.len() implies #[trigger] rest[i] != '\n' by {
                assert(rest[i] == t[i + 1]);
            }
        }
        lemma_line_scan(rest, b);
        assert(s.skip(1) =~= rest + b);
        lemma_line_end(s, 1, 0);
    }
}

/// A comment runs to the end of its line: what stands in it, a `?>` among it, is
/// text, and a comment on the last line leaves the block open.
pub proof fn law_comments_hide_the_close(a: Seq<char>, t: Seq<char>, b: Seq<char>)
    requires
        harmless(a),
        one_line(t),
        opens_no_bracket(t + seq!['\n'] + b),
        opens_no_bracket(t),
    ensures
        template::block_close(a + seq!['-', '-'] + t + seq!['\n'] + b, 0) == moved(
            template::block_close(b, 0),
            (a.len() + t.len() + 3) as int,
        ),
        template::block_close(a + seq!['-', '-'] + t, 0) is None,
{
    let nl = seq!['\n'] + b;
    let c = seq!['-', '-'] + t;
    let s = c + nl;
    assert(nl[0] == '\n');
    assert(s[0] == '-' && s[1] == '-');
    lemma_line_scan(t, nl);
    assert(s.skip(2) =~= t + nl);
    lemma_line_end(s, 2, 0);
    assert(t + nl =~= t + seq!['\n'] + b);
    lemma_no_bracket(t + nl);
    lemma_bracket_level(s, 2, 0);
    lemma_past(c, nl);
    law_plain_characters_are_code('\n', b);
    law_harmless_text_is_code(a, s);
    assert(a + seq!['-', '-'] + t + seq!['\n'] + b =~= a + s);
    let none = Seq::<char>::empty();
    let last = c + none;
    assert(last[0] == '-' && last[1] == '-');
    lemma_line_scan(t, none);
    assert(last.skip(2) =~= t + none);
    lemma_line_end(last, 2, 0);
    assert(t + none =~= t);
    lemma_no_bracket(t);
    lemma_bracket_level(last, 2, 0);
    lemma_past(c, none);
    law_harmless_text_is_code(a, last);
    assert(a + seq!['-', '-'] + t =~= a + last);
}

/// The text does not hold what would close it before its end.
pub open spec fn stays_open(body: Seq<char>, n: nat) -> bool {
    forall|k: int|
        0 <= k < body.len() ==> #[trigger] (body + long_close(n)).subrange(k, k + n + 2)
            != long_close(n)
}

proof fn lemma_run_of_signs(s: Seq<char>, j: int, n: nat)
    requires
        0 <= j,
        j + n < s.len(),
        forall|i: int| j <= i < j + n ==> s[i] == '=',
        s[j + n] != '=',
    ensures
        template::equals_run(s, j) == n,
    decreases n,
{
    if n > 0 {
        lemma_run_of_signs(s, j + 1, (n - 1) as nat);
    }
}

proof fn lemma_bracket_scan(body: Seq<char>, n: nat, b: Seq<char>, k: int)
    requires
        stays_open(body, n),
        0 <= k <= body.len(),
    ensures
        template::bracket_end(body + long_close(n) + b, k, n) == Some((body.len() + n + 2) as int),
    decreases body.len() - k,
{
    let close = long_close(n);
    let s = body + close + b;
    let e = body.len() as int;
    if k == e {
        assert(s[e] == close[0]);
        assert forall|i: int| e + 1 <= i < e + 1 + n implies s[i] == '=' by {
            assert(s[i] == close[i - e]);
        }
        assert(s[e + 1 + n] == close[n as int + 1]);
        lemma_run_of_signs(s, e + 1, n);
    } else {
        if template::closes_bracket(s, k, n) {
            let part = (body + close).subrange(k, k + n + 2);
            assert(part =~= close) by {
                assert forall|i: int| 0 <= i < n + 2 implies part[i] == close[i] by {
                    assert(part[i] == s[k + i]);
                    if 0 < i <= n {
                        lemma_signs_of_run(s, k + 1, k + i);
                    }
                }
            }
            assert(false);
        }
        lemma_bracket_scan(body, n, b, k + 1);
    }
}

/// A long bracket is walked over whole, alone or as a comment: whatever it holds
/// but its own closing bracket, a `?>` or a quote among it, is text.
pub proof fn law_long_brackets_hide_the_close(
    a: Seq<char>,
    n: nat,
    body: Seq<char>,
    b: Seq<char>,
)
    requires
        harmless(a),
        stays_open(body, n),
    ensures
        template::block_close(a + long_open(n) + body + long_close(n) + b, 0) == moved(
            template::block_close(b, 0),
            (a.len() + body.len() + 2 * n + 4) as int,
        ),
        template::block_close(a + seq!['-', '-'] + long_open(n) + body + long_close(n) + b, 0)
            == moved(template::block_close(b, 0), (a.len() + body.len() + 2 * n + 6) as int),
{
    lemma_bare_bracket(a, n, body, b);
    lemma_bracket_comment(a, n, body, b);
}

proof fn lemma_bare_bracket(a: Seq<char>, n: nat, body: Seq<char>, b: Seq<char>)
    requires
        harmless(a),
        stays_open(body, n),
    ensures
        template::block_close(a + long_open(n) + body + long_close(n) + b, 0) == moved(
            template::block_close(b, 0),
            (a.len() + body.len() + 2 * n + 4) as int,
        ),
{
    let t = long_open(n) + body + long_close(n);
    let s = t + b;
    lemma_long_bracket(n, body, b);
    assert(template::element_end(s, 0) == Some(t.len() as int));
    lemma_past(t, b);
    law_harmless_text_is_code(a, s);
    assert(a + long_open(n) + body + long_close(n) + b =~= a + s);
}

proof fn lemma_bracket_comment(a: Seq<char>, n: nat, body: Seq<char>, b: Seq<char>)
    requires
        harmless(a),
        stays_open(body, n),
    ensures
        template::block_close(a + seq!['-', '-'] + long_open(n) + body + long_close(n) + b, 0)
            == moved(template::block_close(b, 0), (a.len() + body.len() + 2 * n + 6) as int),
{
    let t = long_open(n) + body + long_close(n);
    let s = t + b;
    lemma_long_bracket(n, body, b);
    let ct = seq!['-', '-'] + t;
    let cs = ct + b;
    assert(cs[0] == '-' && cs[1] == '-');
    assert(cs.skip(2) =~= s);
    lemma_bracket_level(cs, 2, 0);
    lemma_bracket_end(cs, 2, n as int + 2, n);
    assert(template::element_end(cs, 0) == Some(ct.len() as int));
    lemma_past(ct, b);
    law_harmless_text_is_code(a, cs);
    assert(a + seq!['-', '-'] + long_open(n) + body + long_close(n) + b =~= a + cs);
}

proof fn lemma_long_bracket(n: nat, body: Seq<char>, b: Seq<char>)
    requires
        stays_open(body, n),
    ensures
        ({
            let s = long_open(n) + body + long_close(n) + b;
            &&& s.len() > 0 && s[0] == '['
            &&& template::bracket_level(s, 0) == Some(n)
            &&& template::bracket_end(s, n as int + 2, n) == Some((body.len() + 2 * n + 4) as int)
        }),
{
    let open = long_open(n);
    let s = open + body + long_close(n) + b;
    assert(s[0] == open[0]);
    assert forall|i: int| 1 <= i < 1 + n implies s[i] == '=' by {
        assert(s[i] == open[i]);
    }
    assert(s[1 + n as int] == open[n as int + 1]);
    lemma_run_of_signs(s, 1, n);
    lemma_bracket_scan(body, n, b, 0);
    assert(s.skip(n as int + 2) =~= body + long_close(n) + b);
    lemma_bracket_end(s, n as int + 2, 0, n);
}

proof fn lemma_bracket_open(body: Seq<char>, n: nat, k: int)
    requires
        never_closes(body, n),
        0 <= k,
    ensures
        template::bracket_end(body, k, n) is None,
    decreases body.len() - k,
{
    if k < body.len() {
        let close = long_close(n);
        if template::closes_bracket(body, k, n) {
            let part = body.subrange(k, k + n + 2);
            assert(part =~= close) by {
                assert forall|i: int| 0 <= i < n + 2 implies part[i] == close[i] by {
                    assert(part[i] == body[k + i]);
                    if 0 < i <= n {
                        lemma_signs_of_run(body, k + 1, k + i);
                    }
                }
            }
            assert(false);
        }
        lemma_bracket_open(body, n, k + 1);
    }
}

/// The text nowhere holds what would close a long bracket of level `n`.
pub open spec fn never_closes(body: Seq<char>, n: nat) -> bool {
    forall|k: int|
        0 <= k && k + n + 2 <= body.len() ==> #[trigger] body.subrange(k, k + n + 2) != long_close(n)
}

/// A long bracket that is never closed, alone or as a comment, leaves its block open,
/// and so does a string that neither its quote nor its line ends.
pub proof fn law_what_never_ends_hides_the_rest(n: nat, body: Seq<char>, quote: char, text: Seq<char>)
    requires
        never_closes(body, n),
        quote == '\'' || quote == '"',
        string_body(text, quote),
    ensures
        template::block_close(long_open(n) + body, 0) is None,
        template::block_close(seq!['-', '-'] + (long_open(n) + body), 0) is None,
        template::block_close(seq![quote] + text, 0) is None,
{
    let open = long_open(n);
    let s = open + body;
    assert(s[0] == open[0]);
    assert forall|i: int| 1 <= i < 1 + n implies s[i] == '=' by {
        assert(s[i] == open[i]);
    }
    assert(s[1 + n as int] == open[n as int + 1]);
    lemma_run_of_signs(s, 1, n);
    assert(template::bracket_level(s, 0) == Some(n));
    lemma_bracket_open(body, n, 0);
    assert(s.skip(n as int + 2) =~= body);
    lemma_bracket_end(s, n as int + 2, 0, n);
    assert(template::element_end(s, 0) is None);
    let cs = seq!['-', '-'] + s;
    assert(cs[0] == '-' && cs[1] == '-');
    assert(cs.skip(2) =~= s);
    lemma_bracket_level(cs, 2, 0);
    lemma_bracket_end(cs, 2, n as int + 2, n);
    assert(template::element_end(cs, 0) is None);
    let q = seq![quote] + text;
    assert(q[0] == quote);
    lemma_string_open(text, quote);
    assert(q.skip(1) =~= text);
    lemma_short_string_end(q, 1, 0, quote);
    assert(template::element_end(q, 0) == Some(q.len() as int));
    assert(!template::is_close(q, 0));
    assert(template::block_close(q, q.len() as int) is None);
}

proof fn lemma_string_open(body: Seq<char>, quote: char)
    requires
        string_body(body, quote),
    ensures
        template::short_string_end(body, 0, quote) == body.len(),
    decreases body.len(),
{
    if body.len() > 0 {
        let n: int = if body[0] == '\\' {
            2
        } else {
            1
        };
        lemma_string_open(body.skip(n), quote);
        lemma_short_string_end(body, n, 0, quote);
    }
}

// ---- what a template is made of ---------------------------------------------------

/// Every `<?lua` in front of `upto` is followed by something that opens no block: the
/// tag alone makes none.
pub open spec fn lookalikes_only(s: Seq<char>, upto: int) -> bool {
    forall|i: int|
        0 <= i < upto && i + 5 < s.len() && #[trigger] s.subrange(i, i + 5) == seq![
            '<',
            '?',
            'l',
            'u',
            'a',
        ] ==> {
            let c = s[i + 5];
            &&& c != '=' && c != ' ' && c != '\t' && c != '\n' && c != '\r' && c != '\u{c}'
            &&& c == '?' ==> i + 6 >= s.len() || s[i + 6] != '>'
        }
}

proof fn lemma_tag(s: Seq<char>, i: int)
    ensures
        template::has_tag(s, i) ==> s.subrange(i, i + 5) == seq!['<', '?', 'l', 'u', 'a'],
{
    if template::has_tag(s, i) {
        assert(s.subrange(i, i + 5) =~= seq!['<', '?', 'l', 'u', 'a']);
    }
}

proof fn lemma_no_open_before(s: Seq<char>, i: int, p: int)
    requires
        0 <= i <= p <= s.len(),
        lookalikes_only(s, p),
    ensures
        template::next_open(s, i) == template::next_open(s, p),
    decreases p - i,
{
    if i < p {
        lemma_tag(s, i);
        assert(!template::opens_block(s, i));
        lemma_no_open_before(s, i + 1, p);
    }
}

/// Text in which no block opens is one piece of HTML, as it stands.
pub proof fn law_plain_text_is_html(s: Seq<char>)
    requires
        s.len() > 0,
        lookalikes_only(s, s.len() as int),
    ensures
        template::parsed(s) == Ok::<Seq<SegmentView>, nat>(
            seq![SegmentView::Html { text: s, line: 1 }],
        ),
{
    lemma_no_open_before(s, 0, s.len() as int);
    assert(s.subrange(0, s.len() as int) =~= s);
    assert(s.take(0) =~= Seq::empty());
}

/// An empty template has no pieces.
pub proof fn law_nothing_is_nothing(s: Seq<char>)
    requires
        s.len() == 0,
    ensures
        template::parsed(s) == Ok::<Seq<SegmentView>, nat>(Seq::empty()),
{
}

/// A segment `n` lines further down.
pub open spec fn lower(seg: SegmentView, n: nat) -> SegmentView {
    match seg {
        SegmentView::Html { text, line } => SegmentView::Html { text, line: line + n },
        SegmentView::Code { code, line } => SegmentView::Code { code, line: line + n },
        SegmentView::Expr { code, line } => SegmentView::Expr { code, line: line + n },
        SegmentView::RawExpr { code, line } => SegmentView::RawExpr { code, line: line + n },
    }
}

/// What a template parses to, `n` lines further down.
pub open spec fn lowered(r: Result<Seq<SegmentView>, nat>, n: nat) -> Result<
    Seq<SegmentView>,
    nat,
> {
    match r {
        Ok(segments) => Ok(segments.map_values(|seg: SegmentView| lower(seg, n))),
        Err(line) => Err(line + n),
    }
}

proof fn lemma_next_open_moved(s: Seq<char>, n: int, i: int)
    requires
        0 <= n <= s.len(),
        0 <= i,
    ensures
        template::next_open(s, n + i) == moved(template::next_open(s.skip(n), i), n),
    decreases s.len() - n - i,
{
    if n + i < s.len() {
        lemma_next_open_moved(s, n, i + 1);
    }
}

proof fn lemma_line_moved(s: Seq<char>, n: int, i: int)
    requires
        0 <= n <= s.len(),
        0 <= i <= s.len() - n,
    ensures
        template::line_at(s, n + i) == template::line_at(s.skip(n), i) + template::newlines(
            s.take(n),
        ),
{
    assert(s.take(n + i) =~= s.take(n) + s.skip(n).take(i));
    template::lemma_newlines_concat(s.take(n), s.skip(n).take(i));
}

proof fn lemma_segments_moved(s: Seq<char>, n: int, i: int)
    requires
        0 <= n <= s.len(),
        0 <= i <= s.len() - n,
    ensures
        template::segments_from(s, n + i) == lowered(
            template::segments_from(s.skip(n), i),
            template::newlines(s.take(n)),
        ),
    decreases s.len() - n - i,
{
    let t = s.skip(n);
    let d = template::newlines(s.take(n));
    let down = |seg: SegmentView| lower(seg, d);
    lemma_next_open_moved(s, n, i);
    lemma_line_moved(s, n, i);
    match template::next_open(t, i) {
        None => {
            assert(s.subrange(n + i, s.len() as int) =~= t.subrange(i, t.len() as int));
            assert(template::html_segment(s, n + i, s.len() as int) =~= template::html_segment(
                t,
                i,
                t.len() as int,
            ).map_values(down));
        },
        Some(p) => {
            template::lemma_next_open(t, i);
            template::lemma_next_open(s, n + i);
            let start = template::code_start(t, p);
            assert(template::code_start(s, n + p) == n + start);
            law_the_past_does_not_matter(s, n, start);
            template::lemma_block_close(t, start);
            lemma_line_moved(s, n, p);
            if let Some(q) = template::block_close(t, start) {
                lemma_segments_moved(s, n, q + 2);
                assert(s.subrange(n + i, n + p) =~= t.subrange(i, p));
                assert(s.subrange(n + start, n + q) =~= t.subrange(start, q));
                let html = template::html_segment(t, i, p);
                let block = template::block_segment(t, p, q);
                assert(template::html_segment(s, n + i, n + p) =~= html.map_values(down));
                assert(template::block_segment(s, n + p, n + q) == down(block));
                if let Ok(rest) = template::segments_from(t, q + 2) {
                    assert((html.push(block) + rest).map_values(down) =~= html.map_values(
                        down,
                    ).push(down(block)) + rest.map_values(down));
                }
            }
        },
    }
}

/// The tag of a block: how many `=` signs it has tells what is done with the code.
pub open spec fn block_tag(equals: nat) -> Seq<char> {
    seq!['<', '?', 'l', 'u', 'a'] + signs(equals)
}

/// A block with that tag.
pub open spec fn block_of(equals: nat, code: Seq<char>, line: nat) -> SegmentView {
    if equals == 0 {
        SegmentView::Code { code, line }
    } else if equals == 1 {
        SegmentView::Expr { code, line }
    } else {
        SegmentView::RawExpr { code, line }
    }
}

/// The code does not run into its tag: behind a bare tag stands whitespace or the end
/// of the block, behind one `=` no other.
pub open spec fn parted(equals: nat, code: Seq<char>) -> bool {
    &&& equals <= 2
    &&& equals == 0 && code.len() > 0 ==> code[0] == ' ' || code[0] == '\t' || code[0] == '\n'
        || code[0] == '\r' || code[0] == '\u{c}'
    &&& equals == 1 && code.len() > 0 ==> code[0] != '='
}

/// A template is read piece by piece: HTML up to the first block, that block with its
/// code and its kind, and then whatever the rest reads as, each on its own line.
#[verifier::rlimit(60)]
#[verifier::spinoff_prover]
pub proof fn law_templates_are_read_piece_by_piece(
    html: Seq<char>,
    equals: nat,
    code: Seq<char>,
    rest: Seq<char>,
)
    requires
        parted(equals, code),
        lookalikes_only(
            html + block_tag(equals) + code + seq!['?', '>'] + rest,
            html.len() as int,
        ),
        template::block_close(code + seq!['?', '>'] + rest, 0) == Some(code.len() as int),
    ensures
        ({
            let s = html + block_tag(equals) + code + seq!['?', '>'] + rest;
            let before: Seq<SegmentView> = if html.len() > 0 {
                seq![SegmentView::Html { text: html, line: 1 }]
            } else {
                Seq::empty()
            };
            let block = block_of(equals, code, 1 + template::newlines(html));
            let down = template::newlines(html + block_tag(equals) + code + seq!['?', '>']);
            template::parsed(s) == match lowered(template::parsed(rest), down) {
                Ok(after) => Ok::<Seq<SegmentView>, nat>(before.push(block) + after),
                Err(line) => Err(line),
            }
        }),
{
    let tag = block_tag(equals);
    let close = seq!['?', '>'];
    let s = html + tag + code + close + rest;
    let p = html.len() as int;
    lemma_no_open_before(s, 0, p);
    lemma_opening(html, equals, code + close + rest);
    assert(s =~= html + tag + (code + close + rest));
    let start = p + 5 + equals;
    assert(s.skip(start) =~= code + close + rest);
    law_the_past_does_not_matter(s, start, 0);
    let q = start + code.len();
    assert(s.subrange(start, q) =~= code);
    assert(s.take(p) =~= html);
    assert(s.subrange(0, p) =~= html);
    assert(s.take(0) =~= Seq::empty());
    lemma_segments_moved(s, q + 2, 0);
    assert(s.skip(q + 2) =~= rest);
    assert(s.take(q + 2) =~= html + tag + code + close);
    let before: Seq<SegmentView> = if html.len() > 0 {
        seq![SegmentView::Html { text: html, line: 1 }]
    } else {
        Seq::empty()
    };
    assert(template::html_segment(s, 0, p) =~= before);
    assert(template::block_segment(s, p, q) == block_of(equals, code, 1 + template::newlines(html)));
}

proof fn lemma_opening(html: Seq<char>, equals: nat, tail: Seq<char>)
    requires
        equals <= 2,
        tail.len() > 0,
        equals == 0 ==> tail[0] == ' ' || tail[0] == '\t' || tail[0] == '\n' || tail[0] == '\r'
            || tail[0] == '\u{c}' || (tail[0] == '?' && tail.len() > 1 && tail[1] == '>'),
        equals == 1 ==> tail[0] != '=',
    ensures
        ({
            let s = html + block_tag(equals) + tail;
            let p = html.len() as int;
            &&& template::next_open(s, p) == Some(p)
            &&& template::marks(s, p) == equals
        }),
{
    let tag = block_tag(equals);
    let s = html + tag + tail;
    let p = html.len() as int;
    assert(s.len() >= p + 6);
    assert(s[p] == tag[0] && s[p + 1] == tag[1] && s[p + 2] == tag[2] && s[p + 3] == tag[3]
        && s[p + 4] == tag[4]);
    if equals == 0 {
        assert(s[p + 5] == tail[0]);
        if tail.len() > 1 {
            assert(s[p + 6] == tail[1]);
        }
    } else if equals == 1 {
        assert(s[p + 5] == tag[5]);
        assert(s[p + 6] == tail[0]);
    } else {
        assert(s[p + 5] == tag[5]);
        assert(s[p + 6] == tag[6]);
    }
}

/// A block that is never closed is an error on the line that the block opens on.
pub proof fn law_open_blocks_are_refused(html: Seq<char>, equals: nat, code: Seq<char>)
    requires
        parted(equals, code),
        code.len() > 0,
        lookalikes_only(html + block_tag(equals) + code, html.len() as int),
        template::block_close(code, 0) is None,
    ensures
        template::parsed(html + block_tag(equals) + code) == Err::<Seq<SegmentView>, nat>(
            1 + template::newlines(html),
        ),
{
    let s = html + block_tag(equals) + code;
    let p = html.len() as int;
    lemma_no_open_before(s, 0, p);
    lemma_opening(html, equals, code);
    let start = p + 5 + equals;
    assert(s.skip(start) =~= code);
    law_the_past_does_not_matter(s, start, 0);
    assert(s.take(p) =~= html);
}

} // verus!
