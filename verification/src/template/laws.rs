//! What holds of every template: parsing loses nothing, segments know their
//! lines, the generated chunk keeps them, and HTML survives its string literal.

use vstd::prelude::*;
use crate::template;
use crate::template::SegmentView;
use crate::text;

verus! {

/// The template text that a list of segments was read from.
pub open spec fn source_of(segments: Seq<SegmentView>) -> Seq<char>
    decreases segments.len(),
{
    if segments.len() == 0 {
        Seq::empty()
    } else {
        source_of(segments.drop_last()) + segments.last().source()
    }
}

proof fn lemma_source_concat(a: Seq<SegmentView>, b: Seq<SegmentView>)
    ensures
        source_of(a + b) == source_of(a) + source_of(b),
    decreases b.len(),
{
    if b.len() == 0 {
        assert(a + b =~= a);
        assert(source_of(a) + source_of(b) =~= source_of(a));
    } else {
        assert((a + b).drop_last() =~= a + b.drop_last());
        lemma_source_concat(a, b.drop_last());
        assert(source_of(a) + source_of(b) =~= source_of(a) + source_of(b.drop_last())
            + b.last().source());
    }
}

proof fn lemma_source_single(seg: SegmentView)
    ensures
        source_of(seq![seg]) == seg.source(),
{
    assert(seq![seg].drop_last() =~= Seq::empty());
    assert(source_of(Seq::empty()) + seg.source() =~= seg.source());
}

proof fn lemma_html_source(s: Seq<char>, from: int, to: int)
    requires
        0 <= from <= to <= s.len(),
    ensures
        source_of(template::html_segment(s, from, to)) == s.subrange(from, to),
{
    if from < to {
        lemma_source_single(SegmentView::Html { text: s.subrange(from, to), line: template::line_at(s, from) });
    } else {
        assert(s.subrange(from, to) =~= Seq::empty());
    }
}

proof fn lemma_block_source(s: Seq<char>, p: int, q: int)
    requires
        template::opens_block(s, p),
        template::code_start(s, p) <= q,
        template::is_close(s, q),
    ensures
        template::block_segment(s, p, q).source() == s.subrange(p, q + 2),
{
    reveal_strlit("<?lua");
    reveal_strlit("<?lua=");
    reveal_strlit("<?lua==");
    reveal_strlit("?>");
    assert(template::block_segment(s, p, q).source() =~= s.subrange(p, q + 2));
}

/// The segments read from `from` on spell out exactly the text from there, and
/// each one carries the line its text starts on.
proof fn lemma_segments_from(s: Seq<char>, from: int)
    requires
        0 <= from <= s.len(),
        template::segments_from(s, from) is Ok,
    ensures
        ({
            let segments = template::segments_from(s, from)->Ok_0;
            &&& source_of(segments) == s.skip(from)
            &&& forall|k: int|
                0 <= k < segments.len() ==> #[trigger] segments[k].line() == template::line_at(
                    s,
                    from + source_of(segments.take(k)).len(),
                )
        }),
    decreases s.len() - from,
{
    let segments = template::segments_from(s, from)->Ok_0;
    match template::next_open(s, from) {
        None => {
            lemma_html_source(s, from, s.len() as int);
            assert(s.subrange(from, s.len() as int) =~= s.skip(from));
            assert(segments.take(0) =~= Seq::empty());
        },
        Some(p) => {
            template::lemma_next_open(s, from);
            template::lemma_block_close(s, template::code_start(s, p));
            let q = template::block_close(s, template::code_start(s, p))->0;
            lemma_segments_from(s, q + 2);
            let html = template::html_segment(s, from, p);
            let block = template::block_segment(s, p, q);
            let rest = template::segments_from(s, q + 2)->Ok_0;
            let head = html.push(block);
            lemma_html_source(s, from, p);
            lemma_block_source(s, p, q);
            assert(head.drop_last() =~= html);
            assert(source_of(head) =~= s.subrange(from, q + 2));
            lemma_source_concat(head, rest);
            assert(s.subrange(from, q + 2) + s.skip(q + 2) =~= s.skip(from));
            assert forall|k: int| 0 <= k < segments.len() implies #[trigger] segments[k].line()
                == template::line_at(s, from + source_of(segments.take(k)).len()) by {
                if k < html.len() {
                    assert(segments.take(k) =~= Seq::empty());
                } else if k == html.len() {
                    assert(segments.take(k) =~= html);
                    assert(segments[k] == block);
                } else {
                    let r = k - head.len();
                    assert(segments.take(k) =~= head + rest.take(r));
                    lemma_source_concat(head, rest.take(r));
                    assert(segments[k] == rest[r]);
                }
            }
        },
    }
}

/// Parsing loses nothing: the segments of a template, written back in order,
/// are the template.
pub proof fn law_segments_spell_the_template(s: Seq<char>)
    requires
        template::parsed(s) is Ok,
    ensures
        source_of(template::parsed(s)->Ok_0) == s,
{
    lemma_segments_from(s, 0);
    assert(s.skip(0) =~= s);
}

proof fn lemma_source_prefix(segments: Seq<SegmentView>, k: int)
    requires
        0 <= k <= segments.len(),
    ensures
        source_of(segments) == source_of(segments.take(k)) + source_of(segments.skip(k)),
{
    assert(segments.take(k) + segments.skip(k) =~= segments);
    lemma_source_concat(segments.take(k), segments.skip(k));
}

/// Every segment carries the 1-based source line its text starts on.
pub proof fn law_segments_know_their_line(s: Seq<char>, k: int)
    requires
        template::parsed(s) is Ok,
        0 <= k < template::parsed(s)->Ok_0.len(),
    ensures
        template::parsed(s)->Ok_0[k].line() == 1 + template::newlines(source_of(template::parsed(s)->Ok_0.take(k))),
{
    let segments = template::parsed(s)->Ok_0;
    lemma_segments_from(s, 0);
    law_segments_spell_the_template(s);
    lemma_source_prefix(segments, k);
    let before = source_of(segments.take(k));
    assert(s.take(before.len() as int) =~= before);
}

/// One escaped character is a single line and has a known length.
proof fn lemma_escaped_char(c: char)
    ensures
        0 <= c as int,
        forall|i: int|
            0 <= i < template::lua_escaped_char(c).len() ==> template::lua_escaped_char(c)[i]
                != '\n',
{
    if (c as int) < 0x20 {
        lemma_hex_value(c as int / 16);
        lemma_hex_value(c as int % 16);
    }
}

/// An escaped string body is a single line.
proof fn lemma_escaped_single_line(text: Seq<char>)
    ensures
        template::newlines(template::lua_escaped(text)) == 0,
    decreases text.len(),
{
    if text.len() > 0 {
        lemma_escaped_single_line(text.drop_last());
        let c = text.last();
        let e = template::lua_escaped_char(c);
        template::lemma_newlines_concat(template::lua_escaped(text.drop_last()), e);
        lemma_escaped_char(c);
        lemma_no_newlines(e);
    }
}

proof fn lemma_no_newlines(s: Seq<char>)
    requires
        forall|i: int| 0 <= i < s.len() ==> s[i] != '\n',
    ensures
        template::newlines(s) == 0,
    decreases s.len(),
{
    if s.len() > 0 {
        lemma_no_newlines(s.drop_last());
    }
}

proof fn lemma_newlines_padding(cur: nat, line: nat)
    ensures
        template::newlines(template::padding(cur, line)) == if cur < line {
            line - cur
        } else {
            0
        },
    decreases line,
{
    if cur < line {
        assert(template::padding(cur, line).drop_last() =~= template::padding(cur, (line - 1) as nat));
        lemma_newlines_padding(cur, (line - 1) as nat);
    }
}

proof fn lemma_markers_single_line(seg: SegmentView)
    ensures
        template::newlines(template::opener(seg)) == 0,
        template::newlines(template::closer(seg)) == 0,
{
    reveal_strlit("_out(\"");
    reveal_strlit("_out_expr(");
    reveal_strlit("_out_raw(");
    reveal_strlit("\"); ");
    reveal_strlit(" ");
    reveal_strlit("); ");
    lemma_no_newlines(template::opener(seg));
    lemma_no_newlines(template::closer(seg));
}

/// The chunk is on the line that was counted.
proof fn lemma_generated_lines(segments: Seq<SegmentView>)
    ensures
        1 + template::newlines(template::generated(segments)) == template::end_line(segments),
    decreases segments.len(),
{
    if segments.len() > 0 {
        let seg = segments.last();
        let before = segments.drop_last();
        lemma_generated_lines(before);
        let pad = template::padding(template::end_line(before), seg.line());
        lemma_newlines_padding(template::end_line(before), seg.line());
        lemma_markers_single_line(seg);
        if seg is Html {
            lemma_escaped_single_line(seg->text);
        }
        template::lemma_newlines_concat(template::generated(before), pad);
        template::lemma_newlines_concat(template::generated(before) + pad, template::opener(seg));
        template::lemma_newlines_concat(template::generated(before) + pad + template::opener(seg), template::content(seg));
        template::lemma_newlines_concat(
            template::generated(before) + pad + template::opener(seg) + template::content(seg),
            template::closer(seg),
        );
    }
}

/// Up to segment `k` the chunk has never run past the source.
proof fn lemma_chunk_never_ahead(s: Seq<char>, k: int)
    requires
        template::parsed(s) is Ok,
        0 <= k <= template::parsed(s)->Ok_0.len(),
    ensures
        template::end_line(template::parsed(s)->Ok_0.take(k)) <= 1 + template::newlines(source_of(template::parsed(s)->Ok_0.take(k))),
    decreases k,
{
    let segments = template::parsed(s)->Ok_0;
    if k == 0 {
        assert(segments.take(0) =~= Seq::empty());
    } else {
        lemma_chunk_never_ahead(s, k - 1);
        law_segments_know_their_line(s, k - 1);
        let seg = segments[k - 1];
        assert(segments.take(k).drop_last() =~= segments.take(k - 1));
        template::lemma_newlines_concat(source_of(segments.take(k - 1)), seg.source());
        if !(seg is Html) {
            let tag = if seg is Code {
                "<?lua"@
            } else if seg is Expr {
                "<?lua="@
            } else {
                "<?lua=="@
            };
            template::lemma_newlines_concat(tag + seg.code(), "?>"@);
            template::lemma_newlines_concat(tag, seg.code());
        }
    }
}

/// What [`parse`] returns, [`generate`] accepts: the chunk has no more lines
/// than the template.
pub proof fn law_parsed_segments_can_be_generated(s: Seq<char>)
    requires
        template::parsed(s) is Ok,
    ensures
        template::end_line(template::parsed(s)->Ok_0) <= 1 + template::newlines(s),
{
    let segments = template::parsed(s)->Ok_0;
    lemma_chunk_never_ahead(s, segments.len() as int);
    law_segments_spell_the_template(s);
    assert(segments.take(segments.len() as int) =~= segments);
}

/// The chunk up to the content of segment `k`.
pub open spec fn lead(segments: Seq<SegmentView>, k: int) -> Seq<char> {
    template::generated(segments.take(k)) + template::padding(template::end_line(segments.take(k)), segments[k].line()) + template::opener(
        segments[k],
    )
}

proof fn lemma_generated_prefix(segments: Seq<SegmentView>, k: int)
    requires
        0 <= k <= segments.len(),
    ensures
        template::generated(segments.take(k)).is_prefix_of(template::generated(segments)),
    decreases segments.len() - k,
{
    if k < segments.len() {
        lemma_generated_prefix(segments, k + 1);
        assert(segments.take(k + 1).drop_last() =~= segments.take(k));
    } else {
        assert(segments.take(k) =~= segments);
    }
}

/// Where the code of segment `k` starts in the template.
pub open spec fn code_position(segments: Seq<SegmentView>, k: int) -> int {
    source_of(segments.take(k)).len() + match segments[k] {
        SegmentView::Html { .. } => 0int,
        SegmentView::Code { .. } => 5,
        SegmentView::Expr { .. } => 6,
        SegmentView::RawExpr { .. } => 7,
    }
}

/// The tag in front of a block's code.
spec fn tag_of(seg: SegmentView) -> Seq<char> {
    match seg {
        SegmentView::Html { .. } => Seq::empty(),
        SegmentView::Code { .. } => "<?lua"@,
        SegmentView::Expr { .. } => "<?lua="@,
        SegmentView::RawExpr { .. } => "<?lua=="@,
    }
}

/// The chunk up to character `m` of segment `k`'s content, and its line.
proof fn lemma_place_in_chunk(s: Seq<char>, k: int, m: int)
    requires
        parsed_ok(s, k),
        !(template::parsed(s)->Ok_0[k] is Html),
        0 <= m < template::parsed(s)->Ok_0[k].code().len(),
    ensures
        ({
            let segments = template::parsed(s)->Ok_0;
            let chunk = template::generated(segments);
            let at = lead(segments, k).len() + m;
            &&& at < chunk.len()
            &&& chunk[at] == segments[k].code()[m]
            &&& template::line_at(chunk, at) == segments[k].line() + template::newlines(
                segments[k].code().take(m),
            )
        }),
{
    let segments = template::parsed(s)->Ok_0;
    let seg = segments[k];
    let code = seg.code();
    let chunk = template::generated(segments);
    let head = lead(segments, k);
    lemma_generated_prefix(segments, k + 1);
    assert(segments.take(k + 1).drop_last() =~= segments.take(k));
    let upto = template::generated(segments.take(k + 1));
    assert(upto == head + code + template::closer(seg));
    let at = head.len() + m;
    assert(upto[at] == code[m]);
    assert(chunk[at] == upto[at]);
    assert(upto.take(at) =~= head + code.take(m));
    assert(chunk.take(at) =~= upto.take(at));
    lemma_generated_lines(segments.take(k));
    lemma_chunk_never_ahead(s, k);
    law_segments_know_their_line(s, k);
    let pad = template::padding(template::end_line(segments.take(k)), seg.line());
    lemma_newlines_padding(template::end_line(segments.take(k)), seg.line());
    lemma_markers_single_line(seg);
    template::lemma_newlines_concat(template::generated(segments.take(k)), pad);
    template::lemma_newlines_concat(
        template::generated(segments.take(k)) + pad,
        template::opener(seg),
    );
    template::lemma_newlines_concat(head, code.take(m));
}

/// The template up to character `m` of segment `k`'s code, and its line.
proof fn lemma_place_in_source(s: Seq<char>, k: int, m: int)
    requires
        parsed_ok(s, k),
        !(template::parsed(s)->Ok_0[k] is Html),
        0 <= m < template::parsed(s)->Ok_0[k].code().len(),
    ensures
        ({
            let segments = template::parsed(s)->Ok_0;
            let at = code_position(segments, k) + m;
            &&& at < s.len()
            &&& s[at] == segments[k].code()[m]
            &&& template::line_at(s, at) == segments[k].line() + template::newlines(
                segments[k].code().take(m),
            )
        }),
{
    let segments = template::parsed(s)->Ok_0;
    let seg = segments[k];
    let code = seg.code();
    law_segments_know_their_line(s, k);
    law_segments_spell_the_template(s);
    lemma_source_prefix(segments, k);
    lemma_source_prefix(segments.skip(k), 1);
    assert(segments.skip(k).take(1) =~= seq![seg]);
    lemma_source_single(seg);
    reveal_strlit("<?lua");
    reveal_strlit("<?lua=");
    reveal_strlit("<?lua==");
    let tag = tag_of(seg);
    let before = source_of(segments.take(k));
    let after = source_of(segments.skip(k).skip(1));
    assert(seg.source() == tag + code + "?>"@);
    assert(s == before + (tag + code + "?>"@ + after));
    let at = code_position(segments, k) + m;
    assert(at == before.len() + tag.len() + m);
    assert(s[at] == (tag + code + "?>"@ + after)[tag.len() + m]);
    assert(s[at] == code[m]);
    assert(s.take(at) =~= before + tag + code.take(m));
    lemma_no_newlines(tag);
    template::lemma_newlines_concat(before, tag);
    template::lemma_newlines_concat(before + tag, code.take(m));
}

/// `k` is a segment of the parsed template.
spec fn parsed_ok(s: Seq<char>, k: int) -> bool {
    template::parsed(s) is Ok && 0 <= k < template::parsed(s)->Ok_0.len()
}

/// Lines match: every character of a block's code stands in the chunk, in its
/// place, on the line number that it has in the template.
pub proof fn law_code_keeps_its_line(s: Seq<char>, k: int, m: int)
    requires
        template::parsed(s) is Ok,
        0 <= k < template::parsed(s)->Ok_0.len(),
        !(template::parsed(s)->Ok_0[k] is Html),
        0 <= m < template::parsed(s)->Ok_0[k].code().len(),
    ensures
        ({
            let segments = template::parsed(s)->Ok_0;
            let chunk = template::generated(segments);
            let in_chunk = lead(segments, k).len() + m;
            let in_source = code_position(segments, k) + m;
            &&& in_chunk < chunk.len()
            &&& in_source < s.len()
            &&& chunk[in_chunk] == segments[k].code()[m]
            &&& s[in_source] == segments[k].code()[m]
            &&& template::line_at(chunk, in_chunk) == template::line_at(s, in_source)
        }),
{
    lemma_place_in_chunk(s, k, m);
    lemma_place_in_source(s, k, m);
}

/// What stands in front of a chunk without a newline moves no line.
pub proof fn law_prologue_moves_no_line(chunk: Seq<char>, i: int)
    requires
        0 <= i <= chunk.len(),
    ensures
        template::newlines(template::PROLOGUE@) == 0,
        template::line_at(template::PROLOGUE@ + chunk, template::PROLOGUE@.len() + i)
            == template::line_at(chunk, i),
{
    reveal_strlit("local _out,_out_expr,_out_raw=_out,_out_expr,_out_raw;");
    let p = template::PROLOGUE@;
    lemma_no_newlines(p);
    assert((p + chunk).take(p.len() + i) =~= p + chunk.take(i));
    template::lemma_newlines_concat(p, chunk.take(i));
}

/// A cache never serves a stale template: what a lookup hands out was compiled
/// from a file of the same modification time and length, and a disabled cache
/// hands out nothing.
pub proof fn law_lookups_are_fresh(cache: template::TemplateCache, path: Seq<u8>, stamp: template::Stamp)
    ensures
        cache.hit(path, stamp) is Some ==> cache.enabled() && cache.hit(path, stamp)->0.stamp
            == stamp && cache.entry(path) == cache.hit(path, stamp),
        !cache.enabled() ==> cache.hit(path, stamp) is None,
{
}

// ---- HTML string literals -----------------------------------------------------

/// The value of an uppercase hexadecimal digit.
pub open spec fn hex_value(c: char) -> Option<int> {
    if '0' <= c <= '9' {
        Some(c as int - '0' as int)
    } else if 'A' <= c <= 'F' {
        Some(c as int - 'A' as int + 10)
    } else {
        None
    }
}

/// What Lua reads from the body of a double-quoted short string, as far as the
/// escapes that the generator writes are concerned. `None` for a body that
/// would end early, span lines or hold another escape.
pub open spec fn lua_read(body: Seq<char>) -> Option<Seq<char>>
    decreases body.len(),
{
    if body.len() == 0 {
        Some(Seq::empty())
    } else if body[0] == '"' || body[0] == '\n' {
        None
    } else if body[0] != '\\' {
        prepend(body[0], lua_read(body.skip(1)))
    } else if body.len() < 2 {
        None
    } else if body[1] == '"' || body[1] == '\\' {
        prepend(body[1], lua_read(body.skip(2)))
    } else if body[1] == 'n' {
        prepend('\n', lua_read(body.skip(2)))
    } else if body[1] == 'r' {
        prepend('\r', lua_read(body.skip(2)))
    } else if body[1] == 't' {
        prepend('\t', lua_read(body.skip(2)))
    } else if body[1] == 'x' && body.len() >= 4 && hex_value(body[2]) is Some && hex_value(
        body[3],
    ) is Some {
        prepend(
            (hex_value(body[2])->0 * 16 + hex_value(body[3])->0) as char,
            lua_read(body.skip(4)),
        )
    } else {
        None
    }
}

/// `c` in front of `rest`, if there is a rest.
pub open spec fn prepend(c: char, rest: Option<Seq<char>>) -> Option<Seq<char>> {
    match rest {
        Some(s) => Some(seq![c] + s),
        None => None,
    }
}

proof fn lemma_escaped_front(text: Seq<char>)
    requires
        text.len() > 0,
    ensures
        template::lua_escaped(text) == template::lua_escaped_char(text[0]) + template::lua_escaped(text.drop_first()),
    decreases text.len(),
{
    if text.len() == 1 {
        assert(text.drop_last() =~= Seq::empty());
        assert(text.drop_first() =~= Seq::empty());
        assert(template::lua_escaped(text) =~= template::lua_escaped_char(text[0]) + template::lua_escaped(text.drop_first()));
    } else {
        lemma_escaped_front(text.drop_last());
        assert(text.drop_last().drop_first() =~= text.drop_first().drop_last());
        assert(template::lua_escaped(text) =~= template::lua_escaped_char(text[0]) + template::lua_escaped(text.drop_first()));
    }
}

proof fn lemma_hex_value(d: int)
    requires
        0 <= d < 16,
    ensures
        hex_value(text::hex_upper(d)) == Some(d),
{
}

/// HTML survives its string literal: Lua reads back exactly the text that was
/// escaped, whatever quotes, backslashes, newlines or control characters it has.
#[verifier::rlimit(40)]
#[verifier::spinoff_prover]
pub proof fn law_html_literal_reads_back(text: Seq<char>)
    ensures
        lua_read(template::lua_escaped(text)) == Some(text),
        template::newlines(template::lua_escaped(text)) == 0,
    decreases text.len(),
{
    lemma_escaped_single_line(text);
    if text.len() > 0 {
        let c = text[0];
        let rest = text.drop_first();
        law_html_literal_reads_back(rest);
        lemma_escaped_front(text);
        let body = template::lua_escaped(text);
        let e = template::lua_escaped_char(c);
        assert(body.skip(e.len() as int) =~= template::lua_escaped(rest));
        assert(forall|i: int| 0 <= i < e.len() ==> body[i] == e[i]);
        assert(seq![c] + rest =~= text);
        lemma_escaped_char(c);
        if (c as int) < 0x20 && c != '\n' && c != '\r' && c != '\t' {
            lemma_hex_value(c as int / 16);
            lemma_hex_value(c as int % 16);
        }
    }
}

// ---- what the chunk says --------------------------------------------------------

/// Lines are counted by their newlines: every newline counts one, nothing else does,
/// and texts put together add up.
pub proof fn law_newlines_are_counted(a: Seq<char>, c: char)
    ensures
        template::newlines(Seq::empty()) == 0,
        c == '\n' ==> template::newlines(a.push(c)) == template::newlines(a) + 1,
        c != '\n' ==> template::newlines(a.push(c)) == template::newlines(a),
{
    assert(a.push(c).drop_last() =~= a);
}

/// Newlines and nothing else.
pub open spec fn only_newlines(s: Seq<char>) -> bool {
    forall|i: int| 0 <= i < s.len() ==> #[trigger] s[i] == '\n'
}

/// What a segment does stands in the chunk as Lua: HTML as one `_out` call on a string
/// literal that reads back as the text, whatever the text is, code as it is, an
/// expression inside `_out_expr` or `_out_raw`. Returned is the literal's body.
pub proof fn law_segments_say_what_they_do(seg: SegmentView) -> (body: Seq<char>)
    ensures
        ({
            let said = template::opener(seg) + template::content(seg) + template::closer(seg);
            match seg {
                SegmentView::Html { text, .. } => {
                    &&& said == "_out(\""@ + body + "\"); "@
                    &&& lua_read(body) == Some(text)
                    &&& template::newlines(body) == 0
                },
                SegmentView::Code { code, .. } => said == code + " "@,
                SegmentView::Expr { code, .. } => said == "_out_expr("@ + code + "); "@,
                SegmentView::RawExpr { code, .. } => said == "_out_raw("@ + code + "); "@,
            }
        }),
{
    if let SegmentView::Html { text, .. } = seg {
        law_html_literal_reads_back(text);
    }
    if let SegmentView::Code { code, .. } = seg {
        assert(Seq::<char>::empty() + code + " "@ =~= code + " "@);
    }
    template::content(seg)
}

/// The chunk grows by one segment at a time: behind the chunk so far come newlines
/// down to the segment's line, as many as it lacks, and then what the segment does.
/// Returned are the newlines and the body of the string literal, if there is one.
pub proof fn law_chunks_grow_by_their_segments(
    segments: Seq<SegmentView>,
    seg: SegmentView,
) -> (r: (Seq<char>, Seq<char>))
    ensures
        template::generated(Seq::empty()) == Seq::<char>::empty(),
        only_newlines(r.0),
        ({
            let before = template::generated(segments);
            let line = 1 + template::newlines(before);
            let chunk = template::generated(segments.push(seg));
            &&& r.0.len() == if line < seg.line() {
                seg.line() - line
            } else {
                0
            }
            &&& match seg {
                SegmentView::Html { text, .. } => {
                    &&& chunk == before + r.0 + "_out(\""@ + r.1 + "\"); "@
                    &&& lua_read(r.1) == Some(text)
                },
                SegmentView::Code { code, .. } => chunk == before + r.0 + code + " "@,
                SegmentView::Expr { code, .. } => chunk == before + r.0 + "_out_expr("@ + code
                    + "); "@,
                SegmentView::RawExpr { code, .. } => chunk == before + r.0 + "_out_raw("@ + code
                    + "); "@,
            }
        }),
{
    let before = template::generated(segments);
    let all = segments.push(seg);
    assert(all.drop_last() =~= segments);
    lemma_generated_lines(segments);
    let pad = template::padding(template::end_line(segments), seg.line());
    let body = law_segments_say_what_they_do(seg);
    let said = template::opener(seg) + template::content(seg) + template::closer(seg);
    let chunk = template::generated(all);
    assert(chunk =~= before + pad + said);
    match seg {
        SegmentView::Html { .. } => {
            assert(chunk =~= before + pad + "_out(\""@ + body + "\"); "@);
        },
        SegmentView::Code { code, .. } => {
            assert(chunk =~= before + pad + code + " "@);
        },
        SegmentView::Expr { code, .. } => {
            assert(chunk =~= before + pad + "_out_expr("@ + code + "); "@);
        },
        SegmentView::RawExpr { code, .. } => {
            assert(chunk =~= before + pad + "_out_raw("@ + code + "); "@);
        },
    }
    (pad, body)
}

/// No HTML is lost: for every HTML segment of a template, whitespace or not, the chunk
/// holds, behind what the segments in front of it made and newlines, an `_out` call
/// whose literal reads back as the segment's text. Returned are those newlines, the
/// literal's body and the rest of the chunk.
pub proof fn law_html_is_put_out(s: Seq<char>, k: int) -> (r: (Seq<char>, Seq<char>, Seq<char>))
    requires
        template::parsed(s) is Ok,
        0 <= k < template::parsed(s)->Ok_0.len(),
        template::parsed(s)->Ok_0[k] is Html,
    ensures
        only_newlines(r.0),
        lua_read(r.1) == Some(template::parsed(s)->Ok_0[k]->text),
        template::generated(template::parsed(s)->Ok_0) == template::generated(
            template::parsed(s)->Ok_0.take(k),
        ) + r.0 + "_out(\""@ + r.1 + "\"); "@ + r.2,
{
    let segments = template::parsed(s)->Ok_0;
    let (pad, body) = law_chunks_grow_by_their_segments(segments.take(k), segments[k]);
    assert(segments.take(k).push(segments[k]) =~= segments.take(k + 1));
    lemma_generated_prefix(segments, k + 1);
    let upto = template::generated(segments.take(k + 1));
    let rest = template::generated(segments).skip(upto.len() as int);
    assert(template::generated(segments) =~= upto + rest);
    (pad, body, rest)
}

/// A compiled template is its chunk behind the declaration of the three output
/// functions as locals, under its own name, or the line of the block left open.
pub proof fn law_templates_compile_to_their_chunk(
    name: Seq<char>,
    source: Seq<char>,
    stamp: template::Stamp,
)
    ensures
        match template::parsed(source) {
            Ok(segments) => {
                &&& template::compiled(name, source, stamp) is Ok
                &&& template::compiled(name, source, stamp)->Ok_0.lua_source
                    == "local _out,_out_expr,_out_raw=_out,_out_expr,_out_raw;"@
                    + template::generated(segments)
                &&& template::compiled(name, source, stamp)->Ok_0.chunk_name == seq!['@'] + name
                &&& template::compiled(name, source, stamp)->Ok_0.stamp == stamp
            },
            Err(line) => template::compiled(name, source, stamp) == Err::<
                template::CompiledView,
                nat,
            >(line),
        },
        template::module_view(name, source, stamp).lua_source == source,
        template::module_view(name, source, stamp).chunk_name == seq!['@'] + name,
        template::module_view(name, source, stamp).stamp == stamp,
{
    reveal_strlit("@");
    assert("@"@ =~= seq!['@']);
}

/// What a cache that is on has for a file as it is now, it hands out.
pub proof fn law_lookups_find_what_is_there(
    cache: template::TemplateCache,
    path: Seq<u8>,
    stamp: template::Stamp,
)
    requires
        cache.enabled(),
        cache.entry(path) is Some,
        cache.entry(path)->0.stamp == stamp,
    ensures
        cache.hit(path, stamp) == cache.entry(path),
{
}

/// Segments and compiled templates are spoken of as what they hold, in order.
pub proof fn law_segments_are_seen_as_they_are(
    seg: template::Segment,
    segments: Seq<template::Segment>,
    i: int,
    c: template::CompiledTemplate,
)
    ensures
        match seg {
            template::Segment::Html { text, line } => seg@ is Html && seg@->text == text@
                && seg@.line() == line,
            template::Segment::Code { code, line } => seg@ is Code && seg@.code() == code@
                && seg@.line() == line,
            template::Segment::Expr { code, line } => seg@ is Expr && seg@.code() == code@
                && seg@.line() == line,
            template::Segment::RawExpr { code, line } => seg@ is RawExpr && seg@.code() == code@
                && seg@.line() == line,
        },
        template::segment_views(segments).len() == segments.len(),
        0 <= i < segments.len() ==> template::segment_views(segments)[i] == segments[i]@,
        c@.chunk_name == c.chunk_name@,
        c@.lua_source == c.lua_source@,
        c@.stamp == c.stamp,
{
}

} // verus!
