//! A bare template processor: every `<?lua ... ?>` block is run on its own, in
//! order, and replaced by what it printed and returned.

use vstd::prelude::*;
use crate::template;
use crate::text;
use crate::text::{chars_of, string_of};

verus! {

/// What a template sees of a request.
pub struct LuaRequest {
    pub method: String,
    pub path: String,
    pub headers: Vec<(String, String)>,
    pub query: Vec<(String, String)>,
    pub body: Option<Vec<(String, String)>>,
}

/// The first `?>` at or after `i`.
pub open spec fn close_at(s: Seq<char>, i: int) -> Option<int>
    decreases s.len() - i,
{
    if i < 0 || i + 1 >= s.len() {
        None
    } else if template::is_close(s, i) {
        Some(i)
    } else {
        close_at(s, i + 1)
    }
}

/// The first `<?lua` at or after `i`.
pub open spec fn open_at(s: Seq<char>, i: int) -> Option<int>
    decreases s.len() - i,
{
    if i < 0 || i >= s.len() {
        None
    } else if template::has_tag(s, i) {
        Some(i)
    } else {
        open_at(s, i + 1)
    }
}

pub proof fn lemma_close_at(s: Seq<char>, i: int)
    requires
        0 <= i,
    ensures
        match close_at(s, i) {
            Some(q) => i <= q && template::is_close(s, q),
            None => true,
        },
    decreases s.len() - i,
{
    if i + 1 < s.len() && !template::is_close(s, i) {
        lemma_close_at(s, i + 1);
    }
}

pub proof fn lemma_open_at(s: Seq<char>, i: int)
    requires
        0 <= i,
    ensures
        match open_at(s, i) {
            Some(p) => i <= p && template::has_tag(s, p),
            None => true,
        },
    decreases s.len() - i,
{
    if i < s.len() && !template::has_tag(s, i) {
        lemma_open_at(s, i + 1);
    }
}

/// The text in front of each block and its code, and the text behind the last one.
pub struct Pieces {
    pub blocks: Seq<(Seq<char>, Seq<char>)>,
    pub tail: Seq<char>,
}

/// The pieces of a template from `from` on. A block that is not closed is text.
pub open spec fn pieces(s: Seq<char>, from: int) -> Pieces
    decreases s.len() - from,
{
    if from < 0 || from > s.len() {
        Pieces { blocks: Seq::empty(), tail: Seq::empty() }
    } else {
        match open_at(s, from) {
            None => Pieces { blocks: Seq::empty(), tail: s.skip(from) },
            Some(p) => match close_at(s, p + 5) {
                None => Pieces { blocks: Seq::empty(), tail: s.skip(from) },
                Some(q) => {
                    proof {
                        lemma_open_at(s, from);
                        lemma_close_at(s, p + 5);
                    }
                    let rest = pieces(s, q + 2);
                    Pieces {
                        blocks: seq![(s.subrange(from, p), s.subrange(p + 5, q))] + rest.blocks,
                        tail: rest.tail,
                    }
                },
            },
        }
    }
}

/// A template taken apart.
pub struct Split {
    /// The text in front of each block, and the block's code.
    pub blocks: Vec<(String, String)>,
    /// The text behind the last block.
    pub tail: String,
}

pub open spec fn block_views(blocks: Seq<(String, String)>) -> Seq<(Seq<char>, Seq<char>)> {
    blocks.map_values(|b: (String, String)| (b.0@, b.1@))
}

fn find_open(s: &Vec<char>, from: usize) -> (r: Option<usize>)
    requires
        from <= s@.len(),
    ensures
        match r {
            Some(p) => open_at(s@, from as int) == Some(p as int),
            None => open_at(s@, from as int) is None,
        },
{
    let n: usize = s.len();
    let mut i: usize = from;
    while i < n
        invariant
            n == s@.len(),
            from <= i <= n,
            open_at(s@, i as int) == open_at(s@, from as int),
        decreases n - i,
    {
        if n - i >= 5 && s[i] == '<' && s[i + 1] == '?' && s[i + 2] == 'l' && s[i + 3] == 'u' && s[i
            + 4] == 'a' {
            return Some(i);
        }
        i = i + 1;
    }
    None
}

fn find_close(s: &Vec<char>, from: usize) -> (r: Option<usize>)
    requires
        from <= s@.len(),
    ensures
        match r {
            Some(q) => close_at(s@, from as int) == Some(q as int),
            None => close_at(s@, from as int) is None,
        },
{
    let n: usize = s.len();
    let mut i: usize = from;
    while n - i >= 2
        invariant
            n == s@.len(),
            from <= i <= n,
            close_at(s@, i as int) == close_at(s@, from as int),
        decreases n - i,
    {
        if s[i] == '?' && s[i + 1] == '>' {
            return Some(i);
        }
        i = i + 1;
    }
    None
}

/// Takes a template apart into text and blocks.
pub fn split_blocks(input: &str) -> (r: Split)
    ensures
        block_views(r.blocks@) == pieces(input@, 0).blocks,
        r.tail@ == pieces(input@, 0).tail,
{
    let s = chars_of(input);
    let mut blocks: Vec<(String, String)> = Vec::new();
    let mut from: usize = 0;
    assert(block_views(blocks@) =~= Seq::empty());
    assert(block_views(blocks@) + pieces(s@, 0).blocks =~= pieces(s@, 0).blocks);
    loop
        invariant
            s@ == input@,
            from <= s@.len(),
            block_views(blocks@) + pieces(s@, from as int).blocks == pieces(s@, 0).blocks,
            pieces(s@, from as int).tail == pieces(s@, 0).tail,
        decreases s@.len() - from,
    {
        proof {
            lemma_open_at(s@, from as int);
        }
        let p: usize = match find_open(&s, from) {
            Some(p) => p,
            None => {
                let tail = string_of(s.as_slice(), from, s.len());
                assert(tail@ =~= s@.skip(from as int));
                assert(block_views(blocks@) =~= pieces(s@, 0).blocks);
                return Split { blocks, tail };
            },
        };
        proof {
            lemma_close_at(s@, p + 5);
        }
        let q: usize = match find_close(&s, p + 5) {
            Some(q) => q,
            None => {
                let tail = string_of(s.as_slice(), from, s.len());
                assert(tail@ =~= s@.skip(from as int));
                assert(block_views(blocks@) =~= pieces(s@, 0).blocks);
                return Split { blocks, tail };
            },
        };
        let html = string_of(s.as_slice(), from, p);
        let code = string_of(s.as_slice(), p + 5, q);
        let ghost before = block_views(blocks@);
        let ghost rest = pieces(s@, q + 2).blocks;
        blocks.push((html, code));
        proof {
            assert(block_views(blocks@) =~= before.push((html@, code@)));
            assert(block_views(blocks@) + rest =~= before + (seq![(html@, code@)] + rest));
        }
        from = q + 2;
    }
}

/// The template that pieces were taken from.
pub open spec fn written(p: Pieces) -> Seq<char>
    decreases p.blocks.len(),
{
    if p.blocks.len() == 0 {
        p.tail
    } else {
        p.blocks[0].0 + "<?lua"@ + p.blocks[0].1 + "?>"@ + written(
            Pieces { blocks: p.blocks.skip(1), tail: p.tail },
        )
    }
}

proof fn lemma_written(s: Seq<char>, from: int)
    requires
        0 <= from <= s.len(),
    ensures
        written(pieces(s, from)) == s.skip(from),
    decreases s.len() - from,
{
    lemma_open_at(s, from);
    match open_at(s, from) {
        None => {},
        Some(p) => {
            lemma_close_at(s, p + 5);
            match close_at(s, p + 5) {
                None => {},
                Some(q) => {
                    lemma_written(s, q + 2);
                    let all = pieces(s, from);
                    let rest = pieces(s, q + 2);
                    assert(all.blocks.skip(1) =~= rest.blocks);
                    reveal_strlit("<?lua");
                    reveal_strlit("?>");
                    assert(s.subrange(from, p) + "<?lua"@ + s.subrange(p + 5, q) + "?>"@ + s.skip(
                        q + 2,
                    ) =~= s.skip(from));
                },
            }
        },
    }
}

/// Nothing is lost: text, blocks and tail written back in order are the template.
pub proof fn law_pieces_spell_the_template(s: Seq<char>)
    ensures
        written(pieces(s, 0)) == s,
{
    lemma_written(s, 0);
    assert(s.skip(0) =~= s);
}

/// What a block is replaced by: what it printed, then what it returned.
pub fn block_output(printed: String, returned: Option<String>) -> (out: String)
    ensures
        out@ == printed@ + (match returned {
            Some(s) => s@,
            None => Seq::empty(),
        }),
{
    let mut out = printed;
    match returned {
        Some(s) => {
            out.append(s.as_str());
        },
        None => {
            assert(out@ =~= printed@ + Seq::empty());
        },
    }
    out
}

/// The page: each text followed by what its block is replaced by, then the tail.
pub open spec fn assembled(
    blocks: Seq<(Seq<char>, Seq<char>)>,
    outputs: Seq<Seq<char>>,
    tail: Seq<char>,
) -> Seq<char> {
    text::flat(
        Seq::new(
            blocks.len(),
            |i: int| blocks[i].0 + outputs[i],
        ),
    ) + tail
}

/// Puts the page together from a template's pieces and its blocks' output.
pub fn process_lhtml(split: &Split, outputs: &Vec<String>) -> (page: String)
    requires
        outputs@.len() == split.blocks@.len(),
    ensures
        page@ == assembled(block_views(split.blocks@), text::views(outputs@), split.tail@),
{
    let ghost parts = Seq::new(
        split.blocks@.len(),
        |i: int| block_views(split.blocks@)[i].0 + text::views(outputs@)[i],
    );
    let mut page = String::new();
    let mut i: usize = 0;
    assert(parts.take(0) =~= Seq::empty());
    while i < split.blocks.len()
        invariant
            i <= split.blocks@.len(),
            outputs@.len() == split.blocks@.len(),
            parts == Seq::new(
                split.blocks@.len(),
                |i: int| block_views(split.blocks@)[i].0 + text::views(outputs@)[i],
            ),
            page@ == text::flat(parts.take(i as int)),
        decreases split.blocks@.len() - i,
    {
        let ghost done = page@;
        page.append(split.blocks[i].0.as_str());
        page.append(outputs[i].as_str());
        proof {
            assert(parts.take(i + 1).drop_last() =~= parts.take(i as int));
            assert(parts.take(i + 1).last() == split.blocks@[i as int].0@ + outputs@[i as int]@);
            assert(page@ =~= done + (split.blocks@[i as int].0@ + outputs@[i as int]@));
        }
        i = i + 1;
    }
    assert(parts.take(i as int) =~= parts);
    page.append(split.tail.as_str());
    assert(Seq::new(
        block_views(split.blocks@).len(),
        |i: int| block_views(split.blocks@)[i].0 + text::views(outputs@)[i],
    ) =~= parts);
    page
}

/// The globals that were not there at the start, in order.
pub open spec fn added(current: Seq<Seq<char>>, initial: Seq<Seq<char>>) -> Seq<Seq<char>>
    decreases current.len(),
{
    if current.len() == 0 {
        Seq::empty()
    } else {
        let front = added(current.drop_last(), initial);
        if initial.contains(current.last()) {
            front
        } else {
            front.push(current.last())
        }
    }
}

fn listed(names: &Vec<String>, name: &str) -> (r: bool)
    ensures
        r == text::views(names@).contains(name@),
{
    let mut i: usize = 0;
    while i < names.len()
        invariant
            i <= names@.len(),
            forall|k: int| 0 <= k < i ==> text::views(names@)[k] != name@,
        decreases names@.len() - i,
    {
        if text::same(names[i].as_str(), name) {
            assert(text::views(names@)[i as int] == name@);
            return true;
        }
        i = i + 1;
    }
    false
}

/// The globals to remove so that a state is as it was at the start.
pub fn keys_to_remove(current: &Vec<String>, initial: &Vec<String>) -> (out: Vec<String>)
    ensures
        text::views(out@) == added(text::views(current@), text::views(initial@)),
{
    let ghost all = text::views(current@);
    let mut out: Vec<String> = Vec::new();
    let mut i: usize = 0;
    assert(all.take(0) =~= Seq::empty());
    assert(text::views(out@) =~= Seq::empty());
    while i < current.len()
        invariant
            i <= current@.len(),
            all == text::views(current@),
            text::views(out@) == added(all.take(i as int), text::views(initial@)),
        decreases current@.len() - i,
    {
        assert(all.take(i + 1).drop_last() =~= all.take(i as int));
        assert(all.take(i + 1).last() == current@[i as int]@);
        if !listed(initial, current[i].as_str()) {
            let ghost before = out@;
            out.push(current[i].clone());
            assert(text::views(out@) =~= text::views(before).push(current@[i as int]@));
        }
        i = i + 1;
    }
    assert(all.take(i as int) =~= all);
    out
}

/// A reset removes exactly what was added: nothing from the start is among it, and
/// everything else is.
pub proof fn law_reset_restores_the_start(
    current: Seq<Seq<char>>,
    initial: Seq<Seq<char>>,
    name: Seq<char>,
)
    ensures
        added(current, initial).contains(name) <==> current.contains(name) && !initial.contains(
            name,
        ),
    decreases current.len(),
{
    if current.len() > 0 {
        let front = current.drop_last();
        let rest = added(front, initial);
        law_reset_restores_the_start(front, initial, name);
        let last = current.last();
        let all = added(current, initial);
        if current.contains(name) {
            let i = choose|i: int| 0 <= i < current.len() && current[i] == name;
            if i < front.len() {
                assert(front[i] == name);
            }
        }
        if front.contains(name) {
            let i = choose|i: int| 0 <= i < front.len() && front[i] == name;
            assert(current[i] == name);
        }
        assert(current[current.len() - 1] == last);
        if !initial.contains(last) {
            assert(all == rest.push(last));
            assert(all[rest.len() as int] == last);
            if rest.contains(name) {
                let i = choose|i: int| 0 <= i < rest.len() && rest[i] == name;
                assert(all[i] == name);
            }
            if all.contains(name) {
                let i = choose|i: int| 0 <= i < all.len() && all[i] == name;
                if i < rest.len() {
                    assert(rest[i] == name);
                }
            }
        }
    }
}

// ---- what a template is made of ---------------------------------------------------

proof fn lemma_open_moved(s: Seq<char>, n: int, i: int)
    requires
        0 <= n <= s.len(),
        0 <= i,
    ensures
        open_at(s, n + i) == template::blocks::moved(open_at(s.skip(n), i), n),
    decreases s.len() - n - i,
{
    if n + i < s.len() {
        lemma_open_moved(s, n, i + 1);
    }
}

proof fn lemma_close_moved(s: Seq<char>, n: int, i: int)
    requires
        0 <= n <= s.len(),
        0 <= i,
    ensures
        close_at(s, n + i) == template::blocks::moved(close_at(s.skip(n), i), n),
    decreases s.len() - n - i,
{
    if n + i + 1 < s.len() {
        lemma_close_moved(s, n, i + 1);
    }
}

proof fn lemma_pieces_moved(s: Seq<char>, n: int, i: int)
    requires
        0 <= n <= s.len(),
        0 <= i <= s.len() - n,
    ensures
        pieces(s, n + i).blocks == pieces(s.skip(n), i).blocks,
        pieces(s, n + i).tail == pieces(s.skip(n), i).tail,
    decreases s.len() - n - i,
{
    let t = s.skip(n);
    lemma_open_moved(s, n, i);
    lemma_open_at(t, i);
    assert(s.skip(n + i) =~= t.skip(i));
    if let Some(p) = open_at(t, i) {
        lemma_close_moved(s, n, p + 5);
        lemma_close_at(t, p + 5);
        if let Some(q) = close_at(t, p + 5) {
            lemma_pieces_moved(s, n, q + 2);
            assert(s.subrange(n + i, n + p) =~= t.subrange(i, p));
            assert(s.subrange(n + p + 5, n + q) =~= t.subrange(p + 5, q));
        }
    }
}

/// No tag starts in front of `upto`.
pub open spec fn no_tag_before(s: Seq<char>, upto: int) -> bool {
    forall|i: int|
        0 <= i < upto && i + 5 <= s.len() ==> #[trigger] s.subrange(i, i + 5) != seq![
            '<',
            '?',
            'l',
            'u',
            'a',
        ]
}

/// No `?>` starts in front of `upto`.
pub open spec fn no_close_before(s: Seq<char>, upto: int) -> bool {
    forall|i: int|
        0 <= i < upto && i + 2 <= s.len() ==> #[trigger] s.subrange(i, i + 2) != seq!['?', '>']
}

proof fn lemma_no_open(s: Seq<char>, i: int, p: int)
    requires
        0 <= i <= p <= s.len(),
        no_tag_before(s, p),
    ensures
        open_at(s, i) == open_at(s, p),
    decreases p - i,
{
    if i < p {
        if template::has_tag(s, i) {
            assert(s.subrange(i, i + 5) =~= seq!['<', '?', 'l', 'u', 'a']);
        }
        lemma_no_open(s, i + 1, p);
    }
}

proof fn lemma_no_close(s: Seq<char>, i: int, q: int)
    requires
        0 <= i <= q <= s.len(),
        no_close_before(s, q),
    ensures
        close_at(s, i) == close_at(s, q),
    decreases q - i,
{
    if i < q {
        if template::is_close(s, i) {
            assert(s.subrange(i, i + 2) =~= seq!['?', '>']);
        }
        if i + 1 < s.len() {
            lemma_no_close(s, i + 1, q);
        }
    }
}

/// A template is read block by block: text up to a tag, code up to the next `?>`,
/// whatever stands in between, and then the rest as if it stood alone.
pub proof fn law_templates_are_read_block_by_block(
    html: Seq<char>,
    code: Seq<char>,
    rest: Seq<char>,
)
    requires
        no_tag_before(
            html + seq!['<', '?', 'l', 'u', 'a'] + code + seq!['?', '>'] + rest,
            html.len() as int,
        ),
        no_close_before(code + seq!['?', '>'] + rest, code.len() as int),
    ensures
        ({
            let s = html + seq!['<', '?', 'l', 'u', 'a'] + code + seq!['?', '>'] + rest;
            &&& pieces(s, 0).blocks == seq![(html, code)] + pieces(rest, 0).blocks
            &&& pieces(s, 0).tail == pieces(rest, 0).tail
        }),
{
    let tag = seq!['<', '?', 'l', 'u', 'a'];
    let close = seq!['?', '>'];
    let s = html + tag + code + close + rest;
    let p = html.len() as int;
    lemma_no_open(s, 0, p);
    assert(s[p] == tag[0] && s[p + 1] == tag[1] && s[p + 2] == tag[2] && s[p + 3] == tag[3] && s[p
        + 4] == tag[4]);
    assert(open_at(s, p) == Some(p));
    let start = p + 5;
    let t = code + close + rest;
    let q = start + code.len();
    assert(s.skip(start) =~= t);
    lemma_no_close(t, 0, code.len() as int);
    assert(t[code.len() as int] == '?' && t[code.len() as int + 1] == '>');
    assert(close_at(t, code.len() as int) == Some(code.len() as int));
    lemma_close_moved(s, start, 0);
    assert(s.subrange(0, p) =~= html);
    assert(s.subrange(start, q) =~= code);
    lemma_pieces_moved(s, q + 2, 0);
    assert(s.skip(q + 2) =~= rest);
}

/// Text without a tag is text, and so is a block that is never closed.
pub proof fn law_open_blocks_are_text(html: Seq<char>, code: Seq<char>)
    requires
        no_tag_before(html + seq!['<', '?', 'l', 'u', 'a'] + code, html.len() as int),
        no_close_before(code, code.len() as int),
        no_tag_before(html, html.len() as int),
    ensures
        pieces(html, 0).blocks.len() == 0,
        pieces(html, 0).tail == html,
        pieces(html + seq!['<', '?', 'l', 'u', 'a'] + code, 0).blocks.len() == 0,
        pieces(html + seq!['<', '?', 'l', 'u', 'a'] + code, 0).tail == html + seq![
            '<',
            '?',
            'l',
            'u',
            'a',
        ] + code,
{
    let tag = seq!['<', '?', 'l', 'u', 'a'];
    let s = html + tag + code;
    let p = html.len() as int;
    lemma_no_open(html, 0, p);
    assert(html.skip(0) =~= html);
    lemma_no_open(s, 0, p);
    assert(s[p] == tag[0] && s[p + 1] == tag[1] && s[p + 2] == tag[2] && s[p + 3] == tag[3] && s[p
        + 4] == tag[4]);
    assert(open_at(s, p) == Some(p));
    assert(s.skip(p + 5) =~= code);
    lemma_no_close(code, 0, code.len() as int);
    lemma_close_moved(s, p + 5, 0);
    assert(s.skip(0) =~= s);
}

/// A page is its texts and its blocks' output in turn: one more block adds its text and
/// its output behind those in front, and the tail comes last.
pub proof fn law_pages_are_texts_and_outputs_in_turn(
    blocks: Seq<(Seq<char>, Seq<char>)>,
    outputs: Seq<Seq<char>>,
    block: (Seq<char>, Seq<char>),
    output: Seq<char>,
    tail: Seq<char>,
)
    requires
        outputs.len() == blocks.len(),
    ensures
        assembled(Seq::empty(), Seq::empty(), tail) == tail,
        assembled(blocks.push(block), outputs.push(output), tail) == assembled(
            blocks,
            outputs,
            Seq::empty(),
        ) + block.0 + output + tail,
{
    let none = Seq::<Seq<char>>::new(0, |i: int| Seq::<char>::empty());
    assert(Seq::new(
        Seq::<(Seq<char>, Seq<char>)>::empty().len(),
        |i: int|
            Seq::<(Seq<char>, Seq<char>)>::empty()[i].0 + Seq::<Seq<char>>::empty()[i],
    ) =~= none);
    assert(text::flat(none) =~= Seq::empty());
    assert(assembled(Seq::empty(), Seq::empty(), tail) =~= tail);
    let before = Seq::new(blocks.len(), |i: int| blocks[i].0 + outputs[i]);
    let more = blocks.push(block);
    let out = outputs.push(output);
    let all = Seq::new(more.len(), |i: int| more[i].0 + out[i]);
    assert(all.drop_last() =~= before);
    assert(all.last() == block.0 + output);
    assert(assembled(more, out, tail) =~= text::flat(before) + block.0 + output + tail);
    assert(assembled(blocks, outputs, Seq::empty()) =~= text::flat(before));
}

} // verus!
