//! .lhtml template parsing and compilation.
//!
//! A template is split into HTML and Lua segments by a scanner that understands
//! Lua string literals, long brackets and comments, so a `?>` inside them does
//! not terminate a `<?lua ... ?>` block. The segments are then compiled into a
//! single Lua chunk in which HTML becomes `_out("...")` calls and code blocks
//! are inlined verbatim. Newline padding keeps every code line in the generated
//! chunk on the same line number as in the source file, so Lua error messages
//! point at real `.lhtml` lines.

pub mod blocks;
pub mod laws;

use vstd::prelude::*;
use crate::path::{bytes_copy, same_bytes, PathBytes};
use crate::text;
use crate::text::{chars_of, code_point, hex_digit_upper, string_of};

verus! {

// ---- lines ------------------------------------------------------------------

/// How many newline characters `s` holds.
pub open spec fn newlines(s: Seq<char>) -> nat
    decreases s.len(),
{
    if s.len() == 0 {
        0
    } else {
        newlines(s.drop_last()) + if s.last() == '\n' { 1nat } else { 0nat }
    }
}

/// The 1-based source line that position `i` of `s` is on.
pub open spec fn line_at(s: Seq<char>, i: int) -> nat {
    1 + newlines(s.take(i))
}

pub proof fn lemma_newlines_concat(a: Seq<char>, b: Seq<char>)
    ensures
        newlines(a + b) == newlines(a) + newlines(b),
    decreases b.len(),
{
    if b.len() == 0 {
        assert(a + b =~= a);
    } else {
        assert((a + b).drop_last() =~= a + b.drop_last());
        lemma_newlines_concat(a, b.drop_last());
    }
}

/// Moving from `i` to `j` adds the newlines in between.
pub proof fn lemma_line_at_step(s: Seq<char>, i: int, j: int)
    requires
        0 <= i <= j <= s.len(),
    ensures
        line_at(s, j) == line_at(s, i) + newlines(s.subrange(i, j)),
{
    lemma_newlines_concat(s.take(i), s.subrange(i, j));
    assert(s.take(i) + s.subrange(i, j) =~= s.take(j));
}

proof fn lemma_line_at_next(s: Seq<char>, i: int)
    requires
        0 <= i < s.len(),
    ensures
        line_at(s, i + 1) == line_at(s, i) + if s[i] == '\n' { 1int } else { 0int },
{
    assert(s.take(i + 1).drop_last() =~= s.take(i));
}

pub proof fn lemma_newlines_take(s: Seq<char>, i: int)
    requires
        0 <= i <= s.len(),
    ensures
        newlines(s.take(i)) <= newlines(s),
{
    lemma_newlines_concat(s.take(i), s.skip(i));
    assert(s.take(i) + s.skip(i) =~= s);
}

// ---- the lexical shape of Lua code --------------------------------------------

/// The number of `=` signs in a row starting at `j`.
pub open spec fn equals_run(s: Seq<char>, j: int) -> nat
    decreases s.len() - j,
{
    if 0 <= j < s.len() && s[j] == '=' {
        1 + equals_run(s, j + 1)
    } else {
        0
    }
}

/// The level of the long bracket that opens at `i` (`[[` is 0, `[=[` is 1, ...),
/// if one does.
pub open spec fn bracket_level(s: Seq<char>, i: int) -> Option<nat> {
    let end = i + 1 + equals_run(s, i + 1);
    if 0 <= i < s.len() && s[i] == '[' && end < s.len() && s[end] == '[' {
        Some(equals_run(s, i + 1))
    } else {
        None
    }
}

/// Whether a closing bracket of `level` starts at `k`.
pub open spec fn closes_bracket(s: Seq<char>, k: int, level: nat) -> bool {
    &&& 0 <= k
    &&& k + level + 1 < s.len()
    &&& s[k] == ']'
    &&& equals_run(s, k + 1) == level
    &&& s[k + level + 1] == ']'
}

/// Just past the first closing bracket of `level` at or after `i`.
pub open spec fn bracket_end(s: Seq<char>, i: int, level: nat) -> Option<int>
    decreases s.len() - i,
{
    if i >= s.len() {
        None
    } else if closes_bracket(s, i, level) {
        Some(i + level + 2)
    } else {
        bracket_end(s, i + 1, level)
    }
}

/// Where a short string ends whose remaining text starts at `i`: just past the
/// closing quote, at an unescaped newline, or at the end of the text.
pub open spec fn short_string_end(s: Seq<char>, i: int, quote: char) -> int
    decreases s.len() + 1 - i,
{
    if i >= s.len() {
        s.len() as int
    } else if s[i] == '\\' {
        short_string_end(s, i + 2, quote)
    } else if s[i] == '\n' {
        i
    } else if s[i] == quote {
        i + 1
    } else {
        short_string_end(s, i + 1, quote)
    }
}

/// The first newline at or after `i`, or the end of the text.
pub open spec fn line_end(s: Seq<char>, i: int) -> int
    decreases s.len() - i,
{
    if i >= s.len() {
        s.len() as int
    } else if s[i] == '\n' {
        i
    } else {
        line_end(s, i + 1)
    }
}

/// Where the string, long bracket or comment starting at `i` ends; any other
/// character stands for itself. `None` if a long bracket is never closed.
pub open spec fn element_end(s: Seq<char>, i: int) -> Option<int> {
    if s[i] == '\'' || s[i] == '"' {
        Some(short_string_end(s, i + 1, s[i]))
    } else if s[i] == '[' {
        match bracket_level(s, i) {
            Some(level) => bracket_end(s, i + level + 2, level),
            None => Some(i + 1),
        }
    } else if s[i] == '-' && i + 1 < s.len() && s[i + 1] == '-' {
        match bracket_level(s, i + 2) {
            Some(level) => bracket_end(s, i + 2 + level + 2, level),
            None => Some(line_end(s, i + 2)),
        }
    } else {
        Some(i + 1)
    }
}

/// Whether the two characters at `i` are `?>`.
pub open spec fn is_close(s: Seq<char>, i: int) -> bool {
    0 <= i && i + 1 < s.len() && s[i] == '?' && s[i + 1] == '>'
}

/// The position of the `?>` that ends a block whose code starts at `i`: the
/// first one that is not inside a string, a long bracket or a comment.
pub open spec fn block_close(s: Seq<char>, i: int) -> Option<int>
    decreases s.len() - i,
{
    if i < 0 || i >= s.len() {
        None
    } else if is_close(s, i) {
        Some(i)
    } else {
        proof {
            lemma_element_end(s, i);
        }
        match element_end(s, i) {
            Some(next) => block_close(s, next),
            None => None,
        }
    }
}

proof fn lemma_short_string_end(s: Seq<char>, i: int, quote: char)
    requires
        0 <= i,
    ensures
        i <= short_string_end(s, i, quote) <= s.len() || (i > s.len() && short_string_end(
            s,
            i,
            quote,
        ) == s.len()),
    decreases s.len() + 1 - i,
{
    if i < s.len() {
        if s[i] == '\\' {
            lemma_short_string_end(s, i + 2, quote);
        } else if s[i] != '\n' && s[i] != quote {
            lemma_short_string_end(s, i + 1, quote);
        }
    }
}

proof fn lemma_line_end(s: Seq<char>, i: int)
    requires
        0 <= i <= s.len(),
    ensures
        i <= line_end(s, i) <= s.len(),
    decreases s.len() - i,
{
    if i < s.len() && s[i] != '\n' {
        lemma_line_end(s, i + 1);
    }
}

proof fn lemma_bracket_end(s: Seq<char>, i: int, level: nat)
    ensures
        bracket_end(s, i, level) matches Some(e) ==> i < e <= s.len(),
    decreases s.len() - i,
{
    if i < s.len() && !closes_bracket(s, i, level) {
        lemma_bracket_end(s, i + 1, level);
    }
}

/// Every element is at least one character long and ends within the text.
pub proof fn lemma_element_end(s: Seq<char>, i: int)
    requires
        0 <= i < s.len(),
    ensures
        element_end(s, i) matches Some(e) ==> i < e <= s.len(),
{
    if s[i] == '\'' || s[i] == '"' {
        lemma_short_string_end(s, i + 1, s[i]);
    } else if s[i] == '[' {
        if let Some(level) = bracket_level(s, i) {
            lemma_bracket_end(s, i + level + 2, level);
        }
    } else if s[i] == '-' && i + 1 < s.len() && s[i + 1] == '-' {
        match bracket_level(s, i + 2) {
            Some(level) => lemma_bracket_end(s, i + 2 + level + 2, level),
            None => lemma_line_end(s, i + 2),
        }
    }
}

pub proof fn lemma_block_close(s: Seq<char>, i: int)
    requires
        0 <= i,
    ensures
        block_close(s, i) matches Some(q) ==> i <= q && is_close(s, q),
    decreases s.len() - i,
{
    if i < s.len() && !is_close(s, i) {
        lemma_element_end(s, i);
        if let Some(next) = element_end(s, i) {
            lemma_block_close(s, next);
        }
    }
}

// ---- scanning ---------------------------------------------------------------

/// Whether `b[i]` exists and is `c`.
fn is_at(b: &[char], i: usize, c: char) -> (r: bool)
    ensures
        r == (i < b@.len() && b@[i as int] == c),
        b@.len() <= usize::MAX,
{
    i < b.len() && b[i] == c
}

/// The end of the run of `=` signs starting at `j`.
fn skip_equals(b: &[char], j: usize) -> (end: usize)
    requires
        j <= b@.len(),
    ensures
        end <= b@.len(),
        end == j + equals_run(b@, j as int),
{
    let mut k: usize = j;
    while is_at(b, k, '=')
        invariant
            j <= k <= b@.len(),
            j + equals_run(b@, j as int) == k + equals_run(b@, k as int),
        decreases b@.len() - k,
    {
        k = k + 1;
    }
    k
}

/// If position `i` opens a long bracket (`[`, `[=`, `[==`... followed by `[`),
/// its level.
fn long_bracket_level(b: &[char], i: usize) -> (level: Option<usize>)
    ensures
        match level {
            Some(l) => bracket_level(b@, i as int) == Some(l as nat) && i + l + 1 < b@.len(),
            None => bracket_level(b@, i as int) is None,
        },
{
    if !is_at(b, i, '[') {
        return None;
    }
    let j = skip_equals(b, i + 1);
    if is_at(b, j, '[') {
        Some(j - i - 1)
    } else {
        None
    }
}

/// Scan past the body of a long bracket (string or comment) of the given level.
/// Returns the index just past the closing bracket, or None if unterminated.
fn scan_long_bracket(b: &[char], start: usize, level: usize) -> (end: Option<usize>)
    requires
        start <= b@.len(),
    ensures
        match end {
            Some(e) => e <= b@.len() && bracket_end(b@, start as int, level as nat) == Some(
                e as int,
            ),
            None => bracket_end(b@, start as int, level as nat) is None,
        },
{
    let mut i: usize = start;
    while i < b.len()
        invariant
            start <= i <= b@.len(),
            bracket_end(b@, start as int, level as nat) == bracket_end(b@, i as int, level as nat),
        decreases b@.len() - i,
    {
        if b[i] == ']' {
            let j = skip_equals(b, i + 1);
            if j - i - 1 == level && is_at(b, j, ']') {
                return Some(j + 1);
            }
        }
        i = i + 1;
    }
    None
}

/// Scan the rest of a short string; returns the index just past the closing
/// quote. An unescaped newline ends the scan early (Lua would reject the string
/// anyway, and its compiler reports the real error).
fn scan_short_string(b: &[char], start: usize, quote: char) -> (end: usize)
    requires
        start <= b@.len(),
    ensures
        end <= b@.len(),
        end == short_string_end(b@, start as int, quote),
{
    let mut i: usize = start;
    while i < b.len()
        invariant
            start <= i <= b@.len(),
            short_string_end(b@, start as int, quote) == short_string_end(b@, i as int, quote),
        decreases b@.len() - i,
    {
        let c = b[i];
        if c == '\\' {
            if b.len() - i < 2 {
                assert(short_string_end(b@, i + 2, quote) == b@.len());
                return b.len();
            }
            i = i + 2;
        } else if c == '\n' {
            return i;
        } else if c == quote {
            return i + 1;
        } else {
            i = i + 1;
        }
    }
    i
}

/// The index of the newline that ends a line comment, or the end of the text.
fn scan_line(b: &[char], start: usize) -> (end: usize)
    requires
        start <= b@.len(),
    ensures
        end <= b@.len(),
        end == line_end(b@, start as int),
{
    let mut i: usize = start;
    while i < b.len() && b[i] != '\n'
        invariant
            start <= i <= b@.len(),
            line_end(b@, start as int) == line_end(b@, i as int),
        decreases b@.len() - i,
    {
        i = i + 1;
    }
    i
}

/// Scan Lua code from `start` for the closing `?>`, skipping string literals,
/// long brackets and comments. Returns its position, or None if unterminated.
fn scan_lua_block(b: &[char], start: usize) -> (close: Option<usize>)
    ensures
        match close {
            Some(q) => block_close(b@, start as int) == Some(q as int) && start <= q && is_close(
                b@,
                q as int,
            ),
            None => block_close(b@, start as int) is None,
        },
{
    let mut i: usize = start;
    while i < b.len()
        invariant
            start <= i,
            block_close(b@, start as int) == block_close(b@, i as int),
        decreases b@.len() - i,
    {
        proof {
            lemma_element_end(b@, i as int);
        }
        let c = b[i];
        if c == '?' && is_at(b, i + 1, '>') {
            return Some(i);
        } else if c == '\'' || c == '"' {
            i = scan_short_string(b, i + 1, c);
        } else if c == '[' {
            match long_bracket_level(b, i) {
                Some(level) => match scan_long_bracket(b, i + level + 2, level) {
                    Some(end) => {
                        i = end;
                    },
                    None => {
                        return None;
                    },
                },
                None => {
                    i = i + 1;
                },
            }
        } else if c == '-' && is_at(b, i + 1, '-') {
            match long_bracket_level(b, i + 2) {
                Some(level) => match scan_long_bracket(b, i + 2 + level + 2, level) {
                    Some(end) => {
                        i = end;
                    },
                    None => {
                        return None;
                    },
                },
                // Line comment: runs to end of line, `?>` inside it is text.
                None => {
                    i = scan_line(b, i + 2);
                },
            }
        } else {
            i = i + 1;
        }
    }
    None
}

// ---- segments ---------------------------------------------------------------

/// One piece of a template. `line` is the source line the piece starts on.
#[derive(Debug, Clone, PartialEq, Eq)]
pub enum Segment {
    /// Literal HTML output.
    Html { text: String, line: u32 },
    /// A `<?lua ... ?>` code block, inlined verbatim into the chunk.
    Code { code: String, line: u32 },
    /// A `<?lua= expr ?>` expression block, emitted through `_out_expr`.
    Expr { code: String, line: u32 },
    /// A `<?lua== expr ?>` expression block, emitted unescaped through `_out_raw`.
    RawExpr { code: String, line: u32 },
}

/// What a [`Segment`] says, as mathematical values.
#[verifier::ext_equal]
pub enum SegmentView {
    Html { text: Seq<char>, line: nat },
    Code { code: Seq<char>, line: nat },
    Expr { code: Seq<char>, line: nat },
    RawExpr { code: Seq<char>, line: nat },
}

impl View for Segment {
    type V = SegmentView;

    open spec fn view(&self) -> SegmentView {
        match self {
            Segment::Html { text, line } => SegmentView::Html { text: text@, line: *line as nat },
            Segment::Code { code, line } => SegmentView::Code { code: code@, line: *line as nat },
            Segment::Expr { code, line } => SegmentView::Expr { code: code@, line: *line as nat },
            Segment::RawExpr { code, line } => SegmentView::RawExpr {
                code: code@,
                line: *line as nat,
            },
        }
    }
}

/// The views of a list of segments.
pub open spec fn segment_views(segments: Seq<Segment>) -> Seq<SegmentView> {
    segments.map_values(|s: Segment| s@)
}

impl SegmentView {
    /// The source line the segment starts on.
    pub open spec fn line(self) -> nat {
        match self {
            SegmentView::Html { line, .. } => line,
            SegmentView::Code { line, .. } => line,
            SegmentView::Expr { line, .. } => line,
            SegmentView::RawExpr { line, .. } => line,
        }
    }

    /// The template text the segment was read from.
    pub open spec fn source(self) -> Seq<char> {
        match self {
            SegmentView::Html { text, .. } => text,
            SegmentView::Code { code, .. } => "<?lua"@ + code + "?>"@,
            SegmentView::Expr { code, .. } => "<?lua="@ + code + "?>"@,
            SegmentView::RawExpr { code, .. } => "<?lua=="@ + code + "?>"@,
        }
    }

    /// The Lua code of a block; HTML has none.
    pub open spec fn code(self) -> Seq<char> {
        match self {
            SegmentView::Html { .. } => Seq::empty(),
            SegmentView::Code { code, .. } => code,
            SegmentView::Expr { code, .. } => code,
            SegmentView::RawExpr { code, .. } => code,
        }
    }
}

impl Segment {
    /// The source line the segment starts on.
    pub fn line(&self) -> (line: u32)
        ensures
            line == self@.line(),
    {
        match self {
            Segment::Html { line, .. } => *line,
            Segment::Code { line, .. } => *line,
            Segment::Expr { line, .. } => *line,
            Segment::RawExpr { line, .. } => *line,
        }
    }
}

#[derive(Debug)]
pub enum TemplateError {
    NotFound,
    Io(String),
    Parse { line: u32, msg: String },
}

/// What a block that is never closed is reported as.
pub const UNTERMINATED: &'static str = "unterminated <?lua block (missing '?>'; note that a '?>' inside a comment does not close the block)";

/// Space, tab, newline, form feed or carriage return.
pub open spec fn is_ascii_space(c: char) -> bool {
    c == ' ' || c == '\t' || c == '\n' || c == '\u{c}' || c == '\r'
}

/// Whether `<?lua` stands at `p`.
pub open spec fn has_tag(s: Seq<char>, p: int) -> bool {
    &&& 0 <= p
    &&& p + 5 <= s.len()
    &&& s[p] == '<'
    &&& s[p + 1] == '?'
    &&& s[p + 2] == 'l'
    &&& s[p + 3] == 'u'
    &&& s[p + 4] == 'a'
}

/// Whether a block opens at `p`: only `<?lua=`, `<?lua` and whitespace, or
/// `<?lua?>` do; anything else (such as `<?luax`) is plain HTML.
pub open spec fn opens_block(s: Seq<char>, p: int) -> bool {
    &&& has_tag(s, p)
    &&& p + 5 < s.len()
    &&& (s[p + 5] == '=' || is_ascii_space(s[p + 5]) || (s[p + 5] == '?' && p + 6 < s.len()
        && s[p + 6] == '>'))
}

/// The first block opening at or after `i`.
pub open spec fn next_open(s: Seq<char>, i: int) -> Option<int>
    decreases s.len() - i,
{
    if i >= s.len() {
        None
    } else if opens_block(s, i) {
        Some(i)
    } else {
        next_open(s, i + 1)
    }
}

/// How many `=` signs follow the tag at `p`: two at most count.
pub open spec fn marks(s: Seq<char>, p: int) -> int {
    if s[p + 5] != '=' {
        0
    } else if p + 6 < s.len() && s[p + 6] == '=' {
        2
    } else {
        1
    }
}

/// Where the code of the block opening at `p` starts.
pub open spec fn code_start(s: Seq<char>, p: int) -> int {
    p + 5 + marks(s, p)
}

/// The block opening at `p` and closing at `q`.
pub open spec fn block_segment(s: Seq<char>, p: int, q: int) -> SegmentView {
    let code = s.subrange(code_start(s, p), q);
    let line = line_at(s, p);
    if marks(s, p) == 0 {
        SegmentView::Code { code, line }
    } else if marks(s, p) == 1 {
        SegmentView::Expr { code, line }
    } else {
        SegmentView::RawExpr { code, line }
    }
}

/// The HTML between `from` and `to`; nothing when that is empty.
pub open spec fn html_segment(s: Seq<char>, from: int, to: int) -> Seq<SegmentView> {
    if from < to {
        seq![SegmentView::Html { text: s.subrange(from, to), line: line_at(s, from) }]
    } else {
        Seq::empty()
    }
}

/// The segments of the template text from position `from` on, or the line of a
/// block that is never closed.
pub open spec fn segments_from(s: Seq<char>, from: int) -> Result<Seq<SegmentView>, nat>
    decreases s.len() - from,
{
    match next_open(s, from) {
        None => Ok(html_segment(s, from, s.len() as int)),
        Some(p) => {
            proof {
                lemma_next_open(s, from);
                lemma_block_close(s, code_start(s, p));
            }
            match block_close(s, code_start(s, p)) {
                None => Err(line_at(s, p)),
                Some(q) => match segments_from(s, q + 2) {
                    Ok(rest) => Ok(html_segment(s, from, p).push(block_segment(s, p, q)) + rest),
                    Err(line) => Err(line),
                },
            }
        },
    }
}

/// What [`parse`] makes of a template.
pub open spec fn parsed(s: Seq<char>) -> Result<Seq<SegmentView>, nat> {
    segments_from(s, 0)
}

pub proof fn lemma_next_open(s: Seq<char>, i: int)
    ensures
        next_open(s, i) matches Some(p) ==> i <= p && opens_block(s, p),
    decreases s.len() - i,
{
    if i < s.len() && !opens_block(s, i) {
        lemma_next_open(s, i + 1);
    }
}

/// Whether a block opens at `i`.
fn block_opens(b: &[char], i: usize) -> (r: bool)
    requires
        i < b@.len(),
    ensures
        r == opens_block(b@, i as int),
{
    if b.len() - i <= 5 {
        return false;
    }
    if !(b[i] == '<' && b[i + 1] == '?' && b[i + 2] == 'l' && b[i + 3] == 'u' && b[i + 4] == 'a') {
        return false;
    }
    let c = b[i + 5];
    if c == '?' {
        return b.len() - i > 6 && b[i + 6] == '>';
    }
    c == '=' || c == ' ' || c == '\t' || c == '\n' || c == '\u{c}' || c == '\r'
}

/// The two results put in a row: what is done, then what is still to come.
spec fn and_then(done: Seq<SegmentView>, rest: Result<Seq<SegmentView>, nat>) -> Result<
    Seq<SegmentView>,
    nat,
> {
    match rest {
        Ok(segments) => Ok(done + segments),
        Err(line) => Err(line),
    }
}

/// Split a template into HTML and Lua segments.
pub fn parse(src: &str) -> (r: Result<Vec<Segment>, TemplateError>)
    requires
        newlines(src@) < u32::MAX,
    ensures
        match r {
            Ok(segments) => parsed(src@) == Ok::<Seq<SegmentView>, nat>(segment_views(segments@)),
            Err(e) => e matches TemplateError::Parse { line, msg } && msg@ == UNTERMINATED@
                && parsed(src@) == Err::<Seq<SegmentView>, nat>(line as nat),
        },
{
    let chars = chars_of(src);
    let b: &[char] = chars.as_slice();
    let ghost s = src@;
    let mut segments: Vec<Segment> = Vec::new();
    let mut i: usize = 0;
    let mut line: u32 = 1;
    let mut html_start: usize = 0;
    let mut html_line: u32 = 1;
    assert(s.take(0) =~= Seq::empty());
    assert(and_then(Seq::empty(), parsed(s)) =~= parsed(s)) by {
        if let Ok(segments) = parsed(s) {
            assert(Seq::empty() + segments =~= segments);
        }
    }
    assert(segment_views(segments@) =~= Seq::empty());
    while i < b.len()
        invariant
            s == src@,
            b@ == s,
            newlines(s) < u32::MAX,
            html_start <= i <= b@.len(),
            line == line_at(s, i as int),
            html_line == line_at(s, html_start as int),
            next_open(s, html_start as int) == next_open(s, i as int),
            parsed(s) == and_then(
                segment_views(segments@),
                segments_from(s, html_start as int),
            ),
        decreases b@.len() - i,
    {
        proof {
            lemma_line_at_next(s, i as int);
            lemma_newlines_take(s, i + 1);
        }
        if b[i] == '\n' {
            line = line + 1;
            i = i + 1;
            continue;
        }
        if !block_opens(b, i) {
            i = i + 1;
            continue;
        }
        let ghost before = segment_views(segments@);
        if html_start < i {
            segments.push(Segment::Html { text: string_of(b, html_start, i), line: html_line });
        }
        assert(segment_views(segments@) =~= before + html_segment(s, html_start as int, i as int));
        let expr = b[i + 5] == '=';
        let raw = expr && is_at(b, i + 6, '=');
        let start: usize = if raw {
            i + 7
        } else if expr {
            i + 6
        } else {
            i + 5
        };
        match scan_lua_block(b, start) {
            None => {
                return Err(TemplateError::Parse { line, msg: UNTERMINATED.to_string() });
            },
            Some(close) => {
                let code = string_of(b, start, close);
                let ghost middle = segment_views(segments@);
                segments.push(
                    if raw {
                        Segment::RawExpr { code, line }
                    } else if expr {
                        Segment::Expr { code, line }
                    } else {
                        Segment::Code { code, line }
                    },
                );
                proof {
                    let block = block_segment(s, i as int, close as int);
                    assert(segment_views(segments@) =~= middle.push(block));
                    let html = html_segment(s, html_start as int, i as int);
                    if let Ok(rest) = segments_from(s, close + 2) {
                        assert(before + (html.push(block) + rest) =~= segment_views(segments@)
                            + rest);
                    }
                    lemma_line_at_step(s, i as int, close + 2);
                    lemma_newlines_take(s, close + 2);
                }
                line = line + count_newlines_in(b, i, close + 2);
                i = close + 2;
                html_start = i;
                html_line = line;
            },
        }
    }
    let ghost before = segment_views(segments@);
    if html_start < b.len() {
        segments.push(
            Segment::Html { text: string_of(b, html_start, b.len()), line: html_line },
        );
    }
    assert(segment_views(segments@) =~= before + html_segment(s, html_start as int, s.len() as int));
    Ok(segments)
}

/// The newlines in `b[from..to]`.
fn count_newlines_in(b: &[char], from: usize, to: usize) -> (n: u32)
    requires
        from <= to <= b@.len(),
        newlines(b@.subrange(from as int, to as int)) <= u32::MAX,
    ensures
        n == newlines(b@.subrange(from as int, to as int)),
{
    let mut n: u32 = 0;
    let mut i: usize = from;
    let ghost part = b@.subrange(from as int, to as int);
    while i < to
        invariant
            from <= i <= to <= b@.len(),
            part == b@.subrange(from as int, to as int),
            newlines(part) <= u32::MAX,
            n == newlines(part.take(i - from)),
        decreases to - i,
    {
        proof {
            assert(part.take(i - from + 1).drop_last() =~= part.take(i - from));
            lemma_newlines_take(part, i - from + 1);
        }
        if b[i] == '\n' {
            n = n + 1;
        }
        i = i + 1;
    }
    assert(part.take(to - from) =~= part);
    n
}

// ---- code generation --------------------------------------------------------

/// How one character is written inside a Lua short string.
pub open spec fn lua_escaped_char(c: char) -> Seq<char> {
    if c == '"' {
        seq!['\\', '"']
    } else if c == '\\' {
        seq!['\\', '\\']
    } else if c == '\n' {
        seq!['\\', 'n']
    } else if c == '\r' {
        seq!['\\', 'r']
    } else if c == '\t' {
        seq!['\\', 't']
    } else if (c as int) < 0x20 {
        seq!['\\', 'x', text::hex_upper(c as int / 16), text::hex_upper(c as int % 16)]
    } else {
        seq![c]
    }
}

/// `text` as the body of a single-line Lua short string.
pub open spec fn lua_escaped(text: Seq<char>) -> Seq<char>
    decreases text.len(),
{
    if text.len() == 0 {
        Seq::empty()
    } else {
        lua_escaped(text.drop_last()) + lua_escaped_char(text.last())
    }
}

/// What stands in front of a block's code in the chunk.
pub open spec fn opener(seg: SegmentView) -> Seq<char> {
    match seg {
        SegmentView::Html { .. } => "_out(\""@,
        SegmentView::Code { .. } => Seq::empty(),
        SegmentView::Expr { .. } => "_out_expr("@,
        SegmentView::RawExpr { .. } => "_out_raw("@,
    }
}

/// What stands behind it.
pub open spec fn closer(seg: SegmentView) -> Seq<char> {
    match seg {
        SegmentView::Html { .. } => "\"); "@,
        SegmentView::Code { .. } => " "@,
        SegmentView::Expr { .. } => "); "@,
        SegmentView::RawExpr { .. } => "); "@,
    }
}

/// What stands between the two: a block's own code, or HTML as a string literal.
pub open spec fn content(seg: SegmentView) -> Seq<char> {
    match seg {
        SegmentView::Html { text, .. } => lua_escaped(text),
        _ => seg.code(),
    }
}

/// The newlines that bring the chunk from line `cur` to line `line`.
pub open spec fn padding(cur: nat, line: nat) -> Seq<char> {
    Seq::new(
        if cur < line {
            (line - cur) as nat
        } else {
            0
        },
        |i: int| '\n',
    )
}

/// The line the chunk is on after `seg`, having been on line `cur` before it.
pub open spec fn line_after(cur: nat, seg: SegmentView) -> nat {
    (if cur < seg.line() {
        seg.line()
    } else {
        cur
    }) + newlines(seg.code())
}

/// The line the chunk ends on.
pub open spec fn end_line(segments: Seq<SegmentView>) -> nat
    decreases segments.len(),
{
    if segments.len() == 0 {
        1
    } else {
        line_after(end_line(segments.drop_last()), segments.last())
    }
}

/// The Lua chunk for a list of segments: each one padded down to its source
/// line, then written out.
pub open spec fn generated(segments: Seq<SegmentView>) -> Seq<char>
    decreases segments.len(),
{
    if segments.len() == 0 {
        Seq::empty()
    } else {
        let seg = segments.last();
        generated(segments.drop_last()) + padding(end_line(segments.drop_last()), seg.line())
            + opener(seg) + content(seg) + closer(seg)
    }
}

proof fn lemma_end_line_grows(segments: Seq<SegmentView>, n: int)
    requires
        0 <= n <= segments.len(),
    ensures
        end_line(segments.take(n)) <= end_line(segments),
    decreases segments.len() - n,
{
    if n < segments.len() {
        lemma_end_line_grows(segments, n + 1);
        assert(segments.take(n + 1).drop_last() =~= segments.take(n));
    } else {
        assert(segments.take(n) =~= segments);
    }
}

/// Compile parsed segments into a single Lua chunk with source-aligned lines.
pub fn generate(segments: &[Segment]) -> (chunk: String)
    requires
        end_line(segment_views(segments@)) <= u32::MAX,
    ensures
        chunk@ == generated(segment_views(segments@)),
{
    let mut out = String::new();
    let mut cur_line: u32 = 1;
    let mut i: usize = 0;
    let ghost all = segment_views(segments@);
    assert(all.take(0) =~= Seq::empty());
    while i < segments.len()
        invariant
            i <= segments@.len(),
            all == segment_views(segments@),
            end_line(all) <= u32::MAX,
            cur_line == end_line(all.take(i as int)),
            out@ == generated(all.take(i as int)),
        decreases segments@.len() - i,
    {
        let seg = &segments[i];
        let line = seg.line();
        let ghost done = out@;
        let ghost from = cur_line;
        proof {
            assert(all.take(i + 1).drop_last() =~= all.take(i as int));
            assert(all.take(i + 1).last() == seg@);
            lemma_end_line_grows(all, i + 1);
        }
        while cur_line < line
            invariant
                from <= cur_line,
                cur_line <= line || cur_line == from,
                out@ == done + padding(from as nat, cur_line as nat),
            decreases line - cur_line,
        {
            out.push('\n');
            cur_line = cur_line + 1;
            assert(out@ =~= done + padding(from as nat, cur_line as nat));
        }
        assert(padding(from as nat, line as nat) =~= padding(from as nat, cur_line as nat));
        match seg {
            Segment::Html { text, .. } => {
                out.append("_out(\"");
                escape_lua_string_into(&mut out, text.as_str());
                out.append("\"); ");
            },
            Segment::Expr { code, .. } => {
                out.append("_out_expr(");
                out.append(code.as_str());
                out.append("); ");
                cur_line = cur_line + count_newlines(code.as_str());
            },
            Segment::RawExpr { code, .. } => {
                out.append("_out_raw(");
                out.append(code.as_str());
                out.append("); ");
                cur_line = cur_line + count_newlines(code.as_str());
            },
            Segment::Code { code, .. } => {
                out.append(code.as_str());
                out.append(" ");
                cur_line = cur_line + count_newlines(code.as_str());
            },
        }
        assert(out@ =~= generated(all.take(i + 1)));
        i = i + 1;
    }
    assert(all.take(i as int) =~= all);
    out
}

/// The newlines in `s`.
fn count_newlines(s: &str) -> (n: u32)
    requires
        newlines(s@) <= u32::MAX,
    ensures
        n == newlines(s@),
{
    let chars = chars_of(s);
    assert(chars@.subrange(0, chars@.len() as int) =~= s@);
    count_newlines_in(chars.as_slice(), 0, chars.len())
}

/// Escape text into a single-line Lua short-string literal body.
fn escape_lua_string_into(out: &mut String, text: &str)
    ensures
        final(out)@ == old(out)@ + lua_escaped(text@),
{
    let chars = chars_of(text);
    let mut i: usize = 0;
    assert(chars@.take(0) =~= Seq::empty());
    while i < chars.len()
        invariant
            i <= chars@.len(),
            out@ == old(out)@ + lua_escaped(chars@.take(i as int)),
        decreases chars@.len() - i,
    {
        let c = chars[i];
        let code = code_point(c);
        let ghost done = out@;
        proof {
            assert(chars@.take(i + 1).drop_last() =~= chars@.take(i as int));
        }
        if c == '"' {
            out.push('\\');
            out.push('"');
        } else if c == '\\' {
            out.push('\\');
            out.push('\\');
        } else if c == '\n' {
            out.push('\\');
            out.push('n');
        } else if c == '\r' {
            out.push('\\');
            out.push('r');
        } else if c == '\t' {
            out.push('\\');
            out.push('t');
        } else if code < 0x20 {
            out.push('\\');
            out.push('x');
            out.push(hex_digit_upper((code / 16) as u8));
            out.push(hex_digit_upper((code % 16) as u8));
        } else {
            out.push(c);
        }
        assert(out@ =~= done + lua_escaped_char(c));
        assert(out@ =~= old(out)@ + lua_escaped(chars@.take(i + 1)));
        i = i + 1;
    }
    assert(chars@.take(i as int) =~= text@);
}

// ---- compiled templates ---------------------------------------------------------

/// What the chunk of every template starts with, so that each output call is a
/// local and not a lookup in the environment. It carries no newline.
pub const PROLOGUE: &'static str = "local _out,_out_expr,_out_raw=_out,_out_expr,_out_raw;";

/// What the cache knows of a file: when it was last modified, in nanoseconds, and
/// how long it is.
#[derive(Clone, Copy, PartialEq, Eq, Debug, Structural)]
pub struct Stamp {
    pub mtime: Option<i128>,
    pub len: u64,
}

/// A template or module as a Lua chunk, plus the file metadata it was built from.
pub struct CompiledTemplate {
    /// Chunk name in the `@file` convention, so errors read `file:line: msg`.
    pub chunk_name: String,
    pub lua_source: String,
    pub stamp: Stamp,
}

#[verifier::ext_equal]
pub struct CompiledView {
    pub chunk_name: Seq<char>,
    pub lua_source: Seq<char>,
    pub stamp: Stamp,
}

impl View for CompiledTemplate {
    type V = CompiledView;

    open spec fn view(&self) -> CompiledView {
        CompiledView {
            chunk_name: self.chunk_name@,
            lua_source: self.lua_source@,
            stamp: self.stamp,
        }
    }
}

/// What a template compiles to, or the line of its unterminated block.
pub open spec fn compiled(name: Seq<char>, source: Seq<char>, stamp: Stamp) -> Result<
    CompiledView,
    nat,
> {
    match parsed(source) {
        Ok(segments) => Ok(
            CompiledView {
                chunk_name: "@"@ + name,
                lua_source: PROLOGUE@ + generated(segments),
                stamp,
            },
        ),
        Err(line) => Err(line),
    }
}

/// Compiles a template.
pub fn compile(display_name: &str, source: &str, stamp: Stamp) -> (r: Result<
    CompiledTemplate,
    TemplateError,
>)
    requires
        newlines(source@) < u32::MAX,
    ensures
        match compiled(display_name@, source@, stamp) {
            Ok(view) => r is Ok && r->Ok_0@ == view,
            Err(line) => r is Err && r->Err_0 is Parse && r->Err_0->line == line && r->Err_0->msg@
                == UNTERMINATED@,
        },
{
    match parse(source) {
        Err(e) => Err(e),
        Ok(segments) => {
            proof {
                laws::law_parsed_segments_can_be_generated(source@);
            }
            let chunk = generate(segments.as_slice());
            let mut lua_source = PROLOGUE.to_string();
            lua_source.append(chunk.as_str());
            let mut chunk_name = "@".to_string();
            chunk_name.append(display_name);
            Ok(CompiledTemplate { chunk_name, lua_source, stamp })
        },
    }
}

/// Cache of compiled templates keyed by canonical path, invalidated by
/// modification time and length. Disabled, it holds nothing and every load
/// compiles anew.
pub struct TemplateCache {
    enabled: bool,
    entries: Vec<(PathBytes, CompiledTemplate)>,
}

/// Position of `path` among the entries, or -1.
pub open spec fn slot(entries: Seq<(PathBytes, CompiledTemplate)>, path: Seq<u8>) -> int
    decreases entries.len(),
{
    if entries.len() == 0 {
        -1
    } else if entries.last().0@ == path {
        entries.len() - 1
    } else {
        slot(entries.drop_last(), path)
    }
}

proof fn lemma_slot(entries: Seq<(PathBytes, CompiledTemplate)>, path: Seq<u8>)
    ensures
        -1 <= slot(entries, path) < entries.len(),
        slot(entries, path) >= 0 ==> entries[slot(entries, path)].0@ == path,
        forall|i: int|
            slot(entries, path) < i < entries.len() ==> (#[trigger] entries[i]).0@ != path,
    decreases entries.len(),
{
    if entries.len() > 0 && entries.last().0@ != path {
        lemma_slot(entries.drop_last(), path);
        assert forall|i: int| slot(entries, path) < i < entries.len() implies (
        #[trigger] entries[i]).0@ != path by {
            if i < entries.len() - 1 {
                assert(entries.drop_last()[i] == entries[i]);
            }
        }
    }
}

impl TemplateCache {
    pub closed spec fn enabled(self) -> bool {
        self.enabled
    }

    /// What is cached for a path.
    pub closed spec fn entry(self, path: Seq<u8>) -> Option<CompiledView> {
        let i = slot(self.entries@, path);
        if i < 0 {
            None
        } else {
            Some(self.entries@[i].1@)
        }
    }

    /// What a load may reuse: an entry of the same modification time and length.
    pub open spec fn hit(self, path: Seq<u8>, stamp: Stamp) -> Option<CompiledView> {
        match self.entry(path) {
            Some(view) => if self.enabled() && view.stamp == stamp {
                Some(view)
            } else {
                None
            },
            None => None,
        }
    }

    pub fn new(enabled: bool) -> (cache: TemplateCache)
        ensures
            cache.enabled() == enabled,
            forall|path: Seq<u8>| cache.entry(path) is None,
    {
        TemplateCache { enabled, entries: Vec::new() }
    }

    fn find(&self, path: &[u8]) -> (r: Option<usize>)
        ensures
            match r {
                Some(i) => slot(self.entries@, path@) == i as int,
                None => slot(self.entries@, path@) == -1,
            },
    {
        let mut i: usize = self.entries.len();
        proof {
            lemma_slot(self.entries@, path@);
        }
        while i > 0
            invariant
                i <= self.entries@.len(),
                forall|j: int| i <= j < self.entries@.len() ==> (#[trigger] self.entries@[j]).0@
                    != path@,
                -1 <= slot(self.entries@, path@) < self.entries@.len(),
                slot(self.entries@, path@) >= 0 ==> self.entries@[slot(self.entries@, path@)].0@
                    == path@,
                forall|k: int|
                    slot(self.entries@, path@) < k < self.entries@.len() ==> (
                    #[trigger] self.entries@[k]).0@ != path@,
            decreases i,
        {
            if same_bytes(self.entries[i - 1].0.as_slice(), path) {
                return Some(i - 1);
            }
            i = i - 1;
        }
        None
    }

    /// The compiled form of the file at `path`, if the cache has one for the file
    /// as it is now.
    pub fn lookup(&self, path: &[u8], stamp: Stamp) -> (r: Option<&CompiledTemplate>)
        ensures
            match r {
                Some(c) => self.hit(path@, stamp) == Some(c@),
                None => self.hit(path@, stamp) is None,
            },
    {
        if !self.enabled {
            return None;
        }
        match self.find(path) {
            Some(i) => {
                proof {
                    lemma_slot(self.entries@, path@);
                }
                if self.entries[i].1.stamp == stamp {
                    Some(&self.entries[i].1)
                } else {
                    None
                }
            },
            None => None,
        }
    }

    /// Remembers what `path` compiled to.
    fn store(&mut self, path: &[u8], value: CompiledTemplate)
        ensures
            final(self).enabled() == old(self).enabled(),
            final(self).entry(path@) == Some(value@),
            forall|other: Seq<u8>|
                other != path@ ==> #[trigger] final(self).entry(other) == old(self).entry(other),
    {
        let ghost before = self.entries@;
        proof {
            lemma_slot(before, path@);
        }
        match self.find(path) {
            Some(i) => {
                let key = bytes_copy(path);
                self.entries[i] = (key, value);
                let ghost after = self.entries@;
                proof {
                    assert forall|other: Seq<u8>| true implies #[trigger] slot(after, other)
                        == slot(before, other) by {
                        lemma_same_slots(before, after, other);
                    }
                    lemma_slot(after, path@);
                    assert forall|other: Seq<u8>| other != path@ implies #[trigger] self.entry(
                        other,
                    ) == old(self).entry(other) by {
                        assert(slot(after, other) == slot(before, other));
                        lemma_slot(before, other);
                    }
                }
            },
            None => {
                let key = bytes_copy(path);
                self.entries.push((key, value));
                let ghost after = self.entries@;
                proof {
                    assert(after.drop_last() =~= before);
                    assert forall|other: Seq<u8>| other != path@ implies #[trigger] self.entry(
                        other,
                    ) == old(self).entry(other) by {
                        assert(slot(after, other) == slot(before, other));
                        lemma_slot(before, other);
                    }
                }
            },
        }
    }

    /// Loads a template that [`TemplateCache::lookup`] did not have: compiles it
    /// and, if the cache is enabled, remembers it.
    pub fn load(&mut self, path: &[u8], display_name: &str, stamp: Stamp, source: &str) -> (r:
        Result<CompiledTemplate, TemplateError>)
        requires
            newlines(source@) < u32::MAX,
        ensures
            final(self).enabled() == old(self).enabled(),
            match compiled(display_name@, source@, stamp) {
                Ok(view) => {
                    &&& r is Ok
                    &&& r->Ok_0@ == view
                    &&& final(self).entry(path@) == (if old(self).enabled() {
                        Some(view)
                    } else {
                        old(self).entry(path@)
                    })
                    &&& old(self).enabled() ==> final(self).hit(path@, stamp) == Some(view)
                },
                Err(line) => {
                    &&& r is Err
                    &&& r->Err_0 is Parse
                    &&& r->Err_0->line == line
                    &&& r->Err_0->msg@ == UNTERMINATED@
                    &&& final(self).entry(path@) == old(self).entry(path@)
                },
            },
            forall|other: Seq<u8>|
                other != path@ ==> #[trigger] final(self).entry(other) == old(self).entry(other),
    {
        let fresh = match compile(display_name, source, stamp) {
            Ok(fresh) => fresh,
            Err(e) => {
                return Err(e);
            },
        };
        if self.enabled {
            let kept = copy_compiled(&fresh);
            self.store(path, kept);
        }
        Ok(fresh)
    }

    /// Loads a module: plain Lua, which is its own chunk.
    pub fn load_module(&mut self, path: &[u8], display_name: &str, stamp: Stamp, source: &str) -> (r:
        CompiledTemplate)
        ensures
            final(self).enabled() == old(self).enabled(),
            r@ == module_view(display_name@, source@, stamp),
            final(self).entry(path@) == (if old(self).enabled() {
                Some(module_view(display_name@, source@, stamp))
            } else {
                old(self).entry(path@)
            }),
            forall|other: Seq<u8>|
                other != path@ ==> #[trigger] final(self).entry(other) == old(self).entry(other),
    {
        let mut chunk_name = "@".to_string();
        chunk_name.append(display_name);
        let fresh = CompiledTemplate { chunk_name, lua_source: source.to_string(), stamp };
        if self.enabled {
            let kept = copy_compiled(&fresh);
            self.store(path, kept);
        }
        fresh
    }
}

/// A module as a chunk.
pub open spec fn module_view(name: Seq<char>, source: Seq<char>, stamp: Stamp) -> CompiledView {
    CompiledView { chunk_name: "@"@ + name, lua_source: source, stamp }
}

fn copy_compiled(c: &CompiledTemplate) -> (r: CompiledTemplate)
    ensures
        r@ == c@,
{
    CompiledTemplate {
        chunk_name: c.chunk_name.clone(),
        lua_source: c.lua_source.clone(),
        stamp: c.stamp,
    }
}

/// Entries with the same keys have the same places.
proof fn lemma_same_slots(
    a: Seq<(PathBytes, CompiledTemplate)>,
    b: Seq<(PathBytes, CompiledTemplate)>,
    path: Seq<u8>,
)
    requires
        a.len() == b.len(),
        forall|i: int| 0 <= i < a.len() ==> (#[trigger] a[i]).0@ == b[i].0@,
    ensures
        slot(a, path) == slot(b, path),
    decreases a.len(),
{
    if a.len() > 0 {
        assert(a[a.len() - 1].0@ == b[b.len() - 1].0@);
        assert forall|i: int| 0 <= i < a.drop_last().len() implies (
        #[trigger] a.drop_last()[i]).0@ == b.drop_last()[i].0@ by {
            assert(a.drop_last()[i] == a[i]);
        }
        lemma_same_slots(a.drop_last(), b.drop_last(), path);
    }
}

impl TemplateError {
    /// The error in words.
    pub open spec fn text(self) -> Seq<char> {
        match self {
            TemplateError::NotFound => "template not found"@,
            TemplateError::Io(e) => "failed to read template: "@ + e@,
            TemplateError::Parse { line, msg } => "parse error on line "@ + text::decimal(
                line as nat,
            ) + ": "@ + msg@,
        }
    }

    pub fn message(&self) -> (s: String)
        ensures
            s@ == self.text(),
    {
        match self {
            TemplateError::NotFound => "template not found".to_string(),
            TemplateError::Io(e) => text::join2("failed to read template: ", e.as_str()),
            TemplateError::Parse { line, msg } => {
                let mut s = "parse error on line ".to_string();
                let digits = text::decimal_of(*line as u64);
                s.append(digits.as_str());
                s.append(": ");
                s.append(msg.as_str());
                s
            },
        }
    }
}

/// What a failed read means: a file that is not there, or anything else in the
/// system's words.
pub fn io_to_template_error(not_found: bool, words: String) -> (e: TemplateError)
    ensures
        e == (if not_found {
            TemplateError::NotFound
        } else {
            TemplateError::Io(words)
        }),
{
    if not_found {
        TemplateError::NotFound
    } else {
        TemplateError::Io(words)
    }
}

} // verus!
