//! What templates can call: output and escaping, values as text, the request and
//! response tables, includes and modules.
//!
//! Everything a template prints lands in one byte buffer, in the order it was
//! printed.

pub mod laws;
pub mod modules;
pub mod request;
pub mod response;

use vstd::prelude::*;
use vstd::utf8::*;
use crate::text::strict_utf8;

verus! {

// ---- HTML escaping ------------------------------------------------------------

/// The entity that stands for a byte, if it needs one.
pub open spec fn entity(b: u8) -> Option<Seq<char>> {
    if b == 0x26 {
        Some("&amp;"@)
    } else if b == 0x3c {
        Some("&lt;"@)
    } else if b == 0x3e {
        Some("&gt;"@)
    } else if b == 0x22 {
        Some("&quot;"@)
    } else if b == 0x27 {
        Some("&#x27;"@)
    } else {
        None
    }
}

/// One byte, escaped.
pub open spec fn escaped_byte(b: u8) -> Seq<u8> {
    match entity(b) {
        Some(text) => encode_utf8(text),
        None => seq![b],
    }
}

/// `bytes` with every byte that needs one replaced by its entity.
pub open spec fn escaped(bytes: Seq<u8>) -> Seq<u8>
    decreases bytes.len(),
{
    if bytes.len() == 0 {
        Seq::empty()
    } else {
        escaped(bytes.drop_last()) + escaped_byte(bytes.last())
    }
}

/// One character, escaped.
pub open spec fn escaped_char(c: char) -> Seq<char> {
    if c == '&' {
        "&amp;"@
    } else if c == '<' {
        "&lt;"@
    } else if c == '>' {
        "&gt;"@
    } else if c == '"' {
        "&quot;"@
    } else if c == '\'' {
        "&#x27;"@
    } else {
        seq![c]
    }
}

/// Text with the five characters that HTML gives a meaning replaced by entities.
pub open spec fn escaped_text(text: Seq<char>) -> Seq<char>
    decreases text.len(),
{
    if text.len() == 0 {
        Seq::empty()
    } else {
        escaped_text(text.drop_last()) + escaped_char(text.last())
    }
}

proof fn lemma_escaped_concat(a: Seq<u8>, b: Seq<u8>)
    ensures
        escaped(a + b) == escaped(a) + escaped(b),
    decreases b.len(),
{
    if b.len() == 0 {
        assert(a + b =~= a);
        assert(escaped(a) + escaped(b) =~= escaped(a));
    } else {
        assert((a + b).drop_last() =~= a + b.drop_last());
        lemma_escaped_concat(a, b.drop_last());
        assert(escaped(a) + escaped(b) =~= escaped(a) + escaped(b.drop_last()) + escaped_byte(
            b.last(),
        ));
    }
}

proof fn lemma_escaped_untouched(bytes: Seq<u8>)
    requires
        forall|i: int| 0 <= i < bytes.len() ==> entity(#[trigger] bytes[i]) is None,
    ensures
        escaped(bytes) == bytes,
    decreases bytes.len(),
{
    if bytes.len() > 0 {
        assert(entity(bytes[bytes.len() - 1]) is None);
        lemma_escaped_untouched(bytes.drop_last());
        assert(bytes.drop_last() + seq![bytes.last()] =~= bytes);
    }
}

/// No byte that opens or closes a tag or an attribute is left in escaped bytes.
pub proof fn lemma_escaped_is_inert(bytes: Seq<u8>)
    ensures
        forall|i: int|
            0 <= i < escaped(bytes).len() ==> {
                let b = #[trigger] escaped(bytes)[i];
                b != 0x3c && b != 0x3e && b != 0x22 && b != 0x27
            },
    decreases bytes.len(),
{
    if bytes.len() > 0 {
        lemma_escaped_is_inert(bytes.drop_last());
        reveal_strlit("&amp;");
        reveal_strlit("&lt;");
        reveal_strlit("&gt;");
        reveal_strlit("&quot;");
        reveal_strlit("&#x27;");
        let front = escaped(bytes.drop_last());
        let last = escaped_byte(bytes.last());
        match entity(bytes.last()) {
            Some(text) => {
                is_ascii_chars_encode_utf8(text);
            },
            None => {},
        }
        assert forall|i: int| 0 <= i < escaped(bytes).len() implies {
            let b = #[trigger] escaped(bytes)[i];
            b != 0x3c && b != 0x3e && b != 0x22 && b != 0x27
        } by {
            if i < front.len() {
                assert(escaped(bytes)[i] == front[i]);
            } else {
                assert(escaped(bytes)[i] == last[i - front.len()]);
            }
        }
    }
}

/// Position of the first byte needing an entity.
fn first_escapable(bytes: &[u8]) -> (r: Option<usize>)
    ensures
        match r {
            Some(i) => i < bytes@.len() && entity(bytes@[i as int]) is Some && forall|k: int|
                0 <= k < i ==> entity(#[trigger] bytes@[k]) is None,
            None => forall|k: int| 0 <= k < bytes@.len() ==> entity(#[trigger] bytes@[k]) is None,
        },
{
    let mut i: usize = 0;
    while i < bytes.len()
        invariant
            i <= bytes@.len(),
            forall|k: int| 0 <= k < i ==> entity(#[trigger] bytes@[k]) is None,
        decreases bytes@.len() - i,
    {
        let b = bytes[i];
        if b == 0x26 || b == 0x3c || b == 0x3e || b == 0x22 || b == 0x27 {
            return Some(i);
        }
        i = i + 1;
    }
    None
}

/// Appends the escaped form of `bytes`: one copy when there is nothing to escape,
/// otherwise run by run rather than byte by byte.
pub fn escape_into(bytes: &[u8], out: &mut Vec<u8>)
    ensures
        final(out)@ == old(out)@ + escaped(bytes@),
{
    let ghost before = out@;
    let first: usize = match first_escapable(bytes) {
        None => {
            out.extend_from_slice(bytes);
            proof {
                lemma_escaped_untouched(bytes@);
            }
            return ;
        },
        Some(first) => first,
    };
    // From 0, not `first`: the run copied at the first replacement is the
    // unescaped prefix leading up to it.
    let mut start: usize = 0;
    let mut i: usize = first;
    assert(bytes@.take(0) =~= Seq::empty());
    assert(before + escaped(bytes@.take(0)) =~= before);
    while i < bytes.len()
        invariant
            start <= i <= bytes@.len(),
            out@ == before + escaped(bytes@.take(start as int)),
            forall|k: int| start <= k < i ==> entity(#[trigger] bytes@[k]) is None,
        decreases bytes@.len() - i,
    {
        let replacement: Option<&str> = match bytes[i] {
            0x26 => Some("&amp;"),
            0x3c => Some("&lt;"),
            0x3e => Some("&gt;"),
            0x22 => Some("&quot;"),
            0x27 => Some("&#x27;"),
            _ => None,
        };
        if let Some(text) = replacement {
            let ghost run = bytes@.subrange(start as int, i as int);
            let plain = vstd::slice::slice_subrange(bytes, start, i);
            out.extend_from_slice(plain);
            out.extend_from_slice(text.as_bytes());
            proof {
                lemma_escaped_untouched(run);
                lemma_escaped_concat(bytes@.take(start as int), run);
                assert(bytes@.take(start as int) + run =~= bytes@.take(i as int));
                assert(bytes@.take(i + 1).drop_last() =~= bytes@.take(i as int));
                assert(out@ =~= before + escaped(bytes@.take(i + 1)));
            }
            start = i + 1;
        }
        i = i + 1;
    }
    let rest = vstd::slice::slice_subrange(bytes, start, bytes.len());
    out.extend_from_slice(rest);
    proof {
        let run = bytes@.subrange(start as int, bytes@.len() as int);
        lemma_escaped_untouched(run);
        lemma_escaped_concat(bytes@.take(start as int), run);
        assert(bytes@.take(start as int) + run =~= bytes@);
        assert(out@ =~= before + escaped(bytes@));
    }
}

/// The escaped form of `bytes`.
pub fn escape_bytes(bytes: &[u8]) -> (out: Vec<u8>)
    ensures
        out@ == escaped(bytes@),
{
    let mut out: Vec<u8> = Vec::new();
    escape_into(bytes, &mut out);
    assert(out@ =~= escaped(bytes@));
    out
}

/// Text with the characters `&`, `<`, `>`, `"` and `'` replaced by entities.
pub fn html_escape(input: &str) -> (out: String)
    ensures
        out@ == escaped_text(input@),
{
    let bytes = input.as_bytes();
    proof {
        lemma_escaping_commutes(input@);
        encode_utf8_decode_utf8(input@);
        encode_utf8_decode_utf8(escaped_text(input@));
        encode_utf8_valid_utf8(escaped_text(input@));
    }
    if first_escapable(bytes).is_none() {
        proof {
            lemma_escaped_untouched(bytes@);
        }
        return input.to_string();
    }
    // Only ASCII is ever replaced, and with ASCII, so UTF-8 is preserved.
    strict_utf8(escape_bytes(bytes)).unwrap()
}

pub proof fn lemma_encode_concat(a: Seq<char>, b: Seq<char>)
    ensures
        encode_utf8(a + b) == encode_utf8(a) + encode_utf8(b),
    decreases a.len(),
{
    if a.len() == 0 {
        assert(a + b =~= b);
        assert(encode_utf8(a) + encode_utf8(b) =~= encode_utf8(b));
    } else {
        assert((a + b).drop_first() =~= a.drop_first() + b);
        lemma_encode_concat(a.drop_first(), b);
        assert(encode_utf8(a) + encode_utf8(b) =~= encode_scalar(a[0] as u32) + (encode_utf8(
            a.drop_first(),
        ) + encode_utf8(b)));
    }
}

/// A lone character is encoded as its scalar.
pub proof fn lemma_encode_single(c: char)
    ensures
        encode_utf8(seq![c]) == encode_scalar(c as u32),
{
    assert(seq![c].drop_first() =~= Seq::empty());
    assert(encode_utf8(Seq::empty()) =~= Seq::empty());
    assert(encode_utf8(seq![c]) =~= encode_scalar(c as u32));
}

/// ASCII is its own encoding; of anything else every byte is above ASCII.
pub proof fn lemma_encode_scalar_bytes(c: char)
    ensures
        (c as u32) < 0x80 ==> encode_scalar(c as u32) == seq![c as u8],
        (c as u32) >= 0x80 ==> forall|i: int|
            0 <= i < encode_scalar(c as u32).len() ==> #[trigger] encode_scalar(c as u32)[i]
                >= 0x80,
{
    let v = c as u32;
    char_is_scalar(c);
    if v < 0x80 {
        assert(leading_byte_width_1(v) == v as u8) by (bit_vector)
            requires
                v < 0x80,
        ;
    } else {
        assert(leading_byte_width_2(v) >= 0x80) by (bit_vector);
        assert(leading_byte_width_3(v) >= 0x80) by (bit_vector);
        assert(leading_byte_width_4(v) >= 0x80) by (bit_vector);
        assert(last_continuation_byte(v) >= 0x80) by (bit_vector);
        assert(second_last_continuation_byte(v) >= 0x80) by (bit_vector);
        assert(third_last_continuation_byte(v) >= 0x80) by (bit_vector);
    }
}

proof fn lemma_escaped_single(c: char)
    ensures
        encode_utf8(escaped_char(c)) == escaped(encode_scalar(c as u32)),
{
    let bytes = encode_scalar(c as u32);
    lemma_encode_scalar_bytes(c);
    if (c as u32) < 0x80 {
        let b = c as u8;
        assert(bytes == seq![b]);
        assert(bytes.drop_last() =~= Seq::empty());
        assert(bytes.last() == b);
        assert(escaped(Seq::empty()) =~= Seq::empty());
        assert(escaped(bytes) =~= escaped_byte(b));
        lemma_encode_single(c);
    } else {
        lemma_escaped_untouched(bytes);
        lemma_encode_single(c);
    }
}

/// Escaping text and escaping its bytes come to the same.
pub proof fn lemma_escaping_commutes(text: Seq<char>)
    ensures
        encode_utf8(escaped_text(text)) == escaped(encode_utf8(text)),
    decreases text.len(),
{
    if text.len() == 0 {
        assert(escaped(encode_utf8(text)) =~= Seq::empty());
        assert(encode_utf8(Seq::empty()) =~= Seq::empty());
    } else {
        let front = text.drop_last();
        let c = text.last();
        lemma_escaping_commutes(front);
        lemma_encode_concat(escaped_text(front), escaped_char(c));
        lemma_escaped_single(c);
        lemma_encode_concat(front, seq![c]);
        lemma_encode_single(c);
        assert(front + seq![c] =~= text);
        lemma_escaped_concat(encode_utf8(front), encode_scalar(c as u32));
    }
}

/// What a browser reads from text in which the five entities stand for characters.
pub open spec fn html_read(s: Seq<char>) -> Seq<char>
    decreases s.len(),
{
    if s.len() == 0 {
        Seq::empty()
    } else if s.len() >= 5 && s.take(5) == seq!['&', 'a', 'm', 'p', ';'] {
        seq!['&'] + html_read(s.skip(5))
    } else if s.len() >= 4 && s.take(4) == seq!['&', 'l', 't', ';'] {
        seq!['<'] + html_read(s.skip(4))
    } else if s.len() >= 4 && s.take(4) == seq!['&', 'g', 't', ';'] {
        seq!['>'] + html_read(s.skip(4))
    } else if s.len() >= 6 && s.take(6) == seq!['&', 'q', 'u', 'o', 't', ';'] {
        seq!['"'] + html_read(s.skip(6))
    } else if s.len() >= 6 && s.take(6) == seq!['&', '#', 'x', '2', '7', ';'] {
        seq!['\''] + html_read(s.skip(6))
    } else {
        seq![s[0]] + html_read(s.skip(1))
    }
}

proof fn lemma_escaped_text_front(text: Seq<char>)
    requires
        text.len() > 0,
    ensures
        escaped_text(text) == escaped_char(text[0]) + escaped_text(text.drop_first()),
    decreases text.len(),
{
    if text.len() == 1 {
        assert(text.drop_last() =~= Seq::empty());
        assert(text.drop_first() =~= Seq::empty());
        assert(escaped_text(text) =~= escaped_char(text[0]) + escaped_text(text.drop_first()));
    } else {
        lemma_escaped_text_front(text.drop_last());
        assert(text.drop_last().drop_first() =~= text.drop_first().drop_last());
        assert(escaped_text(text) =~= escaped_char(text[0]) + escaped_text(text.drop_first()));
    }
}

/// Escaped text reads as the text that was escaped, and none of the characters
/// that open or close a tag or an attribute is left in it.
pub proof fn law_escaped_text_reads_back(text: Seq<char>)
    ensures
        html_read(escaped_text(text)) == text,
        forall|i: int|
            0 <= i < escaped_text(text).len() ==> {
                let c = #[trigger] escaped_text(text)[i];
                c != '<' && c != '>' && c != '"' && c != '\''
            },
    decreases text.len(),
{
    if text.len() > 0 {
        reveal_strlit("&amp;");
        reveal_strlit("&lt;");
        reveal_strlit("&gt;");
        reveal_strlit("&quot;");
        reveal_strlit("&#x27;");
        let c = text[0];
        let rest = text.drop_first();
        lemma_escaped_text_front(text);
        law_escaped_text_reads_back(rest);
        let s = escaped_text(text);
        let e = escaped_char(c);
        let tail = escaped_text(rest);
        assert(s.skip(e.len() as int) =~= tail);
        assert(seq![c] + rest =~= text);
        if c == '&' {
            assert(s.take(5) =~= seq!['&', 'a', 'm', 'p', ';']);
        } else if c == '<' {
            assert(s.take(4) =~= seq!['&', 'l', 't', ';']);
            assert(s.take(4)[1] == 'l');
            assert(s.len() >= 5 ==> s.take(5)[1] != 'a');
        } else if c == '>' {
            assert(s.take(4) =~= seq!['&', 'g', 't', ';']);
            assert(s.take(4)[1] == 'g');
            assert(s.len() >= 5 ==> s.take(5)[1] != 'a');
        } else if c == '"' {
            assert(s.take(6) =~= seq!['&', 'q', 'u', 'o', 't', ';']);
            assert(s.take(5)[1] == 'q');
            assert(s.take(4)[1] == 'q');
        } else if c == '\'' {
            assert(s.take(6) =~= seq!['&', '#', 'x', '2', '7', ';']);
            assert(s.take(6)[1] == '#');
            assert(s.take(5)[1] == '#');
            assert(s.take(4)[1] == '#');
        } else {
            assert(s[0] == c);
            assert(s.len() >= 4 ==> s.take(4)[0] == c);
            assert(s.len() >= 5 ==> s.take(5)[0] == c);
            assert(s.len() >= 6 ==> s.take(6)[0] == c);
        }
        assert forall|i: int| 0 <= i < s.len() implies {
            let x = #[trigger] s[i];
            x != '<' && x != '>' && x != '"' && x != '\''
        } by {
            if i < e.len() {
                assert(s[i] == e[i]);
            } else {
                assert(s[i] == tail[i - e.len()]);
            }
        }
    }
}

/// Text that needs no escaping passes through untouched.
pub proof fn law_plain_text_is_untouched(text: Seq<char>)
    requires
        forall|i: int|
            0 <= i < text.len() ==> {
                let c = #[trigger] text[i];
                c != '&' && c != '<' && c != '>' && c != '"' && c != '\''
            },
    ensures
        escaped_text(text) == text,
    decreases text.len(),
{
    if text.len() > 0 {
        assert(text.last() == text[text.len() - 1]);
        law_plain_text_is_untouched(text.drop_last());
        assert(text.drop_last() + seq![text.last()] =~= text);
    }
}

} // verus!
