//! Lua values on their way to the page, the log or a response header.

use vstd::prelude::*;
use vstd::utf8::*;
use crate::api;
use crate::text;

verus! {

/// A Lua value as the server sees it when it has to become text.
pub enum LuaValue {
    Nil,
    Boolean(bool),
    Integer(i64),
    /// A float, written out in the shortest form that reads back.
    Number(String),
    Str(Vec<u8>),
    Function,
    /// Anything else: its JSON, or why it has none.
    Other(Result<String, String>),
}

/// A value in specifications.
pub enum ValueView {
    Nil,
    Boolean(bool),
    Integer(int),
    Number(Seq<char>),
    Str(Seq<u8>),
    Function,
    Other(Result<Seq<char>, Seq<char>>),
}

pub open spec fn text_result(r: Result<String, String>) -> Result<Seq<char>, Seq<char>> {
    match r {
        Ok(s) => Ok(s@),
        Err(e) => Err(e@),
    }
}

impl View for LuaValue {
    type V = ValueView;

    open spec fn view(&self) -> ValueView {
        match self {
            LuaValue::Nil => ValueView::Nil,
            LuaValue::Boolean(b) => ValueView::Boolean(*b),
            LuaValue::Integer(n) => ValueView::Integer(*n as int),
            LuaValue::Number(s) => ValueView::Number(s@),
            LuaValue::Str(b) => ValueView::Str(b@),
            LuaValue::Function => ValueView::Function,
            LuaValue::Other(r) => ValueView::Other(text_result(*r)),
        }
    }
}

pub open spec fn value_views(values: Seq<LuaValue>) -> Seq<ValueView> {
    values.map_values(|v: LuaValue| v@)
}

pub open spec fn bool_text(b: bool) -> Seq<char> {
    if b {
        "true"@
    } else {
        "false"@
    }
}

/// A value as text.
pub open spec fn value_text(v: ValueView) -> Result<Seq<char>, Seq<char>> {
    match v {
        ValueView::Nil => Ok("nil"@),
        ValueView::Boolean(b) => Ok(bool_text(b)),
        ValueView::Integer(n) => Ok(text::signed_decimal(n)),
        ValueView::Number(s) => Ok(s),
        ValueView::Str(bytes) => Ok(text::lossy_utf8(bytes)),
        ValueView::Function => Ok("<function>"@),
        ValueView::Other(r) => r,
    }
}

/// A value as text; fails on a value that has none.
pub fn value_to_string(value: &LuaValue) -> (r: Result<String, String>)
    ensures
        text_result(r) == value_text(value@),
{
    match value {
        LuaValue::Nil => Ok("nil".to_string()),
        LuaValue::Boolean(b) => if *b {
            Ok("true".to_string())
        } else {
            Ok("false".to_string())
        },
        LuaValue::Integer(n) => Ok(text::signed_decimal_of(*n)),
        LuaValue::Number(s) => Ok(s.clone()),
        LuaValue::Str(bytes) => Ok(text::lossy(bytes.as_slice())),
        LuaValue::Function => Ok("<function>".to_string()),
        LuaValue::Other(r) => match r {
            Ok(s) => Ok(s.clone()),
            Err(e) => Err(e.clone()),
        },
    }
}

/// The position of the first value that has no text, or the number of values.
pub open spec fn first_failure(values: Seq<ValueView>) -> int
    decreases values.len(),
{
    if values.len() == 0 {
        0
    } else if first_failure(values.drop_last()) < values.len() - 1 {
        first_failure(values.drop_last())
    } else if value_text(values.last()) is Err {
        values.len() - 1
    } else {
        values.len() as int
    }
}

pub proof fn lemma_first_failure(values: Seq<ValueView>)
    ensures
        0 <= first_failure(values) <= values.len(),
        first_failure(values) < values.len() ==> value_text(values[first_failure(values)]) is Err,
        forall|i: int| 0 <= i < first_failure(values) ==> value_text(#[trigger] values[i]) is Ok,
    decreases values.len(),
{
    if values.len() > 0 {
        lemma_first_failure(values.drop_last());
        let k = first_failure(values.drop_last());
        assert forall|i: int| 0 <= i < first_failure(values) implies value_text(
            #[trigger] values[i],
        ) is Ok by {
            if i < k {
                assert(values.drop_last()[i] == values[i]);
            }
        }
    }
}

/// Where the first failure is, given what is known of a prefix.
proof fn lemma_failure_at(values: Seq<ValueView>, i: int)
    requires
        0 <= i <= values.len(),
        forall|k: int| 0 <= k < i ==> value_text(#[trigger] values[k]) is Ok,
        i < values.len() ==> value_text(values[i]) is Err,
    ensures
        first_failure(values) == i,
{
    lemma_first_failure(values);
}

/// The texts of values that all have one.
pub open spec fn texts(values: Seq<ValueView>) -> Seq<Seq<char>> {
    values.map_values(|v: ValueView| value_text(v)->Ok_0)
}

/// What printing several values comes to: their texts with a space between, or
/// the first failure.
pub open spec fn joined_text(values: Seq<ValueView>) -> Result<Seq<char>, Seq<char>> {
    let k = first_failure(values);
    if k < values.len() {
        value_text(values[k])
    } else {
        Ok(text::separated(texts(values), " "@))
    }
}

/// Values as text, joined with a single space.
pub fn params_to_string(params: &Vec<LuaValue>) -> (r: Result<String, String>)
    ensures
        text_result(r) == joined_text(value_views(params@)),
{
    let ghost all = value_views(params@);
    let mut parts: Vec<String> = Vec::new();
    let mut i: usize = 0;
    while i < params.len()
        invariant
            i <= params@.len(),
            all == value_views(params@),
            text::views(parts@) == texts(all.take(i as int)),
            forall|k: int| 0 <= k < i ==> value_text(#[trigger] all[k]) is Ok,
        decreases params@.len() - i,
    {
        assert(all[i as int] == params@[i as int]@);
        match value_to_string(&params[i]) {
            Ok(s) => {
                let ghost before = parts@;
                parts.push(s);
                assert(text::views(parts@) =~= text::views(before).push(s@));
                assert(texts(all.take(i + 1)) =~= texts(all.take(i as int)).push(s@));
            },
            Err(e) => {
                proof {
                    lemma_failure_at(all, i as int);
                }
                return Err(e);
            },
        }
        i = i + 1;
    }
    proof {
        lemma_failure_at(all, i as int);
        assert(all.take(i as int) =~= all);
    }
    Ok(text::join_with(&parts, " "))
}

// ---- output -------------------------------------------------------------------

/// What `<?lua= value ?>` appends: nothing for nil, numbers and booleans as they
/// are, everything else escaped.
pub open spec fn expr_bytes(v: ValueView) -> Seq<u8> {
    match v {
        ValueView::Nil => Seq::empty(),
        ValueView::Boolean(b) => encode_utf8(bool_text(b)),
        ValueView::Integer(n) => encode_utf8(text::signed_decimal(n)),
        ValueView::Number(s) => encode_utf8(s),
        ValueView::Str(bytes) => api::escaped(bytes),
        _ => match value_text(v) {
            Ok(s) => api::escaped(encode_utf8(s)),
            Err(_) => Seq::empty(),
        },
    }
}

/// What `<?lua== value ?>` appends: nothing for nil, everything else unescaped.
pub open spec fn raw_bytes(v: ValueView) -> Seq<u8> {
    match v {
        ValueView::Nil => Seq::empty(),
        ValueView::Str(bytes) => bytes,
        _ => match value_text(v) {
            Ok(s) => encode_utf8(s),
            Err(_) => Seq::empty(),
        },
    }
}

/// What `print` appends for one value: as the raw form, but nil is a word.
pub open spec fn print_bytes(v: ValueView) -> Seq<u8> {
    match v {
        ValueView::Str(bytes) => bytes,
        _ => match value_text(v) {
            Ok(s) => encode_utf8(s),
            Err(_) => Seq::empty(),
        },
    }
}

/// The bytes of an expression with several values, in order.
pub open spec fn expr_output(values: Seq<ValueView>) -> Seq<u8>
    decreases values.len(),
{
    if values.len() == 0 {
        Seq::empty()
    } else {
        expr_output(values.drop_last()) + expr_bytes(values.last())
    }
}

pub open spec fn raw_output(values: Seq<ValueView>) -> Seq<u8>
    decreases values.len(),
{
    if values.len() == 0 {
        Seq::empty()
    } else {
        raw_output(values.drop_last()) + raw_bytes(values.last())
    }
}

/// `print` joins with a space; the space is out before the value it precedes.
pub open spec fn print_output(values: Seq<ValueView>) -> Seq<u8>
    decreases values.len(),
{
    if values.len() == 0 {
        Seq::empty()
    } else if values.len() == 1 {
        print_bytes(values.last())
    } else {
        print_output(values.drop_last()) + encode_utf8(" "@) + print_bytes(values.last())
    }
}

/// Prints the values of an expression block, escaped. Stops at a value that has
/// no text; what came before it stays printed.
pub fn out_expr(values: &Vec<LuaValue>, out: &mut Vec<u8>) -> (r: Result<(), String>)
    ensures
        ({
            let all = value_views(values@);
            let k = first_failure(all);
            &&& final(out)@ == old(out)@ + expr_output(all.take(k))
            &&& match r {
                Ok(_) => k == all.len(),
                Err(e) => k < all.len() && value_text(all[k]) == Err::<Seq<char>, Seq<char>>(e@),
            }
        }),
{
    let ghost before = out@;
    let ghost all = value_views(values@);
    let mut i: usize = 0;
    assert(all.take(0) =~= Seq::empty());
    assert(out@ =~= before + expr_output(all.take(0)));
    while i < values.len()
        invariant
            i <= values@.len(),
            all == value_views(values@),
            before == old(out)@,
            out@ == before + expr_output(all.take(i as int)),
            forall|k: int| 0 <= k < i ==> value_text(#[trigger] all[k]) is Ok,
        decreases values@.len() - i,
    {
        let ghost done = out@;
        let ghost v = all[i as int];
        assert(v == values@[i as int]@);
        assert(all.take(i + 1).drop_last() =~= all.take(i as int));
        match &values[i] {
            LuaValue::Nil => {
                assert(out@ =~= done + expr_bytes(v));
            },
            LuaValue::Boolean(b) => {
                let word = if *b {
                    "true"
                } else {
                    "false"
                };
                out.extend_from_slice(word.as_bytes());
            },
            LuaValue::Str(bytes) => {
                api::escape_into(bytes.as_slice(), out);
            },
            LuaValue::Integer(n) => {
                let digits = text::signed_decimal_of(*n);
                out.extend_from_slice(digits.as_str().as_bytes());
            },
            LuaValue::Number(s) => {
                out.extend_from_slice(s.as_str().as_bytes());
            },
            other => match value_to_string(other) {
                Ok(s) => {
                    api::escape_into(s.as_str().as_bytes(), out);
                },
                Err(e) => {
                    proof {
                        lemma_failure_at(all, i as int);
                    }
                    return Err(e);
                },
            },
        }
        assert(out@ =~= before + expr_output(all.take(i + 1)));
        i = i + 1;
    }
    proof {
        lemma_failure_at(all, i as int);
    }
    Ok(())
}

/// Prints values unescaped, nil as nothing.
pub fn out_raw(values: &Vec<LuaValue>, out: &mut Vec<u8>) -> (r: Result<(), String>)
    ensures
        ({
            let all = value_views(values@);
            let k = first_failure(all);
            &&& final(out)@ == old(out)@ + raw_output(all.take(k))
            &&& match r {
                Ok(_) => k == all.len(),
                Err(e) => k < all.len() && value_text(all[k]) == Err::<Seq<char>, Seq<char>>(e@),
            }
        }),
{
    let ghost before = out@;
    let ghost all = value_views(values@);
    let mut i: usize = 0;
    assert(all.take(0) =~= Seq::empty());
    assert(out@ =~= before + raw_output(all.take(0)));
    while i < values.len()
        invariant
            i <= values@.len(),
            all == value_views(values@),
            before == old(out)@,
            out@ == before + raw_output(all.take(i as int)),
            forall|k: int| 0 <= k < i ==> value_text(#[trigger] all[k]) is Ok,
        decreases values@.len() - i,
    {
        let ghost done = out@;
        let ghost v = all[i as int];
        assert(v == values@[i as int]@);
        assert(all.take(i + 1).drop_last() =~= all.take(i as int));
        match &values[i] {
            LuaValue::Nil => {
                assert(out@ =~= done + raw_bytes(v));
            },
            LuaValue::Str(bytes) => {
                out.extend_from_slice(bytes.as_slice());
            },
            other => match value_to_string(other) {
                Ok(s) => {
                    out.extend_from_slice(s.as_str().as_bytes());
                },
                Err(e) => {
                    proof {
                        lemma_failure_at(all, i as int);
                    }
                    return Err(e);
                },
            },
        }
        assert(out@ =~= before + raw_output(all.take(i + 1)));
        i = i + 1;
    }
    proof {
        lemma_failure_at(all, i as int);
    }
    Ok(())
}

/// Prints values unescaped with a space between.
pub fn print(values: &Vec<LuaValue>, out: &mut Vec<u8>) -> (r: Result<(), String>)
    ensures
        ({
            let all = value_views(values@);
            let k = first_failure(all);
            match r {
                Ok(_) => k == all.len() && final(out)@ == old(out)@ + print_output(all),
                Err(e) => {
                    &&& k < all.len()
                    &&& value_text(all[k]) == Err::<Seq<char>, Seq<char>>(e@)
                    &&& final(out)@ == old(out)@ + print_output(all.take(k)) + if k > 0 {
                        encode_utf8(" "@)
                    } else {
                        Seq::empty()
                    }
                },
            }
        }),
{
    let ghost before = out@;
    let ghost all = value_views(values@);
    let mut i: usize = 0;
    assert(all.take(0) =~= Seq::empty());
    assert(out@ =~= before + print_output(all.take(0)));
    while i < values.len()
        invariant
            i <= values@.len(),
            all == value_views(values@),
            before == old(out)@,
            out@ == before + print_output(all.take(i as int)),
            forall|k: int| 0 <= k < i ==> value_text(#[trigger] all[k]) is Ok,
        decreases values@.len() - i,
    {
        let ghost done = out@;
        let ghost v = all[i as int];
        assert(v == values@[i as int]@);
        assert(all.take(i + 1).drop_last() =~= all.take(i as int));
        if i > 0 {
            out.extend_from_slice(" ".as_bytes());
        }
        match &values[i] {
            LuaValue::Str(bytes) => {
                out.extend_from_slice(bytes.as_slice());
            },
            other => match value_to_string(other) {
                Ok(s) => {
                    out.extend_from_slice(s.as_str().as_bytes());
                },
                Err(e) => {
                    proof {
                        lemma_failure_at(all, i as int);
                    }
                    return Err(e);
                },
            },
        }
        assert(out@ =~= before + print_output(all.take(i + 1)));
        i = i + 1;
    }
    proof {
        lemma_failure_at(all, i as int);
        assert(all.take(i as int) =~= all);
    }
    Ok(())
}

/// An expression prints every number in full, however long its text, as the raw
/// form does.
pub proof fn law_numbers_always_print(n: i64, number: Seq<char>)
    ensures
        expr_bytes(ValueView::Integer(n as int)) == encode_utf8(text::signed_decimal(n as int)),
        expr_bytes(ValueView::Integer(n as int)) == raw_bytes(ValueView::Integer(n as int)),
        expr_bytes(ValueView::Number(number)) == encode_utf8(number),
        expr_bytes(ValueView::Number(number)) == raw_bytes(ValueView::Number(number)),
{
}

/// An expression block prints nothing that opens or closes a tag or an attribute,
/// whatever string it is given; text comes out as escaped text.
pub proof fn law_expressions_escape(bytes: Seq<u8>, text: Seq<char>)
    ensures
        forall|i: int|
            0 <= i < expr_bytes(ValueView::Str(bytes)).len() ==> {
                let b = #[trigger] expr_bytes(ValueView::Str(bytes))[i];
                b != 0x3c && b != 0x3e && b != 0x22 && b != 0x27
            },
        expr_bytes(ValueView::Str(encode_utf8(text))) == encode_utf8(api::escaped_text(text)),
{
    api::lemma_escaped_is_inert(bytes);
    api::lemma_escaping_commutes(text);
}

/// How every kind of value reads as text: the words for nil, truth and functions,
/// digits for integers, strings as they are, and the value's own text or failure for
/// the rest.
pub proof fn law_values_read_as_text(n: int, s: Seq<char>, bytes: Seq<u8>)
    ensures
        value_text(ValueView::Nil) == Ok::<Seq<char>, Seq<char>>(seq!['n', 'i', 'l']),
        value_text(ValueView::Boolean(true)) == Ok::<Seq<char>, Seq<char>>(
            seq!['t', 'r', 'u', 'e'],
        ),
        value_text(ValueView::Boolean(false)) == Ok::<Seq<char>, Seq<char>>(
            seq!['f', 'a', 'l', 's', 'e'],
        ),
        value_text(ValueView::Integer(n)) == Ok::<Seq<char>, Seq<char>>(text::signed_decimal(n)),
        value_text(ValueView::Number(s)) == Ok::<Seq<char>, Seq<char>>(s),
        value_text(ValueView::Str(bytes)) == Ok::<Seq<char>, Seq<char>>(text::lossy_utf8(bytes)),
        value_text(ValueView::Function) == Ok::<Seq<char>, Seq<char>>("<function>"@),
        value_text(ValueView::Other(Ok(s))) == Ok::<Seq<char>, Seq<char>>(s),
        value_text(ValueView::Other(Err(s))) == Err::<Seq<char>, Seq<char>>(s),
{
    reveal_strlit("nil");
    reveal_strlit("true");
    reveal_strlit("false");
    assert("nil"@ =~= seq!['n', 'i', 'l']);
    assert("true"@ =~= seq!['t', 'r', 'u', 'e']);
    assert("false"@ =~= seq!['f', 'a', 'l', 's', 'e']);
}

/// No character that HTML gives a meaning.
pub open spec fn unmarked(text: Seq<char>) -> bool {
    forall|i: int|
        0 <= i < text.len() ==> {
            let c = #[trigger] text[i];
            c != '&' && c != '<' && c != '>' && c != '"' && c != '\''
        }
}

proof fn lemma_digits_unmarked(n: nat)
    ensures
        unmarked(text::decimal(n)),
    decreases n,
{
    let d = text::hex_lower((n % 10) as int);
    assert('0' <= d <= '9');
    if n < 10 {
        assert(text::decimal(n) =~= seq![d]);
    } else {
        lemma_digits_unmarked(n / 10);
        let s = text::decimal(n);
        let front = text::decimal(n / 10);
        assert forall|i: int| 0 <= i < s.len() implies {
            let c = #[trigger] s[i];
            c != '&' && c != '<' && c != '>' && c != '"' && c != '\''
        } by {
            if i < front.len() {
                assert(s[i] == front[i]);
            }
        }
    }
}

proof fn lemma_escaping_unmarked(t: Seq<char>)
    requires
        unmarked(t),
    ensures
        api::escaped(encode_utf8(t)) == encode_utf8(t),
{
    api::law_plain_text_is_untouched(t);
    api::lemma_escaping_commutes(t);
}

/// The two kinds of expression block differ by escaping alone: whatever a value is,
/// the first kind puts out what the second does, escaped. A float is text without
/// anything to escape.
pub proof fn law_expressions_are_the_raw_form_escaped(v: ValueView)
    requires
        v matches ValueView::Number(s) ==> unmarked(s),
    ensures
        expr_bytes(v) == api::escaped(raw_bytes(v)),
{
    match v {
        ValueView::Nil => {
            assert(api::escaped(Seq::empty()) =~= Seq::empty());
        },
        ValueView::Boolean(b) => {
            reveal_strlit("true");
            reveal_strlit("false");
            lemma_escaping_unmarked(bool_text(b));
        },
        ValueView::Integer(n) => {
            let m = if n < 0 {
                (-n) as nat
            } else {
                n as nat
            };
            lemma_digits_unmarked(m);
            let t = text::signed_decimal(n);
            assert forall|i: int| 0 <= i < t.len() implies {
                let c = #[trigger] t[i];
                c != '&' && c != '<' && c != '>' && c != '"' && c != '\''
            } by {
                if n < 0 && i > 0 {
                    assert(t[i] == text::decimal(m)[i - 1]);
                }
            }
            lemma_escaping_unmarked(t);
        },
        ValueView::Number(s) => {
            lemma_escaping_unmarked(s);
        },
        ValueView::Str(_) => {},
        ValueView::Function => {},
        ValueView::Other(r) => {
            if r is Err {
                assert(api::escaped(Seq::empty()) =~= Seq::empty());
            }
        },
    }
}

/// Printing puts out what a raw expression does, except that nil is a word; strings go
/// out byte for byte, and everything else as its text.
pub proof fn law_printing_is_the_raw_form(v: ValueView)
    ensures
        !(v is Nil) ==> print_bytes(v) == raw_bytes(v),
        raw_bytes(ValueView::Nil) == Seq::<u8>::empty(),
        print_bytes(ValueView::Nil) == encode_utf8(seq!['n', 'i', 'l']),
        v matches ValueView::Str(bytes) ==> raw_bytes(v) == bytes,
        !(v is Nil) && !(v is Str) && value_text(v) is Ok ==> raw_bytes(v) == encode_utf8(
            value_text(v)->Ok_0,
        ),
{
    reveal_strlit("nil");
    assert("nil"@ =~= seq!['n', 'i', 'l']);
}

/// Values are put out one behind the other, in order and none left out; `print` puts
/// a space between neighbours.
pub proof fn law_values_are_put_out_in_order(values: Seq<ValueView>, v: ValueView)
    ensures
        expr_output(Seq::empty()) == Seq::<u8>::empty(),
        raw_output(Seq::empty()) == Seq::<u8>::empty(),
        print_output(Seq::empty()) == Seq::<u8>::empty(),
        expr_output(values.push(v)) == expr_output(values) + expr_bytes(v),
        raw_output(values.push(v)) == raw_output(values) + raw_bytes(v),
        print_output(seq![v]) == print_bytes(v),
        values.len() > 0 ==> print_output(values.push(v)) == print_output(values) + seq![0x20u8]
            + print_bytes(v),
{
    assert(values.push(v).drop_last() =~= values);
    reveal_strlit(" ");
    is_ascii_chars_encode_utf8(" "@);
    assert(encode_utf8(" "@) =~= seq![0x20u8]);
}

/// Values that all have a text are joined with one space between neighbours; the first
/// one that has none is what is reported.
pub proof fn law_texts_are_joined_with_spaces(values: Seq<ValueView>, k: int)
    ensures
        (forall|i: int| 0 <= i < values.len() ==> value_text(#[trigger] values[i]) is Ok)
            ==> joined_text(values) == Ok::<Seq<char>, Seq<char>>(
            text::separated(
                Seq::new(values.len(), |i: int| value_text(values[i])->Ok_0),
                seq![' '],
            ),
        ),
        0 <= k < values.len() && value_text(values[k]) is Err && (forall|i: int|
            0 <= i < k ==> value_text(#[trigger] values[i]) is Ok) ==> joined_text(values)
            == value_text(values[k]),
{
    reveal_strlit(" ");
    assert(" "@ =~= seq![' ']);
    if forall|i: int| 0 <= i < values.len() ==> value_text(#[trigger] values[i]) is Ok {
        lemma_failure_at(values, values.len() as int);
        assert(texts(values) =~= Seq::new(values.len(), |i: int| value_text(values[i])->Ok_0));
    }
    if 0 <= k < values.len() && value_text(values[k]) is Err && (forall|i: int|
        0 <= i < k ==> value_text(#[trigger] values[i]) is Ok) {
        lemma_failure_at(values, k);
    }
}

/// A value is spoken of as what it is.
pub proof fn law_values_are_seen_as_they_are(
    n: i64,
    b: bool,
    s: String,
    bytes: Vec<u8>,
    values: Seq<LuaValue>,
    i: int,
)
    ensures
        LuaValue::Nil@ == ValueView::Nil,
        LuaValue::Boolean(b)@ == ValueView::Boolean(b),
        LuaValue::Integer(n)@ == ValueView::Integer(n as int),
        LuaValue::Number(s)@ == ValueView::Number(s@),
        LuaValue::Str(bytes)@ == ValueView::Str(bytes@),
        LuaValue::Function@ == ValueView::Function,
        LuaValue::Other(Ok(s))@ == ValueView::Other(Ok(s@)),
        LuaValue::Other(Err(s))@ == ValueView::Other(Err(s@)),
        value_views(values).len() == values.len(),
        0 <= i < values.len() ==> value_views(values)[i] == values[i]@,
{
}

} // verus!
