//! Text primitives: characters in and out of strings, decimal numbers, and the
//! few case and whitespace rules the rest of the server relies on.
//!
//! Everything is stated over `Seq<char>`, the view of `str` and `String`.

use vstd::prelude::*;
use vstd::utf8::*;

verus! {

/// `String::push` appends one character and leaves the rest alone.
pub assume_specification[ String::push ](s: &mut String, c: char)
    ensures
        final(s)@ == old(s)@.push(c),
;

/// The characters of a string, in order.
pub fn chars_of(s: &str) -> (chars: Vec<char>)
    ensures
        chars@ == s@,
{
    let mut out: Vec<char> = Vec::new();
    for c in it: s.chars()
        invariant
            out@ == s@.take(it.index() as int),
            it.seq() == s@,
    {
        out.push(c);
    }
    out
}

/// The code point of a character.
pub fn code_point(c: char) -> (n: u32)
    ensures
        n as int == c as int,
        n <= 0x10ffff,
{
    c as u32
}

/// The string holding `chars[from..to]`.
pub fn string_of(chars: &[char], from: usize, to: usize) -> (s: String)
    requires
        from <= to <= chars@.len(),
    ensures
        s@ == chars@.subrange(from as int, to as int),
{
    let mut out = String::new();
    let mut i: usize = from;
    while i < to
        invariant
            from <= i <= to <= chars@.len(),
            out@ == chars@.subrange(from as int, i as int),
        decreases to - i,
    {
        out.push(chars[i]);
        i = i + 1;
    }
    out
}

/// `a` followed by `b`.
pub fn join2(a: &str, b: &str) -> (s: String)
    ensures
        s@ == a@ + b@,
{
    let mut out = a.to_string();
    out.append(b);
    out
}

/// `a`, `b` and `c` in a row.
pub fn join3(a: &str, b: &str, c: &str) -> (s: String)
    ensures
        s@ == a@ + b@ + c@,
{
    let mut out = a.to_string();
    out.append(b);
    out.append(c);
    out
}

/// The parts in order, with nothing between them.
pub open spec fn flat(parts: Seq<Seq<char>>) -> Seq<char>
    decreases parts.len(),
{
    if parts.len() == 0 {
        Seq::empty()
    } else {
        flat(parts.drop_last()) + parts.last()
    }
}

/// The views of a list of strings.
pub open spec fn views(list: Seq<String>) -> Seq<Seq<char>> {
    list.map_values(|s: String| s@)
}

/// The parts in order, with `sep` between neighbours.
pub open spec fn separated(parts: Seq<Seq<char>>, sep: Seq<char>) -> Seq<char>
    decreases parts.len(),
{
    if parts.len() == 0 {
        Seq::empty()
    } else if parts.len() == 1 {
        parts[0]
    } else {
        separated(parts.drop_last(), sep) + sep + parts.last()
    }
}

/// Joins `list` with `sep` between neighbours.
pub fn join_with(list: &Vec<String>, sep: &str) -> (s: String)
    ensures
        s@ == separated(views(list@), sep@),
{
    let mut out = String::new();
    let mut i: usize = 0;
    while i < list.len()
        invariant
            i <= list@.len(),
            out@ == separated(views(list@.take(i as int)), sep@),
        decreases list@.len() - i,
    {
        proof {
            assert(views(list@.take(i + 1)).drop_last() =~= views(list@.take(i as int)));
            assert(views(list@.take(i + 1)).last() == list@[i as int]@);
        }
        if i > 0 {
            out.append(sep);
        }
        out.append(list[i].as_str());
        i = i + 1;
    }
    assert(list@.take(i as int) =~= list@);
    out
}

/// Whether two strings hold the same characters.
pub fn same(a: &str, b: &str) -> (r: bool)
    ensures
        r == (a@ == b@),
{
    let x = a.as_bytes();
    let y = b.as_bytes();
    proof {
        encode_utf8_decode_utf8(a@);
        encode_utf8_decode_utf8(b@);
    }
    if x.len() != y.len() {
        return false;
    }
    let mut i: usize = 0;
    while i < x.len()
        invariant
            i <= x@.len(),
            x@.len() == y@.len(),
            x@ == encode_utf8(a@),
            y@ == encode_utf8(b@),
            forall|k: int| 0 <= k < i ==> x@[k] == y@[k],
        decreases x@.len() - i,
    {
        if x[i] != y[i] {
            return false;
        }
        i = i + 1;
    }
    assert(x@ =~= y@);
    true
}

// ---- hexadecimal ------------------------------------------------------------

/// The lowercase hexadecimal digit for `d`, which is below 16.
pub open spec fn hex_lower(d: int) -> char {
    if d < 10 {
        ('0' as int + d) as char
    } else {
        ('a' as int + d - 10) as char
    }
}

/// The uppercase hexadecimal digit for `d`, which is below 16.
pub open spec fn hex_upper(d: int) -> char {
    if d < 10 {
        ('0' as int + d) as char
    } else {
        ('A' as int + d - 10) as char
    }
}

/// The lowercase digit for `d`.
pub fn hex_digit_lower(d: u8) -> (c: char)
    requires
        d < 16,
    ensures
        c == hex_lower(d as int),
{
    match d {
        0 => '0',
        1 => '1',
        2 => '2',
        3 => '3',
        4 => '4',
        5 => '5',
        6 => '6',
        7 => '7',
        8 => '8',
        9 => '9',
        10 => 'a',
        11 => 'b',
        12 => 'c',
        13 => 'd',
        14 => 'e',
        _ => 'f',
    }
}

/// The uppercase digit for `d`.
pub fn hex_digit_upper(d: u8) -> (c: char)
    requires
        d < 16,
    ensures
        c == hex_upper(d as int),
{
    match d {
        10 => 'A',
        11 => 'B',
        12 => 'C',
        13 => 'D',
        14 => 'E',
        15 => 'F',
        _ => hex_digit_lower(d),
    }
}

// ---- bytes ------------------------------------------------------------------

/// What a byte string reads as when every ill-formed sequence is replaced.
pub uninterp spec fn lossy_utf8(bytes: Seq<u8>) -> Seq<char>;

/// `String::from_utf8_lossy`: the text of `bytes`, each ill-formed sequence
/// replaced by U+FFFD; well-formed UTF-8 is read as it stands.
#[verifier::external_body]
pub(crate) fn lossy(bytes: &[u8]) -> (s: String)
    ensures
        s@ == lossy_utf8(bytes@),
        valid_utf8(bytes@) ==> s@ == decode_utf8(bytes@),
{
    String::from_utf8_lossy(bytes).into_owned()
}

/// `String::from_utf8`: the text that `bytes` encodes, or nothing if they are
/// not well-formed UTF-8.
#[verifier::external_body]
pub(crate) fn strict_utf8(bytes: Vec<u8>) -> (s: Option<String>)
    ensures
        match s {
            Some(t) => valid_utf8(bytes@) && t@ == decode_utf8(bytes@),
            None => !valid_utf8(bytes@),
        },
{
    String::from_utf8(bytes).ok()
}

// ---- case and whitespace ------------------------------------------------------

/// `text` in lower case.
pub uninterp spec fn lowercase_of(text: Seq<char>) -> Seq<char>;

/// An ASCII letter in lower case; any other character as it is.
pub open spec fn lower_char(c: char) -> char {
    if 'A' <= c <= 'Z' {
        (c as int + 0x20) as char
    } else {
        c
    }
}

/// `str::to_lowercase`: the Unicode lowercase mapping of `text`. On ASCII text it
/// maps `A` to `Z` and nothing else.
#[verifier::external_body]
pub(crate) fn to_lowercase(text: &str) -> (lower: String)
    ensures
        lower@ == lowercase_of(text@),
        is_ascii_chars(text@) ==> lower@ == text@.map_values(|c: char| lower_char(c)),
{
    text.to_lowercase()
}

fn lower_of(c: char) -> (r: char)
    ensures
        r == lower_char(c),
{
    match c {
        'A' => 'a',
        'B' => 'b',
        'C' => 'c',
        'D' => 'd',
        'E' => 'e',
        'F' => 'f',
        'G' => 'g',
        'H' => 'h',
        'I' => 'i',
        'J' => 'j',
        'K' => 'k',
        'L' => 'l',
        'M' => 'm',
        'N' => 'n',
        'O' => 'o',
        'P' => 'p',
        'Q' => 'q',
        'R' => 'r',
        'S' => 's',
        'T' => 't',
        'U' => 'u',
        'V' => 'v',
        'W' => 'w',
        'X' => 'x',
        'Y' => 'y',
        'Z' => 'z',
        _ => c,
    }
}

/// Equal but for the case of ASCII letters.
pub open spec fn same_letters(a: Seq<char>, b: Seq<char>) -> bool {
    a.len() == b.len() && forall|i: int|
        0 <= i < a.len() ==> lower_char(#[trigger] a[i]) == lower_char(b[i])
}

/// Whether two strings are equal but for the case of ASCII letters.
pub fn eq_ignore_case(a: &str, b: &str) -> (r: bool)
    ensures
        r == same_letters(a@, b@),
{
    let x = chars_of(a);
    let y = chars_of(b);
    if x.len() != y.len() {
        return false;
    }
    let mut i: usize = 0;
    while i < x.len()
        invariant
            i <= x@.len(),
            x@ == a@,
            y@ == b@,
            x@.len() == y@.len(),
            forall|k: int| 0 <= k < i ==> lower_char(#[trigger] a@[k]) == lower_char(b@[k]),
        decreases x@.len() - i,
    {
        if lower_of(x[i]) != lower_of(y[i]) {
            assert(lower_char(a@[i as int]) != lower_char(b@[i as int]));
            return false;
        }
        i = i + 1;
    }
    true
}

/// Characters with the Unicode property `White_Space`.
pub open spec fn is_space(c: char) -> bool {
    let n = c as int;
    (9 <= n <= 13) || n == 0x20 || n == 0x85 || n == 0xa0 || n == 0x1680 || (0x2000 <= n
        <= 0x200a) || n == 0x2028 || n == 0x2029 || n == 0x202f || n == 0x205f || n == 0x3000
}

fn spacing(c: char) -> (r: bool)
    ensures
        r == is_space(c),
{
    let n: u32 = code_point(c);
    (9 <= n && n <= 13) || n == 0x20 || n == 0x85 || n == 0xa0 || n == 0x1680 || (0x2000 <= n && n
        <= 0x200a) || n == 0x2028 || n == 0x2029 || n == 0x202f || n == 0x205f || n == 0x3000
}

/// `s` without its leading whitespace.
pub open spec fn trimmed_front(s: Seq<char>) -> Seq<char>
    decreases s.len(),
{
    if s.len() > 0 && is_space(s[0]) {
        trimmed_front(s.skip(1))
    } else {
        s
    }
}

/// `s` without its trailing whitespace.
pub open spec fn trimmed_back(s: Seq<char>) -> Seq<char>
    decreases s.len(),
{
    if s.len() > 0 && is_space(s.last()) {
        trimmed_back(s.drop_last())
    } else {
        s
    }
}

/// `s` without the whitespace around it.
pub open spec fn trimmed(s: Seq<char>) -> Seq<char> {
    trimmed_back(trimmed_front(s))
}

/// `s` without the whitespace around it.
pub fn trim(s: &str) -> (r: String)
    ensures
        r@ == trimmed(s@),
{
    let chars = chars_of(s);
    let mut from: usize = 0;
    assert(s@.skip(0) =~= s@);
    while from < chars.len() && spacing(chars[from])
        invariant
            from <= chars@.len(),
            chars@ == s@,
            trimmed_front(s@.skip(from as int)) == trimmed_front(s@),
        decreases chars@.len() - from,
    {
        assert(s@.skip(from as int).skip(1) =~= s@.skip(from + 1));
        from = from + 1;
    }
    assert(trimmed_front(s@) == s@.skip(from as int));
    let mut to: usize = chars.len();
    assert(s@.subrange(from as int, to as int) =~= s@.skip(from as int));
    while to > from && spacing(chars[to - 1])
        invariant
            from <= to <= chars@.len(),
            chars@ == s@,
            trimmed_front(s@) == s@.skip(from as int),
            trimmed_back(s@.subrange(from as int, to as int)) == trimmed(s@),
        decreases to,
    {
        let ghost part = s@.subrange(from as int, to as int);
        assert(part.last() == chars@[to - 1]);
        assert(part.drop_last() =~= s@.subrange(from as int, to - 1));
        to = to - 1;
    }
    if to > from {
        assert(s@.subrange(from as int, to as int).last() == chars@[to - 1]);
    }
    string_of(chars.as_slice(), from, to)
}

/// `s` without the `/` characters in front.
pub open spec fn without_leading_slashes(s: Seq<char>) -> Seq<char>
    decreases s.len(),
{
    if s.len() > 0 && s[0] == '/' {
        without_leading_slashes(s.skip(1))
    } else {
        s
    }
}

/// `s` without the `/` characters in front.
pub fn trim_leading_slashes(s: &str) -> (r: String)
    ensures
        r@ == without_leading_slashes(s@),
{
    let chars = chars_of(s);
    let mut from: usize = 0;
    assert(s@.skip(0) =~= s@);
    while from < chars.len() && chars[from] == '/'
        invariant
            from <= chars@.len(),
            chars@ == s@,
            without_leading_slashes(s@.skip(from as int)) == without_leading_slashes(s@),
        decreases chars@.len() - from,
    {
        assert(s@.skip(from as int).skip(1) =~= s@.skip(from + 1));
        from = from + 1;
    }
    let r = string_of(chars.as_slice(), from, chars.len());
    assert(r@ =~= s@.skip(from as int));
    r
}

/// Whether `s` starts with `prefix`.
pub fn has_prefix(s: &str, prefix: &str) -> (r: bool)
    ensures
        r == prefix@.is_prefix_of(s@),
{
    let x = chars_of(s);
    let y = chars_of(prefix);
    if x.len() < y.len() {
        return false;
    }
    let mut i: usize = 0;
    while i < y.len()
        invariant
            i <= y@.len() <= x@.len(),
            x@ == s@,
            y@ == prefix@,
            forall|k: int| 0 <= k < i ==> x@[k] == y@[k],
        decreases y@.len() - i,
    {
        if x[i] != y[i] {
            assert(s@.subrange(0, prefix@.len() as int)[i as int] != prefix@[i as int]);
            return false;
        }
        i = i + 1;
    }
    assert(prefix@ =~= s@.subrange(0, prefix@.len() as int));
    true
}

/// Whether `s` ends with `suffix`.
pub fn has_suffix(s: &str, suffix: &str) -> (r: bool)
    ensures
        r == suffix@.is_suffix_of(s@),
{
    let x = chars_of(s);
    let y = chars_of(suffix);
    if x.len() < y.len() {
        return false;
    }
    let d: usize = x.len() - y.len();
    let mut i: usize = 0;
    while i < y.len()
        invariant
            i <= y@.len(),
            d + y@.len() == x@.len(),
            x@.len() <= usize::MAX,
            x@ == s@,
            y@ == suffix@,
            forall|k: int| 0 <= k < i ==> x@[d + k] == y@[k],
        decreases y@.len() - i,
    {
        if x[d + i] != y[i] {
            assert(s@.subrange(d as int, s@.len() as int)[i as int] != suffix@[i as int]);
            return false;
        }
        i = i + 1;
    }
    assert(suffix@ =~= s@.subrange(d as int, s@.len() as int));
    true
}

// ---- numbers ------------------------------------------------------------------

/// The digits of `n`.
pub open spec fn decimal(n: nat) -> Seq<char>
    decreases n,
{
    if n < 10 {
        seq![hex_lower(n as int)]
    } else {
        decimal(n / 10).push(hex_lower((n % 10) as int))
    }
}

/// The digits of `n`, with a `-` in front of a negative number.
pub open spec fn signed_decimal(n: int) -> Seq<char> {
    if n < 0 {
        seq!['-'] + decimal((-n) as nat)
    } else {
        decimal(n as nat)
    }
}

/// The digits of `n`.
pub fn decimal_of(n: u64) -> (s: String)
    ensures
        s@ == decimal(n as nat),
    decreases n,
{
    let mut out = if n < 10 {
        String::new()
    } else {
        decimal_of(n / 10)
    };
    out.push(hex_digit_lower((n % 10) as u8));
    assert(out@ =~= decimal(n as nat));
    out
}

/// The digits of `n`, with a `-` in front of a negative number.
pub fn signed_decimal_of(n: i64) -> (s: String)
    ensures
        s@ == signed_decimal(n as int),
{
    if n >= 0 {
        return decimal_of(n as u64);
    }
    let mut out = String::new();
    out.push('-');
    let size: u64 = if n == i64::MIN {
        0x8000_0000_0000_0000
    } else {
        (-n) as u64
    };
    let digits = decimal_of(size);
    out.append(digits.as_str());
    assert(out@ =~= signed_decimal(n as int));
    out
}

/// The value of a digit.
pub open spec fn digit_value(c: char) -> Option<int> {
    if '0' <= c <= '9' {
        Some(c as int - '0' as int)
    } else {
        None
    }
}

/// The number that a run of digits writes; nothing for a character that is none.
pub open spec fn digits_value(s: Seq<char>) -> Option<nat>
    decreases s.len(),
{
    if s.len() == 0 {
        Some(0)
    } else {
        match (digits_value(s.drop_last()), digit_value(s.last())) {
            (Some(n), Some(d)) => Some((n * 10 + d) as nat),
            _ => None,
        }
    }
}

/// A number from 0 to `max` in decimal: at least one digit, with a `+` allowed in
/// front.
pub open spec fn parsed_unsigned(s: Seq<char>, max: nat) -> Option<nat> {
    let digits = if s.len() > 0 && s[0] == '+' {
        s.skip(1)
    } else {
        s
    };
    match digits_value(digits) {
        Some(n) => if digits.len() > 0 && n <= max {
            Some(n)
        } else {
            None
        },
        None => None,
    }
}

/// A number that fits an `i64`, in decimal: at least one digit, with a sign
/// allowed in front.
pub open spec fn parsed_signed(s: Seq<char>) -> Option<int> {
    let signed = s.len() > 0 && (s[0] == '+' || s[0] == '-');
    let digits = if signed {
        s.skip(1)
    } else {
        s
    };
    match digits_value(digits) {
        Some(n) => {
            let v = if signed && s[0] == '-' {
                -(n as int)
            } else {
                n as int
            };
            if digits.len() > 0 && i64::MIN <= v <= i64::MAX {
                Some(v)
            } else {
                None
            }
        },
        None => None,
    }
}

fn digit_of(c: char) -> (r: Option<u8>)
    ensures
        match r {
            Some(d) => digit_value(c) == Some(d as int) && d < 10,
            None => digit_value(c) is None,
        },
{
    match c {
        '0' => Some(0),
        '1' => Some(1),
        '2' => Some(2),
        '3' => Some(3),
        '4' => Some(4),
        '5' => Some(5),
        '6' => Some(6),
        '7' => Some(7),
        '8' => Some(8),
        '9' => Some(9),
        _ => None,
    }
}

/// More digits make no smaller number.
proof fn lemma_digits_grow(s: Seq<char>, k: int)
    requires
        0 <= k <= s.len(),
        digits_value(s) is Some,
    ensures
        digits_value(s.take(k)) is Some,
        digits_value(s.take(k))->0 <= digits_value(s)->0,
    decreases s.len() - k,
{
    if k < s.len() {
        lemma_digits_grow(s.drop_last(), k);
        assert(s.drop_last().take(k) =~= s.take(k));
    } else {
        assert(s.take(k) =~= s);
    }
}

/// The value of `chars[from..]` if all are digits and it is at most `max`.
fn read_digits(chars: &Vec<char>, from: usize, max: u64) -> (r: Option<u64>)
    requires
        from <= chars@.len(),
    ensures
        match r {
            Some(n) => digits_value(chars@.skip(from as int)) == Some(n as nat) && n <= max,
            None => match digits_value(chars@.skip(from as int)) {
                Some(n) => n > max,
                None => true,
            },
        },
{
    let ghost all = chars@.skip(from as int);
    let mut value: u64 = 0;
    let mut i: usize = from;
    assert(all.take(0) =~= Seq::empty());
    while i < chars.len()
        invariant
            from <= i <= chars@.len(),
            all == chars@.skip(from as int),
            digits_value(all.take(i - from)) == Some(value as nat),
            value <= max,
        decreases chars@.len() - i,
    {
        proof {
            assert(all.take(i - from + 1).drop_last() =~= all.take(i - from));
            assert(all.take(i - from + 1).last() == chars@[i as int]);
            if digits_value(all) is Some {
                lemma_digits_grow(all, i - from + 1);
            }
        }
        let d: u64 = match digit_of(chars[i]) {
            Some(d) => d as u64,
            None => return None,
        };
        if value > max / 10 {
            return None;
        }
        let tens: u64 = value * 10;
        if d > max - tens {
            return None;
        }
        value = tens + d;
        i = i + 1;
    }
    assert(all.take(i - from) =~= all);
    Some(value)
}

/// Reads a number from 0 to `max`.
pub fn parse_unsigned(s: &str, max: u64) -> (r: Option<u64>)
    ensures
        match r {
            Some(n) => parsed_unsigned(s@, max as nat) == Some(n as nat),
            None => parsed_unsigned(s@, max as nat) is None,
        },
{
    let chars = chars_of(s);
    let from: usize = if chars.len() > 0 && chars[0] == '+' {
        1
    } else {
        0
    };
    assert(s@.skip(0) =~= s@);
    if from == chars.len() {
        return None;
    }
    read_digits(&chars, from, max)
}

/// Reads a number that fits an `i64`.
pub fn parse_signed(s: &str) -> (r: Option<i64>)
    ensures
        match r {
            Some(n) => parsed_signed(s@) == Some(n as int),
            None => parsed_signed(s@) is None,
        },
{
    let chars = chars_of(s);
    let negative = chars.len() > 0 && chars[0] == '-';
    let from: usize = if chars.len() > 0 && (chars[0] == '+' || chars[0] == '-') {
        1
    } else {
        0
    };
    assert(s@.skip(0) =~= s@);
    if from == chars.len() {
        return None;
    }
    if negative {
        match read_digits(&chars, from, 0x8000_0000_0000_0000) {
            Some(n) => {
                if n == 0x8000_0000_0000_0000 {
                    Some(i64::MIN)
                } else {
                    Some(-(n as i64))
                }
            },
            None => None,
        }
    } else {
        match read_digits(&chars, from, 0x7fff_ffff_ffff_ffff) {
            Some(n) => Some(n as i64),
            None => None,
        }
    }
}

proof fn lemma_decimal_digits(n: nat)
    ensures
        decimal(n).len() > 0,
        digits_value(decimal(n)) == Some(n),
        '0' <= decimal(n)[0] <= '9',
    decreases n,
{
    let d = hex_lower((n % 10) as int);
    assert(digit_value(d) == Some((n % 10) as int));
    if n < 10 {
        assert(decimal(n).drop_last() =~= Seq::empty());
        assert(digits_value(Seq::empty()) == Some(0nat));
        assert(decimal(n).last() == d);
    } else {
        lemma_decimal_digits(n / 10);
        assert(decimal(n).last() == d);
        assert(decimal(n).drop_last() =~= decimal(n / 10));
        assert(decimal(n)[0] == decimal(n / 10)[0]);
    }
}

/// Numbers read back as they were written.
pub proof fn law_decimal_reads_back(n: int)
    ensures
        0 <= n ==> parsed_unsigned(decimal(n as nat), n as nat) == Some(n as nat),
        i64::MIN <= n <= i64::MAX ==> parsed_signed(signed_decimal(n)) == Some(n),
{
    if n >= 0 {
        lemma_decimal_digits(n as nat);
    } else {
        lemma_decimal_digits((-n) as nat);
        assert(signed_decimal(n).skip(1) =~= decimal((-n) as nat));
    }
}

// ---- what trimming and comparing come to ------------------------------------------

/// Whitespace and nothing else.
pub open spec fn all_blank(s: Seq<char>) -> bool {
    forall|i: int| 0 <= i < s.len() ==> is_space(#[trigger] s[i])
}

proof fn lemma_front_blanks(lead: Seq<char>, rest: Seq<char>)
    requires
        all_blank(lead),
    ensures
        trimmed_front(lead + rest) == trimmed_front(rest),
    decreases lead.len(),
{
    if lead.len() == 0 {
        assert(lead + rest =~= rest);
    } else {
        let less = lead.skip(1);
        assert forall|i: int| 0 <= i < less.len() implies is_space(#[trigger] less[i]) by {
            assert(less[i] == lead[i + 1]);
        }
        lemma_front_blanks(less, rest);
        assert((lead + rest)[0] == lead[0]);
        assert((lead + rest).skip(1) =~= less + rest);
    }
}

proof fn lemma_back_blanks(rest: Seq<char>, tail: Seq<char>)
    requires
        all_blank(tail),
    ensures
        trimmed_back(rest + tail) == trimmed_back(rest),
    decreases tail.len(),
{
    if tail.len() == 0 {
        assert(rest + tail =~= rest);
    } else {
        let less = tail.drop_last();
        assert forall|i: int| 0 <= i < less.len() implies is_space(#[trigger] less[i]) by {
            assert(less[i] == tail[i]);
        }
        lemma_back_blanks(rest, less);
        assert(is_space(tail[tail.len() - 1]));
        assert((rest + tail).drop_last() =~= rest + less);
    }
}

/// Trimming takes the whitespace around a text and nothing of the text itself.
pub proof fn law_trimming_takes_the_blanks(lead: Seq<char>, core: Seq<char>, tail: Seq<char>)
    requires
        all_blank(lead),
        all_blank(tail),
        core.len() > 0 ==> !is_space(core[0]) && !is_space(core.last()),
    ensures
        trimmed(lead + core + tail) == core,
{
    assert(lead + core + tail =~= lead + (core + tail));
    lemma_front_blanks(lead, core + tail);
    if core.len() > 0 {
        assert((core + tail)[0] == core[0]);
        lemma_back_blanks(core, tail);
    } else {
        assert(core + tail =~= tail + Seq::empty());
        lemma_front_blanks(tail, Seq::empty());
        assert(trimmed_front(Seq::<char>::empty()) =~= core);
    }
}

/// Which characters are whitespace: those that Unicode calls so, twenty-five in all,
/// and of ASCII the space and the five from tab to carriage return.
pub proof fn law_blanks_are_what_they_look_like(c: char)
    ensures
        is_space(c) <==> c == ' ' || c == '\u{9}' || c == '\u{a}' || c == '\u{b}' || c == '\u{c}'
            || c == '\u{d}' || c == '\u{85}' || c == '\u{a0}' || c == '\u{1680}' || ('\u{2000}' <= c
            <= '\u{200a}') || c == '\u{2028}' || c == '\u{2029}' || c == '\u{202f}' || c
            == '\u{205f}' || c == '\u{3000}',
{
}

/// Slashes in front are dropped, all of them, and nothing else is.
pub proof fn law_leading_slashes_are_dropped(n: nat, rest: Seq<char>)
    requires
        rest.len() == 0 || rest[0] != '/',
    ensures
        without_leading_slashes(Seq::new(n, |i: int| '/') + rest) == rest,
    decreases n,
{
    let s = Seq::new(n, |i: int| '/') + rest;
    if n == 0 {
        assert(s =~= rest);
    } else {
        law_leading_slashes_are_dropped((n - 1) as nat, rest);
        assert(s[0] == '/');
        assert(s.skip(1) =~= Seq::new((n - 1) as nat, |i: int| '/') + rest);
    }
}

/// Letters are compared without their case and everything else exactly: equal
/// characters are the same, an upper-case letter is the same as its lower-case one,
/// 32 further on, and no two others are.
pub proof fn law_letters_match_in_either_case(a: char, b: char)
    ensures
        same_letters(seq![a], seq![b]) <==> a == b || ('A' <= a <= 'Z' && b as int == a as int
            + 32) || ('A' <= b <= 'Z' && a as int == b as int + 32),
{
    let x = seq![a];
    let y = seq![b];
    assert(x[0] == a && y[0] == b);
    if lower_char(a) == lower_char(b) {
        assert(same_letters(x, y));
    }
    lemma_lower_char(a);
    lemma_lower_char(b);
}

proof fn lemma_lower_char(c: char)
    ensures
        'A' <= c <= 'Z' ==> lower_char(c) as int == c as int + 32,
        !('A' <= c <= 'Z') ==> lower_char(c) == c,
{
}

/// Texts match when they are equally long and match character by character.
pub proof fn law_texts_match_letter_by_letter(a: Seq<char>, x: char, b: Seq<char>, y: char)
    ensures
        same_letters(Seq::empty(), Seq::empty()),
        same_letters(a.push(x), b.push(y)) <==> same_letters(a, b) && same_letters(
            seq![x],
            seq![y],
        ),
        same_letters(a, b) ==> a.len() == b.len(),
{
    let s = a.push(x);
    let t = b.push(y);
    if same_letters(s, t) {
        assert forall|i: int| 0 <= i < a.len() implies lower_char(#[trigger] a[i]) == lower_char(
            b[i],
        ) by {
            assert(s[i] == a[i] && t[i] == b[i]);
        }
        assert(s[a.len() as int] == x && t[b.len() as int] == y);
    }
    if same_letters(a, b) && same_letters(seq![x], seq![y]) {
        assert(lower_char(seq![x][0]) == lower_char(seq![y][0]));
        assert forall|i: int| 0 <= i < s.len() implies lower_char(#[trigger] s[i]) == lower_char(
            t[i],
        ) by {
            if i < a.len() {
                assert(s[i] == a[i] && t[i] == b[i]);
            }
        }
    }
}

/// Parts are put together in order, with the separator between neighbours and nowhere
/// else.
pub proof fn law_parts_are_put_together(parts: Seq<Seq<char>>, part: Seq<char>, sep: Seq<char>)
    ensures
        separated(Seq::empty(), sep) == Seq::<char>::empty(),
        separated(seq![part], sep) == part,
        parts.len() > 0 ==> separated(parts.push(part), sep) == separated(parts, sep) + sep + part,
        flat(Seq::empty()) == Seq::<char>::empty(),
        flat(parts.push(part)) == flat(parts) + part,
{
    assert(parts.push(part).drop_last() =~= parts);
}

/// A number is written with the digits `0` to `9`, the first one no `0` unless it is
/// the only one, and every digit counts ten times the next.
pub proof fn law_numbers_are_written_in_tens(n: nat, d: nat)
    requires
        d < 10,
    ensures
        decimal(d) == seq![(0x30 + d) as char],
        n > 0 ==> decimal(10 * n + d) == decimal(n).push((0x30 + d) as char),
        n > 0 ==> signed_decimal(-(n as int)) == seq!['-'] + decimal(n),
        signed_decimal(n as int) == decimal(n),
{
    assert(hex_lower(d as int) == (0x30 + d) as char);
    if n > 0 {
        assert((10 * n + d) / 10 == n);
        assert((10 * n + d) % 10 == d);
    }
}

/// What is read as a number: digits, with a `+` in front if one likes, up to the
/// largest number allowed.
pub proof fn law_numbers_are_read_from_digits(s: Seq<char>, c: char, max: nat)
    ensures
        parsed_unsigned(Seq::empty(), max) is None,
        parsed_unsigned(seq!['+'], max) is None,
        !('0' <= c <= '9') ==> parsed_unsigned(s.push(c), max) is None,
        !('0' <= c <= '9') ==> parsed_signed(s.push(c)) is None,
        parsed_unsigned(s, max) is Some ==> parsed_unsigned(s, max)->0 <= max,
        parsed_unsigned(s, max) is Some && '0' <= c <= '9' ==> parsed_unsigned(s.push(c), max) == {
            let n = parsed_unsigned(s, max)->0 * 10 + (c as int - 0x30);
            if n <= max {
                Some(n as nat)
            } else {
                None
            }
        },
{
    let t = s.push(c);
    assert(t.drop_last() =~= s);
    assert(t.last() == c);
    assert(seq!['+'].skip(1) =~= Seq::empty());
    if t[0] == '+' && s.len() > 0 {
        assert(s[0] == '+');
        assert(t.skip(1) =~= s.skip(1).push(c));
        assert(t.skip(1).drop_last() =~= s.skip(1));
        assert(t.skip(1).last() == c);
    }
    if s.len() > 0 && (s[0] == '+' || s[0] == '-') {
        assert(t[0] == s[0]);
        assert(t.skip(1) =~= s.skip(1).push(c));
        assert(t.skip(1).drop_last() =~= s.skip(1));
        assert(t.skip(1).last() == c);
    } else if s.len() > 0 {
        assert(t[0] == s[0]);
    } else {
        assert(t[0] == c);
        assert(t.skip(1) =~= Seq::empty());
    }
}

/// A written number starts and ends with a digit or its sign.
pub proof fn law_decimals_have_no_blanks(n: int)
    ensures
        signed_decimal(n).len() > 0,
        !is_space(signed_decimal(n)[0]),
        !is_space(signed_decimal(n).last()),
{
    let m = if n < 0 {
        (-n) as nat
    } else {
        n as nat
    };
    lemma_decimal_digits(m);
    assert(decimal(m).last() == hex_lower((m % 10) as int));
    if n < 0 {
        assert(signed_decimal(n)[0] == '-');
    }
}

/// A sign in front is read as one: a plus changes nothing, a minus turns the number
/// round, and a number that does not fit is none.
pub proof fn law_signs_are_read(digits: Seq<char>, max: nat)
    requires
        digits.len() > 0,
        digits[0] != '+',
        digits[0] != '-',
    ensures
        parsed_unsigned(seq!['+'] + digits, max) == parsed_unsigned(digits, max),
        parsed_unsigned(seq!['-'] + digits, max) is None,
        parsed_signed(seq!['+'] + digits) == parsed_signed(digits),
        parsed_signed(digits) == (match parsed_unsigned(digits, i64::MAX as nat) {
            Some(n) => Some(n as int),
            None => None,
        }),
        parsed_signed(seq!['-'] + digits) == (match parsed_unsigned(
            digits,
            0x8000_0000_0000_0000,
        ) {
            Some(n) => Some(-(n as int)),
            None => None,
        }),
{
    let p = seq!['+'] + digits;
    let m = seq!['-'] + digits;
    assert(p[0] == '+' && m[0] == '-');
    assert(p.skip(1) =~= digits);
    assert(m.skip(1) =~= digits);
    lemma_not_digits(m, 0);
}

/// A character that is no digit spoils a run of digits.
proof fn lemma_not_digits(s: Seq<char>, i: int)
    requires
        0 <= i < s.len(),
        !('0' <= s[i] <= '9'),
    ensures
        digits_value(s) is None,
    decreases s.len(),
{
    if i < s.len() - 1 {
        assert(s.drop_last()[i] == s[i]);
        lemma_not_digits(s.drop_last(), i);
    }
}

} // verus!
