//! Unix paths as byte strings.
//!
//! The server never trusts a path until it has been compared, component by
//! component, with a directory it is allowed to stay in. The rules for taking
//! paths apart stand here, over `Seq<u8>`: separators repeat freely, a `.` counts
//! only in front of a relative path, and a leading `/` is a component of its own.

use vstd::prelude::*;
use vstd::utf8::*;

verus! {

/// The bytes of a path.
pub type PathBytes = Vec<u8>;

pub const SLASH: u8 = 0x2f;

pub const DOT: u8 = 0x2e;

// ---- components ---------------------------------------------------------------

/// The first separator at or after `i`, or the end.
pub open spec fn next_sep(p: Seq<u8>, i: int) -> int
    decreases p.len() - i,
{
    if i >= p.len() || p[i] == SLASH {
        i
    } else {
        next_sep(p, i + 1)
    }
}

/// `p[i..j]` is a component: not empty, and a lone `.` only in front.
pub open spec fn keeps(p: Seq<u8>, i: int, j: int) -> bool {
    i < j && !(i > 0 && j == i + 1 && p[i] == DOT)
}

pub proof fn lemma_next_sep(p: Seq<u8>, i: int)
    requires
        0 <= i <= p.len(),
    ensures
        i <= next_sep(p, i) <= p.len(),
        next_sep(p, i) < p.len() ==> p[next_sep(p, i)] == SLASH,
        forall|k: int| i <= k < next_sep(p, i) ==> p[k] != SLASH,
    decreases p.len() - i,
{
    if i < p.len() && p[i] != SLASH {
        lemma_next_sep(p, i + 1);
    }
}

/// Where the components from `i` on start and end. `i` is the start of a segment.
pub open spec fn spans_from(p: Seq<u8>, i: int) -> Seq<(int, int)>
    decreases p.len() + 1 - i,
{
    if i < 0 || i >= p.len() {
        Seq::empty()
    } else {
        proof {
            lemma_next_sep(p, i);
        }
        let j = next_sep(p, i);
        let rest = spans_from(p, j + 1);
        if keeps(p, i, j) {
            seq![(i, j)] + rest
        } else {
            rest
        }
    }
}

/// A path that starts at the root.
pub open spec fn absolute(p: Seq<u8>) -> bool {
    p.len() > 0 && p[0] == SLASH
}

/// Where the components of a path start and end; the root is the leading `/`.
pub open spec fn spans(p: Seq<u8>) -> Seq<(int, int)> {
    if absolute(p) {
        seq![(0int, 1int)] + spans_from(p, 1)
    } else {
        spans_from(p, 0)
    }
}

/// The components of a path.
pub open spec fn components(p: Seq<u8>) -> Seq<Seq<u8>> {
    spans(p).map_values(|s: (int, int)| p.subrange(s.0, s.1))
}

/// A component that names an entry: neither the root nor `.` nor `..`.
pub open spec fn normal(c: Seq<u8>) -> bool {
    c != seq![SLASH] && c != seq![DOT] && c != seq![DOT, DOT]
}

/// Every component names an entry.
pub open spec fn all_normal(p: Seq<u8>) -> bool {
    forall|k: int| 0 <= k < components(p).len() ==> normal(#[trigger] components(p)[k])
}

/// `p` is `base` or lies below it, component by component.
pub open spec fn within(p: Seq<u8>, base: Seq<u8>) -> bool {
    components(base).is_prefix_of(components(p))
}

/// What follows `base` in `p`.
pub open spec fn stripped(p: Seq<u8>, base: Seq<u8>) -> Option<Seq<u8>> {
    if within(p, base) {
        let k = spans(base).len() as int;
        if k == spans(p).len() {
            Some(Seq::empty())
        } else {
            Some(p.subrange(spans(p)[k].0, spans(p).last().1))
        }
    } else {
        None
    }
}

/// The directory a path is in: nothing for the root and for an empty path.
pub open spec fn parent_of(p: Seq<u8>) -> Option<Seq<u8>> {
    let s = spans(p);
    if s.len() == 0 || (s.len() == 1 && absolute(p)) {
        None
    } else if s.len() == 1 {
        Some(Seq::empty())
    } else {
        Some(p.subrange(0, s[s.len() - 2].1))
    }
}

/// `rel` taken relative to `base`; an absolute `rel` stands alone.
pub open spec fn joined(base: Seq<u8>, rel: Seq<u8>) -> Seq<u8> {
    if absolute(rel) {
        rel
    } else if base.len() == 0 || base.last() == SLASH {
        base + rel
    } else {
        base.push(SLASH) + rel
    }
}

/// A path put together from its components.
pub open spec fn assembled(parts: Seq<Seq<u8>>) -> Seq<u8>
    decreases parts.len(),
{
    if parts.len() == 0 {
        Seq::empty()
    } else {
        joined(assembled(parts.drop_last()), parts.last())
    }
}

/// The last `.` of a name, or -1.
pub open spec fn last_dot(name: Seq<u8>) -> int
    decreases name.len(),
{
    if name.len() == 0 {
        -1
    } else if name.last() == DOT {
        name.len() - 1
    } else {
        last_dot(name.drop_last())
    }
}

/// The extension of the entry a path names: what follows the last `.`, unless
/// that `.` leads the name.
pub open spec fn extension_of(p: Seq<u8>) -> Option<Seq<u8>> {
    let parts = components(p);
    if parts.len() == 0 || !normal(parts.last()) {
        None
    } else if last_dot(parts.last()) <= 0 {
        None
    } else {
        Some(parts.last().skip(last_dot(parts.last()) + 1))
    }
}

/// Some component starts with a dot and names an entry.
pub open spec fn has_hidden(p: Seq<u8>) -> bool {
    exists|k: int|
        0 <= k < components(p).len() && normal(#[trigger] components(p)[k])
            && components(p)[k].len() > 0 && components(p)[k][0] == DOT
}

/// An ASCII byte in lower case.
pub open spec fn lower_byte(b: u8) -> u8 {
    if 0x41 <= b <= 0x5a {
        (b + 0x20) as u8
    } else {
        b
    }
}

/// Equal but for the case of ASCII letters.
pub open spec fn same_ignoring_case(a: Seq<u8>, b: Seq<u8>) -> bool {
    a.len() == b.len() && forall|i: int|
        0 <= i < a.len() ==> lower_byte(#[trigger] a[i]) == lower_byte(b[i])
}

/// The path has this extension, in any case.
pub open spec fn extension_is(p: Seq<u8>, ext: Seq<u8>) -> bool {
    match extension_of(p) {
        Some(e) => same_ignoring_case(e, ext),
        None => false,
    }
}

// ---- taking paths apart -------------------------------------------------------

pub open spec fn int_spans(s: Seq<(usize, usize)>) -> Seq<(int, int)> {
    s.map_values(|t: (usize, usize)| (t.0 as int, t.1 as int))
}

proof fn lemma_spans_from_bounds(p: Seq<u8>, i: int)
    requires
        0 <= i <= p.len() + 1,
    ensures
        forall|k: int|
            0 <= k < spans_from(p, i).len() ==> i <= (#[trigger] spans_from(p, i)[k]).0
                < spans_from(p, i)[k].1 <= p.len(),
        forall|a: int, b: int|
            0 <= a < b < spans_from(p, i).len() ==> (#[trigger] spans_from(p, i)[a]).1 < (
            #[trigger] spans_from(p, i)[b]).0,
    decreases p.len() + 1 - i,
{
    if i < p.len() {
        lemma_next_sep(p, i);
        let j = next_sep(p, i);
        lemma_spans_from_bounds(p, j + 1);
        let rest = spans_from(p, j + 1);
        if keeps(p, i, j) {
            assert(spans_from(p, i) == seq![(i, j)] + rest);
            assert forall|k: int| 0 < k < spans_from(p, i).len() implies #[trigger] spans_from(
                p,
                i,
            )[k] == rest[k - 1] by {}
        }
    }
}

/// Spans stay inside the path, in order.
pub proof fn lemma_spans_bounds(p: Seq<u8>)
    ensures
        forall|k: int|
            0 <= k < spans(p).len() ==> 0 <= (#[trigger] spans(p)[k]).0 < spans(p)[k].1
                <= p.len(),
        forall|a: int, b: int|
            0 <= a < b < spans(p).len() ==> (#[trigger] spans(p)[a]).1 <= (#[trigger] spans(
                p,
            )[b]).0,
{
    lemma_spans_from_bounds(p, 0);
    lemma_spans_from_bounds(p, 1);
}

fn component_spans(p: &[u8]) -> (out: Vec<(usize, usize)>)
    ensures
        int_spans(out@) == spans(p@),
        out@.len() == spans(p@).len(),
{
    let mut out: Vec<(usize, usize)> = Vec::new();
    let n: usize = p.len();
    let mut i: usize = 0;
    if n > 0 && p[0] == SLASH {
        out.push((0, 1));
        i = 1;
    }
    while i < n
        invariant
            n == p@.len(),
            i <= n || i == n + 1,
            int_spans(out@) + spans_from(p@, i as int) == spans(p@),
        decreases n + 1 - i,
    {
        let start: usize = i;
        proof {
            lemma_next_sep(p@, i as int);
        }
        while i < n && p[i] != SLASH
            invariant
                n == p@.len(),
                start <= i <= n,
                next_sep(p@, i as int) == next_sep(p@, start as int),
            decreases n - i,
        {
            i = i + 1;
        }
        let ghost before = int_spans(out@);
        let ghost rest = spans_from(p@, i + 1);
        if start < i && !(start > 0 && i == start + 1 && p[start] == DOT) {
            out.push((start, i));
            assert(int_spans(out@) =~= before.push((start as int, i as int)));
            assert(int_spans(out@) + rest =~= before + (seq![(start as int, i as int)] + rest));
        }
        if i == n {
            assert(rest =~= Seq::empty());
            assert(int_spans(out@) =~= spans(p@));
            return out;
        }
        i = i + 1;
    }
    assert(int_spans(out@) =~= spans(p@));
    out
}

/// `a[from..to]`, copied.
pub fn slice_of(a: &[u8], from: usize, to: usize) -> (out: Vec<u8>)
    requires
        from <= to <= a@.len(),
    ensures
        out@ == a@.subrange(from as int, to as int),
{
    let mut out: Vec<u8> = Vec::new();
    let mut i: usize = from;
    while i < to
        invariant
            from <= i <= to <= a@.len(),
            out@ == a@.subrange(from as int, i as int),
        decreases to - i,
    {
        out.push(a[i]);
        i = i + 1;
    }
    out
}

/// A copy of a byte string.
pub fn bytes_copy(a: &[u8]) -> (out: Vec<u8>)
    ensures
        out@ == a@,
{
    let out = slice_of(a, 0, a.len());
    assert(out@ =~= a@);
    out
}

/// `a[i..j]` and `b[k..l]` are the same bytes.
fn same_range(a: &[u8], i: usize, j: usize, b: &[u8], k: usize, l: usize) -> (r: bool)
    requires
        i <= j <= a@.len(),
        k <= l <= b@.len(),
    ensures
        r == (a@.subrange(i as int, j as int) == b@.subrange(k as int, l as int)),
{
    let ghost x = a@.subrange(i as int, j as int);
    let ghost y = b@.subrange(k as int, l as int);
    if j - i != l - k {
        assert(x.len() != y.len());
        return false;
    }
    let mut n: usize = 0;
    while n < j - i
        invariant
            i <= j <= a@.len(),
            k <= l <= b@.len(),
            j - i == l - k,
            n <= j - i,
            x == a@.subrange(i as int, j as int),
            y == b@.subrange(k as int, l as int),
            forall|m: int| 0 <= m < n ==> x[m] == y[m],
        decreases j - i - n,
    {
        if a[i + n] != b[k + n] {
            assert(x[n as int] != y[n as int]);
            return false;
        }
        n = n + 1;
    }
    assert(x =~= y);
    true
}

/// The same bytes.
pub fn same_bytes(a: &[u8], b: &[u8]) -> (r: bool)
    ensures
        r == (a@ == b@),
{
    let r = same_range(a, 0, a.len(), b, 0, b.len());
    assert(a@.subrange(0, a@.len() as int) =~= a@);
    assert(b@.subrange(0, b@.len() as int) =~= b@);
    r
}

/// Whether a path starts at the root.
pub fn is_absolute(p: &[u8]) -> (r: bool)
    ensures
        r == absolute(p@),
{
    p.len() > 0 && p[0] == SLASH
}

/// Whether `p` is `base` or lies below it.
pub fn starts_with(p: &[u8], base: &[u8]) -> (r: bool)
    ensures
        r == within(p@, base@),
{
    let ps = component_spans(p);
    let bs = component_spans(base);
    proof {
        lemma_spans_bounds(p@);
        lemma_spans_bounds(base@);
    }
    if bs.len() > ps.len() {
        return false;
    }
    let mut k: usize = 0;
    while k < bs.len()
        invariant
            k <= bs@.len() <= ps@.len(),
            int_spans(ps@) == spans(p@),
            int_spans(bs@) == spans(base@),
            forall|m: int|
                0 <= m < spans(p@).len() ==> 0 <= (#[trigger] spans(p@)[m]).0 < spans(p@)[m].1
                    <= p@.len(),
            forall|m: int|
                0 <= m < spans(base@).len() ==> 0 <= (#[trigger] spans(base@)[m]).0 < spans(
                    base@,
                )[m].1 <= base@.len(),
            forall|m: int| 0 <= m < k ==> components(p@)[m] == #[trigger] components(base@)[m],
        decreases bs@.len() - k,
    {
        assert(int_spans(ps@)[k as int] == spans(p@)[k as int]);
        assert(int_spans(bs@)[k as int] == spans(base@)[k as int]);
        let (i, j) = ps[k];
        let (a, b) = bs[k];
        let same = same_range(p, i, j, base, a, b);
        if !same {
            assert(components(p@)[k as int] != components(base@)[k as int]);
            return false;
        }
        assert(components(p@)[k as int] == components(base@)[k as int]);
        k = k + 1;
    }
    assert(components(base@) =~= components(p@).take(components(base@).len() as int));
    true
}

/// What follows `base` in `p`, if `p` is within it.
pub fn strip_prefix(p: &[u8], base: &[u8]) -> (r: Option<PathBytes>)
    ensures
        match r {
            Some(rest) => stripped(p@, base@) == Some(rest@),
            None => stripped(p@, base@) is None,
        },
{
    if !starts_with(p, base) {
        return None;
    }
    let ps = component_spans(p);
    let bs = component_spans(base);
    proof {
        lemma_spans_bounds(p@);
        assert(components(base@).len() <= components(p@).len());
    }
    let k: usize = bs.len();
    if k == ps.len() {
        let empty: Vec<u8> = Vec::new();
        assert(empty@ =~= Seq::empty());
        return Some(empty);
    }
    let last: usize = ps.len() - 1;
    assert(int_spans(ps@)[k as int] == spans(p@)[k as int]);
    assert(int_spans(ps@)[last as int] == spans(p@)[last as int]);
    assert(spans(p@)[k as int].0 <= spans(p@)[last as int].1);
    Some(slice_of(p, ps[k].0, ps[last].1))
}

/// The directory a path is in.
pub fn parent(p: &[u8]) -> (r: Option<PathBytes>)
    ensures
        match r {
            Some(dir) => parent_of(p@) == Some(dir@),
            None => parent_of(p@) is None,
        },
{
    let ps = component_spans(p);
    proof {
        lemma_spans_bounds(p@);
    }
    if ps.len() == 0 || (ps.len() == 1 && is_absolute(p)) {
        return None;
    }
    if ps.len() == 1 {
        let empty: Vec<u8> = Vec::new();
        assert(empty@ =~= Seq::empty());
        return Some(empty);
    }
    let k: usize = ps.len() - 2;
    assert(int_spans(ps@)[k as int] == spans(p@)[k as int]);
    Some(slice_of(p, 0, ps[k].1))
}

/// `rel` taken relative to `base`.
pub fn join(base: &[u8], rel: &[u8]) -> (r: PathBytes)
    ensures
        r@ == joined(base@, rel@),
{
    if is_absolute(rel) {
        return bytes_copy(rel);
    }
    let mut out = bytes_copy(base);
    if base.len() > 0 && base[base.len() - 1] != SLASH {
        out.push(SLASH);
    }
    out.extend_from_slice(rel);
    out
}

/// Whether the component at `p[i..j]` names an entry.
fn span_is_normal(p: &[u8], i: usize, j: usize) -> (r: bool)
    requires
        i < j <= p@.len(),
    ensures
        r == normal(p@.subrange(i as int, j as int)),
{
    let ghost c = p@.subrange(i as int, j as int);
    assert(c[0] == p@[i as int]);
    assert(seq![SLASH].len() == 1 && seq![SLASH][0] == SLASH);
    assert(seq![DOT].len() == 1 && seq![DOT][0] == DOT);
    assert(seq![DOT, DOT].len() == 2 && seq![DOT, DOT][0] == DOT && seq![DOT, DOT][1] == DOT);
    if j - i == 1 {
        assert(c.len() == 1);
        if p[i] == SLASH {
            assert(c =~= seq![SLASH]);
            false
        } else if p[i] == DOT {
            assert(c =~= seq![DOT]);
            false
        } else {
            true
        }
    } else if j - i == 2 {
        assert(c[1] == p@[i + 1]);
        if p[i] == DOT && p[i + 1] == DOT {
            assert(c =~= seq![DOT, DOT]);
            false
        } else {
            true
        }
    } else {
        true
    }
}

/// Whether every component names an entry.
pub fn is_all_normal(p: &[u8]) -> (r: bool)
    ensures
        r == all_normal(p@),
{
    let ps = component_spans(p);
    proof {
        lemma_spans_bounds(p@);
    }
    let mut k: usize = 0;
    while k < ps.len()
        invariant
            k <= ps@.len(),
            ps@.len() == spans(p@).len(),
            int_spans(ps@) == spans(p@),
            forall|m: int|
                0 <= m < spans(p@).len() ==> 0 <= (#[trigger] spans(p@)[m]).0 < spans(p@)[m].1
                    <= p@.len(),
            forall|m: int| 0 <= m < k ==> normal(#[trigger] components(p@)[m]),
        decreases ps@.len() - k,
    {
        assert(int_spans(ps@)[k as int] == spans(p@)[k as int]);
        let (i, j) = ps[k];
        let ok = span_is_normal(p, i, j);
        assert(components(p@)[k as int] == p@.subrange(i as int, j as int));
        if !ok {
            return false;
        }
        k = k + 1;
    }
    true
}

/// Whether some component is a hidden entry.
pub fn is_hidden(p: &[u8]) -> (r: bool)
    ensures
        r == has_hidden(p@),
{
    let ps = component_spans(p);
    proof {
        lemma_spans_bounds(p@);
    }
    let mut k: usize = 0;
    while k < ps.len()
        invariant
            k <= ps@.len(),
            ps@.len() == spans(p@).len(),
            int_spans(ps@) == spans(p@),
            forall|m: int|
                0 <= m < spans(p@).len() ==> 0 <= (#[trigger] spans(p@)[m]).0 < spans(p@)[m].1
                    <= p@.len(),
            forall|m: int|
                0 <= m < k ==> !(normal(#[trigger] components(p@)[m]) && components(p@)[m].len()
                    > 0 && components(p@)[m][0] == DOT),
        decreases ps@.len() - k,
    {
        assert(int_spans(ps@)[k as int] == spans(p@)[k as int]);
        let (i, j) = ps[k];
        let names = span_is_normal(p, i, j);
        assert(components(p@)[k as int] == p@.subrange(i as int, j as int));
        assert(components(p@)[k as int][0] == p@[i as int]);
        if names && p[i] == DOT {
            return true;
        }
        k = k + 1;
    }
    false
}

fn lower_ascii(b: u8) -> (r: u8)
    ensures
        r == lower_byte(b),
{
    if 0x41 <= b && b <= 0x5a {
        b + 0x20
    } else {
        b
    }
}

/// Equal but for the case of ASCII letters.
pub fn eq_ignore_ascii_case(a: &[u8], b: &[u8]) -> (r: bool)
    ensures
        r == same_ignoring_case(a@, b@),
{
    if a.len() != b.len() {
        return false;
    }
    let mut i: usize = 0;
    while i < a.len()
        invariant
            i <= a@.len(),
            a@.len() == b@.len(),
            forall|k: int| 0 <= k < i ==> lower_byte(#[trigger] a@[k]) == lower_byte(b@[k]),
        decreases a@.len() - i,
    {
        if lower_ascii(a[i]) != lower_ascii(b[i]) {
            assert(lower_byte(a@[i as int]) != lower_byte(b@[i as int]));
            return false;
        }
        i = i + 1;
    }
    true
}

proof fn lemma_last_dot(name: Seq<u8>, k: int)
    requires
        0 <= k <= name.len(),
        forall|m: int| k <= m < name.len() ==> name[m] != DOT,
    ensures
        last_dot(name) == last_dot(name.take(k)),
    decreases name.len() - k,
{
    if k == name.len() {
        assert(name.take(k) =~= name);
    } else {
        assert(name.last() == name[name.len() - 1]);
        lemma_last_dot(name.drop_last(), k);
        assert(name.drop_last().take(k) =~= name.take(k));
    }
}

/// The extension of the entry a path names.
pub fn extension(p: &[u8]) -> (r: Option<Vec<u8>>)
    ensures
        match r {
            Some(e) => extension_of(p@) == Some(e@),
            None => extension_of(p@) is None,
        },
{
    let ps = component_spans(p);
    proof {
        lemma_spans_bounds(p@);
    }
    if ps.len() == 0 {
        return None;
    }
    let last: usize = ps.len() - 1;
    assert(int_spans(ps@)[last as int] == spans(p@)[last as int]);
    let (i, j) = ps[last];
    let ghost name = p@.subrange(i as int, j as int);
    assert(components(p@).last() == name);
    if !span_is_normal(p, i, j) {
        return None;
    }
    let mut k: usize = j;
    while k > i
        invariant
            i <= k <= j <= p@.len(),
            name == p@.subrange(i as int, j as int),
            components(p@).len() > 0,
            components(p@).last() == name,
            normal(name),
            forall|m: int| k - i <= m < name.len() ==> name[m] != DOT,
        decreases k,
    {
        if p[k - 1] == DOT {
            let ghost at = k - 1 - i;
            proof {
                lemma_last_dot(name, k - i);
                assert(name.take(k - i).last() == DOT);
                assert(last_dot(name) == at);
            }
            if k - 1 == i {
                return None;
            }
            let e = slice_of(p, k, j);
            assert(e@ =~= name.skip(at + 1));
            return Some(e);
        }
        assert(name[k - 1 - i] == p@[k - 1]);
        k = k - 1;
    }
    proof {
        lemma_last_dot(name, 0);
        assert(name.take(0) =~= Seq::empty());
    }
    None
}

/// Whether a path has this extension, in any case.
pub fn has_extension(p: &[u8], ext: &[u8]) -> (r: bool)
    ensures
        r == extension_is(p@, ext@),
{
    match extension(p) {
        Some(e) => eq_ignore_ascii_case(e.as_slice(), ext),
        None => false,
    }
}

/// A Lua source file.
pub open spec fn lua_file(p: Seq<u8>) -> bool {
    extension_is(p, encode_utf8("lua"@))
}

/// A template.
pub open spec fn lhtml_file(p: Seq<u8>) -> bool {
    extension_is(p, encode_utf8("lhtml"@))
}

/// Whether a path names a Lua source file.
pub fn is_lua(p: &[u8]) -> (r: bool)
    ensures
        r == lua_file(p@),
{
    has_extension(p, "lua".as_bytes())
}

/// Whether a path names a template.
pub fn is_lhtml(p: &[u8]) -> (r: bool)
    ensures
        r == lhtml_file(p@),
{
    has_extension(p, "lhtml".as_bytes())
}

// ---- lexical form -------------------------------------------------------------

/// Every component is the root or names an entry.
pub open spec fn plain(p: Seq<u8>) -> bool {
    forall|k: int|
        0 <= k < components(p).len() ==> (#[trigger] components(p)[k] == seq![SLASH] || normal(
            components(p)[k],
        ))
}

/// A path without `.` and repeated separators; none for one that has a `.` in
/// front or a `..` anywhere.
pub open spec fn lexical_of(p: Seq<u8>) -> Option<Seq<u8>> {
    if plain(p) {
        Some(assembled(components(p)))
    } else {
        None
    }
}

/// `p` goes on after `root` at a separator.
pub open spec fn continues(p: Seq<u8>, root: Seq<u8>) -> bool {
    root.is_prefix_of(p) && ((p.len() > root.len() && p[root.len() as int] == SLASH) || (root.len()
        > 0 && root.last() == SLASH))
}

/// `p` is `root` or goes on after it at a separator.
pub open spec fn lies_beneath(p: Seq<u8>, root: Seq<u8>) -> bool {
    p == root || continues(p, root)
}

/// `path` without `.` and repeated separators, or `None` if it has a `..`.
pub fn lexical(p: &[u8]) -> (r: Option<PathBytes>)
    ensures
        match r {
            Some(out) => lexical_of(p@) == Some(out@),
            None => lexical_of(p@) is None,
        },
{
    let ps = component_spans(p);
    proof {
        lemma_spans_bounds(p@);
    }
    let mut out: Vec<u8> = Vec::new();
    let mut k: usize = 0;
    assert(components(p@).take(0) =~= Seq::empty());
    assert(out@ =~= Seq::empty());
    while k < ps.len()
        invariant
            k <= ps@.len(),
            ps@.len() == spans(p@).len(),
            int_spans(ps@) == spans(p@),
            forall|m: int|
                0 <= m < spans(p@).len() ==> 0 <= (#[trigger] spans(p@)[m]).0 < spans(p@)[m].1
                    <= p@.len(),
            forall|m: int|
                0 <= m < k ==> (#[trigger] components(p@)[m] == seq![SLASH] || normal(
                    components(p@)[m],
                )),
            out@ == assembled(components(p@).take(k as int)),
        decreases ps@.len() - k,
    {
        assert(int_spans(ps@)[k as int] == spans(p@)[k as int]);
        let (i, j) = ps[k];
        let part = slice_of(p, i, j);
        let ghost c = components(p@)[k as int];
        assert(c == part@);
        let root = part.len() == 1 && part[0] == SLASH;
        assert(root == (c == seq![SLASH])) by {
            if root {
                assert(c =~= seq![SLASH]);
            } else {
                assert(seq![SLASH].len() == 1 && seq![SLASH][0] == SLASH);
            }
        }
        if !root && !span_is_normal(p, i, j) {
            return None;
        }
        assert(components(p@).take(k + 1).drop_last() =~= components(p@).take(k as int));
        out = join(out.as_slice(), part.as_slice());
        k = k + 1;
    }
    assert(components(p@).take(k as int) =~= components(p@));
    Some(out)
}

/// [`starts_with`] for paths in lexical form, without taking them apart.
pub fn beneath(p: &[u8], root: &[u8]) -> (r: bool)
    ensures
        r == lies_beneath(p@, root@),
{
    let n: usize = root.len();
    if p.len() < n {
        return false;
    }
    let same = same_range(p, 0, n, root, 0, n);
    assert(root@.subrange(0, n as int) =~= root@);
    assert(same == root@.is_prefix_of(p@));
    if !same {
        return false;
    }
    if p.len() == n {
        assert(p@ =~= root@);
        return true;
    }
    p[n] == SLASH || (n > 0 && root[n - 1] == SLASH)
}

// ---- laws ---------------------------------------------------------------------

proof fn lemma_next_sep_unique(p: Seq<u8>, i: int, j: int)
    requires
        0 <= i <= j <= p.len(),
        j < p.len() ==> p[j] == SLASH,
        forall|k: int| i <= k < j ==> p[k] != SLASH,
    ensures
        next_sep(p, i) == j,
    decreases j - i,
{
    if i < j {
        lemma_next_sep_unique(p, i + 1, j);
    }
}

/// In front of a separator a path is taken apart as if it ended there.
proof fn lemma_spans_front(p: Seq<u8>, q: Seq<u8>, i: int)
    requires
        0 <= i <= p.len() < q.len(),
        p.is_prefix_of(q),
        q[p.len() as int] == SLASH,
    ensures
        spans_from(q, i) == spans_from(p, i) + spans_from(q, p.len() as int + 1),
    decreases p.len() - i,
{
    let n = p.len() as int;
    let tail = spans_from(q, n + 1);
    assert forall|k: int| 0 <= k < n implies q[k] == p[k] by {
        assert(q.subrange(0, n)[k] == q[k]);
    }
    if i == n {
        assert(next_sep(q, n) == n);
        assert(spans_from(p, n) + tail =~= tail);
    } else {
        lemma_next_sep(p, i);
        let j = next_sep(p, i);
        lemma_next_sep_unique(q, i, j);
        if j == n {
            assert(spans_from(p, n + 1) =~= Seq::empty());
            assert(spans_from(p, i) + tail =~= spans_from(q, i));
        } else {
            lemma_spans_front(p, q, j + 1);
            if keeps(p, i, j) {
                assert(seq![(i, j)] + (spans_from(p, j + 1) + tail) =~= seq![(i, j)] + spans_from(
                    p,
                    j + 1,
                ) + tail);
            }
        }
    }
}

spec fn shifted(s: Seq<(int, int)>, m: int) -> Seq<(int, int)> {
    s.map_values(|t: (int, int)| (t.0 + m, t.1 + m))
}

/// Behind a separator a path is taken apart as if it started there.
proof fn lemma_spans_back(r: Seq<u8>, q: Seq<u8>, m: int, k: int)
    requires
        0 < m <= q.len(),
        q.skip(m) == r,
        0 <= k <= r.len() + 1,
        k > 0 || r.len() == 0 || !(next_sep(r, 0) == 1 && r[0] == DOT),
    ensures
        spans_from(q, m + k) == shifted(spans_from(r, k), m),
    decreases r.len() + 1 - k,
{
    assert forall|x: int| 0 <= x < r.len() implies q[m + x] == r[x] by {
        assert(q.skip(m)[x] == q[m + x]);
    }
    if k < r.len() {
        lemma_next_sep(r, k);
        let j = next_sep(r, k);
        assert forall|x: int| m + k <= x < m + j implies q[x] != SLASH by {
            assert(r[x - m] != SLASH);
        }
        lemma_next_sep_unique(q, m + k, m + j);
        lemma_spans_back(r, q, m, j + 1);
        let rest = spans_from(r, j + 1);
        assert(spans_from(q, m + k) =~= shifted(spans_from(r, k), m));
    } else {
        assert(spans_from(q, m + k) =~= shifted(spans_from(r, k), m));
    }
}

/// The first component of a relative path.
proof fn lemma_first_component(p: Seq<u8>)
    requires
        p.len() > 0,
        !absolute(p),
    ensures
        components(p).len() > 0,
        components(p)[0] == p.subrange(0, next_sep(p, 0)),
        0 < next_sep(p, 0) <= p.len(),
{
    lemma_next_sep(p, 0);
    let j = next_sep(p, 0);
    assert(keeps(p, 0, j));
    assert(spans(p)[0] == (0int, j));
}

/// Below an absolute path, a relative one adds its components.
pub proof fn law_join_adds_components(base: Seq<u8>, rel: Seq<u8>)
    requires
        absolute(base),
        !absolute(rel),
        components(rel).len() > 0 ==> components(rel)[0] != seq![DOT],
    ensures
        components(joined(base, rel)) == components(base) + components(rel),
{
    let q = joined(base, rel);
    let m = (q.len() - rel.len()) as int;
    assert(q.skip(m) =~= rel);
    assert(base.is_prefix_of(q));
    assert(q[0] == base[0]);
    // in front: the spans of `base` are those of `q` up to `m`
    if base.last() != SLASH {
        lemma_spans_front(base, q, 1);
        assert(spans_from(q, 1) == spans_from(base, 1) + spans_from(q, m));
    } else if base.len() == 1 {
        assert(spans_from(base, 1) =~= Seq::empty());
        assert(spans_from(base, 1) + spans_from(q, m) =~= spans_from(q, 1));
    } else {
        let p = base.drop_last();
        assert(p.is_prefix_of(base));
        assert(p.is_prefix_of(q));
        lemma_spans_front(p, q, 1);
        lemma_spans_front(p, base, 1);
        assert(spans_from(base, m) =~= Seq::empty());
        assert(spans_from(base, 1) =~= spans_from(p, 1));
    }
    // behind: those of `rel`
    if rel.len() > 0 {
        lemma_first_component(rel);
        if next_sep(rel, 0) == 1 && rel[0] == DOT {
            assert(rel.subrange(0, 1) =~= seq![DOT]);
        }
    }
    lemma_spans_back(rel, q, m, 0);
    assert(spans(q) =~= spans(base) + shifted(spans(rel), m));
    lemma_spans_bounds(base);
    lemma_spans_bounds(rel);
    let n = spans(base).len();
    assert forall|k: int| 0 <= k < spans(q).len() implies #[trigger] components(q)[k] == (
    components(base) + components(rel))[k] by {
        if k < n {
            let t = spans(base)[k];
            assert(q.subrange(t.0, t.1) =~= base.subrange(t.0, t.1));
        } else {
            let t = spans(rel)[k - n];
            assert(spans(q)[k] == (t.0 + m, t.1 + m));
            assert(q.subrange(t.0 + m, t.1 + m) =~= rel.subrange(t.0, t.1));
        }
    }
    assert(components(q) =~= components(base) + components(rel));
}

/// Confinement: a path whose every component names an entry, taken relative to a
/// directory, lies within that directory.
pub proof fn law_normal_paths_stay_within(base: Seq<u8>, rel: Seq<u8>)
    requires
        absolute(base),
        all_normal(rel),
    ensures
        within(joined(base, rel), base),
        components(joined(base, rel)) == components(base) + components(rel),
{
    lemma_all_normal_is_relative(rel);
    law_join_adds_components(base, rel);
    assert(components(base).is_prefix_of(components(base) + components(rel)));
}

proof fn lemma_all_normal_is_relative(rel: Seq<u8>)
    requires
        all_normal(rel),
    ensures
        !absolute(rel),
{
    if absolute(rel) {
        assert(components(rel)[0] == rel.subrange(0, 1));
        assert(rel.subrange(0, 1) =~= seq![SLASH]);
        assert(!normal(components(rel)[0]));
    }
}

/// Being within a directory carries over from a directory inside it.
pub proof fn law_within_is_transitive(p: Seq<u8>, dir: Seq<u8>, base: Seq<u8>)
    requires
        within(p, dir),
        within(dir, base),
    ensures
        within(p, base),
{
    let a = components(base);
    let b = components(dir);
    let c = components(p);
    assert(a =~= c.take(a.len() as int));
}

/// Components other than the root hold no separator.
proof fn lemma_no_slash_from(p: Seq<u8>, i: int)
    requires
        0 <= i <= p.len() + 1,
    ensures
        forall|k: int, x: int|
            0 <= k < spans_from(p, i).len() && (#[trigger] spans_from(p, i)[k]).0 <= x
                < spans_from(p, i)[k].1 ==> #[trigger] p[x] != SLASH,
    decreases p.len() + 1 - i,
{
    if i < p.len() {
        lemma_next_sep(p, i);
        let j = next_sep(p, i);
        lemma_no_slash_from(p, j + 1);
        let rest = spans_from(p, j + 1);
        assert forall|k: int, x: int|
            0 <= k < spans_from(p, i).len() && (#[trigger] spans_from(p, i)[k]).0 <= x
                < spans_from(p, i)[k].1 implies #[trigger] p[x] != SLASH by {
            if keeps(p, i, j) {
                if k > 0 {
                    assert(spans_from(p, i)[k] == rest[k - 1]);
                }
            } else {
                assert(spans_from(p, i)[k] == rest[k]);
            }
        }
    }
}

/// A name: not empty, no separator, neither `.` nor `..`.
spec fn is_name(c: Seq<u8>) -> bool {
    c.len() > 0 && normal(c) && forall|x: int| 0 <= x < c.len() ==> c[x] != SLASH
}

/// The components of a plain absolute path: the root, then names.
proof fn lemma_plain_components(p: Seq<u8>)
    requires
        absolute(p),
        plain(p),
    ensures
        components(p).len() > 0,
        components(p)[0] == seq![SLASH],
        forall|k: int| 0 < k < components(p).len() ==> is_name(#[trigger] components(p)[k]),
{
    lemma_spans_bounds(p);
    lemma_no_slash_from(p, 1);
    assert(p.subrange(0, 1) =~= seq![SLASH]);
    assert forall|k: int| 0 < k < components(p).len() implies is_name(
        #[trigger] components(p)[k],
    ) by {
        let t = spans(p)[k];
        assert(t == spans_from(p, 1)[k - 1]);
        let c = components(p)[k];
        assert(c == p.subrange(t.0, t.1));
        assert forall|x: int| 0 <= x < c.len() implies c[x] != SLASH by {
            assert(c[x] == p[t.0 + x]);
        }
        assert(seq![SLASH][0] == SLASH);
        assert(c[0] != SLASH);
    }
}

/// A name is its own only component.
proof fn lemma_name_components(c: Seq<u8>)
    requires
        is_name(c),
    ensures
        !absolute(c),
        components(c) == seq![c],
{
    lemma_next_sep_unique(c, 0, c.len() as int);
    assert(spans_from(c, c.len() as int + 1) =~= Seq::empty());
    assert(spans(c) =~= seq![(0int, c.len() as int)]);
    assert(c.subrange(0, c.len() as int) =~= c);
    assert(components(c) =~= seq![c]);
}

/// The root followed by names is taken apart into just those.
proof fn lemma_assembled(parts: Seq<Seq<u8>>)
    requires
        parts.len() > 0,
        parts[0] == seq![SLASH],
        forall|k: int| 0 < k < parts.len() ==> is_name(#[trigger] parts[k]),
    ensures
        absolute(assembled(parts)),
        components(assembled(parts)) == parts,
    decreases parts.len(),
{
    let front = parts.drop_last();
    if parts.len() == 1 {
        assert(front =~= Seq::empty());
        assert(assembled(front) =~= Seq::empty());
        let p = assembled(parts);
        assert(p =~= seq![SLASH]);
        assert(spans_from(p, 1) =~= Seq::empty());
        assert(spans(p) =~= seq![(0int, 1int)]);
        assert(p.subrange(0, 1) =~= p);
        assert(components(p) =~= parts);
    } else {
        lemma_assembled(front);
        let c = parts.last();
        assert(is_name(parts[parts.len() - 1]));
        lemma_name_components(c);
        law_join_adds_components(assembled(front), c);
        assert(front + seq![c] =~= parts);
    }
}

/// The lexical form of an absolute path has the path's own components, and is
/// its own lexical form.
pub proof fn law_lexical_keeps_components(p: Seq<u8>)
    requires
        absolute(p),
        lexical_of(p) is Some,
    ensures
        absolute(lexical_of(p)->0),
        components(lexical_of(p)->0) == components(p),
        lexical_of(lexical_of(p)->0) == lexical_of(p),
{
    lemma_plain_components(p);
    lemma_assembled(components(p));
}

/// What is assembled from more names continues what is assembled from fewer.
proof fn lemma_assembled_prefix(parts: Seq<Seq<u8>>, k: int)
    requires
        0 < k <= parts.len(),
        parts[0] == seq![SLASH],
        forall|m: int| 0 < m < parts.len() ==> is_name(#[trigger] parts[m]),
    ensures
        k < parts.len() ==> continues(assembled(parts), assembled(parts.take(k))),
        assembled(parts.take(k)).is_prefix_of(assembled(parts)),
    decreases parts.len(),
{
    if k == parts.len() {
        assert(parts.take(k) =~= parts);
        assert(assembled(parts).is_prefix_of(assembled(parts)));
    } else {
        let front = parts.drop_last();
        lemma_assembled_prefix(front, k);
        assert(front.take(k) =~= parts.take(k));
        let root = assembled(parts.take(k));
        let mid = assembled(front);
        let p = assembled(parts);
        lemma_assembled(front);
        assert(is_name(parts[parts.len() - 1]));
        assert(p == joined(mid, parts.last()));
        assert(mid.is_prefix_of(p));
        assert(root =~= p.take(root.len() as int));
        if k == front.len() {
            assert(parts.take(k) =~= front);
        } else {
            assert(p[root.len() as int] == mid[root.len() as int] || root.last() == SLASH);
        }
    }
}

/// A component ends at a separator or with the path.
proof fn lemma_span_ends(p: Seq<u8>, i: int)
    requires
        0 <= i,
    ensures
        forall|k: int|
            0 <= k < spans_from(p, i).len() && (#[trigger] spans_from(p, i)[k]).1 < p.len()
                ==> p[spans_from(p, i)[k].1] == SLASH,
    decreases p.len() + 1 - i,
{
    if i < p.len() {
        lemma_next_sep(p, i);
        let j = next_sep(p, i);
        lemma_span_ends(p, j + 1);
        let rest = spans_from(p, j + 1);
        if keeps(p, i, j) {
            assert(spans_from(p, i) == seq![(i, j)] + rest);
            assert forall|k: int|
                0 <= k < spans_from(p, i).len() && (#[trigger] spans_from(p, i)[k]).1
                    < p.len() implies p[spans_from(p, i)[k].1] == SLASH by {
                if k > 0 {
                    assert(spans_from(p, i)[k] == rest[k - 1]);
                }
            }
        }
    }
}

/// The root is the first component of an absolute path.
pub proof fn lemma_absolute_has_root(p: Seq<u8>)
    requires
        absolute(p),
    ensures
        components(p).len() > 0,
        components(p)[0] == seq![SLASH],
{
    assert(spans(p)[0] == (0int, 1int));
    assert(p.subrange(0, 1) =~= seq![SLASH]);
}

/// The parent of a path has its components but for the last.
pub proof fn law_parent_drops_the_last(p: Seq<u8>)
    ensures
        parent_of(p) matches Some(q) ==> components(p).len() > 0 && components(q) == components(
            p,
        ).drop_last(),
        parent_of(p) is None ==> components(p).len() == 0 || components(p) == seq![seq![SLASH]],
{
    let s = spans(p);
    let n = s.len() as int;
    lemma_spans_bounds(p);
    match parent_of(p) {
        None => {
            if n == 1 {
                lemma_absolute_has_root(p);
                assert(components(p) =~= seq![seq![SLASH]]);
            }
        },
        Some(q) => {
            if n == 1 {
                assert(spans_from(q, 0) =~= Seq::empty());
                assert(components(q) =~= components(p).drop_last());
            } else {
                let e = s[n - 2].1;
                assert(q == p.subrange(0, e));
                assert(s[n - 2].1 <= s[n - 1].0 < s[n - 1].1 <= p.len());
                if absolute(p) && n == 2 {
                    assert(s[0] == (0int, 1int));
                    assert(q =~= seq![SLASH]);
                    assert(spans_from(q, 1) =~= Seq::empty());
                    assert(spans(q) =~= seq![(0int, 1int)]);
                    assert(q.subrange(0, 1) =~= p.subrange(0, 1));
                    assert(components(q) =~= components(p).drop_last());
                } else {
                    lemma_span_ends(p, 0);
                    lemma_span_ends(p, 1);
                    let from: int = if absolute(p) {
                        1
                    } else {
                        0
                    };
                    if absolute(p) {
                        assert(s[n - 2] == spans_from(p, 1)[n - 3]);
                        assert(s[0].1 <= s[n - 2].0);
                    }
                    assert(p[e] == SLASH);
                    assert(q.is_prefix_of(p));
                    assert(q[0] == p[0]);
                    lemma_spans_front(q, p, from);
                    let tail = spans_from(p, e + 1);
                    assert(s =~= spans(q) + tail);
                    lemma_spans_bounds(q);
                    lemma_spans_from_bounds(p, e + 1);
                    let m = spans(q).len() as int;
                    if n - 2 >= m {
                        assert(s[n - 2] == tail[n - 2 - m]);
                    }
                    if n - 1 < m {
                        assert(s[n - 1] == spans(q)[n - 1]);
                    }
                    assert(m == n - 1);
                    assert forall|k: int| 0 <= k < m implies components(q)[k] == components(
                        p,
                    )[k] by {
                        assert(s[k] == spans(q)[k]);
                        assert(q.subrange(s[k].0, s[k].1) =~= p.subrange(s[k].0, s[k].1));
                    }
                    assert(components(q) =~= components(p).drop_last());
                }
            }
        },
    }
}

/// For paths in lexical form, comparing bytes decides what comparing components
/// decides.
pub proof fn law_beneath_is_within(p: Seq<u8>, root: Seq<u8>)
    requires
        absolute(p),
        absolute(root),
        lexical_of(p) == Some(p),
        lexical_of(root) == Some(root),
    ensures
        lies_beneath(p, root) <==> within(p, root),
{
    lemma_plain_components(p);
    lemma_plain_components(root);
    if lies_beneath(p, root) {
        lemma_beneath_within(p, root);
    }
    if within(p, root) {
        let k = components(root).len() as int;
        assert(components(p).take(k) =~= components(root));
        lemma_assembled_prefix(components(p), k);
        if k == components(p).len() {
            assert(components(p).take(k) =~= components(p));
        }
    }
}

proof fn lemma_beneath_within(p: Seq<u8>, root: Seq<u8>)
    requires
        absolute(root),
        lies_beneath(p, root),
    ensures
        within(p, root),
{
    let n = root.len() as int;
    assert(p[0] == root[0]);
    let tail = if p == root {
        Seq::empty()
    } else if p.len() > root.len() && p[n] == SLASH {
        lemma_spans_front(root, p, 1);
        spans_from(p, n + 1)
    } else if n == 1 {
        assert(spans_from(root, 1) =~= Seq::empty());
        spans_from(p, 1)
    } else {
        let q = root.drop_last();
        assert(q.is_prefix_of(root));
        assert(q.is_prefix_of(p));
        lemma_spans_front(q, root, 1);
        lemma_spans_front(q, p, 1);
        assert(spans_from(root, n) =~= Seq::empty());
        assert(spans_from(root, 1) =~= spans_from(q, 1));
        spans_from(p, n)
    };
    assert(spans(p) =~= spans(root) + tail);
    lemma_spans_bounds(root);
    assert forall|k: int| 0 <= k < components(root).len() implies #[trigger] components(root)[k]
        == components(p)[k] by {
        let t = spans(root)[k];
        assert(spans(p)[k] == t);
        assert(p.subrange(t.0, t.1) =~= root.subrange(t.0, t.1));
    }
    assert(components(root) =~= components(p).take(components(root).len() as int));
}

// ---- what paths are made of -------------------------------------------------------

/// What stands behind a separator adds its components, whether the path in front is
/// absolute or not.
pub proof fn law_components_part_at_slashes(p: Seq<u8>, rel: Seq<u8>)
    requires
        p.len() > 0,
        rel.len() > 0 ==> rel[0] != 0x2f,
        rel.len() > 0 && rel[0] == 0x2e ==> rel.len() > 1 && rel[1] != 0x2f,
    ensures
        components(p + seq![0x2fu8] + rel) == components(p) + components(rel),
{
    let q = p + seq![0x2fu8] + rel;
    let m = p.len() as int + 1;
    let from: int = if absolute(p) {
        1
    } else {
        0
    };
    assert(p.is_prefix_of(q));
    assert(q[0] == p[0]);
    assert(q[p.len() as int] == SLASH);
    assert(q.skip(m) =~= rel);
    lemma_spans_front(p, q, from);
    if rel.len() > 0 && rel[0] == DOT {
        lemma_next_sep(rel, 1);
        assert(next_sep(rel, 0) == next_sep(rel, 1));
    }
    lemma_spans_back(rel, q, m, 0);
    assert(spans(q) =~= spans(p) + shifted(spans(rel), m));
    lemma_spans_bounds(p);
    lemma_spans_bounds(rel);
    let n = spans(p).len();
    assert forall|k: int| 0 <= k < spans(q).len() implies #[trigger] components(q)[k] == (
    components(p) + components(rel))[k] by {
        if k < n {
            let t = spans(p)[k];
            assert(q.subrange(t.0, t.1) =~= p.subrange(t.0, t.1));
        } else {
            let t = spans(rel)[k - n];
            assert(spans(q)[k] == (t.0 + m, t.1 + m));
            assert(q.subrange(t.0 + m, t.1 + m) =~= rel.subrange(t.0, t.1));
        }
    }
    assert(components(q) =~= components(p) + components(rel));
}

/// A separator at the end adds nothing, and neither does a lone `.` behind one.
pub proof fn law_slashes_and_dots_add_nothing(p: Seq<u8>)
    requires
        p.len() > 0,
    ensures
        components(p + seq![0x2fu8]) == components(p),
        components(p + seq![0x2fu8, 0x2eu8]) == components(p),
{
    let a = p + seq![0x2fu8];
    let b = p + seq![0x2fu8, 0x2eu8];
    let n = p.len() as int;
    let from: int = if absolute(p) {
        1
    } else {
        0
    };
    assert(p.is_prefix_of(a) && p.is_prefix_of(b));
    assert(a[0] == p[0] && b[0] == p[0]);
    lemma_spans_front(p, a, from);
    lemma_spans_front(p, b, from);
    assert(spans_from(a, n + 1) =~= Seq::empty());
    assert(b[n + 1] == DOT);
    lemma_next_sep_unique(b, n + 1, n + 2);
    assert(spans_from(b, n + 3) =~= Seq::empty());
    assert(spans_from(b, n + 1) =~= Seq::empty());
    assert(spans(a) =~= spans(p));
    assert(spans(b) =~= spans(p));
    lemma_spans_bounds(p);
    assert forall|k: int| 0 <= k < spans(p).len() implies components(a)[k] == components(p)[k]
        && components(b)[k] == components(p)[k] by {
        let t = spans(p)[k];
        assert(a.subrange(t.0, t.1) =~= p.subrange(t.0, t.1));
        assert(b.subrange(t.0, t.1) =~= p.subrange(t.0, t.1));
    }
    assert(components(a) =~= components(p));
    assert(components(b) =~= components(p));
}

/// A name without a separator is one component, itself; the root is one too, and an
/// empty path has none.
pub proof fn law_a_name_is_one_component(name: Seq<u8>)
    requires
        name.len() > 0,
        forall|i: int| 0 <= i < name.len() ==> #[trigger] name[i] != 0x2f,
    ensures
        components(name) == seq![name],
        components(seq![0x2fu8]) == seq![seq![0x2fu8]],
        components(Seq::empty()) == Seq::<Seq<u8>>::empty(),
{
    lemma_next_sep_unique(name, 0, name.len() as int);
    assert(spans_from(name, name.len() as int + 1) =~= Seq::empty());
    assert(name[0] != SLASH);
    assert(spans(name) =~= seq![(0int, name.len() as int)]);
    assert(name.subrange(0, name.len() as int) =~= name);
    assert(components(name) =~= seq![name]);
    let root = seq![0x2fu8];
    assert(root[0] == SLASH);
    assert(spans_from(root, 1) =~= Seq::empty());
    assert(spans(root) =~= seq![(0int, 1int)]);
    assert(root.subrange(0, 1) =~= root);
    assert(components(root) =~= seq![root]);
    assert(spans_from(Seq::<u8>::empty(), 0) =~= Seq::empty());
    assert(components(Seq::<u8>::empty()) =~= Seq::empty());
}

/// Being within a directory is having its components in front, and nothing else: the
/// directory itself is within itself.
pub proof fn law_within_compares_components(p: Seq<u8>, base: Seq<u8>)
    ensures
        within(p, base) <==> components(base).len() <= components(p).len() && components(p).take(
            components(base).len() as int,
        ) == components(base),
        within(p, p),
{
    let a = components(base);
    let b = components(p);
    if a.len() <= b.len() && b.take(a.len() as int) == a {
        assert(a.is_prefix_of(b));
    }
    if within(p, base) {
        assert(b.take(a.len() as int) =~= a);
    }
    assert(b.is_prefix_of(b));
}

proof fn lemma_spans_resume(p: Seq<u8>, i: int, k: int)
    requires
        0 <= i,
        0 <= k < spans_from(p, i).len(),
    ensures
        spans_from(p, spans_from(p, i)[k].0) == spans_from(p, i).skip(k),
    decreases p.len() + 1 - i,
{
    lemma_next_sep(p, i);
    let j = next_sep(p, i);
    let rest = spans_from(p, j + 1);
    if keeps(p, i, j) {
        assert(spans_from(p, i) == seq![(i, j)] + rest);
        if k == 0 {
            assert(spans_from(p, i).skip(0) =~= spans_from(p, i));
        } else {
            lemma_spans_resume(p, j + 1, k - 1);
            assert(spans_from(p, i)[k] == rest[k - 1]);
            assert(spans_from(p, i).skip(k) =~= rest.skip(k - 1));
        }
    } else {
        lemma_spans_resume(p, j + 1, k);
    }
}

proof fn lemma_spans_kept(p: Seq<u8>, i: int, k: int)
    requires
        0 <= i,
        0 <= k < spans_from(p, i).len(),
    ensures
        ({
            let t = spans_from(p, i)[k];
            &&& i <= t.0 < p.len()
            &&& next_sep(p, t.0) == t.1
            &&& keeps(p, t.0, t.1)
        }),
    decreases p.len() + 1 - i,
{
    lemma_next_sep(p, i);
    let j = next_sep(p, i);
    let rest = spans_from(p, j + 1);
    if keeps(p, i, j) {
        assert(spans_from(p, i) == seq![(i, j)] + rest);
        if k > 0 {
            lemma_spans_kept(p, j + 1, k - 1);
            assert(spans_from(p, i)[k] == rest[k - 1]);
        }
    } else {
        lemma_spans_kept(p, j + 1, k);
    }
}

/// A path cut off behind its last component has the same components.
proof fn lemma_cut_behind(r: Seq<u8>, e: int)
    requires
        !absolute(r),
        spans_from(r, 0).len() > 0,
        e == spans_from(r, 0).last().1,
    ensures
        0 < e <= r.len(),
        spans(r.take(e)) == spans(r),
        components(r.take(e)) == components(r),
{
    let s = spans_from(r, 0);
    let c = r.take(e);
    lemma_spans_from_bounds(r, 0);
    lemma_span_ends(r, 0);
    assert(s[s.len() - 1].1 == e);
    assert(c[0] == r[0]);
    if e < r.len() {
        assert(r[e] == SLASH);
        assert(c.is_prefix_of(r));
        lemma_spans_front(c, r, 0);
        let tail = spans_from(r, e + 1);
        lemma_spans_from_bounds(r, e + 1);
        if tail.len() > 0 {
            assert(s.last() == tail[tail.len() - 1]);
            assert(tail[tail.len() - 1].1 > e);
            assert(false);
        }
        assert(spans_from(c, 0) =~= s);
    } else {
        assert(c =~= r);
    }
    assert forall|k: int| 0 <= k < s.len() implies components(c)[k] == components(r)[k] by {
        lemma_spans_from_bounds(c, 0);
        assert(c.subrange(s[k].0, s[k].1) =~= r.subrange(s[k].0, s[k].1));
    }
    assert(components(c) =~= components(r));
}

/// What is left of a path below a directory has the components behind the
/// directory's; a path that is not below it leaves nothing.
pub proof fn law_stripping_leaves_the_rest(p: Seq<u8>, base: Seq<u8>)
    requires
        absolute(base),
    ensures
        within(p, base) ==> stripped(p, base) is Some && components(stripped(p, base)->0)
            == components(p).skip(components(base).len() as int),
        !within(p, base) ==> stripped(p, base) is None,
{
    if within(p, base) {
        let s = spans(p);
        let k = spans(base).len() as int;
        lemma_absolute_has_root(base);
        assert(components(p)[0] == components(base)[0]);
        lemma_spans_bounds(p);
        if !absolute(p) {
            lemma_no_slash_from(p, 0);
            assert(p.subrange(s[0].0, s[0].1)[0] == p[s[0].0]);
            assert(components(p)[0] == p.subrange(s[0].0, s[0].1));
            assert(seq![SLASH][0] == SLASH);
            assert(false);
        }
        let from = spans_from(p, 1);
        if k == s.len() {
            assert(spans_from(Seq::<u8>::empty(), 0) =~= Seq::empty());
            assert(components(Seq::<u8>::empty()) =~= components(p).skip(k));
        } else {
            let x = s[k].0;
            assert(s[k] == from[k - 1]);
            lemma_spans_resume(p, 1, k - 1);
            lemma_spans_kept(p, 1, k - 1);
            let r = p.skip(x);
            lemma_next_sep(p, x);
            assert(r[0] == p[x]);
            if next_sep(r, 0) == 1 && r[0] == DOT {
                if r.len() > 1 {
                    assert(r[1] == p[x + 1]);
                    lemma_next_sep(r, 0);
                }
                lemma_next_sep_unique(p, x, x + 1);
            }
            lemma_spans_back(r, p, x, 0);
            let rs = spans_from(r, 0);
            assert(from.skip(k - 1) == shifted(rs, x));
            assert(rs.len() == s.len() - k);
            let e = rs.last().1;
            assert(s.last() == from.skip(k - 1).last());
            assert(s.last().1 == e + x);
            lemma_cut_behind(r, e);
            assert(p.subrange(x, s.last().1) =~= r.take(e));
            assert forall|i: int| 0 <= i < rs.len() implies components(r)[i] == components(
                p,
            )[k + i] by {
                assert(s[k + i] == from.skip(k - 1)[i]);
                lemma_spans_from_bounds(r, 0);
                assert(r.subrange(rs[i].0, rs[i].1) =~= p.subrange(rs[i].0 + x, rs[i].1 + x));
            }
            assert(components(r) =~= components(p).skip(k));
        }
    }
}

/// The parent of a path exists for all but the root and the empty path.
pub proof fn law_entries_have_a_parent(p: Seq<u8>)
    requires
        components(p).len() >= 2 || (components(p).len() == 1 && p[0] != 0x2f),
    ensures
        parent_of(p) is Some,
{
}

/// The extension of a name is what stands behind its last dot, as long as something
/// stands in front of that dot.
pub proof fn law_extensions_stand_behind_the_last_dot(
    dir: Seq<u8>,
    stem: Seq<u8>,
    ext: Seq<u8>,
)
    requires
        dir.len() > 0,
        stem.len() > 0,
        forall|i: int| 0 <= i < stem.len() ==> #[trigger] stem[i] != 0x2f,
        forall|i: int| 0 <= i < ext.len() ==> #[trigger] ext[i] != 0x2f && ext[i] != 0x2e,
        !(stem == seq![0x2eu8] && ext.len() == 0),
    ensures
        extension_of(dir + seq![0x2fu8] + (stem + seq![0x2eu8] + ext)) == Some(ext),
        extension_of(stem + seq![0x2eu8] + ext) == Some(ext),
{
    let name = stem + seq![0x2eu8] + ext;
    let n = stem.len() as int;
    assert forall|i: int| 0 <= i < name.len() implies #[trigger] name[i] != 0x2f by {
        if i < n {
            assert(name[i] == stem[i]);
        } else if i > n {
            assert(name[i] == ext[i - n - 1]);
        }
    }
    assert(name[0] == stem[0]);
    assert(name[n] == DOT);
    law_a_name_is_one_component(name);
    law_components_part_at_slashes(dir, name);
    let p = dir + seq![0x2fu8] + name;
    assert(components(p).last() == name);
    assert(components(name).last() == name);
    assert(normal(name)) by {
        assert(name.len() >= 2);
        if name == seq![DOT, DOT] {
            assert(name.len() == 2);
            assert(stem =~= seq![0x2eu8]);
        }
    }
    assert forall|m: int| n + 1 <= m < name.len() implies name[m] != DOT by {
        assert(name[m] == ext[m - n - 1]);
    }
    lemma_last_dot(name, n + 1);
    assert(name.take(n + 1).last() == DOT);
    assert(last_dot(name) == n);
    assert(name.skip(n + 1) =~= ext);
}

/// A name with no dot, or none but a leading one, has no extension.
pub proof fn law_names_without_dots_have_no_extension(dir: Seq<u8>, name: Seq<u8>)
    requires
        dir.len() > 0,
        name.len() > 0,
        name[0] != 0x2f,
        name[0] == 0x2e ==> name.len() > 1,
        forall|i: int| 0 < i < name.len() ==> #[trigger] name[i] != 0x2f && name[i] != 0x2e,
    ensures
        extension_of(dir + seq![0x2fu8] + name) is None,
        extension_of(name) is None,
{
    assert forall|i: int| 0 <= i < name.len() implies #[trigger] name[i] != 0x2f by {}
    law_a_name_is_one_component(name);
    law_components_part_at_slashes(dir, name);
    let p = dir + seq![0x2fu8] + name;
    assert(components(p).last() == name);
    assert(components(name).last() == name);
    lemma_last_dot(name, 1);
    assert(name.take(1).drop_last() =~= Seq::empty());
    assert(last_dot(Seq::empty()) == -1);
    assert(last_dot(name.take(1)) <= 0);
}

/// A letter of either case.
pub open spec fn either_case(b: u8, lower: u8) -> bool {
    b == lower || b == lower - 0x20
}

proof fn lemma_either_case(b: u8, lower: u8)
    requires
        0x61 <= lower <= 0x7a,
    ensures
        lower_byte(b) == lower_byte(lower) <==> either_case(b, lower),
{
}

/// Templates end in `.lhtml` and modules in `.lua`, in any mix of cases, and nothing
/// else is either.
pub proof fn law_source_files_are_told_by_their_extension(p: Seq<u8>)
    ensures
        lhtml_file(p) <==> (extension_of(p) matches Some(e) && e.len() == 5 && either_case(
            e[0],
            0x6c,
        ) && either_case(e[1], 0x68) && either_case(e[2], 0x74) && either_case(e[3], 0x6d)
            && either_case(e[4], 0x6c)),
        lua_file(p) <==> (extension_of(p) matches Some(e) && e.len() == 3 && either_case(e[0], 0x6c)
            && either_case(e[1], 0x75) && either_case(e[2], 0x61)),
{
    reveal_strlit("lhtml");
    reveal_strlit("lua");
    is_ascii_chars_encode_utf8("lhtml"@);
    is_ascii_chars_encode_utf8("lua"@);
    let a = encode_utf8("lhtml"@);
    let b = encode_utf8("lua"@);
    assert(a[0] == 0x6c && a[1] == 0x68 && a[2] == 0x74 && a[3] == 0x6d && a[4] == 0x6c);
    assert(b[0] == 0x6c && b[1] == 0x75 && b[2] == 0x61);
    if let Some(e) = extension_of(p) {
        if e.len() == 5 {
            lemma_either_case(e[0], 0x6c);
            lemma_either_case(e[1], 0x68);
            lemma_either_case(e[2], 0x74);
            lemma_either_case(e[3], 0x6d);
            lemma_either_case(e[4], 0x6c);
        }
        if e.len() == 3 {
            lemma_either_case(e[0], 0x6c);
            lemma_either_case(e[1], 0x75);
            lemma_either_case(e[2], 0x61);
        }
    }
}

/// A path hides something exactly when one of its names starts with a dot; `.` and
/// `..` are no names.
pub proof fn law_hidden_names_start_with_a_dot(p: Seq<u8>)
    ensures
        has_hidden(p) <==> exists|k: int|
            0 <= k < components(p).len() && (#[trigger] components(p)[k]).len() > 0 && components(
                p,
            )[k][0] == 0x2e && components(p)[k] != seq![0x2eu8] && components(p)[k] != seq![
                0x2eu8,
                0x2eu8,
            ],
{
    if exists|k: int|
        0 <= k < components(p).len() && (#[trigger] components(p)[k]).len() > 0 && components(
            p,
        )[k][0] == 0x2e && components(p)[k] != seq![0x2eu8] && components(p)[k] != seq![
            0x2eu8,
            0x2eu8,
        ] {
        let k = choose|k: int|
            0 <= k < components(p).len() && (#[trigger] components(p)[k]).len() > 0 && components(
                p,
            )[k][0] == 0x2e && components(p)[k] != seq![0x2eu8] && components(p)[k] != seq![
                0x2eu8,
                0x2eu8,
            ];
        assert(seq![SLASH][0] == SLASH);
        assert(normal(components(p)[k]));
    }
}

/// An absolute path of names has a lexical form; one that climbs has none.
pub proof fn law_climbing_paths_have_no_lexical_form(p: Seq<u8>, k: int)
    requires
        absolute(p),
    ensures
        0 <= k < components(p).len() && components(p)[k] == seq![0x2eu8, 0x2eu8] ==> lexical_of(p)
            is None,
        (forall|i: int|
            0 <= i < components(p).len() ==> #[trigger] components(p)[i] != seq![0x2eu8, 0x2eu8]
                && components(p)[i] != seq![0x2eu8]) ==> lexical_of(p) is Some,
{
    assert(seq![DOT, DOT][0] == DOT && seq![SLASH][0] == SLASH);
    if forall|i: int|
        0 <= i < components(p).len() ==> #[trigger] components(p)[i] != seq![0x2eu8, 0x2eu8]
            && components(p)[i] != seq![0x2eu8] {
        assert(plain(p));
    }
}

/// A name is any component but the root, `.` and `..`, and a path of names is one all of
/// whose components are.
pub proof fn law_names_are_neither_root_nor_dots(c: Seq<u8>, p: Seq<u8>)
    ensures
        normal(c) <==> c != seq![0x2fu8] && c != seq![0x2eu8] && c != seq![0x2eu8, 0x2eu8],
        all_normal(p) <==> forall|k: int|
            0 <= k < components(p).len() ==> {
                let name = #[trigger] components(p)[k];
                name != seq![0x2fu8] && name != seq![0x2eu8] && name != seq![0x2eu8, 0x2eu8]
            },
{
}

/// A relative path is put behind a directory with one separator between the two, where
/// the directory does not end in one already; an absolute path stands alone, and so
/// does a path behind nothing.
pub proof fn law_joining_puts_one_slash_between(base: Seq<u8>, rel: Seq<u8>)
    ensures
        base.len() > 0 && base.last() != 0x2f && !(rel.len() > 0 && rel[0] == 0x2f) ==> joined(
            base,
            rel,
        ) == base + seq![0x2fu8] + rel,
        base.len() > 0 && base.last() == 0x2f && !(rel.len() > 0 && rel[0] == 0x2f) ==> joined(
            base,
            rel,
        ) == base + rel,
        base.len() == 0 ==> joined(base, rel) == rel,
        rel.len() > 0 && rel[0] == 0x2f ==> joined(base, rel) == rel,
{
    assert(base.push(SLASH) + rel =~= base + seq![0x2fu8] + rel);
    if base.len() == 0 {
        assert(base + rel =~= rel);
    }
}

/// A path is absolute exactly when it starts with a separator.
pub proof fn law_absolute_paths_start_with_a_slash(p: Seq<u8>)
    ensures
        absolute(p) <==> p.len() > 0 && p[0] == 0x2f,
{
}

/// The parent of a path is the beginning of it.
pub proof fn law_parents_are_the_beginning(p: Seq<u8>)
    ensures
        parent_of(p) matches Some(q) ==> q.is_prefix_of(p) && q.len() < p.len(),
{
    lemma_spans_bounds(p);
    let s = spans(p);
    if let Some(q) = parent_of(p) {
        if s.len() == 1 {
            assert(s[0].1 <= p.len());
            assert(q =~= p.take(0));
        } else {
            let n = s.len() as int;
            assert(s[n - 2].1 <= s[n - 1].0 < s[n - 1].1 <= p.len());
            assert(q =~= p.take(s[n - 2].1));
        }
        assert(q.is_prefix_of(p));
    }
}

/// A path whose last segment is a component ends with it.
proof fn lemma_last_span(p: Seq<u8>, i: int)
    requires
        0 <= i < p.len(),
        p.last() != SLASH,
        !(p.last() == DOT && p.len() > 1 && p[p.len() - 2] == SLASH),
        i > 0 ==> !(p.last() == DOT && i == p.len() - 1),
    ensures
        spans_from(p, i).len() > 0,
        spans_from(p, i).last().1 == p.len(),
    decreases p.len() - i,
{
    lemma_next_sep(p, i);
    let j = next_sep(p, i);
    if j == p.len() {
        assert(spans_from(p, j + 1) =~= Seq::empty());
        if j == i + 1 {
            assert(p.last() == p[i]);
        }
        assert(keeps(p, i, j));
    } else {
        assert(j + 1 < p.len()) by {
            if j + 1 == p.len() {
                assert(p.last() == p[j]);
            }
        }
        lemma_last_span(p, j + 1);
    }
}

/// Taking a directory off a path undoes putting it in front.
pub proof fn law_stripping_undoes_joining(base: Seq<u8>, rel: Seq<u8>)
    requires
        absolute(base),
        rel.len() > 0,
        rel[0] != 0x2f,
        rel.last() != 0x2f,
        rel[0] == 0x2e ==> rel.len() > 1 && rel[1] != 0x2f,
        !(rel.last() == 0x2e && rel.len() > 1 && rel[rel.len() - 2] == 0x2f),
    ensures
        stripped(joined(base, rel), base) == Some(rel),
{
    let q = joined(base, rel);
    let m = (q.len() - rel.len()) as int;
    lemma_first_component(rel);
    if components(rel)[0] == seq![DOT] {
        assert(rel.subrange(0, next_sep(rel, 0)).len() == 1);
        assert(rel.subrange(0, 1)[0] == rel[0]);
        lemma_next_sep(rel, 0);
        assert(false);
    }
    law_join_adds_components(base, rel);
    let n = components(base).len() as int;
    assert(components(q).take(n) =~= components(base));
    assert(components(base).is_prefix_of(components(q)));
    lemma_next_sep(rel, 0);
    lemma_join_spans(base, rel);
    lemma_last_span(rel, 0);
    assert(spans(rel)[0].0 == 0);
    assert(spans(q)[n] == (spans(rel)[0].0 + m, spans(rel)[0].1 + m));
    assert(spans(q).last() == (spans(rel).last().0 + m, spans(rel).last().1 + m));
    assert(q.subrange(m, m + rel.len()) =~= rel);
}

proof fn lemma_join_spans(base: Seq<u8>, rel: Seq<u8>)
    requires
        absolute(base),
        !absolute(rel),
        rel.len() > 0,
        !(next_sep(rel, 0) == 1 && rel[0] == DOT),
    ensures
        spans(joined(base, rel)) == spans(base) + shifted(
            spans(rel),
            joined(base, rel).len() - rel.len(),
        ),
{
    let q = joined(base, rel);
    let m = (q.len() - rel.len()) as int;
    assert(q.skip(m) =~= rel);
    assert(base.is_prefix_of(q));
    assert(q[0] == base[0]);
    if base.last() != SLASH {
        lemma_spans_front(base, q, 1);
    } else if base.len() == 1 {
        assert(spans_from(base, 1) =~= Seq::empty());
        assert(spans_from(base, 1) + spans_from(q, m) =~= spans_from(q, 1));
    } else {
        let p = base.drop_last();
        assert(p.is_prefix_of(base));
        assert(p.is_prefix_of(q));
        lemma_spans_front(p, q, 1);
        lemma_spans_front(p, base, 1);
        assert(spans_from(base, m) =~= Seq::empty());
        assert(spans_from(base, 1) =~= spans_from(p, 1));
    }
    lemma_spans_back(rel, q, m, 0);
    assert(spans(q) =~= spans(base) + shifted(spans(rel), m));
}

/// The lexical form is put together name by name: the root is its own, and one more
/// name adds a separator, where none is there, and the name.
pub proof fn law_lexical_forms_grow_by_names(dir: Seq<u8>, name: Seq<u8>)
    requires
        absolute(dir),
        lexical_of(dir) is Some,
        name.len() > 0,
        forall|i: int| 0 <= i < name.len() ==> #[trigger] name[i] != 0x2f,
        name != seq![0x2eu8],
        name != seq![0x2eu8, 0x2eu8],
    ensures
        lexical_of(seq![0x2fu8]) == Some(seq![0x2fu8]),
        lexical_of(joined(dir, name)) == Some(joined(lexical_of(dir)->0, name)),
{
    law_a_name_is_one_component(name);
    let root = seq![0x2fu8];
    assert(components(root)[0] == seq![SLASH]);
    assert(plain(root));
    assert(components(root).drop_last() =~= Seq::empty());
    assert(assembled(Seq::<Seq<u8>>::empty()) =~= Seq::empty());
    assert(assembled(components(root)) =~= root);
    assert(name[0] != SLASH);
    law_join_adds_components(dir, name);
    let q = joined(dir, name);
    let parts = components(q);
    assert(parts.drop_last() =~= components(dir));
    assert(parts.last() == name);
    assert(seq![SLASH][0] == SLASH);
    assert(plain(q)) by {
        assert forall|k: int| 0 <= k < parts.len() implies (#[trigger] parts[k] == seq![SLASH]
            || normal(parts[k])) by {
            if k < components(dir).len() {
                assert(parts[k] == components(dir)[k]);
            }
        }
    }
}

/// The root, `.`, `..` and the empty path have no extension: they name nothing.
pub proof fn law_what_is_no_name_has_no_extension(p: Seq<u8>)
    requires
        components(p).len() == 0 || components(p).last() == seq![0x2fu8] || components(p).last()
            == seq![0x2eu8] || components(p).last() == seq![0x2eu8, 0x2eu8],
    ensures
        extension_of(p) is None,
        !lhtml_file(p),
        !lua_file(p),
{
}

} // verus!
