//! Text helpers: decimal rendering, byte order on UTF-8 text, sorted sets of
//! strings and of ids, and tag normalisation.
use vstd::prelude::*;
use vstd::utf8::{decode_utf8, encode_scalar, encode_utf8, valid_utf8};

verus! {

broadcast use vstd::utf8::encode_utf8_decode_utf8;

/// Appends one character to a string (`String::push`).
#[verifier::external_body]
pub(crate) fn string_push(s: &mut String, c: char)
    ensures
        final(s)@ == old(s)@.push(c),
{
    s.push(c);
}

/// The characters of a string, in order.
pub fn chars_of(s: &str) -> (out: Vec<char>)
    ensures
        out@ == s@,
{
    let mut out: Vec<char> = Vec::new();
    for c in it: s.chars()
        invariant
            out@ == it.seq().take(it.index() as int),
    {
        out.push(c);
    }
    assert(out@ =~= s@);
    out
}

/// Appends the characters `cs[from..to]` to `s`.
pub fn push_chars(s: &mut String, cs: &Vec<char>, from: usize, to: usize)
    requires
        from <= to <= cs@.len(),
    ensures
        final(s)@ == old(s)@ + cs@.subrange(from as int, to as int),
{
    let mut i = from;
    while i < to
        invariant
            from <= i <= to <= cs@.len(),
            s@ == old(s)@ + cs@.subrange(from as int, i as int),
        decreases to - i,
    {
        string_push(s, cs[i]);
        i = i + 1;
        assert(cs@.subrange(from as int, i as int) =~= cs@.subrange(from as int, i - 1).push(
            cs@[i - 1],
        ));
    }
}

/// `prefix` followed by `detail`.
pub fn message(prefix: &str, detail: &str) -> (r: String)
    ensures
        r@ == prefix@ + detail@,
{
    let mut s = String::from_str(prefix);
    s.append(detail);
    s
}

/// `std::string::FromUtf8Error`.
#[verifier::external_type_specification]
#[verifier::external_body]
pub struct ExFromUtf8Error(std::string::FromUtf8Error);

/// The text of a UTF-8 decoding error (its `Display`).
#[verifier::external_body]
pub(crate) fn utf8_error_text(e: &std::string::FromUtf8Error) -> String {
    format!("{}", e)
}

/// `String::from_utf8`: the text the bytes encode, or an error when they
/// are not UTF-8.
#[verifier::external_body]
pub(crate) fn string_from_utf8(bytes: Vec<u8>) -> (r: Result<String, std::string::FromUtf8Error>)
    ensures
        r matches Ok(s) ==> valid_utf8(bytes@) && s@ == decode_utf8(bytes@),
        r is Err ==> !valid_utf8(bytes@),
{
    String::from_utf8(bytes)
}

/// `p` is a prefix of `s`.
pub open spec fn text_starts_with(s: Seq<char>, p: Seq<char>) -> bool {
    p.len() <= s.len() && s.take(p.len() as int) == p
}

/// `s` without the prefix `prefix`, or `None` if `s` does not start with
/// it (`str::strip_prefix`).
pub fn strip_prefix_text(s: &str, prefix: &str) -> (r: Option<String>)
    ensures
        r is Some <==> text_starts_with(s@, prefix@),
        r matches Some(t) ==> s@ == prefix@ + t@,
{
    let cs = chars_of(s);
    let ps = chars_of(prefix);
    if ps.len() > cs.len() {
        return None;
    }
    let mut i: usize = 0;
    while i < ps.len()
        invariant
            ps@ == prefix@,
            cs@ == s@,
            ps@.len() <= cs@.len(),
            i <= ps@.len(),
            forall|j: int| 0 <= j < i ==> cs@[j] == ps@[j],
        decreases ps@.len() - i,
    {
        if cs[i] != ps[i] {
            assert(s@.take(prefix@.len() as int)[i as int] != prefix@[i as int]);
            return None;
        }
        i = i + 1;
    }
    assert(s@.take(prefix@.len() as int) =~= prefix@);
    let mut t = String::new();
    push_chars(&mut t, &cs, ps.len(), cs.len());
    assert(s@ =~= prefix@ + t@);
    Some(t)
}

/// `s` without the elements equal to `x`, in order.
pub open spec fn remove_all(s: Seq<Seq<char>>, x: Seq<char>) -> Seq<Seq<char>>
    decreases s.len(),
{
    if s.len() == 0 {
        s
    } else if s.last() == x {
        remove_all(s.drop_last(), x)
    } else {
        remove_all(s.drop_last(), x).push(s.last())
    }
}

/// The strings of `v` that differ from `x`, in order (`Vec::retain`).
pub fn without_text(v: &Vec<String>, x: &String) -> (out: Vec<String>)
    ensures
        out.deep_view() == remove_all(v.deep_view(), x@),
{
    let mut out: Vec<String> = Vec::new();
    let ghost s = v.deep_view();
    let mut i: usize = 0;
    proof {
        assert(out.deep_view() =~= remove_all(s.take(0), x@));
    }
    while i < v.len()
        invariant
            i <= v@.len(),
            s == v.deep_view(),
            out.deep_view() == remove_all(s.take(i as int), x@),
        decreases v@.len() - i,
    {
        assert(s.take(i + 1).drop_last() =~= s.take(i as int));
        if v[i] != *x {
            out.push(v[i].clone());
            assert(out.deep_view() =~= remove_all(s.take(i as int), x@).push(s[i as int]));
        }
        i = i + 1;
    }
    assert(s.take(v@.len() as int) =~= s);
    out
}

/// Splits a path at `/`: the components closed so far and the open one.
pub open spec fn path_scan(s: Seq<char>) -> (Seq<Seq<char>>, Seq<char>)
    decreases s.len(),
{
    if s.len() == 0 {
        (Seq::empty(), Seq::empty())
    } else {
        let (parts, cur) = path_scan(s.drop_last());
        if s.last() == '/' {
            (if cur.len() > 0 {
                parts.push(cur)
            } else {
                parts
            }, Seq::empty())
        } else {
            (parts, cur.push(s.last()))
        }
    }
}

/// The non-empty components of a `/`-separated path, in order.
pub open spec fn path_components(s: Seq<char>) -> Seq<Seq<char>> {
    let (parts, cur) = path_scan(s);
    if cur.len() > 0 {
        parts.push(cur)
    } else {
        parts
    }
}

/// The non-empty components of a `/`-separated path
/// (`split('/').filter(|p| !p.is_empty())`).
pub fn split_path(path: &str) -> (parts: Vec<String>)
    ensures
        parts.deep_view() == path_components(path@),
{
    let cs = chars_of(path);
    let mut parts: Vec<String> = Vec::new();
    let mut cur = String::new();
    let mut i: usize = 0;
    proof {
        assert(parts.deep_view() =~= path_scan(cs@.take(0)).0);
        assert(cur@ =~= path_scan(cs@.take(0)).1);
    }
    while i < cs.len()
        invariant
            i <= cs@.len(),
            cs@ == path@,
            parts.deep_view() == path_scan(cs@.take(i as int)).0,
            cur@ == path_scan(cs@.take(i as int)).1,
        decreases cs@.len() - i,
    {
        assert(cs@.take(i + 1).drop_last() =~= cs@.take(i as int));
        let c = cs[i];
        if c == '/' {
            if !cur.as_str().is_empty() {
                let ghost before = parts.deep_view();
                parts.push(cur);
                assert(parts.deep_view() =~= before.push(path_scan(cs@.take(i as int)).1));
            } else {
                assert(cur@.len() == 0);
            }
            cur = String::new();
        } else {
            string_push(&mut cur, c);
        }
        i = i + 1;
    }
    assert(cs@.take(cs@.len() as int) =~= cs@);
    if !cur.as_str().is_empty() {
        let ghost before = parts.deep_view();
        parts.push(cur);
        assert(parts.deep_view() =~= before.push(path_scan(cs@).1));
    }
    parts
}

/// What `String::from_utf8_lossy` makes of bytes: the text they encode,
/// each invalid sequence replaced by U+FFFD.
pub uninterp spec fn utf8_lossy(bytes: Seq<u8>) -> Seq<char>;

/// `String::from_utf8_lossy`, as an owned string.
#[verifier::external_body]
pub(crate) fn string_from_utf8_lossy(bytes: &[u8]) -> (s: String)
    ensures
        s@ == utf8_lossy(bytes@),
        valid_utf8(bytes@) ==> s@ == decode_utf8(bytes@),
{
    String::from_utf8_lossy(bytes).to_string()
}

/// The elements of `all` that `used` does not hold, in order.
pub open spec fn unused(all: Seq<Seq<char>>, used: Seq<Seq<char>>) -> Seq<Seq<char>>
    decreases all.len(),
{
    if all.len() == 0 {
        all
    } else if used.contains(all.last()) {
        unused(all.drop_last(), used)
    } else {
        unused(all.drop_last(), used).push(all.last())
    }
}

/// What is left of `all` after dropping what `used` holds is exactly what
/// `all` holds and `used` does not.
pub proof fn lemma_unused_contains(all: Seq<Seq<char>>, used: Seq<Seq<char>>, c: Seq<char>)
    ensures
        unused(all, used).contains(c) <==> (all.contains(c) && !used.contains(c)),
    decreases all.len(),
{
    if all.len() > 0 {
        let p = all.drop_last();
        let r = unused(p, used);
        lemma_unused_contains(p, used, c);
        if all.contains(c) && !used.contains(c) {
            let j = choose|j: int| 0 <= j < all.len() && all[j] == c;
            if j < all.len() - 1 {
                assert(p[j] == c);
            }
        }
        if p.contains(c) {
            let j = choose|j: int| 0 <= j < p.len() && p[j] == c;
            assert(all[j] == c);
        }
        if !used.contains(all.last()) {
            if r.push(all.last()).contains(c) {
                let j = choose|j: int| 0 <= j < r.push(all.last()).len() && r.push(all.last())[j] == c;
                if j < r.len() {
                    assert(r[j] == c);
                }
            }
            if r.contains(c) {
                let j = choose|j: int| 0 <= j < r.len() && r[j] == c;
                assert(r.push(all.last())[j] == c);
            }
            if c == all.last() {
                assert(r.push(all.last())[r.len() as int] == c);
            }
        }
    }
}

/// The strings of `all` that `used` does not hold, in order.
pub fn retain_unused(all: &Vec<String>, used: &Vec<String>) -> (out: Vec<String>)
    ensures
        out.deep_view() == unused(all.deep_view(), used.deep_view()),
        forall|c: Seq<char>|
            #[trigger] out.deep_view().contains(c) <==> (all.deep_view().contains(c) && !used.deep_view().contains(c)),
{
    let mut out: Vec<String> = Vec::new();
    let ghost s = all.deep_view();
    let mut i: usize = 0;
    proof {
        assert(out.deep_view() =~= unused(s.take(0), used.deep_view()));
    }
    while i < all.len()
        invariant
            i <= all@.len(),
            s == all.deep_view(),
            out.deep_view() == unused(s.take(i as int), used.deep_view()),
        decreases all@.len() - i,
    {
        assert(s.take(i + 1).drop_last() =~= s.take(i as int));
        if !contains_text(used, &all[i]) {
            out.push(all[i].clone());
            assert(out.deep_view() =~= unused(s.take(i as int), used.deep_view()).push(s[i as int]));
        }
        i = i + 1;
    }
    assert(s.take(all@.len() as int) =~= s);
    proof {
        assert forall|c: Seq<char>|
            #[trigger] out.deep_view().contains(c) <==> (all.deep_view().contains(c) && !used.deep_view().contains(c)) by {
            lemma_unused_contains(s, used.deep_view(), c);
        }
    }
    out
}

/// A string made of the literal text `lit`.
pub fn string_of(lit: &str) -> (s: String)
    ensures
        s@ == lit@,
{
    String::from_str(lit)
}

// ---------------------------------------------------------------------------
// Decimal rendering
// ---------------------------------------------------------------------------

/// The character of decimal digit `d`.
pub open spec fn digit_char(d: nat) -> char {
    (48 + d) as char
}

/// The decimal rendering of `n`, without leading zeros.
pub open spec fn decimal(n: nat) -> Seq<char>
    decreases n,
{
    if n < 10 {
        seq![digit_char(n)]
    } else {
        decimal(n / 10).push(digit_char(n % 10))
    }
}

/// Every character of a decimal rendering is a digit, and there is at least
/// one.
pub proof fn lemma_decimal_digits(n: nat)
    ensures
        decimal(n).len() >= 1,
        forall|i: int| 0 <= i < decimal(n).len() ==> '0' <= #[trigger] decimal(n)[i] <= '9',
    decreases n,
{
    if n >= 10 {
        lemma_decimal_digits(n / 10);
    }
}

/// Different numbers have different decimal renderings.
pub proof fn lemma_decimal_injective(a: nat, b: nat)
    requires
        decimal(a) == decimal(b),
    ensures
        a == b,
    decreases a,
{
    lemma_decimal_digits(a);
    lemma_decimal_digits(b);
    if a < 10 && b < 10 {
        assert(decimal(a)[0] == decimal(b)[0]);
        assert(digit_char(a) as int == 48 + a);
        assert(digit_char(b) as int == 48 + b);
        assert(decimal(a)[0] == digit_char(a));
        assert(decimal(b)[0] == digit_char(b));
        assert(a == b);
    } else if a < 10 {
        lemma_decimal_digits(b / 10);
        assert(decimal(b).len() >= 2);
    } else if b < 10 {
        lemma_decimal_digits(a / 10);
        assert(decimal(a).len() >= 2);
    } else {
        assert(decimal(a) == decimal(a / 10).push(digit_char(a % 10)));
        assert(decimal(b) == decimal(b / 10).push(digit_char(b % 10)));
        assert(decimal(a).last() == digit_char(a % 10));
        assert(decimal(b).last() == digit_char(b % 10));
        assert(digit_char(a % 10) as int == 48 + a % 10);
        assert(digit_char(b % 10) as int == 48 + b % 10);
        assert(decimal(a).drop_last() =~= decimal(a / 10));
        assert(decimal(b).drop_last() =~= decimal(b / 10));
        lemma_decimal_injective(a / 10, b / 10);
        assert(a % 10 == b % 10);
        assert(a == b);
    }
}

/// Appends the decimal rendering of `n` to `s` (what `format!("{}", n)`
/// writes).
pub fn push_decimal(s: &mut String, n: u64)
    ensures
        final(s)@ == old(s)@ + decimal(n as nat),
    decreases n,
{
    if n >= 10 {
        push_decimal(s, n / 10);
    }
    let d: u8 = (n % 10) as u8;
    let c: char = (48u8 + d) as char;
    string_push(s, c);
    assert(decimal(n as nat) =~= if n < 10 {
        seq![digit_char(n as nat)]
    } else {
        decimal((n / 10) as nat).push(digit_char((n % 10) as nat))
    });
}

// ---------------------------------------------------------------------------
// Byte order
// ---------------------------------------------------------------------------

/// Lexicographic order on byte strings (the order of `[u8]`, `str` and
/// `String`).
pub open spec fn lex_lt(a: Seq<u8>, b: Seq<u8>) -> bool
    decreases a.len(),
{
    if a.len() == 0 {
        b.len() > 0
    } else if b.len() == 0 {
        false
    } else if a[0] < b[0] {
        true
    } else if a[0] > b[0] {
        false
    } else {
        lex_lt(a.drop_first(), b.drop_first())
    }
}

/// The order is strict and total, and transitive.
pub proof fn lemma_lex_order(a: Seq<u8>, b: Seq<u8>, c: Seq<u8>)
    ensures
        !lex_lt(a, a),
        lex_lt(a, b) ==> !lex_lt(b, a),
        a != b ==> lex_lt(a, b) || lex_lt(b, a),
        lex_lt(a, b) && lex_lt(b, c) ==> lex_lt(a, c),
    decreases a.len() + b.len() + c.len(),
{
    if a.len() > 0 && b.len() > 0 && c.len() > 0 {
        lemma_lex_order(a.drop_first(), b.drop_first(), c.drop_first());
        if a != b && a[0] == b[0] {
            assert(a =~= seq![a[0]] + a.drop_first());
            assert(b =~= seq![b[0]] + b.drop_first());
        }
    } else if a.len() > 0 && b.len() > 0 {
        lemma_lex_order(a.drop_first(), b.drop_first(), c);
        if a != b && a[0] == b[0] {
            assert(a =~= seq![a[0]] + a.drop_first());
            assert(b =~= seq![b[0]] + b.drop_first());
        }
    } else if a.len() == 0 && b.len() == 0 {
        assert(a =~= b);
    }
    lemma_lex_irreflexive(a);
}

/// No byte string comes before itself.
pub proof fn lemma_lex_irreflexive(a: Seq<u8>)
    ensures
        !lex_lt(a, a),
    decreases a.len(),
{
    if a.len() > 0 {
        lemma_lex_irreflexive(a.drop_first());
    }
}

/// Whether `a` comes before `b` in byte order.
pub fn bytes_lt(a: &[u8], b: &[u8]) -> (r: bool)
    ensures
        r == lex_lt(a@, b@),
{
    let mut i: usize = 0;
    assert(a@.skip(0) =~= a@);
    assert(b@.skip(0) =~= b@);
    while i < a.len() && i < b.len()
        invariant
            i <= a@.len(),
            i <= b@.len(),
            lex_lt(a@, b@) == lex_lt(a@.skip(i as int), b@.skip(i as int)),
        decreases a@.len() - i,
    {
        if a[i] < b[i] {
            return true;
        }
        if a[i] > b[i] {
            return false;
        }
        assert(a@.skip(i as int).drop_first() =~= a@.skip(i + 1));
        assert(b@.skip(i as int).drop_first() =~= b@.skip(i + 1));
        i = i + 1;
    }
    i < b.len()
}

/// Text order: the byte order of the UTF-8 encodings, which is also the
/// order of the code points.
pub open spec fn text_lt(a: Seq<char>, b: Seq<char>) -> bool {
    lex_lt(encode_utf8(a), encode_utf8(b))
}

/// Text order is strict, total and transitive.
pub proof fn lemma_text_order(a: Seq<char>, b: Seq<char>, c: Seq<char>)
    ensures
        !text_lt(a, a),
        text_lt(a, b) ==> !text_lt(b, a),
        a != b ==> text_lt(a, b) || text_lt(b, a),
        text_lt(a, b) && text_lt(b, c) ==> text_lt(a, c),
{
    lemma_lex_order(encode_utf8(a), encode_utf8(b), encode_utf8(c));
    if a != b {
        assert(decode_utf8(encode_utf8(a)) == a);
        assert(decode_utf8(encode_utf8(b)) == b);
    }
}

/// Whether `a` comes before `b` in the order of `str`.
pub fn str_lt(a: &str, b: &str) -> (r: bool)
    ensures
        r == text_lt(a@, b@),
{
    bytes_lt(a.as_bytes(), b.as_bytes())
}

/// The UTF-8 encoding of a concatenation is the concatenation of the
/// encodings.
pub proof fn lemma_encode_concat(a: Seq<char>, b: Seq<char>)
    ensures
        encode_utf8(a + b) == encode_utf8(a) + encode_utf8(b),
    decreases a.len(),
{
    if a.len() > 0 {
        assert((a + b).drop_first() =~= a.drop_first() + b);
        lemma_encode_concat(a.drop_first(), b);
        assert(encode_utf8(a + b) =~= encode_scalar(a[0] as u32) + encode_utf8(a.drop_first() + b));
    } else {
        assert(a + b =~= b);
    }
}

// ---------------------------------------------------------------------------
// Sorted sets of strings
// ---------------------------------------------------------------------------

/// Strictly increasing in text order (hence free of duplicates).
pub open spec fn sorted_texts(s: Seq<Seq<char>>) -> bool {
    forall|i: int, j: int| 0 <= i < j < s.len() ==> text_lt(#[trigger] s[i], #[trigger] s[j])
}

/// A strictly increasing sequence holds no element twice.
pub proof fn lemma_sorted_texts_unique(s: Seq<Seq<char>>)
    requires
        sorted_texts(s),
    ensures
        s.no_duplicates(),
{
    assert forall|i: int, j: int| 0 <= i < s.len() && 0 <= j < s.len() && i != j implies s[i]
        != s[j] by {
        lemma_text_order(s[i], s[j], s[j]);
        lemma_text_order(s[j], s[i], s[i]);
    }
}

/// Inserts `x` into the sorted, duplicate-free `v`, keeping it so.
pub fn insert_text_sorted(v: &mut Vec<String>, x: String)
    requires
        sorted_texts(old(v).deep_view()),
    ensures
        sorted_texts(final(v).deep_view()),
        final(v).deep_view().to_set() == old(v).deep_view().to_set().insert(x@),
{
    let ghost s0 = v.deep_view();
    let mut i: usize = 0;
    while i < v.len() && str_lt(v[i].as_str(), x.as_str())
        invariant
            v.deep_view() == s0,
            sorted_texts(s0),
            i <= v@.len(),
            forall|j: int| 0 <= j < i ==> text_lt(#[trigger] s0[j], x@),
        decreases v@.len() - i,
    {
        i = i + 1;
    }
    if i < v.len() && v[i] == x {
        assert(s0.to_set() =~= s0.to_set().insert(x@)) by {
            assert(s0[i as int] == x@);
        }
        return;
    }
    proof {
        if i < s0.len() {
            lemma_text_order(x@, s0[i as int], s0[i as int]);
        }
    }
    v.insert(i, x);
    let ghost s1 = v.deep_view();
    assert(s1 =~= s0.insert(i as int, x@));
    assert forall|a: int, b: int| 0 <= a < b < s1.len() implies text_lt(
        #[trigger] s1[a],
        #[trigger] s1[b],
    ) by {
        if b < i {
            assert(s1[a] == s0[a] && s1[b] == s0[b]);
        } else if a < i && b == i {
            assert(s1[a] == s0[a]);
        } else if a < i {
            assert(s1[a] == s0[a] && s1[b] == s0[b - 1]);
        } else if a == i {
            assert(s1[b] == s0[b - 1]);
            if b - 1 > i {
                assert(text_lt(s0[i as int], s0[b - 1]));
                lemma_text_order(x@, s0[i as int], s0[b - 1]);
            }
        } else {
            assert(s1[a] == s0[a - 1] && s1[b] == s0[b - 1]);
        }
    }
    assert(s1.to_set() =~= s0.to_set().insert(x@)) by {
        assert forall|y: Seq<char>| s0.to_set().insert(x@).contains(y) implies s1.to_set().contains(y) by {
            if y == x@ {
                assert(s1[i as int] == y);
            } else {
                let k = choose|k: int| 0 <= k < s0.len() && s0[k] == y;
                if k < i {
                    assert(s1[k] == y);
                } else {
                    assert(s1[k + 1] == y);
                }
            }
        }
    }
}

/// Whether the string sequence holds `x`.
pub fn contains_text(v: &Vec<String>, x: &String) -> (r: bool)
    ensures
        r == v.deep_view().contains(x@),
{
    let mut i: usize = 0;
    while i < v.len()
        invariant
            i <= v@.len(),
            forall|j: int| 0 <= j < i ==> v.deep_view()[j] != x@,
        decreases v@.len() - i,
    {
        if v[i] == *x {
            assert(v.deep_view()[i as int] == x@);
            return true;
        }
        i = i + 1;
    }
    false
}

// ---------------------------------------------------------------------------
// Sorted sets of ids
// ---------------------------------------------------------------------------

/// Strictly increasing.
pub open spec fn sorted_ids(s: Seq<u64>) -> bool {
    forall|i: int, j: int| 0 <= i < j < s.len() ==> #[trigger] s[i] < #[trigger] s[j]
}

/// Inserts `x` into the strictly increasing `v`, keeping it so.
pub fn insert_id_sorted(v: &mut Vec<u64>, x: u64)
    requires
        sorted_ids(old(v)@),
    ensures
        sorted_ids(final(v)@),
        final(v)@.to_set() == old(v)@.to_set().insert(x),
{
    let ghost s0 = v@;
    let mut i: usize = 0;
    while i < v.len() && v[i] < x
        invariant
            v@ == s0,
            sorted_ids(s0),
            i <= v@.len(),
            forall|j: int| 0 <= j < i ==> #[trigger] s0[j] < x,
        decreases v@.len() - i,
    {
        i = i + 1;
    }
    if i < v.len() && v[i] == x {
        assert(s0.to_set() =~= s0.to_set().insert(x)) by {
            assert(s0[i as int] == x);
        }
        return;
    }
    v.insert(i, x);
    let ghost s1 = v@;
    assert(s1 =~= s0.insert(i as int, x));
    assert forall|a: int, b: int| 0 <= a < b < s1.len() implies #[trigger] s1[a] < #[trigger] s1[b] by {
        if b < i {
            assert(s1[a] == s0[a] && s1[b] == s0[b]);
        } else if a < i && b == i {
            assert(s1[a] == s0[a]);
        } else if a < i {
            assert(s1[a] == s0[a] && s1[b] == s0[b - 1]);
        } else if a == i {
            assert(s1[b] == s0[b - 1]);
            if b - 1 > i {
                assert(s0[i as int] < s0[b - 1]);
            }
        } else {
            assert(s1[a] == s0[a - 1] && s1[b] == s0[b - 1]);
        }
    }
    assert(s1.to_set() =~= s0.to_set().insert(x)) by {
        assert forall|y: u64| s0.to_set().insert(x).contains(y) implies s1.to_set().contains(y) by {
            if y == x {
                assert(s1[i as int] == y);
            } else {
                let k = choose|k: int| 0 <= k < s0.len() && s0[k] == y;
                if k < i {
                    assert(s1[k] == y);
                } else {
                    assert(s1[k + 1] == y);
                }
            }
        }
    }
}

/// Removes `x` from the strictly increasing `v`, keeping it so.
pub fn remove_id_sorted(v: &mut Vec<u64>, x: u64)
    requires
        sorted_ids(old(v)@),
    ensures
        sorted_ids(final(v)@),
        final(v)@.to_set() == old(v)@.to_set().remove(x),
{
    let ghost s0 = v@;
    let mut i: usize = 0;
    while i < v.len() && v[i] != x
        invariant
            v@ == s0,
            i <= v@.len(),
            forall|j: int| 0 <= j < i ==> #[trigger] s0[j] != x,
        decreases v@.len() - i,
    {
        i = i + 1;
    }
    if i == v.len() {
        assert(s0.to_set() =~= s0.to_set().remove(x));
        return;
    }
    v.remove(i);
    let ghost s1 = v@;
    assert(s1 =~= s0.remove(i as int));
    assert forall|a: int, b: int| 0 <= a < b < s1.len() implies #[trigger] s1[a] < #[trigger] s1[b] by {
        if b < i {
            assert(s1[a] == s0[a] && s1[b] == s0[b]);
        } else if a < i {
            assert(s1[a] == s0[a] && s1[b] == s0[b + 1]);
        } else {
            assert(s1[a] == s0[a + 1] && s1[b] == s0[b + 1]);
        }
    }
    assert(s1.to_set() =~= s0.to_set().remove(x)) by {
        assert forall|y: u64| s0.to_set().remove(x).contains(y) implies s1.to_set().contains(y) by {
            let k = choose|k: int| 0 <= k < s0.len() && s0[k] == y;
            if k < i {
                assert(s1[k] == y);
            } else {
                assert(k != i);
                assert(s1[k - 1] == y);
            }
        }
        assert forall|y: u64| s1.to_set().contains(y) implies s0.to_set().remove(x).contains(y) by {
            let k = choose|k: int| 0 <= k < s1.len() && s1[k] == y;
            if k < i {
                assert(s0[k] == y);
            } else {
                assert(s0[k + 1] == y);
                assert(s0[k + 1] != s0[i as int]);
            }
        }
    }
}

/// Appending one element adds it to the set of elements.
pub proof fn lemma_push_to_set<A>(s: Seq<A>, x: A)
    ensures
        s.push(x).to_set() == s.to_set().insert(x),
{
    let t = s.push(x);
    assert forall|y: A| s.to_set().insert(x).contains(y) implies t.to_set().contains(y) by {
        if y == x {
            assert(t[s.len() as int] == y);
        } else {
            let k = choose|k: int| 0 <= k < s.len() && s[k] == y;
            assert(t[k] == y);
        }
    }
    assert forall|y: A| t.to_set().contains(y) implies s.to_set().insert(x).contains(y) by {
        let k = choose|k: int| 0 <= k < t.len() && t[k] == y;
        if k < s.len() {
            assert(s[k] == y);
        }
    }
    assert(t.to_set() =~= s.to_set().insert(x));
}

/// The first `k + 1` elements hold what the first `k` hold and element `k`.
pub proof fn lemma_take_contains<A>(s: Seq<A>, k: int)
    requires
        0 <= k < s.len(),
    ensures
        forall|x: A| #[trigger] s.take(k + 1).contains(x) <==> s.take(k).contains(x) || x == s[k],
{
    assert(s.take(k + 1) =~= s.take(k).push(s[k]));
    assert forall|x: A| #[trigger] s.take(k + 1).contains(x) <==> s.take(k).contains(x) || x == s[k] by {
        if s.take(k + 1).contains(x) {
            let j = choose|j: int| 0 <= j < k + 1 && #[trigger] s.take(k + 1)[j] == x;
            if j < k {
                assert(s.take(k)[j] == x);
            }
        }
        if s.take(k).contains(x) {
            let j = choose|j: int| 0 <= j < k && #[trigger] s.take(k)[j] == x;
            assert(s.take(k + 1)[j] == x);
        }
        if x == s[k] {
            assert(s.take(k + 1)[k] == x);
        }
    }
}

/// The strictly increasing sequence of the ids in `v`.
pub fn sorted_unique_ids(v: &Vec<u64>) -> (out: Vec<u64>)
    ensures
        sorted_ids(out@),
        out@.to_set() == v@.to_set(),
{
    let mut out: Vec<u64> = Vec::new();
    let mut i: usize = 0;
    while i < v.len()
        invariant
            i <= v@.len(),
            sorted_ids(out@),
            out@.to_set() == v@.take(i as int).to_set(),
        decreases v@.len() - i,
    {
        insert_id_sorted(&mut out, v[i]);
        assert(v@.take(i + 1) =~= v@.take(i as int).push(v@[i as int]));
        proof {
            lemma_push_to_set(v@.take(i as int), v@[i as int]);
        }
        i = i + 1;
    }
    assert(v@.take(v@.len() as int) =~= v@);
    out
}

/// The elements of `a` that `b` also holds, in the order of `a`.
pub fn retain_ids_in(a: &Vec<u64>, b: &Vec<u64>) -> (out: Vec<u64>)
    requires
        sorted_ids(a@),
    ensures
        sorted_ids(out@),
        forall|x: u64| #[trigger] out@.contains(x) <==> a@.contains(x) && b@.contains(x),
{
    let mut out: Vec<u64> = Vec::new();
    let mut i: usize = 0;
    while i < a.len()
        invariant
            i <= a@.len(),
            sorted_ids(a@),
            sorted_ids(out@),
            forall|x: u64| #[trigger] out@.contains(x) <==> a@.take(i as int).contains(x) && b@.contains(x),
        decreases a@.len() - i,
    {
        let x = a[i];
        proof {
            lemma_take_contains(a@, i as int);
        }
        if contains_id(b, x) {
            proof {
                assert forall|j: int| 0 <= j < out@.len() implies out@[j] < x by {
                    assert(out@.contains(out@[j]));
                    assert(a@.take(i as int).contains(out@[j]));
                    let q = choose|q: int| 0 <= q < i && #[trigger] a@.take(i as int)[q] == out@[j];
                    assert(a@[q] == out@[j]);
                }
            }
            let ghost before = out@;
            out.push(x);
            proof {
                assert forall|y: u64| #[trigger] out@.contains(y) <==> a@.take(i + 1).contains(y) && b@.contains(y) by {
                    if out@.contains(y) {
                        let j = choose|j: int| 0 <= j < out@.len() && out@[j] == y;
                        if j < before.len() {
                            assert(before[j] == y);
                            assert(before.contains(y));
                        }
                    }
                    if a@.take(i as int).contains(y) && b@.contains(y) {
                        assert(before.contains(y));
                        let j = choose|j: int| 0 <= j < before.len() && before[j] == y;
                        assert(out@[j] == y);
                    }
                    if y == x {
                        assert(out@[before.len() as int] == y);
                    }
                }
            }
        } else {
            proof {
                assert forall|y: u64| #[trigger] out@.contains(y) <==> a@.take(i + 1).contains(y) && b@.contains(y) by {}
            }
        }
        i = i + 1;
    }
    assert(a@.take(a@.len() as int) =~= a@);
    out
}

/// Whether the id sequence holds `x`.
pub fn contains_id(v: &Vec<u64>, x: u64) -> (r: bool)
    ensures
        r == v@.contains(x),
{
    let mut i: usize = 0;
    while i < v.len()
        invariant
            i <= v@.len(),
            forall|j: int| 0 <= j < i ==> v@[j] != x,
        decreases v@.len() - i,
    {
        if v[i] == x {
            return true;
        }
        i = i + 1;
    }
    false
}

// ---------------------------------------------------------------------------
// Tag normalisation
// ---------------------------------------------------------------------------

/// Whether a character is white space (`char::is_whitespace`: the Unicode
/// `White_Space` property).
pub uninterp spec fn is_white(c: char) -> bool;

/// `char::is_whitespace`.
#[verifier::external_body]
pub(crate) fn char_is_whitespace(c: char) -> (b: bool)
    ensures
        b == is_white(c),
{
    c.is_whitespace()
}

/// The number of white-space characters that `s` starts with.
pub open spec fn leading_white(s: Seq<char>) -> nat
    decreases s.len(),
{
    if s.len() > 0 && is_white(s[0]) {
        1 + leading_white(s.skip(1))
    } else {
        0
    }
}

/// The number of white-space characters that `s` ends with.
pub open spec fn trailing_white(s: Seq<char>) -> nat
    decreases s.len(),
{
    if s.len() > 0 && is_white(s.last()) {
        1 + trailing_white(s.drop_last())
    } else {
        0
    }
}

/// What `str::trim` returns for a string: the string without its leading and
/// trailing white space.
pub open spec fn str_trim(s: Seq<char>) -> Seq<char> {
    if leading_white(s) >= s.len() {
        Seq::empty()
    } else {
        s.subrange(leading_white(s) as int, s.len() - trailing_white(s))
    }
}

/// Splits text at white space: the words closed so far and the open one.
pub open spec fn word_scan(s: Seq<char>) -> (Seq<Seq<char>>, Seq<char>)
    decreases s.len(),
{
    if s.len() == 0 {
        (Seq::empty(), Seq::empty())
    } else {
        let (words, cur) = word_scan(s.drop_last());
        if is_white(s.last()) {
            (if cur.len() > 0 {
                words.push(cur)
            } else {
                words
            }, Seq::empty())
        } else {
            (words, cur.push(s.last()))
        }
    }
}

/// The words of a text: its maximal runs of characters that are not white
/// space, in order.
pub open spec fn words_of(s: Seq<char>) -> Seq<Seq<char>> {
    let (words, cur) = word_scan(s);
    if cur.len() > 0 {
        words.push(cur)
    } else {
        words
    }
}

/// The words of `text` (`str::split_whitespace`).
pub fn split_words(text: &str) -> (words: Vec<String>)
    ensures
        words.deep_view() == words_of(text@),
{
    let cs = chars_of(text);
    let mut words: Vec<String> = Vec::new();
    let mut cur = String::new();
    let mut i: usize = 0;
    proof {
        assert(words.deep_view() =~= word_scan(cs@.take(0)).0);
        assert(cur@ =~= word_scan(cs@.take(0)).1);
    }
    while i < cs.len()
        invariant
            i <= cs@.len(),
            cs@ == text@,
            words.deep_view() == word_scan(cs@.take(i as int)).0,
            cur@ == word_scan(cs@.take(i as int)).1,
        decreases cs@.len() - i,
    {
        assert(cs@.take(i + 1).drop_last() =~= cs@.take(i as int));
        let c = cs[i];
        if char_is_whitespace(c) {
            if !cur.as_str().is_empty() {
                let ghost before = words.deep_view();
                words.push(cur);
                assert(words.deep_view() =~= before.push(word_scan(cs@.take(i as int)).1));
            } else {
                assert(cur@.len() == 0);
            }
            cur = String::new();
        } else {
            string_push(&mut cur, c);
        }
        i = i + 1;
    }
    assert(cs@.take(cs@.len() as int) =~= cs@);
    if !cur.as_str().is_empty() {
        let ghost before = words.deep_view();
        words.push(cur);
        assert(words.deep_view() =~= before.push(word_scan(cs@).1));
    }
    words
}

/// What `str::to_lowercase` returns for a string.
pub uninterp spec fn str_lowercase(s: Seq<char>) -> Seq<char>;

/// `str::trim`.
#[verifier::external_body]
pub(crate) fn trim_str(s: &str) -> (r: &str)
    ensures
        r@ == str_trim(s@),
{
    s.trim()
}

/// `str::to_lowercase`.
#[verifier::external_body]
pub(crate) fn lowercase_str(s: &str) -> (r: String)
    ensures
        r@ == str_lowercase(s@),
{
    s.to_lowercase()
}

/// The normal form of one tag: trimmed, then lower-cased.
pub open spec fn normal_tag(t: Seq<char>) -> Seq<char> {
    str_lowercase(str_trim(t))
}

/// The set of non-empty normal forms of the given tags.
pub open spec fn normal_tag_set(tags: Seq<Seq<char>>) -> Set<Seq<char>> {
    Set::new(
        |x: Seq<char>|
            x.len() > 0 && exists|i: int| 0 <= i < tags.len() && normal_tag(tags[i]) == x,
    )
}

/// A canonical tag list for a set: strictly increasing, holding exactly
/// the set's members.
pub open spec fn canonical_tags(s: Seq<Seq<char>>, set: Set<Seq<char>>) -> bool {
    sorted_texts(s) && s.to_set() == set
}

/// Two strictly increasing sequences with the same elements are equal.
pub proof fn lemma_sorted_texts_same_set(a: Seq<Seq<char>>, b: Seq<Seq<char>>)
    requires
        sorted_texts(a),
        sorted_texts(b),
        a.to_set() == b.to_set(),
    ensures
        a == b,
    decreases a.len(),
{
    if a.len() == 0 {
        if b.len() > 0 {
            assert(b.to_set().contains(b[0]));
        }
        assert(a =~= b);
    } else {
        assert(a.to_set().contains(a[0]));
        assert(b.len() > 0);
        assert(b.to_set().contains(b[0]));
        let j = choose|j: int| 0 <= j < b.len() && b[j] == a[0];
        let i = choose|i: int| 0 <= i < a.len() && a[i] == b[0];
        if j > 0 {
            assert(text_lt(b[0], b[j]));
            if i > 0 {
                assert(text_lt(a[0], a[i]));
                lemma_text_order(a[0], b[0], b[0]);
            } else {
                lemma_text_order(b[0], b[0], b[0]);
            }
        }
        assert(a[0] == b[0]);
        let a1 = a.drop_first();
        let b1 = b.drop_first();
        assert forall|x: Seq<char>| a1.to_set().contains(x) <==> b1.to_set().contains(x) by {
            if a1.to_set().contains(x) {
                let p = choose|p: int| 0 <= p < a1.len() && a1[p] == x;
                assert(a[p + 1] == x);
                assert(text_lt(a[0], a[p + 1]));
                lemma_text_order(a[0], a[0], a[0]);
                assert(b.to_set().contains(x));
                let q = choose|q: int| 0 <= q < b.len() && b[q] == x;
                if q == 0 {
                    lemma_text_order(a[0], x, x);
                }
                assert(b1[q - 1] == x);
            }
            if b1.to_set().contains(x) {
                let p = choose|p: int| 0 <= p < b1.len() && b1[p] == x;
                assert(b[p + 1] == x);
                assert(text_lt(b[0], b[p + 1]));
                assert(a.to_set().contains(x));
                let q = choose|q: int| 0 <= q < a.len() && a[q] == x;
                if q == 0 {
                    lemma_text_order(b[0], x, x);
                }
                assert(a1[q - 1] == x);
            }
        }
        assert(a1.to_set() =~= b1.to_set());
        lemma_sorted_texts_same_set(a1, b1);
        assert(a =~= seq![a[0]] + a1);
        assert(b =~= seq![b[0]] + b1);
    }
}

/// The canonical tag list of a tag list: the normal forms, without
/// duplicates, ascending.
pub open spec fn canonical_of(tags: Seq<Seq<char>>) -> Seq<Seq<char>> {
    choose|c: Seq<Seq<char>>| canonical_tags(c, normal_tag_set(tags))
}

/// A canonical list of a tag list's normal forms is its canonical list.
pub proof fn lemma_canonical_of(tags: Seq<Seq<char>>, c: Seq<Seq<char>>)
    requires
        canonical_tags(c, normal_tag_set(tags)),
    ensures
        canonical_of(tags) == c,
{
    let d = canonical_of(tags);
    assert(canonical_tags(d, normal_tag_set(tags)));
    lemma_sorted_texts_same_set(c, d);
}

/// Trims and lower-cases one tag.
pub fn normalize_tag(tag: &str) -> (r: String)
    ensures
        r@ == normal_tag(tag@),
{
    lowercase_str(trim_str(tag))
}

/// Normalises a tag list: each tag trimmed and lower-cased, empty ones
/// dropped, duplicates merged, the rest in ascending order.
pub fn normalize_tag_list(tags: &[String]) -> (out: Vec<String>)
    ensures
        canonical_tags(out.deep_view(), normal_tag_set(tags.deep_view())),
{
    let mut out: Vec<String> = Vec::new();
    let ghost ts = tags.deep_view();
    let mut k: usize = 0;
    while k < tags.len()
        invariant
            k <= tags@.len(),
            ts == tags.deep_view(),
            sorted_texts(out.deep_view()),
            out.deep_view().to_set() == normal_tag_set(ts.take(k as int)),
        decreases tags@.len() - k,
    {
        let n = normalize_tag(tags[k].as_str());
        if !n.as_str().is_empty() {
            insert_text_sorted(&mut out, n);
        }
        proof {
            let t1 = ts.take(k + 1);
            let t0 = ts.take(k as int);
            assert(t1 =~= t0.push(ts[k as int]));
            assert forall|x: Seq<char>| normal_tag_set(t1).contains(x) <==> out.deep_view().to_set().contains(x) by {
                if normal_tag_set(t1).contains(x) {
                    let i = choose|i: int| 0 <= i < t1.len() && normal_tag(t1[i]) == x;
                    if i < k {
                        assert(t0[i] == t1[i]);
                        assert(normal_tag_set(t0).contains(x));
                    }
                }
                if normal_tag_set(t0).contains(x) {
                    let i = choose|i: int| 0 <= i < t0.len() && normal_tag(t0[i]) == x;
                    assert(t1[i] == t0[i]);
                }
                if x == normal_tag(ts[k as int]) && x.len() > 0 {
                    assert(t1[k as int] == ts[k as int]);
                }
            }
            assert(out.deep_view().to_set() =~= normal_tag_set(t1));
        }
        k = k + 1;
    }
    assert(ts.take(tags@.len() as int) =~= ts);
    out
}

} // verus!
