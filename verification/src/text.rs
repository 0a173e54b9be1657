//! Character-level helpers shared by the query language, the index and the
//! detection rules: ASCII case folding, message tokenization, substring
//! search, decimal and hexadecimal rendering, and UTF-8 encoding.

use vstd::prelude::*;
use vstd::std_specs::iter::IteratorSpec;

verus! {

broadcast use vstd::string::group_string_axioms;

/// The characters of a string slice, in order.
pub fn chars_of(s: &str) -> (v: Vec<char>)
    ensures
        v@ == s@,
{
    let mut out: Vec<char> = Vec::new();
    for c in it: s.chars()
        invariant
            out@ == it.seq().take(it.index() as int),
            it.seq() == s@,
    {
        assert(it.seq().take(it.index() + 1) =~= out@.push(c));
        out.push(c);
    }
    out
}

/// Appends one character to a string (`String::push`).
#[verifier::external_body]
pub(crate) fn push_char(s: &mut String, c: char)
    ensures
        final(s)@ == old(s)@.push(c),
{
    s.push(c);
}

/// A string holding exactly the given characters.
pub fn string_of(cs: &[char]) -> (s: String)
    ensures
        s@ == cs@,
{
    let mut s = String::new();
    let mut i: usize = 0;
    while i < cs.len()
        invariant
            i <= cs.len(),
            s@ == cs@.take(i as int),
        decreases cs.len() - i,
    {
        push_char(&mut s, cs[i]);
        assert(cs@.take(i as int).push(cs@[i as int]) =~= cs@.take(i + 1));
        i += 1;
    }
    assert(cs@.take(cs.len() as int) =~= cs@);
    s
}

} // verus!

verus! {

/// ASCII case folding of one character (`char::to_ascii_lowercase`).
pub open spec fn lower_char(c: char) -> char {
    if 'A' <= c && c <= 'Z' {
        ((c as u32) + 32) as char
    } else {
        c
    }
}

/// ASCII case folding of a character sequence (`str::to_ascii_lowercase`).
pub open spec fn lower(s: Seq<char>) -> Seq<char> {
    s.map_values(|c: char| lower_char(c))
}

/// Folding twice folds once.
pub proof fn lemma_lower_idem(s: Seq<char>)
    ensures
        lower(lower(s)) == lower(s),
{
    assert forall|i: int| 0 <= i < s.len() implies lower(lower(s))[i] == lower(s)[i] by {
        let c = s[i];
        if 'A' <= c && c <= 'Z' {
            assert('a' <= lower_char(c) && lower_char(c) <= 'z') by {
                assert(('A' as u32) == 65 && ('Z' as u32) == 90 && ('a' as u32) == 97 && ('z' as u32) == 122);
            }
        }
    }
    assert(lower(lower(s)) =~= lower(s));
}

pub fn lower_char_exec(c: char) -> (r: char)
    ensures
        r == lower_char(c),
{
    if 'A' <= c && c <= 'Z' {
        let b: u8 = c as u8;
        (b + 32) as char
    } else {
        c
    }
}

/// ASCII lowercase copy of a character sequence.
pub fn to_lower(cs: &[char]) -> (r: Vec<char>)
    ensures
        r@ == lower(cs@),
{
    let mut r: Vec<char> = Vec::new();
    let mut i: usize = 0;
    while i < cs.len()
        invariant
            i <= cs.len(),
            r@ == lower(cs@.take(i as int)),
        decreases cs.len() - i,
    {
        let c = lower_char_exec(cs[i]);
        r.push(c);
        assert(lower(cs@.take(i + 1)) =~= lower(cs@.take(i as int)).push(lower_char(cs@[i as int])));
        i += 1;
    }
    assert(cs@.take(cs.len() as int) =~= cs@);
    r
}

/// The Unicode `White_Space` property (`char::is_whitespace`).
pub open spec fn is_white(c: char) -> bool {
    let v = c as u32;
    ||| 0x9 <= v <= 0xD
    ||| v == 0x20
    ||| v == 0x85
    ||| v == 0xA0
    ||| v == 0x1680
    ||| 0x2000 <= v <= 0x200A
    ||| v == 0x2028
    ||| v == 0x2029
    ||| v == 0x202F
    ||| v == 0x205F
    ||| v == 0x3000
}

pub fn is_white_exec(c: char) -> (r: bool)
    ensures
        r == is_white(c),
{
    let v: u32 = c as u32;
    (0x9 <= v && v <= 0xD) || v == 0x20 || v == 0x85 || v == 0xA0 || v == 0x1680 || (0x2000 <= v
        && v <= 0x200A) || v == 0x2028 || v == 0x2029 || v == 0x202F || v == 0x205F || v == 0x3000
}

/// Whether a character sequence holds any whitespace character.
pub open spec fn has_white(s: Seq<char>) -> bool {
    exists|i: int| 0 <= i < s.len() && is_white(#[trigger] s[i])
}

pub fn has_white_exec(cs: &[char]) -> (r: bool)
    ensures
        r == has_white(cs@),
{
    let mut i: usize = 0;
    while i < cs.len()
        invariant
            i <= cs.len(),
            forall|j: int| 0 <= j < i ==> !is_white(#[trigger] cs@[j]),
        decreases cs.len() - i,
    {
        if is_white_exec(cs[i]) {
            return true;
        }
        i += 1;
    }
    false
}

/// Whether every character is whitespace (`str::trim().is_empty()`).
pub open spec fn all_white(s: Seq<char>) -> bool {
    forall|i: int| 0 <= i < s.len() ==> is_white(#[trigger] s[i])
}

pub fn all_white_exec(cs: &[char]) -> (r: bool)
    ensures
        r == all_white(cs@),
{
    let mut i: usize = 0;
    while i < cs.len()
        invariant
            i <= cs.len(),
            forall|j: int| 0 <= j < i ==> is_white(#[trigger] cs@[j]),
        decreases cs.len() - i,
    {
        if !is_white_exec(cs[i]) {
            return false;
        }
        i += 1;
    }
    true
}

/// What `char::is_alphanumeric` returns for a character: whether it has the
/// Unicode `Alphabetic` property or a numeric general category.
pub uninterp spec fn alphanumeric(c: char) -> bool;

/// `char::is_alphanumeric`. Its contract only names the result; the
/// Unicode tables that decide it are not restated here.
#[verifier::external_body]
fn is_alphanumeric_exec(c: char) -> (r: bool)
    ensures
        r == alphanumeric(c),
{
    c.is_alphanumeric()
}

/// Characters that may stand inside a message token.
pub open spec fn is_token_char(c: char) -> bool {
    alphanumeric(c) || c == '_' || c == '-'
}

/// Left-to-right scan of a message: tokens already closed, and the
/// (lowercased) token being read.
pub open spec fn token_scan(s: Seq<char>) -> (Seq<Seq<char>>, Seq<char>)
    decreases s.len(),
{
    if s.len() == 0 {
        (Seq::empty(), Seq::empty())
    } else {
        let (done, cur) = token_scan(s.drop_last());
        let c = s.last();
        if is_token_char(c) {
            (done, cur.push(lower_char(c)))
        } else if cur.len() > 0 {
            (done.push(cur), Seq::empty())
        } else {
            (done, cur)
        }
    }
}

/// The lowercased maximal runs of token characters of a message, in order.
pub open spec fn tokens(s: Seq<char>) -> Seq<Seq<char>> {
    let (done, cur) = token_scan(s);
    if cur.len() > 0 {
        done.push(cur)
    } else {
        done
    }
}

/// A stretch of letters, digits, `_` and `-` is one token, lowercased: a
/// hyphen or an underscore never splits a word of a message.
pub proof fn lemma_word_is_one_token(s: Seq<char>)
    requires
        s.len() > 0,
        forall|i: int| 0 <= i < s.len() ==> alphanumeric(#[trigger] s[i]) || s[i] == '_' || s[i] == '-',
    ensures
        tokens(s) == seq![lower(s)],
{
    lemma_run_scan(s);
}

/// Reading a further stretch of token characters extends the token being
/// read.
proof fn lemma_scan_extend_run(p: Seq<char>, run: Seq<char>)
    requires
        forall|i: int| 0 <= i < run.len() ==> alphanumeric(#[trigger] run[i]) || run[i] == '_' || run[i] == '-',
    ensures
        token_scan(p + run) == (token_scan(p).0, token_scan(p).1 + lower(run)),
    decreases run.len(),
{
    if run.len() == 0 {
        assert(p + run =~= p);
        assert(token_scan(p).1 + lower(run) =~= token_scan(p).1);
    } else {
        let r0 = run.drop_last();
        assert forall|i: int| 0 <= i < r0.len() implies alphanumeric(#[trigger] r0[i]) || r0[i] == '_' || r0[i] == '-' by {
            assert(r0[i] == run[i]);
        }
        lemma_scan_extend_run(p, r0);
        assert((p + run).drop_last() =~= p + r0);
        assert((p + run).last() == run[run.len() - 1]);
        assert(token_scan(p).1 + lower(run) =~= (token_scan(p).1 + lower(r0)).push(lower_char(run.last())));
    }
}

/// Two words apart are two tokens: a stretch of letters, digits, `_` and
/// `-`, one other character, and another such stretch give the two
/// stretches, lowercased, in order.
pub proof fn lemma_two_words(w1: Seq<char>, c: char, w2: Seq<char>)
    requires
        w1.len() > 0,
        w2.len() > 0,
        forall|i: int| 0 <= i < w1.len() ==> alphanumeric(#[trigger] w1[i]) || w1[i] == '_' || w1[i] == '-',
        forall|i: int| 0 <= i < w2.len() ==> alphanumeric(#[trigger] w2[i]) || w2[i] == '_' || w2[i] == '-',
        !(alphanumeric(c) || c == '_' || c == '-'),
    ensures
        tokens(w1 + seq![c] + w2) == seq![lower(w1), lower(w2)],
{
    lemma_run_scan(w1);
    let p = w1 + seq![c];
    assert(p.drop_last() =~= w1);
    assert(p.last() == c);
    assert(token_scan(p) == (seq![lower(w1)], Seq::<char>::empty()));
    lemma_scan_extend_run(p, w2);
    assert(Seq::<char>::empty() + lower(w2) =~= lower(w2));
}

/// Text with no letter, digit, `_` or `-` has no tokens.
pub proof fn lemma_separators_only(s: Seq<char>)
    requires
        forall|i: int| 0 <= i < s.len() ==> !(alphanumeric(#[trigger] s[i]) || s[i] == '_' || s[i] == '-'),
    ensures
        tokens(s) == Seq::<Seq<char>>::empty(),
{
    lemma_separator_scan(s);
}

proof fn lemma_separator_scan(s: Seq<char>)
    requires
        forall|i: int| 0 <= i < s.len() ==> !(alphanumeric(#[trigger] s[i]) || s[i] == '_' || s[i] == '-'),
    ensures
        token_scan(s) == (Seq::<Seq<char>>::empty(), Seq::<char>::empty()),
    decreases s.len(),
{
    if s.len() > 0 {
        let p = s.drop_last();
        assert forall|i: int| 0 <= i < p.len() implies !(alphanumeric(#[trigger] p[i]) || p[i] == '_' || p[i] == '-') by {
            assert(p[i] == s[i]);
        }
        lemma_separator_scan(p);
        assert(s[s.len() - 1] == s.last());
    }
}

proof fn lemma_run_scan(s: Seq<char>)
    requires
        forall|i: int| 0 <= i < s.len() ==> alphanumeric(#[trigger] s[i]) || s[i] == '_' || s[i] == '-',
    ensures
        token_scan(s) == (Seq::<Seq<char>>::empty(), lower(s)),
    decreases s.len(),
{
    if s.len() > 0 {
        let p = s.drop_last();
        assert forall|i: int| 0 <= i < p.len() implies alphanumeric(#[trigger] p[i]) || p[i] == '_' || p[i] == '-' by {
            assert(p[i] == s[i]);
        }
        lemma_run_scan(p);
        assert(s[s.len() - 1] == s.last());
        assert(lower(s) =~= lower(p).push(lower_char(s.last())));
    } else {
        assert(lower(s) =~= Seq::<char>::empty());
    }
}

/// The character sequences held by a vector of character vectors.
pub open spec fn views(v: Seq<Vec<char>>) -> Seq<Seq<char>> {
    v.map_values(|x: Vec<char>| x@)
}

/// Splits a message into lowercase tokens.
pub fn tokenize(cs: &[char]) -> (r: Vec<Vec<char>>)
    ensures
        views(r@) == tokens(cs@),
{
    let mut done: Vec<Vec<char>> = Vec::new();
    let mut cur: Vec<char> = Vec::new();
    let mut i: usize = 0;
    while i < cs.len()
        invariant
            i <= cs.len(),
            (views(done@), cur@) == token_scan(cs@.take(i as int)),
        decreases cs.len() - i,
    {
        let c = cs[i];
        assert(cs@.take(i + 1).drop_last() =~= cs@.take(i as int));
        if is_alphanumeric_exec(c) || c == '_' || c == '-' {
            let l = lower_char_exec(c);
            cur.push(l);
        } else if cur.len() > 0 {
            let finished = cur;
            cur = Vec::new();
            let ghost d = views(done@);
            let ghost f = finished@;
            done.push(finished);
            assert(views(done@) =~= d.push(f));
        }
        i += 1;
        assert((views(done@), cur@) == token_scan(cs@.take(i as int)));
    }
    assert(cs@.take(cs.len() as int) =~= cs@);
    if cur.len() > 0 {
        let ghost d = views(done@);
        let ghost c = cur@;
        done.push(cur);
        assert(views(done@) =~= d.push(c));
    }
    done
}

/// Whether `needle` occurs as a contiguous piece of `hay`.
pub open spec fn contains_seq(hay: Seq<char>, needle: Seq<char>) -> bool {
    exists|i: int|
        0 <= i && i + needle.len() <= hay.len() && #[trigger] hay.subrange(i, i + needle.len())
            == needle
}

fn matches_at(hay: &[char], needle: &[char], at: usize) -> (r: bool)
    requires
        at + needle.len() <= hay.len(),
    ensures
        r == (hay@.subrange(at as int, at + needle.len()) == needle@),
{
    let mut j: usize = 0;
    while j < needle.len()
        invariant
            j <= needle.len(),
            at + needle.len() <= hay.len(),
            forall|k: int| 0 <= k < j ==> hay@[at + k] == needle@[k],
        decreases needle.len() - j,
    {
        if hay[at + j] != needle[j] {
            assert(hay@.subrange(at as int, at + needle.len())[j as int] != needle@[j as int]);
            return false;
        }
        j += 1;
    }
    assert(hay@.subrange(at as int, at + needle.len()) =~= needle@);
    true
}

/// Substring search (`str::contains`).
pub fn contains_exec(hay: &[char], needle: &[char]) -> (r: bool)
    ensures
        r == contains_seq(hay@, needle@),
{
    if needle.len() > hay.len() {
        return false;
    }
    let last = hay.len() - needle.len();
    let mut i: usize = 0;
    while i <= last
        invariant
            last + needle.len() == hay.len(),
            forall|k: int|
                0 <= k < i ==> #[trigger] hay@.subrange(k, k + needle.len()) != needle@,
        decreases last + 1 - i,
    {
        if matches_at(hay, needle, i) {
            return true;
        }
        if i == last {
            assert(forall|k: int|
                0 <= k && k + needle.len() <= hay.len() ==> #[trigger] hay@.subrange(
                    k,
                    k + needle.len(),
                ) != needle@);
            return false;
        }
        i += 1;
    }
    false
}

/// Prefix test (`str::starts_with`).
pub fn starts_with_exec(s: &[char], prefix: &[char]) -> (r: bool)
    ensures
        r == prefix@.is_prefix_of(s@),
{
    if prefix.len() > s.len() {
        return false;
    }
    let r = matches_at(s, prefix, 0);
    proof {
        if r {
            assert(prefix@ =~= s@.subrange(0, prefix@.len() as int));
        } else {
            assert(s@.subrange(0, prefix@.len() as int) != prefix@);
        }
    }
    r
}

/// Element-wise equality of two character sequences.
pub fn seq_eq(a: &[char], b: &[char]) -> (r: bool)
    ensures
        r == (a@ == b@),
{
    if a.len() != b.len() {
        return false;
    }
    let r = matches_at(a, b, 0);
    proof {
        if r {
            assert(a@ =~= a@.subrange(0, b@.len() as int));
        }
        if a@ == b@ {
            assert(a@.subrange(0, b@.len() as int) =~= a@);
        }
    }
    r
}

/// The decimal digit for `d < 10`.
pub open spec fn digit(d: nat) -> char {
    (('0' as u32) + d) as char
}

/// Decimal rendering of a natural number, as `format!("{}", n)` writes it.
pub open spec fn dec(n: nat) -> Seq<char>
    decreases n,
{
    if n < 10 {
        seq![digit(n)]
    } else {
        dec(n / 10).push(digit(n % 10))
    }
}

/// Decimal rendering of an integer, with a leading `-` when negative.
pub open spec fn dec_int(n: int) -> Seq<char> {
    if n < 0 {
        seq!['-'] + dec((-n) as nat)
    } else {
        dec(n as nat)
    }
}

fn digit_exec(d: u64) -> (c: char)
    requires
        d < 10,
    ensures
        c == digit(d as nat),
{
    let b: u8 = (48 + d) as u8;
    b as char
}

/// Appends the decimal rendering of `n`.
pub fn push_dec(s: &mut String, n: u64)
    ensures
        final(s)@ == old(s)@ + dec(n as nat),
    decreases n,
{
    if n >= 10 {
        push_dec(s, n / 10);
    }
    let c = digit_exec(n % 10);
    push_char(s, c);
    if n >= 10 {
        assert(final(s)@ =~= old(s)@ + dec(n as nat));
    } else {
        assert(final(s)@ =~= old(s)@ + dec(n as nat));
    }
}

/// Appends the decimal rendering of a signed integer.
pub fn push_dec_i64(s: &mut String, n: i64)
    ensures
        final(s)@ == old(s)@ + dec_int(n as int),
{
    if n < 0 {
        push_char(s, '-');
        let m: u64 = ((-(n + 1)) as u64) + 1;
        push_dec(s, m);
        assert(final(s)@ =~= old(s)@ + dec_int(n as int));
    } else {
        push_dec(s, n as u64);
    }
}

/// Appends a string slice.
pub fn push_str(s: &mut String, t: &str)
    ensures
        final(s)@ == old(s)@ + t@,
{
    s.append(t);
}

/// The lowercase hexadecimal digit for `d < 16`.
pub open spec fn hex_digit(d: int) -> char {
    if d < 10 {
        (('0' as int) + d) as char
    } else {
        (('a' as int) + d - 10) as char
    }
}

/// Two lowercase hexadecimal digits per byte, as `format!("{:x}", ..)`
/// writes a digest.
pub open spec fn hex(bytes: Seq<u8>) -> Seq<char>
    decreases bytes.len(),
{
    if bytes.len() == 0 {
        Seq::empty()
    } else {
        hex(bytes.drop_last()) + seq![
            hex_digit(bytes.last() as int / 16),
            hex_digit(bytes.last() as int % 16),
        ]
    }
}

fn hex_digit_exec(d: u8) -> (c: char)
    requires
        d < 16,
    ensures
        c == hex_digit(d as int),
{
    if d < 10 {
        (48 + d) as char
    } else {
        (87 + d) as char
    }
}

/// Appends the lowercase hexadecimal rendering of `bytes`.
/// Hex text has two digits per byte.
pub proof fn lemma_hex_len(bytes: Seq<u8>)
    ensures
        hex(bytes).len() == 2 * bytes.len(),
    decreases bytes.len(),
{
    if bytes.len() > 0 {
        lemma_hex_len(bytes.drop_last());
    }
}

pub fn push_hex(s: &mut String, bytes: &[u8])
    ensures
        final(s)@ == old(s)@ + hex(bytes@),
{
    let mut i: usize = 0;
    while i < bytes.len()
        invariant
            i <= bytes.len(),
            s@ == old(s)@ + hex(bytes@.take(i as int)),
        decreases bytes.len() - i,
    {
        let b = bytes[i];
        let hi = hex_digit_exec(b / 16);
        let lo = hex_digit_exec(b % 16);
        push_char(s, hi);
        push_char(s, lo);
        assert(bytes@.take(i + 1).drop_last() =~= bytes@.take(i as int));
        assert(s@ =~= old(s)@ + hex(bytes@.take(i + 1)));
        i += 1;
    }
    assert(bytes@.take(bytes.len() as int) =~= bytes@);
}

/// Lowercase hexadecimal rendering of a natural number, as
/// `format!("{:x}", n)` writes it.
pub open spec fn hex_nat(n: nat) -> Seq<char>
    decreases n,
{
    if n < 16 {
        seq![hex_digit(n as int)]
    } else {
        hex_nat(n / 16).push(hex_digit((n % 16) as int))
    }
}

/// `s` widened to `width` characters with leading zeros, as the `0`
/// flag of a width in `format!` does for numbers.
pub open spec fn zero_pad(s: Seq<char>, width: nat) -> Seq<char> {
    if s.len() >= width {
        s
    } else {
        Seq::new((width - s.len()) as nat, |i: int| '0') + s
    }
}

/// Appends the lowercase hexadecimal rendering of `n`.
pub fn push_hex_u64(s: &mut String, n: u64)
    ensures
        final(s)@ == old(s)@ + hex_nat(n as nat),
    decreases n,
{
    if n >= 16 {
        push_hex_u64(s, n / 16);
    }
    let d: u8 = (n % 16) as u8;
    let c = hex_digit_exec(d);
    push_char(s, c);
    assert(final(s)@ =~= old(s)@ + hex_nat(n as nat));
}

/// Appends `digits` widened to `width` characters with leading zeros.
pub fn push_zero_padded(s: &mut String, digits: &[char], width: usize)
    ensures
        final(s)@ == old(s)@ + zero_pad(digits@, width as nat),
{
    let mut k: usize = digits.len();
    while k < width
        invariant
            digits.len() <= k <= width || (k == digits.len() && k >= width),
            s@ == old(s)@ + Seq::new((k - digits.len()) as nat, |i: int| '0'),
        decreases width - k,
    {
        push_char(s, '0');
        assert(s@ =~= old(s)@ + Seq::new((k + 1 - digits.len()) as nat, |i: int| '0'));
        k += 1;
    }
    let ghost pad = s@;
    let mut i: usize = 0;
    while i < digits.len()
        invariant
            i <= digits.len(),
            s@ == pad + digits@.take(i as int),
        decreases digits.len() - i,
    {
        push_char(s, digits[i]);
        assert(s@ =~= pad + digits@.take(i + 1));
        i += 1;
    }
    assert(digits@.take(digits.len() as int) =~= digits@);
    if digits.len() >= width {
        assert(s@ =~= old(s)@ + zero_pad(digits@, width as nat));
    } else {
        assert(s@ =~= old(s)@ + zero_pad(digits@, width as nat));
    }
}

/// The UTF-8 encoding of one character.
pub open spec fn utf8_char(c: char) -> Seq<u8> {
    let v = c as u32;
    if v < 0x80 {
        seq![v as u8]
    } else if v < 0x800 {
        seq![(0xC0 + v / 64) as u8, (0x80 + v % 64) as u8]
    } else if v < 0x10000 {
        seq![(0xE0 + v / 4096) as u8, (0x80 + (v / 64) % 64) as u8, (0x80 + v % 64) as u8]
    } else {
        seq![
            (0xF0 + v / 262144) as u8,
            (0x80 + (v / 4096) % 64) as u8,
            (0x80 + (v / 64) % 64) as u8,
            (0x80 + v % 64) as u8,
        ]
    }
}

/// The UTF-8 encoding of a character sequence (`str::as_bytes`).
pub open spec fn utf8(s: Seq<char>) -> Seq<u8>
    decreases s.len(),
{
    if s.len() == 0 {
        Seq::empty()
    } else {
        utf8(s.drop_last()) + utf8_char(s.last())
    }
}

/// Appends the UTF-8 encoding of `cs` to a byte buffer.
pub fn push_utf8(out: &mut Vec<u8>, cs: &[char])
    ensures
        final(out)@ == old(out)@ + utf8(cs@),
{
    let mut i: usize = 0;
    while i < cs.len()
        invariant
            i <= cs.len(),
            out@ == old(out)@ + utf8(cs@.take(i as int)),
        decreases cs.len() - i,
    {
        let c = cs[i];
        let v: u32 = c as u32;
        if v < 0x80 {
            out.push(v as u8);
        } else if v < 0x800 {
            out.push((0xC0 + v / 64) as u8);
            out.push((0x80 + v % 64) as u8);
        } else if v < 0x10000 {
            out.push((0xE0 + v / 4096) as u8);
            out.push((0x80 + (v / 64) % 64) as u8);
            out.push((0x80 + v % 64) as u8);
        } else {
            out.push((0xF0 + v / 262144) as u8);
            out.push((0x80 + (v / 4096) % 64) as u8);
            out.push((0x80 + (v / 64) % 64) as u8);
            out.push((0x80 + v % 64) as u8);
        }
        assert(cs@.take(i + 1).drop_last() =~= cs@.take(i as int));
        assert(out@ =~= old(out)@ + utf8(cs@.take(i + 1)));
        i += 1;
    }
    assert(cs@.take(cs.len() as int) =~= cs@);
}

} // verus!

verus! {

/// Whether a character sequence spells the given literal.
pub fn is_lit(cs: &[char], lit: &str) -> (r: bool)
    ensures
        r == (cs@ == lit@),
{
    let l = chars_of(lit);
    seq_eq(cs, l.as_slice())
}

/// The character sequence held by an optional string.
pub open spec fn opt_view(o: Option<String>) -> Option<Seq<char>> {
    match o {
        Some(s) => Some(s@),
        None => None,
    }
}

/// A copy of an optional string.
pub fn clone_opt(o: &Option<String>) -> (r: Option<String>)
    ensures
        r == *o,
{
    match o {
        Some(s) => Some(s.clone()),
        None => None,
    }
}

} // verus!

verus! {

/// The first `n` characters.
pub fn take_chars(cs: &[char], n: usize) -> (r: Vec<char>)
    requires
        n <= cs.len(),
    ensures
        r@ == cs@.take(n as int),
{
    let mut r: Vec<char> = Vec::new();
    let mut i: usize = 0;
    while i < n
        invariant
            i <= n <= cs.len(),
            r@ == cs@.take(i as int),
        decreases n - i,
    {
        r.push(cs[i]);
        assert(r@ =~= cs@.take(i + 1));
        i += 1;
    }
    r
}

/// A copy of a character sequence.
pub fn copy_chars(cs: &[char]) -> (r: Vec<char>)
    ensures
        r@ == cs@,
{
    let r = take_chars(cs, cs.len());
    assert(cs@.take(cs.len() as int) =~= cs@);
    r
}

/// Appends characters to a vector.
pub fn extend_chars(v: &mut Vec<char>, cs: &[char])
    ensures
        final(v)@ == old(v)@ + cs@,
{
    let mut i: usize = 0;
    while i < cs.len()
        invariant
            i <= cs.len(),
            v@ == old(v)@ + cs@.take(i as int),
        decreases cs.len() - i,
    {
        v.push(cs[i]);
        assert(v@ =~= old(v)@ + cs@.take(i + 1));
        i += 1;
    }
    assert(cs@.take(cs.len() as int) =~= cs@);
}

} // verus!
