//! Characters, trimming, UTF-8 byte offsets and number rendering.

use vstd::prelude::*;
use vstd::string::*;

verus! {

// ---------------------------------------------------------------------------
// Building strings
// ---------------------------------------------------------------------------

/// Appends one character to a `String` (`String::push`).
/// Trusted: the new contents are the old contents followed by `c`.
#[verifier::external_body]
pub fn push_char(s: &mut String, c: char)
    ensures
        final(s)@ == old(s)@.push(c),
{
    s.push(c);
}

/// The characters of a string slice, in order.
pub fn chars_of(s: &str) -> (v: Vec<char>)
    ensures
        v@ == s@,
{
    let mut v: Vec<char> = Vec::new();
    for c in it: s.chars()
        invariant
            v@ == it.seq().take(it.index() as int),
            it.seq() == s@,
    {
        v.push(c);
    }
    v
}

/// A new `String` holding `v[a..b]`.
pub fn string_of(v: &Vec<char>, a: usize, b: usize) -> (s: String)
    requires
        a <= b <= v.len(),
    ensures
        s@ == v@.subrange(a as int, b as int),
{
    let mut s = String::new();
    let mut i = a;
    while i < b
        invariant
            a <= i <= b <= v.len(),
            s@ == v@.subrange(a as int, i as int),
        decreases b - i,
    {
        push_char(&mut s, v[i]);
        assert(v@.subrange(a as int, i + 1) =~= v@.subrange(a as int, i as int).push(v@[i as int]));
        i = i + 1;
    }
    s
}

/// A new vector holding `v[a..b]`.
pub fn subvec(v: &Vec<char>, a: usize, b: usize) -> (r: Vec<char>)
    requires
        a <= b <= v.len(),
    ensures
        r@ == v@.subrange(a as int, b as int),
{
    let mut r: Vec<char> = Vec::new();
    let mut i = a;
    while i < b
        invariant
            a <= i <= b <= v.len(),
            r@ == v@.subrange(a as int, i as int),
        decreases b - i,
    {
        r.push(v[i]);
        assert(v@.subrange(a as int, i + 1) =~= v@.subrange(a as int, i as int).push(v@[i as int]));
        i = i + 1;
    }
    r
}

/// Whether two character vectors hold the same characters.
pub fn chars_equal(a: &Vec<char>, b: &Vec<char>) -> (r: bool)
    ensures
        r == (a@ == b@),
{
    if a.len() != b.len() {
        return false;
    }
    let mut i: usize = 0;
    while i < a.len()
        invariant
            a.len() == b.len(),
            i <= a.len(),
            forall|j: int| 0 <= j < i ==> a@[j] == b@[j],
        decreases a.len() - i,
    {
        if a[i] != b[i] {
            return false;
        }
        i = i + 1;
    }
    assert(a@ =~= b@);
    true
}

/// Whether the contents of a string slice equal `b`.
pub fn str_equals(a: &str, b: &str) -> (r: bool)
    ensures
        r == (a@ == b@),
{
    let va = chars_of(a);
    let vb = chars_of(b);
    chars_equal(&va, &vb)
}

// ---------------------------------------------------------------------------
// Character classes
// ---------------------------------------------------------------------------

/// Unicode `White_Space` characters (what `char::is_whitespace` accepts).
pub open spec fn is_ws(c: char) -> bool {
    ||| ('\u{9}' <= c && c <= '\u{D}')
    ||| c == ' '
    ||| c == '\u{85}'
    ||| c == '\u{A0}'
    ||| c == '\u{1680}'
    ||| ('\u{2000}' <= c && c <= '\u{200A}')
    ||| c == '\u{2028}'
    ||| c == '\u{2029}'
    ||| c == '\u{202F}'
    ||| c == '\u{205F}'
    ||| c == '\u{3000}'
}

pub fn is_whitespace(c: char) -> (r: bool)
    ensures
        r == is_ws(c),
{
    ('\u{9}' <= c && c <= '\u{D}') || c == ' ' || c == '\u{85}' || c == '\u{A0}' || c == '\u{1680}'
        || ('\u{2000}' <= c && c <= '\u{200A}') || c == '\u{2028}' || c == '\u{2029}' || c
        == '\u{202F}' || c == '\u{205F}' || c == '\u{3000}'
}

/// ASCII decimal digit.
pub open spec fn is_digit(c: char) -> bool {
    '0' <= c && c <= '9'
}

/// ASCII hexadecimal digit, either case.
pub open spec fn is_hex(c: char) -> bool {
    ||| ('0' <= c && c <= '9')
    ||| ('a' <= c && c <= 'f')
    ||| ('A' <= c && c <= 'F')
}

pub fn is_ascii_digit(c: char) -> (r: bool)
    ensures
        r == is_digit(c),
{
    '0' <= c && c <= '9'
}

pub fn is_ascii_hexdigit(c: char) -> (r: bool)
    ensures
        r == is_hex(c),
{
    ('0' <= c && c <= '9') || ('a' <= c && c <= 'f') || ('A' <= c && c <= 'F')
}

// ---------------------------------------------------------------------------
// Scanning and trimming
// ---------------------------------------------------------------------------

/// First index at or after `i` that is not whitespace (or the length).
pub open spec fn skip_ws(s: Seq<char>, i: int) -> int
    decreases s.len() - i,
{
    if 0 <= i < s.len() && is_ws(s[i]) {
        skip_ws(s, i + 1)
    } else {
        i
    }
}

/// Largest index `k <= j` such that `s[k..j]` is all whitespace.
pub open spec fn back_ws(s: Seq<char>, j: int) -> int
    decreases j,
{
    if 0 < j <= s.len() && is_ws(s[j - 1]) {
        back_ws(s, j - 1)
    } else {
        j
    }
}

/// First index at or after `i` that is whitespace (or the length).
pub open spec fn word_end(s: Seq<char>, i: int) -> int
    decreases s.len() - i,
{
    if 0 <= i < s.len() && !is_ws(s[i]) {
        word_end(s, i + 1)
    } else {
        i
    }
}

/// First index at or after `i` that is not a hexadecimal digit (or the length).
pub open spec fn hex_end(s: Seq<char>, i: int) -> int
    decreases s.len() - i,
{
    if 0 <= i < s.len() && is_hex(s[i]) {
        hex_end(s, i + 1)
    } else {
        i
    }
}

/// `str::trim_start`: leading whitespace removed.
pub open spec fn trim_start(s: Seq<char>) -> Seq<char> {
    s.subrange(skip_ws(s, 0), s.len() as int)
}

/// `str::trim_end`: trailing whitespace removed.
pub open spec fn trim_end(s: Seq<char>) -> Seq<char> {
    s.subrange(0, back_ws(s, s.len() as int))
}

/// `str::trim`: leading and trailing whitespace removed.
pub open spec fn trim(s: Seq<char>) -> Seq<char> {
    trim_end(trim_start(s))
}

pub proof fn lemma_skip_ws_bounds(s: Seq<char>, i: int)
    requires
        0 <= i <= s.len(),
    ensures
        i <= skip_ws(s, i) <= s.len(),
        forall|k: int| i <= k < skip_ws(s, i) ==> is_ws(#[trigger] s[k]),
        skip_ws(s, i) < s.len() ==> !is_ws(s[skip_ws(s, i)]),
    decreases s.len() - i,
{
    if i < s.len() && is_ws(s[i]) {
        lemma_skip_ws_bounds(s, i + 1);
    }
}

pub proof fn lemma_back_ws_bounds(s: Seq<char>, j: int)
    requires
        0 <= j <= s.len(),
    ensures
        0 <= back_ws(s, j) <= j,
        forall|k: int| back_ws(s, j) <= k < j ==> is_ws(#[trigger] s[k]),
        back_ws(s, j) > 0 ==> !is_ws(s[back_ws(s, j) - 1]),
    decreases j,
{
    if 0 < j && is_ws(s[j - 1]) {
        lemma_back_ws_bounds(s, j - 1);
    }
}

pub proof fn lemma_word_end_bounds(s: Seq<char>, i: int)
    requires
        0 <= i <= s.len(),
    ensures
        i <= word_end(s, i) <= s.len(),
        forall|k: int| i <= k < word_end(s, i) ==> !is_ws(#[trigger] s[k]),
        word_end(s, i) < s.len() ==> is_ws(s[word_end(s, i)]),
    decreases s.len() - i,
{
    if i < s.len() && !is_ws(s[i]) {
        lemma_word_end_bounds(s, i + 1);
    }
}

pub proof fn lemma_hex_end_bounds(s: Seq<char>, i: int)
    requires
        0 <= i <= s.len(),
    ensures
        i <= hex_end(s, i) <= s.len(),
        forall|k: int| i <= k < hex_end(s, i) ==> is_hex(#[trigger] s[k]),
        hex_end(s, i) < s.len() ==> !is_hex(s[hex_end(s, i)]),
    decreases s.len() - i,
{
    if i < s.len() && is_hex(s[i]) {
        lemma_hex_end_bounds(s, i + 1);
    }
}

/// `skip_ws(v, 0)`.
pub fn skip_ws_exec(v: &Vec<char>) -> (r: usize)
    ensures
        r as int == skip_ws(v@, 0),
        r <= v.len(),
{
    let mut i: usize = 0;
    while i < v.len() && is_whitespace(v[i])
        invariant
            i <= v.len(),
            skip_ws(v@, 0) == skip_ws(v@, i as int),
        decreases v.len() - i,
    {
        i = i + 1;
    }
    proof {
        lemma_skip_ws_bounds(v@, i as int);
    }
    i
}

/// `back_ws(v, v.len())`.
pub fn back_ws_exec(v: &Vec<char>) -> (r: usize)
    ensures
        r as int == back_ws(v@, v@.len() as int),
        r <= v.len(),
{
    let mut j: usize = v.len();
    while j > 0 && is_whitespace(v[j - 1])
        invariant
            j <= v.len(),
            back_ws(v@, v@.len() as int) == back_ws(v@, j as int),
        decreases j,
    {
        j = j - 1;
    }
    proof {
        lemma_back_ws_bounds(v@, j as int);
    }
    j
}

/// `word_end(v, 0)`.
pub fn word_end_exec(v: &Vec<char>) -> (r: usize)
    ensures
        r as int == word_end(v@, 0),
        r <= v.len(),
{
    let mut i: usize = 0;
    while i < v.len() && !is_whitespace(v[i])
        invariant
            i <= v.len(),
            word_end(v@, 0) == word_end(v@, i as int),
        decreases v.len() - i,
    {
        i = i + 1;
    }
    proof {
        lemma_word_end_bounds(v@, i as int);
    }
    i
}

/// `hex_end(v, 0)`.
pub fn hex_end_exec(v: &Vec<char>) -> (r: usize)
    ensures
        r as int == hex_end(v@, 0),
        r <= v.len(),
{
    let mut i: usize = 0;
    while i < v.len() && is_ascii_hexdigit(v[i])
        invariant
            i <= v.len(),
            hex_end(v@, 0) == hex_end(v@, i as int),
        decreases v.len() - i,
    {
        i = i + 1;
    }
    proof {
        lemma_hex_end_bounds(v@, i as int);
    }
    i
}

pub fn trim_start_vec(v: &Vec<char>) -> (r: Vec<char>)
    ensures
        r@ == trim_start(v@),
{
    let a = skip_ws_exec(v);
    subvec(v, a, v.len())
}

pub fn trim_end_vec(v: &Vec<char>) -> (r: Vec<char>)
    ensures
        r@ == trim_end(v@),
{
    let b = back_ws_exec(v);
    subvec(v, 0, b)
}

pub fn trim_vec(v: &Vec<char>) -> (r: Vec<char>)
    ensures
        r@ == trim(v@),
{
    let t = trim_start_vec(v);
    trim_end_vec(&t)
}

// ---------------------------------------------------------------------------
// UTF-8 byte offsets
// ---------------------------------------------------------------------------

/// Number of bytes in the UTF-8 encoding of `c` (`char::len_utf8`).
pub open spec fn utf8_width(c: char) -> nat {
    let u = c as u32;
    if u < 0x80 {
        1
    } else if u < 0x800 {
        2
    } else if u < 0x10000 {
        3
    } else {
        4
    }
}

/// Number of bytes in the UTF-8 encoding of `s` (`str::len`).
pub open spec fn byte_len(s: Seq<char>) -> nat
    decreases s.len(),
{
    if s.len() == 0 {
        0
    } else {
        byte_len(s.drop_last()) + utf8_width(s.last())
    }
}

/// Byte offset `b` falls before the `i`-th character of `s`.
pub open spec fn is_boundary(s: Seq<char>, b: int, i: int) -> bool {
    0 <= i <= s.len() && byte_len(s.subrange(0, i)) == b
}

/// Byte offset `b` is a character boundary of `s` (`str::is_char_boundary`).
pub open spec fn has_boundary(s: Seq<char>, b: int) -> bool {
    exists|i: int| is_boundary(s, b, i)
}

/// The character index at byte offset `b` (meaningful when `has_boundary(s, b)`).
pub open spec fn boundary_index(s: Seq<char>, b: int) -> int {
    choose|i: int| is_boundary(s, b, i)
}

/// `&s[a..b]` on byte offsets, when both are boundaries.
pub open spec fn byte_slice(s: Seq<char>, a: int, b: int) -> Seq<char> {
    s.subrange(boundary_index(s, a), boundary_index(s, b))
}

pub proof fn lemma_byte_len_concat(a: Seq<char>, b: Seq<char>)
    ensures
        byte_len(a + b) == byte_len(a) + byte_len(b),
    decreases b.len(),
{
    if b.len() == 0 {
        assert(a + b =~= a);
    } else {
        assert((a + b).drop_last() =~= a + b.drop_last());
        assert((a + b).last() == b.last());
        lemma_byte_len_concat(a, b.drop_last());
    }
}

pub proof fn lemma_byte_len_at_least_len(s: Seq<char>)
    ensures
        byte_len(s) >= s.len(),
        byte_len(s) <= 4 * s.len(),
    decreases s.len(),
{
    if s.len() > 0 {
        lemma_byte_len_at_least_len(s.drop_last());
    }
}

/// Byte offsets grow strictly with character indices.
pub proof fn lemma_byte_len_prefix_monotone(s: Seq<char>, i: int, j: int)
    requires
        0 <= i <= j <= s.len(),
    ensures
        byte_len(s.subrange(0, i)) + (j - i) <= byte_len(s.subrange(0, j)),
{
    assert(s.subrange(0, j) =~= s.subrange(0, i) + s.subrange(i, j));
    lemma_byte_len_concat(s.subrange(0, i), s.subrange(i, j));
    lemma_byte_len_at_least_len(s.subrange(i, j));
}

pub proof fn lemma_byte_len_prefix_step(s: Seq<char>, i: int)
    requires
        0 <= i < s.len(),
    ensures
        byte_len(s.subrange(0, i + 1)) == byte_len(s.subrange(0, i)) + utf8_width(s[i]),
{
    assert(s.subrange(0, i + 1).drop_last() =~= s.subrange(0, i));
}

/// There is at most one character index per byte offset.
pub proof fn lemma_boundary_unique(s: Seq<char>, b: int, i: int)
    requires
        is_boundary(s, b, i),
    ensures
        has_boundary(s, b),
        boundary_index(s, b) == i,
{
    let k = boundary_index(s, b);
    if k < i {
        lemma_byte_len_prefix_monotone(s, k, i);
    } else if k > i {
        lemma_byte_len_prefix_monotone(s, i, k);
    }
}

/// In an ASCII string every byte offset up to the length is a boundary.
pub open spec fn is_ascii_seq(s: Seq<char>) -> bool {
    forall|k: int| 0 <= k < s.len() ==> (#[trigger] s[k] as u32) < 0x80
}

pub proof fn lemma_ascii_byte_len(s: Seq<char>)
    requires
        is_ascii_seq(s),
    ensures
        byte_len(s) == s.len(),
    decreases s.len(),
{
    if s.len() > 0 {
        assert(is_ascii_seq(s.drop_last()));
        lemma_ascii_byte_len(s.drop_last());
    }
}

pub proof fn lemma_ascii_boundary(s: Seq<char>, k: int)
    requires
        is_ascii_seq(s),
        0 <= k <= s.len(),
    ensures
        has_boundary(s, k),
        boundary_index(s, k) == k,
{
    assert(is_ascii_seq(s.subrange(0, k)));
    lemma_ascii_byte_len(s.subrange(0, k));
    lemma_boundary_unique(s, k, k);
}

/// `byte_len` is the length of vstd's UTF-8 encoding, i.e. what `str::len` returns.
pub proof fn lemma_byte_len_is_utf8_len(s: Seq<char>)
    ensures
        byte_len(s) == vstd::utf8::encode_utf8(s).len(),
    decreases s.len(),
{
    if s.len() > 0 {
        let c = s[0];
        vstd::utf8::char_is_scalar(c);
        assert(s =~= seq![c] + s.drop_first());
        lemma_byte_len_concat(seq![c], s.drop_first());
        assert(seq![c].drop_last() =~= Seq::<char>::empty());
        lemma_byte_len_is_utf8_len(s.drop_first());
        assert(byte_len(Seq::<char>::empty()) == 0);
        assert(seq![c].last() == c);
        assert(byte_len(seq![c]) == utf8_width(c));
        assert(vstd::utf8::encode_scalar(c as u32).len() == utf8_width(c));
        assert(vstd::utf8::encode_utf8(s) == vstd::utf8::encode_scalar(s[0] as u32) + vstd::utf8::encode_utf8(s.drop_first()));
    }
}

/// Whether `byte_len(v) >= b`.
pub fn byte_len_at_least(v: &Vec<char>, b: usize) -> (r: bool)
    requires
        b <= usize::MAX - 4,
    ensures
        r == (byte_len(v@) >= b),
{
    let mut i: usize = 0;
    let mut acc: usize = 0;
    while i < v.len() && acc < b
        invariant
            i <= v.len(),
            acc == byte_len(v@.subrange(0, i as int)),
            acc <= b + 4,
            b <= usize::MAX - 4,
        decreases v.len() - i,
    {
        proof {
            lemma_byte_len_prefix_step(v@, i as int);
        }
        acc = acc + char_width(v[i]);
        i = i + 1;
    }
    proof {
        if i == v.len() {
            assert(v@.subrange(0, i as int) =~= v@);
        } else {
            lemma_byte_len_prefix_monotone(v@, i as int, v@.len() as int);
            assert(v@.subrange(0, v@.len() as int) =~= v@);
        }
    }
    acc >= b
}

/// `char::len_utf8`.
pub fn char_width(c: char) -> (r: usize)
    ensures
        r == utf8_width(c),
{
    let u = c as u32;
    if u < 0x80 {
        1
    } else if u < 0x800 {
        2
    } else if u < 0x10000 {
        3
    } else {
        4
    }
}

/// The character index at byte offset `b`, if `b` is a boundary.
pub fn find_boundary(v: &Vec<char>, b: usize) -> (r: Option<usize>)
    requires
        b <= usize::MAX - 4,
    ensures
        r matches Some(i) ==> has_boundary(v@, b as int) && boundary_index(v@, b as int) == i,
        r is None ==> !has_boundary(v@, b as int),
{
    let mut i: usize = 0;
    let mut acc: usize = 0;
    while i < v.len() && acc < b
        invariant
            i <= v.len(),
            acc == byte_len(v@.subrange(0, i as int)),
            acc <= b + 4,
            b <= usize::MAX - 4,
            forall|j: int| 0 <= j < i ==> byte_len(#[trigger] v@.subrange(0, j)) < b,
        decreases v.len() - i,
    {
        proof {
            lemma_byte_len_prefix_step(v@, i as int);
            assert forall|j: int| 0 <= j < i + 1 implies byte_len(#[trigger] v@.subrange(0, j)) < b by {
                if j == i {
                }
            }
        }
        acc = acc + char_width(v[i]);
        i = i + 1;
    }
    if acc == b {
        proof {
            lemma_boundary_unique(v@, b as int, i as int);
        }
        Some(i)
    } else {
        proof {
            assert forall|k: int| !is_boundary(v@, b as int, k) by {
                if 0 <= k <= v@.len() {
                    if k < i {
                    } else if k > i {
                        lemma_byte_len_prefix_monotone(v@, i as int, k);
                    }
                }
            }
        }
        None
    }
}

// ---------------------------------------------------------------------------
// Rendering numbers
// ---------------------------------------------------------------------------

/// The digit character for `d` (`0-9`, then lower-case `a-f`).
pub open spec fn digit_char(d: int) -> char {
    if d < 10 {
        (48 + d) as char
    } else {
        (87 + d) as char
    }
}

/// The digits of `n` in the given base, most significant first, without
/// leading zeros (`format!("{:x}")`, `"{:o}"`, `"{}"` on unsigned values).
pub open spec fn radix_digits(n: nat, base: nat) -> Seq<char>
    decreases n,
{
    if base < 2 || n < base {
        seq![digit_char(n as int)]
    } else {
        proof {
            vstd::arithmetic::div_mod::lemma_div_decreases(n as int, base as int);
        }
        radix_digits(n / base, base).push(digit_char((n % base) as int))
    }
}

/// `k` copies of `c` (none when `k <= 0`).
pub open spec fn fill(c: char, k: int) -> Seq<char> {
    Seq::new(if k > 0 { k as nat } else { 0 }, |i: int| c)
}

/// `s` right-aligned in a field of `width` characters padded with `c`.
pub open spec fn pad_left(s: Seq<char>, width: int, c: char) -> Seq<char> {
    fill(c, width - s.len()) + s
}

/// `format!("{:0width$}", n)`: decimal with sign-aware zero padding.
pub open spec fn zero_padded(n: int, width: int) -> Seq<char> {
    if n < 0 {
        seq!['-'] + pad_left(radix_digits((-n) as nat, 10), width - 1, '0')
    } else {
        pad_left(radix_digits(n as nat, 10), width, '0')
    }
}

pub fn digit_char_exec(d: u64) -> (c: char)
    requires
        d < 16,
    ensures
        c == digit_char(d as int),
{
    if d < 10 {
        ((48 + d) as u8) as char
    } else {
        ((87 + d) as u8) as char
    }
}

proof fn lemma_radix_step(n: nat, base: nat)
    requires
        2 <= base,
    ensures
        n < base ==> radix_digits(n, base) == seq![digit_char((n % base) as int)],
        n >= base ==> radix_digits(n, base) == radix_digits(n / base, base).push(
            digit_char((n % base) as int),
        ),
{
    if n < base {
        vstd::arithmetic::div_mod::lemma_small_mod(n, base);
    }
}

/// Appends the digits of `n` in base `base`.
pub fn push_digits(out: &mut Vec<char>, n: u64, base: u64)
    requires
        2 <= base <= 16,
    ensures
        final(out)@ == old(out)@ + radix_digits(n as nat, base as nat),
    decreases n,
{
    proof {
        lemma_radix_step(n as nat, base as nat);
        vstd::arithmetic::div_mod::lemma_mod_bound(n as int, base as int);
    }
    if n >= base {
        proof {
            vstd::arithmetic::div_mod::lemma_div_decreases(n as int, base as int);
        }
        push_digits(out, n / base, base);
    }
    let d = n % base;
    let c = digit_char_exec(d);
    out.push(c);
    proof {
        assert(out@ =~= old(out)@ + radix_digits(n as nat, base as nat));
    }
}

/// Appends `digits` right-aligned in a field of `width` characters filled with `c`.
pub fn push_padded(out: &mut Vec<char>, digits: &Vec<char>, width: usize, c: char)
    ensures
        final(out)@ == old(out)@ + pad_left(digits@, width as int, c),
{
    let ghost start = out@;
    let mut k: usize = 0;
    let n: usize = if digits.len() < width { width - digits.len() } else { 0 };
    while k < n
        invariant
            k <= n,
            out@ == start + fill(c, k as int),
        decreases n - k,
    {
        out.push(c);
        k = k + 1;
        proof {
            assert(out@ =~= start + fill(c, k as int));
        }
    }
    assert(fill(c, n as int) =~= fill(c, width - digits@.len()));
    let mut i: usize = 0;
    while i < digits.len()
        invariant
            i <= digits.len(),
            out@ == start + fill(c, width - digits@.len()) + digits@.subrange(0, i as int),
        decreases digits.len() - i,
    {
        out.push(digits[i]);
        i = i + 1;
        proof {
            assert(out@ =~= start + fill(c, width - digits@.len()) + digits@.subrange(0, i as int));
        }
    }
    assert(digits@.subrange(0, digits@.len() as int) =~= digits@);
    assert(out@ =~= start + pad_left(digits@, width as int, c));
}

/// Appends `n` in base `base`, right-aligned in `width` characters padded with `c`.
pub fn push_number(out: &mut Vec<char>, n: u64, base: u64, width: usize, c: char)
    requires
        2 <= base <= 16,
    ensures
        final(out)@ == old(out)@ + pad_left(radix_digits(n as nat, base as nat), width as int, c),
{
    let mut d: Vec<char> = Vec::new();
    push_digits(&mut d, n, base);
    assert(d@ =~= radix_digits(n as nat, base as nat));
    push_padded(out, &d, width, c);
}

/// Appends `format!("{:0width$}", n)`.
pub fn push_zero_padded(out: &mut Vec<char>, n: i64, width: usize)
    requires
        n > i64::MIN,
    ensures
        final(out)@ == old(out)@ + zero_padded(n as int, width as int),
{
    if n < 0 {
        out.push('-');
        let w: usize = if width > 0 { width - 1 } else { 0 };
        push_number(out, (-n) as u64, 10, w, '0');
        proof {
            assert(pad_left(radix_digits((-n) as nat, 10), w as int, '0') =~= pad_left(
                radix_digits((-n) as nat, 10),
                width - 1,
                '0',
            ));
            assert(out@ =~= old(out)@ + zero_padded(n as int, width as int));
        }
    } else {
        push_number(out, n as u64, 10, width, '0');
    }
}

/// Appends every character of `s`.
pub fn push_str(out: &mut Vec<char>, s: &str)
    ensures
        final(out)@ == old(out)@ + s@,
{
    let v = chars_of(s);
    let ghost start = out@;
    let mut i: usize = 0;
    while i < v.len()
        invariant
            i <= v.len(),
            out@ == start + v@.subrange(0, i as int),
        decreases v.len() - i,
    {
        out.push(v[i]);
        i = i + 1;
        proof {
            assert(out@ =~= start + v@.subrange(0, i as int));
        }
    }
    assert(v@.subrange(0, v@.len() as int) =~= v@);
}

// ---------------------------------------------------------------------------
// Reading numbers
// ---------------------------------------------------------------------------

/// The value of a digit string in `base` (digits read as `c - '0'`).
pub open spec fn digits_value(s: Seq<char>, base: int) -> int
    decreases s.len(),
{
    if s.len() == 0 {
        0
    } else {
        digits_value(s.drop_last(), base) * base + (s.last() as int - 48)
    }
}

pub open spec fn all_digits(s: Seq<char>) -> bool {
    forall|k: int| 0 <= k < s.len() ==> is_digit(#[trigger] s[k])
}

pub open spec fn is_octal(c: char) -> bool {
    '0' <= c && c <= '7'
}

pub open spec fn all_octal(s: Seq<char>) -> bool {
    forall|k: int| 0 <= k < s.len() ==> is_octal(#[trigger] s[k])
}

/// `str::parse::<i32>()` / `::<i64>()` on a short string: an optional sign
/// followed by at least one decimal digit.
pub open spec fn parse_int(s: Seq<char>) -> Option<int> {
    if s.len() >= 1 && (s[0] == '+' || s[0] == '-') {
        let body = s.drop_first();
        if body.len() >= 1 && all_digits(body) {
            Some(
                if s[0] == '-' {
                    -digits_value(body, 10)
                } else {
                    digits_value(body, 10)
                },
            )
        } else {
            None
        }
    } else if s.len() >= 1 && all_digits(s) {
        Some(digits_value(s, 10))
    } else {
        None
    }
}

/// `u32::from_str_radix(s, 8)` on a string of ASCII digits.
pub open spec fn parse_octal(s: Seq<char>) -> Option<u32> {
    if s.len() >= 1 && all_octal(s) && digits_value(s, 8) <= u32::MAX {
        Some(digits_value(s, 8) as u32)
    } else {
        None
    }
}

pub open spec fn pow10(n: nat) -> int
    decreases n,
{
    if n == 0 {
        1
    } else {
        10 * pow10((n - 1) as nat)
    }
}

/// Value of the decimal digits `v[a..b]`, which are known to be digits.
fn decimal_value(v: &Vec<char>, a: usize, b: usize) -> (r: i64)
    requires
        a <= b <= v.len(),
        b - a <= 4,
        all_digits(v@.subrange(a as int, b as int)),
    ensures
        r == digits_value(v@.subrange(a as int, b as int), 10),
        0 <= r <= 9999,
        b - a <= 2 ==> r <= 99,
{
    let mut val: i64 = 0;
    let mut i = a;
    proof {
        reveal_with_fuel(pow10, 5);
    }
    while i < b
        invariant
            a <= i <= b <= v.len(),
            b - a <= 4,
            all_digits(v@.subrange(a as int, b as int)),
            val == digits_value(v@.subrange(a as int, i as int), 10),
            0 <= val < pow10((i - a) as nat),
            pow10(0) == 1 && pow10(1) == 10 && pow10(2) == 100 && pow10(3) == 1000 && pow10(4) == 10000,
        decreases b - i,
    {
        assert(is_digit(v@.subrange(a as int, b as int)[i - a]));
        let d = (v[i] as u32 - 48) as i64;
        proof {
            let s = v@.subrange(a as int, i + 1);
            assert(s.drop_last() =~= v@.subrange(a as int, i as int));
            assert(s.last() == v@[i as int]);
        }
        val = val * 10 + d;
        i = i + 1;
    }
    assert(b - a <= 2 ==> pow10((b - a) as nat) <= 100);
    val
}

/// `parse_int` on `v[a..b]` for a field of at most four characters.
pub fn parse_int_exec(v: &Vec<char>, a: usize, b: usize) -> (r: Option<i64>)
    requires
        a <= b <= v.len(),
        b - a <= 4,
    ensures
        match parse_int(v@.subrange(a as int, b as int)) {
            Some(x) => r == Some(x as i64) && -9999 <= x <= 9999 && (b - a <= 2 ==> -99 <= x <= 99),
            None => r is None,
        },
{
    let ghost s = v@.subrange(a as int, b as int);
    if b > a && (v[a] == '+' || v[a] == '-') {
        let start = a + 1;
        assert(s.drop_first() =~= v@.subrange(start as int, b as int));
        if start >= b {
            return None;
        }
        let mut k = start;
        while k < b
            invariant
                start <= k <= b <= v.len(),
                start == a + 1,
                s == v@.subrange(a as int, b as int),
                forall|j: int| start <= j < k ==> is_digit(#[trigger] v@[j]),
            decreases b - k,
        {
            if !is_ascii_digit(v[k]) {
                assert(!is_digit(s.drop_first()[k - start]));
                return None;
            }
            k = k + 1;
        }
        assert(all_digits(v@.subrange(start as int, b as int)));
        let x = decimal_value(v, start, b);
        if v[a] == '-' {
            Some(-x)
        } else {
            Some(x)
        }
    } else {
        if b == a {
            return None;
        }
        let mut k = a;
        while k < b
            invariant
                a <= k <= b <= v.len(),
                a < b,
                v@[a as int] != '+' && v@[a as int] != '-',
                s == v@.subrange(a as int, b as int),
                forall|j: int| a <= j < k ==> is_digit(#[trigger] v@[j]),
            decreases b - k,
        {
            if !is_ascii_digit(v[k]) {
                assert(!is_digit(s[k - a]));
                return None;
            }
            k = k + 1;
        }
        assert(all_digits(s));
        Some(decimal_value(v, a, b))
    }
}

proof fn lemma_octal_prefix_monotone(s: Seq<char>, i: int, j: int)
    requires
        0 <= i <= j <= s.len(),
        all_octal(s),
    ensures
        0 <= digits_value(s.subrange(0, i), 8) <= digits_value(s.subrange(0, j), 8),
    decreases j - i,
{
    if i < j {
        lemma_octal_prefix_monotone(s, i, j - 1);
        assert(s.subrange(0, j).drop_last() =~= s.subrange(0, j - 1));
        assert(is_octal(s[j - 1]));
    } else {
        lemma_octal_nonneg(s.subrange(0, i));
    }
}

proof fn lemma_octal_nonneg(s: Seq<char>)
    requires
        all_octal(s),
    ensures
        digits_value(s, 8) >= 0,
    decreases s.len(),
{
    if s.len() > 0 {
        assert(all_octal(s.drop_last()));
        assert(is_octal(s[s.len() - 1]));
        lemma_octal_nonneg(s.drop_last());
    }
}

/// `parse_octal(v)`.
pub fn parse_octal_exec(v: &Vec<char>) -> (r: Option<u32>)
    ensures
        r == parse_octal(v@),
{
    if v.len() == 0 {
        return None;
    }
    let mut k: usize = 0;
    while k < v.len()
        invariant
            k <= v.len(),
            forall|j: int| 0 <= j < k ==> is_octal(#[trigger] v@[j]),
        decreases v.len() - k,
    {
        if !('0' <= v[k] && v[k] <= '7') {
            return None;
        }
        k = k + 1;
    }
    assert(all_octal(v@));
    let mut val: u64 = 0;
    let mut i: usize = 0;
    while i < v.len()
        invariant
            i <= v.len(),
            all_octal(v@),
            val == digits_value(v@.subrange(0, i as int), 8),
            val <= u32::MAX,
        decreases v.len() - i,
    {
        assert(is_octal(v@[i as int]));
        let d = (v[i] as u32 - 48) as u64;
        proof {
            let s = v@.subrange(0, i + 1);
            assert(s.drop_last() =~= v@.subrange(0, i as int));
            assert(s.last() == v@[i as int]);
        }
        val = val * 8 + d;
        i = i + 1;
        if val > 0xffff_ffff {
            proof {
                lemma_octal_prefix_monotone(v@, i as int, v@.len() as int);
                assert(v@.subrange(0, v@.len() as int) =~= v@);
            }
            return None;
        }
    }
    assert(v@.subrange(0, v@.len() as int) =~= v@);
    Some(val as u32)
}

// ---------------------------------------------------------------------------
// Reading back what was written
// ---------------------------------------------------------------------------

/// Every character is a digit of `base` (at most ten).
pub open spec fn all_below(s: Seq<char>, base: int) -> bool {
    forall|k: int| 0 <= k < s.len() ==> 48 <= (#[trigger] s[k] as int) < 48 + base
}

proof fn lemma_digit_char(d: int)
    requires
        0 <= d < 16,
    ensures
        digit_char(d) as int == if d < 10 { 48 + d } else { 87 + d },
{
}

/// The digits written for `n` read back as `n`.
pub proof fn lemma_radix_digits_value(n: nat, base: nat)
    requires
        2 <= base <= 10,
    ensures
        digits_value(radix_digits(n, base), base as int) == n,
        all_below(radix_digits(n, base), base as int),
        radix_digits(n, base).len() >= 1,
    decreases n,
{
    let s = radix_digits(n, base);
    vstd::arithmetic::div_mod::lemma_fundamental_div_mod(n as int, base as int);
    vstd::arithmetic::div_mod::lemma_mod_bound(n as int, base as int);
    if n < base {
        vstd::arithmetic::div_mod::lemma_small_mod(n, base);
        lemma_digit_char(n as int);
        assert(s.drop_last() =~= Seq::<char>::empty());
        assert(digits_value(Seq::<char>::empty(), base as int) == 0);
        assert(s.last() as int == 48 + n);
        assert(digits_value(s, base as int) == 0 * base + n);
    } else {
        vstd::arithmetic::div_mod::lemma_div_decreases(n as int, base as int);
        lemma_radix_digits_value(n / base, base);
        lemma_digit_char((n % base) as int);
        assert(s.drop_last() =~= radix_digits(n / base, base));
        vstd::arithmetic::mul::lemma_mul_is_commutative((n / base) as int, base as int);
        assert(s.last() as int == 48 + (n % base));
        assert(digits_value(s, base as int) == (n / base) * base + (n % base));
    }
}

/// Hexadecimal digits as written are lower-case hex digits.
pub proof fn lemma_radix_digits_hex(n: nat)
    ensures
        forall|k: int| 0 <= k < radix_digits(n, 16).len() ==> is_hex(#[trigger] radix_digits(n, 16)[k]),
        radix_digits(n, 16).len() >= 1,
    decreases n,
{
    let s = radix_digits(n, 16);
    vstd::arithmetic::div_mod::lemma_mod_bound(n as int, 16);
    if n < 16 {
        vstd::arithmetic::div_mod::lemma_small_mod(n, 16);
        lemma_digit_char(n as int);
    } else {
        vstd::arithmetic::div_mod::lemma_div_decreases(n as int, 16);
        lemma_radix_digits_hex(n / 16);
        lemma_digit_char((n % 16) as int);
    }
}

/// Fewer than `pow10(w)` means at most `w` decimal digits.
pub proof fn lemma_radix_digits_len(n: nat, w: nat)
    requires
        w >= 1,
        n < pow10(w),
    ensures
        radix_digits(n, 10).len() <= w,
    decreases n,
{
    if n >= 10 {
        vstd::arithmetic::div_mod::lemma_div_decreases(n as int, 10);
        assert(w >= 2) by {
            if w == 1 {
                assert(pow10(1) == 10 * pow10(0));
            }
        }
        assert(n / 10 < pow10((w - 1) as nat)) by {
            assert(pow10(w) == 10 * pow10((w - 1) as nat));
        }
        lemma_radix_digits_len(n / 10, (w - 1) as nat);
    }
}

/// Leading zeros do not change the value of a digit string.
pub proof fn lemma_leading_zeros(k: int, s: Seq<char>, base: int)
    ensures
        digits_value(fill('0', k) + s, base) == digits_value(s, base),
    decreases s.len(),
{
    if s.len() == 0 {
        lemma_zeros_value(k, base);
        assert(fill('0', k) + s =~= fill('0', k));
    } else {
        assert((fill('0', k) + s).drop_last() =~= fill('0', k) + s.drop_last());
        lemma_leading_zeros(k, s.drop_last(), base);
    }
}

proof fn lemma_zeros_value(k: int, base: int)
    ensures
        digits_value(fill('0', k), base) == 0,
    decreases k,
{
    if k > 0 {
        assert(fill('0', k).drop_last() =~= fill('0', k - 1));
        lemma_zeros_value(k - 1, base);
    }
}

/// A non-negative number written zero-padded to `w` digits is `w` digits
/// long and reads back as itself.
pub proof fn lemma_zero_padded_reads_back(n: int, w: nat)
    requires
        w >= 1,
        0 <= n < pow10(w),
    ensures
        zero_padded(n, w as int).len() == w,
        all_digits(zero_padded(n, w as int)),
        is_ascii_seq(zero_padded(n, w as int)),
        parse_int(zero_padded(n, w as int)) == Some(n),
{
    let ds = radix_digits(n as nat, 10);
    lemma_radix_digits_value(n as nat, 10);
    lemma_radix_digits_len(n as nat, w);
    let z = zero_padded(n, w as int);
    assert(z == fill('0', w - ds.len()) + ds);
    lemma_leading_zeros(w - ds.len(), ds, 10);
    assert forall|k: int| 0 <= k < z.len() implies is_digit(#[trigger] z[k]) && (z[k] as u32) < 0x80 by {
        if k >= w - ds.len() {
            assert(z[k] == ds[k - (w - ds.len())]);
        }
    }
}

/// Octal digits as written read back as the mode.
pub proof fn lemma_octal_reads_back(m: u32)
    ensures
        parse_octal(radix_digits(m as nat, 8)) == Some(m),
        all_digits(radix_digits(m as nat, 8)),
        forall|k: int| 0 <= k < radix_digits(m as nat, 8).len() ==> !is_ws(#[trigger] radix_digits(m as nat, 8)[k]),
{
    lemma_radix_digits_value(m as nat, 8);
    let s = radix_digits(m as nat, 8);
    assert forall|k: int| 0 <= k < s.len() implies is_octal(#[trigger] s[k]) && is_digit(s[k]) && !is_ws(s[k]) by {
        assert(48 <= (s[k] as int) < 56);
    }
}

// Scanning across known characters.

pub proof fn lemma_skip_ws_to(s: Seq<char>, i: int, j: int)
    requires
        0 <= i <= j <= s.len(),
        forall|k: int| i <= k < j ==> is_ws(#[trigger] s[k]),
        j == s.len() || !is_ws(s[j]),
    ensures
        skip_ws(s, i) == j,
    decreases j - i,
{
    if i < j {
        lemma_skip_ws_to(s, i + 1, j);
    }
}

pub proof fn lemma_back_ws_to(s: Seq<char>, i: int, j: int)
    requires
        0 <= i <= j <= s.len(),
        forall|k: int| i <= k < j ==> is_ws(#[trigger] s[k]),
        i == 0 || !is_ws(s[i - 1]),
    ensures
        back_ws(s, j) == i,
    decreases j - i,
{
    if i < j {
        lemma_back_ws_to(s, i, j - 1);
    }
}

pub proof fn lemma_word_end_to(s: Seq<char>, i: int, j: int)
    requires
        0 <= i <= j <= s.len(),
        forall|k: int| i <= k < j ==> !is_ws(#[trigger] s[k]),
        j == s.len() || is_ws(s[j]),
    ensures
        word_end(s, i) == j,
    decreases j - i,
{
    if i < j {
        lemma_word_end_to(s, i + 1, j);
    }
}

pub proof fn lemma_hex_end_to(s: Seq<char>, i: int, j: int)
    requires
        0 <= i <= j <= s.len(),
        forall|k: int| i <= k < j ==> is_hex(#[trigger] s[k]),
        j == s.len() || !is_hex(s[j]),
    ensures
        hex_end(s, i) == j,
    decreases j - i,
{
    if i < j {
        lemma_hex_end_to(s, i + 1, j);
    }
}

/// A string that neither starts nor ends with whitespace is its own trim.
pub proof fn lemma_trim_unchanged(s: Seq<char>)
    requires
        s.len() > 0,
        !is_ws(s[0]),
        !is_ws(s[s.len() - 1]),
    ensures
        trim(s) == s,
        trim_start(s) == s,
{
    lemma_skip_ws_to(s, 0, 0);
    assert(trim_start(s) =~= s);
    lemma_back_ws_to(s, s.len() as int, s.len() as int);
    assert(trim_end(s) =~= s);
}

/// Whitespace in front of a text does not change its trim.
pub proof fn lemma_trim_ws_prefix(pre: Seq<char>, x: Seq<char>)
    requires
        forall|k: int| 0 <= k < pre.len() ==> is_ws(#[trigger] pre[k]),
    ensures
        trim(pre + x) == trim(x),
        trim_start(pre + x) == trim_start(x),
{
    let s = pre + x;
    let n = pre.len() as int;
    lemma_skip_ws_bounds(x, 0);
    let a = skip_ws(x, 0);
    assert forall|k: int| 0 <= k < n + a implies is_ws(#[trigger] s[k]) by {
        if k >= n {
            assert(s[k] == x[k - n]);
        }
    }
    if n + a < s.len() {
        assert(s[n + a] == x[a]);
    }
    lemma_skip_ws_to(s, 0, n + a);
    assert(trim_start(s) =~= trim_start(x));
}

/// Where a text holds a character other than whitespace, its trim is what
/// lies between the leading and the trailing whitespace, is not empty, and
/// is also the trim of the text with its trailing whitespace removed.
pub proof fn lemma_trim_around(s: Seq<char>, p: int)
    requires
        0 <= p < s.len(),
        !is_ws(s[p]),
    ensures
        skip_ws(s, 0) <= p < back_ws(s, s.len() as int),
        trim(s) == s.subrange(skip_ws(s, 0), back_ws(s, s.len() as int)),
        trim(s).len() >= 1,
        trim_end(s).len() >= 1,
        !is_ws(trim_end(s)[trim_end(s).len() - 1]),
        trim(trim_end(s)) == trim(s),
{
    let n = s.len() as int;
    lemma_skip_ws_bounds(s, 0);
    lemma_back_ws_bounds(s, n);
    let a = skip_ws(s, 0);
    let b = back_ws(s, n);
    if p < a {
        assert(is_ws(s[p]));
    }
    if p >= b {
        assert(is_ws(s[p]));
    }
    let ts = trim_start(s);
    assert(ts =~= s.subrange(a, n));
    assert forall|k: int| b - a <= k < n - a implies is_ws(#[trigger] ts[k]) by {
        assert(ts[k] == s[a + k]);
    }
    assert(ts[b - a - 1] == s[b - 1]);
    lemma_back_ws_to(ts, b - a, n - a);
    assert(trim(s) =~= s.subrange(a, b));
    let te = trim_end(s);
    assert(te =~= s.subrange(0, b));
    assert forall|k: int| 0 <= k < a implies is_ws(#[trigger] te[k]) by {
        assert(te[k] == s[k]);
    }
    assert(te[a] == s[a]);
    lemma_skip_ws_to(te, 0, a);
    let x = trim_start(te);
    assert(x =~= s.subrange(a, b));
    assert(x[x.len() - 1] == s[b - 1]);
    lemma_back_ws_to(x, x.len() as int, x.len() as int);
    assert(trim_end(x) =~= x);
}

// ---------------------------------------------------------------------------
// Lines of a text
// ---------------------------------------------------------------------------

/// Index of the first `'\n'` at or after `i` (or the length).
pub open spec fn newline_from(s: Seq<char>, i: int) -> int
    decreases s.len() - i,
{
    if 0 <= i < s.len() && s[i] != '\n' {
        newline_from(s, i + 1)
    } else {
        i
    }
}

pub proof fn lemma_newline_from_bounds(s: Seq<char>, i: int)
    requires
        0 <= i <= s.len(),
    ensures
        i <= newline_from(s, i) <= s.len(),
        forall|k: int| i <= k < newline_from(s, i) ==> #[trigger] s[k] != '\n',
        newline_from(s, i) < s.len() ==> s[newline_from(s, i)] == '\n',
    decreases s.len() - i,
{
    if i < s.len() && s[i] != '\n' {
        lemma_newline_from_bounds(s, i + 1);
    }
}

pub proof fn lemma_newline_from_to(s: Seq<char>, i: int, j: int)
    requires
        0 <= i <= j <= s.len(),
        forall|k: int| i <= k < j ==> #[trigger] s[k] != '\n',
        j == s.len() || s[j] == '\n',
    ensures
        newline_from(s, i) == j,
    decreases j - i,
{
    if i < j {
        lemma_newline_from_to(s, i + 1, j);
    }
}

/// A line with the `'\r'` of a `"\r\n"` ending removed.
pub open spec fn strip_cr(l: Seq<char>) -> Seq<char> {
    if l.len() > 0 && l[l.len() - 1] == '\r' {
        l.drop_last()
    } else {
        l
    }
}

/// `str::lines`: the text split at each `'\n'`, with a `'\r'` just before it
/// dropped; a final line ending adds no empty line, and a last line without
/// one is kept whole.
pub open spec fn text_lines(s: Seq<char>) -> Seq<Seq<char>>
    decreases s.len(),
{
    if s.len() == 0 {
        Seq::empty()
    } else {
        let i = newline_from(s, 0);
        if i >= s.len() {
            seq![s]
        } else {
            proof {
                lemma_newline_from_bounds(s, 0);
            }
            seq![strip_cr(s.subrange(0, i))] + text_lines(s.subrange(i + 1, s.len() as int))
        }
    }
}

/// A line without a newline, followed by a newline and more text.
pub proof fn lemma_text_lines_first(a: Seq<char>, b: Seq<char>)
    requires
        forall|k: int| 0 <= k < a.len() ==> #[trigger] a[k] != '\n',
    ensures
        text_lines(a + (seq!['\n'] + b)) == seq![strip_cr(a)] + text_lines(b),
{
    let s = a + (seq!['\n'] + b);
    assert forall|k: int| 0 <= k < a.len() implies #[trigger] s[k] != '\n' by {
        assert(s[k] == a[k]);
    }
    lemma_newline_from_to(s, 0, a.len() as int);
    assert(s.subrange(0, a.len() as int) =~= a);
    assert(s.subrange(a.len() as int + 1, s.len() as int) =~= b);
}

/// A nonempty text without a newline is one line.
pub proof fn lemma_text_lines_single(a: Seq<char>)
    requires
        a.len() > 0,
        forall|k: int| 0 <= k < a.len() ==> #[trigger] a[k] != '\n',
    ensures
        text_lines(a) == seq![a],
{
    lemma_newline_from_to(a, 0, a.len() as int);
}

pub proof fn lemma_back_ws_prefix(s: Seq<char>, m: int, j: int)
    requires
        0 <= j <= m <= s.len(),
    ensures
        back_ws(s, j) == back_ws(s.subrange(0, m), j),
    decreases j,
{
    if j > 0 {
        assert(s.subrange(0, m)[j - 1] == s[j - 1]);
        lemma_back_ws_prefix(s, m, j - 1);
    }
}

/// Dropping the `'\r'` at the end of a text that starts with a character
/// other than whitespace does not change its trim.
pub proof fn lemma_trim_strip_cr(x: Seq<char>)
    requires
        x.len() > 0,
        !is_ws(x[0]),
    ensures
        trim(strip_cr(x)) == trim(x),
{
    if x[x.len() - 1] == '\r' {
        let n = x.len() as int;
        let y = x.drop_last();
        assert(is_ws(x[n - 1]));
        assert(n >= 2);
        assert(y[0] == x[0]);
        lemma_skip_ws_to(x, 0, 0);
        lemma_skip_ws_to(y, 0, 0);
        assert(trim_start(x) =~= x);
        assert(trim_start(y) =~= y);
        assert(back_ws(x, n) == back_ws(x, n - 1));
        lemma_back_ws_prefix(x, n - 1, n - 1);
        assert(x.subrange(0, n - 1) =~= y);
        lemma_back_ws_bounds(y, n - 1);
        assert(trim_end(x) =~= trim_end(y));
    }
}

/// A text holding no `'\n'`.
pub open spec fn no_newline(s: Seq<char>) -> bool {
    forall|k: int| 0 <= k < s.len() ==> #[trigger] s[k] != '\n'
}

pub proof fn lemma_no_newline_concat(a: Seq<char>, b: Seq<char>)
    requires
        no_newline(a),
        no_newline(b),
    ensures
        no_newline(a + b),
{
    assert forall|k: int| 0 <= k < (a + b).len() implies #[trigger] (a + b)[k] != '\n' by {
        if k < a.len() {
            assert((a + b)[k] == a[k]);
        } else {
            assert((a + b)[k] == b[k - a.len()]);
        }
    }
}

pub proof fn lemma_no_newline_char(c: char)
    requires
        c != '\n',
    ensures
        no_newline(seq![c]),
{
    assert forall|k: int| 0 <= k < seq![c].len() implies #[trigger] seq![c][k] != '\n' by {
        assert(seq![c][k] == c);
    }
}

/// Digits, and text without whitespace, hold no newline.
pub proof fn lemma_no_newline_digits_or_word(s: Seq<char>)
    requires
        all_digits(s) || forall|k: int| 0 <= k < s.len() ==> !is_ws(#[trigger] s[k]),
    ensures
        no_newline(s),
{
    assert forall|k: int| 0 <= k < s.len() implies #[trigger] s[k] != '\n' by {
        if all_digits(s) {
            assert(is_digit(s[k]));
        } else {
            assert(!is_ws(s[k]));
        }
    }
}

/// The lines of a text with a newline inside are the lines up to and
/// including that newline, then the lines after it.
pub proof fn lemma_text_lines_split(p: Seq<char>, r: Seq<char>)
    ensures
        text_lines(p + (seq!['\n'] + r)) == text_lines(p + seq!['\n']) + text_lines(r),
    decreases p.len(),
{
    let nl = seq!['\n'];
    let e = Seq::<char>::empty();
    let t = p + nl;
    lemma_newline_from_bounds(p, 0);
    let i = newline_from(p, 0);
    if i == p.len() {
        lemma_text_lines_first(p, r);
        lemma_text_lines_first(p, e);
        assert(p + (nl + e) =~= t);
        assert(text_lines(e) == Seq::<Seq<char>>::empty());
        assert(seq![strip_cr(p)] + Seq::<Seq<char>>::empty() =~= seq![strip_cr(p)]);
    } else {
        let p1 = p.subrange(0, i);
        let p2 = p.subrange(i + 1, p.len() as int);
        assert forall|k: int| 0 <= k < p1.len() implies #[trigger] p1[k] != '\n' by {
            assert(p1[k] == p[k]);
        }
        assert(p + (nl + r) =~= p1 + (nl + (p2 + (nl + r))));
        assert(t =~= p1 + (nl + (p2 + nl)));
        lemma_text_lines_first(p1, p2 + (nl + r));
        lemma_text_lines_first(p1, p2 + nl);
        lemma_text_lines_split(p2, r);
        assert(seq![strip_cr(p1)] + (text_lines(p2 + nl) + text_lines(r)) =~= (seq![strip_cr(p1)]
            + text_lines(p2 + nl)) + text_lines(r));
    }
}

/// Ending a text with a newline keeps its lines, except that a `'\r'` at the
/// end of its last line may go.
pub proof fn lemma_text_lines_newline_end(a: Seq<char>)
    ensures
        text_lines(a + seq!['\n']).len() >= text_lines(a).len(),
        forall|i: int|
            0 <= i < text_lines(a).len() ==> #[trigger] text_lines(a + seq!['\n'])[i] == text_lines(a)[i]
                || text_lines(a + seq!['\n'])[i] == strip_cr(text_lines(a)[i]),
    decreases a.len(),
{
    let nl = seq!['\n'];
    let e = Seq::<char>::empty();
    let t = a + nl;
    lemma_newline_from_bounds(a, 0);
    let i = newline_from(a, 0);
    if a.len() == 0 {
        assert(text_lines(a).len() == 0);
    } else if i == a.len() {
        lemma_text_lines_single(a);
        lemma_text_lines_first(a, e);
        assert(a + (nl + e) =~= t);
        assert(text_lines(e) == Seq::<Seq<char>>::empty());
        assert(seq![strip_cr(a)] + Seq::<Seq<char>>::empty() =~= seq![strip_cr(a)]);
    } else {
        let a1 = a.subrange(0, i);
        let a2 = a.subrange(i + 1, a.len() as int);
        assert forall|k: int| 0 <= k < a1.len() implies #[trigger] a1[k] != '\n' by {
            assert(a1[k] == a[k]);
        }
        assert(a =~= a1 + (nl + a2));
        assert(t =~= a1 + (nl + (a2 + nl)));
        lemma_text_lines_first(a1, a2);
        lemma_text_lines_first(a1, a2 + nl);
        lemma_text_lines_newline_end(a2);
        let la = text_lines(a);
        let lt = text_lines(t);
        assert forall|k: int| 0 <= k < la.len() implies #[trigger] lt[k] == la[k] || lt[k] == strip_cr(la[k]) by {
            if k > 0 {
                assert(la[k] == text_lines(a2)[k - 1]);
                assert(lt[k] == text_lines(a2 + nl)[k - 1]);
            }
        }
    }
}

} // verus!
