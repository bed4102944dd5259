//! Character-level text helpers shared by the engine's rules.
use crate::model::str_views;
use vstd::prelude::*;

verus! {

/// `needle` occurs in `hay` as a contiguous run of characters.
pub open spec fn is_substring(needle: Seq<char>, hay: Seq<char>) -> bool {
    exists|i: int|
        0 <= i && i + needle.len() <= hay.len() && #[trigger] hay.subrange(i, i + needle.len())
            == needle
}

/// `p` is a prefix of `s`.
pub open spec fn is_prefix(p: Seq<char>, s: Seq<char>) -> bool {
    p.len() <= s.len() && s.subrange(0, p.len() as int) == p
}

/// The characters of `s`, in order.
pub fn chars_of(s: &str) -> (v: Vec<char>)
    ensures
        v@ == s@,
{
    let mut v: Vec<char> = Vec::new();
    for c in it: s.chars()
        invariant
            v@ == it.seq().take(it.index() as int),
            it.seq() == s@,
    {
        v.push(c);
    }
    v
}

/// Whether `a` and `b` hold the same characters from position `at` of `a` on.
fn matches_at(a: &Vec<char>, at: usize, b: &Vec<char>) -> (r: bool)
    requires
        at + b@.len() <= a@.len(),
    ensures
        r == (a@.subrange(at as int, at + b@.len()) == b@),
{
    let alen = a.len();
    let mut j: usize = 0;
    while j < b.len()
        invariant
            alen == a@.len(),
            at + b@.len() <= a@.len(),
            0 <= j <= b@.len(),
            a@.subrange(at as int, at + j) == b@.subrange(0, j as int),
        decreases b@.len() - j,
    {
        if a[at + j] != b[j] {
            assert(a@.subrange(at as int, at + b@.len())[j as int] == a@[at + j]);
            return false;
        }
        j = j + 1;
        assert(a@.subrange(at as int, at + j) =~= b@.subrange(0, j as int));
    }
    assert(b@.subrange(0, b@.len() as int) =~= b@);
    true
}

/// Whether `needle` occurs in `hay`.
pub fn contains_str(hay: &str, needle: &str) -> (r: bool)
    ensures
        r == is_substring(needle@, hay@),
{
    let h = chars_of(hay);
    let n = chars_of(needle);
    if n.len() > h.len() {
        return false;
    }
    let last = h.len() - n.len();
    let mut i: usize = 0;
    while i <= last
        invariant
            h@ == hay@,
            n@ == needle@,
            last + n@.len() == h@.len(),
            0 <= i <= last + 1,
            forall|k: int| 0 <= k < i ==> #[trigger] h@.subrange(k, k + n@.len()) != n@,
        decreases last + 1 - i,
    {
        if matches_at(&h, i, &n) {
            return true;
        }
        if i == last {
            return false;
        }
        i = i + 1;
    }
    false
}

/// Whether `p` is a prefix of `s`.
pub fn has_prefix(s: &str, p: &str) -> (r: bool)
    ensures
        r == is_prefix(p@, s@),
{
    let sv = chars_of(s);
    let pv = chars_of(p);
    if pv.len() > sv.len() {
        return false;
    }
    matches_at(&sv, 0, &pv)
}

/// Whether two texts hold the same characters.
pub fn same_text(a: &str, b: &str) -> (r: bool)
    ensures
        r == (a@ == b@),
{
    let av = chars_of(a);
    let bv = chars_of(b);
    if av.len() != bv.len() {
        return false;
    }
    let r = matches_at(&av, 0, &bv);
    assert(av@.subrange(0, bv@.len() as int) =~= av@);
    r
}

/// Whether `s` is one of the texts in `list`.
pub fn contains_text(list: &Vec<String>, s: &str) -> (r: bool)
    ensures
        r == str_views(list@).contains(s@),
{
    let mut i: usize = 0;
    while i < list.len()
        invariant
            0 <= i <= list@.len(),
            forall|k: int| 0 <= k < i ==> #[trigger] list@[k]@ != s@,
        decreases list@.len() - i,
    {
        if same_text(list[i].as_str(), s) {
            assert(str_views(list@)[i as int] == s@);
            return true;
        }
        i = i + 1;
    }
    assert(!str_views(list@).contains(s@)) by {
        if str_views(list@).contains(s@) {
            let k = choose|k: int| 0 <= k < str_views(list@).len() && str_views(list@)[k] == s@;
            assert(list@[k]@ == s@);
        }
    }
    false
}

/// `a` followed by `b`.
pub fn concat(a: &str, b: &str) -> (r: String)
    ensures
        r@ == a@ + b@,
{
    let s = String::from_str(a);
    s.concat(b)
}

// ── Hexadecimal ──
/// The lowercase hexadecimal digits, by value.
pub open spec fn hex_alphabet() -> Seq<char> {
    "0123456789abcdef"@
}

/// 16 to the power `e`.
pub open spec fn pow16(e: int) -> int
    decreases e,
{
    if e <= 0 {
        1
    } else {
        16 * pow16(e - 1)
    }
}

/// `x` written with exactly `n` lowercase hexadecimal digits, most significant
/// first (zero-padded; for `x` below 16 to the `n`).
pub open spec fn hex_digits(x: int, n: int) -> Seq<char> {
    Seq::new(n as nat, |i: int| hex_alphabet()[(x / pow16(n - 1 - i)) % 16])
}

proof fn lemma_pow16_step(k: int)
    requires
        k >= 0,
    ensures
        pow16(k + 1) == 16 * pow16(k),
        pow16(k + 1) / 16 == pow16(k),
        pow16(k) >= 1,
    decreases k,
{
    if k > 0 {
        lemma_pow16_step(k - 1);
    }
    let a = pow16(k);
    assert((16 * a) / 16 == a) by (nonlinear_arith);
}

proof fn lemma_pow16_mono(a: int, b: int)
    requires
        0 <= a <= b,
    ensures
        pow16(a) <= pow16(b),
    decreases b - a,
{
    if a < b {
        lemma_pow16_mono(a, b - 1);
        lemma_pow16_step(b - 1);
    }
}

/// `x` as `n` lowercase hexadecimal digits (see `hex_digits`).
pub fn hex_text(x: u64, n: usize) -> (s: String)
    requires
        1 <= n <= 16,
    ensures
        s@ == hex_digits(x as int, n as int),
{
    proof {
        reveal_strlit("0123456789abcdef");
        lemma_pow16_mono(n - 1, 15);
        reveal_with_fuel(pow16, 16);
        assert(pow16(15) == 0x1000_0000_0000_0000);
    }
    let alphabet = "0123456789abcdef";
    let mut p: u64 = 1;
    let mut j: usize = 0;
    while j + 1 < n
        invariant
            1 <= n <= 16,
            0 <= j < n,
            p == pow16(j as int),
            pow16(n - 1) <= 0x1000_0000_0000_0000,
        decreases n - j,
    {
        proof {
            lemma_pow16_step(j as int);
            lemma_pow16_mono(j + 1, n - 1);
        }
        p = p * 16;
        j = j + 1;
    }
    let ghost digits = hex_digits(x as int, n as int);
    let mut s = String::new();
    let mut i: usize = 0;
    while i < n
        invariant
            alphabet@ == hex_alphabet(),
            alphabet@.len() == 16,
            1 <= n <= 16,
            0 <= i <= n,
            i < n ==> p == pow16(n - 1 - i),
            digits == hex_digits(x as int, n as int),
            s@ == digits.take(i as int),
        decreases n - i,
    {
        proof {
            lemma_pow16_step(n - 1 - i);
        }
        let d = ((x / p) % 16) as usize;
        let piece = alphabet.substring_char(d, d + 1);
        assert(piece@ =~= seq![digits[i as int]]);
        let ghost prev = s@;
        s.append(piece);
        assert(s@ =~= digits.take(i + 1)) by {
            assert(digits.take(i + 1) =~= prev + seq![digits[i as int]]);
        }
        proof {
            if i + 1 < n {
                lemma_pow16_step(n - 2 - i);
            }
        }
        p = p / 16;
        i = i + 1;
    }
    assert(digits.take(n as int) =~= digits);
    s
}

// ── Decimal ──
/// The decimal digits, by value.
pub open spec fn decimal_alphabet() -> Seq<char> {
    "0123456789"@
}

/// `n` in decimal, most significant digit first, without leading zeros.
pub open spec fn decimal_digits(n: nat) -> Seq<char>
    decreases n,
{
    if n < 10 {
        seq![decimal_alphabet()[n as int]]
    } else {
        decimal_digits(n / 10) + seq![decimal_alphabet()[(n % 10) as int]]
    }
}

/// `x` in decimal, with a leading `-` when negative, as `{}` writes an integer.
pub open spec fn int_text(x: int) -> Seq<char> {
    if x < 0 {
        seq!['-'] + decimal_digits((-x) as nat)
    } else {
        decimal_digits(x as nat)
    }
}

/// `n` in decimal (see `decimal_digits`).
pub fn decimal_text(n: u64) -> (s: String)
    ensures
        s@ == decimal_digits(n as nat),
    decreases n,
{
    proof {
        reveal_strlit("0123456789");
    }
    let alphabet = "0123456789";
    let d = (n % 10) as usize;
    let last = alphabet.substring_char(d, d + 1);
    assert(last@ =~= seq![decimal_alphabet()[d as int]]);
    if n < 10 {
        String::from_str(last)
    } else {
        let head = decimal_text(n / 10);
        concat(head.as_str(), last)
    }
}

/// `x` in decimal, signed (see `int_text`).
pub fn int_decimal_text(x: i64) -> (s: String)
    ensures
        s@ == int_text(x as int),
{
    if x < 0 {
        let m: u64 = ((-(x as i128)) as u64);
        let digits = decimal_text(m);
        proof {
            reveal_strlit("-");
        }
        concat("-", digits.as_str())
    } else {
        decimal_text(x as u64)
    }
}

} // verus!
