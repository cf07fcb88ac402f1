//! Character-level text utilities shared by the codec, the discovery
//! parser and the candidate selector. Exec code works on `Vec<char>`,
//! contracts on `Seq<char>`.

use vstd::prelude::*;

verus! {

/// Collects the characters of a string slice into a vector.
pub fn str_to_chars(s: &str) -> (r: Vec<char>)
    ensures
        r@ == s@,
{
    let n: usize = s.unicode_len();
    let mut r: Vec<char> = Vec::new();
    let mut i: usize = 0;
    while i < n
        invariant
            i <= n,
            n == s@.len(),
            r@ == s@.subrange(0, i as int),
        decreases n - i,
    {
        r.push(s.get_char(i));
        i = i + 1;
        proof {
            assert(r@ =~= s@.subrange(0, i as int));
        }
    }
    proof {
        assert(r@ =~= s@);
    }
    r
}

/// Relies on `String`'s `FromIterator<char>` impl: collecting chars yields
/// the string made of exactly those chars in order.
#[verifier::external_body]
pub fn chars_to_string(v: &Vec<char>) -> (r: String)
    ensures
        r@ == v@,
{
    v.iter().collect()
}

/// Appends every character of the string slice `s` to `out`.
pub fn push_str_chars(out: &mut Vec<char>, s: &str)
    ensures
        final(out)@ == old(out)@ + s@,
{
    let n: usize = s.unicode_len();
    let mut i: usize = 0;
    while i < n
        invariant
            i <= n,
            n == s@.len(),
            out@ == old(out)@ + s@.subrange(0, i as int),
        decreases n - i,
    {
        out.push(s.get_char(i));
        i = i + 1;
        proof {
            assert(out@ =~= old(out)@ + s@.subrange(0, i as int));
        }
    }
    proof {
        assert(out@ =~= old(out)@ + s@);
    }
}

pub open spec fn is_digit_char(c: char) -> bool {
    ('0' as u32) <= (c as u32) && (c as u32) <= ('9' as u32)
}

pub open spec fn digit_val(c: char) -> nat {
    (((c as u32) - ('0' as u32)) as int) as nat
}

pub open spec fn digit_char(d: nat) -> char {
    if d == 0 {
        '0'
    } else if d == 1 {
        '1'
    } else if d == 2 {
        '2'
    } else if d == 3 {
        '3'
    } else if d == 4 {
        '4'
    } else if d == 5 {
        '5'
    } else if d == 6 {
        '6'
    } else if d == 7 {
        '7'
    } else if d == 8 {
        '8'
    } else {
        '9'
    }
}

/// Decimal digits of `n`, most significant first, no leading zeros
/// (except for `n == 0`, which is the single digit `0`).
pub open spec fn dec_digits(n: nat) -> Seq<char>
    decreases n,
{
    if n < 10 {
        seq![digit_char(n)]
    } else {
        dec_digits(n / 10) + seq![digit_char(n % 10)]
    }
}

/// Decimal rendering of a signed value: a `-` sign, if negative,
/// followed by the digits of the magnitude.
pub open spec fn int_digits(v: int) -> Seq<char> {
    if v < 0 {
        seq!['-'] + dec_digits((-v) as nat)
    } else {
        dec_digits(v as nat)
    }
}

fn digit_to_char(d: u64) -> (c: char)
    requires
        d < 10,
    ensures
        c == digit_char(d as nat),
{
    match d {
        0 => '0',
        1 => '1',
        2 => '2',
        3 => '3',
        4 => '4',
        5 => '5',
        6 => '6',
        7 => '7',
        8 => '8',
        _ => '9',
    }
}

/// Appends the decimal digits of `n` to `out`.
pub fn push_u64(out: &mut Vec<char>, n: u64)
    ensures
        final(out)@ == old(out)@ + dec_digits(n as nat),
    decreases n,
{
    if n < 10 {
        out.push(digit_to_char(n));
        proof {
            assert(out@ =~= old(out)@ + dec_digits(n as nat));
        }
    } else {
        push_u64(out, n / 10);
        out.push(digit_to_char(n % 10));
        proof {
            assert(out@ =~= old(out)@ + dec_digits(n as nat));
        }
    }
}

/// Appends the decimal rendering of the signed value `v` to `out`.
pub fn push_i64(out: &mut Vec<char>, v: i64)
    ensures
        final(out)@ == old(out)@ + int_digits(v as int),
{
    if v >= 0 {
        push_u64(out, v as u64);
    } else {
        out.push('-');
        let m: u64 = if v == i64::MIN {
            9223372036854775808u64
        } else {
            (-v) as u64
        };
        assert(m as nat == (-(v as int)) as nat);
        push_u64(out, m);
        proof {
            assert(out@ =~= old(out)@ + int_digits(v as int));
        }
    }
}

/// Powers of ten.
pub open spec fn pow10(k: nat) -> nat
    decreases k,
{
    if k == 0 {
        1
    } else {
        10 * pow10((k - 1) as nat)
    }
}

/// Length of the leading run of decimal digits.
pub open spec fn digit_run(t: Seq<char>) -> nat
    decreases t.len(),
{
    if t.len() > 0 && is_digit_char(t[0]) {
        1 + digit_run(t.skip(1))
    } else {
        0
    }
}

pub proof fn lemma_digit_run_at(s: Seq<char>, t: int)
    requires
        0 <= t <= s.len(),
        forall|j: int| 0 <= j < t ==> is_digit_char(s[j]),
        t < s.len() ==> !is_digit_char(s[t]),
    ensures
        digit_run(s) == t,
    decreases t,
{
    if t > 0 {
        lemma_digit_run_at(s.skip(1), t - 1);
    }
}

/// The numeric value of a digit sequence, most significant first.
pub open spec fn digits_value(ds: Seq<char>) -> nat
    decreases ds.len(),
{
    if ds.len() == 0 {
        0
    } else {
        digits_value(ds.drop_last()) * 10 + digit_val(ds.last())
    }
}

pub proof fn lemma_digits_value_bound(ds: Seq<char>)
    requires
        forall|j: int| 0 <= j < ds.len() ==> is_digit_char(ds[j]),
    ensures
        digits_value(ds) < pow10(ds.len()),
    decreases ds.len(),
{
    if ds.len() > 0 {
        assert(forall|j: int|
            0 <= j < ds.drop_last().len() ==> #[trigger] ds.drop_last()[j] == ds[j]);
        lemma_digits_value_bound(ds.drop_last());
        assert(ds.last() == ds[ds.len() - 1]);
        assert(is_digit_char(ds.last()));
        assert(digit_val(ds.last()) <= 9);
        assert(digits_value(ds.drop_last()) <= pow10((ds.len() - 1) as nat) - 1);
        assert(digits_value(ds.drop_last()) * 10 <= (pow10((ds.len() - 1) as nat) - 1) * 10)
            by (nonlinear_arith)
            requires
                digits_value(ds.drop_last()) <= pow10((ds.len() - 1) as nat) - 1,
                pow10((ds.len() - 1) as nat) >= 1,
        {
        }
        assert(pow10(ds.len()) == 10 * pow10((ds.len() - 1) as nat));
    }
}

pub proof fn lemma_pow10_mono(a: nat, b: nat)
    requires
        a <= b,
    ensures
        pow10(a) <= pow10(b),
    decreases b,
{
    if a < b {
        lemma_pow10_mono(a, (b - 1) as nat);
        assert(pow10(b) == 10 * pow10((b - 1) as nat));
    }
}

/// The digits of `n` are decimal digits, their value is `n`, and for
/// `n` below `pow10(k)` there are at most `k` of them.
pub proof fn lemma_dec_digits_props(n: nat)
    ensures
        forall|j: int| 0 <= j < dec_digits(n).len() ==> is_digit_char(#[trigger] dec_digits(n)[j]),
        digits_value(dec_digits(n)) == n,
        dec_digits(n).len() >= 1,
    decreases n,
{
    if n < 10 {
        assert(dec_digits(n) =~= seq![digit_char(n)]);
        assert(is_digit_char(digit_char(n)));
        assert(digit_val(digit_char(n)) == n);
        assert(dec_digits(n).drop_last() =~= Seq::<char>::empty());
        assert(dec_digits(n).last() == digit_char(n));
        assert(digits_value(dec_digits(n).drop_last()) == 0);
        assert(digits_value(dec_digits(n)) == digits_value(dec_digits(n).drop_last()) * 10
            + digit_val(dec_digits(n).last()));
        assert(digits_value(dec_digits(n)) == n);
    } else {
        lemma_dec_digits_props(n / 10);
        let d = dec_digits(n);
        assert(d =~= dec_digits(n / 10) + seq![digit_char(n % 10)]);
        assert(d.drop_last() =~= dec_digits(n / 10));
        assert(d.last() == digit_char(n % 10));
        assert(forall|j: int|
            0 <= j < d.len() - 1 ==> #[trigger] d[j] == dec_digits(n / 10)[j]);
        assert(is_digit_char(digit_char(n % 10)));
        assert(digit_val(digit_char(n % 10)) == n % 10);
        assert(digits_value(d.drop_last()) == n / 10);
        assert(digits_value(d) == digits_value(d.drop_last()) * 10 + digit_val(d.last()));
        assert(digits_value(d) == (n / 10) * 10 + n % 10);
        assert((n / 10) * 10 + n % 10 == n);
        assert(digits_value(dec_digits(n)) == n);
    }
}

pub proof fn lemma_dec_digits_len(n: nat, k: nat)
    requires
        n < pow10(k),
        k >= 1,
    ensures
        dec_digits(n).len() <= k,
    decreases k,
{
    if n < 10 {
    } else {
        assert(pow10(0) == 1);
        assert(pow10(1) == 10);
        assert(k >= 2) by {
            if k == 1 {
                assert(n < 10);
            }
        }
        assert(pow10(k) == 10 * pow10((k - 1) as nat));
        assert(n / 10 < pow10((k - 1) as nat)) by (nonlinear_arith)
            requires
                n < 10 * pow10((k - 1) as nat),
                n >= 10,
        {
        }
        lemma_dec_digits_len(n / 10, (k - 1) as nat);
    }
}

pub proof fn lemma_digits_value_prefix_le(ds: Seq<char>, m: int)
    requires
        0 <= m <= ds.len(),
    ensures
        digits_value(ds.take(m)) <= digits_value(ds),
    decreases ds.len() - m,
{
    if m < ds.len() {
        lemma_digits_value_prefix_le(ds, m + 1);
        assert(ds.take(m + 1).drop_last() =~= ds.take(m));
        assert(digits_value(ds.take(m + 1)) == digits_value(ds.take(m)) * 10 + digit_val(
            ds.take(m + 1).last(),
        ));
        assert(digits_value(ds.take(m)) * 10 >= digits_value(ds.take(m))) by (nonlinear_arith);
        assert(ds.take(ds.len() as int) =~= ds);
    } else {
        assert(ds.take(m) =~= ds);
    }
}

/// The number a decimal text names, as `u32::from_str` reads it: an
/// optional leading plus sign, one or more digits, no other characters,
/// and a value within range.
pub open spec fn u32_of_text(s: Seq<char>) -> Option<u32> {
    let body = if s.len() > 0 && s[0] == '+' {
        s.skip(1)
    } else {
        s
    };
    if body.len() == 0 || digit_run(body) != body.len() {
        Option::None
    } else if digits_value(body) > 0xffff_ffff {
        Option::None
    } else {
        Option::Some(digits_value(body) as u32)
    }
}

/// Reads a decimal number the way `u32::from_str` does.
pub fn parse_u32(s: &str) -> (r: Option<u32>)
    ensures
        r == u32_of_text(s@),
{
    let v = str_to_chars(s);
    let n = v.len();
    let start: usize = if n > 0 && v[0] == '+' {
        1
    } else {
        0
    };
    let ghost body = if s@.len() > 0 && s@[0] == '+' {
        s@.skip(1)
    } else {
        s@
    };
    proof {
        if start == 0 {
            assert(v@.skip(0) =~= s@);
        }
        assert(body =~= v@.skip(start as int));
    }
    if start == n {
        return None;
    }
    let mut j: usize = start;
    while j < n && is_digit_c_text(v[j])
        invariant
            start <= j <= n,
            n == v@.len(),
            forall|q: int| start <= q < j ==> is_digit_char(v@[q]),
        decreases n - j,
    {
        j = j + 1;
    }
    proof {
        assert(forall|q: int| 0 <= q < j - start ==> #[trigger] body[q] == v@[start + q]);
        lemma_digit_run_at(body, j - start);
    }
    if j < n {
        return None;
    }
    let mut acc: u64 = 0;
    let mut m: usize = start;
    proof {
        assert(body.take(0) =~= Seq::<char>::empty());
    }
    while m < n
        invariant
            start <= m <= n,
            n == v@.len(),
            body == v@.skip(start as int),
            body.len() == n - start,
            body.len() > 0,
            digit_run(body) == body.len(),
            start <= 1,
            (s@.len() > 0 && s@[0] == '+') == (start == 1),
            start == 0 ==> body == s@,
            start == 1 ==> body == s@.skip(1),
            forall|q: int| start <= q < n ==> is_digit_char(v@[q]),
            acc as nat == digits_value(body.take(m - start)),
            acc <= 0xffff_ffff,
        decreases n - m,
    {
        let c = v[m];
        let d: u64 = (((c as u32) - ('0' as u32)) as u64);
        assert(d as nat == digit_val(c));
        assert(d <= 9);
        let next: u64 = acc * 10 + d;
        proof {
            assert(body.take(m - start + 1).drop_last() =~= body.take(m - start));
            assert(body.take(m - start + 1).last() == v@[m as int]);
            assert(next as nat == digits_value(body.take(m - start + 1)));
        }
        if next > 0xffff_ffff {
            proof {
                lemma_digits_value_prefix_le(body, m - start + 1);
                assert(digits_value(body) > 0xffff_ffff);
            }
            return None;
        }
        acc = next;
        m = m + 1;
    }
    proof {
        assert(body.take(n - start) =~= body);
    }
    Some(acc as u32)
}

fn is_digit_c_text(c: char) -> (r: bool)
    ensures
        r == is_digit_char(c),
{
    ('0' as u32) <= (c as u32) && (c as u32) <= ('9' as u32)
}

/// Strict lexicographic order on character sequences, by code point.
pub open spec fn lex_lt(a: Seq<char>, b: Seq<char>) -> bool
    decreases a.len(),
{
    if b.len() == 0 {
        false
    } else if a.len() == 0 {
        true
    } else if (a[0] as u32) < (b[0] as u32) {
        true
    } else if a[0] == b[0] {
        lex_lt(a.skip(1), b.skip(1))
    } else {
        false
    }
}

pub proof fn lemma_lex_lt_irrefl(a: Seq<char>)
    ensures
        !lex_lt(a, a),
    decreases a.len(),
{
    if a.len() > 0 {
        lemma_lex_lt_irrefl(a.skip(1));
    }
}

pub proof fn lemma_lex_lt_connected(a: Seq<char>, b: Seq<char>)
    requires
        !lex_lt(a, b),
        !lex_lt(b, a),
    ensures
        a == b,
    decreases a.len(),
{
    if a.len() == 0 {
        assert(b.len() == 0);
        assert(a =~= b);
    } else {
        assert(b.len() > 0);
        assert((a[0] as u32) == (b[0] as u32));
        vstd::utf8::char_u32_cast(a[0], a[0] as u32);
        vstd::utf8::char_u32_cast(b[0], b[0] as u32);
        assert(a[0] == b[0]);
        lemma_lex_lt_connected(a.skip(1), b.skip(1));
        assert(a =~= seq![a[0]] + a.skip(1));
        assert(b =~= seq![b[0]] + b.skip(1));
    }
}

pub proof fn lemma_lex_lt_trans(a: Seq<char>, b: Seq<char>, c: Seq<char>)
    requires
        lex_lt(a, b),
        lex_lt(b, c),
    ensures
        lex_lt(a, c),
    decreases a.len(),
{
    if a.len() > 0 && b.len() > 0 && c.len() > 0 && a[0] == b[0] && b[0] == c[0] {
        lemma_lex_lt_trans(a.skip(1), b.skip(1), c.skip(1));
    }
}

/// Character-for-character equality of two string slices.
pub fn str_eq(a: &str, b: &str) -> (r: bool)
    ensures
        r == (a@ == b@),
{
    let an: usize = a.unicode_len();
    let bn: usize = b.unicode_len();
    if an != bn {
        return false;
    }
    let mut i: usize = 0;
    while i < an
        invariant
            i <= an,
            an == a@.len(),
            an == b@.len(),
            forall|j: int| 0 <= j < i ==> a@[j] == b@[j],
        decreases an - i,
    {
        if a.get_char(i) != b.get_char(i) {
            return false;
        }
        i = i + 1;
    }
    proof {
        assert(a@ =~= b@);
    }
    true
}

/// Character-for-character equality of two char vectors.
pub fn chars_eq(a: &Vec<char>, b: &Vec<char>) -> (r: bool)
    ensures
        r == (a@ == b@),
{
    if a.len() != b.len() {
        return false;
    }
    let mut i: usize = 0;
    while i < a.len()
        invariant
            i <= a@.len(),
            a@.len() == b@.len(),
            forall|j: int| 0 <= j < i ==> a@[j] == b@[j],
        decreases a@.len() - i,
    {
        if a[i] != b[i] {
            return false;
        }
        i = i + 1;
    }
    proof {
        assert(a@ =~= b@);
    }
    true
}

/// Compares two string slices in lexicographic code-point order.
pub fn str_lt(a: &str, b: &str) -> (r: bool)
    ensures
        r == lex_lt(a@, b@),
{
    let an: usize = a.unicode_len();
    let bn: usize = b.unicode_len();
    let mut i: usize = 0;
    proof {
        assert(a@.skip(0) =~= a@);
        assert(b@.skip(0) =~= b@);
    }
    while i < an && i < bn
        invariant
            i <= an,
            i <= bn,
            an == a@.len(),
            bn == b@.len(),
            lex_lt(a@, b@) == lex_lt(a@.skip(i as int), b@.skip(i as int)),
        decreases an - i,
    {
        let ca = a.get_char(i);
        let cb = b.get_char(i);
        if (ca as u32) < (cb as u32) {
            return true;
        }
        if (cb as u32) < (ca as u32) {
            return false;
        }
        assert(ca == cb);
        proof {
            assert(a@.skip(i as int).skip(1) =~= a@.skip(i + 1));
            assert(b@.skip(i as int).skip(1) =~= b@.skip(i + 1));
        }
        i = i + 1;
    }
    proof {
        assert(a@.skip(i as int).len() == an - i);
        assert(b@.skip(i as int).len() == bn - i);
    }
    an < bn
}

/// Index of the first occurrence of `c` in `s`.
pub open spec fn find_char(s: Seq<char>, c: char) -> Option<int>
    decreases s.len(),
{
    if s.len() == 0 {
        None
    } else if s[0] == c {
        Some(0int)
    } else {
        match find_char(s.skip(1), c) {
            Option::None => Option::<int>::None,
            Option::Some(i) => Option::Some(i + 1),
        }
    }
}

pub proof fn lemma_find_char_spec(s: Seq<char>, c: char)
    ensures
        match find_char(s, c) {
            Option::Some(i) => 0 <= i < s.len() && s[i] == c && (forall|j: int|
                0 <= j < i ==> s[j] != c),
            Option::None => forall|j: int| 0 <= j < s.len() ==> s[j] != c,
        },
    decreases s.len(),
{
    if s.len() > 0 && s[0] != c {
        lemma_find_char_spec(s.skip(1), c);
        assert(forall|j: int| 1 <= j < s.len() ==> s[j] == s.skip(1)[j - 1]);
    }
}

pub proof fn lemma_find_char_witness(s: Seq<char>, c: char, i: int)
    requires
        0 <= i < s.len(),
        s[i] == c,
        forall|j: int| 0 <= j < i ==> s[j] != c,
    ensures
        find_char(s, c) == Some(i),
    decreases s.len(),
{
    if s[0] != c {
        lemma_find_char_witness(s.skip(1), c, i - 1);
    }
}

/// Whether `p` is a prefix of `s`.
pub open spec fn starts_with(s: Seq<char>, p: Seq<char>) -> bool {
    s.len() >= p.len() && s.take(p.len() as int) == p
}

/// Prefix test on string slices.
pub fn str_starts_with(s: &str, p: &str) -> (r: bool)
    ensures
        r == starts_with(s@, p@),
{
    let sn: usize = s.unicode_len();
    let pn: usize = p.unicode_len();
    if sn < pn {
        return false;
    }
    let mut i: usize = 0;
    while i < pn
        invariant
            i <= pn,
            pn <= sn,
            sn == s@.len(),
            pn == p@.len(),
            forall|j: int| 0 <= j < i ==> s@[j] == p@[j],
        decreases pn - i,
    {
        if s.get_char(i) != p.get_char(i) {
            assert(s@.take(pn as int)[i as int] != p@[i as int]);
            return false;
        }
        i = i + 1;
    }
    proof {
        assert(s@.take(pn as int) =~= p@);
    }
    true
}

/// Prefix test of a char pattern at position `i` of `v`.
pub fn chars_start_with(v: &Vec<char>, i: usize, p: &Vec<char>) -> (r: bool)
    requires
        i <= v@.len(),
    ensures
        r == starts_with(v@.skip(i as int), p@),
{
    let n: usize = v.len();
    if n - i < p.len() {
        return false;
    }
    let mut j: usize = 0;
    while j < p.len()
        invariant
            j <= p@.len(),
            i + p@.len() <= n,
            n == v@.len(),
            forall|q: int| 0 <= q < j ==> v@[i + q] == p@[q],
        decreases p@.len() - j,
    {
        if v[i + j] != p[j] {
            assert(v@.skip(i as int).take(p@.len() as int)[j as int] != p@[j as int]);
            return false;
        }
        j = j + 1;
    }
    proof {
        assert(v@.skip(i as int).take(p@.len() as int) =~= p@);
    }
    true
}

/// Copies `v[a..b]` into a fresh vector.
pub fn copy_range(v: &Vec<char>, a: usize, b: usize) -> (r: Vec<char>)
    requires
        a <= b <= v@.len(),
    ensures
        r@ == v@.subrange(a as int, b as int),
{
    let mut r: Vec<char> = Vec::new();
    let mut i: usize = a;
    while i < b
        invariant
            a <= i <= b <= v@.len(),
            r@ == v@.subrange(a as int, i as int),
        decreases b - i,
    {
        r.push(v[i]);
        i = i + 1;
        proof {
            assert(r@ =~= v@.subrange(a as int, i as int));
        }
    }
    r
}

/// First index of `c` in `v`, if any.
pub fn find_char_in(v: &Vec<char>, c: char) -> (r: Option<usize>)
    ensures
        match r {
            Option::Some(i) => find_char(v@, c) == Some(i as int),
            Option::None => find_char(v@, c) is None,
        },
{
    let mut i: usize = 0;
    while i < v.len()
        invariant
            i <= v@.len(),
            forall|j: int| 0 <= j < i ==> v@[j] != c,
        decreases v@.len() - i,
    {
        if v[i] == c {
            proof {
                lemma_find_char_witness(v@, c, i as int);
            }
            return Some(i);
        }
        i = i + 1;
    }
    proof {
        lemma_find_char_spec(v@, c);
    }
    None
}


/// First index of `c` in `v` at or after `from`, if any, as an offset
/// into the suffix starting at `from`.
pub fn find_char_from(v: &Vec<char>, from: usize, c: char) -> (r: Option<usize>)
    requires
        from <= v@.len(),
    ensures
        match r {
            Option::Some(i) => from <= i < v@.len() && find_char(v@.skip(from as int), c) == Some(
                i - from,
            ),
            Option::None => find_char(v@.skip(from as int), c) is None,
        },
{
    let mut i: usize = from;
    while i < v.len()
        invariant
            from <= i <= v@.len(),
            forall|j: int| from <= j < i ==> v@[j] != c,
        decreases v@.len() - i,
    {
        if v[i] == c {
            proof {
                lemma_find_char_witness(v@.skip(from as int), c, i - from);
            }
            return Some(i);
        }
        i = i + 1;
    }
    proof {
        lemma_find_char_spec(v@.skip(from as int), c);
    }
    None
}

/// Drops one trailing carriage return, as `str::lines` does.
pub open spec fn strip_cr(l: Seq<char>) -> Seq<char> {
    if l.len() > 0 && l.last() == '\r' {
        l.drop_last()
    } else {
        l
    }
}

/// The lines of `s`, split on newline: the piece after a final newline is
/// dropped when empty, and one trailing carriage return is stripped from
/// each line, as `str::lines` does.
pub open spec fn lines_of(s: Seq<char>) -> Seq<Seq<char>>
    decreases s.len(),
{
    if s.len() == 0 {
        Seq::empty()
    } else {
        match find_char(s, '\n') {
            Option::None => seq![strip_cr(s)],
            Option::Some(i) => if 0 <= i < s.len() {
                seq![strip_cr(s.take(i))] + lines_of(s.skip(i + 1))
            } else {
                Seq::empty()
            },
        }
    }
}

/// Splits `v` into its lines, starting at position `i`.
fn split_lines_from(v: &Vec<char>, i: usize) -> (r: Vec<String>)
    requires
        i <= v@.len(),
    ensures
        r.deep_view() == lines_of(v@.skip(i as int)),
    decreases v@.len() - i,
{
    let ghost s = v@.skip(i as int);
    if i == v.len() {
        let r: Vec<String> = Vec::new();
        proof {
            assert(r.deep_view() =~= lines_of(s));
        }
        return r;
    }
    match find_char_from(v, i, '\n') {
        Option::None => {
            let mut line = copy_range(v, i, v.len());
            proof {
                assert(line@ =~= s);
            }
            if line.len() > 0 && line[line.len() - 1] == '\r' {
                line.pop();
                proof {
                    assert(line@ =~= strip_cr(s));
                }
            }
            let mut r: Vec<String> = Vec::new();
            r.push(crate::text::chars_to_string(&line));
            proof {
                assert(r.deep_view() =~= lines_of(s));
            }
            r
        },
        Option::Some(j) => {
            let mut line = copy_range(v, i, j);
            proof {
                assert(line@ =~= s.take(j - i));
            }
            if line.len() > 0 && line[line.len() - 1] == '\r' {
                line.pop();
                proof {
                    assert(line@ =~= strip_cr(s.take(j - i)));
                }
            }
            let mut r = split_lines_from(v, j + 1);
            proof {
                assert(v@.skip(j + 1) =~= s.skip(j - i + 1));
            }
            r.insert(0, crate::text::chars_to_string(&line));
            proof {
                assert(r.deep_view() =~= lines_of(s));
            }
            r
        },
    }
}

/// The whitespace characters recognised when scanning host declaration
/// lines and probe output: blank, tab and carriage return.
pub open spec fn is_space(c: char) -> bool {
    c == ' ' || c == '\t' || c == '\r'
}

fn is_space_c(c: char) -> (r: bool)
    ensures
        r == is_space(c),
{
    c == ' ' || c == '\t' || c == '\r'
}

/// The suffix of `s` after its leading whitespace.
pub open spec fn skip_spaces(s: Seq<char>) -> Seq<char>
    decreases s.len(),
{
    if s.len() > 0 && is_space(s[0]) {
        skip_spaces(s.skip(1))
    } else {
        s
    }
}

/// Length of the leading whitespace-free token of `s`.
pub open spec fn token_len(s: Seq<char>) -> nat
    decreases s.len(),
{
    if s.len() > 0 && !is_space(s[0]) {
        1 + token_len(s.skip(1))
    } else {
        0
    }
}

pub proof fn lemma_skip_spaces_at(s: Seq<char>, a: int)
    requires
        0 <= a <= s.len(),
        forall|j: int| 0 <= j < a ==> is_space(s[j]),
        a < s.len() ==> !is_space(s[a]),
    ensures
        skip_spaces(s) == s.skip(a),
    decreases a,
{
    if a == 0 {
        assert(s.skip(0) =~= s);
    } else {
        lemma_skip_spaces_at(s.skip(1), a - 1);
        assert(s.skip(1).skip(a - 1) =~= s.skip(a));
    }
}

pub proof fn lemma_token_len_at(s: Seq<char>, t: int)
    requires
        0 <= t <= s.len(),
        forall|j: int| 0 <= j < t ==> !is_space(s[j]),
        t < s.len() ==> is_space(s[t]),
    ensures
        token_len(s) == t,
    decreases t,
{
    if t > 0 {
        lemma_token_len_at(s.skip(1), t - 1);
    }
}

/// First position at or after `from` holding a non-whitespace character.
pub fn scan_spaces(v: &Vec<char>, from: usize) -> (r: usize)
    requires
        from <= v@.len(),
    ensures
        from <= r <= v@.len(),
        forall|j: int| from <= j < r ==> is_space(v@[j]),
        r < v@.len() ==> !is_space(v@[r as int]),
        skip_spaces(v@.skip(from as int)) == v@.skip(r as int),
{
    let mut i: usize = from;
    while i < v.len() && is_space_c(v[i])
        invariant
            from <= i <= v@.len(),
            forall|j: int| from <= j < i ==> is_space(v@[j]),
        decreases v@.len() - i,
    {
        i = i + 1;
    }
    proof {
        lemma_skip_spaces_at(v@.skip(from as int), i - from);
        assert(v@.skip(from as int).skip(i - from) =~= v@.skip(i as int));
    }
    i
}

/// First position at or after `from` holding a whitespace character.
pub fn scan_token(v: &Vec<char>, from: usize) -> (r: usize)
    requires
        from <= v@.len(),
    ensures
        from <= r <= v@.len(),
        token_len(v@.skip(from as int)) == r - from,
{
    let mut i: usize = from;
    while i < v.len() && !is_space_c(v[i])
        invariant
            from <= i <= v@.len(),
            forall|j: int| from <= j < i ==> !is_space(v@[j]),
        decreases v@.len() - i,
    {
        i = i + 1;
    }
    proof {
        lemma_token_len_at(v@.skip(from as int), i - from);
    }
    i
}

/// Splits a string into its lines, as `str::lines` does.
pub fn split_lines(text: &str) -> (r: Vec<String>)
    ensures
        r.deep_view() == lines_of(text@),
{
    let v = str_to_chars(text);
    let r = split_lines_from(&v, 0);
    proof {
        assert(v@.skip(0) =~= text@);
    }
    r
}

} // verus!
