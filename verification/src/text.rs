//! Text helpers: decimal rendering of identifiers.

use vstd::prelude::*;

verus! {

/// The decimal digit for `d` (`0 <= d < 10`).
pub open spec fn digit_char(d: int) -> char {
    if d == 0 { '0' } else if d == 1 { '1' } else if d == 2 { '2' } else if d == 3 { '3' }
    else if d == 4 { '4' } else if d == 5 { '5' } else if d == 6 { '6' } else if d == 7 { '7' }
    else if d == 8 { '8' } else { '9' }
}

/// The decimal text of `n`, most significant digit first, no leading zeros.
pub open spec fn decimal(n: nat) -> Seq<char>
    decreases n,
{
    if n < 10 {
        seq![digit_char(n as int)]
    } else {
        decimal(n / 10).push(digit_char((n % 10) as int))
    }
}

/// Different digits are different characters.
proof fn lemma_digit_injective(x: int, y: int)
    requires
        0 <= x < 10,
        0 <= y < 10,
        digit_char(x) == digit_char(y),
    ensures
        x == y,
{
}

/// Decimal text is never empty and holds no `/`.
pub proof fn lemma_decimal_shape(n: nat)
    ensures
        decimal(n).len() >= 1,
        n >= 10 ==> decimal(n).len() >= 2,
        no_slash(decimal(n)),
    decreases n,
{
    if n >= 10 {
        lemma_decimal_shape(n / 10);
        let d = decimal(n / 10);
        assert forall|i: int| 0 <= i < decimal(n).len() implies decimal(n)[i] != '/' by {
            if i < d.len() {
                assert(decimal(n)[i] == d[i]);
            }
        }
    }
}

/// Different numbers have different decimal texts.
pub proof fn lemma_decimal_injective(a: nat, b: nat)
    requires
        decimal(a) == decimal(b),
    ensures
        a == b,
    decreases a,
{
    lemma_decimal_shape(a);
    lemma_decimal_shape(b);
    if a >= 10 && b >= 10 {
        assert(decimal(a) == decimal(a / 10).push(digit_char((a % 10) as int)));
        assert(decimal(b) == decimal(b / 10).push(digit_char((b % 10) as int)));
        assert(decimal(a).last() == decimal(b).last());
        assert(decimal(a).last() == digit_char((a % 10) as int));
        assert(decimal(b).last() == digit_char((b % 10) as int));
        assert(decimal(a).drop_last() == decimal(a / 10));
        assert(decimal(b).drop_last() == decimal(b / 10));
        lemma_decimal_injective(a / 10, b / 10);
        lemma_digit_injective((a % 10) as int, (b % 10) as int);
        assert(a == 10 * (a / 10) + a % 10);
        assert(b == 10 * (b / 10) + b % 10);
    } else if a < 10 && b < 10 {
        assert(decimal(a) == seq![digit_char(a as int)]);
        assert(decimal(b) == seq![digit_char(b as int)]);
        assert(decimal(a)[0] == digit_char(a as int));
        assert(decimal(b)[0] == digit_char(b as int));
        lemma_digit_injective(a as int, b as int);
    }
}

fn digit(d: u64) -> (c: char)
    requires
        d < 10,
    ensures
        c == digit_char(d as int),
{
    match d {
        0 => '0',
        1 => '1',
        2 => '2',
        3 => '3',
        4 => '4',
        5 => '5',
        6 => '6',
        7 => '7',
        8 => '8',
        _ => '9',
    }
}


/// `String::push`: appends one character.
#[verifier::external_body]
fn push_char(s: &mut String, c: char)
    ensures
        final(s)@ == old(s)@.push(c),
{
    s.push(c);
}

/// Appends the decimal text of `n` to `s`.
pub fn push_decimal(s: &mut String, n: u64)
    ensures
        final(s)@ == old(s)@ + decimal(n as nat),
    decreases n,
{
    if n < 10 {
        push_char(s, digit(n));
    } else {
        push_decimal(s, n / 10);
        push_char(s, digit(n % 10));
        proof {
            assert(decimal(n as nat) == decimal((n / 10) as nat).push(digit_char((n % 10) as int)));
        }
    }
}


/// The decimal text of `n`.
pub fn decimal_string(n: u64) -> (s: String)
    ensures
        s@ == decimal(n as nat),
{
    let mut s = String::new();
    push_decimal(&mut s, n);
    assert(Seq::<char>::empty() + decimal(n as nat) == decimal(n as nat));
    s
}

/// The characters of `s`, in order.
pub fn chars_of(s: &str) -> (v: Vec<char>)
    ensures
        v@ == s@,
{
    let mut v: Vec<char> = Vec::new();
    for c in it: s.chars()
        invariant
            v@ == it.seq().take(it.index() as int),
    {
        v.push(c);
    }
    v
}


/// The text of the first `end` characters of `v`.
pub fn string_of_chars(v: &Vec<char>, end: usize) -> (s: String)
    requires
        end <= v.len(),
    ensures
        s@ == v@.take(end as int),
{
    let mut s = String::new();
    let mut i: usize = 0;
    while i < end
        invariant
            i <= end <= v.len(),
            s@ == v@.take(i as int),
        decreases end - i,
    {
        push_char(&mut s, v[i]);
        assert(v@.take(i as int).push(v@[i as int]) == v@.take(i + 1));
        i = i + 1;
    }
    s
}

/// Whether `a` and `b` hold the same characters.
pub fn str_eq(a: &str, b: &str) -> (r: bool)
    ensures
        r == (a@ == b@),
{
    a.to_owned() == b.to_owned()
}

/// Whether `s` holds no `/`.
pub open spec fn no_slash(s: Seq<char>) -> bool {
    forall|i: int| 0 <= i < s.len() ==> s[i] != '/'
}

/// The part of `s` before its first `/` (all of `s` when it holds none).
pub open spec fn before_first_slash(s: Seq<char>) -> Seq<char> {
    if no_slash(s) {
        s
    } else {
        s.take(choose|k: int| 0 <= k < s.len() && s[k] == '/' && no_slash(s.take(k)))
    }
}

/// `s` without its trailing `/` characters.
pub open spec fn trim_trailing_slashes(s: Seq<char>) -> Seq<char>
    decreases s.len(),
{
    if s.len() > 0 && s.last() == '/' {
        trim_trailing_slashes(s.drop_last())
    } else {
        s
    }
}

/// The first `k` characters of `s` when the `k`-th is the first `/`.
pub proof fn lemma_before_first_slash(s: Seq<char>, k: int)
    requires
        0 <= k < s.len(),
        s[k] == '/',
        no_slash(s.take(k)),
    ensures
        before_first_slash(s) == s.take(k),
{
    assert(s.take(k + 1)[k] == '/');
    let c = choose|c: int| 0 <= c < s.len() && s[c] == '/' && no_slash(s.take(c));
    if c < k {
        assert(s.take(k)[c] == '/');
    } else if c > k {
        assert(s.take(c)[k] == '/');
    }
}

/// A key followed by `/` and anything else yields the key back.
pub proof fn lemma_key_then_slash(key: Seq<char>, rest: Seq<char>)
    requires
        no_slash(key),
        rest.len() > 0,
        rest[0] == '/',
    ensures
        before_first_slash(key + rest) == key,
{
    let s = key + rest;
    assert(s[key.len() as int] == '/');
    assert(s.take(key.len() as int) == key);
    lemma_before_first_slash(s, key.len() as int);
}

/// The part of `s` before its first `/`.
pub fn prefix_before_slash(s: &str) -> (r: String)
    ensures
        r@ == before_first_slash(s@),
{
    let v = chars_of(s);
    let mut i: usize = 0;
    while i < v.len() && v[i] != '/'
        invariant
            i <= v.len(),
            v@ == s@,
            no_slash(v@.take(i as int)),
        decreases v.len() - i,
    {
        assert(v@.take(i + 1) == v@.take(i as int).push(v@[i as int]));
        i = i + 1;
    }
    if i < v.len() {
        proof { lemma_before_first_slash(v@, i as int); }
    } else {
        assert(v@.take(i as int) == v@);
    }
    string_of_chars(&v, i)
}

/// `s` without its trailing `/` characters.
pub fn trim_end_slashes(s: &str) -> (r: String)
    ensures
        r@ == trim_trailing_slashes(s@),
{
    let v = chars_of(s);
    let mut j: usize = v.len();
    assert(v@.take(j as int) == v@);
    while j > 0 && v[j - 1] == '/'
        invariant
            j <= v.len(),
            v@ == s@,
            trim_trailing_slashes(v@.take(j as int)) == trim_trailing_slashes(s@),
        decreases j,
    {
        assert(v@.take(j as int).drop_last() == v@.take(j - 1));
        j = j - 1;
    }
    string_of_chars(&v, j)
}

/// Whether every byte is an ASCII digit.
pub open spec fn all_digits(s: Seq<u8>) -> bool {
    forall|i: int| 0 <= i < s.len() ==> 48 <= #[trigger] s[i] <= 57
}

/// The number that ASCII digits spell, most significant first.
pub open spec fn digits_value(s: Seq<u8>) -> nat
    decreases s.len(),
{
    if s.len() == 0 {
        0
    } else {
        digits_value(s.drop_last()) * 10 + (s.last() - 48) as nat
    }
}

/// What `u64::from_str` gives for a text with these bytes: an optional `+`
/// followed by at least one digit, and nothing else, within range.
pub open spec fn parsed_u64(s: Seq<u8>) -> Option<u64> {
    let d = if s.len() > 0 && s[0] == 43 { s.drop_first() } else { s };
    if d.len() > 0 && all_digits(d) && digits_value(d) <= u64::MAX {
        Some(digits_value(d) as u64)
    } else {
        None
    }
}

/// A prefix of digits spells no more than the whole.
proof fn lemma_digits_prefix(t: Seq<u8>, j: int)
    requires
        all_digits(t),
        0 <= j <= t.len(),
    ensures
        digits_value(t.take(j)) <= digits_value(t),
    decreases t.len(),
{
    if j < t.len() {
        let front = t.drop_last();
        assert(all_digits(front)) by {
            assert forall|i: int| 0 <= i < front.len() implies 48 <= #[trigger] front[i] <= 57 by {
                assert(front[i] == t[i]);
            }
        }
        lemma_digits_prefix(front, j);
        assert(front.take(j) == t.take(j));
    } else {
        assert(t.take(j) == t);
    }
}

/// Parse a decimal `u64` from bytes as `u64::from_str` does.
pub fn parse_u64(bytes: &[u8]) -> (n: Option<u64>)
    ensures
        n == parsed_u64(bytes@),
{
    let len = bytes.len();
    let start: usize = if len > 0 && bytes[0] == 43u8 { 1 } else { 0 };
    let ghost d = if bytes@.len() > 0 && bytes@[0] == 43 { bytes@.drop_first() } else { bytes@ };
    assert(d =~= bytes@.subrange(start as int, len as int));
    if start == len {
        return None;
    }
    let mut v: u64 = 0;
    let mut i: usize = start;
    assert(d.take(0) =~= Seq::<u8>::empty());
    while i < len
        invariant
            start <= i <= len,
            len == bytes@.len(),
            d =~= bytes@.subrange(start as int, len as int),
            d == (if bytes@.len() > 0 && bytes@[0] == 43 { bytes@.drop_first() } else { bytes@ }),
            all_digits(d.take(i - start)),
            v == digits_value(d.take(i - start)),
        decreases len - i,
    {
        let b = bytes[i];
        if b < 48u8 || b > 57u8 {
            assert(d[i - start] == bytes@[i as int]);
            assert(!all_digits(d));
            return None;
        }
        let k = i - start;
        let ghost next = d.take(k as int + 1);
        assert(next.drop_last() =~= d.take(k as int));
        assert(next.last() == b);
        assert(all_digits(next)) by {
            assert forall|j: int| 0 <= j < next.len() implies 48 <= #[trigger] next[j] <= 57 by {
                if j < k {
                    assert(next[j] == d.take(k as int)[j]);
                }
            }
        }
        let digit: u64 = (b - 48u8) as u64;
        match v.checked_mul(10) {
            None => {
                proof {
                    assert(digits_value(next) == v * 10 + digit);
                    if all_digits(d) {
                        lemma_digits_prefix(d, k as int + 1);
                    }
                }
                return None;
            },
            Some(m) => match m.checked_add(digit) {
                None => {
                    proof {
                        assert(digits_value(next) == m + digit);
                        if all_digits(d) {
                            lemma_digits_prefix(d, k as int + 1);
                        }
                    }
                    return None;
                },
                Some(w) => {
                    v = w;
                },
            },
        }
        i = i + 1;
    }
    assert(d.take(i - start) =~= d);
    Some(v)
}

} // verus!
