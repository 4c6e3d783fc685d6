//! Text helpers: decimal numerals and substring search, with what they mean.

use vstd::prelude::*;
use vstd::string::*;

verus! {

/// The character of a decimal digit.
pub open spec fn digit_char(d: nat) -> char {
    (48 + d) as char
}

/// Decimal numeral of a number, without leading zeros.
pub open spec fn number_text(n: nat) -> Seq<char>
    decreases n,
{
    if n < 10 {
        seq![digit_char(n)]
    } else {
        number_text(n / 10).push(digit_char(n % 10))
    }
}

/// Decimal numeral padded with one zero to at least two digits.
pub open spec fn two_digit_text(n: nat) -> Seq<char> {
    if n < 10 {
        seq![digit_char(0), digit_char(n)]
    } else {
        number_text(n)
    }
}

pub open spec fn is_digit(c: char) -> bool {
    48 <= c as u32 <= 57
}

pub open spec fn all_digits(s: Seq<char>) -> bool {
    forall|i: int| 0 <= i < s.len() ==> is_digit(#[trigger] s[i])
}

/// The number that a string of digits denotes.
pub open spec fn digits_value(s: Seq<char>) -> nat
    decreases s.len(),
{
    if s.len() == 0 {
        0
    } else {
        digits_value(s.drop_last()) * 10 + (s.last() as u32 - 48) as nat
    }
}

/// Reading an unsigned numeral of at most `max`: an optional plus sign, then digits.
pub open spec fn number_of_text(s: Seq<char>, max: nat) -> Option<nat> {
    let t = if s.len() > 0 && s[0] == '+' {
        s.skip(1)
    } else {
        s
    };
    if t.len() == 0 || !all_digits(t) || digits_value(t) > max {
        None
    } else {
        Some(digits_value(t))
    }
}

/// Whether `pat` stands in `s` at position `i`.
pub open spec fn occurs_at(s: Seq<char>, pat: Seq<char>, i: int) -> bool {
    0 <= i && i + pat.len() <= s.len() && s.subrange(i, i + pat.len()) == pat
}

/// Position of the first occurrence at or after `from`.
pub open spec fn first_at(s: Seq<char>, pat: Seq<char>, from: int) -> Option<int>
    decreases s.len() + 1 - from,
{
    if from + pat.len() > s.len() || from < 0 {
        None
    } else if occurs_at(s, pat, from) {
        Some(from)
    } else {
        first_at(s, pat, from + 1)
    }
}

/// Position of the last occurrence at or before `from`.
pub open spec fn last_at(s: Seq<char>, pat: Seq<char>, from: int) -> Option<int>
    decreases from + 1,
{
    if from < 0 {
        None
    } else if occurs_at(s, pat, from) {
        Some(from)
    } else {
        last_at(s, pat, from - 1)
    }
}

pub open spec fn starts_with(s: Seq<char>, pat: Seq<char>) -> bool {
    occurs_at(s, pat, 0)
}

pub open spec fn ends_with(s: Seq<char>, pat: Seq<char>) -> bool {
    pat.len() <= s.len() && occurs_at(s, pat, s.len() - pat.len())
}

pub open spec fn contains(s: Seq<char>, pat: Seq<char>) -> bool {
    first_at(s, pat, 0) is Some
}

/// The characters of a string.
pub fn chars_of(s: &str) -> (r: Vec<char>)
    ensures
        r@ == s@,
{
    let mut r: Vec<char> = Vec::new();
    for c in it: s.chars()
        invariant
            r@ == it.seq().take(it.index() as int),
            it.seq() == s@,
    {
        r.push(c);
        assert(it.seq().take(it.index() + 1).drop_last() =~= it.seq().take(it.index() as int));
    }
    assert(s@.take(s@.len() as int) =~= s@);
    r
}

fn digit_str(d: u64) -> (r: &'static str)
    requires
        d < 10,
    ensures
        r@ == seq![digit_char(d as nat)],
{
    proof {
        reveal_strlit("0");
        reveal_strlit("1");
        reveal_strlit("2");
        reveal_strlit("3");
        reveal_strlit("4");
        reveal_strlit("5");
        reveal_strlit("6");
        reveal_strlit("7");
        reveal_strlit("8");
        reveal_strlit("9");
    }
    let r: &'static str = match d {
        0 => "0",
        1 => "1",
        2 => "2",
        3 => "3",
        4 => "4",
        5 => "5",
        6 => "6",
        7 => "7",
        8 => "8",
        _ => "9",
    };
    assert(r@ =~= seq![digit_char(d as nat)]);
    r
}

/// Appends the decimal numeral of `n`.
pub fn push_number(s: &mut String, n: u64)
    ensures
        final(s)@ == old(s)@ + number_text(n as nat),
    decreases n,
{
    if n >= 10 {
        push_number(s, n / 10);
    }
    s.append(digit_str(n % 10));
    proof {
        let a = old(s)@;
        if n >= 10 {
            assert(a + number_text((n / 10) as nat) + seq![digit_char((n % 10) as nat)] =~= a
                + number_text(n as nat));
        } else {
            assert(n % 10 == n);
        }
    }
}

/// Decimal numeral of `n`.
pub fn number_string(n: u64) -> (r: String)
    ensures
        r@ == number_text(n as nat),
{
    let mut s: String = String::new();
    push_number(&mut s, n);
    assert(s@ =~= number_text(n as nat));
    s
}

/// Appends the numeral of `n` with at least two digits.
pub fn push_two_digit(s: &mut String, n: u64)
    ensures
        final(s)@ == old(s)@ + two_digit_text(n as nat),
{
    let ghost a = s@;
    if n < 10 {
        s.append(digit_str(0));
        s.append(digit_str(n));
        assert(s@ =~= a + two_digit_text(n as nat));
    } else {
        push_number(s, n);
    }
}

/// Digits only grow the number they denote.
proof fn lemma_digits_prefix(s: Seq<char>, n: int)
    requires
        0 <= n <= s.len(),
        all_digits(s),
    ensures
        digits_value(s.take(n)) <= digits_value(s),
    decreases s.len() - n,
{
    if n < s.len() {
        lemma_digits_prefix(s, n + 1);
        let t = s.take(n + 1);
        assert(t.drop_last() =~= s.take(n));
        assert(is_digit(s[n]));
        assert(t.last() == s[n]);
    } else {
        assert(s.take(n) =~= s);
    }
}

/// Reads `chars[from..to]` as an unsigned numeral of at most `max`.
pub fn parse_number(chars: &Vec<char>, from: usize, to: usize, max: u64) -> (r: Option<u64>)
    requires
        from <= to <= chars.len(),
    ensures
        match r {
            Some(v) => number_of_text(chars@.subrange(from as int, to as int), max as nat) == Some(
                v as nat,
            ),
            None => number_of_text(chars@.subrange(from as int, to as int), max as nat) is None,
        },
{
    let ghost s = chars@.subrange(from as int, to as int);
    let start: usize = if from < to && chars[from] == '+' {
        from + 1
    } else {
        from
    };
    let ghost t = chars@.subrange(start as int, to as int);
    assert(t =~= if s.len() > 0 && s[0] == '+' {
        s.skip(1)
    } else {
        s
    });
    if start == to {
        return None;
    }
    let mut v: u64 = 0;
    let mut i: usize = start;
    while i < to
        invariant
            start <= i <= to <= chars.len(),
            s == chars@.subrange(from as int, to as int),
            t == chars@.subrange(start as int, to as int),
            v <= max,
            v == digits_value(t.take(i - start)),
            forall|k: int| 0 <= k < i - start ==> is_digit(#[trigger] t[k]),
            number_of_text(s, max as nat) == (if t.len() == 0 || !all_digits(t) || digits_value(t)
                > max {
                None::<nat>
            } else {
                Some(digits_value(t))
            }),
        decreases to - i,
    {
        let c: char = chars[i];
        assert(t[i - start] == c);
        let code: u32 = c as u32;
        if code < 48 || code > 57 {
            assert(!is_digit(t[i - start]));
            return None;
        }
        let d: u64 = (code - 48) as u64;
        proof {
            assert(t.take(i - start + 1).drop_last() =~= t.take(i - start));
            assert(digits_value(t.take(i - start + 1)) == v * 10 + d);
        }
        if v > max / 10 || (v == max / 10 && d > max % 10) {
            proof {
                assert(v * 10 + d > max);
                if all_digits(t) {
                    lemma_digits_prefix(t, i - start + 1);
                }
            }
            return None;
        }
        v = v * 10 + d;
        i = i + 1;
    }
    assert(t.take(t.len() as int) =~= t);
    Some(v)
}

/// Whether `pat` stands in `chars` at `i`.
pub fn has_at(chars: &Vec<char>, pat: &Vec<char>, i: usize) -> (r: bool)
    ensures
        r == occurs_at(chars@, pat@, i as int),
{
    if i > chars.len() || pat.len() > chars.len() - i {
        return false;
    }
    let mut k: usize = 0;
    while k < pat.len()
        invariant
            k <= pat.len(),
            i + pat.len() <= chars.len(),
            forall|j: int| 0 <= j < k ==> chars@[i + j] == pat@[j],
        decreases pat.len() - k,
    {
        if chars[i + k] != pat[k] {
            proof {
                if occurs_at(chars@, pat@, i as int) {
                    assert(chars@.subrange(i as int, i + pat@.len())[k as int] == pat@[k as int]);
                }
            }
            return false;
        }
        k = k + 1;
    }
    assert(chars@.subrange(i as int, i + pat@.len()) =~= pat@);
    true
}

/// First occurrence of `pat` at or after `from`.
pub fn find(chars: &Vec<char>, pat: &Vec<char>, from: usize) -> (r: Option<usize>)
    ensures
        match r {
            Some(i) => first_at(chars@, pat@, from as int) == Some(i as int) && i + pat.len()
                <= chars.len() && from <= i,
            None => first_at(chars@, pat@, from as int) is None,
        },
{
    if pat.len() > chars.len() {
        return None;
    }
    let mut i: usize = from;
    while i <= chars.len() - pat.len()
        invariant
            pat.len() <= chars.len(),
            from <= i,
            first_at(chars@, pat@, from as int) == first_at(chars@, pat@, i as int),
        decreases chars.len() + 1 - i,
    {
        if has_at(chars, pat, i) {
            return Some(i);
        }
        if i == chars.len() {
            assert(first_at(chars@, pat@, i + 1) is None);
            return None;
        }
        i = i + 1;
    }
    None
}

/// Last occurrence of `pat`.
pub fn find_last(chars: &Vec<char>, pat: &Vec<char>) -> (r: Option<usize>)
    ensures
        match r {
            Some(i) => last_at(chars@, pat@, chars@.len() as int) == Some(i as int) && i + pat.len()
                <= chars.len(),
            None => last_at(chars@, pat@, chars@.len() as int) is None,
        },
{
    let mut i: usize = chars.len();
    loop
        invariant
            i <= chars.len(),
            last_at(chars@, pat@, chars@.len() as int) == last_at(chars@, pat@, i as int),
        decreases i,
    {
        if has_at(chars, pat, i) {
            return Some(i);
        }
        if i == 0 {
            assert(last_at(chars@, pat@, -1) is None);
            return None;
        }
        i = i - 1;
    }
}

/// Whether a string contains another.
pub fn text_contains(s: &str, pat: &str) -> (r: bool)
    ensures
        r == contains(s@, pat@),
{
    let c: Vec<char> = chars_of(s);
    let p: Vec<char> = chars_of(pat);
    match find(&c, &p, 0) {
        Some(_) => true,
        None => false,
    }
}

/// Whether a string begins with another.
pub fn text_starts_with(s: &str, pat: &str) -> (r: bool)
    ensures
        r == starts_with(s@, pat@),
{
    let c: Vec<char> = chars_of(s);
    let p: Vec<char> = chars_of(pat);
    has_at(&c, &p, 0)
}

/// Whether two strings are the same.
pub fn text_equal(a: &str, b: &str) -> (r: bool)
    ensures
        r == (a@ == b@),
{
    let c: Vec<char> = chars_of(a);
    let d: Vec<char> = chars_of(b);
    if c.len() != d.len() {
        return false;
    }
    let e: bool = has_at(&c, &d, 0);
    proof {
        assert(c@.subrange(0, 0 + d@.len() as int) =~= c@);
    }
    e
}

/// A numeral is a nonempty string of digits that denotes its number.
pub proof fn lemma_number_text(n: nat)
    ensures
        number_text(n).len() > 0,
        all_digits(number_text(n)),
        digits_value(number_text(n)) == n,
    decreases n,
{
    let d = n % 10;
    assert((48 + d) as char as u32 == 48 + d);
    assert(number_text(n).last() == digit_char(d));
    if n >= 10 {
        lemma_number_text(n / 10);
        assert(number_text(n).drop_last() =~= number_text(n / 10));
    } else {
        assert(number_text(n).drop_last() =~= Seq::<char>::empty());
        assert(digits_value(Seq::<char>::empty()) == 0);
    }
}

/// A numeral reads back as its number.
pub proof fn law_number_reads_back(n: nat, max: nat)
    requires
        n <= max,
    ensures
        number_of_text(number_text(n), max) == Some(n),
{
    lemma_number_text(n);
    assert(is_digit(number_text(n)[0]));
}

/// Different numbers have different numerals.
pub proof fn law_numerals_differ(a: nat, b: nat)
    requires
        number_text(a) == number_text(b),
    ensures
        a == b,
{
    lemma_number_text(a);
    lemma_number_text(b);
}

} // verus!
