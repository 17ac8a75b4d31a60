use vstd::prelude::*;
use vstd::string::*;

use crate::balancer::Algorithm;
use crate::control::weight_or_one;
use crate::load_test::decimal;
use crate::models::{Backend, BackendView};
use crate::text::{chars_equal, chars_of, split_commas, split_ranges, trim, trim_range};

verus! {

/// An ASCII decimal digit.
pub open spec fn is_digit(c: char) -> bool {
    '0' <= c <= '9'
}

/// The number that a string of decimal digits writes.
pub open spec fn digits_value(d: Seq<char>) -> nat
    decreases d.len(),
{
    if d.len() == 0 {
        0
    } else {
        digits_value(d.drop_last()) * 10 + ((d.last() as nat) - ('0' as nat)) as nat
    }
}

/// What `u32::from_str` accepts: an optional `+`, then one or more decimal digits
/// writing a number that fits in `u32`.
pub open spec fn parse_u32_spec(s: Seq<char>) -> Option<u32> {
    digits_to_u32(unsigned_digits(s))
}

/// `s` without one leading `+`.
pub open spec fn unsigned_digits(s: Seq<char>) -> Seq<char> {
    if s.len() > 0 && s[0] == '+' {
        s.drop_first()
    } else {
        s
    }
}

/// The number that `d` writes, when `d` is a nonempty run of digits writing a number
/// that fits in `u32`.
pub open spec fn digits_to_u32(d: Seq<char>) -> Option<u32> {
    if d.len() > 0 && (forall|i: int| 0 <= i < d.len() ==> is_digit(#[trigger] d[i])) && digits_value(d) <= u32::MAX {
        Some(digits_value(d) as u32)
    } else {
        None
    }
}

/// A longer run of digits never writes a smaller number.
proof fn lemma_digits_value_grows(d: Seq<char>, k: int)
    requires
        0 <= k <= d.len(),
        forall|i: int| 0 <= i < d.len() ==> is_digit(#[trigger] d[i]),
    ensures
        digits_value(d.take(k)) <= digits_value(d),
    decreases d.len() - k,
{
    if k < d.len() {
        lemma_digits_value_grows(d, k + 1);
        assert(d.take(k + 1).drop_last() =~= d.take(k));
    } else {
        assert(d.take(k) =~= d);
    }
}

/// The decimal digits of a number are digits and write that number.
proof fn lemma_decimal_value(n: nat)
    ensures
        decimal(n).len() > 0,
        forall|i: int| 0 <= i < decimal(n).len() ==> is_digit(#[trigger] decimal(n)[i]),
        digits_value(decimal(n)) == n,
    decreases n,
{
    if n < 10 {
        let c = decimal(n)[0];
        assert(c as nat == n + 48);
        assert(decimal(n).drop_last() =~= Seq::<char>::empty());
        assert(decimal(n).last() == c);
        assert(digits_value(Seq::<char>::empty()) == 0);
        assert(digits_value(decimal(n)) == 0 * 10 + ((c as nat) - ('0' as nat)) as nat);
    }
    if n >= 10 {
        lemma_decimal_value(n / 10);
        let d = decimal(n);
        assert(d.drop_last() =~= decimal(n / 10));
        vstd::arithmetic::div_mod::lemma_fundamental_div_mod(n as int, 10);
        let c = d.last();
        assert(c == (((n % 10) + 48) as u32) as char);
        assert(c as nat == (n % 10) + 48);
        assert(digits_value(d) == digits_value(decimal(n / 10)) * 10 + ((c as nat) - ('0' as nat)) as nat);
        vstd::arithmetic::mul::lemma_mul_is_commutative((n / 10) as int, 10);
        assert(digits_value(decimal(n / 10)) == n / 10);
        assert(((c as nat) - ('0' as nat)) as nat == n % 10);
        assert(digits_value(d) == n);
        assert forall|i: int| 0 <= i < d.len() implies is_digit(#[trigger] d[i]) by {
            if i < d.len() - 1 {
                assert(d[i] == decimal(n / 10)[i]);
            }
        }
    }
}

/// A weight written in decimal, optionally after a `+` or with leading zeros, parses as
/// that weight, for every weight that fits in `u32`, zero included.
pub proof fn lemma_parse_decimal(n: u32, zeros: nat)
    ensures
        parse_u32_spec(decimal(n as nat)) == Some(n),
        parse_u32_spec(seq!['+'] + decimal(n as nat)) == Some(n),
        parse_u32_spec(Seq::new(zeros, |_i: int| '0') + decimal(n as nat)) == Some(n),
{
    lemma_decimal_value(n as nat);
    let d = decimal(n as nat);
    assert(is_digit(d[0]));
    assert(unsigned_digits(d) == d);
    assert((seq!['+'] + d).drop_first() =~= d);
    lemma_leading_zeros_value(zeros, d);
    let z = Seq::new(zeros, |_i: int| '0') + d;
    assert(z[0] != '+') by {
        if zeros > 0 {
            assert(z[0] == '0');
        } else {
            assert(z[0] == d[0]);
        }
    }
    assert(unsigned_digits(z) == z);
    assert forall|i: int| 0 <= i < z.len() implies is_digit(#[trigger] z[i]) by {
        if i >= zeros {
            assert(z[i] == d[i - zeros]);
        }
    }
}

/// Leading zeros do not change the number that digits write.
proof fn lemma_leading_zeros_value(zeros: nat, d: Seq<char>)
    ensures
        digits_value(Seq::new(zeros, |_i: int| '0') + d) == digits_value(d) + digits_value(Seq::new(zeros, |_i: int| '0')) * pow10(d.len()),
        digits_value(Seq::new(zeros, |_i: int| '0')) == 0,
    decreases d.len(), zeros,
{
    let z = Seq::new(zeros, |_i: int| '0');
    if zeros > 0 {
        lemma_leading_zeros_value((zeros - 1) as nat, Seq::empty());
        assert(z.drop_last() =~= Seq::new((zeros - 1) as nat, |_i: int| '0'));
    }
    if d.len() > 0 {
        lemma_leading_zeros_value(zeros, d.drop_last());
        assert((z + d).drop_last() =~= z + d.drop_last());
    } else {
        assert(z + d =~= z);
    }
}

/// Ten to the power `k`.
pub open spec fn pow10(k: nat) -> nat
    decreases k,
{
    if k == 0 {
        1
    } else {
        10 * pow10((k - 1) as nat)
    }
}

/// Parses `v[a..b]` as `u32::from_str` does.
pub fn parse_u32_range(v: &Vec<char>, a: usize, b: usize) -> (r: Option<u32>)
    requires
        a <= b <= v@.len(),
    ensures
        r == parse_u32_spec(v@.subrange(a as int, b as int)),
{
    let ghost s = v@.subrange(a as int, b as int);
    let start = if a < b && v[a] == '+' { a + 1 } else { a };
    let ghost d = v@.subrange(start as int, b as int);
    assert(d =~= unsigned_digits(s));
    if start == b {
        return None;
    }
    let mut acc: u64 = 0;
    let mut i = start;
    while i < b
        invariant
            a <= start <= i <= b <= v@.len(),
            d == v@.subrange(start as int, b as int),
            s == v@.subrange(a as int, b as int),
            d == unsigned_digits(s),
            forall|j: int| 0 <= j < i - start ==> is_digit(#[trigger] d[j]),
            acc == digits_value(d.take(i - start)),
            acc <= u32::MAX,
        decreases b - i,
    {
        let c = v[i];
        assert(c == d[i - start]);
        if !('0' <= c && c <= '9') {
            assert(!is_digit(d[i - start]));
            return None;
        }
        let digit = (c as u32 - '0' as u32) as u64;
        let next = acc * 10 + digit;
        assert(d.take(i - start + 1).drop_last() =~= d.take(i - start));
        assert(d.take(i - start + 1).last() == c);
        if next > 0xffff_ffff {
            proof {
                if forall|j: int| 0 <= j < d.len() ==> is_digit(#[trigger] d[j]) {
                    lemma_digits_value_grows(d, i - start + 1);
                }
            }
            return None;
        }
        acc = next;
        i = i + 1;
    }
    assert(d.take(b - start) =~= d);
    Some(acc as u32)
}

/// The weights that a comma-separated list gives: each piece, trimmed, that parses as a
/// `u32`, in order; the other pieces are skipped.
pub open spec fn parsed_weights(pieces: Seq<Seq<char>>) -> Seq<u32>
    decreases pieces.len(),
{
    if pieces.len() == 0 {
        Seq::empty()
    } else {
        let prev = parsed_weights(pieces.drop_last());
        match parse_u32_spec(trim(pieces.last())) {
            Some(w) => prev.push(w),
            None => prev,
        }
    }
}

/// The pieces of a list that parse as a weight.
pub open spec fn parses_as_weight(p: Seq<char>) -> bool {
    parse_u32_spec(trim(p)) is Some
}

/// Every piece that parses as a weight gives its weight, in order, zero included; the
/// others are skipped: the result is the parsing pieces, each mapped to its number.
pub proof fn lemma_parsed_weights_keep_every_number(pieces: Seq<Seq<char>>)
    ensures
        parsed_weights(pieces) == pieces.filter(|p: Seq<char>| parses_as_weight(p)).map_values(
            |p: Seq<char>| parse_u32_spec(trim(p))->0,
        ),
    decreases pieces.len(),
{
    reveal(Seq::filter);
    let f = |p: Seq<char>| parses_as_weight(p);
    let g = |p: Seq<char>| parse_u32_spec(trim(p))->0;
    if pieces.len() > 0 {
        lemma_parsed_weights_keep_every_number(pieces.drop_last());
        let prev = pieces.drop_last().filter(f);
        if f(pieces.last()) {
            assert(prev.push(pieces.last()).map_values(g) =~= prev.map_values(g).push(g(pieces.last())));
        }
    } else {
        assert(pieces.filter(f).map_values(g) =~= Seq::<u32>::empty());
    }
}

/// Parses a comma-separated weight list such as `"3,1,1,1"`; pieces that are not
/// numbers are skipped.
pub fn parse_weights(s: &str) -> (r: Vec<u32>)
    ensures
        r@ == parsed_weights(split_commas(s@)),
{
    let v = chars_of(s);
    let ranges = split_ranges(&v);
    let ghost pieces = split_commas(v@);
    let mut out: Vec<u32> = Vec::new();
    for i in 0..ranges.len()
        invariant
            v@ == s@,
            pieces == split_commas(v@),
            ranges@.len() == pieces.len(),
            forall|j: int|
                0 <= j < ranges@.len() ==> {
                    &&& (#[trigger] ranges@[j]).0 <= ranges@[j].1 <= v@.len()
                    &&& v@.subrange(ranges@[j].0 as int, ranges@[j].1 as int) == pieces[j]
                },
            out@ == parsed_weights(pieces.take(i as int)),
    {
        let (a, b) = ranges[i];
        let (lo, hi) = trim_range(&v, a, b);
        assert(pieces.take(i + 1).drop_last() =~= pieces.take(i as int));
        assert(pieces.take(i + 1).last() == pieces[i as int]);
        match parse_u32_range(&v, lo, hi) {
            Some(w) => out.push(w),
            None => {},
        }
    }
    assert(pieces.take(ranges@.len() as int) =~= pieces);
    out
}

/// Builds the backends from a comma-separated address list: piece `i`, trimmed, is the
/// address of backend `i`, whose weight is `weights[i]`, or 1 past the end of `weights`.
pub fn backends_from_config(list: &str, weights: &Vec<u32>) -> (r: Vec<Backend>)
    ensures
        r@.len() == split_commas(list@).len(),
        forall|i: int|
            0 <= i < r@.len() ==> (#[trigger] r@[i])@ == (BackendView {
                addr: trim(split_commas(list@)[i]),
                weight: weight_or_one(weights@, i),
            }),
{
    let v = chars_of(list);
    let ranges = split_ranges(&v);
    let ghost pieces = split_commas(v@);
    let mut out: Vec<Backend> = Vec::new();
    for i in 0..ranges.len()
        invariant
            v@ == list@,
            pieces == split_commas(v@),
            ranges@.len() == pieces.len(),
            forall|j: int|
                0 <= j < ranges@.len() ==> {
                    &&& (#[trigger] ranges@[j]).0 <= ranges@[j].1 <= v@.len()
                    &&& v@.subrange(ranges@[j].0 as int, ranges@[j].1 as int) == pieces[j]
                },
            out@.len() == i,
            forall|j: int|
                0 <= j < i ==> (#[trigger] out@[j])@ == (BackendView {
                    addr: trim(pieces[j]),
                    weight: weight_or_one(weights@, j),
                }),
    {
        let (a, b) = ranges[i];
        let (lo, hi) = trim_range(&v, a, b);
        let addr = String::from_str(list.substring_char(lo, hi));
        let weight = if i < weights.len() { weights[i] } else { 1 };
        out.push(Backend { addr, weight });
    }
    out
}

/// The first `n` start-up weights: `weights[i]`, or 1 past the end of `weights`.
pub fn default_weights(weights: &Vec<u32>, n: usize) -> (r: Vec<u32>)
    ensures
        r@ == Seq::new(n as nat, |i: int| weight_or_one(weights@, i)),
{
    let mut out: Vec<u32> = Vec::new();
    for i in 0..n
        invariant
            out@ == Seq::new(i as nat, |j: int| weight_or_one(weights@, j)),
    {
        let w = if i < weights.len() { weights[i] } else { 1 };
        out.push(w);
        assert(out@ =~= Seq::new((i + 1) as nat, |j: int| weight_or_one(weights@, j)));
    }
    out
}

/// The trimmed pieces of a comma-separated address list.
pub fn addresses_from_config(list: &str) -> (r: Vec<String>)
    ensures
        r@.len() == split_commas(list@).len(),
        forall|i: int| 0 <= i < r@.len() ==> (#[trigger] r@[i])@ == trim(split_commas(list@)[i]),
{
    let v = chars_of(list);
    let ranges = split_ranges(&v);
    let ghost pieces = split_commas(v@);
    let mut out: Vec<String> = Vec::new();
    for i in 0..ranges.len()
        invariant
            v@ == list@,
            pieces == split_commas(v@),
            ranges@.len() == pieces.len(),
            forall|j: int|
                0 <= j < ranges@.len() ==> {
                    &&& (#[trigger] ranges@[j]).0 <= ranges@[j].1 <= v@.len()
                    &&& v@.subrange(ranges@[j].0 as int, ranges@[j].1 as int) == pieces[j]
                },
            out@.len() == i,
            forall|j: int| 0 <= j < i ==> (#[trigger] out@[j])@ == trim(pieces[j]),
    {
        let (a, b) = ranges[i];
        let (lo, hi) = trim_range(&v, a, b);
        out.push(String::from_str(list.substring_char(lo, hi)));
    }
    out
}

/// The algorithm that the `ALGORITHM` setting selects: "1" or "RoundRobin" select round
/// robin; anything else selects weighted round robin.
pub open spec fn env_algorithm_spec(value: Seq<char>) -> Algorithm {
    if value == "1"@ || value == "RoundRobin"@ {
        Algorithm::RoundRobin
    } else {
        Algorithm::WeightedRoundRobin
    }
}

/// Reads the `ALGORITHM` setting.
pub fn algorithm_from_env(value: &str) -> (r: Algorithm)
    ensures
        r == env_algorithm_spec(value@),
{
    let v = chars_of(value);
    if chars_equal(&v, "1") || chars_equal(&v, "RoundRobin") {
        Algorithm::RoundRobin
    } else {
        Algorithm::WeightedRoundRobin
    }
}

/// The interactive menu's answer: "1" is round robin, "2" weighted round robin, ignoring
/// surrounding white space; anything else is not a valid option and falls back to
/// weighted round robin. The flag says whether the answer was valid.
pub open spec fn menu_choice_spec(input: Seq<char>) -> (Algorithm, bool) {
    let t = trim(input);
    if t == "1"@ {
        (Algorithm::RoundRobin, true)
    } else if t == "2"@ {
        (Algorithm::WeightedRoundRobin, true)
    } else {
        (Algorithm::WeightedRoundRobin, false)
    }
}

/// Reads the interactive menu's answer.
pub fn menu_choice(input: &str) -> (r: (Algorithm, bool))
    ensures
        r == menu_choice_spec(input@),
{
    let v = chars_of(input);
    let (lo, hi) = trim_range(&v, 0, v.len());
    assert(v@.subrange(0, v@.len() as int) =~= v@);
    let t = crate::text::copy_range(&v, lo, hi);
    if chars_equal(&t, "1") {
        (Algorithm::RoundRobin, true)
    } else if chars_equal(&t, "2") {
        (Algorithm::WeightedRoundRobin, true)
    } else {
        (Algorithm::WeightedRoundRobin, false)
    }
}

} // verus!
