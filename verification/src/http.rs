//! The small parsers and builders of the HTTP front ends: bind addresses,
//! query parameters, decimal numbers and request routing.

use vstd::prelude::*;
use crate::text::{decimal, push_decimal};

verus! {

/// The address an HTTP server binds: every interface, on the given port.
pub open spec fn http_bind_addr(port: nat) -> Seq<char> {
    "0.0.0.0:"@ + decimal(port)
}

/// The address an HTTP server binds, such as `0.0.0.0:8083`.
pub fn build_http_bind_addr(port: u16) -> (s: String)
    ensures
        s@ == http_bind_addr(port as nat),
{
    let mut s = String::from_str("0.0.0.0:");
    push_decimal(&mut s, port as u64);
    s
}

/// Position of the first `c` in `s`, or `s.len()` when there is none.
pub open spec fn find_char(s: Seq<char>, c: char) -> int
    decreases s.len(),
{
    if s.len() == 0 {
        0
    } else if s[0] == c {
        0
    } else {
        1 + find_char(s.drop_first(), c)
    }
}

/// The smallest of two integers.
pub open spec fn min_int(a: int, b: int) -> int {
    if a <= b { a } else { b }
}

/// The query of a request line: what follows the first `?`, up to the first
/// space, carriage return or line feed, whichever comes first.
pub open spec fn query_part(request: Seq<char>) -> Option<Seq<char>> {
    let q = find_char(request, '?');
    if q >= request.len() {
        None
    } else {
        let rest = request.skip(q + 1);
        let end = min_int(find_char(rest, ' '), min_int(find_char(rest, '\r'), find_char(rest, '\n')));
        Some(rest.take(end))
    }
}

/// The value of the first `name=value` pair, among the `&`-separated pairs
/// of a query, whose name is `name`.
pub open spec fn lookup_param(query: Seq<char>, name: Seq<char>) -> Option<Seq<char>>
    decreases query.len(),
{
    let amp = find_char(query, '&');
    let pair = query.take(amp);
    let eq = find_char(pair, '=');
    if eq < pair.len() && pair.take(eq) == name {
        Some(pair.skip(eq + 1))
    } else if amp >= query.len() {
        None
    } else {
        proof {
            lemma_find_char_bounds(query, '&');
        }
        lookup_param(query.skip(amp + 1), name)
    }
}

/// The value of query parameter `name` in a request.
pub open spec fn query_param(request: Seq<char>, name: Seq<char>) -> Option<Seq<char>> {
    match query_part(request) {
        None => None,
        Some(q) => lookup_param(q, name),
    }
}

/// A position found by `find_char` lies in the sequence, or is its length.
pub proof fn lemma_find_char_bounds(s: Seq<char>, c: char)
    ensures
        0 <= find_char(s, c) <= s.len(),
        find_char(s, c) < s.len() ==> s[find_char(s, c)] == c,
        forall|k: int| 0 <= k < find_char(s, c) ==> s[k] != c,
    decreases s.len(),
{
    if s.len() > 0 && s[0] != c {
        lemma_find_char_bounds(s.drop_first(), c);
        assert forall|k: int| 0 <= k < find_char(s, c) implies s[k] != c by {
            if k > 0 {
                assert(s[k] == s.drop_first()[k - 1]);
            }
        }
    }
}

/// A character not among the first `i` moves the search on by `i`.
pub proof fn lemma_find_char_skip(s: Seq<char>, c: char, i: int)
    requires
        0 <= i <= s.len(),
        forall|k: int| 0 <= k < i ==> s[k] != c,
    ensures
        find_char(s, c) == i + find_char(s.skip(i), c),
    decreases i,
{
    if i > 0 {
        assert(s.drop_first().skip(i - 1) =~= s.skip(i));
        assert forall|k: int| 0 <= k < i - 1 implies s.drop_first()[k] != c by {
            assert(s.drop_first()[k] == s[k + 1]);
        }
        lemma_find_char_skip(s.drop_first(), c, i - 1);
    } else {
        assert(s.skip(0) =~= s);
    }
}

/// The characters of a text.
pub(crate) fn chars_of(s: &str) -> (r: Vec<char>)
    ensures
        r@ == s@,
{
    let n = s.unicode_len();
    let mut r: Vec<char> = Vec::new();
    let mut i: usize = 0;
    while i < n
        invariant
            n == s@.len(),
            i <= n,
            r@ == s@.take(i as int),
        decreases n - i,
    {
        r.push(s.get_char(i));
        assert(s@.take(i as int + 1) =~= s@.take(i as int).push(s@[i as int]));
        i += 1;
    }
    assert(s@.take(n as int) =~= s@);
    r
}

/// Position of the first `c` in `chars[start..end]`, or `end`.
fn find_in(chars: &Vec<char>, c: char, start: usize, end: usize) -> (r: usize)
    requires
        start <= end <= chars@.len(),
    ensures
        r == start + find_char(chars@.subrange(start as int, end as int), c),
{
    let ghost s = chars@.subrange(start as int, end as int);
    let mut i: usize = start;
    while i < end && chars[i] != c
        invariant
            start <= i <= end,
            end <= chars@.len(),
            s == chars@.subrange(start as int, end as int),
            forall|k: int| 0 <= k < i - start ==> s[k] != c,
        decreases end - i,
    {
        i += 1;
    }
    proof {
        lemma_find_char_skip(s, c, i - start);
        let t = s.skip(i - start);
        if i < end {
            assert(t[0] == c);
        } else {
            assert(t.len() == 0);
        }
    }
    i
}

/// Whether `chars[start..start + name.len()]` spells `name`.
fn matches_at(chars: &Vec<char>, start: usize, end: usize, name: &Vec<char>) -> (r: bool)
    requires
        start <= end <= chars@.len(),
    ensures
        r == (chars@.subrange(start as int, end as int) == name@),
{
    if end - start != name.len() {
        return false;
    }
    let mut k: usize = 0;
    while k < name.len()
        invariant
            start <= end <= chars@.len(),
            end - start == name@.len(),
            k <= name@.len(),
            forall|j: int| 0 <= j < k ==> chars@[start + j] == name@[j],
        decreases name@.len() - k,
    {
        if chars[start + k] != name[k] {
            assert(chars@.subrange(start as int, end as int)[k as int] != name@[k as int]);
            return false;
        }
        k += 1;
    }
    assert(chars@.subrange(start as int, end as int) =~= name@);
    true
}

/// The value of query parameter `param_name` in a request, such as `abc`
/// for `idempotency_key` in `POST /colony-start?idempotency_key=abc HTTP/1.1`.
pub fn parse_query_param(request: &str, param_name: &str) -> (r: Option<String>)
    ensures
        match r {
            Some(v) => query_param(request@, param_name@) == Some(v@),
            None => query_param(request@, param_name@) is None,
        },
{
    let chars = chars_of(request);
    let name = chars_of(param_name);
    let len = chars.len();
    let q = find_in(&chars, '?', 0, len);
    proof {
        assert(chars@.subrange(0, len as int) =~= chars@);
        lemma_find_char_bounds(chars@, '?');
    }
    if q >= len {
        return None;
    }
    let start = q + 1;
    let ghost rest = chars@.skip(start as int);
    proof {
        assert(chars@.subrange(start as int, len as int) =~= rest);
        lemma_find_char_bounds(rest, '\r');
        lemma_find_char_bounds(rest, '\n');
        lemma_find_char_bounds(rest, ' ');
    }
    let cr = find_in(&chars, '\r', start, len);
    let lf = find_in(&chars, '\n', start, len);
    let sp = find_in(&chars, ' ', start, len);
    let first_break = if cr <= lf { cr } else { lf };
    let end = if sp <= first_break { sp } else { first_break };
    proof {
        let qp = query_part(request@).unwrap();
        assert(qp =~= chars@.subrange(start as int, end as int));
    }
    let mut pos: usize = start;
    loop
        invariant
            start <= pos <= end,
            end <= len,
            len == chars@.len(),
            chars@ == request@,
            name@ == param_name@,
            query_param(request@, param_name@) == lookup_param(chars@.subrange(pos as int, end as int), name@),
        decreases end + 1 - pos,
    {
        let ghost qs = chars@.subrange(pos as int, end as int);
        let amp = find_in(&chars, '&', pos, end);
        proof {
            lemma_find_char_bounds(qs, '&');
            assert(qs.take(amp - pos) =~= chars@.subrange(pos as int, amp as int));
        }
        let eq = find_in(&chars, '=', pos, amp);
        proof {
            let pair = chars@.subrange(pos as int, amp as int);
            lemma_find_char_bounds(pair, '=');
            if eq < amp {
                assert(pair.take(eq - pos) =~= chars@.subrange(pos as int, eq as int));
                assert(pair.skip(eq - pos + 1) =~= chars@.subrange(eq + 1, amp as int));
            }
        }
        if eq < amp && matches_at(&chars, pos, eq, &name) {
            let value = request.substring_char(eq + 1, amp);
            return Some(String::from_str(value));
        }
        if amp >= end {
            return None;
        }
        proof {
            assert(qs.skip(amp - pos + 1) =~= chars@.subrange(amp + 1, end as int));
        }
        pos = amp + 1;
    }
}

/// The value of a decimal digit character, if it is one.
pub open spec fn digit_value(c: char) -> Option<int> {
    if c == '0' { Some(0) }
    else if c == '1' { Some(1) }
    else if c == '2' { Some(2) }
    else if c == '3' { Some(3) }
    else if c == '4' { Some(4) }
    else if c == '5' { Some(5) }
    else if c == '6' { Some(6) }
    else if c == '7' { Some(7) }
    else if c == '8' { Some(8) }
    else if c == '9' { Some(9) }
    else { None }
}

/// Every character is a decimal digit.
pub open spec fn all_digits(s: Seq<char>) -> bool {
    forall|i: int| 0 <= i < s.len() ==> (#[trigger] digit_value(s[i])) is Some
}

/// The number that a string of decimal digits spells.
pub open spec fn digits_value(s: Seq<char>) -> int
    decreases s.len(),
{
    if s.len() == 0 {
        0
    } else {
        digits_value(s.drop_last()) * 10 + digit_value(s.last()).unwrap_or(0)
    }
}

/// What parsing a text as a `usize` gives: an optional `+`, then one or more
/// decimal digits whose value fits in `usize`.
pub open spec fn parsed_usize(s: Seq<char>) -> Option<int> {
    let body = if s.len() > 0 && s[0] == '+' { s.skip(1) } else { s };
    if body.len() == 0 || !all_digits(body) || digits_value(body) > usize::MAX {
        None
    } else {
        Some(digits_value(body))
    }
}

fn char_digit(c: char) -> (r: Option<usize>)
    ensures
        match r {
            Some(d) => digit_value(c) == Some(d as int),
            None => digit_value(c) is None,
        },
{
    if c == '0' { Some(0) }
    else if c == '1' { Some(1) }
    else if c == '2' { Some(2) }
    else if c == '3' { Some(3) }
    else if c == '4' { Some(4) }
    else if c == '5' { Some(5) }
    else if c == '6' { Some(6) }
    else if c == '7' { Some(7) }
    else if c == '8' { Some(8) }
    else if c == '9' { Some(9) }
    else { None }
}

/// More digits never make a smaller number.
proof fn lemma_digits_value_grows(s: Seq<char>, k: int)
    requires
        0 <= k <= s.len(),
    ensures
        digits_value(s.take(k)) <= digits_value(s),
        0 <= digits_value(s.take(k)),
    decreases s.len() - k,
{
    lemma_digits_value_nonneg(s.take(k));
    if k < s.len() {
        lemma_digits_value_grows(s, k + 1);
        assert(s.take(k + 1).drop_last() =~= s.take(k));
        lemma_digits_value_nonneg(s.take(k + 1));
    } else {
        assert(s.take(k) =~= s);
    }
}

proof fn lemma_digits_value_nonneg(s: Seq<char>)
    ensures
        digits_value(s) >= 0,
    decreases s.len(),
{
    if s.len() > 0 {
        lemma_digits_value_nonneg(s.drop_last());
    }
}

/// Parses a decimal `usize` as `str::parse` does: an optional `+` and then
/// digits only, with no overflow.
pub fn parse_usize(text: &str) -> (r: Option<usize>)
    ensures
        match r {
            Some(v) => parsed_usize(text@) == Some(v as int),
            None => parsed_usize(text@) is None,
        },
{
    let chars = chars_of(text);
    let start: usize = if chars.len() > 0 && chars[0] == '+' { 1 } else { 0 };
    let ghost body = if chars@.len() > 0 && chars@[0] == '+' { chars@.skip(1) } else { chars@ };
    assert(body =~= chars@.skip(start as int));
    if start >= chars.len() {
        return None;
    }
    let mut value: usize = 0;
    let mut i: usize = start;
    while i < chars.len()
        invariant
            start <= i <= chars@.len(),
            chars@ == text@,
            body == chars@.skip(start as int),
            body == (if text@.len() > 0 && text@[0] == '+' { text@.skip(1) } else { text@ }),
            all_digits(chars@.subrange(start as int, i as int)),
            value == digits_value(chars@.subrange(start as int, i as int)),
        decreases chars@.len() - i,
    {
        let ghost prefix = chars@.subrange(start as int, i as int);
        let ghost next = chars@.subrange(start as int, i as int + 1);
        assert(next.drop_last() =~= prefix);
        match char_digit(chars[i]) {
            None => {
                proof {
                    assert(body[i - start] == chars@[i as int]);
                    assert(digit_value(body[i - start]) is None);
                }
                return None;
            },
            Some(d) => {
                match value.checked_mul(10) {
                    None => {
                        proof {
                            assert(next =~= body.take(i - start + 1));
                            lemma_digits_value_grows(body, i - start + 1);
                            lemma_digits_value_nonneg(prefix);
                            assert(next.last() == chars@[i as int]);
                            assert(digits_value(next) == value * 10 + d);
                        }
                        return None;
                    },
                    Some(m) => match m.checked_add(d) {
                        None => {
                            proof {
                                assert(next =~= body.take(i - start + 1));
                                lemma_digits_value_grows(body, i - start + 1);
                                assert(next.last() == chars@[i as int]);
                                assert(digits_value(next) == value * 10 + d);
                            }
                            return None;
                        },
                        Some(v) => {
                            proof {
                                assert(next.last() == chars@[i as int]);
                                assert forall|k: int| 0 <= k < next.len() implies (#[trigger] digit_value(next[k])) is Some by {
                                    if k < prefix.len() {
                                        assert(next[k] == prefix[k]);
                                    }
                                }
                            }
                            value = v;
                        },
                    },
                }
            },
        }
        i += 1;
    }
    assert(chars@.subrange(start as int, i as int) =~= body);
    Some(value)
}

/// How many colony events a request asks for: its `limit` parameter when
/// that parses as a number, else 30.
pub fn events_limit(request: &str) -> (n: usize)
    ensures
        n == match query_param(request@, "limit"@) {
            Some(v) => match parsed_usize(v) {
                Some(k) => k,
                None => 30,
            },
            None => 30,
        },
{
    match parse_query_param(request, "limit") {
        Some(v) => match parse_usize(v.as_str()) {
            Some(k) => k,
            None => 30,
        },
        None => 30,
    }
}

} // verus!
