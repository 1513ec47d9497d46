//! Reading fields and numbers out of a line of text.

use vstd::prelude::*;

verus! {

/// The first index at or after `from` at which `s` holds `c`; the length of
/// `s` if there is none.
pub open spec fn find_from(s: Seq<char>, c: char, from: nat) -> nat
    decreases s.len() - from,
{
    if from >= s.len() {
        s.len()
    } else if s[from as int] == c {
        from
    } else {
        find_from(s, c, from + 1)
    }
}

/// The parts of `s` before and after the first `c`, if `s` holds one.
pub open spec fn split_once(s: Seq<char>, c: char) -> Option<(Seq<char>, Seq<char>)> {
    let at = find_from(s, c, 0);
    if at >= s.len() {
        None
    } else {
        Some((s.subrange(0, at as int), s.subrange(at as int + 1, s.len() as int)))
    }
}

/// Field `k` of the fields that single spaces separate in `s` from `from`
/// on, if there are that many.
pub open spec fn field_from(s: Seq<char>, k: nat, from: nat) -> Option<Seq<char>>
    decreases k,
{
    let end = find_from(s, ' ', from);
    if from > s.len() {
        None
    } else if k == 0 {
        Some(s.subrange(from as int, end as int))
    } else if end >= s.len() {
        None
    } else {
        field_from(s, (k - 1) as nat, end + 1)
    }
}

/// Field `k` of the fields that single spaces separate in `s`.
pub open spec fn field(s: Seq<char>, k: nat) -> Option<Seq<char>> {
    field_from(s, k, 0)
}

/// `c` is one of the digits `0` to `9`.
pub open spec fn is_digit(c: char) -> bool {
    '0' <= c && c <= '9'
}

/// The number that the digit `c` stands for.
pub open spec fn digit_value(c: char) -> nat {
    (c as u32 - '0' as u32) as nat
}

/// The number that `s` spells in decimal digits, if it holds nothing else.
/// The empty text spells 0.
pub open spec fn digits_value(s: Seq<char>) -> Option<nat>
    decreases s.len(),
{
    if s.len() == 0 {
        Some(0)
    } else {
        match digits_value(s.drop_last()) {
            Some(v) if is_digit(s.last()) => Some(v * 10 + digit_value(s.last())),
            _ => None,
        }
    }
}

/// The digits of a number: the text without a leading `+`.
pub open spec fn unsigned_part(s: Seq<char>) -> Seq<char> {
    if s.len() > 0 && s[0] == '+' {
        s.subrange(1, s.len() as int)
    } else {
        s
    }
}

/// The number that `s` spells: decimal digits, at least one, after at most
/// one `+`; and only a number that the machine's word can hold.
pub open spec fn uint_value(s: Seq<char>) -> Option<usize> {
    match digits_value(unsigned_part(s)) {
        Some(v) if unsigned_part(s).len() > 0 && v <= usize::MAX => Some(v as usize),
        _ => None,
    }
}

/// The digits of a number that may have a sign: the text without a
/// leading `+` or `-`.
pub open spec fn signless_part(s: Seq<char>) -> Seq<char> {
    if s.len() > 0 && (s[0] == '+' || s[0] == '-') {
        s.subrange(1, s.len() as int)
    } else {
        s
    }
}

/// The number that `s` spells: decimal digits, at least one, after at most
/// one `+` or `-`; and only a number that 64 bits with a sign can hold.
pub open spec fn int_value(s: Seq<char>) -> Option<i64> {
    match digits_value(signless_part(s)) {
        Some(v) if signless_part(s).len() > 0 => if s[0] == '-' {
            if v <= 0x8000_0000_0000_0000 {
                Some((-v) as i64)
            } else {
                None
            }
        } else {
            if v <= 0x7fff_ffff_ffff_ffff {
                Some(v as i64)
            } else {
                None
            }
        },
        _ => None,
    }
}

/// The signed number after the first `=` of `s`.
pub open spec fn assigned_int_model(s: Seq<char>) -> Option<i64> {
    match split_once(s, '=') {
        None => None,
        Some((_, value)) => int_value(value),
    }
}

/// The number after the first `=` of `s`.
pub open spec fn assigned_model(s: Seq<char>) -> Option<usize> {
    match split_once(s, '=') {
        None => None,
        Some((_, value)) => uint_value(value),
    }
}

/// Two optional texts are the same.
pub open spec fn same_text(got: Option<Vec<char>>, model: Option<Seq<char>>) -> bool {
    match (got, model) {
        (Some(v), Some(s)) => v@ == s,
        (None, None) => true,
        _ => false,
    }
}

/// Two optional pairs of texts are the same.
pub open spec fn same_texts(
    got: Option<(Vec<char>, Vec<char>)>,
    model: Option<(Seq<char>, Seq<char>)>,
) -> bool {
    match (got, model) {
        (Some(v), Some(s)) => v.0@ == s.0 && v.1@ == s.1,
        (None, None) => true,
        _ => false,
    }
}

/// A number spelled by a text is at least the number spelled by a part of
/// the text that it begins with.
pub proof fn lemma_digits_grow(s: Seq<char>, n: int)
    requires
        0 <= n <= s.len(),
        digits_value(s) is Some,
    ensures
        digits_value(s.subrange(0, n)) is Some,
        digits_value(s.subrange(0, n))->0 <= digits_value(s)->0,
    decreases s.len() - n,
{
    if n == s.len() {
        assert(s.subrange(0, n) =~= s);
    } else {
        lemma_digits_grow(s.drop_last(), n);
        assert(s.drop_last().subrange(0, n) =~= s.subrange(0, n));
    }
}

/// The characters of `s`.
pub fn to_chars(s: &str) -> (v: Vec<char>)
    ensures
        v@ == s@,
{
    let n = s.unicode_len();
    let mut v: Vec<char> = Vec::new();
    let mut i: usize = 0;
    while i < n
        invariant
            n == s@.len(),
            i <= n,
            v@ == s@.subrange(0, i as int),
        decreases n - i,
    {
        v.push(s.get_char(i));
        assert(v@ =~= s@.subrange(0, i + 1));
        i += 1;
    }
    assert(v@ =~= s@);
    v
}

/// The characters of `v` from `from` up to `to`.
pub fn slice(v: &Vec<char>, from: usize, to: usize) -> (part: Vec<char>)
    requires
        from <= to <= v@.len(),
    ensures
        part@ == v@.subrange(from as int, to as int),
{
    let mut part: Vec<char> = Vec::new();
    let mut i: usize = from;
    while i < to
        invariant
            from <= i <= to <= v@.len(),
            part@ == v@.subrange(from as int, i as int),
        decreases to - i,
    {
        part.push(v[i]);
        assert(part@ =~= v@.subrange(from as int, i + 1));
        i += 1;
    }
    part
}

/// The first index at or after `from` at which `v` holds `c`; the length of
/// `v` if there is none.
pub fn find(v: &Vec<char>, c: char, from: usize) -> (at: usize)
    ensures
        at == find_from(v@, c, from as nat),
        from <= v@.len() ==> from <= at <= v@.len(),
{
    let mut i: usize = from;
    while i < v.len()
        invariant
            from <= i,
            find_from(v@, c, from as nat) == find_from(v@, c, i as nat),
        decreases v@.len() - i,
    {
        if v[i] == c {
            return i;
        }
        i += 1;
    }
    v.len()
}

/// The parts of `v` before and after the first `c`, if `v` holds one.
pub fn split_at_first(v: &Vec<char>, c: char) -> (parts: Option<(Vec<char>, Vec<char>)>)
    ensures
        same_texts(parts, split_once(v@, c)),
{
    let at = find(v, c, 0);
    if at >= v.len() {
        None
    } else {
        Some((slice(v, 0, at), slice(v, at + 1, v.len())))
    }
}

/// Field `k` of the fields that single spaces separate in `v`.
pub fn nth_field(v: &Vec<char>, k: usize) -> (word: Option<Vec<char>>)
    ensures
        same_text(word, field(v@, k as nat)),
{
    let mut from: usize = 0;
    let mut left: usize = k;
    while left > 0
        invariant
            from <= v@.len(),
            field(v@, k as nat) == field_from(v@, left as nat, from as nat),
        decreases left,
    {
        let end = find(v, ' ', from);
        if end >= v.len() {
            return None;
        }
        from = end + 1;
        left -= 1;
    }
    let end = find(v, ' ', from);
    Some(slice(v, from, end))
}

/// The number that the digits of `v` from `start` on spell, if it is at
/// most `limit`. No digits spell 0.
pub fn parse_digits(v: &Vec<char>, start: usize, limit: u64) -> (n: Option<u64>)
    requires
        start <= v@.len(),
    ensures
        n == (match digits_value(v@.subrange(start as int, v@.len() as int)) {
            Some(x) if x <= limit => Some(x as u64),
            _ => None,
        }),
{
    let ghost body = v@.subrange(start as int, v@.len() as int);
    let mut value: u64 = 0;
    let mut i: usize = start;
    assert(body.subrange(0, 0) =~= Seq::<char>::empty());
    while i < v.len()
        invariant
            start <= i <= v@.len(),
            body == v@.subrange(start as int, v@.len() as int),
            digits_value(body.subrange(0, i - start)) == Some(value as nat),
            value <= limit,
        decreases v@.len() - i,
    {
        let c = v[i];
        let ghost before = body.subrange(0, i - start);
        let ghost now = body.subrange(0, i + 1 - start);
        proof {
            assert(now.drop_last() =~= before);
            assert(now.last() == c);
            assert(digits_value(now) == (if is_digit(c) {
                Some(value as nat * 10 + digit_value(c))
            } else {
                None
            }));
            if digits_value(body) is Some {
                lemma_digits_grow(body, i + 1 - start);
            }
        }
        if !('0' <= c && c <= '9') {
            return None;
        }
        let d: u64 = (c as u32 - '0' as u32) as u64;
        if d > limit || value > (limit - d) / 10 {
            assert(value as nat * 10 + d > limit);
            return None;
        }
        value = value * 10 + d;
        i += 1;
    }
    assert(body.subrange(0, i - start) =~= body);
    Some(value)
}

/// The number that `v` spells.
pub fn parse_uint(v: &Vec<char>) -> (n: Option<usize>)
    ensures
        n == uint_value(v@),
{
    let start: usize = if v.len() > 0 && v[0] == '+' {
        1
    } else {
        0
    };
    if start >= v.len() {
        return None;
    }
    assert(unsigned_part(v@) =~= v@.subrange(start as int, v@.len() as int));
    match parse_digits(v, start, usize::MAX as u64) {
        Some(n) => Some(n as usize),
        None => None,
    }
}

/// The number that `v` spells, which may have a sign.
pub fn parse_int(v: &Vec<char>) -> (n: Option<i64>)
    ensures
        n == int_value(v@),
{
    let negative = v.len() > 0 && v[0] == '-';
    let start: usize = if v.len() > 0 && (v[0] == '+' || v[0] == '-') {
        1
    } else {
        0
    };
    if start >= v.len() {
        return None;
    }
    assert(signless_part(v@) =~= v@.subrange(start as int, v@.len() as int));
    if negative {
        match parse_digits(v, start, 0x8000_0000_0000_0000) {
            Some(n) => {
                if n == 0x8000_0000_0000_0000 {
                    Some(i64::MIN)
                } else {
                    Some(-(n as i64))
                }
            },
            None => None,
        }
    } else {
        match parse_digits(v, start, 0x7fff_ffff_ffff_ffff) {
            Some(n) => Some(n as i64),
            None => None,
        }
    }
}

/// The number after the first `=` of `text`.
pub fn assigned(text: &Vec<char>) -> (r: Option<usize>)
    ensures
        r == assigned_model(text@),
{
    match split_at_first(text, '=') {
        None => None,
        Some((_, value)) => parse_uint(&value),
    }
}

/// The signed number after the first `=` of `text`.
pub fn assigned_int(text: &Vec<char>) -> (r: Option<i64>)
    ensures
        r == assigned_int_model(text@),
{
    match split_at_first(text, '=') {
        None => None,
        Some((_, value)) => parse_int(&value),
    }
}

} // verus!
