//! Scores from repeated multiplication under a modulus.
//!
//! From a number `n`, an exponent and a modulus, the scores are 1, then each
//! the product of the score before it and `n`, reduced by the modulus. The
//! value of a run is the number spelled by the decimal texts of its scores,
//! the last score first; or, for a long run, the sum of its scores.

use vstd::prelude::*;
use std::collections::HashMap;
use vstd::arithmetic::div_mod::lemma_mul_mod_noop_left;
use vstd::arithmetic::power::{lemma_pow_adds, lemma_pow1, pow};
use crate::modular::{power_mod, power_mod_model};
use crate::text::{assigned, assigned_model, field, nth_field, parse_uint, to_chars, uint_value};

verus! {

/// The score after `k` multiplications by `n` under the modulus `m`.
pub open spec fn score(n: nat, m: nat, k: nat) -> nat
    decreases k,
{
    if k == 0 {
        1
    } else {
        (score(n, m, (k - 1) as nat) * n) % m
    }
}

/// The sum of the first `k` scores after the initial 1.
pub open spec fn score_sum(n: nat, m: nat, k: nat) -> nat
    decreases k,
{
    if k == 0 {
        0
    } else {
        score_sum(n, m, (k - 1) as nat) + score(n, m, k)
    }
}

/// The character of a decimal digit.
pub open spec fn digit_char(d: nat) -> char {
    if d == 0 {
        '0'
    } else if d == 1 {
        '1'
    } else if d == 2 {
        '2'
    } else if d == 3 {
        '3'
    } else if d == 4 {
        '4'
    } else if d == 5 {
        '5'
    } else if d == 6 {
        '6'
    } else if d == 7 {
        '7'
    } else if d == 8 {
        '8'
    } else {
        '9'
    }
}

/// The decimal text of a number.
pub open spec fn decimal(v: nat) -> Seq<char>
    decreases v,
{
    if v < 10 {
        seq![digit_char(v)]
    } else {
        decimal(v / 10).push(digit_char(v % 10))
    }
}

/// The decimal texts of the scores after `lo` up to `hi`, the last first.
pub open spec fn scores_text(n: nat, m: nat, lo: nat, hi: nat) -> Seq<char>
    decreases hi,
{
    if hi <= lo {
        Seq::empty()
    } else {
        decimal(score(n, m, hi)) + scores_text(n, m, lo, (hi - 1) as nat)
    }
}

/// The number spelled by the texts of the first `exp` scores, the last
/// first; none where the modulus is 0, where there is no score, or where
/// the machine's word cannot hold the number.
pub open spec fn eni_model(n: usize, exp: usize, mmod: usize) -> Option<usize> {
    if mmod == 0 {
        None
    } else {
        uint_value(scores_text(n as nat, mmod as nat, 0, exp as nat))
    }
}

/// The number spelled by the texts of the last five of the first `exp`
/// scores, or of all of them where they are fewer, the last first; none
/// where the modulus is 0, where there is no score, or where the machine's
/// word cannot hold the number.
pub open spec fn trunc_eni_model(n: usize, exp: usize, mmod: usize) -> Option<usize> {
    if mmod == 0 {
        None
    } else if exp > 5 {
        uint_value(scores_text(n as nat, mmod as nat, (exp - 5) as nat, exp as nat))
    } else {
        uint_value(scores_text(n as nat, mmod as nat, 0, exp as nat))
    }
}

/// The sum of the first `exp` scores; none where the modulus is 0 or where
/// the machine's word cannot hold the sum.
pub open spec fn loop_eni_model(n: usize, exp: usize, mmod: usize) -> Option<usize> {
    if mmod == 0 || score_sum(n as nat, mmod as nat, exp as nat) > usize::MAX {
        None
    } else {
        Some(score_sum(n as nat, mmod as nat, exp as nat) as usize)
    }
}

/// The sum of three values, where each is there and the machine's word can
/// hold the sum.
pub open spec fn sum_of_three(a: Option<usize>, b: Option<usize>, c: Option<usize>) -> Option<
    usize,
> {
    match (a, b, c) {
        (Some(a), Some(b), Some(c)) if a + b + c <= usize::MAX => Some((a + b + c) as usize),
        _ => None,
    }
}

/// A score is a power of `n`, reduced by the modulus.
pub proof fn lemma_score_is_power(n: nat, m: nat, k: nat)
    requires
        m > 0,
        k > 0,
    ensures
        score(n, m, k) == power_mod_model(1, n, k, m),
    decreases k,
{
    let mi = m as int;
    let ni = n as int;
    if k == 1 {
        lemma_pow1(ni);
        assert(score(n, m, 0) == 1);
        assert(score(n, m, 1) == (1 * n) % m);
    } else {
        let before = (k - 1) as nat;
        lemma_score_is_power(n, m, before);
        lemma_pow_adds(ni, before, 1);
        lemma_pow1(ni);
        lemma_pow_positive_or_zero(ni, before);
        lemma_mul_mod_noop_left(pow(ni, before), ni, mi);
        assert(1 * pow(ni, before) == pow(ni, before));
        assert(1 * pow(ni, k) == pow(ni, k));
    }
}

/// A power of a number that is not negative is not negative.
pub proof fn lemma_pow_positive_or_zero(b: int, e: nat)
    requires
        b >= 0,
    ensures
        pow(b, e) >= 0,
    decreases e,
{
    reveal(pow);
    if e > 0 {
        lemma_pow_positive_or_zero(b, (e - 1) as nat);
        assert(b * pow(b, (e - 1) as nat) >= 0) by (nonlinear_arith)
            requires
                b >= 0,
                pow(b, (e - 1) as nat) >= 0,
        ;
    }
}

/// The sums of the scores grow with the number of scores.
pub proof fn lemma_score_sum_monotone(n: nat, m: nat, j: nat, k: nat)
    requires
        j <= k,
    ensures
        score_sum(n, m, j) <= score_sum(n, m, k),
    decreases k,
{
    if j < k {
        lemma_score_sum_monotone(n, m, j, (k - 1) as nat);
    }
}

/// Where the score after `p + delta` multiplications is the score after `p`,
/// the scores repeat from `p` on with the period `delta`.
pub proof fn lemma_scores_repeat(n: nat, m: nat, p: nat, delta: nat, a: nat)
    requires
        score(n, m, p) == score(n, m, p + delta),
        p <= a,
    ensures
        score(n, m, a) == score(n, m, a + delta),
    decreases a,
{
    if p < a {
        lemma_scores_repeat(n, m, p, delta, (a - 1) as nat);
    }
}

/// Where the scores repeat from `p` on with the period `delta`, every
/// `delta` scores in a row from there on have the same sum.
pub proof fn lemma_period_sum(n: nat, m: nat, p: nat, delta: nat, a: nat)
    requires
        score(n, m, p) == score(n, m, p + delta),
        p <= a,
    ensures
        score_sum(n, m, a + delta) - score_sum(n, m, a) == score_sum(n, m, p + delta) - score_sum(
            n,
            m,
            p,
        ),
    decreases a,
{
    if p < a {
        lemma_period_sum(n, m, p, delta, (a - 1) as nat);
        lemma_scores_repeat(n, m, p, delta, a);
    }
}

/// Where the scores repeat from `p` on with the period `delta`, `amount`
/// periods after `p + delta` the score is the same again and the sum has
/// grown by `amount` times the sum of one period.
pub proof fn lemma_skip_periods(n: nat, m: nat, p: nat, delta: nat, amount: nat)
    requires
        score(n, m, p) == score(n, m, p + delta),
    ensures
        score(n, m, p + delta + delta * amount) == score(n, m, p + delta),
        score_sum(n, m, p + delta + delta * amount) == score_sum(n, m, p + delta) + amount * (
        score_sum(n, m, p + delta) - score_sum(n, m, p)),
    decreases amount,
{
    let w = score_sum(n, m, p + delta) - score_sum(n, m, p);
    if amount == 0 {
        assert(delta * amount == 0) by (nonlinear_arith)
            requires
                amount == 0,
        ;
        assert(amount * w == 0) by (nonlinear_arith)
            requires
                amount == 0,
        ;
    } else {
        let before = (amount - 1) as nat;
        lemma_skip_periods(n, m, p, delta, before);
        assert(delta * amount == delta * before + delta) by (nonlinear_arith)
            requires
                before == amount - 1,
        ;
        assert(amount * w == before * w + w) by (nonlinear_arith)
            requires
                before == amount - 1,
        ;
        let a = p + delta + delta * before;
        lemma_scores_repeat(n, m, p, delta, a);
        lemma_period_sum(n, m, p, delta, a);
    }
}

/// The character of the decimal digit `d`.
fn digit_of(d: usize) -> (c: char)
    requires
        d < 10,
    ensures
        c == digit_char(d as nat),
{
    if d == 0 {
        '0'
    } else if d == 1 {
        '1'
    } else if d == 2 {
        '2'
    } else if d == 3 {
        '3'
    } else if d == 4 {
        '4'
    } else if d == 5 {
        '5'
    } else if d == 6 {
        '6'
    } else if d == 7 {
        '7'
    } else if d == 8 {
        '8'
    } else {
        '9'
    }
}

/// The decimal text of `v`.
pub fn decimal_of(v: usize) -> (text: Vec<char>)
    ensures
        text@ == decimal(v as nat),
    decreases v,
{
    if v < 10 {
        let mut text: Vec<char> = Vec::new();
        text.push(digit_of(v));
        assert(text@ =~= seq![digit_char(v as nat)]);
        text
    } else {
        let mut text = decimal_of(v / 10);
        text.push(digit_of(v % 10));
        text
    }
}

/// The score that follows `score`.
fn next_score(score: usize, n: usize, mmod: usize) -> (next: usize)
    requires
        mmod > 0,
    ensures
        next == (score as nat * n as nat) % (mmod as nat),
{
    assert(score as nat * n as nat <= u128::MAX) by (nonlinear_arith)
        requires
            score <= 0xffff_ffff_ffff_ffff,
            n <= 0xffff_ffff_ffff_ffff,
            u128::MAX == 0xffff_ffff_ffff_ffff_ffff_ffff_ffff_ffff,
    ;
    let wide: u128 = (score as u128) * (n as u128);
    (wide % (mmod as u128)) as usize
}

/// The decimal texts of `count` scores in a row, the last first, where
/// `start` is the score before the first of them.
fn listing(start: usize, n: usize, mmod: usize, lo: usize, count: usize) -> (text: Vec<char>)
    requires
        mmod > 0,
        lo + count <= usize::MAX,
        start == score(n as nat, mmod as nat, lo as nat),
    ensures
        text@ == scores_text(n as nat, mmod as nat, lo as nat, (lo + count) as nat),
{
    let mut text: Vec<char> = Vec::new();
    let mut at: usize = start;
    let mut done: usize = 0;
    while done < count
        invariant
            mmod > 0,
            done <= count,
            lo + count <= usize::MAX,
            at == score(n as nat, mmod as nat, (lo + done) as nat),
            text@ == scores_text(n as nat, mmod as nat, lo as nat, (lo + done) as nat),
        decreases count - done,
    {
        at = next_score(at, n, mmod);
        let mut longer = decimal_of(at);
        longer.append(&mut text);
        text = longer;
        done += 1;
    }
    text
}

/// The number spelled by the texts of the first `exp` scores, the last first.
pub fn checked_eni(n: usize, exp: usize, mmod: usize) -> (r: Option<usize>)
    ensures
        r == eni_model(n, exp, mmod),
{
    if mmod == 0 {
        return None;
    }
    let text = listing(1, n, mmod, 0, exp);
    parse_uint(&text)
}

/// The number spelled by the texts of the first `exp` scores, the last first.
pub fn eni(n: usize, exp: usize, mmod: usize) -> (r: usize)
    requires
        eni_model(n, exp, mmod) is Some,
    ensures
        Some(r) == eni_model(n, exp, mmod),
{
    checked_eni(n, exp, mmod).unwrap()
}

/// The number spelled by the texts of the last five of the first `exp`
/// scores, the last first. The score before them is found as a power.
pub fn checked_trunc_eni(n: usize, exp: usize, mmod: usize) -> (r: Option<usize>)
    ensures
        r == trunc_eni_model(n, exp, mmod),
{
    if mmod == 0 {
        return None;
    }
    if exp > 5 {
        let start = power_mod(1, n as u64, (exp - 5) as u64, mmod as u64) as usize;
        proof {
            lemma_score_is_power(n as nat, mmod as nat, (exp - 5) as nat);
        }
        let text = listing(start, n, mmod, exp - 5, 5);
        parse_uint(&text)
    } else {
        let text = listing(1, n, mmod, 0, exp);
        parse_uint(&text)
    }
}

/// The number spelled by the texts of the last five of the first `exp`
/// scores, the last first.
pub fn trunc_eni(n: usize, exp: usize, mmod: usize) -> (r: usize)
    requires
        trunc_eni_model(n, exp, mmod) is Some,
    ensures
        Some(r) == trunc_eni_model(n, exp, mmod),
{
    checked_trunc_eni(n, exp, mmod).unwrap()
}

/// The sum of the first `exp` scores. A score that has been seen before
/// starts a period; the periods that fit into the rest of the run are added
/// at once.
pub fn checked_loop_eni(n: usize, exp: usize, mmod: usize) -> (r: Option<usize>)
    ensures
        r == loop_eni_model(n, exp, mmod),
{
    if mmod == 0 {
        return None;
    }
    let ghost nn = n as nat;
    let ghost mm = mmod as nat;
    let mut score: usize = 1;
    let mut sum: usize = 0;
    let mut visited: HashMap<usize, (usize, usize)> = HashMap::new();
    let mut step: usize = 0;
    broadcast use vstd::std_specs::hash::group_hash_axioms;

    while step < exp
        invariant
            mmod > 0,
            nn == n as nat,
            mm == mmod as nat,
            step <= exp,
            score == self::score(nn, mm, step as nat),
            sum == score_sum(nn, mm, step as nat),
            forall|key: usize| #[trigger]
                visited@.contains_key(key) ==> {
                    &&& visited@[key].0 <= step
                    &&& self::score(nn, mm, visited@[key].0 as nat) == key
                    &&& score_sum(nn, mm, visited@[key].0 as nat) == visited@[key].1
                },
        decreases exp - step,
    {
        score = next_score(score, n, mmod);
        let ghost after = (step + 1) as nat;
        proof {
            lemma_score_sum_monotone(nn, mm, after, exp as nat);
        }
        if sum > usize::MAX - score {
            return None;
        }
        sum += score;
        step += 1;
        match visited.get(&score) {
            Some(seen) => {
                let prev_step = seen.0;
                let prev_sum = seen.1;
                assert(visited@.contains_key(score));
                let delta_steps = step - prev_step;
                proof {
                    lemma_score_sum_monotone(nn, mm, prev_step as nat, step as nat);
                }
                let delta_sum = sum - prev_sum;
                let amount = (exp - step) / delta_steps;
                proof {
                    lemma_skip_periods(
                        nn,
                        mm,
                        prev_step as nat,
                        delta_steps as nat,
                        amount as nat,
                    );
                    assert(delta_steps * amount <= exp - step) by (nonlinear_arith)
                        requires
                            amount == (exp - step) / (delta_steps as int),
                            delta_steps > 0,
                            exp >= step,
                    ;
                    lemma_score_sum_monotone(
                        nn,
                        mm,
                        (step + delta_steps * amount) as nat,
                        exp as nat,
                    );
                    assert(amount * delta_sum == delta_sum * amount) by (nonlinear_arith);
                }
                if delta_sum > 0 && amount > (usize::MAX - sum) / delta_sum {
                    assert(sum + delta_sum * amount > usize::MAX) by (nonlinear_arith)
                        requires
                            delta_sum > 0,
                            amount > (usize::MAX - sum) / (delta_sum as int),
                            sum <= usize::MAX,
                    ;
                    return None;
                }
                assert(sum + delta_sum * amount <= usize::MAX) by (nonlinear_arith)
                    requires
                        delta_sum == 0 || amount <= (usize::MAX - sum) / (delta_sum as int),
                        sum <= usize::MAX,
                        delta_sum >= 0,
                        amount >= 0,
                ;
                sum += delta_sum * amount;
                step += delta_steps * amount;
            },
            None => {},
        }
        visited.insert(score, (step, sum));
    }
    Some(sum)
}

/// The sum of the first `exp` scores.
pub fn loop_eni(n: usize, exp: usize, mmod: usize) -> (r: usize)
    requires
        loop_eni_model(n, exp, mmod) is Some,
    ensures
        Some(r) == loop_eni_model(n, exp, mmod),
{
    checked_loop_eni(n, exp, mmod).unwrap()
}

/// One line of input: three numbers `a`, `b`, `c`, an exponent for each,
/// `x`, `y`, `z`, and the modulus `m`.
#[derive(Debug, Clone, Copy, PartialEq, Eq, Structural)]
pub struct Entry {
    pub a: usize,
    pub b: usize,
    pub c: usize,
    pub x: usize,
    pub y: usize,
    pub z: usize,
    pub m: usize,
}

/// The number that field `k` of `line` assigns: the number after its first `=`.
pub open spec fn assigned_field(line: Seq<char>, k: nat) -> Option<usize> {
    match field(line, k) {
        Some(word) => assigned_model(word),
        None => None,
    }
}

/// The entry that `line` spells: seven fields, each of which assigns a
/// number, in the order `a`, `b`, `c`, `x`, `y`, `z`, `m`. What stands
/// before the `=` of a field is not read, nor are further fields.
pub open spec fn entry_model(line: Seq<char>) -> Option<Entry> {
    match (
        assigned_field(line, 0),
        assigned_field(line, 1),
        assigned_field(line, 2),
        assigned_field(line, 3),
        assigned_field(line, 4),
        assigned_field(line, 5),
        assigned_field(line, 6),
    ) {
        (Some(a), Some(b), Some(c), Some(x), Some(y), Some(z), Some(m)) => Some(
            Entry { a, b, c, x, y, z, m },
        ),
        _ => None,
    }
}

fn assigned_at(line: &Vec<char>, k: usize) -> (r: Option<usize>)
    ensures
        r == assigned_field(line@, k as nat),
{
    match nth_field(line, k) {
        Some(word) => assigned(&word),
        None => None,
    }
}

fn add_three(a: Option<usize>, b: Option<usize>, c: Option<usize>) -> (r: Option<usize>)
    ensures
        r == sum_of_three(a, b, c),
{
    match (a, b, c) {
        (Some(a), Some(b), Some(c)) => {
            if a > usize::MAX - b {
                None
            } else if a + b > usize::MAX - c {
                None
            } else {
                Some(a + b + c)
            }
        },
        _ => None,
    }
}

impl Entry {
    /// The sum of the values of the three runs of the entry, each spelled
    /// by the texts of all its scores.
    pub open spec fn calculate_model(&self) -> Option<usize> {
        sum_of_three(
            eni_model(self.a, self.x, self.m),
            eni_model(self.b, self.y, self.m),
            eni_model(self.c, self.z, self.m),
        )
    }

    /// The sum of the values of the three runs of the entry, each spelled
    /// by the texts of its last five scores.
    pub open spec fn trunc_calculate_model(&self) -> Option<usize> {
        sum_of_three(
            trunc_eni_model(self.a, self.x, self.m),
            trunc_eni_model(self.b, self.y, self.m),
            trunc_eni_model(self.c, self.z, self.m),
        )
    }

    /// The sum of the sums of the scores of the three runs of the entry.
    pub open spec fn loop_calculate_model(&self) -> Option<usize> {
        sum_of_three(
            loop_eni_model(self.a, self.x, self.m),
            loop_eni_model(self.b, self.y, self.m),
            loop_eni_model(self.c, self.z, self.m),
        )
    }

    /// Reads a line of input as an entry.
    pub fn parse(line: &str) -> (r: Option<Entry>)
        ensures
            r == entry_model(line@),
    {
        let text = to_chars(line);
        match (
            assigned_at(&text, 0),
            assigned_at(&text, 1),
            assigned_at(&text, 2),
            assigned_at(&text, 3),
            assigned_at(&text, 4),
            assigned_at(&text, 5),
            assigned_at(&text, 6),
        ) {
            (Some(a), Some(b), Some(c), Some(x), Some(y), Some(z), Some(m)) => Some(
                Entry { a, b, c, x, y, z, m },
            ),
            _ => None,
        }
    }

    /// The sum of the values of the three runs, if there is one.
    pub fn checked_calculate(&self) -> (r: Option<usize>)
        ensures
            r == self.calculate_model(),
    {
        add_three(
            checked_eni(self.a, self.x, self.m),
            checked_eni(self.b, self.y, self.m),
            checked_eni(self.c, self.z, self.m),
        )
    }

    /// The sum of the values of the three runs.
    pub fn calculate(&self) -> (r: usize)
        requires
            self.calculate_model() is Some,
        ensures
            Some(r) == self.calculate_model(),
    {
        eni(self.a, self.x, self.m) + eni(self.b, self.y, self.m) + eni(self.c, self.z, self.m)
    }

    /// The sum of the values of the last five scores of the three runs, if
    /// there is one.
    pub fn checked_trunc_calculate(&self) -> (r: Option<usize>)
        ensures
            r == self.trunc_calculate_model(),
    {
        add_three(
            checked_trunc_eni(self.a, self.x, self.m),
            checked_trunc_eni(self.b, self.y, self.m),
            checked_trunc_eni(self.c, self.z, self.m),
        )
    }

    /// The sum of the values of the last five scores of the three runs.
    pub fn trunc_calculate(&self) -> (r: usize)
        requires
            self.trunc_calculate_model() is Some,
        ensures
            Some(r) == self.trunc_calculate_model(),
    {
        trunc_eni(self.a, self.x, self.m) + trunc_eni(self.b, self.y, self.m) + trunc_eni(
            self.c,
            self.z,
            self.m,
        )
    }

    /// The sum of the sums of the scores of the three runs, if there is one.
    pub fn checked_loop_calculate(&self) -> (r: Option<usize>)
        ensures
            r == self.loop_calculate_model(),
    {
        add_three(
            checked_loop_eni(self.a, self.x, self.m),
            checked_loop_eni(self.b, self.y, self.m),
            checked_loop_eni(self.c, self.z, self.m),
        )
    }

    /// The sum of the sums of the scores of the three runs.
    pub fn loop_calculate(&self) -> (r: usize)
        requires
            self.loop_calculate_model() is Some,
        ensures
            Some(r) == self.loop_calculate_model(),
    {
        loop_eni(self.a, self.x, self.m) + loop_eni(self.b, self.y, self.m) + loop_eni(
            self.c,
            self.z,
            self.m,
        )
    }
}

impl core::str::FromStr for Entry {
    type Err = ();

    /// Reads a line of input as an entry: the entry that the line spells,
    /// or an error where it spells none.
    fn from_str(line: &str) -> (r: Result<Self, ()>)
        ensures
            r == (match entry_model(line@) {
                Some(entry) => Ok::<Entry, ()>(entry),
                None => Err::<Entry, ()>(()),
            }),
    {
        match Entry::parse(line) {
            Some(entry) => Ok(entry),
            None => Err(()),
        }
    }
}

} // verus!
