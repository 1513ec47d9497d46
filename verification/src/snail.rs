//! A clock of snails on the diagonals of a grid, and the moment at which
//! they all stand in the top row.

use vstd::prelude::*;
use crate::modular::{gcd, gcd_model, power_mod, power_mod_model};
use crate::text::{assigned_int, assigned_int_model, split_at_first, split_once, to_chars};

verus! {

/// Where the snail at `s` stands after one step: one place up its
/// diagonal, or at the bottom of the diagonal when it was at the top.
pub open spec fn step_one(s: (i64, i64)) -> (i64, i64) {
    if s.1 == 1 {
        (1i64, s.0)
    } else {
        ((s.0 + 1) as i64, (s.1 - 1) as i64)
    }
}

/// The sum of `x + 100 * y` over the snails.
pub open spec fn value_of(snails: Seq<(i64, i64)>) -> int
    decreases snails.len(),
{
    if snails.len() == 0 {
        0
    } else {
        value_of(snails.drop_last()) + snails.last().0 + 100 * snails.last().1
    }
}

/// The cells of row `y` from column `x` up to column `to`: `@` where a
/// snail stands, `.` elsewhere.
pub open spec fn cells(snails: Seq<(i64, i64)>, y: int, x: int, to: int) -> Seq<char>
    decreases to - x,
{
    if x >= to {
        Seq::empty()
    } else {
        seq![if snails.contains((x as i64, y as i64)) {
            '@'
        } else {
            '.'
        }] + cells(snails, y, x + 1, to)
    }
}

/// The rows from `y` up to `size`, where row `y` has the columns from 1 up
/// to `width` and each further row one column less; each row ends with a
/// line feed.
pub open spec fn rows(snails: Seq<(i64, i64)>, y: int, size: int, width: int) -> Seq<char>
    decreases size - y,
{
    if y >= size {
        Seq::empty()
    } else {
        cells(snails, y, 1, width) + seq!['\n'] + rows(snails, y + 1, size, width - 1)
    }
}

/// The snails of a clock, in the order in which they were set, and the size
/// of the grid that holds them.
#[derive(Debug)]
pub struct Device {
    pub snails: Vec<(i64, i64)>,
    pub size: i64,
}

impl Default for Device {
    fn default() -> (device: Self)
        ensures
            device.snails@.len() == 0,
            device.size == 0,
            device.wf(),
    {
        Device { snails: Vec::new(), size: 0 }
    }
}

impl Device {
    /// No place holds two snails; every snail stands at a column and a row
    /// from 1 on, inside the grid.
    pub open spec fn wf(&self) -> bool {
        &&& self.snails@.no_duplicates()
        &&& self.size >= 0
        &&& forall|i: int|
            0 <= i < self.snails@.len() ==> {
                &&& (#[trigger] self.snails@[i]).0 >= 1
                &&& self.snails@[i].1 >= 1
                &&& self.snails@[i].0 + self.snails@[i].1 + 1 <= self.size
            }
    }

    /// The picture of the clock: the rows from 1 up to the size, row 1 with
    /// the columns from 1 up to the size less 1, each further row one
    /// column shorter.
    pub open spec fn picture(&self) -> Seq<char> {
        rows(self.snails@, 1, self.size as int, self.size - 1)
    }

    /// The value of the clock, where 64 bits with a sign can hold it.
    pub open spec fn value_model(&self) -> Option<i64> {
        if value_of(self.snails@) <= i64::MAX {
            Some(value_of(self.snails@) as i64)
        } else {
            None
        }
    }

    /// Whether a snail stands at column `x` of row `y`.
    pub fn contains(&self, x: i64, y: i64) -> (r: bool)
        ensures
            r == self.snails@.contains((x, y)),
    {
        let mut i: usize = 0;
        while i < self.snails.len()
            invariant
                i <= self.snails@.len(),
                forall|k: int| 0 <= k < i ==> self.snails@[k] != (x, y),
            decreases self.snails@.len() - i,
        {
            let s = self.snails[i];
            if s.0 == x && s.1 == y {
                return true;
            }
            i += 1;
        }
        false
    }

    /// Sets a snail at column `x` of row `y`, unless one stands there, and
    /// widens the grid to hold it.
    pub fn add(&mut self, x: i64, y: i64)
        requires
            old(self).wf(),
            x >= 1,
            y >= 1,
            x + y < i64::MAX,
        ensures
            final(self).wf(),
            final(self).snails@ == if old(self).snails@.contains((x, y)) {
                old(self).snails@
            } else {
                old(self).snails@.push((x, y))
            },
            final(self).size == if old(self).size >= x + y + 1 {
                old(self).size as int
            } else {
                x + y + 1
            },
    {
        if !self.contains(x, y) {
            self.snails.push((x, y));
        }
        if self.size < x + y + 1 {
            self.size = x + y + 1;
        }
    }

    /// The sum of `x + 100 * y` over the snails, if 64 bits with a sign can
    /// hold it.
    pub fn checked_value(&self) -> (r: Option<i64>)
        requires
            self.wf(),
        ensures
            r == self.value_model(),
    {
        let mut sum: i64 = 0;
        let mut i: usize = 0;
        assert(self.snails@.subrange(0, 0) =~= Seq::<(i64, i64)>::empty());
        while i < self.snails.len()
            invariant
                self.wf(),
                i <= self.snails@.len(),
                sum == value_of(self.snails@.subrange(0, i as int)),
                sum >= 0,
            decreases self.snails@.len() - i,
        {
            let s = self.snails[i];
            proof {
                let now = self.snails@.subrange(0, i + 1);
                assert(now.drop_last() =~= self.snails@.subrange(0, i as int));
                assert(now.last() == s);
                lemma_value_grows(self.snails@, i + 1);
            }
            let term: i128 = (s.0 as i128) + 100 * (s.1 as i128);
            if term > (i64::MAX as i128) - (sum as i128) {
                return None;
            }
            sum = ((sum as i128) + term) as i64;
            i += 1;
        }
        assert(self.snails@.subrange(0, i as int) =~= self.snails@);
        Some(sum)
    }

    /// The sum of `x + 100 * y` over the snails.
    pub fn value(&self) -> (r: i64)
        requires
            self.wf(),
            self.value_model() is Some,
        ensures
            Some(r) == self.value_model(),
    {
        self.checked_value().unwrap()
    }

    /// Moves every snail one step along its diagonal.
    pub fn step(&mut self)
        requires
            old(self).wf(),
        ensures
            final(self).wf(),
            final(self).size == old(self).size,
            final(self).snails@ == old(self).snails@.map_values(|s: (i64, i64)| step_one(s)),
    {
        let mut next: Vec<(i64, i64)> = Vec::new();
        let mut i: usize = 0;
        while i < self.snails.len()
            invariant
                self.wf(),
                i <= self.snails@.len(),
                next@.len() == i,
                forall|k: int| 0 <= k < i ==> next@[k] == step_one(#[trigger] self.snails@[k]),
            decreases self.snails@.len() - i,
        {
            let s = self.snails[i];
            if s.1 == 1 {
                next.push((1, s.0));
            } else {
                next.push((s.0 + 1, s.1 - 1));
            }
            i += 1;
        }
        proof {
            let before = self.snails@;
            assert(next@ =~= before.map_values(|s: (i64, i64)| step_one(s)));
            assert forall|a: int, b: int| 0 <= a < next@.len() && 0 <= b < next@.len() && a
                != b implies next@[a] != next@[b] by {
                assert(before[a] != before[b]);
                assert(next@[a] == step_one(before[a]));
                assert(next@[b] == step_one(before[b]));
            }
            assert forall|k: int| 0 <= k < next@.len() implies (#[trigger] next@[k]).0 >= 1
                && next@[k].1 >= 1 && next@[k].0 + next@[k].1 + 1 <= self.size by {
                assert(next@[k] == step_one(before[k]));
            }
        }
        self.snails = next;
    }

    /// The picture of the clock as text.
    pub fn render(&self) -> (text: String)
        requires
            self.wf(),
        ensures
            text@ == self.picture(),
    {
        let mut text = String::new();
        if self.size == 0 {
            return text;
        }
        let mut max_x: i64 = self.size - 1;
        let mut y: i64 = 1;
        let ghost all = self.picture();
        while y < self.size
            invariant
                self.wf(),
                1 <= y,
                self.size >= 1,
                max_x == self.size - y,
                all == text@ + rows(self.snails@, y as int, self.size as int, max_x as int),
            decreases self.size - y,
        {
            let ghost row_start = text@;
            let mut x: i64 = 1;
            while x < max_x
                invariant
                    1 <= x,
                    max_x >= 0,
                    text@ + cells(self.snails@, y as int, x as int, max_x as int) == row_start
                        + cells(self.snails@, y as int, 1, max_x as int),
                decreases max_x - x,
            {
                let ghost before = text@;
                if self.contains(x, y) {
                    text.push('@');
                } else {
                    text.push('.');
                }
                proof {
                    let rest = cells(self.snails@, y as int, x + 1, max_x as int);
                    let cell = if self.snails@.contains((x, y)) {
                        '@'
                    } else {
                        '.'
                    };
                    assert(cells(self.snails@, y as int, x as int, max_x as int) == seq![cell] + rest);
                    assert(before.push(cell) + rest =~= before + (seq![cell] + rest));
                }
                x += 1;
            }
            let ghost before = text@;
            text.push('\n');
            proof {
                let row = cells(self.snails@, y as int, 1, max_x as int);
                let rest = rows(self.snails@, y + 1, self.size as int, max_x - 1);
                assert(cells(self.snails@, y as int, x as int, max_x as int) =~= Seq::<char>::empty());
                assert(before =~= row_start + row);
                assert(rows(self.snails@, y as int, self.size as int, max_x as int) == row
                    + seq!['\n'] + rest);
                assert(text@ + rest =~= row_start + (row + seq!['\n'] + rest));
            }
            max_x -= 1;
            y += 1;
        }
        assert(rows(self.snails@, y as int, self.size as int, max_x as int) =~= Seq::<char>::empty());
        assert(text@ + Seq::<char>::empty() =~= text@);
        text
    }
}

/// The value of the snails up to a point is not negative, and no more than
/// the value of all of them.
pub proof fn lemma_value_grows(snails: Seq<(i64, i64)>, n: int)
    requires
        0 <= n <= snails.len(),
        forall|i: int| 0 <= i < snails.len() ==> (#[trigger] snails[i]).0 >= 1 && snails[i].1 >= 1,
    ensures
        0 <= value_of(snails.subrange(0, n)) <= value_of(snails),
    decreases snails.len() - n,
{
    if n == snails.len() {
        assert(snails.subrange(0, n) =~= snails);
        lemma_value_positive(snails);
    } else {
        lemma_value_grows(snails.drop_last(), n);
        assert(snails.drop_last().subrange(0, n) =~= snails.subrange(0, n));
    }
}

/// The value of snails at columns and rows from 1 on is not negative.
pub proof fn lemma_value_positive(snails: Seq<(i64, i64)>)
    requires
        forall|i: int| 0 <= i < snails.len() ==> (#[trigger] snails[i]).0 >= 1 && snails[i].1 >= 1,
    ensures
        value_of(snails) >= 0,
    decreases snails.len(),
{
    if snails.len() > 0 {
        lemma_value_positive(snails.drop_last());
    }
}

/// The place that `line` names: two fields with one space between them, of
/// which the first assigns the column and the second the row.
pub open spec fn xy_model(line: Seq<char>) -> Option<(i64, i64)> {
    match split_once(line, ' ') {
        None => None,
        Some((x, y)) => match (assigned_int_model(x), assigned_int_model(y)) {
            (Some(x), Some(y)) => Some((x, y)),
            _ => None,
        },
    }
}

/// Reads the place of a snail from a line of the form `x=<column> y=<row>`.
pub fn get_xy(line: &str) -> (r: Option<(i64, i64)>)
    ensures
        r == xy_model(line@),
{
    let text = to_chars(line);
    match split_at_first(&text, ' ') {
        None => None,
        Some((x, y)) => match (assigned_int(&x), assigned_int(&y)) {
            (Some(x), Some(y)) => Some((x, y)),
            _ => None,
        },
    }
}

/// The power of `n` to the `p - 2`, reduced by `p`, which is the inverse
/// of `n` under a prime `p`; 0 where `p` is less than 2 or shares a
/// divisor with `n`.
pub open spec fn mod_inverse_model(n: nat, p: int) -> nat {
    if p <= 1 || gcd_model(n, p as nat) > 1 {
        0
    } else {
        power_mod_model(1, n, (p - 2) as nat, p as nat)
    }
}

/// The inverse of `n` under the prime `p`.
pub fn mod_inverse(n: i64, p: i64) -> (r: i64)
    requires
        n >= 0,
    ensures
        r == mod_inverse_model(n as nat, p as int),
        0 <= r,
        p >= 1 ==> r < p,
{
    if p <= 1 || gcd(n as u64, p as u64) > 1 {
        return 0;
    }
    power_mod(1, n as u64, (p - 2) as u64, p as u64) as i64
}

/// The product of the numbers.
pub open spec fn product_of(bases: Seq<i64>) -> int
    decreases bases.len(),
{
    if bases.len() == 0 {
        1
    } else {
        product_of(bases.drop_last()) * bases.last()
    }
}

/// The remainder after the first `k` pairs of a modulus and a remainder
/// have been taken in, under the product of all moduli; none where a step
/// leaves what 64 bits with a sign can hold.
pub open spec fn crt_fold(bases: Seq<i64>, nums: Seq<i64>, product: int, k: nat) -> Option<int>
    decreases k,
{
    if k == 0 {
        Some(0)
    } else {
        match crt_fold(bases, nums, product, (k - 1) as nat) {
            None => None,
            Some(so_far) => {
                let n = bases[k - 1];
                let a = nums[k - 1];
                let b = product / (n as int);
                let inv = mod_inverse_model(b as nat, n as int);
                if a * b <= i64::MAX && a * b * inv <= i64::MAX && so_far + a * b * inv
                    <= i64::MAX {
                    Some((so_far + a * b * inv) % product)
                } else {
                    None
                }
            },
        }
    }
}

/// The moduli are at least 1 and the remainders at least 0.
pub open spec fn crt_inputs(bases: Seq<i64>, nums: Seq<i64>) -> bool {
    &&& forall|i: int| 0 <= i < bases.len() ==> #[trigger] bases[i] >= 1
    &&& forall|i: int| 0 <= i < nums.len() ==> #[trigger] nums[i] >= 0
}

/// The number of pairs that two lists make.
pub open spec fn pairs(bases: Seq<i64>, nums: Seq<i64>) -> nat {
    if bases.len() <= nums.len() {
        bases.len()
    } else {
        nums.len()
    }
}

/// The number under the product of the moduli `bases` that the remainders
/// `nums` give, each pair taken in with the inverse of the product of the
/// other moduli; none where the inputs are out of range or a step leaves
/// what 64 bits with a sign can hold.
pub open spec fn crt_model(bases: Seq<i64>, nums: Seq<i64>) -> Option<i64> {
    if crt_inputs(bases, nums) && product_of(bases) <= i64::MAX {
        match crt_fold(bases, nums, product_of(bases), pairs(bases, nums)) {
            Some(r) => Some(r as i64),
            None => None,
        }
    } else {
        None
    }
}

/// The product of moduli that are at least 1 is at least 1, and at least
/// the product of the first of them.
pub proof fn lemma_product_grows(bases: Seq<i64>, n: int)
    requires
        0 <= n <= bases.len(),
        forall|i: int| 0 <= i < bases.len() ==> #[trigger] bases[i] >= 1,
    ensures
        1 <= product_of(bases.subrange(0, n)) <= product_of(bases),
    decreases bases.len() - n,
{
    if n == bases.len() {
        assert(bases.subrange(0, n) =~= bases);
        lemma_product_positive(bases);
    } else {
        lemma_product_grows(bases.drop_last(), n);
        assert(bases.drop_last().subrange(0, n) =~= bases.subrange(0, n));
        let rest = product_of(bases.drop_last());
        let last = bases.last();
        assert(rest <= rest * last) by (nonlinear_arith)
            requires
                rest >= 1,
                last >= 1,
        ;
    }
}

/// The product of moduli that are at least 1 is at least 1.
pub proof fn lemma_product_positive(bases: Seq<i64>)
    requires
        forall|i: int| 0 <= i < bases.len() ==> #[trigger] bases[i] >= 1,
    ensures
        product_of(bases) >= 1,
    decreases bases.len(),
{
    if bases.len() > 0 {
        lemma_product_positive(bases.drop_last());
        let rest = product_of(bases.drop_last());
        let last = bases.last();
        assert(rest * last >= 1) by (nonlinear_arith)
            requires
                rest >= 1,
                last >= 1,
        ;
    }
}

/// Whether the moduli are at least 1 and the remainders at least 0.
fn check_inputs(bases: &[i64], nums: &[i64]) -> (ok: bool)
    ensures
        ok == crt_inputs(bases@, nums@),
{
    let mut i: usize = 0;
    while i < bases.len()
        invariant
            i <= bases@.len(),
            forall|k: int| 0 <= k < i ==> #[trigger] bases@[k] >= 1,
        decreases bases@.len() - i,
    {
        if bases[i] < 1 {
            return false;
        }
        i += 1;
    }
    let mut j: usize = 0;
    while j < nums.len()
        invariant
            j <= nums@.len(),
            forall|k: int| 0 <= k < bases@.len() ==> #[trigger] bases@[k] >= 1,
            forall|k: int| 0 <= k < j ==> #[trigger] nums@[k] >= 0,
        decreases nums@.len() - j,
    {
        if nums[j] < 0 {
            return false;
        }
        j += 1;
    }
    true
}

/// The product of moduli that are at least 1, if 64 bits with a sign can
/// hold it.
fn checked_product(bases: &[i64]) -> (r: Option<i64>)
    requires
        forall|i: int| 0 <= i < bases@.len() ==> #[trigger] bases@[i] >= 1,
    ensures
        r == (if product_of(bases@) <= i64::MAX {
            Some(product_of(bases@) as i64)
        } else {
            None
        }),
        product_of(bases@) >= 1,
{
    let mut product: i64 = 1;
    let mut i: usize = 0;
    assert(bases@.subrange(0, 0) =~= Seq::<i64>::empty());
    while i < bases.len()
        invariant
            i <= bases@.len(),
            forall|k: int| 0 <= k < bases@.len() ==> #[trigger] bases@[k] >= 1,
            product == product_of(bases@.subrange(0, i as int)),
            product >= 1,
        decreases bases@.len() - i,
    {
        let n = bases[i];
        proof {
            let now = bases@.subrange(0, i + 1);
            assert(now.drop_last() =~= bases@.subrange(0, i as int));
            assert(now.last() == n);
            lemma_product_grows(bases@, i + 1);
            assert(product * n >= 1) by (nonlinear_arith)
                requires
                    product >= 1,
                    n >= 1,
            ;
        }
        match product.checked_mul(n) {
            Some(p) => {
                product = p;
            },
            None => {
                return None;
            },
        }
        i += 1;
    }
    proof {
        assert(bases@.subrange(0, i as int) =~= bases@);
    }
    Some(product)
}

/// The number under the product of the moduli that the remainders give,
/// if there is one.
pub fn checked_crt(bases: &[i64], nums: &[i64]) -> (r: Option<i64>)
    ensures
        r == crt_model(bases@, nums@),
{
    if !check_inputs(bases, nums) {
        return None;
    }
    let product = match checked_product(bases) {
        Some(p) => p,
        None => {
            return None;
        },
    };
    let count = if bases.len() <= nums.len() {
        bases.len()
    } else {
        nums.len()
    };
    let mut result: i64 = 0;
    let mut k: usize = 0;
    while k < count
        invariant
            k <= count,
            count == pairs(bases@, nums@),
            crt_inputs(bases@, nums@),
            product == product_of(bases@),
            product >= 1,
            0 <= result,
            crt_fold(bases@, nums@, product as int, k as nat) == Some(result as int),
        decreases count - k,
    {
        let a = nums[k];
        let n = bases[k];
        let b = product / n;
        let inv = mod_inverse(b, n);
        let ab = match a.checked_mul(b) {
            Some(v) => v,
            None => {
                proof {
                    lemma_fold_stays_none(bases@, nums@, product as int, (k + 1) as nat, count as nat);
                }
                return None;
            },
        };
        assert(a * b >= 0) by (nonlinear_arith)
            requires
                a >= 0,
                b >= 0,
        ;
        let term = match ab.checked_mul(inv) {
            Some(v) => v,
            None => {
                proof {
                    lemma_fold_stays_none(bases@, nums@, product as int, (k + 1) as nat, count as nat);
                }
                return None;
            },
        };
        assert(ab * inv >= 0) by (nonlinear_arith)
            requires
                ab >= 0,
                inv >= 0,
        ;
        let sum = match result.checked_add(term) {
            Some(v) => v,
            None => {
                proof {
                    lemma_fold_stays_none(bases@, nums@, product as int, (k + 1) as nat, count as nat);
                }
                return None;
            },
        };
        result = sum % product;
        k += 1;
    }
    Some(result)
}

/// The number under the product of the moduli that the remainders give.
pub fn crt(bases: &[i64], nums: &[i64]) -> (r: i64)
    requires
        crt_model(bases@, nums@) is Some,
    ensures
        Some(r) == crt_model(bases@, nums@),
{
    checked_crt(bases, nums).unwrap()
}

/// Once a step has left what the machine can hold, no later one comes back.
pub proof fn lemma_fold_stays_none(
    bases: Seq<i64>,
    nums: Seq<i64>,
    product: int,
    k: nat,
    later: nat,
)
    requires
        k <= later,
        crt_fold(bases, nums, product, k) is None,
    ensures
        crt_fold(bases, nums, product, later) is None,
    decreases later,
{
    if k < later {
        lemma_fold_stays_none(bases, nums, product, k, (later - 1) as nat);
    }
}

} // verus!
