//! Signs, base-ten digits, and digit sequences read as unsigned integers.
use vstd::prelude::*;
use vstd::arithmetic::div_mod::{lemma_fundamental_div_mod, lemma_mod_multiples_vanish};
use vstd::slice::{slice_subrange, slice_to_vec};

use crate::err::InvalidDigitError;

verus! {

/// Whether a number is positive or negative.
#[derive(Copy, Clone, Debug, PartialEq, Eq, PartialOrd, Ord, Hash, Default, Structural)]
pub enum Sign {
    #[default]
    Positive,
    Negative,
}

impl Sign {
    /// The text written in front of a number of this sign: nothing, or `-`.
    pub open spec fn text(self) -> Seq<char> {
        match self {
            Sign::Positive => Seq::empty(),
            Sign::Negative => seq!['-'],
        }
    }

    /// Renders the sign as it is written in front of a number.
    pub fn to_string(&self) -> (r: String)
        ensures
            r@ == self.text(),
    {
        let mut s = String::new();
        if let Sign::Negative = self {
            s.append("-");
            proof {
                reveal_strlit("-");
            }
        }
        s
    }
}

/// A base-ten digit, `0`--`9`.
#[derive(Copy, Clone, Debug, PartialEq, Eq, PartialOrd, Ord, Hash, Default, Structural)]
pub enum Digit {
    #[default]
    Zero,
    One,
    Two,
    Three,
    Four,
    Five,
    Six,
    Seven,
    Eight,
    Nine,
}

impl Digit {
    /// The smallest value of a digit.
    pub const MIN: u8 = 0;

    /// The largest value of a digit.
    pub const MAX: u8 = 9;

    /// The number this digit stands for.
    pub open spec fn value(self) -> nat {
        match self {
            Digit::Zero => 0,
            Digit::One => 1,
            Digit::Two => 2,
            Digit::Three => 3,
            Digit::Four => 4,
            Digit::Five => 5,
            Digit::Six => 6,
            Digit::Seven => 7,
            Digit::Eight => 8,
            Digit::Nine => 9,
        }
    }

    /// The digit that stands for `n`, for `n` below ten.
    pub open spec fn from_value(n: nat) -> Digit
        recommends
            n < 10,
    {
        if n == 0 {
            Digit::Zero
        } else if n == 1 {
            Digit::One
        } else if n == 2 {
            Digit::Two
        } else if n == 3 {
            Digit::Three
        } else if n == 4 {
            Digit::Four
        } else if n == 5 {
            Digit::Five
        } else if n == 6 {
            Digit::Six
        } else if n == 7 {
            Digit::Seven
        } else if n == 8 {
            Digit::Eight
        } else {
            Digit::Nine
        }
    }

    /// The numeral character of this digit.
    pub open spec fn to_char(self) -> char {
        match self {
            Digit::Zero => '0',
            Digit::One => '1',
            Digit::Two => '2',
            Digit::Three => '3',
            Digit::Four => '4',
            Digit::Five => '5',
            Digit::Six => '6',
            Digit::Seven => '7',
            Digit::Eight => '8',
            Digit::Nine => '9',
        }
    }

    /// The digit whose numeral is `c`, if `c` is one of `0`--`9`.
    pub open spec fn of_char(c: char) -> Option<Digit> {
        if c == '0' {
            Some(Digit::Zero)
        } else if c == '1' {
            Some(Digit::One)
        } else if c == '2' {
            Some(Digit::Two)
        } else if c == '3' {
            Some(Digit::Three)
        } else if c == '4' {
            Some(Digit::Four)
        } else if c == '5' {
            Some(Digit::Five)
        } else if c == '6' {
            Some(Digit::Six)
        } else if c == '7' {
            Some(Digit::Seven)
        } else if c == '8' {
            Some(Digit::Eight)
        } else if c == '9' {
            Some(Digit::Nine)
        } else {
            None
        }
    }

    /// Creates the digit that stands for `digit`.
    ///
    /// Returns [`InvalidDigitError`] if `digit` is greater than nine.
    pub fn new(digit: u8) -> (r: Result<Digit, InvalidDigitError>)
        ensures
            digit <= 9 ==> r == Ok::<Digit, InvalidDigitError>(Digit::from_value(digit as nat)),
            digit > 9 ==> r == Err::<Digit, InvalidDigitError>(InvalidDigitError),
    {
        if digit <= Self::MAX {
            Ok(Self::below_ten(digit))
        } else {
            Err(InvalidDigitError)
        }
    }

    /// The digit that stands for `n`.
    pub(crate) fn below_ten(n: u8) -> (d: Digit)
        requires
            n < 10,
        ensures
            d == Digit::from_value(n as nat),
            d.value() == n,
    {
        match n {
            0 => Digit::Zero,
            1 => Digit::One,
            2 => Digit::Two,
            3 => Digit::Three,
            4 => Digit::Four,
            5 => Digit::Five,
            6 => Digit::Six,
            7 => Digit::Seven,
            8 => Digit::Eight,
            _ => Digit::Nine,
        }
    }

    /// The number this digit stands for.
    pub fn get(&self) -> (r: u8)
        ensures
            r == self.value(),
    {
        match self {
            Digit::Zero => 0,
            Digit::One => 1,
            Digit::Two => 2,
            Digit::Three => 3,
            Digit::Four => 4,
            Digit::Five => 5,
            Digit::Six => 6,
            Digit::Seven => 7,
            Digit::Eight => 8,
            Digit::Nine => 9,
        }
    }
}

impl TryFrom<u8> for Digit {
    type Error = InvalidDigitError;

    fn try_from(value: u8) -> (r: Result<Self, Self::Error>) {
        Self::new(value)
    }
}

impl vstd::std_specs::convert::TryFromSpecImpl<u8> for Digit {
    open spec fn obeys_try_from_spec() -> bool {
        true
    }

    open spec fn try_from_spec(v: u8) -> Result<Self, InvalidDigitError> {
        if v <= 9 {
            Ok(Digit::from_value(v as nat))
        } else {
            Err(InvalidDigitError)
        }
    }
}

impl TryFrom<u32> for Digit {
    type Error = InvalidDigitError;

    fn try_from(value: u32) -> (r: Result<Self, Self::Error>) {
        if value <= Self::MAX as u32 {
            Ok(Self::below_ten(value as u8))
        } else {
            Err(InvalidDigitError)
        }
    }
}

impl vstd::std_specs::convert::TryFromSpecImpl<u32> for Digit {
    open spec fn obeys_try_from_spec() -> bool {
        true
    }

    open spec fn try_from_spec(v: u32) -> Result<Self, InvalidDigitError> {
        if v <= 9 {
            Ok(Digit::from_value(v as nat))
        } else {
            Err(InvalidDigitError)
        }
    }
}

impl TryFrom<char> for Digit {
    type Error = InvalidDigitError;

    fn try_from(c: char) -> (r: Result<Self, Self::Error>) {
        match c {
            '0' => Ok(Digit::Zero),
            '1' => Ok(Digit::One),
            '2' => Ok(Digit::Two),
            '3' => Ok(Digit::Three),
            '4' => Ok(Digit::Four),
            '5' => Ok(Digit::Five),
            '6' => Ok(Digit::Six),
            '7' => Ok(Digit::Seven),
            '8' => Ok(Digit::Eight),
            '9' => Ok(Digit::Nine),
            _ => Err(InvalidDigitError),
        }
    }
}

impl vstd::std_specs::convert::TryFromSpecImpl<char> for Digit {
    open spec fn obeys_try_from_spec() -> bool {
        true
    }

    open spec fn try_from_spec(c: char) -> Result<Self, InvalidDigitError> {
        match Digit::of_char(c) {
            Some(d) => Ok(d),
            None => Err(InvalidDigitError),
        }
    }
}

impl From<Digit> for char {
    fn from(digit: Digit) -> (c: char) {
        match digit {
            Digit::Zero => '0',
            Digit::One => '1',
            Digit::Two => '2',
            Digit::Three => '3',
            Digit::Four => '4',
            Digit::Five => '5',
            Digit::Six => '6',
            Digit::Seven => '7',
            Digit::Eight => '8',
            Digit::Nine => '9',
        }
    }
}

impl vstd::std_specs::convert::FromSpecImpl<Digit> for char {
    open spec fn obeys_from_spec() -> bool {
        true
    }

    open spec fn from_spec(digit: Digit) -> char {
        digit.to_char()
    }
}

impl From<Digit> for u8 {
    fn from(digit: Digit) -> (r: u8) {
        digit.get()
    }
}

impl vstd::std_specs::convert::FromSpecImpl<Digit> for u8 {
    open spec fn obeys_from_spec() -> bool {
        true
    }

    open spec fn from_spec(digit: Digit) -> u8 {
        digit.value() as u8
    }
}

impl From<Digit> for u32 {
    fn from(digit: Digit) -> (r: u32) {
        digit.get() as u32
    }
}

impl vstd::std_specs::convert::FromSpecImpl<Digit> for u32 {
    open spec fn obeys_from_spec() -> bool {
        true
    }

    open spec fn from_spec(digit: Digit) -> u32 {
        digit.value() as u32
    }
}

/// `10` raised to the power `n`.
pub open spec fn pow10(n: nat) -> nat
    decreases n,
{
    if n == 0 {
        1
    } else {
        10 * pow10((n - 1) as nat)
    }
}

/// The unsigned integer that `s` spells, most significant digit first.
pub open spec fn digits_value(s: Seq<Digit>) -> nat
    decreases s.len(),
{
    if s.len() == 0 {
        0
    } else {
        digits_value(s.drop_last()) * 10 + s.last().value()
    }
}

/// The shortest digit sequence that spells `n` (no leading zeros; `0` is one zero digit).
pub open spec fn digits_of(n: nat) -> Seq<Digit>
    decreases n,
{
    if n < 10 {
        seq![Digit::from_value(n)]
    } else {
        digits_of(n / 10).push(Digit::from_value(n % 10))
    }
}

/// `n` zero digits.
pub open spec fn zeros(n: nat) -> Seq<Digit> {
    Seq::new(n, |_i: int| Digit::Zero)
}

/// `s` is non-empty and, unless it is a single digit, does not start with a zero.
pub open spec fn is_minimal(s: Seq<Digit>) -> bool {
    s.len() >= 1 && (s.len() == 1 || s[0] != Digit::Zero)
}

pub proof fn lemma_pow10_positive(n: nat)
    ensures
        pow10(n) >= 1,
    decreases n,
{
    if n > 0 {
        lemma_pow10_positive((n - 1) as nat);
    }
}

pub proof fn lemma_pow10_monotonic(a: nat, b: nat)
    requires
        a <= b,
    ensures
        pow10(a) <= pow10(b),
    decreases b,
{
    if a < b {
        lemma_pow10_monotonic(a, (b - 1) as nat);
    }
}

pub proof fn lemma_pow10_add(a: nat, b: nat)
    ensures
        pow10(a + b) == pow10(a) * pow10(b),
    decreases b,
{
    if b == 0 {
        assert(pow10(0) == 1);
    } else {
        lemma_pow10_add(a, (b - 1) as nat);
        assert(pow10(a + b) == 10 * pow10((a + b - 1) as nat));
        assert(pow10(a) * (10 * pow10((b - 1) as nat)) == 10 * (pow10(a) * pow10((b - 1) as nat)))
            by (nonlinear_arith);
    }
}

/// Appending digits shifts the value of the front part left by their count.
pub proof fn lemma_value_concat(a: Seq<Digit>, b: Seq<Digit>)
    ensures
        digits_value(a + b) == digits_value(a) * pow10(b.len()) + digits_value(b),
    decreases b.len(),
{
    if b.len() == 0 {
        assert(a + b =~= a);
        assert(pow10(0) == 1);
        assert(digits_value(b) == 0);
    } else {
        lemma_value_concat(a, b.drop_last());
        assert((a + b).drop_last() =~= a + b.drop_last());
        assert((a + b).last() == b.last());
        let x = digits_value(a);
        let p = pow10((b.len() - 1) as nat);
        let y = digits_value(b.drop_last());
        assert(digits_value(a + b) == (x * p + y) * 10 + b.last().value());
        assert(digits_value(b) == y * 10 + b.last().value());
        assert(pow10(b.len()) == 10 * p);
        assert((x * p + y) * 10 == x * (10 * p) + y * 10) by (nonlinear_arith);
    }
}

pub proof fn lemma_value_single(d: Digit)
    ensures
        digits_value(seq![d]) == d.value(),
{
    assert(seq![d].drop_last() =~= Seq::<Digit>::empty());
    assert(digits_value(Seq::<Digit>::empty()) == 0);
    assert(seq![d].last() == d);
}

pub proof fn lemma_value_zeros(n: nat)
    ensures
        digits_value(zeros(n)) == 0,
    decreases n,
{
    if n > 0 {
        assert(zeros(n).drop_last() =~= zeros((n - 1) as nat));
        lemma_value_zeros((n - 1) as nat);
    }
}

/// A sequence of `k` digits spells a number below `10^k`.
pub proof fn lemma_value_bound(s: Seq<Digit>)
    ensures
        digits_value(s) < pow10(s.len()),
    decreases s.len(),
{
    if s.len() > 0 {
        lemma_value_bound(s.drop_last());
        let v = digits_value(s.drop_last());
        let p = pow10((s.len() - 1) as nat);
        let l = s.last().value();
        assert(v * 10 + l < 10 * p) by (nonlinear_arith)
            requires
                v < p,
                l < 10,
        ;
    }
}

/// A sequence that starts with a non-zero digit spells at least `10^(k-1)`.
pub proof fn lemma_value_leading(s: Seq<Digit>)
    requires
        s.len() >= 1,
        s[0] != Digit::Zero,
    ensures
        digits_value(s) >= pow10((s.len() - 1) as nat),
{
    let rest = s.drop_first();
    assert(seq![s[0]] + rest =~= s);
    lemma_value_concat(seq![s[0]], rest);
    lemma_value_single(s[0]);
    let p = pow10(rest.len());
    assert(s[0].value() * p >= p) by (nonlinear_arith)
        requires
            s[0].value() >= 1,
    ;
}

/// The number `digits_of` spells is the number it was given, and it has no leading zero.
pub proof fn lemma_digits_of(n: nat)
    ensures
        is_minimal(digits_of(n)),
        digits_value(digits_of(n)) == n,
        digits_of(n).last() == Digit::from_value(n % 10),
        n >= 10 ==> digits_of(n).len() >= 2,
    decreases n,
{
    if n < 10 {
        lemma_value_single(Digit::from_value(n));
    } else {
        lemma_digits_of(n / 10);
        let front = digits_of(n / 10);
        let s = digits_of(n);
        assert(s.drop_last() =~= front);
        assert(s[0] == front[0]);
        if n / 10 < 10 {
            assert(front =~= seq![Digit::from_value(n / 10)]);
        }
        assert(n == (n / 10) * 10 + n % 10);
    }
}

/// A sequence without leading zeros is the one `digits_of` gives for its value.
pub proof fn lemma_minimal_unique(s: Seq<Digit>)
    requires
        is_minimal(s),
    ensures
        digits_of(digits_value(s)) == s,
    decreases s.len(),
{
    if s.len() == 1 {
        lemma_value_single(s[0]);
        assert(digits_of(digits_value(s)) =~= s);
    } else {
        let front = s.drop_last();
        assert(front[0] == s[0]);
        lemma_minimal_unique(front);
        lemma_value_leading(front);
        lemma_pow10_positive((front.len() - 1) as nat);
        let v = digits_value(front);
        let l = s.last().value();
        assert((v * 10 + l) / 10 == v && (v * 10 + l) % 10 == l) by (nonlinear_arith)
            requires
                l < 10,
        ;
        assert(digits_of(digits_value(s)) =~= s);
    }
}

/// `digits_of(n)` has at most `k` digits exactly when `n` is below `10^k`.
pub proof fn lemma_digits_of_len(n: nat, k: nat)
    requires
        k >= 1,
    ensures
        digits_of(n).len() <= k <==> n < pow10(k),
{
    lemma_digits_of(n);
    let s = digits_of(n);
    if s.len() <= k {
        lemma_value_bound(s);
        lemma_pow10_monotonic(s.len(), k);
    } else {
        lemma_value_leading(s);
        lemma_pow10_monotonic(k, (s.len() - 1) as nat);
    }
}

/// `10^k` is written as a one followed by `k` zeros.
pub proof fn lemma_digits_of_pow10(k: nat)
    ensures
        digits_of(pow10(k)) == seq![Digit::One] + zeros(k),
{
    let s = seq![Digit::One] + zeros(k);
    lemma_value_concat(seq![Digit::One], zeros(k));
    lemma_value_single(Digit::One);
    lemma_value_zeros(k);
    assert(digits_value(seq![Digit::One]) == 1);
    assert(digits_value(s) == 1 * pow10(k) + 0);
    assert(s[0] == Digit::One);
    lemma_minimal_unique(s);
}

/// An unsigned integer read from a borrowed sequence of digits, most significant first.
#[derive(Copy, Clone, Debug, PartialEq, Eq, PartialOrd, Ord, Hash, Default)]
pub struct DigitSlice<'a>(&'a [Digit]);

impl<'a> View for DigitSlice<'a> {
    type V = Seq<Digit>;

    closed spec fn view(&self) -> Seq<Digit> {
        self.0@
    }
}

impl<'a> DigitSlice<'a> {
    /// Reads `digits` as an unsigned integer.
    pub fn new(digits: &'a [Digit]) -> (r: Self)
        ensures
            r@ == digits@,
    {
        DigitSlice(digits)
    }

    /// Adds `value` to the number and returns the shortest digit sequence of the sum.
    ///
    /// The result may be longer or shorter than `self`: `9 + 1` is `10`, and `009 + 1` is `10`.
    pub fn add(&self, value: u32) -> (r: Vec<Digit>)
        ensures
            r@ == digits_of(digits_value(self@) + value as nat),
    {
        let digits = self.0;
        let ghost total: nat = digits_value(digits@) + value as nat;
        // The low digits of the sum, most significant first; `rest` is what is still to be
        // added above them (the remaining part of `value` and the carry).
        let mut low: Vec<Digit> = Vec::new();
        let mut rest: u64 = value as u64;
        let mut k: usize = digits.len();
        assert(digits@.take(k as int) =~= digits@);
        while k > 0
            invariant
                k <= digits@.len(),
                low@.len() + k == digits@.len(),
                rest <= 0x1_0000_0000,
                digits_value(low@) + pow10(low@.len()) * (digits_value(digits@.take(k as int))
                    + rest) == total,
            decreases k,
        {
            k -= 1;
            let d = digits[k].get();
            let sum: u64 = d as u64 + rest % 10;
            let next = Digit::below_ten((sum % 10) as u8);
            proof {
                let front = digits@.take(k as int);
                assert(digits@.take(k + 1).drop_last() =~= front);
                let vk = digits_value(front);
                let v_old = digits_value(digits@.take(k + 1));
                assert(v_old == vk * 10 + d);
                let new_rest = rest / 10 + sum / 10;
                assert(v_old + rest == 10 * (vk + new_rest) + sum % 10);
                lemma_value_concat(seq![next], low@);
                lemma_value_single(next);
                let p = pow10(low@.len());
                assert(p * (v_old + rest) == (10 * p) * (vk + new_rest) + sum % 10 * p)
                    by (nonlinear_arith)
                    requires
                        v_old + rest == 10 * (vk + new_rest) + sum % 10,
                ;
                assert(seq![next] + low@ == low@.insert(0, next));
            }
            low.insert(0, next);
            rest = rest / 10 + sum / 10;
        }
        assert(digits@.take(0) =~= Seq::<Digit>::empty());
        while rest > 0
            invariant
                digits_value(low@) + pow10(low@.len()) * rest == total,
            decreases rest,
        {
            let next = Digit::below_ten((rest % 10) as u8);
            proof {
                lemma_value_concat(seq![next], low@);
                lemma_value_single(next);
                let p = pow10(low@.len());
                assert(p * rest == (10 * p) * (rest / 10) + rest % 10 * p) by (nonlinear_arith);
                assert(seq![next] + low@ == low@.insert(0, next));
            }
            low.insert(0, next);
            rest = rest / 10;
        }
        if low.len() == 0 {
            low.push(Digit::Zero);
            proof {
                lemma_value_single(Digit::Zero);
            }
        }
        // Drop leading zeros, keeping at least one digit.
        let mut first: usize = 0;
        while first < low.len() - 1 && low[first] == Digit::Zero
            invariant
                low@.len() >= 1,
                first < low@.len(),
                forall|j: int| 0 <= j < first ==> low@[j] == Digit::Zero,
            decreases low@.len() - first,
        {
            first += 1;
        }
        let r = slice_to_vec(slice_subrange(low.as_slice(), first, low.len()));
        proof {
            let skipped = low@.subrange(first as int, low@.len() as int);
            assert(low@.take(first as int) =~= zeros(first as nat));
            assert(low@ =~= low@.take(first as int) + skipped);
            lemma_value_concat(zeros(first as nat), skipped);
            lemma_value_zeros(first as nat);
            lemma_minimal_unique(skipped);
        }
        r
    }

    /// The digits read.
    pub fn get(&self) -> (r: &'a [Digit])
        ensures
            r@ == self@,
    {
        self.0
    }

    /// Copies the digits into a vector.
    pub fn into_boxed(self) -> (r: Vec<Digit>)
        ensures
            r@ == self@,
    {
        slice_to_vec(self.0)
    }
}

/// The number the digits spell, reduced modulo `2^32` as a cast to `u32` would truncate it.
pub open spec fn digits_value_u32(s: Seq<Digit>) -> u32 {
    (digits_value(s) % 0x1_0000_0000) as u32
}

impl<'a> From<&DigitSlice<'a>> for u32 {
    fn from(digits: &DigitSlice<'a>) -> (r: u32) {
        let s = digits.0;
        let mut value: u64 = 0;
        let mut i: usize = 0;
        while i < s.len()
            invariant
                i <= s@.len(),
                value == digits_value(s@.take(i as int)) % 0x1_0000_0000,
            decreases s@.len() - i,
        {
            let d = s[i].get();
            proof {
                let m: int = 0x1_0000_0000;
                let x: int = digits_value(s@.take(i as int)) as int;
                let v: int = value as int;
                assert(s@.take(i + 1).drop_last() =~= s@.take(i as int));
                assert(digits_value(s@.take(i + 1)) == x * 10 + d);
                lemma_fundamental_div_mod(x, m);
                assert(x * 10 + d == m * ((x / m) * 10) + (v * 10 + d)) by (nonlinear_arith)
                    requires
                        x == m * (x / m) + v,
                ;
                lemma_mod_multiples_vanish((x / m) * 10, v * 10 + d, m);
            }
            value = (value * 10 + d as u64) % 0x1_0000_0000;
            i += 1;
        }
        assert(s@.take(s@.len() as int) =~= s@);
        value as u32
    }
}

impl<'a> vstd::std_specs::convert::FromSpecImpl<&DigitSlice<'a>> for u32 {
    open spec fn obeys_from_spec() -> bool {
        true
    }

    open spec fn from_spec(digits: &DigitSlice<'a>) -> u32 {
        digits_value_u32(digits@)
    }
}

impl<'a> From<DigitSlice<'a>> for u32 {
    fn from(digits: DigitSlice<'a>) -> (r: u32) {
        u32::from(&digits)
    }
}

impl<'a> vstd::std_specs::convert::FromSpecImpl<DigitSlice<'a>> for u32 {
    open spec fn obeys_from_spec() -> bool {
        true
    }

    open spec fn from_spec(digits: DigitSlice<'a>) -> u32 {
        digits_value_u32(digits@)
    }
}

} // verus!
