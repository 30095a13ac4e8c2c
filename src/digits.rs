//! Finite decimal numbers held as a sign, a list of base-ten digits, and the index of the dot,
//! with exact rounding to a digit or to a place.
use vstd::prelude::*;
use vstd::slice::{slice_subrange, slice_to_vec};
use vstd::std_specs::iter::IteratorSpec;

use crate::digit::{
    digits_of, digits_value, lemma_digits_of, lemma_digits_of_len, lemma_digits_of_pow10,
    lemma_pow10_add, lemma_value_bound, lemma_value_concat,
    lemma_value_zeros, pow10, zeros, Digit, DigitSlice, Sign,
};
use crate::err::{InvalidDigitsPartsError, InvalidFloatError, OutOfBoundsPlaceError};

verus! {

broadcast use vstd::string::group_string_axioms;

/// What a [`Digits`] holds: its sign, the index of the digit the dot stands before, and the
/// digits, most significant first.
pub struct DigitsView {
    pub sign: Sign,
    pub dot: nat,
    pub digits: Seq<Digit>,
}

impl DigitsView {
    /// At least one digit, the dot within or just after the digits, and a digit count that an
    /// `isize` can hold.
    pub open spec fn wf(self) -> bool {
        &&& self.digits.len() > 0
        &&& self.dot <= self.digits.len()
        &&& self.digits.len() <= isize::MAX
    }

    /// Zero as it results from rounding everything away: a single zero digit before the dot.
    pub open spec fn zero() -> DigitsView {
        DigitsView { sign: Sign::Positive, dot: 0, digits: seq![Digit::Zero] }
    }

    /// The number of digits after the dot.
    pub open spec fn fraction_len(self) -> nat {
        (self.digits.len() - self.dot) as nat
    }

    /// `self` and `other` stand for the same signed number, however many zeros either carries
    /// after its dot.
    pub open spec fn same_number(self, other: DigitsView) -> bool {
        &&& self.sign == other.sign
        &&& digits_value(self.digits) * pow10(other.fraction_len()) == digits_value(other.digits)
            * pow10(self.fraction_len())
    }
}

/// The place of digit index `i` in a number whose dot stands before index `dot`: `-1` for the
/// ones, `-2` for the tens, `1` for the tenths, `2` for the hundredths.
pub open spec fn place_of_index(dot: nat, i: int) -> int {
    if i >= dot {
        i - dot + 1
    } else {
        i - dot
    }
}

/// The digit index of place `p` in a number whose dot stands before index `dot`.
pub open spec fn index_of_place(dot: nat, p: int) -> int {
    if p > 0 {
        dot + p - 1
    } else {
        dot + p
    }
}

/// Whether rounding `s` so that index `i` is its last digit adds one at `i`: the digit after
/// `i` (zero if there is none) is above five, or is five and the digit at `i` is odd.
pub open spec fn rounds_up(s: Seq<Digit>, i: nat) -> bool {
    let next = if i + 1 < s.len() {
        s[i + 1 as int].value()
    } else {
        0
    };
    next > 5 || (next == 5 && s[i as int].value() % 2 == 1)
}

/// `s` with zeros put in front until it is `width` digits long.
pub open spec fn pad_left(s: Seq<Digit>, width: nat) -> Seq<Digit> {
    if s.len() < width {
        zeros((width - s.len()) as nat) + s
    } else {
        s
    }
}

/// `d` rounded half to even so that digit index `i` is its last significant digit.
///
/// The digits up to `i` are kept, raised by one when [`rounds_up`] says so (a carry out of the
/// first digit adds a digit in front and moves the dot right by one), and the places between
/// `i` and the dot are filled with zeros.
pub open spec fn rounded_to_digit(d: DigitsView, i: nat) -> DigitsView {
    if i >= d.digits.len() {
        d
    } else {
        let keep = d.digits.take(i + 1 as int);
        let raised = digits_of(digits_value(keep) + 1);
        let up = rounds_up(d.digits, i);
        let trailing: nat = if i < d.dot {
            (d.dot - 1 - i) as nat
        } else {
            0
        };
        DigitsView {
            sign: d.sign,
            dot: if up && raised.len() > i + 1 {
                d.dot + 1
            } else {
                d.dot
            },
            digits: (if up {
                pad_left(raised, i + 1)
            } else {
                keep
            }) + zeros(trailing),
        }
    }
}

/// `d` rounded to place `p`.
///
/// One place left of the first digit, the number becomes a one followed by zeros when that
/// first digit is above five, and zero otherwise; further left it becomes zero; at or right of
/// the last digit it is unchanged; elsewhere it is rounded to the digit at that place.
pub open spec fn rounded_to_place(d: DigitsView, p: int) -> DigitsView {
    let idx = index_of_place(d.dot, p);
    if idx == -1 {
        if d.digits[0].value() > 5 {
            DigitsView { sign: d.sign, dot: d.dot + 1, digits: seq![Digit::One] + zeros(d.dot) }
        } else {
            DigitsView::zero()
        }
    } else if idx < -1 {
        DigitsView::zero()
    } else if idx >= d.digits.len() {
        d
    } else {
        rounded_to_digit(d, idx as nat)
    }
}

/// The number of zero digits that `s` starts with.
pub open spec fn leading_zeros(s: Seq<Digit>) -> nat
    decreases s.len(),
{
    if s.len() == 0 {
        0
    } else if s[0] == Digit::Zero {
        1 + leading_zeros(s.drop_first())
    } else {
        0
    }
}

/// The index of the last digit kept when `s` is reported to one or two significant figures.
///
/// That is the first non-zero digit, or the digit after it when the first non-zero digit is a
/// one or a two and another digit follows; index zero when every digit is zero.
pub open spec fn last_significant_index(s: Seq<Digit>) -> nat {
    let first = leading_zeros(s);
    if first >= s.len() {
        0
    } else if (s[first as int] == Digit::One || s[first as int] == Digit::Two) && first + 1
        < s.len() {
        first + 1
    } else {
        first
    }
}

/// `leading_zeros` is the index of the first non-zero digit, or the length if there is none.
pub proof fn lemma_leading_zeros(s: Seq<Digit>, k: nat)
    requires
        k <= s.len(),
        forall|j: int| 0 <= j < k ==> s[j] == Digit::Zero,
        k == s.len() || s[k as int] != Digit::Zero,
    ensures
        leading_zeros(s) == k,
    decreases k,
{
    if k > 0 {
        lemma_leading_zeros(s.drop_first(), (k - 1) as nat);
    }
}

/// The characters of the digits of `s`.
pub open spec fn digits_text(s: Seq<Digit>) -> Seq<char> {
    s.map_values(|d: Digit| d.to_char())
}

/// The decimal text of `d`: the sign, then the digits with a dot before index `d.dot`.
///
/// A single zero digit with the dot before it reads `0`; other numbers with the dot before
/// their first digit read `0.` and then the digits; a dot after the last digit is not written.
pub open spec fn render(d: DigitsView) -> Seq<char> {
    d.sign.text() + if d.dot == 0 && d.digits == seq![Digit::Zero] {
        seq!['0']
    } else if d.dot == 0 {
        seq!['0', '.'] + digits_text(d.digits)
    } else if d.dot < d.digits.len() {
        digits_text(d.digits.take(d.dot as int)) + seq!['.'] + digits_text(
            d.digits.skip(d.dot as int),
        )
    } else {
        digits_text(d.digits)
    }
}

/// The digit of numeral `c` (zero for a character that is no numeral).
pub open spec fn numeral_digit(c: char) -> Digit {
    match Digit::of_char(c) {
        Some(d) => d,
        None => Digit::Zero,
    }
}

/// Every character of `cs` is one of `0`--`9`.
pub open spec fn all_numerals(cs: Seq<char>) -> bool {
    forall|j: int| 0 <= j < cs.len() ==> Digit::of_char(#[trigger] cs[j]) is Some
}

/// The digits whose numerals `cs` holds.
pub open spec fn numerals(cs: Seq<char>) -> Seq<Digit> {
    cs.map_values(|c: char| numeral_digit(c))
}

/// `t` starts with a minus sign.
pub open spec fn has_minus(t: Seq<char>) -> bool {
    t.len() > 0 && t[0] == '-'
}

/// `t` without its minus sign, if it has one.
pub open spec fn unsigned_part(t: Seq<char>) -> Seq<char> {
    if has_minus(t) {
        t.drop_first()
    } else {
        t
    }
}

/// The index of the first `.` in `b`, or its length if it has none.
pub open spec fn dot_position(b: Seq<char>) -> nat
    decreases b.len(),
{
    if b.len() == 0 {
        0
    } else if b[0] == '.' {
        0
    } else {
        1 + dot_position(b.drop_first())
    }
}

/// `t` is an optional minus sign, one or more numerals, and optionally a dot followed by one
/// or more numerals: the form in which a finite `f64` displays itself.
pub open spec fn is_decimal_text(t: Seq<char>) -> bool {
    let b = unsigned_part(t);
    let k = dot_position(b);
    &&& 0 < k
    &&& all_numerals(b.take(k as int))
    &&& k < b.len() ==> k + 1 < b.len() && all_numerals(b.skip(k + 1 as int))
}

/// The number that decimal text `t` spells: the dot stands where the text has it, or after
/// the last digit.
pub open spec fn parsed(t: Seq<char>) -> DigitsView {
    let b = unsigned_part(t);
    let k = dot_position(b);
    DigitsView {
        sign: if has_minus(t) {
            Sign::Negative
        } else {
            Sign::Positive
        },
        dot: k,
        digits: if k < b.len() {
            numerals(b.take(k as int)) + numerals(b.skip(k + 1 as int))
        } else {
            numerals(b)
        },
    }
}

/// The characters that `f64` displays for NaN, without a sign.
pub open spec fn nan_text() -> Seq<char> {
    seq!['N', 'a', 'N']
}

/// The characters that `f64` displays for an infinity, without a sign.
pub open spec fn infinity_text() -> Seq<char> {
    seq!['i', 'n', 'f']
}

/// `dot_position` is the index of the first dot, or the length when there is none.
pub proof fn lemma_dot_position(b: Seq<char>)
    ensures
        dot_position(b) <= b.len(),
        dot_position(b) < b.len() ==> b[dot_position(b) as int] == '.',
        forall|j: int| 0 <= j < dot_position(b) ==> b[j] != '.',
    decreases b.len(),
{
    if b.len() > 0 && b[0] != '.' {
        lemma_dot_position(b.drop_first());
        assert forall|j: int| 0 <= j < dot_position(b) implies b[j] != '.' by {
            if j > 0 {
                assert(b[j] == b.drop_first()[j - 1]);
            }
        }
    }
}

/// The first dot of `b` is at `k` when none comes before `k` and `k` is a dot or the end.
pub proof fn lemma_dot_position_at(b: Seq<char>, k: nat)
    requires
        k <= b.len(),
        forall|j: int| 0 <= j < k ==> b[j] != '.',
        k == b.len() || b[k as int] == '.',
    ensures
        dot_position(b) == k,
    decreases k,
{
    if k > 0 {
        lemma_dot_position_at(b.drop_first(), (k - 1) as nat);
    }
}

/// The position of a digit relative to the dot, independent of any one number's layout.
///
/// Negative places count leftwards from the ones (`-1`), positive places count rightwards from
/// the tenths (`1`); there is no place zero.
#[derive(Copy, Clone, Debug, PartialEq, Eq, PartialOrd, Ord, Hash)]
pub struct Place {
    value: isize,
}

impl View for Place {
    type V = int;

    closed spec fn view(&self) -> int {
        self.value as int
    }
}

impl Place {
    #[verifier::type_invariant]
    spec fn is_nonzero(self) -> bool {
        self.value != 0
    }

    /// The place `value`, or `None` for zero.
    pub fn new(value: isize) -> (r: Option<Place>)
        ensures
            r is None <==> value == 0,
            r matches Some(p) ==> p@ == value,
    {
        if value == 0 {
            None
        } else {
            Some(Place { value })
        }
    }

    /// The place as a signed number.
    pub fn get(self) -> (r: isize)
        ensures
            r == self@,
            r != 0,
    {
        proof {
            use_type_invariant(&self);
        }
        self.value
    }
}

/// Appends `n` zero digits to `v`.
fn push_zeros(v: &mut Vec<Digit>, n: usize)
    ensures
        final(v)@ == old(v)@ + zeros(n as nat),
{
    let mut k: usize = 0;
    while k < n
        invariant
            k <= n,
            v@ == old(v)@ + zeros(k as nat),
        decreases n - k,
    {
        v.push(Digit::Zero);
        k += 1;
        assert(v@ =~= old(v)@ + zeros(k as nat));
    }
}

/// The characters of `text`.
fn chars_of(text: &str) -> (r: Vec<char>)
    ensures
        r@ == text@,
{
    let mut it = text.chars();
    let mut cs: Vec<char> = Vec::new();
    loop
        invariant
            cs@ + it.remaining() == text@,
            it.obeys_prophetic_iter_laws(),
            it.decrease() is Some,
        ensures
            cs@ == text@,
        decreases it.decrease()->0,
    {
        match it.next() {
            Some(c) => {
                cs.push(c);
            },
            None => {
                assert(cs@ + it.remaining() =~= cs@);
                break;
            },
        }
    }
    cs
}

/// The digits whose numerals `cs` holds from `from` up to `to`, if all of them are numerals.
fn parse_numerals(cs: &Vec<char>, from: usize, to: usize) -> (r: Option<Vec<Digit>>)
    requires
        from <= to <= cs@.len(),
    ensures
        r is Some <==> all_numerals(cs@.subrange(from as int, to as int)),
        r matches Some(v) ==> v@ == numerals(cs@.subrange(from as int, to as int)),
{
    let ghost part = cs@.subrange(from as int, to as int);
    let mut digits: Vec<Digit> = Vec::new();
    let mut i: usize = from;
    while i < to
        invariant
            from <= i <= to <= cs@.len(),
            part == cs@.subrange(from as int, to as int),
            all_numerals(cs@.subrange(from as int, i as int)),
            digits@ == numerals(cs@.subrange(from as int, i as int)),
        decreases to - i,
    {
        match Digit::try_from(cs[i]) {
            Ok(d) => {
                digits.push(d);
                i += 1;
                assert(digits@ =~= numerals(cs@.subrange(from as int, i as int)));
            },
            Err(_) => {
                assert(part[i - from] == cs@[i as int]);
                return None;
            },
        }
    }
    Some(digits)
}

/// Appends the numerals of `digits` from `from` up to `to` to `s`.
fn append_digits(s: &mut String, digits: &Vec<Digit>, from: usize, to: usize)
    requires
        from <= to <= digits@.len(),
    ensures
        final(s)@ == old(s)@ + digits_text(digits@.subrange(from as int, to as int)),
{
    let mut i: usize = from;
    while i < to
        invariant
            from <= i <= to <= digits@.len(),
            s@ == old(s)@ + digits_text(digits@.subrange(from as int, i as int)),
        decreases to - i,
    {
        let numeral = numeral_text(digits[i]);
        s.append(numeral);
        i += 1;
        assert(s@ =~= old(s)@ + digits_text(digits@.subrange(from as int, i as int)));
    }
}

/// The numeral of `d` as text.
fn numeral_text(d: Digit) -> (r: &'static str)
    ensures
        r@ == seq![d.to_char()],
{
    match d {
        Digit::Zero => {
            proof {
                reveal_strlit("0");
            }
            "0"
        },
        Digit::One => {
            proof {
                reveal_strlit("1");
            }
            "1"
        },
        Digit::Two => {
            proof {
                reveal_strlit("2");
            }
            "2"
        },
        Digit::Three => {
            proof {
                reveal_strlit("3");
            }
            "3"
        },
        Digit::Four => {
            proof {
                reveal_strlit("4");
            }
            "4"
        },
        Digit::Five => {
            proof {
                reveal_strlit("5");
            }
            "5"
        },
        Digit::Six => {
            proof {
                reveal_strlit("6");
            }
            "6"
        },
        Digit::Seven => {
            proof {
                reveal_strlit("7");
            }
            "7"
        },
        Digit::Eight => {
            proof {
                reveal_strlit("8");
            }
            "8"
        },
        Digit::Nine => {
            proof {
                reveal_strlit("9");
            }
            "9"
        },
    }
}

/// A number split at the dot: its sign, the digits before the dot, and the digits after it.
///
/// `123.456` splits into `(Positive, [1, 2, 3], [4, 5, 6])`.
pub type SplitFloat = (Sign, Vec<Digit>, Vec<Digit>);

/// A finite decimal number: a sign, a non-empty list of digits, and the index of the digit
/// that the dot stands before.
///
/// `-105.2060` is held as the sign `Negative`, the digits `[1, 0, 5, 2, 0, 6, 0]` and the
/// dot `3`.
#[derive(Clone, Debug, PartialEq, Eq, PartialOrd, Ord, Hash)]
pub struct Digits {
    sign: Sign,
    dot: usize,
    digits: Vec<Digit>,
}

impl View for Digits {
    type V = DigitsView;

    closed spec fn view(&self) -> DigitsView {
        DigitsView { sign: self.sign, dot: self.dot as nat, digits: self.digits@ }
    }
}

impl Digits {
    /// A copy of `self`.
    fn duplicate(&self) -> (r: Digits)
        ensures
            r@ == self@,
    {
        Digits { sign: self.sign, dot: self.dot, digits: slice_to_vec(self.digits.as_slice()) }
    }

    /// Parses the decimal text of a finite floating-point number, as `f64` displays it
    /// (`-105.206`, `0.03`, `1024`).
    ///
    /// Returns [`InvalidFloatError::Nan`] for `NaN`, [`InvalidFloatError::Infinite`] for `inf`
    /// and `-inf`, and [`InvalidFloatError::Malformed`] for any other text that is not an
    /// optional minus sign, numerals, and optionally a dot and more numerals.
    pub fn new(text: &str) -> (r: Result<Digits, InvalidFloatError>)
        requires
            text@.len() <= isize::MAX,
        ensures
            unsigned_part(text@) == nan_text() ==> r == Err::<Digits, InvalidFloatError>(
                InvalidFloatError::Nan,
            ),
            unsigned_part(text@) == infinity_text() ==> r == Err::<Digits, InvalidFloatError>(
                InvalidFloatError::Infinite,
            ),
            is_decimal_text(text@) ==> (r matches Ok(d) && d@ == parsed(text@)),
            !is_decimal_text(text@) && unsigned_part(text@) != nan_text() && unsigned_part(text@)
                != infinity_text() ==> r == Err::<Digits, InvalidFloatError>(
                InvalidFloatError::Malformed,
            ),
            r matches Ok(d) ==> d@.wf(),
    {
        let cs = chars_of(text);
        let len = cs.len();
        let negative = len > 0 && cs[0] == '-';
        let sign = if negative {
            Sign::Negative
        } else {
            Sign::Positive
        };
        let start: usize = if negative {
            1
        } else {
            0
        };
        let ghost b = unsigned_part(text@);
        assert(b =~= cs@.subrange(start as int, len as int));
        if len - start == 3 && cs[start] == 'N' && cs[start + 1] == 'a' && cs[start + 2] == 'N' {
            proof {
                assert(b =~= nan_text());
                lemma_dot_position_at(b, 3);
                assert(b.take(3)[0] == 'N');
            }
            return Err(InvalidFloatError::Nan);
        }
        if len - start == 3 && cs[start] == 'i' && cs[start + 1] == 'n' && cs[start + 2] == 'f' {
            proof {
                assert(b =~= infinity_text());
                lemma_dot_position_at(b, 3);
                assert(b.take(3)[0] == 'i');
            }
            return Err(InvalidFloatError::Infinite);
        }
        proof {
            if b == nan_text() {
                assert(b[0] == 'N' && b[1] == 'a' && b[2] == 'N');
            }
            if b == infinity_text() {
                assert(b[0] == 'i' && b[1] == 'n' && b[2] == 'f');
            }
        }
        // Find the first dot.
        let mut dot: usize = start;
        while dot < len && cs[dot] != '.'
            invariant
                start <= dot <= len == cs@.len(),
                forall|j: int| start <= j < dot ==> cs@[j] != '.',
            decreases len - dot,
        {
            dot += 1;
        }
        let k = dot - start;
        proof {
            lemma_dot_position_at(b, k as nat);
            assert(b.take(k as int) =~= cs@.subrange(start as int, dot as int));
        }
        if k == 0 {
            return Err(InvalidFloatError::Malformed);
        }
        let whole = match parse_numerals(&cs, start, dot) {
            Some(v) => v,
            None => {
                return Err(InvalidFloatError::Malformed);
            },
        };
        if dot == len {
            assert(b.take(k as int) =~= b);
            return Ok(Digits { sign, dot: k, digits: whole });
        }
        if dot + 1 == len {
            return Err(InvalidFloatError::Malformed);
        }
        assert(b.skip(k + 1 as int) =~= cs@.subrange(dot + 1, len as int));
        let mut fraction = match parse_numerals(&cs, dot + 1, len) {
            Some(v) => v,
            None => {
                return Err(InvalidFloatError::Malformed);
            },
        };
        let mut digits = whole;
        digits.append(&mut fraction);
        Ok(Digits { sign, dot: k, digits })
    }

    /// The decimal text of the number (see [`render`]).
    pub fn to_string(&self) -> (r: String)
        requires
            self@.wf(),
        ensures
            r@ == render(self@),
    {
        let mut s = self.sign.to_string();
        let len = self.digits.len();
        if self.dot == 0 && len == 1 && self.digits[0] == Digit::Zero {
            // Zero reads `0`, not `0.0`.
            s.append("0");
            proof {
                reveal_strlit("0");
                assert(self@.digits =~= seq![Digit::Zero]);
            }
            return s;
        }
        if self.dot == 0 {
            s.append("0.");
            proof {
                reveal_strlit("0.");
            }
            append_digits(&mut s, &self.digits, 0, len);
            assert(self@.digits.subrange(0, len as int) =~= self@.digits);
            return s;
        }
        append_digits(&mut s, &self.digits, 0, self.dot);
        assert(self@.digits.subrange(0, self.dot as int) =~= self@.digits.take(self.dot as int));
        if self.dot < len {
            s.append(".");
            proof {
                reveal_strlit(".");
            }
            append_digits(&mut s, &self.digits, self.dot, len);
            assert(self@.digits.subrange(self.dot as int, len as int) =~= self@.digits.skip(
                self.dot as int,
            ));
        } else {
            assert(self@.digits.take(self.dot as int) =~= self@.digits);
        }
        s
    }

    /// The decimal text of the number followed by a space and the unit symbol `symbol`.
    pub fn to_string_with_units(&self, symbol: &str) -> (r: String)
        requires
            self@.wf(),
        ensures
            r@ == render(self@) + seq![' '] + symbol@,
    {
        let mut s = self.to_string();
        s.append(" ");
        proof {
            reveal_strlit(" ");
        }
        s.append(symbol);
        s
    }

    /// Builds a number from its parts.
    ///
    /// Returns [`InvalidDigitsPartsError::EmptyDigitsList`] if `digits` is empty, and otherwise
    /// [`InvalidDigitsPartsError::OutOfBoundsDot`] if `dot` is greater than its length.
    pub fn from_parts(sign: Sign, dot: usize, digits: Vec<Digit>) -> (r: Result<
        Digits,
        InvalidDigitsPartsError,
    >)
        requires
            digits@.len() <= isize::MAX,
        ensures
            digits@.len() == 0 ==> r == Err::<Digits, InvalidDigitsPartsError>(
                InvalidDigitsPartsError::EmptyDigitsList,
            ),
            digits@.len() > 0 && dot > digits@.len() ==> r == Err::<
                Digits,
                InvalidDigitsPartsError,
            >(InvalidDigitsPartsError::OutOfBoundsDot),
            digits@.len() > 0 && dot <= digits@.len() ==> (r matches Ok(d) && d@ == (DigitsView {
                sign,
                dot: dot as nat,
                digits: digits@,
            })),
    {
        if digits.len() == 0 {
            return Err(InvalidDigitsPartsError::EmptyDigitsList);
        }
        if dot > digits.len() {
            return Err(InvalidDigitsPartsError::OutOfBoundsDot);
        }
        Ok(Digits { sign, dot, digits })
    }

    /// Builds a number from parts that the caller has already checked.
    pub fn from_parts_unchecked(sign: Sign, dot: usize, digits: Vec<Digit>) -> (r: Digits)
        requires
            (DigitsView { sign, dot: dot as nat, digits: digits@ }).wf(),
        ensures
            r@ == (DigitsView { sign, dot: dot as nat, digits: digits@ }),
    {
        Digits { sign, dot, digits }
    }

    /// Splits the number at the dot into its sign, the digits before the dot, and the digits
    /// after it.
    pub fn to_split(&self) -> (r: SplitFloat)
        requires
            self@.wf(),
        ensures
            r.0 == self@.sign,
            r.1@ == self@.digits.take(self@.dot as int),
            r.2@ == self@.digits.skip(self@.dot as int),
    {
        let digits = self.digits.as_slice();
        let lhs = slice_to_vec(slice_subrange(digits, 0, self.dot));
        let rhs = slice_to_vec(slice_subrange(digits, self.dot, digits.len()));
        (self.sign, lhs, rhs)
    }

    /// The number of digits held.
    pub fn digit_count(&self) -> (r: usize)
        ensures
            r == self@.digits.len(),
    {
        self.digits.len()
    }

    /// Whether the number is held as a single digit one before the dot.
    pub fn is_one(&self) -> (r: bool)
        ensures
            r == (self@.dot == 1 && self@.digits == seq![Digit::One]),
    {
        let r = self.dot == 1 && self.digits.len() == 1 && self.digits[0] == Digit::One;
        assert(r ==> self@.digits =~= seq![Digit::One]);
        r
    }

    /// The index of the last digit kept when the number is reported to one or two significant
    /// figures.
    ///
    /// This is the first non-zero digit, or the digit after it when the first non-zero digit is
    /// a one or a two and another digit follows. If every digit is zero it is index zero.
    pub fn last_significant_digit(&self) -> (r: usize)
        ensures
            r == last_significant_index(self@.digits),
            self@.digits.len() > 0 ==> r < self@.digits.len(),
    {
        let len = self.digits.len();
        let mut first: usize = 0;
        while first < len && self.digits[first] == Digit::Zero
            invariant
                first <= len == self@.digits.len(),
                forall|j: int| 0 <= j < first ==> self@.digits[j] == Digit::Zero,
            decreases len - first,
        {
            first += 1;
        }
        proof {
            lemma_leading_zeros(self@.digits, first as nat);
        }
        if first == len {
            0
        } else if (self.digits[first] == Digit::One || self.digits[first] == Digit::Two) && first
            + 1 < len {
            first + 1
        } else {
            first
        }
    }

    /// The place of the last digit kept when the number is reported to one or two significant
    /// figures (see [`Self::last_significant_digit`]).
    pub fn last_significant_place(&self) -> (r: Place)
        requires
            self@.wf(),
        ensures
            r@ == place_of_index(self@.dot, last_significant_index(self@.digits) as int),
    {
        self.digit_index_to_place(self.last_significant_digit())
    }

    /// Rounds so that `digit_index` is the last significant digit, half to even.
    ///
    /// An index past the last digit returns the number unchanged. Rounding up may carry out of
    /// the first digit (`999` to `1000`), which moves the dot right by one.
    pub fn round_to_digit(&self, digit_index: usize) -> (r: Digits)
        requires
            self@.wf(),
            self@.digits.len() < isize::MAX,
        ensures
            r@ == rounded_to_digit(self@, digit_index as nat),
            r@.wf(),
    {
        let len = self.digits.len();
        if digit_index >= len {
            return self.duplicate();
        }
        let i = digit_index;
        // Zeros that keep the magnitude when the kept digits end before the dot:
        // `102345` rounded at index 2 keeps `102` and needs `000` after it.
        let trailing_zeros: usize = if i < self.dot {
            self.dot - 1 - i
        } else {
            0
        };
        let last = self.digits[i].get();
        let next = if i + 1 < len {
            self.digits[i + 1].get()
        } else {
            0
        };
        let keep = slice_subrange(self.digits.as_slice(), 0, i + 1);
        assert(keep@ =~= self@.digits.take(i + 1));
        let up = next > 5 || (next == 5 && last % 2 == 1);
        let mut dot = self.dot;
        let mut digits: Vec<Digit>;
        if up {
            let raised = DigitSlice::new(keep).add(1);
            proof {
                lemma_value_bound(keep@);
                lemma_digits_of_len(digits_value(keep@) + 1, (i + 2) as nat);
                assert(pow10((i + 2) as nat) == 10 * pow10((i + 1) as nat));
            }
            if raised.len() > i + 1 {
                // A carry out of the first digit added a digit in front.
                dot = self.dot + 1;
                digits = raised;
            } else if raised.len() < i + 1 {
                // The sum lost the leading zeros of `keep`; put them back.
                digits = Vec::new();
                push_zeros(&mut digits, i + 1 - raised.len());
                let mut raised = raised;
                digits.append(&mut raised);
            } else {
                digits = raised;
            }
        } else {
            digits = slice_to_vec(keep);
        }
        push_zeros(&mut digits, trailing_zeros);
        let r = Digits { sign: self.sign, dot, digits };
        assert(r@ == rounded_to_digit(self@, digit_index as nat));
        r
    }

    /// Rounds to `place`, half to even, as [`rounded_to_place`] describes.
    ///
    /// Unlike a digit index, a place means the same position in every number, so a place
    /// taken from one number can round another.
    pub fn round_to_place(&self, place: Place) -> (r: Digits)
        requires
            self@.wf(),
            self@.digits.len() < isize::MAX,
        ensures
            r@ == rounded_to_place(self@, place@),
            r@.wf(),
    {
        let p = place.get() as i128;
        let offset: i128 = if p > 0 {
            p - 1
        } else {
            p
        };
        let index: i128 = self.dot as i128 + offset;
        if index == -1 {
            // The place just left of the first digit can still receive a carry.
            if self.digits[0].get() > 5 {
                let mut digits: Vec<Digit> = Vec::new();
                digits.push(Digit::One);
                push_zeros(&mut digits, self.dot);
                return Digits { sign: self.sign, dot: self.dot + 1, digits };
            }
            return Digits::default();
        }
        if index < -1 {
            return Digits::default();
        }
        if index >= self.digits.len() as i128 {
            return self.duplicate();
        }
        match self.place_to_digit_index(place) {
            Ok(digit_index) => self.round_to_digit(digit_index),
            Err(_) => self.duplicate(),
        }
    }

    /// The place of digit index `digit_index` of this number.
    pub fn digit_index_to_place(&self, digit_index: usize) -> (r: Place)
        requires
            self@.wf(),
            digit_index < isize::MAX,
        ensures
            r@ == place_of_index(self@.dot, digit_index as int),
    {
        let place = digit_index as isize - self.dot as isize;
        // There is no place zero: the digit right after the dot is place one.
        let value = if digit_index >= self.dot {
            place + 1
        } else {
            place
        };
        Place { value }
    }

    /// The digit index that `place` has in this number.
    ///
    /// Returns [`OutOfBoundsPlaceError`] if the number has no digit at that place.
    pub fn place_to_digit_index(&self, place: Place) -> (r: Result<usize, OutOfBoundsPlaceError>)
        requires
            self@.wf(),
        ensures
            0 <= index_of_place(self@.dot, place@) < self@.digits.len() ==> r == Ok::<
                usize,
                OutOfBoundsPlaceError,
            >(index_of_place(self@.dot, place@) as usize),
            !(0 <= index_of_place(self@.dot, place@) < self@.digits.len()) ==> r == Err::<
                usize,
                OutOfBoundsPlaceError,
            >(OutOfBoundsPlaceError),
    {
        let p = place.get() as i128;
        let offset: i128 = if p > 0 {
            p - 1
        } else {
            p
        };
        let index: i128 = self.dot as i128 + offset;
        if 0 <= index && index < self.digits.len() as i128 {
            Ok(index as usize)
        } else {
            Err(OutOfBoundsPlaceError)
        }
    }
}

/// A measured value and its absolute uncertainty.
pub struct UncertainDigits {
    value: Digits,
    uncertainty: Digits,
}

impl UncertainDigits {
    /// Pairs a measured value with its absolute uncertainty.
    pub fn new(value: Digits, uncertainty: Digits) -> (r: UncertainDigits)
        ensures
            r.value_view() == value@,
            r.uncertainty_view() == uncertainty@,
    {
        UncertainDigits { value, uncertainty }
    }

    /// The measured value.
    pub closed spec fn value_view(&self) -> DigitsView {
        self.value@
    }

    /// The absolute uncertainty.
    pub closed spec fn uncertainty_view(&self) -> DigitsView {
        self.uncertainty@
    }

    /// The measured value.
    pub fn value(&self) -> (r: &Digits)
        ensures
            r@ == self.value_view(),
    {
        &self.value
    }

    /// The absolute uncertainty.
    pub fn uncertainty(&self) -> (r: &Digits)
        ensures
            r@ == self.uncertainty_view(),
    {
        &self.uncertainty
    }
}

impl Default for Digits {
    /// Zero, as rounding leaves it when nothing survives: one zero digit before the dot.
    fn default() -> (r: Digits)
        ensures
            r@ == DigitsView::zero(),
    {
        let mut digits: Vec<Digit> = Vec::new();
        digits.push(Digit::Zero);
        Digits { sign: Sign::Positive, dot: 0, digits }
    }
}

/// Parsing the decimal text of a finite number and rendering the result gives the text back.
pub proof fn lemma_parse_render_round_trip(t: Seq<char>)
    requires
        is_decimal_text(t),
    ensures
        render(parsed(t)) == t,
{
    let b = unsigned_part(t);
    let k = dot_position(b);
    let d = parsed(t);
    lemma_dot_position(b);
    assert(d.sign.text() + b =~= t);
    assert forall|x: Seq<char>| #[trigger] all_numerals(x) implies digits_text(numerals(x)) == x by {
        assert forall|j: int| 0 <= j < x.len() implies numeral_digit(x[j]).to_char() == x[j] by {
            assert(Digit::of_char(x[j]) is Some);
        }
        assert(digits_text(numerals(x)) =~= x);
    }
    if k < b.len() {
        let whole = numerals(b.take(k as int));
        let fraction = numerals(b.skip(k + 1 as int));
        assert(d.digits.take(k as int) =~= whole);
        assert(d.digits.skip(k as int) =~= fraction);
        assert(b.take(k as int) + seq!['.'] + b.skip(k + 1 as int) =~= b);
    } else {
        assert(b.take(k as int) =~= b);
    }
}

/// Converting a digit index to a place and the place back to a digit index gives the index.
pub proof fn lemma_place_index_inverse(d: DigitsView, i: int)
    requires
        d.wf(),
        0 <= i < d.digits.len(),
    ensures
        place_of_index(d.dot, i) != 0,
        index_of_place(d.dot, place_of_index(d.dot, i)) == i,
{
}

/// One followed by `m` zeros spells `10^m`.
proof fn lemma_value_one_zeros(m: nat)
    ensures
        digits_value(seq![Digit::One] + zeros(m)) == pow10(m),
{
    lemma_digits_of_pow10(m);
    lemma_digits_of(pow10(m));
}

/// Rounding an already rounded number to the same digit index again changes nothing: the
/// result stands for the same number, and holds the same digits unless the first rounding
/// carried into a new leading digit while rounding at or after the dot (`9.96` to `10.0`,
/// then `10.0` to `10`).
pub proof fn lemma_round_to_digit_idempotent(d: DigitsView, i: nat)
    requires
        d.wf(),
    ensures
        rounded_to_digit(rounded_to_digit(d, i), i).same_number(rounded_to_digit(d, i)),
        rounded_to_digit(d, i).dot == d.dot || i < d.dot ==> rounded_to_digit(
            rounded_to_digit(d, i),
            i,
        ) == rounded_to_digit(d, i),
{
    let once = rounded_to_digit(d, i);
    let twice = rounded_to_digit(once, i);
    if i >= d.digits.len() {
        return;
    }
    let keep = d.digits.take(i + 1 as int);
    let n = digits_value(keep) + 1;
    let raised = digits_of(n);
    let up = rounds_up(d.digits, i);
    let t: nat = if i < d.dot {
        (d.dot - 1 - i) as nat
    } else {
        0
    };
    lemma_value_bound(keep);
    lemma_digits_of_len(n, i + 1);
    if up && raised.len() > i + 1 {
        lemma_digits_of_pow10(i + 1);
        assert(raised == seq![Digit::One] + zeros(i + 1));
        assert(once.digits =~= seq![Digit::One] + zeros(i + 1 + t));
        assert(once.digits.take(i + 1 as int) =~= seq![Digit::One] + zeros(i));
        assert(!rounds_up(once.digits, i));
        if i < d.dot {
            assert(twice.digits =~= once.digits);
        } else {
            assert(twice.digits =~= seq![Digit::One] + zeros(i));
            lemma_value_one_zeros(i);
            lemma_value_one_zeros(i + 1);
            let f_once = (i + 1 - d.dot) as nat;
            let f_twice = (i - d.dot) as nat;
            assert(once.fraction_len() == f_once);
            assert(twice.fraction_len() == f_twice);
            lemma_pow10_add(i, f_once);
            lemma_pow10_add(i + 1, f_twice);
        }
    } else {
        let head = if up {
            pad_left(raised, i + 1)
        } else {
            keep
        };
        assert(head.len() == i + 1);
        assert(once.digits.take(i + 1 as int) =~= head);
        assert(!rounds_up(once.digits, i));
        assert(twice.digits =~= once.digits);
    }
}

/// When the digit after index `i` is exactly five, rounding to `i` goes to the even
/// neighbour: the last digit kept is even, and the kept digits spell the kept digits of `d` or
/// one more.
pub proof fn lemma_round_half_to_even(d: DigitsView, i: nat)
    requires
        d.wf(),
        i + 1 < d.digits.len(),
        d.digits[i + 1 as int] == Digit::Five,
    ensures
        ({
            let r = rounded_to_digit(d, i);
            let last = i + (r.dot - d.dot);
            let kept = digits_value(r.digits.take(last + 1));
            let before = digits_value(d.digits.take(i + 1 as int));
            &&& r.digits[last].value() % 2 == 0
            &&& (kept == before || kept == before + 1)
        }),
{
    let r = rounded_to_digit(d, i);
    let keep = d.digits.take(i + 1 as int);
    let n = digits_value(keep) + 1;
    let raised = digits_of(n);
    let t: nat = if i < d.dot {
        (d.dot - 1 - i) as nat
    } else {
        0
    };
    assert(keep.drop_last().len() == i);
    assert(keep.last() == d.digits[i as int]);
    let v = digits_value(keep.drop_last());
    let l = keep.last().value();
    assert((v * 10 + l) % 10 == l) by (nonlinear_arith)
        requires
            l < 10,
    ;
    if rounds_up(d.digits, i) {
        lemma_digits_of(n);
        lemma_value_bound(keep);
        lemma_digits_of_len(n, i + 2);
        assert(pow10(i + 2) == 10 * pow10(i + 1));
        assert(n % 10 == (l + 1) % 10);
        if raised.len() > i + 1 {
            assert(r.digits =~= raised + zeros(t));
            assert(r.digits.take(i + 2 as int) =~= raised);
        } else {
            let pad = (i + 1 - raised.len()) as nat;
            let head = pad_left(raised, i + 1);
            assert(r.digits =~= head + zeros(t));
            assert(r.digits.take(i + 1 as int) =~= head);
            if pad > 0 {
                assert(head =~= zeros(pad) + raised);
                lemma_value_concat(zeros(pad), raised);
                lemma_value_zeros(pad);
            }
            assert(head[i as int] == raised.last());
        }
    } else {
        assert(r.digits =~= keep + zeros(t));
        assert(r.digits.take(i + 1 as int) =~= keep);
    }
}

/// `k` nines spell one less than `10^k`.
proof fn lemma_value_nines(s: Seq<Digit>)
    requires
        forall|j: int| 0 <= j < s.len() ==> s[j] == Digit::Nine,
    ensures
        digits_value(s) + 1 == pow10(s.len()),
    decreases s.len(),
{
    if s.len() > 0 {
        lemma_value_nines(s.drop_last());
    }
}

/// Rounding up digits that are all nines up to index `i` carries into a new leading one: the
/// result is a one followed by zeros, and the dot moves right by one (`999` to `1000`).
pub proof fn lemma_round_carry_growth(d: DigitsView, i: nat)
    requires
        d.wf(),
        i < d.digits.len(),
        forall|j: int| 0 <= j <= i ==> d.digits[j] == Digit::Nine,
        rounds_up(d.digits, i),
    ensures
        rounded_to_digit(d, i).dot == d.dot + 1,
        rounded_to_digit(d, i).digits == seq![Digit::One] + zeros(
            (rounded_to_digit(d, i).digits.len() - 1) as nat,
        ),
{
    let keep = d.digits.take(i + 1 as int);
    lemma_value_nines(keep);
    lemma_digits_of_pow10(i + 1);
    let r = rounded_to_digit(d, i);
    let t: nat = if i < d.dot {
        (d.dot - 1 - i) as nat
    } else {
        0
    };
    assert(r.digits =~= seq![Digit::One] + zeros(i + 1 + t));
}

/// The significant-figure rule: a number whose first non-zero digit is a one or a two is
/// reported to the digit after it, when there is one; a number whose first non-zero digit is
/// three to nine is reported to that digit.
pub proof fn lemma_significant_figure_rule(s: Seq<Digit>, f: int)
    requires
        0 <= f < s.len(),
        s[f] != Digit::Zero,
        forall|j: int| 0 <= j < f ==> s[j] == Digit::Zero,
    ensures
        (s[f] == Digit::One || s[f] == Digit::Two) && f + 1 < s.len() ==> last_significant_index(
            s,
        ) == f + 1,
        s[f].value() >= 3 ==> last_significant_index(s) == f,
{
    lemma_leading_zeros(s, f as nat);
}

} // verus!
