//! Characters of an expression: their classes, runs of one class, and the
//! value of a run of digits.

use vstd::prelude::*;
use vstd::string::StringExecFns;

verus! {

/// A decimal digit.
pub open spec fn digit(c: char) -> bool {
    '0' <= c && c <= '9'
}

/// A lower-case letter of the Latin alphabet.
pub open spec fn letter(c: char) -> bool {
    'a' <= c && c <= 'z'
}

/// The operators between groups.
pub open spec fn operator(c: char) -> bool {
    c == '+' || c == '-'
}

/// The characters that an expression may hold once it has been lowered
/// and stripped: the operators, the letters of `d` and of the modifier
/// codes, `!`, and the digits.
pub open spec fn allowed(c: char) -> bool {
    ||| c == '+'
    ||| c == '-'
    ||| c == 'd'
    ||| c == 'l'
    ||| c == 'k'
    ||| c == 'x'
    ||| c == 'h'
    ||| c == 'r'
    ||| c == 'b'
    ||| c == 'e'
    ||| c == 'a'
    ||| c == 'm'
    ||| c == '!'
    ||| c == 'n'
    ||| digit(c)
}

/// The classes of characters that the parser looks for runs of.
#[derive(Debug, Clone, Copy, PartialEq, Eq, Structural)]
pub enum CharClass {
    /// Decimal digits.
    Digit,
    /// Lower-case letters.
    Letter,
    /// Everything but the operators `+` and `-`.
    Operand,
    /// The characters of [`allowed`].
    Allowed,
}

impl CharClass {
    /// Whether `c` belongs to the class.
    pub open spec fn holds(self, c: char) -> bool {
        match self {
            CharClass::Digit => digit(c),
            CharClass::Letter => letter(c),
            CharClass::Operand => !operator(c),
            CharClass::Allowed => allowed(c),
        }
    }

    /// Whether `c` belongs to the class.
    pub fn contains(self, c: char) -> (r: bool)
        ensures
            r == self.holds(c),
    {
        match self {
            CharClass::Digit => is_numeric(c),
            CharClass::Letter => is_letter(c),
            CharClass::Operand => char_to_op(c).is_none(),
            CharClass::Allowed => valid_chars(c),
        }
    }
}

/// Whether `c` is a decimal digit.
pub fn is_numeric(c: char) -> (r: bool)
    ensures
        r == digit(c),
{
    '0' <= c && c <= '9'
}

/// Whether `c` is a lower-case letter.
pub fn is_letter(c: char) -> (r: bool)
    ensures
        r == letter(c),
{
    'a' <= c && c <= 'z'
}

/// Whether an expression may hold `c`.
pub fn valid_chars(c: char) -> (r: bool)
    ensures
        r == allowed(c),
{
    match c {
        '+' | '-' | 'd' | 'l' | 'k' | 'x' | 'h' | 'r' | 'b' | 'e' | 'a' | 'm' | '!' | 'n' => true,
        c => is_numeric(c),
    }
}

/// The operator that `c` stands for, if it is one.
pub open spec fn op_of(c: char) -> Option<crate::distribution::DiceOp> {
    if c == '+' {
        Some(crate::distribution::DiceOp::Add)
    } else if c == '-' {
        Some(crate::distribution::DiceOp::Sub)
    } else {
        None
    }
}

/// The operator that `c` stands for, if it is one.
pub fn char_to_op(c: char) -> (r: Option<crate::distribution::DiceOp>)
    ensures
        r == op_of(c),
{
    match c {
        '+' => Some(crate::distribution::DiceOp::Add),
        '-' => Some(crate::distribution::DiceOp::Sub),
        _ => None,
    }
}

/// Whether every character of `s` belongs to the class.
pub open spec fn all_of(s: Seq<char>, class: CharClass) -> bool {
    forall|i: int| 0 <= i < s.len() ==> class.holds(#[trigger] s[i])
}

/// Where the run of characters of the class that begins at `from` ends:
/// the first position at or after `from` whose character is not of the
/// class, or the length of `s`.
pub open spec fn run_end(s: Seq<char>, from: int, class: CharClass) -> int
    decreases s.len() - from,
{
    if from < 0 || from >= s.len() || !class.holds(s[from]) {
        from
    } else {
        run_end(s, from + 1, class)
    }
}

/// What [`run_end`] is: the run holds only characters of the class, and
/// what follows it, if anything, is not of the class.
pub proof fn lemma_run_end(s: Seq<char>, from: int, class: CharClass)
    requires
        0 <= from <= s.len(),
    ensures
        from <= run_end(s, from, class) <= s.len(),
        forall|i: int| from <= i < run_end(s, from, class) ==> class.holds(#[trigger] s[i]),
        run_end(s, from, class) < s.len() ==> !class.holds(s[run_end(s, from, class)]),
    decreases s.len() - from,
{
    if from < s.len() && class.holds(s[from]) {
        lemma_run_end(s, from + 1, class);
    }
}

/// A position with these two properties is where the run ends.
pub proof fn lemma_run_end_is(s: Seq<char>, from: int, class: CharClass, end: int)
    requires
        0 <= from <= end <= s.len(),
        forall|i: int| from <= i < end ==> class.holds(#[trigger] s[i]),
        end < s.len() ==> !class.holds(s[end]),
    ensures
        run_end(s, from, class) == end,
    decreases end - from,
{
    if from < end {
        lemma_run_end_is(s, from + 1, class, end);
    }
}

/// Where the run of characters of the class that begins at `from` ends.
pub fn take_run(chars: &Vec<char>, from: usize, class: CharClass) -> (end: usize)
    requires
        from <= chars.len(),
    ensures
        end == run_end(chars@, from as int, class),
        from <= end <= chars.len(),
{
    let mut i: usize = from;
    while i < chars.len() && class.contains(chars[i])
        invariant
            from <= i <= chars.len(),
            forall|j: int| from <= j < i ==> class.holds(#[trigger] chars@[j]),
        decreases chars.len() - i,
    {
        i = i + 1;
    }
    proof {
        lemma_run_end_is(chars@, from as int, class, i as int);
    }
    i
}

/// The characters of `chars` from `from` up to, not including, `to`.
pub fn slice_of(chars: &Vec<char>, from: usize, to: usize) -> (r: Vec<char>)
    requires
        from <= to <= chars.len(),
    ensures
        r@ == chars@.subrange(from as int, to as int),
{
    let mut out: Vec<char> = Vec::new();
    let mut i: usize = from;
    while i < to
        invariant
            from <= i <= to <= chars.len(),
            out@ == chars@.subrange(from as int, i as int),
        decreases to - i,
    {
        out.push(chars[i]);
        i = i + 1;
        assert(out@ =~= chars@.subrange(from as int, i as int));
    }
    out
}

/// The value of one digit.
pub open spec fn digit_value(c: char) -> nat {
    (c as int - '0' as int) as nat
}

/// The number that a sequence of digits writes in base ten; zero for the
/// empty sequence.
pub open spec fn digits_value(s: Seq<char>) -> nat
    decreases s.len(),
{
    if s.len() == 0 {
        0
    } else {
        digits_value(s.drop_last()) * 10 + digit_value(s.last())
    }
}

/// A leading part of a sequence of digits writes no more than the whole.
pub proof fn lemma_digits_value_grows(s: Seq<char>, k: int)
    requires
        0 <= k <= s.len(),
    ensures
        digits_value(s.take(k)) <= digits_value(s),
    decreases s.len(),
{
    if k == s.len() {
        assert(s.take(k) =~= s);
    } else {
        assert(s.drop_last().take(k) =~= s.take(k));
        lemma_digits_value_grows(s.drop_last(), k);
    }
}

/// The number that the digits write, or `None` when it is above `max`.
pub fn number_of(digits: &Vec<char>, max: u64) -> (r: Option<u64>)
    requires
        all_of(digits@, CharClass::Digit),
    ensures
        r == if digits_value(digits@) <= max {
            Some(digits_value(digits@) as u64)
        } else {
            None
        },
{
    let mut acc: u64 = 0;
    let mut i: usize = 0;
    assert(digits@.take(0) =~= Seq::<char>::empty());
    while i < digits.len()
        invariant
            i <= digits.len(),
            all_of(digits@, CharClass::Digit),
            acc == digits_value(digits@.take(i as int)),
            acc <= max,
        decreases digits.len() - i,
    {
        let c = digits[i];
        let d: u128 = (c as u32 - '0' as u32) as u128;
        let next: u128 = (acc as u128) * 10 + d;
        proof {
            assert(digits@.take(i + 1).drop_last() =~= digits@.take(i as int));
            assert(next == digits_value(digits@.take(i + 1)));
        }
        if next > max as u128 {
            proof {
                lemma_digits_value_grows(digits@, i + 1);
            }
            return None;
        }
        acc = next as u64;
        i = i + 1;
    }
    assert(digits@.take(digits.len() as int) =~= digits@);
    Some(acc)
}


/// The character of a digit: `'0'` for zero up to `'9'` for nine.
pub open spec fn digit_char(d: nat) -> char {
    ('0' as int + d) as char
}

/// The number `n` written in base ten, without leading zeros.
pub open spec fn decimal(n: nat) -> Seq<char>
    decreases n,
{
    if n < 10 {
        seq![digit_char(n)]
    } else {
        decimal(n / 10).push(digit_char(n % 10))
    }
}

/// The integer `x` written in base ten, with a `-` before it when it is
/// below zero.
pub open spec fn signed_decimal(x: int) -> Seq<char> {
    if x < 0 {
        seq!['-'] + decimal((-x) as nat)
    } else {
        decimal(x as nat)
    }
}

/// What is written is read back: the digits of a number stand for it.
pub proof fn lemma_decimal(n: nat)
    ensures
        decimal(n).len() > 0,
        all_of(decimal(n), CharClass::Digit),
        digits_value(decimal(n)) == n,
    decreases n,
{
    if n < 10 {
        let s = seq![digit_char(n)];
        assert(s.drop_last() =~= Seq::<char>::empty());
        assert(digits_value(s.drop_last()) == 0);
    } else {
        lemma_decimal(n / 10);
        let s = decimal(n);
        assert(s.drop_last() =~= decimal(n / 10));
        assert forall|i: int| 0 <= i < s.len() implies CharClass::Digit.holds(#[trigger] s[i]) by {
            if i < s.len() - 1 {
                assert(s[i] == decimal(n / 10)[i]);
            }
        }
    }
}

/// The character of the digit `d`.
pub fn char_of_digit(d: u64) -> (r: char)
    requires
        d < 10,
    ensures
        r == digit_char(d as nat),
{
    match d {
        0 => '0',
        1 => '1',
        2 => '2',
        3 => '3',
        4 => '4',
        5 => '5',
        6 => '6',
        7 => '7',
        8 => '8',
        _ => '9',
    }
}

/// Calls `String::push`, which appends the character to the end of the
/// string.
#[verifier::external_body]
pub(crate) fn put_char(out: &mut String, c: char)
    ensures
        final(out)@ == old(out)@.push(c),
{
    out.push(c);
}

/// Appends the text to the string.
pub fn put(out: &mut String, text: &str)
    ensures
        final(out)@ == old(out)@ + text@,
{
    out.append(text);
}

/// Appends the characters to the string.
pub fn put_chars(out: &mut String, chars: &Vec<char>)
    ensures
        final(out)@ == old(out)@ + chars@,
{
    let ghost before = out@;
    let mut i: usize = 0;
    assert(out@ =~= before + chars@.take(0));
    while i < chars.len()
        invariant
            i <= chars.len(),
            out@ == before + chars@.take(i as int),
        decreases chars.len() - i,
    {
        put_char(out, chars[i]);
        i = i + 1;
        assert(out@ =~= before + chars@.take(i as int));
    }
    assert(chars@.take(chars.len() as int) =~= chars@);
}

/// Appends the number, written in base ten, to the string.
pub fn put_number(out: &mut String, n: u64)
    ensures
        final(out)@ == old(out)@ + decimal(n as nat),
    decreases n,
{
    let ghost before = out@;
    if n < 10 {
        put_char(out, char_of_digit(n));
        assert(out@ =~= before + decimal(n as nat));
    } else {
        put_number(out, n / 10);
        put_char(out, char_of_digit(n % 10));
        assert(out@ =~= before + decimal(n as nat));
    }
}

/// Appends the integer, written in base ten, to the string.
pub fn put_signed(out: &mut String, x: i64)
    ensures
        final(out)@ == old(out)@ + signed_decimal(x as int),
{
    let ghost before = out@;
    if x < 0 {
        put_char(out, '-');
        let size: u64 = (-(x as i128)) as u64;
        put_number(out, size);
        assert(out@ =~= before + signed_decimal(x as int));
    } else {
        put_number(out, x as u64);
    }
}

} // verus!
