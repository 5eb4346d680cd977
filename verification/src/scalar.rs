//! Environment values as YAML scalars, rendered as text.

use vstd::prelude::*;

verus! {

/// The character of a decimal digit.
pub open spec fn digit(value: nat) -> char
    recommends
        value < 10,
{
    (48 + value) as char
}

/// A natural number in decimal notation, without leading zeros.
pub open spec fn nat_text(number: nat) -> Seq<char>
    decreases number,
{
    if number < 10 {
        seq![digit(number)]
    } else {
        nat_text(number / 10).push(digit(number % 10))
    }
}

/// A whole number in decimal notation: a minus sign where it is negative, no leading zeros.
pub open spec fn int_text(number: int) -> Seq<char> {
    if number < 0 {
        seq!['-'] + nat_text((-number) as nat)
    } else {
        nat_text(number as nat)
    }
}

/// A truth value in words.
pub open spec fn bool_text(value: bool) -> Seq<char> {
    if value {
        "true"@
    } else {
        "false"@
    }
}

/// The text of a decimal digit.
fn digit_text(value: u64) -> (text: &'static str)
    requires
        value < 10,
    ensures
        text@ == seq![digit(value as nat)],
{
    proof {
        reveal_strlit("0");
        reveal_strlit("1");
        reveal_strlit("2");
        reveal_strlit("3");
        reveal_strlit("4");
        reveal_strlit("5");
        reveal_strlit("6");
        reveal_strlit("7");
        reveal_strlit("8");
        reveal_strlit("9");
    }
    match value {
        0 => "0",
        1 => "1",
        2 => "2",
        3 => "3",
        4 => "4",
        5 => "5",
        6 => "6",
        7 => "7",
        8 => "8",
        _ => "9",
    }
}

/// Writes a number in decimal notation.
fn render(number: u64) -> (text: String)
    ensures
        text@ == nat_text(number as nat),
    decreases number,
{
    if number < 10 {
        digit_text(number).to_owned()
    } else {
        let mut text = render(number / 10);
        let ghost front = text@;
        text.append(digit_text(number % 10));
        assert(text@ =~= front.push(digit((number % 10) as nat)));
        text
    }
}

/// The value of an environment variable: the text that a YAML scalar stands for.
///
/// A scalar that YAML reads as a number or a boolean is rendered from the parsed value, not from
/// the text as written.
#[derive(Debug)]
pub struct Scalar(pub String);

impl Scalar {
    /// A scalar that YAML reads as a string: kept as it is.
    pub fn from_text(value: &str) -> (scalar: Scalar)
        ensures
            scalar.0@ == value@,
    {
        Scalar(value.to_owned())
    }

    /// A scalar that YAML reads as a signed integer.
    pub fn from_i64(value: i64) -> (scalar: Scalar)
        ensures
            scalar.0@ == int_text(value as int),
    {
        if value < 0 {
            let magnitude: u64 = (-(value + 1)) as u64 + 1;
            let mut text = "-".to_owned();
            let digits = render(magnitude);
            text.append(digits.as_str());
            proof {
                reveal_strlit("-");
                assert("-"@ =~= seq!['-']);
            }
            Scalar(text)
        } else {
            Scalar(render(value as u64))
        }
    }

    /// A scalar that YAML reads as an unsigned integer.
    pub fn from_u64(value: u64) -> (scalar: Scalar)
        ensures
            scalar.0@ == int_text(value as int),
    {
        Scalar(render(value))
    }

    /// A scalar that YAML reads as a boolean.
    pub fn from_bool(value: bool) -> (scalar: Scalar)
        ensures
            scalar.0@ == bool_text(value),
    {
        if value {
            Scalar("true".to_owned())
        } else {
            Scalar("false".to_owned())
        }
    }
}

/// Two natural numbers with the same notation are the same, and only zero starts with a zero.
proof fn lemma_nat_text(a: nat, b: nat)
    ensures
        nat_text(a).len() > 0,
        nat_text(a)[0] != '-',
        nat_text(a)[0] == '0' ==> a == 0,
        nat_text(a) == nat_text(b) ==> a == b,
    decreases a,
{
    if a >= 10 {
        lemma_nat_text(a / 10, b / 10);
        assert(nat_text(a).drop_last() =~= nat_text(a / 10));
    }
    if b >= 10 {
        assert(nat_text(b).drop_last() =~= nat_text(b / 10));
        assert(nat_text(b / 10).len() > 0) by {
            reveal_with_fuel(nat_text, 2);
        }
    }
    if nat_text(a) == nat_text(b) {
        assert(nat_text(a).last() == digit(a % 10));
        assert(nat_text(b).last() == digit(b % 10));
    }
}

/// Different whole numbers are never rendered alike.
pub proof fn law_numbers_are_told_apart(a: int, b: int)
    requires
        a != b,
    ensures
        int_text(a) != int_text(b),
{
    let x = if a < 0 { (-a) as nat } else { a as nat };
    let y = if b < 0 { (-b) as nat } else { b as nat };
    lemma_nat_text(x, y);
    lemma_nat_text(y, x);
    if a < 0 && b < 0 {
        if int_text(a) == int_text(b) {
            assert(int_text(a).skip(1) =~= nat_text(x));
            assert(int_text(b).skip(1) =~= nat_text(y));
        }
    } else if a < 0 {
        assert(int_text(a)[0] == '-');
    } else if b < 0 {
        assert(int_text(b)[0] == '-');
    }
}

/// Reading the notation of a natural number digit by digit gives the number, all of it is digits, and
/// only zero starts with a zero.
proof fn lemma_nat_text_reads_back(number: nat, read: spec_fn(int, char) -> int)
    requires
        forall|value: int, c: char| #[trigger] read(value, c) == 10 * value + (c as int - '0' as int),
    ensures
        nat_text(number).fold_left(0, read) == number,
        nat_text(number).len() > 0,
        forall|i: int| 0 <= i < nat_text(number).len() ==> '0' <= #[trigger] nat_text(number)[i] <= '9',
        number > 0 ==> nat_text(number)[0] != '0',
        number == 0 ==> nat_text(number).len() == 1,
    decreases number,
{
    let text = nat_text(number);
    if number < 10 {
        assert(text.drop_last() =~= Seq::<char>::empty());
        assert(text.last() == digit(number));
        reveal_with_fuel(Seq::fold_left, 2);
    } else {
        lemma_nat_text_reads_back(number / 10, read);
        assert(text.drop_last() =~= nat_text(number / 10));
        assert(text.last() == digit(number % 10));
    }
}

/// A rendered number is the number's decimal numeral: read back digit by digit, each digit worth ten
/// times the one behind it, it gives the number. It holds nothing but digits, and no zero leads another
/// digit.
pub proof fn law_rendered_number_reads_back(number: nat)
    ensures
        int_text(number as int).fold_left(0, |value: int, c: char| 10 * value + (c as int - '0' as int)) == number,
        int_text(number as int).len() > 0,
        forall|i: int|
            0 <= i < int_text(number as int).len() ==> '0' <= #[trigger] int_text(number as int)[i] <= '9',
        int_text(number as int)[0] == '0' ==> int_text(number as int).len() == 1,
{
    lemma_nat_text_reads_back(number, |value: int, c: char| 10 * value + (c as int - '0' as int));
}

/// A rendered negative number is a minus sign and the rendered number without its sign.
pub proof fn law_rendered_sign_leads_the_magnitude(number: int)
    requires
        number < 0,
    ensures
        int_text(number) == seq!['-'] + int_text(-number),
{
}

/// A rendered truth value is the word for it.
pub proof fn law_rendered_truth_value_is_the_word()
    ensures
        bool_text(true) == seq!['t', 'r', 'u', 'e'],
        bool_text(false) == seq!['f', 'a', 'l', 's', 'e'],
{
    reveal_strlit("true");
    reveal_strlit("false");
    assert(bool_text(true) =~= seq!['t', 'r', 'u', 'e']);
    assert(bool_text(false) =~= seq!['f', 'a', 'l', 's', 'e']);
}

} // verus!
