//! Text that the reports are made of.

use vstd::prelude::*;

verus! {

/// The decimal digit for a number below ten.
pub open spec fn digit(n: nat) -> char {
    if n == 0 {
        '0'
    } else if n == 1 {
        '1'
    } else if n == 2 {
        '2'
    } else if n == 3 {
        '3'
    } else if n == 4 {
        '4'
    } else if n == 5 {
        '5'
    } else if n == 6 {
        '6'
    } else if n == 7 {
        '7'
    } else if n == 8 {
        '8'
    } else {
        '9'
    }
}

/// A number in decimal, without leading zeros.
pub open spec fn decimal(n: nat) -> Seq<char>
    decreases n,
{
    if n < 10 {
        seq![digit(n)]
    } else {
        decimal(n / 10).push(digit(n % 10))
    }
}

/// The last three decimal digits of a number, leading zeros kept.
pub open spec fn three_digits(n: nat) -> Seq<char> {
    seq![digit(n / 100 % 10), digit(n / 10 % 10), digit(n % 10)]
}

/// How a truth value is written.
pub open spec fn truth(b: bool) -> Seq<char> {
    if b {
        "true"@
    } else {
        "false"@
    }
}

/// A text that there may not be.
pub open spec fn optional_text(text: Option<String>) -> Option<Seq<char>> {
    match text {
        Some(text) => Some(text@),
        None => None,
    }
}

/// A text that there may not be.
pub open spec fn optional_str(text: Option<&str>) -> Option<Seq<char>> {
    match text {
        Some(text) => Some(text@),
        None => None,
    }
}

/// One labelled line.
pub open spec fn field_line(label: Seq<char>, value: Seq<char>) -> Seq<char> {
    label + value + "\n"@
}

fn push_digit(out: &mut String, n: u64)
    requires
        n < 10,
    ensures
        final(out)@ == old(out)@.push(digit(n as nat)),
{
    proof {
        reveal_strlit("0");
        reveal_strlit("1");
        reveal_strlit("2");
        reveal_strlit("3");
        reveal_strlit("4");
        reveal_strlit("5");
        reveal_strlit("6");
        reveal_strlit("7");
        reveal_strlit("8");
        reveal_strlit("9");
    }
    if n == 0 {
        out.append("0");
    } else if n == 1 {
        out.append("1");
    } else if n == 2 {
        out.append("2");
    } else if n == 3 {
        out.append("3");
    } else if n == 4 {
        out.append("4");
    } else if n == 5 {
        out.append("5");
    } else if n == 6 {
        out.append("6");
    } else if n == 7 {
        out.append("7");
    } else if n == 8 {
        out.append("8");
    } else {
        out.append("9");
    }
    assert(out@ =~= old(out)@.push(digit(n as nat)));
}

/// Appends a number in decimal.
pub(crate) fn push_decimal(out: &mut String, n: u64)
    ensures
        final(out)@ == old(out)@ + decimal(n as nat),
    decreases n,
{
    if n >= 10 {
        push_decimal(out, n / 10);
    }
    push_digit(out, n % 10);
    assert(out@ =~= old(out)@ + decimal(n as nat));
}

/// A number in decimal, as a text of its own.
pub(crate) fn write_decimal(n: u64) -> (text: String)
    ensures
        text@ == decimal(n as nat),
{
    let mut text = String::new();
    push_decimal(&mut text, n);
    assert(text@ =~= decimal(n as nat));
    text
}

/// Appends the last three decimal digits of a number.
pub(crate) fn push_three_digits(out: &mut String, n: u64)
    ensures
        final(out)@ == old(out)@ + three_digits(n as nat),
{
    push_digit(out, n / 100 % 10);
    push_digit(out, n / 10 % 10);
    push_digit(out, n % 10);
    assert(out@ =~= old(out)@ + three_digits(n as nat));
}

/// Appends one labelled line.
pub(crate) fn push_field(out: &mut String, label: &str, value: &str)
    ensures
        final(out)@ == old(out)@ + field_line(label@, value@),
{
    out.append(label);
    out.append(value);
    out.append("\n");
    assert(out@ =~= old(out)@ + field_line(label@, value@));
}

/// Appends one labelled line that holds a number.
pub(crate) fn push_number_field(out: &mut String, label: &str, value: u64)
    ensures
        final(out)@ == old(out)@ + field_line(label@, decimal(value as nat)),
{
    out.append(label);
    push_decimal(out, value);
    out.append("\n");
    assert(out@ =~= old(out)@ + field_line(label@, decimal(value as nat)));
}

/// Appends a truth value.
pub(crate) fn push_truth(out: &mut String, value: bool)
    ensures
        final(out)@ == old(out)@ + truth(value),
{
    if value {
        out.append("true");
    } else {
        out.append("false");
    }
}

/// Whether two texts are the same.
pub(crate) fn same(a: &str, b: &str) -> (eq: bool)
    ensures
        eq == (a@ == b@),
{
    a.to_owned() == b.to_owned()
}

/// The value of a run of decimal digits, by the places that the digits have in
/// the order of characters.
pub open spec fn decimal_value(text: Seq<char>) -> int
    decreases text.len(),
{
    if text.len() == 0 {
        0
    } else {
        10 * decimal_value(text.drop_last()) + (text.last() as int - '0' as int)
    }
}

/// Whether a text is made of decimal digits only.
pub open spec fn all_digits(text: Seq<char>) -> bool {
    forall|i: int| 0 <= i < text.len() ==> '0' <= #[trigger] text[i] <= '9'
}

/// A number in decimal reads as the number, is made of digits, and begins with a
/// zero only where it is zero.
pub proof fn lemma_decimal_reads_back(n: nat)
    ensures
        decimal_value(decimal(n)) == n,
        all_digits(decimal(n)),
        decimal(n).len() > 0,
        n > 0 ==> decimal(n)[0] != '0',
    decreases n,
{
    if n < 10 {
        assert(decimal(n).drop_last() =~= seq![]);
        assert(decimal_value(seq![]) == 0);
        assert(decimal(n).last() == digit(n));
    } else {
        lemma_decimal_reads_back(n / 10);
        assert(decimal(n).drop_last() =~= decimal(n / 10));
        assert(decimal(n).last() == digit(n % 10));
        assert(decimal(n)[0] == decimal(n / 10)[0]);
    }
}

/// Different numbers are written differently.
pub proof fn lemma_decimal_tells_numbers_apart(m: nat, n: nat)
    requires
        decimal(m) == decimal(n),
    ensures
        m == n,
{
    lemma_decimal_reads_back(m);
    lemma_decimal_reads_back(n);
}

/// Three digits read as the number that they are the last three digits of, up to
/// the thousands.
pub proof fn lemma_three_digits_read_back(n: nat)
    ensures
        three_digits(n).len() == 3,
        all_digits(three_digits(n)),
        decimal_value(three_digits(n)) == n % 1000,
{
    let text = three_digits(n);
    let two = text.drop_last();
    let one = two.drop_last();
    let (a, b, c) = (n / 100 % 10, n / 10 % 10, n % 10);
    assert(one.drop_last() =~= seq![]);
    assert(decimal_value(seq![]) == 0);
    assert(one.last() == digit(a));
    assert(two.last() == digit(b));
    assert(text.last() == digit(c));
    lemma_digit_reads_back(a);
    lemma_digit_reads_back(b);
    lemma_digit_reads_back(c);
    assert(decimal_value(one) == a);
    assert(decimal_value(two) == 10 * a + b);
    assert(decimal_value(text) == 10 * (10 * a + b) + c);
    lemma_last_three_digits(n);
}

proof fn lemma_digit_reads_back(n: nat)
    requires
        n < 10,
    ensures
        digit(n) as int - '0' as int == n,
        '0' <= digit(n) <= '9',
{
}

proof fn lemma_last_three_digits(n: nat)
    ensures
        10 * (10 * (n / 100 % 10) + n / 10 % 10) + n % 10 == n % 1000,
{
    let q = n / 1000;
    let r = n % 1000;
    assert(n == 1000 * q + r);
    assert(n / 100 == 10 * q + r / 100);
    assert(n / 100 % 10 == r / 100);
    assert(n / 10 == 100 * q + r / 10);
    assert(n / 10 % 10 == r / 10 % 10);
    assert(n % 10 == r % 10);
    assert(r / 10 == 10 * (r / 100) + r / 10 % 10);
    assert(r == 10 * (r / 10) + r % 10);
}

/// A truth value is written `true` exactly where it holds, and `false` exactly
/// where it does not.
pub proof fn lemma_truth_tells(b: bool)
    ensures
        truth(b) == "true"@ <==> b,
        truth(b) == "false"@ <==> !b,
{
    reveal_strlit("true");
    reveal_strlit("false");
    assert("true"@.len() != "false"@.len());
}

/// A labelled line is the label, the value and the end of the line, and nothing
/// else.
pub proof fn lemma_field_line_parts(label: Seq<char>, value: Seq<char>)
    ensures
        field_line(label, value).len() == label.len() + value.len() + 1,
        field_line(label, value).take(label.len() as int) == label,
        field_line(label, value).subrange(label.len() as int, (label.len() + value.len()) as int) == value,
        field_line(label, value).last() == '\n',
{
    reveal_strlit("\n");
    assert(field_line(label, value).take(label.len() as int) =~= label);
    assert(field_line(label, value).subrange(label.len() as int, (label.len() + value.len()) as int) =~= value);
}

/// Whether a text holds another somewhere.
#[verifier::opaque]
pub open spec fn holds(text: Seq<char>, part: Seq<char>) -> bool {
    exists|before: Seq<char>, after: Seq<char>| text == #[trigger] (before + part + after)
}

/// Whether a text begins with another.
pub open spec fn begins(text: Seq<char>, part: Seq<char>) -> bool {
    part.len() <= text.len() && text.take(part.len() as int) == part
}

/// Whether a text ends with another.
pub open spec fn ends(text: Seq<char>, part: Seq<char>) -> bool {
    part.len() <= text.len() && text.skip(text.len() - part.len()) == part
}

/// A text between others is held by the whole, which the first one begins and the
/// last one ends.
pub proof fn lemma_parts_are_held(before: Seq<char>, part: Seq<char>, after: Seq<char>)
    ensures
        holds(before + part + after, part),
        holds(before + part + after, before),
        holds(before + part + after, after),
        begins(before + part + after, before),
        ends(before + part + after, after),
{
    reveal(holds);
    let whole = before + part + after;
    assert(whole =~= seq![] + before + (part + after));
    assert(whole =~= (before + part) + after + seq![]);
    assert(whole.take(before.len() as int) =~= before);
    assert(whole.skip(whole.len() - after.len()) =~= after);
}

/// What a part of a text holds, the text holds.
pub proof fn lemma_holds_within(text: Seq<char>, part: Seq<char>, inner: Seq<char>)
    requires
        holds(text, part),
        holds(part, inner),
    ensures
        holds(text, inner),
{
    reveal(holds);
    let (a, b) = choose|a: Seq<char>, b: Seq<char>| text == #[trigger] (a + part + b);
    let (c, d) = choose|c: Seq<char>, d: Seq<char>| part == #[trigger] (c + inner + d);
    assert(text =~= (a + c) + inner + (d + b));
}

/// A text that there may not be is there exactly where it is, and is what it is.
pub proof fn lemma_optional_texts(text: Option<String>, borrowed: Option<&str>)
    ensures
        optional_text(text) is Some <==> text is Some,
        text matches Some(text) ==> optional_text(Some(text)) == Some(text@),
        optional_str(borrowed) is Some <==> borrowed is Some,
        borrowed matches Some(text) ==> optional_str(Some(text)) == Some(text@),
{
}

} // verus!
