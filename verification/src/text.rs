//! Symbols and numbers as text.

use vstd::prelude::*;

verus! {

/// `String::push` appends the character to the end of the string.
pub assume_specification[ String::push ](text: &mut String, ch: char)
    ensures
        final(text)@ == old(text)@.push(ch),
;

/// Symbols read as characters, one for one.
pub open spec fn symbols_text(symbols: Seq<u8>) -> Seq<char> {
    symbols.map_values(|symbol: u8| symbol as char)
}

/// The character of the digit `d`.
pub open spec fn digit(d: int) -> char {
    (d + 48) as char
}

/// The decimal digits of `n`, most significant first.
pub open spec fn digits(n: nat) -> Seq<char>
    decreases n,
{
    if n < 10 {
        seq![digit(n as int)]
    } else {
        digits(n / 10).push(digit((n % 10) as int))
    }
}

/// `n` in decimal notation, with a minus sign in front of a negative number.
pub open spec fn decimal(n: int) -> Seq<char> {
    if n < 0 {
        seq!['-'] + digits((-n) as nat)
    } else {
        digits(n as nat)
    }
}

/// Appends `symbols` to `text`, each as one character.
pub fn push_symbols(text: &mut String, symbols: &Vec<u8>)
    ensures
        final(text)@ == old(text)@ + symbols_text(symbols@),
{
    let mut i: usize = 0;
    assert(symbols_text(symbols@.take(0)) =~= Seq::<char>::empty());
    assert(text@ =~= old(text)@ + symbols_text(symbols@.take(0)));
    while i < symbols.len()
        invariant
            i <= symbols@.len(),
            text@ == old(text)@ + symbols_text(symbols@.take(i as int)),
        decreases symbols@.len() - i,
    {
        text.push(symbols[i] as char);
        assert(symbols_text(symbols@.take(i + 1)) =~= symbols_text(symbols@.take(i as int)).push(
            symbols@[i as int] as char,
        ));
        assert(text@ =~= old(text)@ + symbols_text(symbols@.take(i + 1)));
        i += 1;
    }
    assert(symbols@.take(i as int) =~= symbols@);
}

fn push_digits(text: &mut String, n: u64)
    ensures
        final(text)@ == old(text)@ + digits(n as nat),
    decreases n,
{
    if n >= 10 {
        push_digits(text, n / 10);
    }
    let d = (n % 10) as u8;
    text.push((d + 48) as char);
    assert(text@ =~= old(text)@ + digits(n as nat));
}

/// Appends `n` in decimal notation to `text`.
pub fn push_decimal(text: &mut String, n: i64)
    ensures
        final(text)@ == old(text)@ + decimal(n as int),
{
    if n < 0 {
        text.push('-');
        let magnitude: u64 = if n == i64::MIN {
            9_223_372_036_854_775_808
        } else {
            (-n) as u64
        };
        push_digits(text, magnitude);
        assert(text@ =~= old(text)@ + decimal(n as int));
    } else {
        push_digits(text, n as u64);
    }
}

} // verus!
