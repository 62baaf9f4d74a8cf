//! Leaf indices as text: decimal numbers, separated by single spaces.

use crate::error::ProtocolError;
use vstd::prelude::*;
use vstd::utf8::encode_utf8;

verus! {

/// The byte of the space character.
pub const SPACE: u8 = 0x20;

/// The byte of the plus sign.
pub const PLUS: u8 = 0x2b;

/// The byte of the digit zero.
pub const ZERO: u8 = 0x30;

/// The byte of the digit nine.
pub const NINE: u8 = 0x39;

/// The pieces of `text` between the occurrences of `separator`. A text
/// without the separator is one piece, and two separators in a row have an
/// empty piece between them.
pub open spec fn split_on<T>(text: Seq<T>, separator: T) -> Seq<Seq<T>>
    decreases text.len(),
{
    if text.len() == 0 {
        seq![Seq::<T>::empty()]
    } else {
        let before = split_on(text.drop_last(), separator);
        if text.last() == separator {
            before.push(Seq::<T>::empty())
        } else {
            before.drop_last().push(before.last().push(text.last()))
        }
    }
}

/// The pieces joined again, one separator between neighbours.
pub open spec fn join_with<T>(pieces: Seq<Seq<T>>, separator: T) -> Seq<T>
    decreases pieces.len(),
{
    if pieces.len() == 0 {
        Seq::<T>::empty()
    } else if pieces.len() == 1 {
        pieces[0]
    } else {
        join_with(pieces.drop_last(), separator) + seq![separator] + pieces.last()
    }
}

/// Whether no piece holds the separator.
pub open spec fn free_of<T>(pieces: Seq<Seq<T>>, separator: T) -> bool {
    forall|i: int, j: int|
        0 <= i < pieces.len() && 0 <= j < pieces[i].len() ==> pieces[i][j] != separator
}

/// Splitting loses nothing and leaves no separator behind: there is at least
/// one piece, no piece holds the separator, and the pieces joined by the
/// separator are the text.
pub proof fn lemma_split_then_join<T>(text: Seq<T>, separator: T)
    ensures
        split_on(text, separator).len() >= 1,
        free_of(split_on(text, separator), separator),
        join_with(split_on(text, separator), separator) == text,
    decreases text.len(),
{
    if text.len() > 0 {
        let shorter = text.drop_last();
        lemma_split_then_join(shorter, separator);
        let before = split_on(shorter, separator);
        let pieces = split_on(text, separator);
        if text.last() == separator {
            assert(pieces.drop_last() =~= before);
        } else {
            let front = join_with(before.drop_last(), separator) + seq![separator];
            assert(pieces.drop_last() =~= before.drop_last());
            if before.len() > 1 {
                assert(front + before.last().push(text.last()) =~= (front + before.last()).push(
                    text.last(),
                ));
            }
        }
    }
}

/// A text without the separator is its own single piece.
proof fn lemma_split_without_separator<T>(text: Seq<T>, separator: T)
    requires
        forall|j: int| 0 <= j < text.len() ==> text[j] != separator,
    ensures
        split_on(text, separator) == seq![text],
    decreases text.len(),
{
    if text.len() == 0 {
        assert(text =~= Seq::<T>::empty());
    } else {
        lemma_split_without_separator(text.drop_last(), separator);
        assert(text.drop_last().push(text.last()) =~= text);
    }
}

/// After a separator, a stretch without one is one more piece.
proof fn lemma_split_after_separator<T>(text: Seq<T>, tail: Seq<T>, separator: T)
    requires
        forall|j: int| 0 <= j < tail.len() ==> tail[j] != separator,
    ensures
        split_on(text + seq![separator] + tail, separator) == split_on(text, separator).push(tail),
    decreases tail.len(),
{
    let whole = text + seq![separator] + tail;
    if tail.len() == 0 {
        assert(whole.drop_last() =~= text);
        assert(tail =~= Seq::<T>::empty());
    } else {
        let shorter = tail.drop_last();
        lemma_split_after_separator(text, shorter, separator);
        assert(whole.drop_last() =~= text + seq![separator] + shorter);
        assert(shorter.push(tail.last()) =~= tail);
    }
}

/// Joining and splitting again gives the pieces back, where there is at least
/// one piece and none holds the separator.
pub proof fn lemma_join_then_split<T>(pieces: Seq<Seq<T>>, separator: T)
    requires
        pieces.len() >= 1,
        free_of(pieces, separator),
    ensures
        split_on(join_with(pieces, separator), separator) == pieces,
    decreases pieces.len(),
{
    if pieces.len() == 1 {
        lemma_split_without_separator(pieces[0], separator);
    } else {
        let front = pieces.drop_last();
        lemma_join_then_split(front, separator);
        lemma_split_after_separator(join_with(front, separator), pieces.last(), separator);
    }
}

/// Whether the byte is a decimal digit.
pub open spec fn is_digit(byte: u8) -> bool {
    ZERO <= byte <= NINE
}

/// Whether every byte is a decimal digit.
pub open spec fn all_digits(bytes: Seq<u8>) -> bool {
    forall|i: int| 0 <= i < bytes.len() ==> is_digit(#[trigger] bytes[i])
}

/// The number that a string of digits spells.
pub open spec fn decimal_value(digits: Seq<u8>) -> nat
    decreases digits.len(),
{
    if digits.len() == 0 {
        0
    } else {
        decimal_value(digits.drop_last()) * 10 + (digits.last() - ZERO) as nat
    }
}

/// The digits of a number, without leading zeros.
pub open spec fn decimal(value: nat) -> Seq<u8>
    decreases value,
{
    if value < 10 {
        seq![(ZERO + value) as u8]
    } else {
        decimal(value / 10).push((ZERO + value % 10) as u8)
    }
}

/// The digits of a token: what follows the plus sign, where it starts with one.
pub open spec fn digits_of(token: Seq<u8>) -> Seq<u8> {
    if token.len() > 0 && token[0] == PLUS {
        token.skip(1)
    } else {
        token
    }
}

/// The index that a token spells: one or more decimal digits, with or
/// without a plus sign in front, whose number fits the machine's index type.
pub open spec fn parse_index(token: Seq<u8>) -> Option<usize> {
    let digits = digits_of(token);
    if digits.len() > 0 && all_digits(digits) && decimal_value(digits) <= usize::MAX {
        Some(decimal_value(digits) as usize)
    } else {
        None
    }
}

/// The indices that a text spells: every piece between its spaces is an index.
pub open spec fn parse_indices(text: Seq<u8>) -> Option<Seq<usize>> {
    let tokens = split_on(text, SPACE);
    if forall|i: int| 0 <= i < tokens.len() ==> (#[trigger] parse_index(tokens[i])) is Some {
        Some(Seq::new(tokens.len(), |i: int| parse_index(tokens[i])->Some_0))
    } else {
        None
    }
}

/// The request for the proof of a pair of leaves.
pub open spec fn index_pair_text(first: usize, second: usize) -> Seq<u8> {
    decimal(first as nat) + seq![SPACE] + decimal(second as nat)
}

/// A longer string of digits spells no smaller number.
proof fn lemma_decimal_value_grows(digits: Seq<u8>, count: int)
    requires
        all_digits(digits),
        0 <= count <= digits.len(),
    ensures
        decimal_value(digits.take(count)) <= decimal_value(digits),
    decreases digits.len() - count,
{
    if count < digits.len() {
        lemma_decimal_value_grows(digits, count + 1);
        assert(digits.take(count + 1).drop_last() =~= digits.take(count));
    } else {
        assert(digits.take(count) =~= digits);
    }
}

/// What is written for a number is one digit or more, nothing but digits,
/// and spells the number.
pub proof fn lemma_decimal_spells(value: nat)
    ensures
        decimal(value).len() >= 1,
        all_digits(decimal(value)),
        decimal_value(decimal(value)) == value,
    decreases value,
{
    if value < 10 {
        assert(decimal(value).drop_last() =~= Seq::<u8>::empty());
        assert(decimal_value(Seq::<u8>::empty()) == 0);
    } else {
        lemma_decimal_spells(value / 10);
        assert(decimal(value).drop_last() =~= decimal(value / 10));
    }
}

/// Reading an index that was written gives it back.
pub proof fn lemma_parse_of_decimal(index: usize)
    ensures
        parse_index(decimal(index as nat)) == Some(index),
{
    lemma_decimal_spells(index as nat);
}

/// Index round trip: the text of a pair of indices is read back as that pair.
pub proof fn lemma_index_pair_round_trip(first: usize, second: usize)
    ensures
        parse_indices(index_pair_text(first, second)) == Some(seq![first, second]),
{
    let a = decimal(first as nat);
    let b = decimal(second as nat);
    let pieces = seq![a, b];
    lemma_decimal_spells(first as nat);
    lemma_decimal_spells(second as nat);
    assert(pieces.drop_last() =~= seq![a]);
    assert(join_with(seq![a], SPACE) == a);
    lemma_join_then_split(pieces, SPACE);
}

/// Splits `text` at every occurrence of `separator`.
fn split_bytes(text: &[u8], separator: u8) -> (pieces: Vec<Vec<u8>>)
    ensures
        pieces@.len() == split_on(text@, separator).len(),
        forall|i: int| 0 <= i < pieces@.len() ==> pieces@[i]@ == split_on(text@, separator)[i],
{
    let mut pieces: Vec<Vec<u8>> = Vec::new();
    let mut current: Vec<u8> = Vec::new();
    let mut i: usize = 0;
    while i < text.len()
        invariant
            i <= text@.len(),
            split_on(text@.take(i as int), separator).len() == pieces@.len() + 1,
            forall|k: int|
                0 <= k < pieces@.len() ==> pieces@[k]@ == split_on(
                    text@.take(i as int),
                    separator,
                )[k],
            current@ == split_on(text@.take(i as int), separator).last(),
        decreases text@.len() - i,
    {
        proof {
            assert(text@.take(i + 1).drop_last() =~= text@.take(i as int));
        }
        if text[i] == separator {
            pieces.push(current);
            current = Vec::new();
        } else {
            current.push(text[i]);
        }
        i = i + 1;
    }
    proof {
        assert(text@.take(i as int) =~= text@);
    }
    pieces.push(current);
    pieces
}

/// Reads one index.
fn parse_token(token: &Vec<u8>) -> (parsed: Option<usize>)
    ensures
        parsed == parse_index(token@),
{
    let start: usize = if token.len() > 0 && token[0] == PLUS {
        1
    } else {
        0
    };
    let ghost digits = digits_of(token@);
    if token.len() == start {
        return None;
    }
    let mut value: usize = 0;
    let mut i: usize = start;
    while i < token.len()
        invariant
            start <= i <= token@.len(),
            digits == token@.skip(start as int),
            digits == digits_of(token@),
            all_digits(digits.take(i - start)),
            value == decimal_value(digits.take(i - start)),
        decreases token@.len() - i,
    {
        let byte = token[i];
        proof {
            assert(digits.take(i - start + 1).drop_last() =~= digits.take(i - start));
            assert(digits[i - start] == byte);
        }
        if byte < ZERO || byte > NINE {
            return None;
        }
        let digit: usize = (byte - ZERO) as usize;
        if value > (usize::MAX - digit) / 10 {
            proof {
                if all_digits(digits) {
                    lemma_decimal_value_grows(digits, i - start + 1);
                }
            }
            return None;
        }
        value = value * 10 + digit;
        i = i + 1;
    }
    proof {
        assert(digits.take(i - start) =~= digits);
    }
    Some(value)
}

/// Reads the indices of a request made of bytes. Fails with `ParseError` exactly
/// when some piece between the spaces is not an index.
pub fn parse_index_list(text: &[u8]) -> (parsed: Result<Vec<usize>, ProtocolError>)
    ensures
        parsed is Ok <==> parse_indices(text@) is Some,
        parsed is Ok ==> Some(parsed->Ok_0@) == parse_indices(text@),
        parsed is Err ==> parsed->Err_0 == ProtocolError::ParseError,
{
    let tokens = split_bytes(text, SPACE);
    let mut indices: Vec<usize> = Vec::new();
    let mut k: usize = 0;
    while k < tokens.len()
        invariant
            k <= tokens@.len(),
            tokens@.len() == split_on(text@, SPACE).len(),
            forall|i: int| 0 <= i < tokens@.len() ==> tokens@[i]@ == split_on(text@, SPACE)[i],
            indices@.len() == k,
            forall|i: int|
                0 <= i < k ==> parse_index(split_on(text@, SPACE)[i]) == Some(indices@[i]),
        decreases tokens@.len() - k,
    {
        match parse_token(&tokens[k]) {
            Some(index) => {
                indices.push(index);
            },
            None => {
                assert(parse_index(split_on(text@, SPACE)[k as int]) is None);
                return Err(ProtocolError::ParseError);
            },
        }
        k = k + 1;
    }
    proof {
        let pieces = split_on(text@, SPACE);
        assert forall|i: int| 0 <= i < pieces.len() implies (#[trigger] parse_index(
            pieces[i],
        )) is Some by {
            assert(parse_index(pieces[i]) == Some(indices@[i]));
        }
    }
    Ok(indices)
}

/// Reads the indices of a request. Fails with `ParseError` exactly when some piece
/// between the spaces of the text is not an index.
pub fn convert_indices(indices_string: &String) -> (parsed: Result<Vec<usize>, ProtocolError>)
    ensures
        parsed is Ok <==> parse_indices(encode_utf8(indices_string@)) is Some,
        parsed is Ok ==> Some(parsed->Ok_0@) == parse_indices(encode_utf8(indices_string@)),
        parsed is Err ==> parsed->Err_0 == ProtocolError::ParseError,
{
    parse_index_list(indices_string.as_str().as_bytes())
}

/// Appends a number in decimal digits.
fn write_decimal(value: usize, out: &mut Vec<u8>)
    ensures
        final(out)@ == old(out)@ + decimal(value as nat),
    decreases value,
{
    if value >= 10 {
        write_decimal(value / 10, out);
    }
    out.push(ZERO + (value % 10) as u8);
}

/// The text that asks for the proof of a pair of leaves: the first two
/// indices of `indices` in decimal, a space between them.
pub fn encode_indices(indices: &Vec<usize>) -> (text: Vec<u8>)
    requires
        indices@.len() >= 2,
    ensures
        text@ == index_pair_text(indices@[0], indices@[1]),
{
    let mut text: Vec<u8> = Vec::new();
    write_decimal(indices[0], &mut text);
    text.push(SPACE);
    write_decimal(indices[1], &mut text);
    text
}

/// The text that announces a new value for one leaf: the index in decimal, a
/// space, and the bytes of the value.
pub fn encode_change(change: &String, index: &usize) -> (text: Vec<u8>)
    ensures
        text@ == decimal(*index as nat) + seq![SPACE] + encode_utf8(change@),
{
    let mut text: Vec<u8> = Vec::new();
    write_decimal(*index, &mut text);
    text.push(SPACE);
    let bytes = change.as_str().as_bytes();
    let ghost head = text@;
    let mut i: usize = 0;
    while i < bytes.len()
        invariant
            i <= bytes@.len(),
            text@ == head + bytes@.take(i as int),
        decreases bytes@.len() - i,
    {
        text.push(bytes[i]);
        i = i + 1;
    }
    proof {
        assert(bytes@.take(i as int) =~= bytes@);
    }
    text
}

} // verus!
