//! From the submitted text to the leaves of the tree.
//!
//! The items of a text are its words: the longest stretches of characters
//! that are not white space. White space only separates; it is part of no
//! item, and no item is empty.

use crate::hasher::{item_digest, Sha256Algorithm};
use vstd::prelude::*;
use vstd::string::*;

verus! {

/// Whether a character is white space: one of the characters that Unicode
/// gives the property `White_Space`.
pub open spec fn is_white_space(c: char) -> bool {
    ||| '\u{9}' <= c <= '\u{d}'
    ||| c == ' '
    ||| c == '\u{85}'
    ||| c == '\u{a0}'
    ||| c == '\u{1680}'
    ||| '\u{2000}' <= c <= '\u{200a}'
    ||| c == '\u{2028}'
    ||| c == '\u{2029}'
    ||| c == '\u{202f}'
    ||| c == '\u{205f}'
    ||| c == '\u{3000}'
}

/// The items of a text. A character of white space adds nothing. Any other
/// character goes on with the last item where the character before it is no
/// white space either, and starts a new item otherwise.
pub open spec fn items_of(text: Seq<char>) -> Seq<Seq<char>>
    decreases text.len(),
{
    if text.len() == 0 {
        Seq::<Seq<char>>::empty()
    } else {
        let before = items_of(text.drop_last());
        if is_white_space(text.last()) {
            before
        } else if text.len() >= 2 && !is_white_space(text[text.len() - 2]) {
            before.drop_last().push(before.last().push(text.last()))
        } else {
            before.push(seq![text.last()])
        }
    }
}

/// The views of a list of string slices.
pub open spec fn str_views(items: Seq<&str>) -> Seq<Seq<char>> {
    Seq::new(items.len(), |i: int| items[i]@)
}

/// No item is empty, no item holds white space, and a text has an item
/// exactly when it holds a character that is no white space. Where the text
/// ends in such a character, the last item ends in it.
pub proof fn lemma_items_are_words(text: Seq<char>)
    ensures
        forall|i: int| 0 <= i < items_of(text).len() ==> (#[trigger] items_of(text)[i]).len() >= 1,
        forall|i: int, j: int|
            0 <= i < items_of(text).len() && 0 <= j < items_of(text)[i].len() ==> !is_white_space(
                #[trigger] items_of(text)[i][j],
            ),
        items_of(text).len() >= 1 <==> exists|k: int|
            0 <= k < text.len() && !is_white_space(#[trigger] text[k]),
        text.len() >= 1 && !is_white_space(text.last()) ==> items_of(text).len() >= 1,
    decreases text.len(),
{
    if text.len() > 0 {
        let shorter = text.drop_last();
        lemma_items_are_words(shorter);
        if is_white_space(text.last()) {
            if exists|k: int| 0 <= k < text.len() && !is_white_space(#[trigger] text[k]) {
                let k = choose|k: int| 0 <= k < text.len() && !is_white_space(#[trigger] text[k]);
                assert(!is_white_space(shorter[k]));
            }
            if items_of(text).len() >= 1 {
                let k = choose|k: int|
                    0 <= k < shorter.len() && !is_white_space(#[trigger] shorter[k]);
                assert(!is_white_space(text[k]));
            }
        } else {
            assert(!is_white_space(text[text.len() - 1]));
        }
    }
}

/// Whether a character is white space.
pub fn is_whitespace(c: char) -> (white: bool)
    ensures
        white == is_white_space(c),
{
    (c >= '\u{9}' && c <= '\u{d}') || c == ' ' || c == '\u{85}' || c == '\u{a0}' || c
        == '\u{1680}' || (c >= '\u{2000}' && c <= '\u{200a}') || c == '\u{2028}' || c
        == '\u{2029}' || c == '\u{202f}' || c == '\u{205f}' || c == '\u{3000}'
}

/// The characters of a string, in a vector.
fn collect_chars(text: &str) -> (chars: Vec<char>)
    ensures
        chars@ == text@,
{
    let mut chars: Vec<char> = Vec::new();
    for c in it: text.chars()
        invariant
            chars@ == it.seq().take(it.index() as int),
            it.seq() == text@,
    {
        chars.push(c);
    }
    chars
}

/// Splits the message into its items: the words between white space.
pub fn compute_leaves(message: &String) -> (items: Vec<&str>)
    ensures
        str_views(items@) == items_of(message@),
{
    let text = message.as_str();
    let chars = collect_chars(text);
    let mut items: Vec<&str> = Vec::new();
    let mut start: usize = 0;
    let mut in_item: bool = false;
    let mut i: usize = 0;
    while i < chars.len()
        invariant
            chars@ == text@,
            text@ == message@,
            i <= chars@.len(),
            in_item ==> start < i && !is_white_space(text@[i - 1]) && str_views(items@).push(
                text@.subrange(start as int, i as int),
            ) == items_of(text@.take(i as int)),
            !in_item ==> (i == 0 || is_white_space(text@[i - 1])) && str_views(items@) == items_of(
                text@.take(i as int),
            ),
        decreases chars@.len() - i,
    {
        proof {
            assert(text@.take(i + 1).drop_last() =~= text@.take(i as int));
        }
        if is_whitespace(chars[i]) {
            if in_item {
                let item = text.substring_char(start, i);
                items.push(item);
                in_item = false;
            }
        } else {
            if in_item {
                proof {
                    assert(text@.subrange(start as int, i as int).push(text@[i as int])
                        =~= text@.subrange(start as int, i + 1));
                }
            } else {
                proof {
                    assert(text@.subrange(i as int, i + 1) =~= seq![text@[i as int]]);
                }
                start = i;
                in_item = true;
            }
        }
        i = i + 1;
    }
    proof {
        assert(text@.take(i as int) =~= text@);
    }
    if in_item {
        let last = text.substring_char(start, i);
        items.push(last);
    }
    items
}

/// Hashes every item to its leaf digest, keeping the order.
pub fn hash_leaves(leaves: &Vec<&str>) -> (hashed: Vec<[u8; 32]>)
    ensures
        hashed@.len() == leaves@.len(),
        forall|i: int| 0 <= i < leaves@.len() ==> hashed@[i]@ == item_digest(leaves@[i]@),
{
    let mut hashed: Vec<[u8; 32]> = Vec::new();
    let mut i: usize = 0;
    while i < leaves.len()
        invariant
            i <= leaves@.len(),
            hashed@.len() == i,
            forall|k: int| 0 <= k < i ==> hashed@[k]@ == item_digest(leaves@[k]@),
        decreases leaves@.len() - i,
    {
        let digest = Sha256Algorithm::hash(leaves[i].as_bytes());
        hashed.push(digest);
        i = i + 1;
    }
    hashed
}

} // verus!
