//! Small verified helpers on string slices.

use vstd::prelude::*;
use vstd::string::*;
use vstd::utf8::*;

verus! {

/// Compares two string slices by content.
pub fn str_eq(a: &str, b: &str) -> (same: bool)
    ensures
        same == (a@ == b@),
{
    let x = a.as_bytes();
    let y = b.as_bytes();
    proof {
        encode_utf8_decode_utf8(a@);
        encode_utf8_decode_utf8(b@);
    }
    if x.len() != y.len() {
        return false;
    }
    let mut i: usize = 0;
    while i < x.len()
        invariant
            i <= x.len(),
            x.len() == y.len(),
            x@ == a.spec_bytes(),
            y@ == b.spec_bytes(),
            forall|k: int| 0 <= k < i ==> x@[k] == y@[k],
        decreases x.len() - i,
    {
        if x[i] != y[i] {
            return false;
        }
        i = i + 1;
    }
    assert(x@ =~= y@);
    true
}

/// Whether `i` is the position of the first space of `text`.
pub open spec fn is_first_space(text: Seq<char>, i: int) -> bool {
    &&& 0 <= i < text.len()
    &&& text[i] == ' '
    &&& forall|k: int| 0 <= k < i ==> text[k] != ' '
}

/// Whether `text` holds a space.
pub open spec fn has_space(text: Seq<char>) -> bool {
    exists|i: int| is_first_space(text, i)
}

/// What follows the first word of `text`, from its first space on, where it
/// holds a space.
pub open spec fn after_first_word(text: Seq<char>) -> Option<Seq<char>> {
    if has_space(text) {
        Some(text.skip(choose|i: int| is_first_space(text, i)))
    } else {
        None
    }
}

/// Cuts the first word off `text`: what is left starts at the first space.
pub fn skip_first_word(text: &str) -> (rest: Option<&str>)
    ensures
        match rest {
            Some(r) => after_first_word(text@) == Some(r@),
            None => after_first_word(text@) is None,
        },
{
    let n = text.unicode_len();
    let mut i: usize = 0;
    for c in it: text.chars()
        invariant
            it.seq() == text@,
            i == it.index(),
            n == text@.len(),
            forall|k: int| 0 <= k < i ==> text@[k] != ' ',
    {
        if c == ' ' {
            assert(is_first_space(text@, i as int));
            let ghost j = choose|j: int| is_first_space(text@, j);
            assert(j == i);
            let rest = text.substring_char(i, n);
            assert(rest@ =~= text@.skip(i as int));
            return Some(rest);
        }
        i = i + 1;
    }
    None
}

/// The first word of `text`: what stands before its first space, or all of
/// it where it holds no space.
pub open spec fn first_word_of(text: Seq<char>) -> Seq<char> {
    if has_space(text) {
        text.take(choose|i: int| is_first_space(text, i))
    } else {
        text
    }
}

/// Cuts `text` at its first space.
pub fn first_word(text: &str) -> (word: &str)
    ensures
        word@ == first_word_of(text@),
{
    let n = text.unicode_len();
    let mut i: usize = 0;
    for c in it: text.chars()
        invariant
            it.seq() == text@,
            i == it.index(),
            n == text@.len(),
            forall|k: int| 0 <= k < i ==> text@[k] != ' ',
    {
        if c == ' ' {
            assert(is_first_space(text@, i as int));
            let ghost j = choose|j: int| is_first_space(text@, j);
            assert(j == i);
            let word = text.substring_char(0, i);
            assert(word@ =~= text@.take(i as int));
            return word;
        }
        i = i + 1;
    }
    text
}

/// Whether `text` begins with `prefix`.
pub open spec fn starts_with(text: Seq<char>, prefix: Seq<char>) -> bool {
    prefix.len() <= text.len() && text.take(prefix.len() as int) == prefix
}

/// Checks whether `text` begins with `prefix`.
pub fn str_starts_with(text: &str, prefix: &str) -> (starts: bool)
    ensures
        starts == starts_with(text@, prefix@),
{
    let n = prefix.unicode_len();
    if text.unicode_len() < n {
        return false;
    }
    let head = text.substring_char(0, n);
    assert(head@ =~= text@.take(n as int));
    str_eq(head, prefix)
}

} // verus!
