//! Splitting raw text into argument words.

use vstd::prelude::*;

use crate::argument::Argument;

verus! {

/// The error with which `regex::Regex::new` refuses a pattern. It is carried
/// through as it is; nothing is said of what it holds.
#[verifier::external_type_specification]
#[verifier::external_body]
pub struct ExRegexError(regex::Error);

/// The pattern that finds argument words: a span in double quotes, which is
/// captured without its quotes, or else a run of characters that are not
/// white space.
pub const SPLITTER: &'static str = "\"(.+)\"|(?:\\S)+";

/// The groups of one match: the text of each capture group that took part in
/// it, the whole match first.
pub type Groups = Seq<Option<Seq<char>>>;

/// What the `regex` crate finds when it searches `haystack` for `pattern`: the
/// successive non-overlapping matches, each with its capture groups, or
/// nothing where the pattern does not compile.
pub uninterp spec fn regex_captures(pattern: Seq<char>, haystack: Seq<char>) -> Option<
    Seq<Seq<Option<Seq<char>>>>,
>;

/// The groups that a vector of optional slices stands for.
pub open spec fn groups_view(groups: Seq<Option<&str>>) -> Groups {
    Seq::new(
        groups.len(),
        |i: int|
            match groups[i] {
                Some(s) => Some(s@),
                None => None,
            },
    )
}

/// The matches that a vector of group vectors stands for.
pub open spec fn matches_view(matches: Seq<Vec<Option<&str>>>) -> Seq<Groups> {
    Seq::new(matches.len(), |i: int| groups_view(matches[i]@))
}

/// The strings that a vector of slices stands for.
pub open spec fn strs_view(strs: Seq<&str>) -> Seq<Seq<char>> {
    Seq::new(strs.len(), |i: int| strs[i]@)
}

/// Compiles `pattern` with `regex::Regex::new` and collects what
/// `Regex::captures_iter` yields on `haystack`: for each match the text of
/// every capture group, by `Captures::iter` and `Match::as_str`.
///
/// Trusted: the result is the one that `regex_captures` names, and a compile
/// error comes back exactly where that is `None`.
#[verifier::external_body]
fn captures<'h>(pattern: &str, haystack: &'h str) -> (found: Result<
    Vec<Vec<Option<&'h str>>>,
    regex::Error,
>)
    ensures
        match found {
            Ok(matches) => regex_captures(pattern@, haystack@) == Some(matches_view(matches@)),
            Err(_) => regex_captures(pattern@, haystack@) is None,
        },
{
    let regex = regex::Regex::new(pattern)?;
    Ok(
        regex.captures_iter(haystack).map(
            |c| c.iter().map(|group| group.map(|m| m.as_str())).collect(),
        ).collect(),
    )
}

/// The word that one match contributes: the quoted span without its quotes
/// where the match has one, else the whole match.
pub open spec fn token_of(groups: Groups) -> Option<Seq<char>> {
    if groups.len() > 1 && groups[1] is Some {
        groups[1]
    } else if groups.len() > 0 {
        groups[0]
    } else {
        None
    }
}

/// The words that a sequence of matches contributes, in order.
pub open spec fn tokens_of(matches: Seq<Groups>) -> Seq<Seq<char>>
    decreases matches.len(),
{
    if matches.len() == 0 {
        Seq::empty()
    } else {
        match token_of(matches.last()) {
            Some(token) => tokens_of(matches.drop_last()).push(token),
            None => tokens_of(matches.drop_last()),
        }
    }
}

/// The argument words of `text`.
pub open spec fn arg_strings(text: Seq<char>) -> Seq<Seq<char>> {
    match regex_captures(SPLITTER@, text) {
        Some(matches) => tokens_of(matches),
        None => Seq::empty(),
    }
}

/// Picks the argument word of each match: the first capture group where it
/// took part, else the whole match.
pub fn select_tokens<'h>(matches: &Vec<Vec<Option<&'h str>>>) -> (tokens: Vec<&'h str>)
    ensures
        strs_view(tokens@) == tokens_of(matches_view(matches@)),
{
    let ghost all = matches_view(matches@);
    let mut tokens: Vec<&'h str> = Vec::new();
    let mut i: usize = 0;
    assert(all.take(0) =~= Seq::<Groups>::empty());
    assert(strs_view(tokens@) =~= Seq::<Seq<char>>::empty());
    while i < matches.len()
        invariant
            i <= matches.len(),
            all == matches_view(matches@),
            strs_view(tokens@) == tokens_of(all.take(i as int)),
        decreases matches.len() - i,
    {
        let groups = &matches[i];
        let ghost before = tokens@;
        proof {
            assert(all.take(i + 1).drop_last() =~= all.take(i as int));
            assert(all.take(i + 1).last() == groups_view(groups@));
        }
        let mut picked: Option<&'h str> = None;
        if groups.len() > 1 {
            picked = groups[1];
        }
        if picked.is_none() && groups.len() > 0 {
            picked = groups[0];
        }
        match picked {
            Some(token) => {
                tokens.push(token);
                assert(strs_view(tokens@) =~= strs_view(before).push(token@));
            },
            None => {},
        }
        i = i + 1;
    }
    assert(all.take(matches.len() as int) =~= all);
    tokens
}

impl Argument {
    /// Splits a raw string into argument words respecting quotation marks
    pub fn get_arg_strings(text: &str) -> (args: Vec<&str>)
        ensures
            strs_view(args@) == arg_strings(text@),
    {
        match captures(SPLITTER, text) {
            Ok(matches) => select_tokens(&matches),
            Err(_) => {
                let args: Vec<&str> = Vec::new();
                assert(strs_view(args@) =~= Seq::<Seq<char>>::empty());
                args
            },
        }
    }
}

} // verus!
