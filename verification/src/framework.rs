//! The single entry point of resolution.

use vstd::prelude::*;

use crate::argument::Argument;
use crate::argument_map::ArgumentMap;
use crate::commands::{CommandArgumentsTree, Tree};
use crate::interaction::{resolve_interaction, InteractionOption};
use crate::message::resolve_message;
use crate::text::{first_word, first_word_of, starts_with, str_starts_with};
use crate::walk::Arguments;
use vstd::string::*;

verus! {

/// Stores the source the command was called from: the options of an
/// interaction, or the content of a message.
#[derive(Debug)]
pub enum CommandSource {
    Interaction(Vec<InteractionOption>),
    Message(String),
}

/// What `source` resolves to against `tree`: the arguments and the handler to
/// run, or nothing where the input selects no handler.
pub open spec fn resolve<H>(source: CommandSource, tree: Tree<H>) -> Option<(Arguments, H)> {
    match source {
        CommandSource::Interaction(options) => resolve_interaction(tree, options@),
        CommandSource::Message(content) => resolve_message(tree, content@),
    }
}

/// Whether `resolved` is what `expected` describes: the same arguments under
/// the same names, and the same handler.
pub open spec fn resolves_to<H>(
    resolved: Option<(ArgumentMap, H)>,
    expected: Option<(Arguments, H)>,
) -> bool {
    match expected {
        Some((arguments, handler)) => resolved matches Some((map, func)) && map@ == arguments
            && func == handler,
        None => resolved is None,
    }
}

impl Argument {
    /// Traverses the argument tree of `cmd` and outputs a map of arguments and the function to run
    pub fn parse<H: Copy>(source: &CommandSource, tree: &CommandArgumentsTree<H>) -> (resolved:
        Option<(ArgumentMap, H)>)
        ensures
            resolves_to(resolved, resolve(*source, tree@)),
    {
        match source {
            CommandSource::Interaction(interaction) => Argument::parse_interaction(
                interaction,
                tree,
            ),
            CommandSource::Message(message) => Argument::parse_message(message.as_str(), tree),
        }
    }
}

/// The strings that a vector of strings stands for.
pub open spec fn strings_view(strings: Seq<String>) -> Seq<Seq<char>> {
    Seq::new(strings.len(), |i: int| strings[i]@)
}

/// Whether `prefixes[i]` is the first prefix that `content` begins with.
pub open spec fn is_first_prefix(content: Seq<char>, prefixes: Seq<Seq<char>>, i: int) -> bool {
    &&& 0 <= i < prefixes.len()
    &&& starts_with(content, prefixes[i])
    &&& forall|k: int| 0 <= k < i ==> !starts_with(content, #[trigger] prefixes[k])
}

/// The command that a message calls for: the word that follows the first of
/// `prefixes` that the message begins with. A message that begins with none
/// of them calls for nothing, nor does one whose first such prefix is empty.
pub open spec fn command_word(content: Seq<char>, prefixes: Seq<Seq<char>>) -> Option<Seq<char>> {
    if exists|i: int| is_first_prefix(content, prefixes, i) {
        let prefix = prefixes[choose|i: int| is_first_prefix(content, prefixes, i)];
        if prefix.len() == 0 {
            None
        } else {
            Some(first_word_of(content.skip(prefix.len() as int)))
        }
    } else {
        None
    }
}

/// Finds the command that a message calls for, by the prefixes that are in
/// use.
pub fn command_trigger<'a>(content: &'a str, prefixes: &Vec<String>) -> (trigger: Option<&'a str>)
    ensures
        match command_word(content@, strings_view(prefixes@)) {
            Some(word) => trigger matches Some(t) && t@ == word,
            None => trigger is None,
        },
{
    let ghost all = strings_view(prefixes@);
    let mut i: usize = 0;
    while i < prefixes.len()
        invariant
            i <= prefixes.len(),
            all == strings_view(prefixes@),
            forall|k: int| 0 <= k < i ==> !starts_with(content@, #[trigger] all[k]),
        decreases prefixes.len() - i,
    {
        let prefix = prefixes[i].as_str();
        assert(all[i as int] == prefix@);
        if str_starts_with(content, prefix) {
            assert(is_first_prefix(content@, all, i as int));
            let ghost j = choose|j: int| is_first_prefix(content@, all, j);
            assert(j == i) by {
                if j < i {
                    assert(!starts_with(content@, all[j]));
                }
                if i < j {
                    assert(!starts_with(content@, all[i as int]));
                }
            }
            let skip = prefix.unicode_len();
            if skip == 0 {
                return None;
            }
            let cropped = content.substring_char(skip, content.unicode_len());
            assert(cropped@ =~= content@.skip(skip as int));
            return Some(first_word(cropped));
        }
        i = i + 1;
    }
    assert(!exists|j: int| is_first_prefix(content@, all, j));
    None
}

} // verus!
