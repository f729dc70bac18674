//! Resolution of raw message text against the schema.
//!
//! The words of the text are matched against the schema in order. A leaf
//! takes the next word where it parses as the leaf's type; a group takes the
//! next word where it is the group's name, and then its children go on with
//! the words that follow. A required node that the next word does not satisfy
//! fails the resolution as a whole, wherever in the tree it stands.

use vstd::prelude::*;

use crate::argument::{parse_spec, Argument};
use crate::argument_map::ArgumentMap;
use crate::commands::{nodes_of, CommandArguments, CommandArgumentsTree, Node, Tree};
use crate::text::{after_first_word, skip_first_word, str_eq};
use crate::tokenizer::{arg_strings, strs_view};
use crate::laws::lemma_walk_tokens_frame;
use crate::walk::{
    bare, count_nodes, framed, handler_from, outcome, start, within_frame_from, Arguments,
    Progress, Walk,
};

verus! {

/// The walk over `siblings` from the one at `i` on, against the words
/// `tokens`, from the progress `at`.
pub open spec fn walk_tokens<H>(
    siblings: Seq<Node<H>>,
    i: int,
    tokens: Seq<Seq<char>>,
    at: Progress<H>,
) -> Walk<H>
    decreases siblings, siblings.len() - i,
{
    if i < 0 || i >= siblings.len() {
        Walk::Done(at)
    } else {
        let present = 0 <= at.cursor < tokens.len();
        match siblings[i] {
            Node::Leaf { name, required, kind } => {
                let parsed = if present {
                    parse_spec(kind, tokens[at.cursor])
                } else {
                    None
                };
                match parsed {
                    Some(value) => walk_tokens(
                        siblings,
                        i + 1,
                        tokens,
                        Progress {
                            cursor: at.cursor + 1,
                            handler: at.handler,
                            arguments: at.arguments.insert(name, value),
                        },
                    ),
                    None => if required {
                        Walk::Failed(at)
                    } else {
                        walk_tokens(siblings, i + 1, tokens, at)
                    },
                }
            },
            Node::Group { name, required, handler, children, .. } => {
                if present && tokens[at.cursor] == name {
                    let entered = Progress {
                        cursor: at.cursor + 1,
                        handler,
                        arguments: at.arguments,
                    };
                    match children {
                        Some(below) => match walk_tokens(below, 0, tokens, entered) {
                            Walk::Done(after) => walk_tokens(siblings, i + 1, tokens, after),
                            Walk::Failed(stopped) => Walk::Failed(stopped),
                        },
                        None => walk_tokens(siblings, i + 1, tokens, entered),
                    }
                } else if required {
                    Walk::Failed(at)
                } else {
                    walk_tokens(siblings, i + 1, tokens, at)
                }
            },
        }
    }
}

/// What the words `tokens` resolve to against `tree`: the handler that the
/// walk ends with and the arguments it has read. Where the walk fails or ends
/// without a handler, and where the root has no children to walk, the root's
/// own handler is left, with no arguments.
pub open spec fn resolve_tokens<H>(tree: Tree<H>, tokens: Seq<Seq<char>>) -> Option<(Arguments, H)> {
    match tree.children {
        Some(children) => match outcome(walk_tokens(children, 0, tokens, start(tree.handler))) {
            Some(resolved) => Some(resolved),
            None => bare(tree.handler),
        },
        None => bare(tree.handler),
    }
}

/// The words of a message: those of what follows its first word, the
/// command's trigger. A message without a space has none.
pub open spec fn message_tokens(content: Seq<char>) -> Seq<Seq<char>> {
    match after_first_word(content) {
        Some(rest) => arg_strings(rest),
        None => Seq::empty(),
    }
}

/// What a message resolves to against `tree`.
pub open spec fn resolve_message<H>(tree: Tree<H>, content: Seq<char>) -> Option<(Arguments, H)> {
    resolve_tokens(tree, message_tokens(content))
}

impl Argument {
    /// Walks `branch` against the words `str_args` from the word at `cursor`
    /// on, with `func` as the handler selected so far. Moves `cursor` past the
    /// words it takes and records the values it reads in `map`. Returns the
    /// handler it ends with, or an error where a required node is not
    /// satisfied; `cursor` and `map` then stand as they stood when the walk
    /// came to that node.
    pub fn parse_str<H: Copy>(
        str_args: &Vec<&str>,
        cursor: &mut usize,
        branch: &Vec<CommandArguments<H>>,
        map: &mut ArgumentMap,
        func: Option<H>,
    ) -> (end: Result<Option<H>, ()>)
        ensures
            match walk_tokens(
                nodes_of(branch@),
                0,
                strs_view(str_args@),
                Progress { cursor: *old(cursor) as int, handler: func, arguments: old(map)@ },
            ) {
                Walk::Done(after) => {
                    &&& end == Ok::<Option<H>, ()>(after.handler)
                    &&& *final(cursor) == after.cursor
                    &&& final(map)@ == after.arguments
                },
                Walk::Failed(stopped) => {
                    &&& end is Err
                    &&& *final(cursor) == stopped.cursor
                    &&& final(map)@ == stopped.arguments
                },
            },
            *old(cursor) <= *final(cursor) <= *old(cursor) + count_nodes(nodes_of(branch@)),
            *final(cursor) == *old(cursor) || *final(cursor) <= str_args.len(),
            framed(old(map)@, final(map)@, nodes_of(branch@)),
            end matches Ok(handler) ==> handler_from(
                nodes_of(branch@),
                strs_view(str_args@),
                *old(cursor) as int,
                *final(cursor) as int,
                func,
                handler,
            ),
        decreases *branch,
    {
        let ghost nodes = nodes_of(branch@);
        let ghost tokens = strs_view(str_args@);
        proof {
            lemma_walk_tokens_frame(
                nodes,
                0,
                tokens,
                Progress { cursor: *cursor as int, handler: func, arguments: map@ },
            );
        }
        let ghost whole = walk_tokens(
            nodes,
            0,
            tokens,
            Progress { cursor: *cursor as int, handler: func, arguments: map@ },
        );
        let mut end_func = func;
        let mut i: usize = 0;
        while i < branch.len()
            invariant
                i <= branch.len(),
                nodes == nodes_of(branch@),
                tokens == strs_view(str_args@),
                whole == walk_tokens(
                    nodes,
                    0,
                    tokens,
                    Progress { cursor: *old(cursor) as int, handler: func, arguments: old(map)@ },
                ),
                within_frame_from(
                    nodes,
                    0,
                    tokens,
                    Progress { cursor: *old(cursor) as int, handler: func, arguments: old(map)@ },
                    whole.progress(),
                ),
                whole == walk_tokens(
                    nodes,
                    i as int,
                    tokens,
                    Progress { cursor: *cursor as int, handler: end_func, arguments: map@ },
                ),
            decreases branch.len() - i,
        {
            let argument = &branch[i];
            assert(nodes[i as int] == argument@);
            let present = *cursor < str_args.len();
            match argument.kind() {
                Some(kind) => {
                    let parsed = if present {
                        Argument::parse_as(kind, str_args[*cursor])
                    } else {
                        Err(())
                    };
                    match parsed {
                        Ok(value) => {
                            map.insert(argument.name().to_owned(), value);
                            *cursor = *cursor + 1;
                        },
                        Err(_) => {
                            if argument.required() {
                                return Err(());
                            }
                        },
                    }
                },
                None => {
                    if present && str_eq(str_args[*cursor], argument.name()) {
                        *cursor = *cursor + 1;
                        end_func = argument.func();
                        match argument.options() {
                            Some(children) => {
                                match Self::parse_str(str_args, cursor, children, map, end_func) {
                                    Ok(below) => {
                                        end_func = below;
                                    },
                                    Err(_) => {
                                        return Err(());
                                    },
                                }
                            },
                            None => {},
                        }
                    } else if argument.required() {
                        return Err(());
                    }
                },
            }
            i = i + 1;
        }
        Ok(end_func)
    }

    /// Resolves the words `tokens` against `tree`.
    pub fn parse_tokens<H: Copy>(tokens: &Vec<&str>, tree: &CommandArgumentsTree<H>) -> (resolved:
        Option<(ArgumentMap, H)>)
        ensures
            match resolve_tokens(tree@, strs_view(tokens@)) {
                Some((arguments, handler)) => resolved matches Some((map, func)) && map@
                    == arguments && func == handler,
                None => resolved is None,
            },
    {
        match &tree.children {
            Some(children) => {
                let mut args = ArgumentMap::new();
                let mut cursor: usize = 0;
                match Self::parse_str(tokens, &mut cursor, children, &mut args, tree.func) {
                    Ok(Some(func)) => Some((args, func)),
                    _ => match tree.func {
                        Some(func) => Some((ArgumentMap::new(), func)),
                        None => None,
                    },
                }
            },
            None => match tree.func {
                Some(func) => Some((ArgumentMap::new(), func)),
                None => None,
            },
        }
    }

    /// Takes a string and traverses the arguments tree to get a argument map and function to run
    pub fn parse_message<H: Copy>(content: &str, tree: &CommandArgumentsTree<H>) -> (resolved:
        Option<(ArgumentMap, H)>)
        ensures
            match resolve_message(tree@, content@) {
                Some((arguments, handler)) => resolved matches Some((map, func)) && map@
                    == arguments && func == handler,
                None => resolved is None,
            },
    {
        // If there is no space then we only have the command trigger
        // Thus we don't want to attempt to parse any arguments from it
        let str_args = match skip_first_word(content) {
            Some(rest) => Self::get_arg_strings(rest),
            None => {
                let none: Vec<&str> = Vec::new();
                assert(strs_view(none@) =~= Seq::<Seq<char>>::empty());
                none
            },
        };
        Self::parse_tokens(&str_args, tree)
    }
}

} // verus!
