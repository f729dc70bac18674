//! Laws of resolution, stated over the functions that the resolvers'
//! contracts speak of.

use vstd::prelude::*;

use crate::argument::{kind_of, lemma_text_of_parses_back, parse_spec, text_of, ArgumentValue};
use crate::argument_map::ArgumentMap;
use crate::commands::{CommandArgumentsTree, Node, Tree};
use crate::framework::{resolve, resolves_to, CommandSource};
use crate::interaction::{
    entry_names, extract_spec, flatten, resolve_entries, walk_entries, walk_level, Entry,
    EntryValue, InteractionOption,
};
use crate::message::{message_tokens, resolve_tokens, walk_tokens};
use crate::walk::{
    bare, handler_from, lemma_framed_above, lemma_framed_chain, lemma_framed_insert,
    lemma_handler_above, lemma_handler_chain, node_has_group, node_has_leaf, start,
    count_from, framed, within_frame_from, Arguments, Progress, Walk,
};

verus! {

/// What a walk does at one node: pass it by, take a value for it, enter it,
/// or fail on it.
pub ghost enum Decision {
    Pass,
    Take,
    Enter,
    Fail,
}

/// What the walk over words does at `node` with its cursor at `cursor`.
pub open spec fn token_decision<H>(node: Node<H>, tokens: Seq<Seq<char>>, cursor: int) -> Decision {
    let present = 0 <= cursor < tokens.len();
    match node {
        Node::Leaf { required, kind, .. } => {
            if present && parse_spec(kind, tokens[cursor]) is Some {
                Decision::Take
            } else if required {
                Decision::Fail
            } else {
                Decision::Pass
            }
        },
        Node::Group { name, required, .. } => {
            if present && tokens[cursor] == name {
                Decision::Enter
            } else if required {
                Decision::Fail
            } else {
                Decision::Pass
            }
        },
    }
}

/// Resolution is a function of its input: two results of resolving the same
/// source against the same tree hold the same arguments and the same handler.
pub proof fn lemma_resolution_is_deterministic<H>(
    source: CommandSource,
    tree: CommandArgumentsTree<H>,
    first: Option<(ArgumentMap, H)>,
    second: Option<(ArgumentMap, H)>,
)
    requires
        resolves_to(first, resolve(source, tree@)),
        resolves_to(second, resolve(source, tree@)),
    ensures
        match (first, second) {
            (Some((map1, func1)), Some((map2, func2))) => map1@ == map2@ && func1 == func2,
            (None, None) => true,
            _ => false,
        },
{
}

/// Every node of `siblings` is an optional leaf.
pub open spec fn only_optional_leaves<H>(siblings: Seq<Node<H>>) -> bool {
    forall|i: int|
        0 <= i < siblings.len() ==> ((#[trigger] siblings[i]) matches Node::Leaf { required, .. }
            && !required)
}

/// The words supply a value to none of `siblings`: there is no word, or the
/// first word is of no leaf's type.
pub open spec fn words_supply_none<H>(siblings: Seq<Node<H>>, tokens: Seq<Seq<char>>) -> bool {
    tokens.len() > 0 ==> forall|i: int|
        0 <= i < siblings.len() ==> ((#[trigger] siblings[i]) matches Node::Leaf { kind, .. }
            ==> parse_spec(kind, tokens[0]) is None)
}

/// The options supply a value to none of `siblings`: there is no option, or
/// the first option has no leaf's name with a value of that leaf's type.
pub open spec fn options_supply_none<H>(siblings: Seq<Node<H>>, entries: Seq<Entry>) -> bool {
    entries.len() > 0 ==> forall|i: int|
        0 <= i < siblings.len() ==> ((#[trigger] siblings[i]) matches Node::Leaf { name, kind, .. }
            ==> name != entries[0].name || extract_spec(kind, entries[0].value) is None)
}

/// Whether `source` supplies a value to none of `siblings`.
pub open spec fn supplies_none<H>(source: CommandSource, siblings: Seq<Node<H>>) -> bool {
    match source {
        CommandSource::Interaction(options) => options_supply_none(siblings, flatten(options@)),
        CommandSource::Message(content) => words_supply_none(siblings, message_tokens(content@)),
    }
}

/// A walk over optional leaves that the words supply nothing to stays where
/// it started.
pub proof fn lemma_words_pass_by<H>(
    siblings: Seq<Node<H>>,
    i: int,
    tokens: Seq<Seq<char>>,
    at: Progress<H>,
)
    requires
        only_optional_leaves(siblings),
        words_supply_none(siblings, tokens),
        at.cursor == 0,
    ensures
        walk_tokens(siblings, i, tokens, at) == Walk::Done(at),
    decreases siblings.len() - i,
{
    if 0 <= i < siblings.len() {
        assert(siblings[i] is Leaf);
        lemma_words_pass_by(siblings, i + 1, tokens, at);
    }
}

/// A walk over optional leaves that the options supply nothing to stays
/// where it started.
pub proof fn lemma_options_pass_by<H>(
    siblings: Seq<Node<H>>,
    i: int,
    entries: Seq<Entry>,
    at: Progress<H>,
)
    requires
        only_optional_leaves(siblings),
        options_supply_none(siblings, entries),
        entries.len() > 0,
    ensures
        walk_level(siblings, i, entries, 0, at) == Walk::Done(at),
    decreases siblings.len() - i,
{
    if 0 <= i < siblings.len() {
        assert(siblings[i] is Leaf);
        lemma_options_pass_by(siblings, i + 1, entries, at);
    }
}

/// Against a schema that has only optional leaves, input that supplies none
/// of them resolves to the root's handler with no arguments, and to nothing
/// where the root has no handler.
pub proof fn lemma_nothing_supplied<H>(source: CommandSource, tree: Tree<H>)
    requires
        tree.children matches Some(children) ==> (only_optional_leaves(children) && supplies_none(
            source,
            children,
        )),
    ensures
        resolve(source, tree) == bare(tree.handler),
{
    match tree.children {
        Some(children) => match source {
            CommandSource::Interaction(options) => {
                let entries = flatten(options@);
                if entries.len() > 0 {
                    lemma_options_pass_by(
                        children,
                        0,
                        entries,
                        Progress { cursor: 1, handler: tree.handler, arguments: Map::empty() },
                    );
                }
            },
            CommandSource::Message(content) => {
                lemma_words_pass_by(children, 0, message_tokens(content@), start(tree.handler));
            },
        },
        None => {},
    }
}

/// How a walk over options stands when it comes to a node: the option that
/// its list has read, and its progress.
pub ghost struct Arrival<H> {
    pub read: int,
    pub at: Progress<H>,
}

/// How the walk over options from the sibling at `i` on stands when it comes
/// to the sibling at `j`, where it gets that far: where no node before fails,
/// and no leaf before takes the last option.
pub open spec fn level_reaches<H>(
    siblings: Seq<Node<H>>,
    i: int,
    j: int,
    entries: Seq<Entry>,
    current: int,
    at: Progress<H>,
) -> Option<Arrival<H>>
    decreases j - i,
{
    if i >= j {
        Some(Arrival { read: current, at })
    } else if i < 0 || i >= siblings.len() {
        None
    } else {
        let entry = entries[current];
        match siblings[i] {
            Node::Leaf { name, required, kind } => {
                if name == entry.name {
                    match extract_spec(kind, entry.value) {
                        Some(value) => {
                            if 0 <= at.cursor < entries.len() {
                                level_reaches(
                                    siblings,
                                    i + 1,
                                    j,
                                    entries,
                                    at.cursor,
                                    Progress {
                                        cursor: at.cursor + 1,
                                        handler: at.handler,
                                        arguments: at.arguments.insert(name, value),
                                    },
                                )
                            } else {
                                None
                            }
                        },
                        None => if required {
                            None
                        } else {
                            level_reaches(siblings, i + 1, j, entries, current, at)
                        },
                    }
                } else {
                    level_reaches(siblings, i + 1, j, entries, current, at)
                }
            },
            Node::Group { name, required, handler, children, .. } => {
                if name == entry.name {
                    let entered = Progress { cursor: at.cursor, handler, arguments: at.arguments };
                    match children {
                        Some(below) => match walk_entries(below, entries, entered) {
                            Walk::Done(after) => level_reaches(
                                siblings,
                                i + 1,
                                j,
                                entries,
                                current,
                                after,
                            ),
                            Walk::Failed(_) => None,
                        },
                        None => level_reaches(siblings, i + 1, j, entries, current, entered),
                    }
                } else if required {
                    None
                } else {
                    level_reaches(siblings, i + 1, j, entries, current, at)
                }
            },
        }
    }
}

/// A walk over options that comes to the sibling at `j` goes on from there
/// with the option and the progress it has come with.
pub proof fn lemma_walk_level_from<H>(
    siblings: Seq<Node<H>>,
    i: int,
    j: int,
    entries: Seq<Entry>,
    current: int,
    at: Progress<H>,
)
    requires
        0 <= i <= j,
        level_reaches(siblings, i, j, entries, current, at) is Some,
    ensures
        walk_level(siblings, i, entries, current, at) == walk_level(
            siblings,
            j,
            entries,
            level_reaches(siblings, i, j, entries, current, at)->0.read,
            level_reaches(siblings, i, j, entries, current, at)->0.at,
        ),
    decreases j - i,
{
    if i < j {
        let entry = entries[current];
        match siblings[i] {
            Node::Leaf { name, required, kind } => {
                if name == entry.name {
                    match extract_spec(kind, entry.value) {
                        Some(value) => {
                            lemma_walk_level_from(
                                siblings,
                                i + 1,
                                j,
                                entries,
                                at.cursor,
                                Progress {
                                    cursor: at.cursor + 1,
                                    handler: at.handler,
                                    arguments: at.arguments.insert(name, value),
                                },
                            );
                        },
                        None => {
                            lemma_walk_level_from(siblings, i + 1, j, entries, current, at);
                        },
                    }
                } else {
                    lemma_walk_level_from(siblings, i + 1, j, entries, current, at);
                }
            },
            Node::Group { name, required, handler, children, .. } => {
                if name == entry.name {
                    let entered = Progress { cursor: at.cursor, handler, arguments: at.arguments };
                    match children {
                        Some(below) => match walk_entries(below, entries, entered) {
                            Walk::Done(after) => {
                                lemma_walk_level_from(siblings, i + 1, j, entries, current, after);
                            },
                            Walk::Failed(_) => {},
                        },
                        None => {
                            lemma_walk_level_from(siblings, i + 1, j, entries, current, entered);
                        },
                    }
                } else {
                    lemma_walk_level_from(siblings, i + 1, j, entries, current, at);
                }
            },
        }
    }
}

/// Whether the option `entry` leaves `node` unsatisfied: a required group
/// that it does not name, or a required leaf that it names without a value
/// of the leaf's type.
pub open spec fn unsatisfied_by<H>(node: Node<H>, entry: Entry) -> bool {
    match node {
        Node::Group { name, required, .. } => required && name != entry.name,
        Node::Leaf { name, required, kind } => required && name == entry.name && extract_spec(
            kind,
            entry.value,
        ) is None,
    }
}

/// A required node fails the walk over options where the option that its
/// list has read leaves it unsatisfied: a required group that the option does
/// not name, also after a group was entered in that list and its children
/// walked, and a required leaf that the option names without a value of its
/// type.
pub proof fn lemma_required_node_fails_options<H>(
    siblings: Seq<Node<H>>,
    j: int,
    entries: Seq<Entry>,
    current: int,
    at: Progress<H>,
)
    requires
        0 <= j < siblings.len(),
        level_reaches(siblings, 0, j, entries, current, at) matches Some(arrival)
            && unsatisfied_by(siblings[j], entries[arrival.read]),
    ensures
        walk_level(siblings, 0, entries, current, at) == Walk::Failed(
            level_reaches(siblings, 0, j, entries, current, at)->0.at,
        ),
{
    lemma_walk_level_from(siblings, 0, j, entries, current, at);
}

/// Options that leave a required node among the root's children unsatisfied
/// resolve to nothing.
pub proof fn lemma_required_node_unsatisfied_by_options<H>(
    tree: Tree<H>,
    j: int,
    entries: Seq<Entry>,
)
    requires
        entries.len() > 0,
        tree.children is Some,
        0 <= j < tree.children->0.len(),
        level_reaches(
            tree.children->0,
            0,
            j,
            entries,
            0,
            Progress { cursor: 1, handler: tree.handler, arguments: Map::empty() },
        ) matches Some(arrival) && unsatisfied_by(tree.children->0[j], entries[arrival.read]),
    ensures
        resolve_entries(tree, entries) is None,
{
    lemma_required_node_fails_options(
        tree.children->0,
        j,
        entries,
        0,
        Progress { cursor: 1, handler: tree.handler, arguments: Map::empty() },
    );
}

/// A required group fails the walk over words where the word that the walk
/// has come to is missing or is not the group's name.
pub proof fn lemma_required_group_fails_words<H>(
    siblings: Seq<Node<H>>,
    j: int,
    tokens: Seq<Seq<char>>,
    at: Progress<H>,
    reached: Progress<H>,
)
    requires
        0 <= j < siblings.len(),
        siblings[j] matches Node::Group { name, required, .. } && required && (!(0
            <= reached.cursor < tokens.len()) || tokens[reached.cursor] != name),
        walk_tokens(siblings.take(j), 0, tokens, at) == Walk::Done(reached),
    ensures
        walk_tokens(siblings, 0, tokens, at) == Walk::Failed(reached),
{
    lemma_walk_tokens_prefix(siblings, 0, j, tokens, at, reached);
}

/// A walk over options that fails inside a group fails the walk that entered
/// the group, with the progress made inside.
pub proof fn lemma_failure_below_fails_options<H>(
    siblings: Seq<Node<H>>,
    i: int,
    entries: Seq<Entry>,
    current: int,
    at: Progress<H>,
)
    requires
        0 <= i < siblings.len(),
        siblings[i] matches Node::Group { name, handler, children: Some(below), .. } && name
            == entries[current].name && walk_entries(
            below,
            entries,
            Progress { cursor: at.cursor, handler, arguments: at.arguments },
        ) is Failed,
    ensures
        siblings[i] matches Node::Group { handler, children: Some(below), .. } && walk_level(
            siblings,
            i,
            entries,
            current,
            at,
        ) == walk_entries(
            below,
            entries,
            Progress { cursor: at.cursor, handler, arguments: at.arguments },
        ),
{
}

/// Options that fail the walk over the root's children resolve to nothing.
pub proof fn lemma_failed_options_resolve_to_nothing<H>(tree: Tree<H>, entries: Seq<Entry>)
    requires
        entries.len() > 0,
        tree.children matches Some(children) && walk_entries(
            children,
            entries,
            start(tree.handler),
        ) is Failed,
    ensures
        resolve_entries(tree, entries) is None,
{
}

/// The handler of a resolution, if it found one.
pub open spec fn handler_of<H>(resolved: Option<(Arguments, H)>) -> Option<H> {
    match resolved {
        Some((_, handler)) => Some(handler),
        None => None,
    }
}

/// What the walk over options does at `node` with the option at `current` as
/// the one that the list has read.
pub open spec fn entry_decision<H>(node: Node<H>, entries: Seq<Entry>, current: int) -> Decision {
    match node {
        Node::Leaf { name, required, kind } => {
            if name != entries[current].name {
                Decision::Pass
            } else if extract_spec(kind, entries[current].value) is Some {
                Decision::Take
            } else if required {
                Decision::Fail
            } else {
                Decision::Pass
            }
        },
        Node::Group { name, required, .. } => {
            if name == entries[current].name {
                Decision::Enter
            } else if required {
                Decision::Fail
            } else {
                Decision::Pass
            }
        },
    }
}

/// The walk over words passes by every sibling from the one at `i` on, with
/// its cursor at `cursor`.
pub open spec fn words_pass<H>(
    siblings: Seq<Node<H>>,
    i: int,
    tokens: Seq<Seq<char>>,
    cursor: int,
) -> bool {
    forall|t: int|
        0 <= t < siblings.len() && i <= t ==> token_decision(#[trigger] siblings[t], tokens, cursor)
            is Pass
}

/// A walk over words that passes every sibling by ends where it stood.
pub proof fn lemma_words_pass<H>(
    siblings: Seq<Node<H>>,
    i: int,
    tokens: Seq<Seq<char>>,
    at: Progress<H>,
)
    requires
        words_pass(siblings, i, tokens, at.cursor),
    ensures
        walk_tokens(siblings, i, tokens, at) == Walk::Done(at),
    decreases siblings.len() - i,
{
    if 0 <= i < siblings.len() {
        assert(token_decision(siblings[i], tokens, at.cursor) is Pass);
        lemma_words_pass(siblings, i + 1, tokens, at);
    }
}

/// The words `tokens` and the flattened options `entries` take the same path
/// through the list `siblings`, entered with the progress `by_text` and
/// `by_entry`. Where no option is left for the list to read, the walk over
/// options ends at once, and the words pass every node by.
pub open spec fn same_path_in<H>(
    siblings: Seq<Node<H>>,
    tokens: Seq<Seq<char>>,
    by_text: Progress<H>,
    entries: Seq<Entry>,
    by_entry: Progress<H>,
) -> bool
    decreases siblings, siblings.len() + 1,
{
    if 0 <= by_entry.cursor < entries.len() {
        same_path(
            siblings,
            0,
            tokens,
            by_text,
            entries,
            by_entry.cursor,
            Progress {
                cursor: by_entry.cursor + 1,
                handler: by_entry.handler,
                arguments: by_entry.arguments,
            },
        )
    } else {
        words_pass(siblings, 0, tokens, by_text.cursor)
    }
}

/// The words `tokens` and the flattened options `entries` take the same path
/// through `siblings` from the one at `i` on: at every node that the two
/// walks come to, they decide alike. Where a leaf takes the last option, the
/// walk over options ends, and the words pass by the nodes that are left.
pub open spec fn same_path<H>(
    siblings: Seq<Node<H>>,
    i: int,
    tokens: Seq<Seq<char>>,
    by_text: Progress<H>,
    entries: Seq<Entry>,
    current: int,
    by_entry: Progress<H>,
) -> bool
    decreases siblings, siblings.len() - i,
{
    if i < 0 || i >= siblings.len() {
        true
    } else {
        let decision = token_decision(siblings[i], tokens, by_text.cursor);
        &&& decision == entry_decision(siblings[i], entries, current)
        &&& match decision {
            Decision::Fail => true,
            Decision::Pass => same_path(siblings, i + 1, tokens, by_text, entries, current, by_entry),
            Decision::Take => match siblings[i] {
                Node::Leaf { name, kind, .. } => {
                    let text_on = Progress {
                        cursor: by_text.cursor + 1,
                        handler: by_text.handler,
                        arguments: by_text.arguments.insert(
                            name,
                            parse_spec(kind, tokens[by_text.cursor])->0,
                        ),
                    };
                    if 0 <= by_entry.cursor < entries.len() {
                        same_path(
                            siblings,
                            i + 1,
                            tokens,
                            text_on,
                            entries,
                            by_entry.cursor,
                            Progress {
                                cursor: by_entry.cursor + 1,
                                handler: by_entry.handler,
                                arguments: by_entry.arguments.insert(
                                    name,
                                    extract_spec(kind, entries[current].value)->0,
                                ),
                            },
                        )
                    } else {
                        words_pass(siblings, i + 1, tokens, text_on.cursor)
                    }
                },
                Node::Group { .. } => true,
            },
            Decision::Enter => match siblings[i] {
                Node::Group { handler, children, .. } => {
                    let text_in = Progress {
                        cursor: by_text.cursor + 1,
                        handler,
                        arguments: by_text.arguments,
                    };
                    let entry_in = Progress {
                        cursor: by_entry.cursor,
                        handler,
                        arguments: by_entry.arguments,
                    };
                    match children {
                        Some(below) => {
                            &&& same_path_in(below, tokens, text_in, entries, entry_in)
                            &&& match (
                                walk_tokens(below, 0, tokens, text_in),
                                walk_entries(below, entries, entry_in),
                            ) {
                                (Walk::Done(text_out), Walk::Done(entry_out)) => same_path(
                                    siblings,
                                    i + 1,
                                    tokens,
                                    text_out,
                                    entries,
                                    current,
                                    entry_out,
                                ),
                                _ => true,
                            }
                        },
                        None => same_path(
                            siblings,
                            i + 1,
                            tokens,
                            text_in,
                            entries,
                            current,
                            entry_in,
                        ),
                    }
                },
                Node::Leaf { .. } => true,
            },
        }
    }
}

/// Two walks end alike: both fail, or both end with the same handler.
pub open spec fn same_end<H>(by_text: Walk<H>, by_entry: Walk<H>) -> bool {
    match (by_text, by_entry) {
        (Walk::Done(a), Walk::Done(b)) => a.handler == b.handler,
        (Walk::Failed(_), Walk::Failed(_)) => true,
        _ => false,
    }
}

/// Words and options that take the same path through a list, entered with
/// the same handler, end alike.
pub proof fn lemma_same_path_in_same_end<H>(
    siblings: Seq<Node<H>>,
    tokens: Seq<Seq<char>>,
    by_text: Progress<H>,
    entries: Seq<Entry>,
    by_entry: Progress<H>,
)
    requires
        same_path_in(siblings, tokens, by_text, entries, by_entry),
        by_text.handler == by_entry.handler,
    ensures
        same_end(walk_tokens(siblings, 0, tokens, by_text), walk_entries(siblings, entries, by_entry)),
    decreases siblings, siblings.len() + 1,
{
    if 0 <= by_entry.cursor < entries.len() {
        lemma_same_path_same_end(
            siblings,
            0,
            tokens,
            by_text,
            entries,
            by_entry.cursor,
            Progress {
                cursor: by_entry.cursor + 1,
                handler: by_entry.handler,
                arguments: by_entry.arguments,
            },
        );
    } else {
        lemma_words_pass(siblings, 0, tokens, by_text);
    }
}

/// Words and options that take the same path through a list of siblings,
/// starting with the same handler, end alike.
pub proof fn lemma_same_path_same_end<H>(
    siblings: Seq<Node<H>>,
    i: int,
    tokens: Seq<Seq<char>>,
    by_text: Progress<H>,
    entries: Seq<Entry>,
    current: int,
    by_entry: Progress<H>,
)
    requires
        same_path(siblings, i, tokens, by_text, entries, current, by_entry),
        by_text.handler == by_entry.handler,
    ensures
        same_end(
            walk_tokens(siblings, i, tokens, by_text),
            walk_level(siblings, i, entries, current, by_entry),
        ),
    decreases siblings, siblings.len() - i,
{
    if i < 0 || i >= siblings.len() {
    } else {
        let decision = token_decision(siblings[i], tokens, by_text.cursor);
        match decision {
            Decision::Fail => {},
            Decision::Pass => {
                lemma_same_path_same_end(
                    siblings,
                    i + 1,
                    tokens,
                    by_text,
                    entries,
                    current,
                    by_entry,
                );
            },
            Decision::Take => match siblings[i] {
                Node::Leaf { name, kind, .. } => {
                    let text_on = Progress {
                        cursor: by_text.cursor + 1,
                        handler: by_text.handler,
                        arguments: by_text.arguments.insert(
                            name,
                            parse_spec(kind, tokens[by_text.cursor])->0,
                        ),
                    };
                    if 0 <= by_entry.cursor < entries.len() {
                        lemma_same_path_same_end(
                            siblings,
                            i + 1,
                            tokens,
                            text_on,
                            entries,
                            by_entry.cursor,
                            Progress {
                                cursor: by_entry.cursor + 1,
                                handler: by_entry.handler,
                                arguments: by_entry.arguments.insert(
                                    name,
                                    extract_spec(kind, entries[current].value)->0,
                                ),
                            },
                        );
                    } else {
                        lemma_words_pass(siblings, i + 1, tokens, text_on);
                    }
                },
                Node::Group { .. } => {},
            },
            Decision::Enter => match siblings[i] {
                Node::Group { handler, children, .. } => {
                    let text_in = Progress {
                        cursor: by_text.cursor + 1,
                        handler,
                        arguments: by_text.arguments,
                    };
                    let entry_in = Progress {
                        cursor: by_entry.cursor,
                        handler,
                        arguments: by_entry.arguments,
                    };
                    match children {
                        Some(below) => {
                            lemma_same_path_in_same_end(below, tokens, text_in, entries, entry_in);
                            match (
                                walk_tokens(below, 0, tokens, text_in),
                                walk_entries(below, entries, entry_in),
                            ) {
                                (Walk::Done(text_out), Walk::Done(entry_out)) => {
                                    lemma_same_path_same_end(
                                        siblings,
                                        i + 1,
                                        tokens,
                                        text_out,
                                        entries,
                                        current,
                                        entry_out,
                                    );
                                },
                                _ => {},
                            }
                        },
                        None => {
                            lemma_same_path_same_end(
                                siblings,
                                i + 1,
                                tokens,
                                text_in,
                                entries,
                                current,
                                entry_in,
                            );
                        },
                    }
                },
                Node::Leaf { .. } => {},
            },
        }
    }
}

/// Words and options that take the same path through the list `siblings`
/// supply the same values on it.
pub open spec fn same_values_in<H>(
    siblings: Seq<Node<H>>,
    tokens: Seq<Seq<char>>,
    by_text: Progress<H>,
    entries: Seq<Entry>,
    by_entry: Progress<H>,
) -> bool
    decreases siblings, siblings.len() + 1,
{
    0 <= by_entry.cursor < entries.len() ==> same_values(
        siblings,
        0,
        tokens,
        by_text,
        entries,
        by_entry.cursor,
        Progress {
            cursor: by_entry.cursor + 1,
            handler: by_entry.handler,
            arguments: by_entry.arguments,
        },
    )
}

/// Words and options that take the same path through `siblings` from the one
/// at `i` on supply the same values on it: wherever the two walks take a
/// value for a leaf, they read the same value.
pub open spec fn same_values<H>(
    siblings: Seq<Node<H>>,
    i: int,
    tokens: Seq<Seq<char>>,
    by_text: Progress<H>,
    entries: Seq<Entry>,
    current: int,
    by_entry: Progress<H>,
) -> bool
    decreases siblings, siblings.len() - i,
{
    if i < 0 || i >= siblings.len() {
        true
    } else {
        match token_decision(siblings[i], tokens, by_text.cursor) {
            Decision::Fail => true,
            Decision::Pass => same_values(
                siblings,
                i + 1,
                tokens,
                by_text,
                entries,
                current,
                by_entry,
            ),
            Decision::Take => match siblings[i] {
                Node::Leaf { name, kind, .. } => {
                    let value = parse_spec(kind, tokens[by_text.cursor]);
                    &&& value == extract_spec(kind, entries[current].value)
                    &&& 0 <= by_entry.cursor < entries.len() ==> same_values(
                        siblings,
                        i + 1,
                        tokens,
                        Progress {
                            cursor: by_text.cursor + 1,
                            handler: by_text.handler,
                            arguments: by_text.arguments.insert(name, value->0),
                        },
                        entries,
                        by_entry.cursor,
                        Progress {
                            cursor: by_entry.cursor + 1,
                            handler: by_entry.handler,
                            arguments: by_entry.arguments.insert(name, value->0),
                        },
                    )
                },
                Node::Group { .. } => true,
            },
            Decision::Enter => match siblings[i] {
                Node::Group { handler, children, .. } => {
                    let text_in = Progress {
                        cursor: by_text.cursor + 1,
                        handler,
                        arguments: by_text.arguments,
                    };
                    let entry_in = Progress {
                        cursor: by_entry.cursor,
                        handler,
                        arguments: by_entry.arguments,
                    };
                    match children {
                        Some(below) => {
                            &&& same_values_in(below, tokens, text_in, entries, entry_in)
                            &&& match (
                                walk_tokens(below, 0, tokens, text_in),
                                walk_entries(below, entries, entry_in),
                            ) {
                                (Walk::Done(text_out), Walk::Done(entry_out)) => same_values(
                                    siblings,
                                    i + 1,
                                    tokens,
                                    text_out,
                                    entries,
                                    current,
                                    entry_out,
                                ),
                                _ => true,
                            }
                        },
                        None => same_values(
                            siblings,
                            i + 1,
                            tokens,
                            text_in,
                            entries,
                            current,
                            entry_in,
                        ),
                    }
                },
                Node::Leaf { .. } => true,
            },
        }
    }
}

/// Words and options that take the same path through a list and supply the
/// same values on it, starting with the same arguments, end with the same
/// arguments.
pub proof fn lemma_same_values_in_same_arguments<H>(
    siblings: Seq<Node<H>>,
    tokens: Seq<Seq<char>>,
    by_text: Progress<H>,
    entries: Seq<Entry>,
    by_entry: Progress<H>,
)
    requires
        same_path_in(siblings, tokens, by_text, entries, by_entry),
        same_values_in(siblings, tokens, by_text, entries, by_entry),
        by_text.arguments == by_entry.arguments,
    ensures
        match (walk_tokens(siblings, 0, tokens, by_text), walk_entries(siblings, entries, by_entry)) {
            (Walk::Done(a), Walk::Done(b)) => a.arguments == b.arguments,
            _ => true,
        },
    decreases siblings, siblings.len() + 1,
{
    if 0 <= by_entry.cursor < entries.len() {
        lemma_same_values_same_arguments(
            siblings,
            0,
            tokens,
            by_text,
            entries,
            by_entry.cursor,
            Progress {
                cursor: by_entry.cursor + 1,
                handler: by_entry.handler,
                arguments: by_entry.arguments,
            },
        );
    } else {
        lemma_words_pass(siblings, 0, tokens, by_text);
    }
}

/// Words and options that take the same path through a list of siblings and
/// supply the same values on it, starting with the same arguments, end with
/// the same arguments.
pub proof fn lemma_same_values_same_arguments<H>(
    siblings: Seq<Node<H>>,
    i: int,
    tokens: Seq<Seq<char>>,
    by_text: Progress<H>,
    entries: Seq<Entry>,
    current: int,
    by_entry: Progress<H>,
)
    requires
        same_path(siblings, i, tokens, by_text, entries, current, by_entry),
        same_values(siblings, i, tokens, by_text, entries, current, by_entry),
        by_text.arguments == by_entry.arguments,
    ensures
        match (
            walk_tokens(siblings, i, tokens, by_text),
            walk_level(siblings, i, entries, current, by_entry),
        ) {
            (Walk::Done(a), Walk::Done(b)) => a.arguments == b.arguments,
            _ => true,
        },
    decreases siblings, siblings.len() - i,
{
    if i < 0 || i >= siblings.len() {
    } else {
        match token_decision(siblings[i], tokens, by_text.cursor) {
            Decision::Fail => {},
            Decision::Pass => {
                lemma_same_values_same_arguments(
                    siblings,
                    i + 1,
                    tokens,
                    by_text,
                    entries,
                    current,
                    by_entry,
                );
            },
            Decision::Take => match siblings[i] {
                Node::Leaf { name, kind, .. } => {
                    let value = parse_spec(kind, tokens[by_text.cursor]);
                    let text_on = Progress {
                        cursor: by_text.cursor + 1,
                        handler: by_text.handler,
                        arguments: by_text.arguments.insert(name, value->0),
                    };
                    if 0 <= by_entry.cursor < entries.len() {
                        lemma_same_values_same_arguments(
                            siblings,
                            i + 1,
                            tokens,
                            text_on,
                            entries,
                            by_entry.cursor,
                            Progress {
                                cursor: by_entry.cursor + 1,
                                handler: by_entry.handler,
                                arguments: by_entry.arguments.insert(name, value->0),
                            },
                        );
                    } else {
                        lemma_words_pass(siblings, i + 1, tokens, text_on);
                    }
                },
                Node::Group { .. } => {},
            },
            Decision::Enter => match siblings[i] {
                Node::Group { handler, children, .. } => {
                    let text_in = Progress {
                        cursor: by_text.cursor + 1,
                        handler,
                        arguments: by_text.arguments,
                    };
                    let entry_in = Progress {
                        cursor: by_entry.cursor,
                        handler,
                        arguments: by_entry.arguments,
                    };
                    match children {
                        Some(below) => {
                            lemma_same_values_in_same_arguments(
                                below,
                                tokens,
                                text_in,
                                entries,
                                entry_in,
                            );
                            match (
                                walk_tokens(below, 0, tokens, text_in),
                                walk_entries(below, entries, entry_in),
                            ) {
                                (Walk::Done(text_out), Walk::Done(entry_out)) => {
                                    lemma_same_values_same_arguments(
                                        siblings,
                                        i + 1,
                                        tokens,
                                        text_out,
                                        entries,
                                        current,
                                        entry_out,
                                    );
                                },
                                _ => {},
                            }
                        },
                        None => {
                            lemma_same_values_same_arguments(
                                siblings,
                                i + 1,
                                tokens,
                                text_in,
                                entries,
                                current,
                                entry_in,
                            );
                        },
                    }
                },
                Node::Leaf { .. } => {},
            },
        }
    }
}

/// A message and an interaction that take the same path through the tree
/// and supply the same values on it resolve alike: to the same handler with
/// the same arguments, or both to nothing.
///
/// Left out is the case in which they differ by design: where the
/// interaction selects no handler and the root has one, the message falls
/// back to the root's handler.
pub proof fn lemma_message_and_interaction_resolve_alike<H>(
    tree: Tree<H>,
    content: String,
    options: Vec<InteractionOption>,
)
    requires
        tree.children matches Some(children) ==> same_path_in(
            children,
            message_tokens(content@),
            start(tree.handler),
            flatten(options@),
            start(tree.handler),
        ) && same_values_in(
            children,
            message_tokens(content@),
            start(tree.handler),
            flatten(options@),
            start(tree.handler),
        ),
        tree.handler is None || resolve(CommandSource::Interaction(options), tree) is Some,
    ensures
        resolve(CommandSource::Message(content), tree) == resolve(
            CommandSource::Interaction(options),
            tree,
        ),
{
    match tree.children {
        Some(children) => {
            lemma_same_path_in_same_end(
                children,
                message_tokens(content@),
                start(tree.handler),
                flatten(options@),
                start(tree.handler),
            );
            lemma_same_values_in_same_arguments(
                children,
                message_tokens(content@),
                start(tree.handler),
                flatten(options@),
                start(tree.handler),
            );
        },
        None => {},
    }
}

/// The two resolvers select the same handler for words and options that take
/// the same path through the tree.
///
/// Left out is the case in which they differ by design: where the options
/// select no handler and the root has one, the words fall back to the
/// root's handler and the options do not.
pub proof fn lemma_sources_agree_on_handler<H>(
    tree: Tree<H>,
    tokens: Seq<Seq<char>>,
    entries: Seq<Entry>,
)
    requires
        tree.children matches Some(children) ==> same_path_in(
            children,
            tokens,
            start(tree.handler),
            entries,
            start(tree.handler),
        ),
        tree.handler is None || resolve_entries(tree, entries) is Some,
    ensures
        handler_of(resolve_tokens(tree, tokens)) == handler_of(resolve_entries(tree, entries)),
{
    match tree.children {
        Some(children) => {
            lemma_same_path_in_same_end(
                children,
                tokens,
                start(tree.handler),
                entries,
                start(tree.handler),
            );
        },
        None => {},
    }
}

/// A message and an interaction that take the same path through the tree
/// resolve to the same handler.
///
/// Left out is the case in which they differ by design: where the
/// interaction selects no handler and the root has one, the message falls
/// back to the root's handler.
pub proof fn lemma_message_and_interaction_agree<H>(
    tree: Tree<H>,
    content: String,
    options: Vec<InteractionOption>,
)
    requires
        tree.children matches Some(children) ==> same_path_in(
            children,
            message_tokens(content@),
            start(tree.handler),
            flatten(options@),
            start(tree.handler),
        ),
        tree.handler is None || resolve(CommandSource::Interaction(options), tree) is Some,
    ensures
        handler_of(resolve(CommandSource::Message(content), tree)) == handler_of(
            resolve(CommandSource::Interaction(options), tree),
        ),
{
    lemma_sources_agree_on_handler(tree, message_tokens(content@), flatten(options@));
}

/// One step of an invocation: the choice of a group by its name, or a value
/// for a leaf under the leaf's name.
pub ghost enum Step {
    Enter { name: Seq<char> },
    Supply { name: Seq<char>, value: ArgumentValue },
}

/// The value of an option that carries `value`. An id is carried as the
/// integer of the same 64 bits.
pub open spec fn entry_value_of(value: ArgumentValue) -> EntryValue {
    match value {
        ArgumentValue::Text(s) => EntryValue::Text(s),
        ArgumentValue::Integer(i) => EntryValue::Integer(i as i64),
        ArgumentValue::Boolean(b) => EntryValue::Boolean(b),
        ArgumentValue::User(id) => EntryValue::Integer(id as i64),
        ArgumentValue::Channel(id) => EntryValue::Integer(id as i64),
        ArgumentValue::Role(id) => EntryValue::Integer(id as i64),
    }
}

/// The word that a step is written as in a message: the name of the group,
/// or the text of the value.
pub open spec fn word_of(step: Step) -> Seq<char> {
    match step {
        Step::Enter { name } => name,
        Step::Supply { value, .. } => text_of(value),
    }
}

/// The option that a step is carried as in an interaction: the name of the
/// group without a value, or the name of the leaf with the value.
pub open spec fn option_of(step: Step) -> Entry {
    match step {
        Step::Enter { name } => Entry { name, value: None },
        Step::Supply { name, value } => Entry { name, value: Some(entry_value_of(value)) },
    }
}

/// The words of an invocation.
pub open spec fn words_of(steps: Seq<Step>) -> Seq<Seq<char>> {
    Seq::new(steps.len(), |k: int| word_of(steps[k]))
}

/// The flattened options of an invocation.
pub open spec fn options_of(steps: Seq<Step>) -> Seq<Entry> {
    Seq::new(steps.len(), |k: int| option_of(steps[k]))
}

/// Every sibling from the one at `i` on is optional.
pub open spec fn rest_optional<H>(siblings: Seq<Node<H>>, i: int) -> bool {
    forall|t: int| 0 <= t < siblings.len() && i <= t ==> !(#[trigger] siblings[t]).required()
}

/// The siblings from the one at `i` on, which follow the group `name` that
/// an invocation has entered and used up its steps in, are met alike by
/// both walks: up to the first required one there is no further group
/// `name`, and the first required one is a group, or a leaf called `name`.
pub open spec fn left_over<H>(siblings: Seq<Node<H>>, i: int, name: Seq<char>) -> bool
    decreases siblings.len() - i,
{
    if i < 0 || i >= siblings.len() {
        true
    } else {
        match siblings[i] {
            Node::Group { name: n, required, .. } => {
                n != name && (required || left_over(siblings, i + 1, name))
            },
            Node::Leaf { name: n, required, .. } => {
                if required {
                    n == name
                } else {
                    left_over(siblings, i + 1, name)
                }
            },
        }
    }
}

/// The steps from the one at `k` on invoke the list `siblings`: they follow
/// it node by node, or there is none left and every node is optional.
pub open spec fn follows<H>(siblings: Seq<Node<H>>, steps: Seq<Step>, k: int) -> bool
    decreases siblings, siblings.len() + 1,
{
    if 0 <= k < steps.len() {
        follows_from(siblings, 0, steps, k)
    } else {
        k == steps.len() && rest_optional(siblings, 0)
    }
}

/// The steps from the one at `k` on follow `siblings` from the one at `i`
/// on, node by node:
/// - a step that chooses a group meets the group of that name, after
///   optional groups of other names, or a required group of another name,
///   which fails both walks; the steps that follow invoke the group's
///   children and use up all steps, and the siblings after the group are
///   left over;
/// - a step that supplies a value meets the leaf of that name, of the type
///   of the value; where it is the last step, the nodes that are left are
///   optional.
pub open spec fn follows_from<H>(siblings: Seq<Node<H>>, i: int, steps: Seq<Step>, k: int) -> bool
    decreases siblings, siblings.len() - i,
{
    if i < 0 || i >= siblings.len() {
        false
    } else {
        match (siblings[i], steps[k]) {
            (Node::Group { name, required, children, .. }, Step::Enter { name: chosen }) => {
                if name == chosen {
                    &&& match children {
                        Some(below) => follows(below, steps, k + 1),
                        None => k + 1 == steps.len(),
                    }
                    &&& left_over(siblings, i + 1, name)
                } else {
                    required || follows_from(siblings, i + 1, steps, k)
                }
            },
            (Node::Leaf { name, kind, .. }, Step::Supply { name: supplied, value }) => {
                &&& name == supplied
                &&& kind == kind_of(value)
                &&& if k + 1 < steps.len() {
                    follows_from(siblings, i + 1, steps, k + 1)
                } else {
                    rest_optional(siblings, i + 1)
                }
            },
            _ => false,
        }
    }
}

/// Two walks end together: both fail, or both come to the end of their list
/// with all of `count` pieces of input used up.
pub open spec fn ends_together<H>(by_text: Walk<H>, by_entry: Walk<H>, count: int) -> bool {
    match (by_text, by_entry) {
        (Walk::Done(a), Walk::Done(b)) => a.cursor == count && b.cursor == count,
        (Walk::Failed(_), Walk::Failed(_)) => true,
        _ => false,
    }
}

/// The siblings left over after an invocation has entered a group and used
/// up its steps are met alike by both walks.
pub proof fn lemma_left_over_takes_one_path<H>(
    siblings: Seq<Node<H>>,
    i: int,
    steps: Seq<Step>,
    current: int,
    by_text: Progress<H>,
    by_entry: Progress<H>,
)
    requires
        0 <= current < steps.len(),
        steps[current] matches Step::Enter { name } && left_over(siblings, i, name),
        by_text.cursor == steps.len(),
        by_entry.cursor == steps.len(),
    ensures
        same_path(siblings, i, words_of(steps), by_text, options_of(steps), current, by_entry),
        ends_together(
            walk_tokens(siblings, i, words_of(steps), by_text),
            walk_level(siblings, i, options_of(steps), current, by_entry),
            steps.len() as int,
        ),
    decreases siblings.len() - i,
{
    let entries = options_of(steps);
    if 0 <= i < siblings.len() {
        assert(entries[current] == option_of(steps[current]));
        if !siblings[i].required() {
            lemma_left_over_takes_one_path(siblings, i + 1, steps, current, by_text, by_entry);
        }
    }
}

/// The words of an invocation pass by nodes that are all optional, once the
/// steps are used up.
pub proof fn lemma_rest_optional_passes<H>(siblings: Seq<Node<H>>, i: int, steps: Seq<Step>)
    requires
        rest_optional(siblings, i),
    ensures
        words_pass(siblings, i, words_of(steps), steps.len() as int),
{
    assert forall|t: int| 0 <= t < siblings.len() && i <= t implies token_decision(
        #[trigger] siblings[t],
        words_of(steps),
        steps.len() as int,
    ) is Pass by {
        assert(!siblings[t].required());
    }
}

/// The words and the options of an invocation of a list take the same path
/// through it, and the two walks end together.
pub proof fn lemma_invocation_takes_one_path_in<H>(
    siblings: Seq<Node<H>>,
    steps: Seq<Step>,
    k: int,
    by_text: Progress<H>,
    by_entry: Progress<H>,
)
    requires
        follows(siblings, steps, k),
        by_text.cursor == k,
        by_entry.cursor == k,
    ensures
        same_path_in(siblings, words_of(steps), by_text, options_of(steps), by_entry),
        ends_together(
            walk_tokens(siblings, 0, words_of(steps), by_text),
            walk_entries(siblings, options_of(steps), by_entry),
            steps.len() as int,
        ),
    decreases siblings, siblings.len() + 1,
{
    if 0 <= k < steps.len() {
        lemma_invocation_takes_one_path(
            siblings,
            0,
            steps,
            k,
            by_text,
            Progress { cursor: k + 1, handler: by_entry.handler, arguments: by_entry.arguments },
        );
    } else {
        lemma_rest_optional_passes(siblings, 0, steps);
        lemma_words_pass(siblings, 0, words_of(steps), by_text);
    }
}

/// The words and the options of an invocation that follows a list of
/// siblings take the same path through it, and the two walks end together.
pub proof fn lemma_invocation_takes_one_path<H>(
    siblings: Seq<Node<H>>,
    i: int,
    steps: Seq<Step>,
    k: int,
    by_text: Progress<H>,
    by_entry: Progress<H>,
)
    requires
        0 <= k < steps.len(),
        follows_from(siblings, i, steps, k),
        by_text.cursor == k,
        by_entry.cursor == k + 1,
    ensures
        same_path(siblings, i, words_of(steps), by_text, options_of(steps), k, by_entry),
        ends_together(
            walk_tokens(siblings, i, words_of(steps), by_text),
            walk_level(siblings, i, options_of(steps), k, by_entry),
            steps.len() as int,
        ),
    decreases siblings, siblings.len() - i,
{
    let tokens = words_of(steps);
    let entries = options_of(steps);
    assert(tokens[k] == word_of(steps[k]));
    assert(entries[k] == option_of(steps[k]));
    match (siblings[i], steps[k]) {
        (Node::Group { name, required, handler, children, .. }, Step::Enter { name: chosen }) => {
            if name == chosen {
                let text_in = Progress {
                    cursor: by_text.cursor + 1,
                    handler,
                    arguments: by_text.arguments,
                };
                let entry_in = Progress {
                    cursor: by_entry.cursor,
                    handler,
                    arguments: by_entry.arguments,
                };
                match children {
                    Some(below) => {
                        lemma_invocation_takes_one_path_in(below, steps, k + 1, text_in, entry_in);
                        match (
                            walk_tokens(below, 0, tokens, text_in),
                            walk_entries(below, entries, entry_in),
                        ) {
                            (Walk::Done(text_out), Walk::Done(entry_out)) => {
                                lemma_left_over_takes_one_path(
                                    siblings,
                                    i + 1,
                                    steps,
                                    k,
                                    text_out,
                                    entry_out,
                                );
                            },
                            _ => {},
                        }
                    },
                    None => {
                        lemma_left_over_takes_one_path(
                            siblings,
                            i + 1,
                            steps,
                            k,
                            text_in,
                            entry_in,
                        );
                    },
                }
            } else if !required {
                lemma_invocation_takes_one_path(siblings, i + 1, steps, k, by_text, by_entry);
            }
        },
        (Node::Leaf { name, kind, .. }, Step::Supply { name: supplied, value }) => {
            lemma_text_of_parses_back(value);
            assert(parse_spec(kind, tokens[k]) == Some(value));
            assert(extract_spec(kind, entries[k].value) is Some);
            let text_on = Progress {
                cursor: by_text.cursor + 1,
                handler: by_text.handler,
                arguments: by_text.arguments.insert(name, parse_spec(kind, tokens[k])->0),
            };
            if k + 1 < steps.len() {
                lemma_invocation_takes_one_path(
                    siblings,
                    i + 1,
                    steps,
                    k + 1,
                    text_on,
                    Progress {
                        cursor: by_entry.cursor + 1,
                        handler: by_entry.handler,
                        arguments: by_entry.arguments.insert(
                            name,
                            extract_spec(kind, entries[k].value)->0,
                        ),
                    },
                );
            } else {
                lemma_rest_optional_passes(siblings, i + 1, steps);
                lemma_words_pass(siblings, i + 1, tokens, text_on);
            }
        },
        _ => {},
    }
}

/// An invocation resolves to the same handler whether it comes as words or
/// as options: the steps choose groups of the tree by name, one below the
/// other, and supply values to leaves in the order of the schema. A required
/// group that the invocation does not choose fails both, also where it
/// stands after the group that was chosen.
///
/// Left out is what the two walks meet differently by design:
/// - where the options select no handler and the root has one, the words
///   fall back to the root's handler;
/// - the walk over options ends where a leaf has taken the last option, and
///   walks nothing below a group entered with no option left, so the nodes
///   left there have to be optional;
/// - a leaf takes any word of its type but only an option of its name, so
///   before a chosen group stand only groups, and after it, up to the first
///   required node, no second group of its name and no required leaf of
///   another name.
pub proof fn lemma_invocation_resolves_to_one_handler<H>(tree: Tree<H>, steps: Seq<Step>)
    requires
        tree.children matches Some(children) ==> follows(children, steps, 0),
        tree.handler is None || resolve_entries(tree, options_of(steps)) is Some,
    ensures
        handler_of(resolve_tokens(tree, words_of(steps))) == handler_of(
            resolve_entries(tree, options_of(steps)),
        ),
{
    match tree.children {
        Some(children) => {
            lemma_invocation_takes_one_path_in(
                children,
                steps,
                0,
                start(tree.handler),
                start(tree.handler),
            );
        },
        None => {},
    }
    lemma_sources_agree_on_handler(tree, words_of(steps), options_of(steps));
}

/// A message whose words are those of an invocation and an interaction whose
/// options are those of the same invocation resolve to the same handler.
///
/// Left out is the case in which the two differ by design: where the
/// interaction selects no handler and the root has one, the message falls
/// back to the root's handler.
pub proof fn lemma_invocation_resolves_alike_from_both_sources<H>(
    tree: Tree<H>,
    steps: Seq<Step>,
    content: String,
    options: Vec<InteractionOption>,
)
    requires
        message_tokens(content@) == words_of(steps),
        flatten(options@) == options_of(steps),
        tree.children matches Some(children) ==> follows(children, steps, 0),
        tree.handler is None || resolve(CommandSource::Interaction(options), tree) is Some,
    ensures
        handler_of(resolve(CommandSource::Message(content), tree)) == handler_of(
            resolve(CommandSource::Interaction(options), tree),
        ),
{
    lemma_invocation_resolves_to_one_handler(tree, steps);
}

/// A walk over words that gets through the first `j` siblings goes on from
/// the `j`-th with the progress it has made.
pub proof fn lemma_walk_tokens_prefix<H>(
    siblings: Seq<Node<H>>,
    i: int,
    j: int,
    tokens: Seq<Seq<char>>,
    at: Progress<H>,
    reached: Progress<H>,
)
    requires
        0 <= i <= j <= siblings.len(),
        walk_tokens(siblings.take(j), i, tokens, at) == Walk::Done(reached),
    ensures
        walk_tokens(siblings, i, tokens, at) == walk_tokens(siblings, j, tokens, reached),
    decreases j - i,
{
    let prefix = siblings.take(j);
    if i < j {
        assert(prefix[i] == siblings[i]);
        let present = 0 <= at.cursor < tokens.len();
        match siblings[i] {
            Node::Leaf { name, required, kind } => {
                let parsed = if present {
                    parse_spec(kind, tokens[at.cursor])
                } else {
                    None
                };
                match parsed {
                    Some(value) => {
                        lemma_walk_tokens_prefix(
                            siblings,
                            i + 1,
                            j,
                            tokens,
                            Progress {
                                cursor: at.cursor + 1,
                                handler: at.handler,
                                arguments: at.arguments.insert(name, value),
                            },
                            reached,
                        );
                    },
                    None => {
                        if !required {
                            lemma_walk_tokens_prefix(siblings, i + 1, j, tokens, at, reached);
                        }
                    },
                }
            },
            Node::Group { name, required, handler, children, .. } => {
                if present && tokens[at.cursor] == name {
                    let entered = Progress {
                        cursor: at.cursor + 1,
                        handler,
                        arguments: at.arguments,
                    };
                    match children {
                        Some(below) => match walk_tokens(below, 0, tokens, entered) {
                            Walk::Done(after) => {
                                lemma_walk_tokens_prefix(siblings, i + 1, j, tokens, after, reached);
                            },
                            Walk::Failed(_) => {},
                        },
                        None => {
                            lemma_walk_tokens_prefix(siblings, i + 1, j, tokens, entered, reached);
                        },
                    }
                } else if !required {
                    lemma_walk_tokens_prefix(siblings, i + 1, j, tokens, at, reached);
                }
            },
        }
    }
}

/// A required leaf fails the walk over words where the word that the walk
/// has come to is missing or not of the leaf's type; the siblings before the
/// leaf may have taken the words before it.
pub proof fn lemma_required_leaf_fails_words<H>(
    siblings: Seq<Node<H>>,
    j: int,
    tokens: Seq<Seq<char>>,
    at: Progress<H>,
    reached: Progress<H>,
)
    requires
        0 <= j < siblings.len(),
        siblings[j] matches Node::Leaf { required, kind, .. } && required && (!(0
            <= reached.cursor < tokens.len()) || parse_spec(kind, tokens[reached.cursor]) is None),
        walk_tokens(siblings.take(j), 0, tokens, at) == Walk::Done(reached),
    ensures
        walk_tokens(siblings, 0, tokens, at) == Walk::Failed(reached),
{
    lemma_walk_tokens_prefix(siblings, 0, j, tokens, at, reached);
}

/// Words that lack a valid value for a required leaf among the root's
/// children, or whose value for it an earlier sibling has taken, resolve to
/// the root's handler with no arguments: to nothing where the root has no
/// handler.
pub proof fn lemma_required_leaf_unsatisfied_by_words<H>(
    tree: Tree<H>,
    j: int,
    tokens: Seq<Seq<char>>,
    reached: Progress<H>,
)
    requires
        tree.children is Some,
        0 <= j < tree.children->0.len(),
        tree.children->0[j] matches Node::Leaf { required, kind, .. } && required && (!(0
            <= reached.cursor < tokens.len()) || parse_spec(kind, tokens[reached.cursor]) is None),
        walk_tokens(tree.children->0.take(j), 0, tokens, start(tree.handler)) == Walk::Done(
            reached,
        ),
    ensures
        resolve_tokens(tree, tokens) == bare(tree.handler),
        tree.handler is None ==> resolve_tokens(tree, tokens) is None,
{
    lemma_required_leaf_fails_words(tree.children->0, j, tokens, start(tree.handler), reached);
}

/// A walk that fails inside a group fails the walk that entered the group,
/// with the progress made inside.
pub proof fn lemma_failure_below_fails_words<H>(
    siblings: Seq<Node<H>>,
    i: int,
    tokens: Seq<Seq<char>>,
    at: Progress<H>,
)
    requires
        0 <= i < siblings.len(),
        0 <= at.cursor < tokens.len(),
        siblings[i] matches Node::Group { name, handler, children: Some(below), .. } && name
            == tokens[at.cursor] && walk_tokens(
            below,
            0,
            tokens,
            Progress { cursor: at.cursor + 1, handler, arguments: at.arguments },
        ) is Failed,
    ensures
        siblings[i] matches Node::Group { handler, children: Some(below), .. } && walk_tokens(
            siblings,
            i,
            tokens,
            at,
        ) == walk_tokens(
            below,
            0,
            tokens,
            Progress { cursor: at.cursor + 1, handler, arguments: at.arguments },
        ),
{
}

/// Words that fail the walk over the root's children resolve to the root's
/// handler with no arguments: to nothing where the root has no handler.
pub proof fn lemma_failed_words_resolve_bare<H>(tree: Tree<H>, tokens: Seq<Seq<char>>)
    requires
        tree.children matches Some(children) && walk_tokens(
            children,
            0,
            tokens,
            start(tree.handler),
        ) is Failed,
    ensures
        resolve_tokens(tree, tokens) == bare(tree.handler),
        tree.handler is None ==> resolve_tokens(tree, tokens) is None,
{
}

/// A walk over words keeps within its frame, however it ends: its cursor only
/// moves forward, by no more than there are nodes; it changes the arguments
/// only under the names of leaves, to values of their types; and the handler
/// it ends with is the one it began with or that of a group that a piece of
/// input named.
pub proof fn lemma_walk_tokens_frame<H>(
    siblings: Seq<Node<H>>,
    i: int,
    tokens: Seq<Seq<char>>,
    at: Progress<H>,
)
    ensures
        within_frame_from(
            siblings,
            i,
            tokens,
            at,
            walk_tokens(siblings, i, tokens, at).progress(),
        ),
    decreases siblings, siblings.len() - i,
{
    let names = tokens;
    if i < 0 || i >= siblings.len() {
    } else {
                match siblings[i] {
            Node::Leaf { name, required, kind } => {
                let taken = if 0 <= at.cursor < tokens.len() {
                    parse_spec(kind, tokens[at.cursor])
                } else {
                    None
                };
                match taken {
                    Some(value) => {
                        let next = Progress {
                            cursor: at.cursor + 1,
                            handler: at.handler,
                            arguments: at.arguments.insert(name, value),
                        };
                        assert(kind_of(value) == kind);
                        assert(node_has_leaf(siblings[i], name, kind));
                        lemma_framed_insert(at.arguments, siblings, name, value);
                        lemma_walk_tokens_frame(siblings, i + 1, tokens, next);
                        let end = walk_tokens(siblings, i + 1, tokens, next).progress();
                        lemma_framed_chain(at.arguments, next.arguments, end.arguments, siblings);
                        lemma_handler_chain(
                            siblings,
                            names,
                            at.cursor,
                            next.cursor,
                            next.cursor,
                            end.cursor,
                            at.handler,
                            next.handler,
                            end.handler,
                        );
                    },
                    None => {
                        if !required {
                            lemma_walk_tokens_frame(siblings, i + 1, tokens, at);
                        }
                    },
                }
            },
            Node::Group { name, required, handler, children, .. } => {
                if 0 <= at.cursor < tokens.len() && tokens[at.cursor] == name {
                    let entered = Progress {
                        cursor: at.cursor + 1,
                        handler,
                        arguments: at.arguments,
                    };
                    assert(node_has_group(siblings[i], names[at.cursor], handler));
                    assert(handler_from(
                        siblings,
                        names,
                        at.cursor,
                        entered.cursor,
                        at.handler,
                        entered.handler,
                    ));
                    match children {
                        Some(below) => {
                            lemma_walk_tokens_frame(below, 0, tokens, entered);
                            let inside = walk_tokens(below, 0, tokens, entered);
                            let mid = inside.progress();
                            lemma_framed_above(entered.arguments, mid.arguments, siblings, i);
                            lemma_handler_above(
                                siblings,
                                i,
                                names,
                                entered.cursor,
                                mid.cursor,
                                entered.handler,
                                mid.handler,
                            );
                            lemma_handler_chain(
                                siblings,
                                names,
                                at.cursor,
                                entered.cursor,
                                entered.cursor,
                                mid.cursor,
                                at.handler,
                                entered.handler,
                                mid.handler,
                            );
                            if inside is Done {
                                lemma_walk_tokens_frame(siblings, i + 1, tokens, mid);
                                let end = walk_tokens(siblings, i + 1, tokens, mid).progress();
                                lemma_framed_chain(
                                    at.arguments,
                                    mid.arguments,
                                    end.arguments,
                                    siblings,
                                );
                                lemma_handler_chain(
                                    siblings,
                                    names,
                                    at.cursor,
                                    mid.cursor,
                                    mid.cursor,
                                    end.cursor,
                                    at.handler,
                                    mid.handler,
                                    end.handler,
                                );
                            }
                        },
                        None => {
                            lemma_walk_tokens_frame(siblings, i + 1, tokens, entered);
                            let end = walk_tokens(siblings, i + 1, tokens, entered).progress();
                            lemma_handler_chain(
                                siblings,
                                names,
                                at.cursor,
                                entered.cursor,
                                entered.cursor,
                                end.cursor,
                                at.handler,
                                entered.handler,
                                end.handler,
                            );
                        },
                    }
                } else if !required {
                    lemma_walk_tokens_frame(siblings, i + 1, tokens, at);
                }
            },
        }
    }
}


/// What a walk over options may do from the sibling at `i` on, with the
/// option at `current` as the one its list has read: as `within_frame_from`
/// has it, with the handler taken from a group that an option from `current`
/// on named.
pub open spec fn level_within_frame<H>(
    siblings: Seq<Node<H>>,
    i: int,
    entries: Seq<Entry>,
    current: int,
    at: Progress<H>,
    end: Progress<H>,
) -> bool {
    &&& at.cursor <= end.cursor <= at.cursor + count_from(siblings, i)
    &&& end.cursor == at.cursor || end.cursor <= entries.len()
    &&& framed(at.arguments, end.arguments, siblings)
    &&& handler_from(
        siblings,
        entry_names(entries),
        current,
        end.cursor,
        at.handler,
        end.handler,
    )
}

/// A walk over a list of options keeps within its frame, however it ends:
/// its cursor only moves forward, by no more than one for the list and one
/// for each node in or below it; it changes the arguments only under the
/// names of leaves, to values of their types; and the handler it ends with
/// is the one it began with or that of a group that an option named.
pub proof fn lemma_walk_entries_frame<H>(
    siblings: Seq<Node<H>>,
    entries: Seq<Entry>,
    at: Progress<H>,
)
    ensures
        ({
            let end = walk_entries(siblings, entries, at).progress();
            &&& at.cursor <= end.cursor <= at.cursor + 1 + count_from(siblings, 0)
            &&& end.cursor == at.cursor || end.cursor <= entries.len()
            &&& framed(at.arguments, end.arguments, siblings)
            &&& handler_from(
                siblings,
                entry_names(entries),
                at.cursor,
                end.cursor,
                at.handler,
                end.handler,
            )
        }),
    decreases siblings, siblings.len() + 1,
{
    if 0 <= at.cursor < entries.len() {
        lemma_walk_level_frame(
            siblings,
            0,
            entries,
            at.cursor,
            Progress { cursor: at.cursor + 1, handler: at.handler, arguments: at.arguments },
        );
    }
}

/// A walk over options from the sibling at `i` on keeps within its frame,
/// however it ends.
pub proof fn lemma_walk_level_frame<H>(
    siblings: Seq<Node<H>>,
    i: int,
    entries: Seq<Entry>,
    current: int,
    at: Progress<H>,
)
    requires
        0 <= current < at.cursor <= entries.len(),
    ensures
        level_within_frame(
            siblings,
            i,
            entries,
            current,
            at,
            walk_level(siblings, i, entries, current, at).progress(),
        ),
    decreases siblings, siblings.len() - i,
{
    let names = entry_names(entries);
    if i < 0 || i >= siblings.len() {
    } else {
        assert(names[current] == entries[current].name);
        match siblings[i] {
            Node::Leaf { name, required, kind } => {
                if name == entries[current].name {
                    match extract_spec(kind, entries[current].value) {
                        Some(value) => {
                            let arguments = at.arguments.insert(name, value);
                            assert(kind_of(value) == kind);
                            assert(node_has_leaf(siblings[i], name, kind));
                            lemma_framed_insert(at.arguments, siblings, name, value);
                            if 0 <= at.cursor < entries.len() {
                                let next = Progress {
                                    cursor: at.cursor + 1,
                                    handler: at.handler,
                                    arguments,
                                };
                                lemma_walk_level_frame(siblings, i + 1, entries, at.cursor, next);
                                let end = walk_level(
                                    siblings,
                                    i + 1,
                                    entries,
                                    at.cursor,
                                    next,
                                ).progress();
                                lemma_framed_chain(
                                    at.arguments,
                                    next.arguments,
                                    end.arguments,
                                    siblings,
                                );
                                lemma_handler_chain(
                                    siblings,
                                    names,
                                    current,
                                    at.cursor,
                                    at.cursor,
                                    end.cursor,
                                    at.handler,
                                    next.handler,
                                    end.handler,
                                );
                            }
                        },
                        None => {
                            if !required {
                                lemma_walk_level_frame(siblings, i + 1, entries, current, at);
                            }
                        },
                    }
                } else {
                    lemma_walk_level_frame(siblings, i + 1, entries, current, at);
                }
            },
            Node::Group { name, required, handler, children, .. } => {
                if name == entries[current].name {
                    let entered = Progress { cursor: at.cursor, handler, arguments: at.arguments };
                    assert(node_has_group(siblings[i], names[current], handler));
                    assert(handler_from(
                        siblings,
                        names,
                        current,
                        at.cursor,
                        at.handler,
                        entered.handler,
                    ));
                    match children {
                        Some(below) => {
                            lemma_walk_entries_frame(below, entries, entered);
                            let inside = walk_entries(below, entries, entered);
                            let mid = inside.progress();
                            lemma_framed_above(entered.arguments, mid.arguments, siblings, i);
                            lemma_handler_above(
                                siblings,
                                i,
                                names,
                                entered.cursor,
                                mid.cursor,
                                entered.handler,
                                mid.handler,
                            );
                            lemma_handler_chain(
                                siblings,
                                names,
                                current,
                                entered.cursor,
                                at.cursor,
                                mid.cursor,
                                at.handler,
                                entered.handler,
                                mid.handler,
                            );
                            if inside is Done {
                                lemma_walk_level_frame(siblings, i + 1, entries, current, mid);
                                let end = walk_level(
                                    siblings,
                                    i + 1,
                                    entries,
                                    current,
                                    mid,
                                ).progress();
                                lemma_framed_chain(
                                    at.arguments,
                                    mid.arguments,
                                    end.arguments,
                                    siblings,
                                );
                                lemma_handler_chain(
                                    siblings,
                                    names,
                                    current,
                                    current,
                                    mid.cursor,
                                    end.cursor,
                                    at.handler,
                                    mid.handler,
                                    end.handler,
                                );
                            }
                        },
                        None => {
                            lemma_walk_level_frame(siblings, i + 1, entries, current, entered);
                            let end = walk_level(
                                siblings,
                                i + 1,
                                entries,
                                current,
                                entered,
                            ).progress();
                            lemma_handler_chain(
                                siblings,
                                names,
                                current,
                                current,
                                at.cursor,
                                end.cursor,
                                at.handler,
                                entered.handler,
                                end.handler,
                            );
                        },
                    }
                } else if !required {
                    lemma_walk_level_frame(siblings, i + 1, entries, current, at);
                }
            },
        }
    }
}

} // verus!
