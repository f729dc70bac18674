//! Resolution of structured interaction options against the schema.
//!
//! The options of an interaction nest as the chosen subcommands do. They are
//! flattened, parents before children, and read one after the other by a
//! cursor that all levels of the schema share. Each list of siblings reads
//! the next option when it is entered and matches its nodes against that
//! option by name. A leaf that carries the name takes the value, and the
//! list reads the next option; where none is left, the walk over the list
//! ends. A group that carries the name is entered: its children read on from
//! the cursor, and the siblings that follow the group are still matched
//! against the group's own option. A required group that the option does
//! not name, and a required leaf that it names without a value of its type,
//! fail the resolution as a whole, wherever in the tree they stand.

use vstd::prelude::*;

use crate::argument::{Argument, ArgumentKind, ArgumentValue, ChannelId, RoleId, UserId};
use crate::argument_map::ArgumentMap;
use crate::commands::{nodes_of, CommandArguments, CommandArgumentsTree, Node, Tree};
use crate::laws::lemma_walk_entries_frame;
use crate::text::str_eq;
use crate::walk::{
    bare, count_nodes, framed, handler_from, outcome, start, within_frame_from, Arguments,
    Progress, Walk,
};

verus! {

/// The value that an option of an interaction carries, as far as a resolver
/// reads it: a string, an integer that fits in 64 bits with a sign, a
/// boolean, or something else.
#[derive(Debug, PartialEq, Eq)]
pub enum OptionValue {
    String(String),
    Integer(i64),
    Boolean(bool),
    Other,
}

/// One option of an interaction: its name, its value if it has one, and the
/// options nested in it.
#[derive(Debug, PartialEq, Eq)]
pub struct InteractionOption {
    pub name: String,
    pub value: Option<OptionValue>,
    pub options: Vec<InteractionOption>,
}

/// What an [`OptionValue`] holds, as a mathematical value.
pub ghost enum EntryValue {
    Text(Seq<char>),
    Integer(i64),
    Boolean(bool),
    Other,
}

/// What a resolver reads of one option: its name and its value.
pub ghost struct Entry {
    pub name: Seq<char>,
    pub value: Option<EntryValue>,
}

impl View for OptionValue {
    type V = EntryValue;

    open spec fn view(&self) -> EntryValue {
        match *self {
            OptionValue::String(s) => EntryValue::Text(s@),
            OptionValue::Integer(i) => EntryValue::Integer(i),
            OptionValue::Boolean(b) => EntryValue::Boolean(b),
            OptionValue::Other => EntryValue::Other,
        }
    }
}

/// The entry that an option stands for, whatever is nested in it.
pub open spec fn entry_of(option: InteractionOption) -> Entry {
    Entry {
        name: option.name@,
        value: match option.value {
            Some(v) => Some(v@),
            None => None,
        },
    }
}

/// The entries that a vector of options stands for, one for one.
pub open spec fn entries_view(options: Seq<&InteractionOption>) -> Seq<Entry> {
    Seq::new(options.len(), |i: int| entry_of(*options[i]))
}

/// The names that a sequence of entries carries, one for one.
pub open spec fn entry_names(entries: Seq<Entry>) -> Seq<Seq<char>> {
    Seq::new(entries.len(), |k: int| entries[k].name)
}

/// The options that a vector of references stands for, one for one.
pub open spec fn options_view(options: Seq<&InteractionOption>) -> Seq<InteractionOption> {
    Seq::new(options.len(), |i: int| *options[i])
}

/// The entries that a sequence of options stands for, one for one.
pub open spec fn entries_of(options: Seq<InteractionOption>) -> Seq<Entry> {
    Seq::new(options.len(), |i: int| entry_of(options[i]))
}

/// An option and all that is nested in it, parents before children.
pub open spec fn flatten_one(option: InteractionOption) -> Seq<InteractionOption>
    decreases option, 0nat,
{
    seq![option] + flatten_from(option.options@, 0)
}

/// The options from the one at `i` on, each with all that is nested in it.
pub open spec fn flatten_from(options: Seq<InteractionOption>, i: int) -> Seq<InteractionOption>
    decreases options, options.len() - i,
{
    if i < 0 || i >= options.len() {
        Seq::empty()
    } else {
        flatten_one(options[i]) + flatten_from(options, i + 1)
    }
}

/// The options of an interaction as one flat sequence of entries.
pub open spec fn flatten(options: Seq<InteractionOption>) -> Seq<Entry> {
    entries_of(flatten_from(options, 0))
}

/// The value that a leaf of type `kind` takes from the value of an entry, if
/// it accepts it. An integer is cut to the width of the leaf's type.
pub open spec fn extract_spec(kind: ArgumentKind, value: Option<EntryValue>) -> Option<
    ArgumentValue,
> {
    match (kind, value) {
        (ArgumentKind::String, Some(EntryValue::Text(s))) => Some(ArgumentValue::Text(s)),
        (ArgumentKind::Integer, Some(EntryValue::Integer(i))) => Some(
            ArgumentValue::Integer(i as i32),
        ),
        (ArgumentKind::Boolean, Some(EntryValue::Boolean(b))) => Some(ArgumentValue::Boolean(b)),
        (ArgumentKind::User, Some(EntryValue::Integer(i))) => Some(ArgumentValue::User(i as u64)),
        (ArgumentKind::Channel, Some(EntryValue::Integer(i))) => Some(
            ArgumentValue::Channel(i as u64),
        ),
        (ArgumentKind::Role, Some(EntryValue::Integer(i))) => Some(ArgumentValue::Role(i as u64)),
        _ => None,
    }
}

/// The walk over the list `siblings` against the flattened options
/// `entries`, from the progress `at`. The list reads the option under the
/// cursor and moves the cursor past it; where no option is left, the walk
/// ends at once.
pub open spec fn walk_entries<H>(siblings: Seq<Node<H>>, entries: Seq<Entry>, at: Progress<H>) -> Walk<
    H,
>
    decreases siblings, siblings.len() + 1,
{
    if 0 <= at.cursor < entries.len() {
        walk_level(
            siblings,
            0,
            entries,
            at.cursor,
            Progress { cursor: at.cursor + 1, handler: at.handler, arguments: at.arguments },
        )
    } else {
        Walk::Done(at)
    }
}

/// The walk over `siblings` from the one at `i` on, with the option at
/// `current` as the one that the list has read, from the progress `at`.
pub open spec fn walk_level<H>(
    siblings: Seq<Node<H>>,
    i: int,
    entries: Seq<Entry>,
    current: int,
    at: Progress<H>,
) -> Walk<H>
    decreases siblings, siblings.len() - i,
{
    if i < 0 || i >= siblings.len() {
        Walk::Done(at)
    } else {
        let entry = entries[current];
        match siblings[i] {
            Node::Leaf { name, required, kind } => {
                if name == entry.name {
                    match extract_spec(kind, entry.value) {
                        Some(value) => {
                            let arguments = at.arguments.insert(name, value);
                            if 0 <= at.cursor < entries.len() {
                                walk_level(
                                    siblings,
                                    i + 1,
                                    entries,
                                    at.cursor,
                                    Progress {
                                        cursor: at.cursor + 1,
                                        handler: at.handler,
                                        arguments,
                                    },
                                )
                            } else {
                                Walk::Done(
                                    Progress { cursor: at.cursor, handler: at.handler, arguments },
                                )
                            }
                        },
                        None => if required {
                            Walk::Failed(at)
                        } else {
                            walk_level(siblings, i + 1, entries, current, at)
                        },
                    }
                } else {
                    walk_level(siblings, i + 1, entries, current, at)
                }
            },
            Node::Group { name, required, handler, children, .. } => {
                if name == entry.name {
                    let entered = Progress { cursor: at.cursor, handler, arguments: at.arguments };
                    match children {
                        Some(below) => match walk_entries(below, entries, entered) {
                            Walk::Done(after) => walk_level(siblings, i + 1, entries, current, after),
                            Walk::Failed(stopped) => Walk::Failed(stopped),
                        },
                        None => walk_level(siblings, i + 1, entries, current, entered),
                    }
                } else if required {
                    Walk::Failed(at)
                } else {
                    walk_level(siblings, i + 1, entries, current, at)
                }
            },
        }
    }
}

/// What the flattened options `entries` resolve to against `tree`: the
/// handler that the walk ends with and the arguments it has read. Without
/// options, and where the root has no children to walk, the root's own
/// handler is left, with no arguments.
pub open spec fn resolve_entries<H>(tree: Tree<H>, entries: Seq<Entry>) -> Option<(Arguments, H)> {
    match tree.children {
        Some(children) => if entries.len() == 0 {
            bare(tree.handler)
        } else {
            outcome(walk_entries(children, entries, start(tree.handler)))
        },
        None => bare(tree.handler),
    }
}

/// What the options of an interaction resolve to against `tree`.
pub open spec fn resolve_interaction<H>(
    tree: Tree<H>,
    options: Seq<InteractionOption>,
) -> Option<(Arguments, H)> {
    resolve_entries(tree, flatten(options))
}

/// Appends `option` and all that is nested in it to `output`.
fn traverse_into<'a>(option: &'a InteractionOption, output: &mut Vec<&'a InteractionOption>)
    ensures
        options_view(final(output)@) == options_view(old(output)@) + flatten_one(*option),
    decreases *option,
{
    let ghost target = options_view(output@) + flatten_one(*option);
    let ghost before = output@;
    output.push(option);
    assert(options_view(output@) =~= options_view(before).push(*option));
    let mut i: usize = 0;
    while i < option.options.len()
        invariant
            i <= option.options.len(),
            options_view(output@) + flatten_from(option.options@, i as int) =~= target,
        decreases option.options.len() - i,
    {
        let ghost sofar = options_view(output@);
        traverse_into(&option.options[i], output);
        assert(options_view(output@) + flatten_from(option.options@, i + 1) =~= sofar
            + flatten_from(option.options@, i as int));
        i = i + 1;
    }
}

/// Takes the value that a leaf of type `kind` accepts out of the value of an
/// option.
pub fn extract(kind: ArgumentKind, value: &Option<OptionValue>) -> (extracted: Option<Argument>)
    ensures
        match extract_spec(kind, entry_of_value(*value)) {
            Some(v) => extracted matches Some(a) && a@ == v,
            None => extracted is None,
        },
{
    match value {
        Some(OptionValue::String(s)) => match kind {
            ArgumentKind::String => Some(Argument::String(s.clone())),
            _ => None,
        },
        Some(OptionValue::Integer(i)) => match kind {
            ArgumentKind::Integer => Some(Argument::Integer(#[verifier::truncate] (*i as i32))),
            ArgumentKind::User => Some(Argument::User(UserId(#[verifier::truncate] (*i as u64)))),
            ArgumentKind::Channel => Some(
                Argument::Channel(ChannelId(#[verifier::truncate] (*i as u64))),
            ),
            ArgumentKind::Role => Some(Argument::Role(RoleId(#[verifier::truncate] (*i as u64)))),
            _ => None,
        },
        Some(OptionValue::Boolean(b)) => match kind {
            ArgumentKind::Boolean => Some(Argument::Boolean(*b)),
            _ => None,
        },
        _ => None,
    }
}

/// The value of an entry that the value of an option stands for.
pub open spec fn entry_of_value(value: Option<OptionValue>) -> Option<EntryValue> {
    match value {
        Some(v) => Some(v@),
        None => None,
    }
}

impl Argument {
    /// An option and all that is nested in it as one flat vector, parents
    /// before children.
    pub fn traverse_tree<'a>(interaction: &'a InteractionOption) -> (output: Vec<
        &'a InteractionOption,
    >)
        ensures
            options_view(output@) == flatten_one(*interaction),
            entries_view(output@) == entries_of(flatten_one(*interaction)),
    {
        let mut output: Vec<&'a InteractionOption> = Vec::new();
        assert(options_view(output@) =~= Seq::<InteractionOption>::empty());
        traverse_into(interaction, &mut output);
        assert(Seq::<InteractionOption>::empty() + flatten_one(*interaction) =~= flatten_one(
            *interaction,
        ));
        assert(entries_view(output@) =~= entries_of(options_view(output@)));
        output
    }

    /// The options of an interaction as one flat vector, parents before
    /// children.
    pub fn get_arguments_from_interaction<'a>(options: &'a Vec<InteractionOption>) -> (output: Vec<
        &'a InteractionOption,
    >)
        ensures
            options_view(output@) == flatten_from(options@, 0),
            entries_view(output@) == flatten(options@),
    {
        let mut output: Vec<&'a InteractionOption> = Vec::new();
        assert(options_view(output@) =~= Seq::<InteractionOption>::empty());
        let mut i: usize = 0;
        while i < options.len()
            invariant
                i <= options.len(),
                options_view(output@) + flatten_from(options@, i as int) =~= flatten_from(
                    options@,
                    0,
                ),
            decreases options.len() - i,
        {
            let ghost sofar = options_view(output@);
            traverse_into(&options[i], &mut output);
            assert(options_view(output@) + flatten_from(options@, i + 1) =~= sofar + flatten_from(
                options@,
                i as int,
            ));
            i = i + 1;
        }
        assert(options_view(output@) + Seq::<InteractionOption>::empty() =~= options_view(
            output@,
        ));
        assert(entries_view(output@) =~= entries_of(options_view(output@)));
        output
    }

    /// Walks `branch` against the flattened options `recieved`, of which
    /// `cursor` is the next to read, with `func` as the handler selected so
    /// far. Reads the option under `cursor` for this list, moves `cursor` past
    /// every option that it or the lists below it read, and records the
    /// values that leaves take in `map`. Returns the handler it ends with, or
    /// an error where a required node is not satisfied; `cursor` and `map`
    /// then stand as they stood when the walk came to that node.
    pub fn parse_interaction_tree<H: Copy>(
        branch: &Vec<CommandArguments<H>>,
        recieved: &Vec<&InteractionOption>,
        cursor: &mut usize,
        map: &mut ArgumentMap,
        func: Option<H>,
    ) -> (end: Result<Option<H>, ()>)
        ensures
            match walk_entries(
                nodes_of(branch@),
                entries_view(recieved@),
                Progress { cursor: *old(cursor) as int, handler: func, arguments: old(map)@ },
            ) {
                Walk::Done(after) => {
                    &&& end == Ok::<Option<H>, ()>(after.handler)
                    &&& *final(cursor) == after.cursor
                    &&& final(map)@ == after.arguments
                },
                Walk::Failed(stopped) => {
                    &&& end is Err
                    &&& *final(cursor) == stopped.cursor
                    &&& final(map)@ == stopped.arguments
                },
            },
            *old(cursor) <= *final(cursor) <= *old(cursor) + 1 + count_nodes(nodes_of(branch@)),
            *final(cursor) == *old(cursor) || *final(cursor) <= recieved.len(),
            framed(old(map)@, final(map)@, nodes_of(branch@)),
            end matches Ok(handler) ==> handler_from(
                nodes_of(branch@),
                entry_names(entries_view(recieved@)),
                *old(cursor) as int,
                *final(cursor) as int,
                func,
                handler,
            ),
        decreases *branch,
    {
        let ghost nodes = nodes_of(branch@);
        let ghost entries = entries_view(recieved@);
        let ghost begin = Progress { cursor: *cursor as int, handler: func, arguments: map@ };
        let ghost whole = walk_entries(nodes, entries, begin);
        proof {
            lemma_walk_entries_frame(nodes, entries, begin);
        }
        if *cursor >= recieved.len() {
            return Ok(func);
        }
        let mut curr_arg = recieved[*cursor];
        let ghost mut current = *cursor as int;
        *cursor = *cursor + 1;
        let mut fun = func;
        let mut i: usize = 0;
        while i < branch.len()
            invariant
                i <= branch.len(),
                0 <= current < recieved.len(),
                current < *cursor <= recieved.len(),
                begin == (Progress {
                    cursor: *old(cursor) as int,
                    handler: func,
                    arguments: old(map)@,
                }),
                begin.cursor <= whole.progress().cursor <= begin.cursor + 1 + count_nodes(nodes),
                whole.progress().cursor == begin.cursor || whole.progress().cursor
                    <= recieved.len(),
                framed(begin.arguments, whole.progress().arguments, nodes),
                handler_from(
                    nodes,
                    entry_names(entries),
                    begin.cursor,
                    whole.progress().cursor,
                    begin.handler,
                    whole.progress().handler,
                ),
                *curr_arg == *recieved@[current],
                nodes == nodes_of(branch@),
                entries == entries_view(recieved@),
                whole == walk_entries(
                    nodes,
                    entries,
                    Progress { cursor: *old(cursor) as int, handler: func, arguments: old(map)@ },
                ),
                whole == walk_level(
                    nodes,
                    i as int,
                    entries,
                    current,
                    Progress { cursor: *cursor as int, handler: fun, arguments: map@ },
                ),
            decreases branch.len() - i,
        {
            let arg = &branch[i];
            assert(nodes[i as int] == arg@);
            assert(entries[current] == entry_of(*curr_arg));
            if str_eq(arg.name(), curr_arg.name.as_str()) {
                match arg.kind() {
                    Some(kind) => {
                        match extract(kind, &curr_arg.value) {
                            Some(value) => {
                                map.insert(arg.name().to_owned(), value);
                                if *cursor >= recieved.len() {
                                    return Ok(fun);
                                }
                                curr_arg = recieved[*cursor];
                                proof {
                                    current = *cursor as int;
                                }
                                *cursor = *cursor + 1;
                            },
                            None => {
                                if arg.required() {
                                    return Err(());
                                }
                            },
                        }
                    },
                    None => {
                        fun = arg.func();
                        match arg.options() {
                            Some(children) => {
                                match Self::parse_interaction_tree(
                                    children,
                                    recieved,
                                    cursor,
                                    map,
                                    fun,
                                ) {
                                    Ok(below) => {
                                        fun = below;
                                    },
                                    Err(_) => {
                                        return Err(());
                                    },
                                }
                            },
                            None => {},
                        }
                    },
                }
            } else if arg.kind().is_none() && arg.required() {
                return Err(());
            }
            i = i + 1;
        }
        Ok(fun)
    }

    /// Resolves the flattened options `entries` against `tree`.
    pub fn parse_entries<H: Copy>(
        entries: &Vec<&InteractionOption>,
        tree: &CommandArgumentsTree<H>,
    ) -> (resolved: Option<(ArgumentMap, H)>)
        ensures
            match resolve_entries(tree@, entries_view(entries@)) {
                Some((arguments, handler)) => resolved matches Some((map, func)) && map@
                    == arguments && func == handler,
                None => resolved is None,
            },
    {
        let mut output = ArgumentMap::new();
        match &tree.children {
            Some(nodes) => {
                if entries.len() == 0 {
                    match tree.func {
                        Some(func) => Some((output, func)),
                        None => None,
                    }
                } else {
                    let mut cursor: usize = 0;
                    match Self::parse_interaction_tree(
                        nodes,
                        entries,
                        &mut cursor,
                        &mut output,
                        tree.func,
                    ) {
                        Ok(Some(func)) => Some((output, func)),
                        _ => None,
                    }
                }
            },
            None => match tree.func {
                Some(func) => Some((output, func)),
                None => None,
            },
        }
    }

    /// Parses the options of an interaction into arguments and gets the
    /// handler of the node that they select
    pub fn parse_interaction<H: Copy>(
        interaction: &Vec<InteractionOption>,
        tree: &CommandArgumentsTree<H>,
    ) -> (resolved: Option<(ArgumentMap, H)>)
        ensures
            match resolve_interaction(tree@, interaction@) {
                Some((arguments, handler)) => resolved matches Some((map, func)) && map@
                    == arguments && func == handler,
                None => resolved is None,
            },
    {
        let options = Self::get_arguments_from_interaction(interaction);
        Self::parse_entries(&options, tree)
    }
}

} // verus!
