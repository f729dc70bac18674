//! The schema of a command: a tree of typed arguments and subcommands.

use vstd::prelude::*;

use crate::argument::ArgumentKind;

verus! {

/// Represents a choice for an argument
pub struct ArgumentChoice<T> {
    /// The name of the choice
    pub name: &'static str,
    /// The value of the choice
    pub value: T,
}

/// The argument metadata stored with a command.
///
/// `H` identifies the handler that a subcommand runs: the tree only carries
/// it and the resolvers only hand it back.
#[allow(inconsistent_fields)]
pub enum CommandArguments<H> {
    SubCommand {
        name: &'static str,
        description: &'static str,
        required: bool,
        options: Option<Vec<CommandArguments<H>>>,
        func: Option<H>,
    },
    SubCommandGroup {
        name: &'static str,
        description: &'static str,
        required: bool,
        options: Option<Vec<CommandArguments<H>>>,
        func: Option<H>,
    },
    String {
        name: &'static str,
        description: &'static str,
        required: bool,
        choices: Option<Vec<ArgumentChoice<String>>>,
    },
    Integer {
        name: &'static str,
        description: &'static str,
        required: bool,
        choices: Option<Vec<ArgumentChoice<i32>>>,
    },
    Boolean { name: &'static str, description: &'static str, required: bool },
    User { name: &'static str, description: &'static str, required: bool },
    Channel { name: &'static str, description: &'static str, required: bool },
    Role { name: &'static str, description: &'static str, required: bool },
}

/// The root of the command arguments tree
pub struct CommandArgumentsTree<H> {
    /// The nodes in the tree
    pub children: Option<Vec<CommandArguments<H>>>,
    /// The top level function to run
    pub func: Option<H>,
}

/// A command
pub struct Command<H> {
    /// The name of the command
    pub name: &'static str,
    /// Description of the command
    pub description: &'static str,
    /// The tree of arguments
    pub arguments_tree: CommandArgumentsTree<H>,
}

/// A node of the schema as the resolvers see it: a typed leaf, or a group
/// that routes to further nodes.
pub ghost enum Node<H> {
    Leaf { name: Seq<char>, required: bool, kind: ArgumentKind },
    Group {
        name: Seq<char>,
        required: bool,
        handler: Option<H>,
        children: Option<Seq<Node<H>>>,
        nested: bool,
    },
}

/// The root of the schema as the resolvers see it.
pub ghost struct Tree<H> {
    pub children: Option<Seq<Node<H>>>,
    pub handler: Option<H>,
}

impl<H> Node<H> {
    pub open spec fn name(self) -> Seq<char> {
        match self {
            Node::Leaf { name, .. } => name,
            Node::Group { name, .. } => name,
        }
    }

    pub open spec fn required(self) -> bool {
        match self {
            Node::Leaf { required, .. } => required,
            Node::Group { required, .. } => required,
        }
    }
}

/// The nodes that a list of siblings stands for.
pub open spec fn nodes_of<H>(siblings: Seq<CommandArguments<H>>) -> Seq<Node<H>>
    decreases siblings, 1nat,
{
    Seq::new(
        siblings.len(),
        |i: int|
            if 0 <= i < siblings.len() {
                node_of(siblings[i])
            } else {
                arbitrary()
            },
    )
}

/// The nodes that an optional list of children stands for.
pub open spec fn children_of<H>(options: Option<Vec<CommandArguments<H>>>) -> Option<Seq<Node<H>>>
    decreases options, 2nat,
{
    match options {
        Some(v) => Some(nodes_of(v@)),
        None => None,
    }
}

/// The node that an argument of the schema stands for.
pub open spec fn node_of<H>(argument: CommandArguments<H>) -> Node<H>
    decreases argument, 0nat,
{
    match argument {
        CommandArguments::SubCommand { name, required, options, func, .. } => Node::Group {
            name: name@,
            required,
            handler: func,
            children: children_of(options),
            nested: false,
        },
        CommandArguments::SubCommandGroup { name, required, options, func, .. } => Node::Group {
            name: name@,
            required,
            handler: func,
            children: children_of(options),
            nested: true,
        },
        CommandArguments::String { name, required, .. } => Node::Leaf {
            name: name@,
            required,
            kind: ArgumentKind::String,
        },
        CommandArguments::Integer { name, required, .. } => Node::Leaf {
            name: name@,
            required,
            kind: ArgumentKind::Integer,
        },
        CommandArguments::Boolean { name, required, .. } => Node::Leaf {
            name: name@,
            required,
            kind: ArgumentKind::Boolean,
        },
        CommandArguments::User { name, required, .. } => Node::Leaf {
            name: name@,
            required,
            kind: ArgumentKind::User,
        },
        CommandArguments::Channel { name, required, .. } => Node::Leaf {
            name: name@,
            required,
            kind: ArgumentKind::Channel,
        },
        CommandArguments::Role { name, required, .. } => Node::Leaf {
            name: name@,
            required,
            kind: ArgumentKind::Role,
        },
    }
}

impl<H> View for CommandArguments<H> {
    type V = Node<H>;

    open spec fn view(&self) -> Node<H> {
        node_of(*self)
    }
}

impl<H> View for CommandArgumentsTree<H> {
    type V = Tree<H>;

    open spec fn view(&self) -> Tree<H> {
        Tree { children: children_of(self.children), handler: self.func }
    }
}

/// The number under which the platform knows the type of a node.
pub open spec fn type_code<H>(node: Node<H>) -> u8 {
    match node {
        Node::Group { nested, .. } => if nested {
            2
        } else {
            1
        },
        Node::Leaf { kind, .. } => match kind {
            ArgumentKind::String => 3,
            ArgumentKind::Integer => 4,
            ArgumentKind::Boolean => 5,
            ArgumentKind::User => 6,
            ArgumentKind::Channel => 7,
            ArgumentKind::Role => 8,
        },
    }
}

/// Implemented by each command to hand its schema to the framework
pub trait CommandInit<H> {
    /// The function run to initialize the command
    fn command_init() -> Command<H>;
}

/// In a list of siblings, no required node follows an optional one.
pub open spec fn required_first<H>(siblings: Seq<Node<H>>) -> bool {
    forall|i: int, j: int|
        0 <= i < j < siblings.len() && (#[trigger] siblings[j]).required() ==> (
        #[trigger] siblings[i]).required()
}

/// Every list of siblings in and below `siblings` puts its required nodes first.
pub open spec fn well_ordered<H>(siblings: Seq<Node<H>>) -> bool
    decreases siblings, 1nat,
{
    &&& required_first(siblings)
    &&& forall|i: int| 0 <= i < siblings.len() ==> node_well_ordered(#[trigger] siblings[i])
}

/// Every list of siblings below `node` puts its required nodes first.
pub open spec fn node_well_ordered<H>(node: Node<H>) -> bool
    decreases node, 0nat,
{
    match node {
        Node::Group { children: Some(c), .. } => well_ordered(c),
        _ => true,
    }
}

impl<H> Tree<H> {
    /// The ordering rule that a schema has to meet before it is used: at every
    /// level, required nodes come before optional ones.
    pub open spec fn well_ordered(self) -> bool {
        match self.children {
            Some(c) => well_ordered(c),
            None => true,
        }
    }
}

/// Whether the entry at `j` of a list of required flags is out of order: it
/// is required and comes after an optional one.
pub open spec fn is_misplaced(required: Seq<bool>, j: int) -> bool {
    &&& 0 <= j < required.len()
    &&& required[j]
    &&& exists|i: int| 0 <= i < j && !required[i]
}

/// Finds the first entry of a list of required flags that is out of order:
/// the first required one that comes after an optional one.
pub fn first_misplaced(required: &Vec<bool>) -> (found: Option<usize>)
    ensures
        match found {
            Some(j) => is_misplaced(required@, j as int) && forall|k: int|
                0 <= k < j ==> !is_misplaced(required@, k),
            None => forall|k: int| !is_misplaced(required@, k),
        },
{
    let mut optional_seen = false;
    let mut j: usize = 0;
    while j < required.len()
        invariant
            j <= required.len(),
            optional_seen == exists|i: int| 0 <= i < j && !required@[i],
            forall|k: int| 0 <= k < j ==> !is_misplaced(required@, k),
        decreases required.len() - j,
    {
        if required[j] {
            if optional_seen {
                return Some(j);
            }
        } else {
            assert(!required@[j as int]);
            optional_seen = true;
        }
        j = j + 1;
    }
    None
}

/// The entries below `n` of a list of required flags that are out of order,
/// in rising order.
pub open spec fn misplaced_below(required: Seq<bool>, n: int) -> Seq<int>
    decreases n,
{
    if n <= 0 {
        Seq::empty()
    } else if is_misplaced(required, n - 1) {
        misplaced_below(required, n - 1).push(n - 1)
    } else {
        misplaced_below(required, n - 1)
    }
}

/// The positions that a vector of indices stands for.
pub open spec fn positions(indices: Seq<usize>) -> Seq<int> {
    Seq::new(indices.len(), |i: int| indices[i] as int)
}

/// Finds every entry of a list of required flags that is out of order: every
/// required one that comes after an optional one.
pub fn all_misplaced(required: &Vec<bool>) -> (found: Vec<usize>)
    ensures
        positions(found@) == misplaced_below(required@, required.len() as int),
{
    let mut found: Vec<usize> = Vec::new();
    let mut optional_seen = false;
    let mut j: usize = 0;
    assert(positions(found@) =~= misplaced_below(required@, 0));
    while j < required.len()
        invariant
            j <= required.len(),
            optional_seen == exists|i: int| 0 <= i < j && !required@[i],
            positions(found@) == misplaced_below(required@, j as int),
        decreases required.len() - j,
    {
        let ghost before = found@;
        if required[j] {
            if optional_seen {
                found.push(j);
                assert(positions(found@) =~= positions(before).push(j as int));
            }
        } else {
            assert(!required@[j as int]);
            optional_seen = true;
        }
        j = j + 1;
    }
    found
}

impl<H> CommandArguments<H> {
    /// The name that input has to carry to reach this node.
    pub fn name(&self) -> (name: &'static str)
        ensures
            name@ == self@.name(),
    {
        match self {
            CommandArguments::SubCommand { name, .. } => name,
            CommandArguments::SubCommandGroup { name, .. } => name,
            CommandArguments::String { name, .. } => name,
            CommandArguments::Integer { name, .. } => name,
            CommandArguments::Boolean { name, .. } => name,
            CommandArguments::User { name, .. } => name,
            CommandArguments::Channel { name, .. } => name,
            CommandArguments::Role { name, .. } => name,
        }
    }

    /// Whether input has to supply this node.
    pub fn required(&self) -> (required: bool)
        ensures
            required == self@.required(),
    {
        match self {
            CommandArguments::SubCommand { required, .. } => *required,
            CommandArguments::SubCommandGroup { required, .. } => *required,
            CommandArguments::String { required, .. } => *required,
            CommandArguments::Integer { required, .. } => *required,
            CommandArguments::Boolean { required, .. } => *required,
            CommandArguments::User { required, .. } => *required,
            CommandArguments::Channel { required, .. } => *required,
            CommandArguments::Role { required, .. } => *required,
        }
    }

    /// The type of value this node accepts, where it is a leaf.
    pub fn kind(&self) -> (kind: Option<ArgumentKind>)
        ensures
            kind == match self@ {
                Node::Leaf { kind, .. } => Some(kind),
                Node::Group { .. } => None::<ArgumentKind>,
            },
    {
        match self {
            CommandArguments::SubCommand { .. } => None,
            CommandArguments::SubCommandGroup { .. } => None,
            CommandArguments::String { .. } => Some(ArgumentKind::String),
            CommandArguments::Integer { .. } => Some(ArgumentKind::Integer),
            CommandArguments::Boolean { .. } => Some(ArgumentKind::Boolean),
            CommandArguments::User { .. } => Some(ArgumentKind::User),
            CommandArguments::Channel { .. } => Some(ArgumentKind::Channel),
            CommandArguments::Role { .. } => Some(ArgumentKind::Role),
        }
    }

    /// The nodes below this one, where it is a group that has any.
    pub fn options(&self) -> (options: Option<&Vec<CommandArguments<H>>>)
        ensures
            match self@ {
                Node::Leaf { .. } => options is None,
                Node::Group { children, .. } => match options {
                    Some(v) => children == Some(nodes_of(v@)) && decreases_to!(*self => *v),
                    None => children is None,
                },
            },
    {
        match self {
            CommandArguments::SubCommand { options, .. } => options.as_ref(),
            CommandArguments::SubCommandGroup { options, .. } => options.as_ref(),
            _ => None,
        }
    }

    /// The handler this node selects, where it is a group that has one.
    pub fn func(&self) -> (func: Option<H>) where H: Copy
        ensures
            func == match self@ {
                Node::Leaf { .. } => None::<H>,
                Node::Group { handler, .. } => handler,
            },
    {
        match self {
            CommandArguments::SubCommand { func, .. } => *func,
            CommandArguments::SubCommandGroup { func, .. } => *func,
            _ => None,
        }
    }

    /// The number under which the platform knows the type of this node.
    pub fn type_code(&self) -> (code: u8)
        ensures
            code == type_code(self@),
    {
        match self {
            CommandArguments::SubCommand { .. } => 1,
            CommandArguments::SubCommandGroup { .. } => 2,
            CommandArguments::String { .. } => 3,
            CommandArguments::Integer { .. } => 4,
            CommandArguments::Boolean { .. } => 5,
            CommandArguments::User { .. } => 6,
            CommandArguments::Channel { .. } => 7,
            CommandArguments::Role { .. } => 8,
        }
    }

    /// Checks that in `siblings` no required node follows an optional one.
    pub fn required_first(siblings: &Vec<CommandArguments<H>>) -> (ok: bool)
        ensures
            ok == required_first(nodes_of(siblings@)),
    {
        let ghost nodes = nodes_of(siblings@);
        let mut optional_seen = false;
        let mut i: usize = 0;
        while i < siblings.len()
            invariant
                i <= siblings.len(),
                nodes == nodes_of(siblings@),
                nodes.len() == siblings.len(),
                optional_seen == exists|k: int| 0 <= k < i && !(#[trigger] nodes[k]).required(),
                forall|a: int, b: int|
                    0 <= a < b < i && (#[trigger] nodes[b]).required() ==> (
                    #[trigger] nodes[a]).required(),
            decreases siblings.len() - i,
        {
            assert(nodes[i as int] == node_of(siblings@[i as int]));
            if siblings[i].required() {
                if optional_seen {
                    let ghost k = choose|k: int| 0 <= k < i && !(#[trigger] nodes[k]).required();
                    assert(nodes[i as int].required() && !nodes[k].required());
                    return false;
                }
            } else {
                optional_seen = true;
            }
            i = i + 1;
        }
        true
    }

    /// Checks the ordering rule on `siblings` and on every list below them.
    pub fn well_ordered(siblings: &Vec<CommandArguments<H>>) -> (ok: bool)
        ensures
            ok == well_ordered(nodes_of(siblings@)),
        decreases *siblings,
    {
        let ghost nodes = nodes_of(siblings@);
        if !Self::required_first(siblings) {
            return false;
        }
        let mut i: usize = 0;
        while i < siblings.len()
            invariant
                i <= siblings.len(),
                nodes == nodes_of(siblings@),
                nodes.len() == siblings.len(),
                forall|k: int| 0 <= k < i ==> node_well_ordered(#[trigger] nodes[k]),
            decreases siblings.len() - i,
        {
            assert(nodes[i as int] == node_of(siblings@[i as int]));
            match siblings[i].options() {
                Some(children) => {
                    if !Self::well_ordered(children) {
                        assert(!node_well_ordered(nodes[i as int]));
                        return false;
                    }
                },
                None => {},
            }
            i = i + 1;
        }
        true
    }
}

impl<H> Command<H> {
    /// Makes a command of a schema that meets the ordering rule, and nothing
    /// of one that does not.
    pub fn checked(
        name: &'static str,
        description: &'static str,
        arguments_tree: CommandArgumentsTree<H>,
    ) -> (command: Option<Command<H>>)
        ensures
            match command {
                Some(c) => {
                    &&& arguments_tree@.well_ordered()
                    &&& c.name == name
                    &&& c.description == description
                    &&& c.arguments_tree == arguments_tree
                },
                None => !arguments_tree@.well_ordered(),
            },
    {
        if arguments_tree.well_ordered() {
            Some(Command { name, description, arguments_tree })
        } else {
            None
        }
    }
}

impl<H> CommandArgumentsTree<H> {
    /// Checks the rule that a schema has to meet before it is used: at every
    /// level, required nodes come before optional ones.
    pub fn well_ordered(&self) -> (ok: bool)
        ensures
            ok == self@.well_ordered(),
    {
        match &self.children {
            Some(children) => CommandArguments::well_ordered(children),
            None => true,
        }
    }
}

} // verus!
