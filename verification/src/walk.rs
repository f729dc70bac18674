//! What a walk over the schema keeps track of.

use vstd::prelude::*;

use crate::argument::{kind_of, ArgumentKind, ArgumentValue};
use crate::commands::Node;

verus! {

/// The arguments of an invocation, by name.
pub type Arguments = Map<Seq<char>, ArgumentValue>;

/// How far a walk has come: the position of the next piece of input, the
/// handler selected so far, and the arguments read so far.
pub ghost struct Progress<H> {
    pub cursor: int,
    pub handler: Option<H>,
    pub arguments: Arguments,
}

/// How a walk over a list of siblings ends: on a required node that the input
/// does not satisfy, with the progress it had made when it came to that node,
/// or at the end of the list, with everything it has gathered.
pub ghost enum Walk<H> {
    Failed(Progress<H>),
    Done(Progress<H>),
}

impl<H> Walk<H> {
    /// How far the walk came, however it ended.
    pub open spec fn progress(self) -> Progress<H> {
        match self {
            Walk::Failed(at) => at,
            Walk::Done(at) => at,
        }
    }
}

/// The start of a walk that has `handler` to fall back on.
pub open spec fn start<H>(handler: Option<H>) -> Progress<H> {
    Progress { cursor: 0, handler, arguments: Map::empty() }
}

/// What a resolution yields from the end of its walk: the arguments and the
/// handler, where a handler was selected.
pub open spec fn outcome<H>(end: Walk<H>) -> Option<(Arguments, H)> {
    match end {
        Walk::Done(Progress { handler: Some(h), arguments, .. }) => Some((arguments, h)),
        _ => None,
    }
}

/// What a resolution yields where only the root's own handler is left to it:
/// that handler, with no arguments.
pub open spec fn bare<H>(handler: Option<H>) -> Option<(Arguments, H)> {
    match handler {
        Some(h) => Some((Map::empty(), h)),
        None => None,
    }
}

/// Whether a leaf of this name and type stands in `siblings` or anywhere
/// below them.
pub open spec fn has_leaf<H>(siblings: Seq<Node<H>>, name: Seq<char>, kind: ArgumentKind) -> bool
    decreases siblings, 1nat,
{
    exists|i: int| 0 <= i < siblings.len() && node_has_leaf(#[trigger] siblings[i], name, kind)
}

/// Whether `node` is a leaf of this name and type, or has one anywhere below
/// it.
pub open spec fn node_has_leaf<H>(node: Node<H>, name: Seq<char>, kind: ArgumentKind) -> bool
    decreases node, 0nat,
{
    match node {
        Node::Leaf { name: n, kind: k, .. } => n == name && k == kind,
        Node::Group { children: Some(below), .. } => has_leaf(below, name, kind),
        Node::Group { children: None, .. } => false,
    }
}

/// Whether a group of this name that carries `handler` stands in `siblings`
/// or anywhere below them.
pub open spec fn has_group<H>(siblings: Seq<Node<H>>, name: Seq<char>, handler: Option<H>) -> bool
    decreases siblings, 1nat,
{
    exists|i: int| 0 <= i < siblings.len() && node_has_group(#[trigger] siblings[i], name, handler)
}

/// Whether `node` is a group of this name that carries `handler`, or has one
/// anywhere below it.
pub open spec fn node_has_group<H>(node: Node<H>, name: Seq<char>, handler: Option<H>) -> bool
    decreases node, 0nat,
{
    match node {
        Node::Leaf { .. } => false,
        Node::Group { name: n, handler: h, children, .. } => {
            ||| n == name && h == handler
            ||| children matches Some(below) && has_group(below, name, handler)
        },
    }
}

/// The number of nodes in `siblings` from the one at `i` on, with all that
/// stand below them.
pub open spec fn count_from<H>(siblings: Seq<Node<H>>, i: int) -> nat
    decreases siblings, siblings.len() - i,
{
    if i < 0 || i >= siblings.len() {
        0
    } else {
        let below = match siblings[i] {
            Node::Group { children: Some(c), .. } => count_from(c, 0),
            _ => 0,
        };
        1 + below + count_from(siblings, i + 1)
    }
}

/// The number of nodes in `siblings`, with all that stand below them.
pub open spec fn count_nodes<H>(siblings: Seq<Node<H>>) -> nat {
    count_from(siblings, 0)
}

/// What a walk over `siblings` may do to the arguments: every name that was
/// there stays, and a name holds what it held before or a value of the type
/// of a leaf of that name in or below `siblings`.
pub open spec fn framed<H>(before: Arguments, after: Arguments, siblings: Seq<Node<H>>) -> bool {
    forall|key: Seq<char>|
        {
            &&& before.contains_key(key) ==> #[trigger] after.contains_key(key)
            &&& after.contains_key(key) ==> {
                ||| before.contains_key(key) && before[key] == after[key]
                ||| has_leaf(siblings, key, kind_of(after[key]))
            }
        }
}

/// What a walk over `siblings` may do to the handler while its cursor moves
/// from `from` to `to`: leave it as it was, or take that of a group whose
/// name a piece of input in that range carried.
pub open spec fn handler_from<H>(
    siblings: Seq<Node<H>>,
    names: Seq<Seq<char>>,
    from: int,
    to: int,
    before: Option<H>,
    after: Option<H>,
) -> bool {
    ||| after == before
    ||| exists|k: int|
        from <= k < to && 0 <= k < names.len() && has_group(siblings, #[trigger] names[k], after)
}

/// What a walk over `siblings` from the one at `i` on may do, from the
/// progress `at` to the progress `end`, against input whose pieces carry the
/// names `names`:
/// - the cursor moves forward, by no more than there are nodes, and not
///   beyond the end of the input;
/// - the arguments change only under the names of leaves, to values of their
///   types;
/// - the handler is the one it was, or that of a group whose name a piece of
///   input under the walk carried.
pub open spec fn within_frame_from<H>(
    siblings: Seq<Node<H>>,
    i: int,
    names: Seq<Seq<char>>,
    at: Progress<H>,
    end: Progress<H>,
) -> bool {
    &&& at.cursor <= end.cursor <= at.cursor + count_from(siblings, i)
    &&& end.cursor == at.cursor || end.cursor <= names.len()
    &&& framed(at.arguments, end.arguments, siblings)
    &&& handler_from(siblings, names, at.cursor, end.cursor, at.handler, end.handler)
}

/// A value of the type of a leaf, put under the leaf's name, meets the frame.
pub proof fn lemma_framed_insert<H>(
    arguments: Arguments,
    siblings: Seq<Node<H>>,
    name: Seq<char>,
    value: ArgumentValue,
)
    requires
        has_leaf(siblings, name, kind_of(value)),
    ensures
        framed(arguments, arguments.insert(name, value), siblings),
{
}

/// Changes that meet the frame one after the other meet it together.
pub proof fn lemma_framed_chain<H>(
    first: Arguments,
    second: Arguments,
    third: Arguments,
    siblings: Seq<Node<H>>,
)
    requires
        framed(first, second, siblings),
        framed(second, third, siblings),
    ensures
        framed(first, third, siblings),
{
    assert forall|key: Seq<char>|
        {
            &&& first.contains_key(key) ==> #[trigger] third.contains_key(key)
            &&& third.contains_key(key) ==> {
                ||| first.contains_key(key) && first[key] == third[key]
                ||| has_leaf(siblings, key, kind_of(third[key]))
            }
        } by {
        assert(first.contains_key(key) ==> second.contains_key(key));
        assert(second.contains_key(key) ==> third.contains_key(key));
        if third.contains_key(key) && !has_leaf(siblings, key, kind_of(third[key])) {
            assert(second.contains_key(key) && second[key] == third[key]);
        }
    }
}

/// A leaf below a group of `siblings` is a leaf below `siblings`.
pub proof fn lemma_has_leaf_above<H>(
    siblings: Seq<Node<H>>,
    i: int,
    name: Seq<char>,
    kind: ArgumentKind,
)
    requires
        0 <= i < siblings.len(),
        siblings[i] matches Node::Group { children: Some(below), .. } && has_leaf(below, name, kind),
    ensures
        has_leaf(siblings, name, kind),
{
    assert(node_has_leaf(siblings[i], name, kind));
}

/// A group below a group of `siblings` is a group below `siblings`.
pub proof fn lemma_has_group_above<H>(
    siblings: Seq<Node<H>>,
    i: int,
    name: Seq<char>,
    handler: Option<H>,
)
    requires
        0 <= i < siblings.len(),
        siblings[i] matches Node::Group { children: Some(below), .. } && has_group(
            below,
            name,
            handler,
        ),
    ensures
        has_group(siblings, name, handler),
{
    assert(node_has_group(siblings[i], name, handler));
}

/// What meets the frame of the children of a group of `siblings` meets the
/// frame of `siblings`.
pub proof fn lemma_framed_above<H>(
    before: Arguments,
    after: Arguments,
    siblings: Seq<Node<H>>,
    i: int,
)
    requires
        0 <= i < siblings.len(),
        siblings[i] matches Node::Group { children: Some(below), .. } && framed(
            before,
            after,
            below,
        ),
    ensures
        framed(before, after, siblings),
{
    let below = siblings[i]->children->0;
    assert forall|key: Seq<char>|
        {
            &&& before.contains_key(key) ==> #[trigger] after.contains_key(key)
            &&& after.contains_key(key) ==> {
                ||| before.contains_key(key) && before[key] == after[key]
                ||| has_leaf(siblings, key, kind_of(after[key]))
            }
        } by {
        if after.contains_key(key) && has_leaf(below, key, kind_of(after[key])) {
            lemma_has_leaf_above(siblings, i, key, kind_of(after[key]));
        }
    }
}

/// What the handler may become below a group of `siblings` it may become in
/// `siblings`.
pub proof fn lemma_handler_above<H>(
    siblings: Seq<Node<H>>,
    i: int,
    names: Seq<Seq<char>>,
    from: int,
    to: int,
    before: Option<H>,
    after: Option<H>,
)
    requires
        0 <= i < siblings.len(),
        siblings[i] matches Node::Group { children: Some(below), .. } && handler_from(
            below,
            names,
            from,
            to,
            before,
            after,
        ),
    ensures
        handler_from(siblings, names, from, to, before, after),
{
    let below = siblings[i]->children->0;
    if after != before {
        let k = choose|k: int|
            from <= k < to && 0 <= k < names.len() && has_group(below, #[trigger] names[k], after);
        lemma_has_group_above(siblings, i, names[k], after);
    }
}

/// What the handler may become over one stretch of input and then over the
/// next it may become over both.
pub proof fn lemma_handler_chain<H>(
    siblings: Seq<Node<H>>,
    names: Seq<Seq<char>>,
    from: int,
    mid_from: int,
    mid_to: int,
    to: int,
    first: Option<H>,
    second: Option<H>,
    third: Option<H>,
)
    requires
        from <= mid_from,
        mid_to <= to,
        handler_from(siblings, names, from, mid_to, first, second),
        handler_from(siblings, names, mid_from, to, second, third),
    ensures
        handler_from(siblings, names, from, to, first, third),
{
    if third != second {
        let k = choose|k: int|
            mid_from <= k < to && 0 <= k < names.len() && has_group(
                siblings,
                #[trigger] names[k],
                third,
            );
        assert(from <= k < to && has_group(siblings, names[k], third));
    } else if second != first {
        let k = choose|k: int|
            from <= k < mid_to && 0 <= k < names.len() && has_group(
                siblings,
                #[trigger] names[k],
                second,
            );
        assert(from <= k < to && has_group(siblings, names[k], third));
    }
}

} // verus!
