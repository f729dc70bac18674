use slashy::argument::{Argument, ChannelId, RoleId, UserId};
use slashy::argument_map::ArgumentMap;
use slashy::commands::{
    all_misplaced, first_misplaced, ArgumentChoice, Command, CommandArguments,
    CommandArgumentsTree,
};
use slashy::framework::CommandSource;
use slashy::interaction::{extract, InteractionOption, OptionValue};
use slashy::argument::ArgumentKind;

type Id = u32;

fn leaf_int(name: &'static str, required: bool) -> CommandArguments<Id> {
    CommandArguments::Integer { name, description: "", required, choices: None }
}

fn leaf_str(name: &'static str, required: bool) -> CommandArguments<Id> {
    CommandArguments::String { name, description: "", required, choices: None }
}

fn leaf_bool(name: &'static str, required: bool) -> CommandArguments<Id> {
    CommandArguments::Boolean { name, description: "", required }
}

fn sub(
    name: &'static str,
    required: bool,
    func: Option<Id>,
    options: Option<Vec<CommandArguments<Id>>>,
) -> CommandArguments<Id> {
    CommandArguments::SubCommand { name, description: "", required, options, func }
}

fn group(
    name: &'static str,
    required: bool,
    func: Option<Id>,
    options: Option<Vec<CommandArguments<Id>>>,
) -> CommandArguments<Id> {
    CommandArguments::SubCommandGroup { name, description: "", required, options, func }
}

fn tree(children: Option<Vec<CommandArguments<Id>>>, func: Option<Id>) -> CommandArgumentsTree<Id> {
    CommandArgumentsTree { children, func }
}

fn opt(name: &str, value: Option<OptionValue>, options: Vec<InteractionOption>) -> InteractionOption {
    InteractionOption { name: name.to_string(), value, options }
}

fn number(name: &str, value: i64) -> InteractionOption {
    opt(name, Some(OptionValue::Integer(value)), vec![])
}

fn stats() -> CommandArgumentsTree<Id> {
    tree(
        Some(vec![
            group(
                "get",
                false,
                None,
                Some(vec![
                    sub(
                        "points",
                        false,
                        Some(1),
                        Some(vec![CommandArguments::User {
                            name: "user",
                            description: "the selected user",
                            required: true,
                        }]),
                    ),
                    sub(
                        "leaderboard",
                        false,
                        Some(2),
                        Some(vec![CommandArguments::Integer {
                            name: "page",
                            description: "the page of the leaderboard to get",
                            required: false,
                            choices: Some(vec![ArgumentChoice { name: "default", value: 0 }]),
                        }]),
                    ),
                ]),
            ),
            sub("self", false, Some(3), None),
        ]),
        None,
    )
}

fn words(text: &str, tree: &CommandArgumentsTree<Id>) -> Option<(Vec<(String, Argument)>, Id)> {
    let tokens = Argument::get_arg_strings(text);
    Argument::parse_tokens(&tokens, tree).map(|(map, func)| (map.entries().clone(), func))
}

fn message(text: &str, tree: &CommandArgumentsTree<Id>) -> Option<(Vec<(String, Argument)>, Id)> {
    Argument::parse_message(text, tree).map(|(map, func)| (map.entries().clone(), func))
}

fn interaction(
    options: Vec<InteractionOption>,
    tree: &CommandArgumentsTree<Id>,
) -> Option<(Vec<(String, Argument)>, Id)> {
    Argument::parse_interaction(&options, tree).map(|(map, func)| (map.entries().clone(), func))
}

fn named(name: &str, value: Argument) -> (String, Argument) {
    (name.to_string(), value)
}

#[test]
fn words_select_the_subcommand_they_name() {
    let tree = stats();
    assert_eq!(
        words("get points 100", &tree),
        Some((vec![named("user", Argument::User(UserId(100)))], 1))
    );
    assert_eq!(words("get leaderboard", &tree), Some((vec![], 2)));
    assert_eq!(
        words("get leaderboard 3", &tree),
        Some((vec![named("page", Argument::Integer(3))], 2))
    );
    assert_eq!(words("get self", &tree), Some((vec![], 3)));
    assert_eq!(words("self", &tree), Some((vec![], 3)));
    assert_eq!(words("get", &tree), None);
    assert_eq!(words("", &tree), None);
    assert_eq!(words("points 100", &tree), None);
}

#[test]
fn message_drops_its_first_word() {
    let tree = stats();
    assert_eq!(
        message("test get points 100", &tree),
        Some((vec![named("user", Argument::User(UserId(100)))], 1))
    );
    assert_eq!(
        message("get get points 100", &tree),
        Some((vec![named("user", Argument::User(UserId(100)))], 1))
    );
    assert_eq!(message("get points 100", &tree), None);
    assert_eq!(message("self", &tree), None);
    assert_eq!(message("test", &tree), None);
    assert_eq!(message("", &tree), None);
    assert_eq!(message(" self", &tree), Some((vec![], 3)));
}

#[test]
fn optional_leaves_left_out_give_the_root_handler() {
    let tree = tree(
        Some(vec![leaf_int("a", false), leaf_bool("b", false), leaf_str("c", false)]),
        Some(9),
    );
    assert_eq!(message("cmd", &tree), Some((vec![], 9)));
    assert_eq!(message("cmd ", &tree), Some((vec![], 9)));
    assert_eq!(words("", &tree), Some((vec![], 9)));
    assert_eq!(interaction(vec![], &tree), Some((vec![], 9)));
    assert_eq!(interaction(vec![number("z", 1)], &tree), Some((vec![], 9)));
    assert_eq!(
        interaction(vec![opt("a", Some(OptionValue::Boolean(true)), vec![])], &tree),
        Some((vec![], 9))
    );

    let numbers = CommandArgumentsTree {
        children: Some(vec![leaf_int("a", false), leaf_bool("b", false)]),
        func: Some(9),
    };
    assert_eq!(words("word", &numbers), Some((vec![], 9)));
}

#[test]
fn optional_leaves_left_out_without_root_handler_give_nothing() {
    let tree = tree(Some(vec![leaf_int("a", false), leaf_bool("b", false)]), None);
    assert_eq!(message("cmd", &tree), None);
    assert_eq!(words("word", &tree), None);
    assert_eq!(interaction(vec![], &tree), None);
    assert_eq!(interaction(vec![number("z", 1)], &tree), None);
}

#[test]
fn root_without_children_gives_its_handler() {
    assert_eq!(message("cmd a b c", &tree(None, Some(4))), Some((vec![], 4)));
    assert_eq!(message("cmd", &tree(None, None)), None);
    assert_eq!(interaction(vec![number("a", 1)], &tree(None, Some(4))), Some((vec![], 4)));
    assert_eq!(interaction(vec![number("a", 1)], &tree(None, None)), None);
    assert_eq!(words("a", &tree(Some(vec![]), Some(4))), Some((vec![], 4)));
    assert_eq!(interaction(vec![number("a", 1)], &tree(Some(vec![]), Some(4))), Some((vec![], 4)));
}

#[test]
fn required_leaf_without_a_valid_word_gives_no_match() {
    let tree = tree(Some(vec![leaf_int("a", true), leaf_int("b", true)]), None);
    assert_eq!(words("", &tree), None);
    assert_eq!(words("x", &tree), None);
    assert_eq!(words("5", &tree), None);
    assert_eq!(words("5 x", &tree), None);
    assert_eq!(words("5 6", &tree), None);
}

#[test]
fn required_leaf_fails_after_a_sibling_took_its_word() {
    let tree = tree(Some(vec![leaf_int("a", false), leaf_int("b", true)]), None);
    assert_eq!(words("5", &tree), None);
    let tree = CommandArgumentsTree {
        children: Some(vec![leaf_int("a", false), leaf_int("b", true)]),
        func: Some(7),
    };
    assert_eq!(words("5", &tree), Some((vec![], 7)));
    assert_eq!(
        words("5 6", &tree),
        Some((vec![named("a", Argument::Integer(5)), named("b", Argument::Integer(6))], 7))
    );
}

#[test]
fn failed_words_fall_back_to_the_root_handler_without_arguments() {
    let tree = tree(Some(vec![leaf_int("a", true), leaf_int("b", true)]), Some(7));
    assert_eq!(words("5", &tree), Some((vec![], 7)));
    assert_eq!(words("x", &tree), Some((vec![], 7)));
    assert_eq!(
        words("5 6", &tree),
        Some((vec![named("a", Argument::Integer(5)), named("b", Argument::Integer(6))], 7))
    );
}

#[test]
fn failure_below_a_group_fails_the_whole_walk() {
    let tree = tree(
        Some(vec![
            group("a", false, Some(1), Some(vec![leaf_int("n", true)])),
            sub("x", false, Some(2), None),
        ]),
        None,
    );
    assert_eq!(words("a x", &tree), None);
    assert_eq!(words("a 1 x", &tree), Some((vec![named("n", Argument::Integer(1))], 2)));
    assert_eq!(words("a 1", &tree), Some((vec![named("n", Argument::Integer(1))], 1)));
    assert_eq!(
        interaction(vec![opt("a", None, vec![opt("n", Some(OptionValue::Other), vec![])])], &tree),
        None
    );
}

#[test]
fn required_group_has_to_be_named() {
    let tree = tree(Some(vec![sub("go", true, Some(1), None)]), Some(9));
    assert_eq!(words("go", &tree), Some((vec![], 1)));
    assert_eq!(words("stay", &tree), Some((vec![], 9)));
    assert_eq!(words("", &tree), Some((vec![], 9)));
    assert_eq!(interaction(vec![opt("go", None, vec![])], &tree), Some((vec![], 1)));
    assert_eq!(interaction(vec![opt("stay", None, vec![])], &tree), None);
    assert_eq!(interaction(vec![], &tree), Some((vec![], 9)));
}

#[test]
fn group_without_handler_leaves_text_the_root_handler() {
    let tree = tree(Some(vec![group("a", false, None, None)]), Some(9));
    assert_eq!(words("a", &tree), Some((vec![], 9)));
    assert_eq!(interaction(vec![opt("a", None, vec![])], &tree), None);
}

#[test]
fn matched_group_overwrites_the_handler() {
    let tree = tree(
        Some(vec![
            group("a", false, Some(1), Some(vec![sub("b", false, Some(2), None)])),
            sub("c", false, Some(3), None),
        ]),
        Some(9),
    );
    assert_eq!(words("a", &tree), Some((vec![], 1)));
    assert_eq!(words("a b", &tree), Some((vec![], 2)));
    assert_eq!(words("a b c", &tree), Some((vec![], 3)));
    assert_eq!(words("c", &tree), Some((vec![], 3)));
    assert_eq!(words("b", &tree), Some((vec![], 9)));
    assert_eq!(interaction(vec![opt("a", None, vec![])], &tree), Some((vec![], 1)));
    assert_eq!(
        interaction(vec![opt("a", None, vec![opt("b", None, vec![])])], &tree),
        Some((vec![], 2))
    );
    assert_eq!(interaction(vec![opt("c", None, vec![])], &tree), Some((vec![], 3)));
    assert_eq!(interaction(vec![opt("b", None, vec![])], &tree), Some((vec![], 9)));
}

#[test]
fn text_leaf_takes_any_word() {
    let tree = tree(Some(vec![leaf_str("text", false), leaf_int("n", false)]), Some(9));
    assert_eq!(
        message("ping \"hello there\" 5", &tree),
        Some((
            vec![
                named("text", Argument::String("hello there".to_string())),
                named("n", Argument::Integer(5)),
            ],
            9
        ))
    );
    assert_eq!(
        message("ping 5", &tree),
        Some((vec![named("text", Argument::String("5".to_string()))], 9))
    );
}

#[test]
fn optional_leaf_leaves_a_word_it_cannot_read_to_the_next() {
    let tree = tree(
        Some(vec![leaf_int("n", false), leaf_bool("b", false), leaf_str("s", false)]),
        Some(9),
    );
    assert_eq!(words("true", &tree), Some((vec![named("b", Argument::Boolean(true))], 9)));
    assert_eq!(
        words("x", &tree),
        Some((vec![named("s", Argument::String("x".to_string()))], 9))
    );
    assert_eq!(
        words("1 x", &tree),
        Some((
            vec![named("n", Argument::Integer(1)), named("s", Argument::String("x".to_string()))],
            9
        ))
    );
}

#[test]
fn later_value_under_a_name_replaces_the_earlier() {
    let tree = tree(Some(vec![leaf_int("n", false), leaf_int("n", false)]), Some(9));
    assert_eq!(words("1 2", &tree), Some((vec![named("n", Argument::Integer(2))], 9)));
}

#[test]
fn options_are_matched_by_name() {
    let tree = tree(
        Some(vec![leaf_int("a", true), leaf_str("b", false), leaf_bool("c", false)]),
        Some(9),
    );
    assert_eq!(
        interaction(
            vec![
                number("a", 1),
                opt("b", Some(OptionValue::String("x y".to_string())), vec![]),
                opt("c", Some(OptionValue::Boolean(true)), vec![]),
            ],
            &tree
        ),
        Some((
            vec![
                named("a", Argument::Integer(1)),
                named("b", Argument::String("x y".to_string())),
                named("c", Argument::Boolean(true)),
            ],
            9
        ))
    );
    assert_eq!(
        interaction(vec![number("a", 1), opt("c", Some(OptionValue::Boolean(false)), vec![])], &tree),
        Some((vec![named("a", Argument::Integer(1)), named("c", Argument::Boolean(false))], 9))
    );
    assert_eq!(
        interaction(vec![opt("c", Some(OptionValue::Boolean(false)), vec![]), number("a", 1)], &tree),
        Some((vec![named("c", Argument::Boolean(false))], 9))
    );
}

#[test]
fn required_leaf_with_an_invalid_value_gives_no_match() {
    let tree = tree(Some(vec![leaf_int("a", true)]), Some(9));
    assert_eq!(
        interaction(vec![opt("a", Some(OptionValue::String("1".to_string())), vec![])], &tree),
        None
    );
    assert_eq!(interaction(vec![opt("a", Some(OptionValue::Other), vec![])], &tree), None);
    assert_eq!(interaction(vec![opt("a", None, vec![])], &tree), None);
    assert_eq!(interaction(vec![opt("a", Some(OptionValue::Boolean(true)), vec![])], &tree), None);
    assert_eq!(interaction(vec![number("a", 1)], &tree), Some((vec![named("a", Argument::Integer(1))], 9)));
}

#[test]
fn required_leaf_that_no_option_names_is_passed_by() {
    let tree = tree(Some(vec![leaf_int("n", true)]), Some(9));
    assert_eq!(interaction(vec![number("other", 1)], &tree), Some((vec![], 9)));
    let tree = CommandArgumentsTree { children: Some(vec![leaf_int("n", true)]), func: None };
    assert_eq!(interaction(vec![number("other", 1)], &tree), None);
}

#[test]
fn walk_over_options_stops_where_they_run_out() {
    let tree = tree(Some(vec![leaf_int("a", true), leaf_int("b", true)]), Some(9));
    assert_eq!(interaction(vec![number("a", 1)], &tree), Some((vec![named("a", Argument::Integer(1))], 9)));
    let tree = CommandArgumentsTree {
        children: Some(vec![leaf_int("a", true), sub("go", true, Some(1), None)]),
        func: Some(9),
    };
    assert_eq!(interaction(vec![number("a", 1)], &tree), Some((vec![named("a", Argument::Integer(1))], 9)));
    assert_eq!(
        interaction(vec![number("a", 1), number("b", 1)], &tree),
        None
    );
}

#[test]
fn optional_leaf_with_an_invalid_value_is_passed_by() {
    let tree = tree(Some(vec![leaf_int("a", false), leaf_str("a", false)]), Some(9));
    assert_eq!(
        interaction(vec![opt("a", Some(OptionValue::String("x".to_string())), vec![])], &tree),
        Some((vec![named("a", Argument::String("x".to_string()))], 9))
    );
}

#[test]
fn extract_reads_values_by_kind() {
    let text = Some(OptionValue::String("x".to_string()));
    let number = Some(OptionValue::Integer(7));
    let truth = Some(OptionValue::Boolean(true));
    assert_eq!(extract(ArgumentKind::String, &text), Some(Argument::String("x".to_string())));
    assert_eq!(extract(ArgumentKind::Integer, &number), Some(Argument::Integer(7)));
    assert_eq!(extract(ArgumentKind::Boolean, &truth), Some(Argument::Boolean(true)));
    assert_eq!(extract(ArgumentKind::User, &number), Some(Argument::User(UserId(7))));
    assert_eq!(extract(ArgumentKind::Channel, &number), Some(Argument::Channel(ChannelId(7))));
    assert_eq!(extract(ArgumentKind::Role, &number), Some(Argument::Role(RoleId(7))));
    for kind in [
        ArgumentKind::String,
        ArgumentKind::Integer,
        ArgumentKind::Boolean,
        ArgumentKind::User,
        ArgumentKind::Channel,
        ArgumentKind::Role,
    ] {
        assert_eq!(extract(kind, &None), None);
        assert_eq!(extract(kind, &Some(OptionValue::Other)), None);
    }
    assert_eq!(extract(ArgumentKind::Integer, &text), None);
    assert_eq!(extract(ArgumentKind::String, &number), None);
    assert_eq!(extract(ArgumentKind::Boolean, &number), None);
    assert_eq!(extract(ArgumentKind::User, &text), None);
    assert_eq!(extract(ArgumentKind::Integer, &truth), None);
}

#[test]
fn extract_cuts_integers_to_the_width_of_the_leaf() {
    assert_eq!(
        extract(ArgumentKind::Integer, &Some(OptionValue::Integer(4294967301))),
        Some(Argument::Integer(5))
    );
    assert_eq!(
        extract(ArgumentKind::Integer, &Some(OptionValue::Integer(2147483648))),
        Some(Argument::Integer(i32::MIN))
    );
    assert_eq!(
        extract(ArgumentKind::Integer, &Some(OptionValue::Integer(-1))),
        Some(Argument::Integer(-1))
    );
    assert_eq!(
        extract(ArgumentKind::User, &Some(OptionValue::Integer(-1))),
        Some(Argument::User(UserId(u64::MAX)))
    );
    assert_eq!(
        extract(ArgumentKind::Role, &Some(OptionValue::Integer(i64::MAX))),
        Some(Argument::Role(RoleId(9223372036854775807)))
    );
}

#[test]
fn options_are_flattened_parents_first() {
    let nested = opt(
        "a",
        None,
        vec![
            opt("b", None, vec![number("c", 1), number("d", 2)]),
            number("e", 3),
            opt("f", None, vec![opt("g", None, vec![number("h", 4)])]),
        ],
    );
    let flat = Argument::traverse_tree(&nested);
    let names: Vec<&str> = flat.iter().map(|o| o.name.as_str()).collect();
    assert_eq!(names, vec!["a", "b", "c", "d", "e", "f", "g", "h"]);
    assert_eq!(flat[2].value, Some(OptionValue::Integer(1)));

    let options = vec![number("x", 0), nested, number("y", 9)];
    let flat = Argument::get_arguments_from_interaction(&options);
    let names: Vec<&str> = flat.iter().map(|o| o.name.as_str()).collect();
    assert_eq!(names, vec!["x", "a", "b", "c", "d", "e", "f", "g", "h", "y"]);
    assert!(Argument::get_arguments_from_interaction(&Vec::new()).is_empty());
}

#[test]
fn parse_entries_takes_the_flat_options() {
    let tree = stats();
    let options = vec![opt("get", None, vec![opt("points", None, vec![number("user", 5)])])];
    let flat = Argument::get_arguments_from_interaction(&options);
    let resolved = Argument::parse_entries(&flat, &tree).unwrap();
    assert_eq!(resolved.1, 1);
    assert_eq!(resolved.0.get("user"), Some(&Argument::User(UserId(5))));
}

#[test]
fn both_sources_select_the_same_handler_on_the_same_path() {
    let tree = stats();
    let points_text = message("stats get points 100", &tree).unwrap();
    let points_options = interaction(
        vec![opt("get", None, vec![opt("points", None, vec![number("user", 100)])])],
        &tree,
    )
    .unwrap();
    assert_eq!(points_text.1, points_options.1);
    assert_eq!(points_text.0, points_options.0);

    let board_text = message("stats get leaderboard 2", &tree).unwrap();
    let board_options = interaction(
        vec![opt("get", None, vec![opt("leaderboard", None, vec![number("page", 2)])])],
        &tree,
    )
    .unwrap();
    assert_eq!(board_text.1, board_options.1);
    assert_eq!(board_text.0, board_options.0);

    let self_text = message("stats self", &tree).unwrap();
    let self_options = interaction(vec![opt("self", None, vec![])], &tree).unwrap();
    assert_eq!(self_text.1, self_options.1);
    assert_eq!(self_text.0, self_options.0);

    assert_eq!(message("stats", &tree), interaction(vec![], &tree));
}

#[test]
fn resolving_twice_gives_the_same_result() {
    let tree = stats();
    let source = CommandSource::Message("test get points 100".to_string());
    let first = Argument::parse(&source, &tree).unwrap();
    let second = Argument::parse(&source, &tree).unwrap();
    assert_eq!(first.0.entries(), second.0.entries());
    assert_eq!(first.1, second.1);

    let source = CommandSource::Interaction(vec![opt(
        "get",
        None,
        vec![opt("leaderboard", None, vec![number("page", 4)])],
    )]);
    let first = Argument::parse(&source, &tree).unwrap();
    let second = Argument::parse(&source, &tree).unwrap();
    assert_eq!(first.0.entries(), second.0.entries());
    assert_eq!(first.1, second.1);

    let source = CommandSource::Message("test".to_string());
    assert!(Argument::parse(&source, &tree).is_none());
    assert!(Argument::parse(&source, &tree).is_none());
}

#[test]
fn parse_dispatches_on_the_source() {
    let tree = stats();
    let by_text = Argument::parse(&CommandSource::Message("x self".to_string()), &tree).unwrap();
    assert_eq!(by_text.1, 3);
    let by_options =
        Argument::parse(&CommandSource::Interaction(vec![opt("self", None, vec![])]), &tree)
            .unwrap();
    assert_eq!(by_options.1, 3);
    assert!(Argument::parse(&CommandSource::Interaction(vec![]), &tree).is_none());
}

#[test]
fn ordering_rule_puts_required_nodes_first() {
    let ordered = vec![leaf_int("a", true), leaf_int("b", true), leaf_int("c", false)];
    let unordered = vec![leaf_int("a", true), leaf_int("b", false), leaf_int("c", true)];
    assert!(CommandArguments::required_first(&ordered));
    assert!(!CommandArguments::required_first(&unordered));
    assert!(CommandArguments::<Id>::required_first(&vec![]));
    assert!(CommandArguments::required_first(&vec![leaf_int("a", false), leaf_int("b", false)]));
    assert!(!CommandArguments::required_first(&vec![leaf_int("a", false), leaf_int("b", true)]));
}

#[test]
fn ordering_rule_holds_at_every_level() {
    let below = |children| vec![sub("s", false, Some(1), Some(children))];
    assert!(CommandArguments::well_ordered(&below(vec![leaf_int("a", true), leaf_int("b", false)])));
    assert!(!CommandArguments::well_ordered(&below(vec![leaf_int("a", false), leaf_int("b", true)])));
    assert!(CommandArguments::required_first(&below(vec![leaf_int("a", false), leaf_int("b", true)])));
    assert!(stats().well_ordered());
    assert!(tree(None, None).well_ordered());
    let deep = tree(
        Some(vec![group(
            "g",
            false,
            None,
            Some(vec![sub("s", false, None, Some(vec![leaf_int("a", false), leaf_int("b", true)]))]),
        )]),
        None,
    );
    assert!(!deep.well_ordered());
}

#[test]
fn checked_command_refuses_a_schema_out_of_order() {
    let good = Command::checked("test", "test command", tree(Some(vec![leaf_int("test", true)]), Some(1)));
    let good = good.unwrap();
    assert_eq!(good.name, "test");
    assert_eq!(good.description, "test command");
    assert_eq!(good.arguments_tree.func, Some(1));
    let bad = Command::checked(
        "test",
        "testing",
        tree(
            Some(vec![leaf_int("test", true), leaf_str("test2", false), leaf_str("test3", true)]),
            Some(1),
        ),
    );
    assert!(bad.is_none());
}

#[test]
fn nodes_answer_for_their_fields() {
    let leaf = leaf_int("n", true);
    assert_eq!(leaf.name(), "n");
    assert!(leaf.required());
    assert_eq!(leaf.kind(), Some(ArgumentKind::Integer));
    assert!(leaf.options().is_none());
    assert_eq!(leaf.func(), None);
    assert_eq!(leaf.type_code(), 4);

    let node = sub("s", false, Some(5), Some(vec![leaf_str("t", false)]));
    assert_eq!(node.name(), "s");
    assert!(!node.required());
    assert_eq!(node.kind(), None);
    assert_eq!(node.options().map(|o| o.len()), Some(1));
    assert_eq!(node.func(), Some(5));
    assert_eq!(node.type_code(), 1);

    assert_eq!(group("g", false, None, None).type_code(), 2);
    assert_eq!(leaf_str("s", false).type_code(), 3);
    assert_eq!(leaf_str("s", false).kind(), Some(ArgumentKind::String));
    assert_eq!(leaf_bool("b", false).type_code(), 5);
    let user: CommandArguments<Id> = CommandArguments::User { name: "u", description: "", required: false };
    let channel: CommandArguments<Id> =
        CommandArguments::Channel { name: "c", description: "", required: false };
    let role: CommandArguments<Id> = CommandArguments::Role { name: "r", description: "", required: false };
    assert_eq!(user.type_code(), 6);
    assert_eq!(channel.type_code(), 7);
    assert_eq!(role.type_code(), 8);
    assert_eq!(user.kind(), Some(ArgumentKind::User));
    assert_eq!(channel.kind(), Some(ArgumentKind::Channel));
    assert_eq!(role.kind(), Some(ArgumentKind::Role));
}

#[test]
fn walk_over_words_moves_the_cursor_past_what_it_takes() {
    let branch = vec![leaf_int("a", true), leaf_bool("b", false), leaf_str("c", false)];
    let tokens = vec!["skip", "1", "x", "y"];
    let mut cursor = 1;
    let mut map = ArgumentMap::new();
    let end = Argument::parse_str(&tokens, &mut cursor, &branch, &mut map, Some(4u32));
    assert_eq!(end, Ok(Some(4)));
    assert_eq!(cursor, 3);
    assert_eq!(map.len(), 2);
    assert_eq!(map.get("a"), Some(&Argument::Integer(1)));
    assert_eq!(map.get("c"), Some(&Argument::String("x".to_string())));

    let mut cursor = 0;
    let mut map = ArgumentMap::new();
    let end = Argument::parse_str(&tokens, &mut cursor, &branch, &mut map, Some(4u32));
    assert_eq!(end, Err(()));

    let mut cursor = 9;
    let mut map = ArgumentMap::new();
    let optional = vec![leaf_int("a", false)];
    let end = Argument::parse_str(&tokens, &mut cursor, &optional, &mut map, None::<u32>);
    assert_eq!(end, Ok(None));
    assert_eq!(cursor, 9);
    assert!(map.is_empty());
}

#[test]
fn walk_over_options_moves_the_cursor_past_what_it_takes() {
    let branch = vec![
        leaf_int("a", true),
        sub("go", false, Some(2), Some(vec![leaf_bool("b", true)])),
        leaf_str("c", false),
    ];
    let options = vec![
        number("a", 1),
        opt("go", None, vec![opt("b", Some(OptionValue::Boolean(true)), vec![])]),
        opt("c", Some(OptionValue::String("x".to_string())), vec![]),
        number("d", 4),
    ];
    let flat = Argument::get_arguments_from_interaction(&options);
    let mut cursor = 0;
    let mut map = ArgumentMap::new();
    let end = Argument::parse_interaction_tree(&branch, &flat, &mut cursor, &mut map, Some(1u32));
    assert_eq!(end, Ok(Some(2)));
    assert_eq!(cursor, 4);
    assert_eq!(map.len(), 2);
    assert_eq!(map.get("a"), Some(&Argument::Integer(1)));
    assert_eq!(map.get("b"), Some(&Argument::Boolean(true)));
    assert_eq!(map.get("c"), None);

    let mut cursor = 5;
    let mut map = ArgumentMap::new();
    let end = Argument::parse_interaction_tree(&branch, &flat, &mut cursor, &mut map, Some(1u32));
    assert_eq!(end, Ok(Some(1)));
    assert_eq!(cursor, 5);
    assert!(map.is_empty());
}

#[test]
fn first_misplaced_finds_the_first_required_after_an_optional() {
    assert_eq!(first_misplaced(&vec![]), None);
    assert_eq!(first_misplaced(&vec![true, true, false, false]), None);
    assert_eq!(first_misplaced(&vec![false, false]), None);
    assert_eq!(first_misplaced(&vec![true, false, true]), Some(2));
    assert_eq!(first_misplaced(&vec![false, true, true]), Some(1));
    assert_eq!(first_misplaced(&vec![true, false, false, true, true]), Some(3));
}

#[test]
fn failed_walk_over_words_stands_where_it_failed() {
    let branch = vec![leaf_int("a", true), leaf_int("b", true)];

    let tokens: Vec<&str> = vec![];
    let mut cursor = 0;
    let mut map = ArgumentMap::new();
    map.insert("kept".to_string(), Argument::Boolean(true));
    let end = Argument::parse_str(&tokens, &mut cursor, &branch, &mut map, Some(4u32));
    assert_eq!(end, Err(()));
    assert_eq!(cursor, 0);
    assert_eq!(map.len(), 1);
    assert_eq!(map.get("kept"), Some(&Argument::Boolean(true)));

    let tokens = vec!["x", "1"];
    let mut cursor = 0;
    let mut map = ArgumentMap::new();
    let end = Argument::parse_str(&tokens, &mut cursor, &branch, &mut map, Some(4u32));
    assert_eq!(end, Err(()));
    assert_eq!(cursor, 0);
    assert!(map.is_empty());

    let tokens = vec!["1", "x"];
    let mut cursor = 0;
    let mut map = ArgumentMap::new();
    let end = Argument::parse_str(&tokens, &mut cursor, &branch, &mut map, Some(4u32));
    assert_eq!(end, Err(()));
    assert_eq!(cursor, 1);
    assert_eq!(map.len(), 1);
    assert_eq!(map.get("a"), Some(&Argument::Integer(1)));

    let nested = vec![sub("go", false, Some(2), Some(vec![leaf_bool("b", true)]))];
    let tokens = vec!["go", "maybe"];
    let mut cursor = 0;
    let mut map = ArgumentMap::new();
    let end = Argument::parse_str(&tokens, &mut cursor, &nested, &mut map, Some(4u32));
    assert_eq!(end, Err(()));
    assert_eq!(cursor, 1);
    assert!(map.is_empty());
}

#[test]
fn failed_walk_over_options_stands_where_it_failed() {
    let branch = vec![leaf_int("n", true)];
    let options = vec![opt("n", Some(OptionValue::String("abc".to_string())), vec![])];
    let flat = Argument::get_arguments_from_interaction(&options);
    let mut cursor = 0;
    let mut map = ArgumentMap::new();
    let end = Argument::parse_interaction_tree(&branch, &flat, &mut cursor, &mut map, Some(1u32));
    assert_eq!(end, Err(()));
    assert_eq!(cursor, 1);
    assert!(map.is_empty());

    let branch = vec![sub("a", true, Some(2), None)];
    let options = vec![opt("b", None, vec![])];
    let flat = Argument::get_arguments_from_interaction(&options);
    let mut cursor = 0;
    let mut map = ArgumentMap::new();
    let end = Argument::parse_interaction_tree(&branch, &flat, &mut cursor, &mut map, Some(1u32));
    assert_eq!(end, Err(()));
    assert_eq!(cursor, 1);
    assert!(map.is_empty());

    let branch = vec![leaf_int("a", true), leaf_bool("b", true)];
    let options = vec![number("a", 1), number("b", 2)];
    let flat = Argument::get_arguments_from_interaction(&options);
    let mut cursor = 0;
    let mut map = ArgumentMap::new();
    let end = Argument::parse_interaction_tree(&branch, &flat, &mut cursor, &mut map, Some(1u32));
    assert_eq!(end, Err(()));
    assert_eq!(cursor, 2);
    assert_eq!(map.len(), 1);
    assert_eq!(map.get("a"), Some(&Argument::Integer(1)));
}

#[test]
fn required_group_after_an_entered_group_fails_both_walks() {
    let tree = tree(
        Some(vec![sub("g", true, Some(1), None), sub("z", true, Some(2), None)]),
        None,
    );
    assert_eq!(interaction(vec![opt("g", None, vec![])], &tree), None);
    assert_eq!(words("g", &tree), None);
    assert_eq!(interaction(vec![opt("z", None, vec![])], &tree), None);
    assert_eq!(words("z", &tree), None);

    let nested = CommandArgumentsTree {
        children: Some(vec![
            sub("g", true, Some(1), Some(vec![leaf_int("n", true)])),
            sub("z", true, Some(2), None),
        ]),
        func: None,
    };
    assert_eq!(interaction(vec![opt("g", None, vec![number("n", 1)])], &nested), None);
    assert_eq!(words("g 1", &nested), None);

    let optional = CommandArgumentsTree {
        children: Some(vec![
            sub("g", true, Some(1), Some(vec![leaf_int("n", true)])),
            sub("z", false, Some(2), None),
        ]),
        func: None,
    };
    assert_eq!(
        interaction(vec![opt("g", None, vec![number("n", 1)])], &optional),
        Some((vec![named("n", Argument::Integer(1))], 1))
    );
    assert_eq!(words("g 1", &optional), Some((vec![named("n", Argument::Integer(1))], 1)));
}

#[test]
fn siblings_after_an_entered_group_are_matched_against_its_option() {
    let tree = tree(
        Some(vec![sub("go", false, Some(2), Some(vec![leaf_bool("b", true)])), leaf_str("c", false)]),
        Some(9),
    );
    let options = vec![
        opt("go", None, vec![opt("b", Some(OptionValue::Boolean(true)), vec![])]),
        opt("c", Some(OptionValue::String("x".to_string())), vec![]),
    ];
    assert_eq!(interaction(options, &tree), Some((vec![named("b", Argument::Boolean(true))], 2)));

    let same_name = CommandArgumentsTree {
        children: Some(vec![sub("go", false, Some(2), None), sub("go", false, Some(3), None)]),
        func: Some(9),
    };
    assert_eq!(interaction(vec![opt("go", None, vec![])], &same_name), Some((vec![], 3)));
}

#[test]
fn group_entered_with_no_option_left_walks_nothing_below() {
    let tree = tree(
        Some(vec![sub("go", false, Some(2), Some(vec![leaf_int("n", true)]))]),
        Some(9),
    );
    assert_eq!(interaction(vec![opt("go", None, vec![])], &tree), Some((vec![], 2)));
}

#[test]
fn arguments_compare_by_variant_and_value() {
    assert!(Argument::Integer(1) == Argument::Integer(1));
    assert!(Argument::Integer(1) != Argument::Integer(2));
    assert!(Argument::Integer(1) != Argument::String("1".to_string()));
    assert!(Argument::User(UserId(1)) != Argument::Role(RoleId(1)));
    assert!(Argument::Channel(ChannelId(1)) != Argument::User(UserId(1)));
    assert!(Argument::String("a b".to_string()) == Argument::String("a b".to_string()));
    assert!(Argument::String("a".to_string()) != Argument::String("b".to_string()));
    assert!(Argument::Boolean(true) == Argument::Boolean(true));
    assert!(Argument::Boolean(true) != Argument::Boolean(false));
    assert!(Argument::Role(RoleId(7)) == Argument::Role(RoleId(7)));
}

#[test]
fn flattened_options_are_the_options_of_the_tree() {
    let leaf = number("c", 1);
    let nested = opt("a", None, vec![opt("b", None, vec![number("c", 1)])]);
    let flat = Argument::traverse_tree(&nested);
    assert_eq!(flat.len(), 3);
    assert!(std::ptr::eq(flat[0], &nested));
    assert!(std::ptr::eq(flat[1], &nested.options[0]));
    assert!(std::ptr::eq(flat[2], &nested.options[0].options[0]));
    assert_eq!(flat[2], &leaf);
    assert_eq!(flat[1].options.len(), 1);
}

#[test]
fn all_misplaced_finds_every_required_after_an_optional() {
    assert_eq!(all_misplaced(&vec![]), Vec::<usize>::new());
    assert_eq!(all_misplaced(&vec![true, true, false, false]), Vec::<usize>::new());
    assert_eq!(all_misplaced(&vec![true, false, true]), vec![2]);
    assert_eq!(all_misplaced(&vec![false, true, true]), vec![1, 2]);
    assert_eq!(all_misplaced(&vec![true, false, false, true, false, true]), vec![3, 5]);
}
