use slashy::argument::{Argument, UserId};
use slashy::commands::{ArgumentChoice, Command, CommandArguments, CommandArgumentsTree};
use slashy::framework::CommandSource;
use slashy::interaction::{InteractionOption, OptionValue};

type Handler = fn() -> u32;

fn test() -> u32 {
    1
}

fn test2() -> u32 {
    2
}

fn test3() -> u32 {
    3
}

fn stats_tree() -> CommandArgumentsTree<Handler> {
    CommandArgumentsTree {
        children: Some(vec![
            CommandArguments::SubCommandGroup {
                name: "get",
                description: "",
                required: false,
                func: None,
                options: Some(vec![
                    CommandArguments::SubCommand {
                        name: "points",
                        description: "get a user's points",
                        required: false,
                        func: Some(test as Handler),
                        options: Some(vec![CommandArguments::User {
                            name: "user",
                            description: "the selected user",
                            required: true,
                        }]),
                    },
                    CommandArguments::SubCommand {
                        name: "leaderboard",
                        description: "get the guild leaderboard",
                        required: false,
                        func: Some(test2 as Handler),
                        options: Some(vec![CommandArguments::Integer {
                            name: "page",
                            description: "the page of the leaderboard to get",
                            required: false,
                            choices: Some(vec![ArgumentChoice { name: "default", value: 0 }]),
                        }]),
                    },
                ]),
            },
            CommandArguments::SubCommand {
                name: "self",
                description: "get your personal stats",
                required: false,
                options: None,
                func: Some(test3 as Handler),
            },
        ]),
        func: None,
    }
}

fn option(name: &str, value: Option<OptionValue>, options: Vec<InteractionOption>) -> InteractionOption {
    InteractionOption { name: name.to_string(), value, options }
}

#[test]
fn interaction_parse_test() {
    let arguments_tree = stats_tree();

    let source1 = vec![option(
        "get",
        None,
        vec![option(
            "points",
            None,
            vec![option("user", Some(OptionValue::Integer(0)), vec![])],
        )],
    )];
    let source2 = vec![option(
        "get",
        None,
        vec![option(
            "leaderboard",
            None,
            vec![option("page", Some(OptionValue::Integer(0)), vec![])],
        )],
    )];
    let source3 = vec![option("self", None, vec![])];
    let source4 = vec![];

    let args1 = Argument::parse(&CommandSource::Interaction(source1), &arguments_tree);
    let args2 = Argument::parse(&CommandSource::Interaction(source2), &arguments_tree);
    let args3 = Argument::parse(&CommandSource::Interaction(source3), &arguments_tree);
    let args4 = Argument::parse(&CommandSource::Interaction(source4), &arguments_tree);

    assert!(args1.is_some());
    let args = args1.unwrap();
    assert_eq!(args.1 as usize, test as usize);
    assert_eq!(args.0.get("user"), Some(&Argument::User(UserId(0))));

    assert!(args2.is_some());
    let args = args2.unwrap();
    assert_eq!(args.1 as usize, test2 as usize);
    assert_eq!(args.0.get("page"), Some(&Argument::Integer(0)));

    assert!(args3.is_some());
    let args = args3.unwrap();
    assert_eq!(args.1 as usize, test3 as usize);
    assert!(args.0.is_empty());

    assert!(args4.is_none());
}

#[test]
fn message_parse_test() {}

#[test]
fn str_split_test() {
    let test1 = "this is a test!";
    let test2 = "we are testing! yay";
    let test3 = "this is a test \"involving quotes\"";

    let args1 = Argument::get_arg_strings(test1);
    let args2 = Argument::get_arg_strings(test2);
    let args3 = Argument::get_arg_strings(test3);

    assert_eq!(args1, vec!["this", "is", "a", "test!"]);
    assert_eq!(args2, vec!["we", "are", "testing!", "yay"]);
    assert_eq!(args3, vec!["this", "is", "a", "test", "involving quotes"]);
}

#[test]
fn str_parse_test() {
    let arguments_tree = stats_tree();

    let points = Argument::parse_message("test get points 100", &arguments_tree);
    let leaderboard = Argument::parse_message("test get leaderboard", &arguments_tree);
    let get_self = Argument::parse_message("test get self", &arguments_tree);
    let get = Argument::parse_message("test get", &arguments_tree);

    assert!(points.is_some());
    let args = points.unwrap();
    assert_eq!(args.1 as usize, test as usize);
    assert_eq!(args.0.get("user"), Some(&Argument::User(UserId(100))));

    assert!(leaderboard.is_some());
    let args = leaderboard.unwrap();
    assert_eq!(args.1 as usize, test2 as usize);
    assert_eq!(args.0.get("page"), None);

    assert!(get_self.is_some());
    let args = get_self.unwrap();
    assert_eq!(args.1 as usize, test3 as usize);
    assert!(args.0.is_empty());

    assert!(get.is_none());
}

#[test]
fn command_macro_test() {
    let cmd: Command<Handler> = Command {
        name: "test",
        description: "test command",
        arguments_tree: CommandArgumentsTree {
            children: Some(vec![CommandArguments::Integer {
                name: "test",
                description: "test int",
                required: true,
                choices: None,
            }]),
            func: Some(test as Handler),
        },
    };
    assert_eq!("test", cmd.name);
    assert_eq!("test command", cmd.description);

    let args = Argument::parse_message("test 12", &cmd.arguments_tree).unwrap();
    assert_eq!(Some(&Argument::Integer(12)), args.0.get("test"));
    assert_eq!(None, args.0.get("testt"));
}
