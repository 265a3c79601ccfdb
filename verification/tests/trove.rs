use hoard::command::trove::{Trove, CARGO_VERSION, TABLE_HEADER};
use hoard::command::{HoardCommand, TroveError};
use hoard::config::HoardConfig;

fn command(name: &str, namespace: &str, body: &str) -> HoardCommand {
    HoardCommand::default()
        .with_name(name)
        .with_namespace(namespace)
        .with_command(body)
}

fn names(trove: &Trove) -> Vec<String> {
    trove.commands.iter().map(|c| c.name.clone()).collect()
}

fn bodies(trove: &Trove) -> Vec<String> {
    trove.commands.iter().map(|c| c.command.clone()).collect()
}

fn tokens() -> HoardConfig {
    HoardConfig {
        parameter_token: Some("#".to_string()),
        parameter_ending_token: Some("!".to_string()),
    }
}

#[test]
fn empty_trove() {
    let trove = Trove::default();
    assert!(trove.is_empty());
}

#[test]
fn not_empty_trove() {
    let mut trove = Trove::default();
    let command = HoardCommand::default()
        .with_name("test")
        .with_namespace("test-namespace")
        .with_command("echo 'test'");
    let val = trove.add_command(command, true);
    assert!(val.is_ok());
    assert!(!trove.is_empty());
}

#[test]
fn trove_namespaces() {
    let namespace1 = "NAMESPACE1";
    let namespace2 = "NAMESPACE2";

    let command1 = HoardCommand {
        name: "name1".to_string(),
        namespace: namespace1.to_string(),
        command: "command1".to_string(),
        ..HoardCommand::default()
    };

    let command2 = HoardCommand {
        name: "name2".to_string(),
        namespace: namespace2.to_string(),
        command: "command2".to_string(),
        ..HoardCommand::default()
    };

    let command3 = HoardCommand {
        name: "name3".to_string(),
        namespace: namespace1.to_string(),
        command: "command3".to_string(),
        ..HoardCommand::default()
    };

    let mut trove = Trove::default();
    let res1 = trove.add_command(command1, true);
    assert!(res1.is_ok());
    let res2 = trove.add_command(command2, true);
    assert!(res2.is_ok());
    let res3 = trove.add_command(command3, true);
    assert!(res3.is_ok());

    assert_eq!(vec![namespace1, namespace2], trove.namespaces());
}

#[test]
fn fresh_trove_has_no_commands_and_no_namespaces() {
    let trove = Trove::default();
    assert!(trove.is_empty());
    assert_eq!(trove.commands.len(), 0);
    assert!(trove.namespaces().is_empty());
    assert!(trove.namespaces.is_empty());
    assert_eq!(trove.version, CARGO_VERSION);
}

#[test]
fn adding_without_collision_grows_by_one() {
    let mut trove = Trove::default();
    assert_eq!(trove.add_command(command("a", "ns", "ls"), false), Ok(true));
    assert_eq!(trove.commands.len(), 1);
    assert!(!trove.is_empty());
    assert_eq!(trove.add_command(command("b", "ns", "ls"), false), Ok(true));
    assert_eq!(trove.commands.len(), 2);
    // The same name in another namespace is no collision.
    assert_eq!(trove.add_command(command("a", "other", "ls"), false), Ok(true));
    assert_eq!(trove.commands.len(), 3);
    assert_eq!(names(&trove), vec!["a", "b", "a"]);
    assert_eq!(trove.namespaces, vec!["ns", "other"]);
}

#[test]
fn adding_a_duplicate_changes_nothing() {
    let mut trove = Trove::default();
    assert_eq!(trove.add_command(command("a", "ns", "ls"), true), Ok(true));
    let before = trove.clone();
    assert_eq!(trove.add_command(command("a", "ns", "ls"), true), Ok(false));
    assert_eq!(trove.add_command(command("a", "ns", "ls"), false), Ok(false));
    assert_eq!(trove.commands, before.commands);
    assert_eq!(trove.namespaces, before.namespaces);
}

#[test]
fn duplicate_ignores_description_and_tags() {
    let mut trove = Trove::default();
    assert_eq!(trove.add_command(command("a", "ns", "ls"), true), Ok(true));
    let described = HoardCommand {
        description: "lists files".to_string(),
        tags: vec!["files".to_string()],
        ..command("a", "ns", "ls")
    };
    assert_eq!(trove.add_command(described, true), Ok(false));
    assert_eq!(trove.commands.len(), 1);
    assert_eq!(trove.commands[0].description, "");
    assert!(trove.commands[0].tags.is_empty());
}

#[test]
fn collision_without_overwrite_renames_the_newcomer() {
    let mut trove = Trove::default();
    assert_eq!(trove.add_command(command("a", "ns", "ls"), false), Ok(true));
    assert_eq!(trove.add_command(command("a", "ns", "ls -l"), false), Ok(true));
    assert_eq!(trove.commands.len(), 2);
    assert_eq!(trove.commands[0], command("a", "ns", "ls"));
    let renamed = &trove.commands[1];
    assert_ne!(renamed.name, "a");
    assert_eq!(renamed.namespace, "ns");
    assert_eq!(renamed.command, "ls -l");
    assert!(renamed.name.starts_with("a-"));
    let suffix = &renamed.name["a-".len()..];
    assert_eq!(suffix.chars().count(), 4);
    assert!(suffix.chars().all(|c| c.is_ascii_alphanumeric()));
}

#[test]
fn collision_without_overwrite_takes_the_given_suffix() {
    let mut trove = Trove::default();
    assert_eq!(trove.add_command_with_suffix(command("a", "ns", "ls"), false, "x1"), Ok(true));
    assert_eq!(names(&trove), vec!["a"]);
    assert_eq!(trove.add_command_with_suffix(command("a", "ns", "ls -l"), false, "x1"), Ok(true));
    assert_eq!(names(&trove), vec!["a", "a-x1"]);
    assert_eq!(bodies(&trove), vec!["ls", "ls -l"]);
    // The renamed command is looked up under its own name from then on.
    assert_eq!(trove.add_command_with_suffix(command("a", "ns", "ls -a"), false, "x1"), Ok(true));
    assert_eq!(names(&trove), vec!["a", "a-x1", "a-x1"]);
}

#[test]
fn collision_with_overwrite_replaces_the_stored_command() {
    let mut trove = Trove::default();
    assert_eq!(trove.add_command(command("first", "ns", "pwd"), true), Ok(true));
    assert_eq!(trove.add_command(command("a", "ns", "ls"), true), Ok(true));
    assert_eq!(trove.add_command(command("last", "ns", "id"), true), Ok(true));
    assert_eq!(trove.add_command(command("a", "ns", "ls -l"), true), Ok(true));
    assert_eq!(trove.commands.len(), 3);
    assert_eq!(names(&trove), vec!["first", "last", "a"]);
    assert_eq!(bodies(&trove), vec!["pwd", "id", "ls -l"]);
}

#[test]
fn overwrite_removes_every_copy_of_the_first_collision() {
    let copy = command("a", "ns", "ls");
    let other = HoardCommand {
        description: "another".to_string(),
        ..command("a", "ns", "ls -a")
    };
    let mut trove = Trove::from_commands(&[copy.clone(), other.clone(), copy.clone()]);
    assert_eq!(trove.add_command(command("a", "ns", "ls -l"), true), Ok(true));
    assert_eq!(trove.commands, vec![other, command("a", "ns", "ls -l")]);
}

#[test]
fn invalid_command_is_refused() {
    let mut trove = Trove::default();
    assert_eq!(
        trove.add_command(command("", "ns", "ls"), true),
        Err(TroveError::InvalidCommand)
    );
    assert_eq!(
        trove.add_command(command("a", "ns", ""), false),
        Err(TroveError::InvalidCommand)
    );
    assert_eq!(
        trove.add_command(HoardCommand::default(), true),
        Err(TroveError::InvalidCommand)
    );
    assert!(trove.is_empty());
    assert!(trove.namespaces.is_empty());
}

#[test]
fn deploy_twice_then_collide() {
    let mut trove = Trove::default();
    assert_eq!(trove.add_command(command("deploy", "ops", "echo hi"), true), Ok(true));
    assert_eq!(trove.commands.len(), 1);
    assert_eq!(trove.add_command(command("deploy", "ops", "echo hi"), true), Ok(false));
    assert_eq!(trove.commands.len(), 1);
    assert_eq!(trove.add_command(command("deploy", "ops", "echo bye"), false), Ok(true));
    assert_eq!(trove.commands.len(), 2);
    assert_ne!(trove.commands[1].name, "deploy");
    assert_eq!(trove.commands[0].name, "deploy");
    assert_eq!(trove.commands[0].command, "echo hi");
    assert_eq!(trove.commands[1].command, "echo bye");
}

#[test]
fn get_command_collision_finds_the_first_match() {
    let first = HoardCommand {
        description: "first".to_string(),
        ..command("a", "ns", "ls")
    };
    let second = HoardCommand {
        description: "second".to_string(),
        ..command("a", "ns", "ls -l")
    };
    let trove = Trove::from_commands(&[command("a", "other", "id"), first.clone(), second]);
    assert_eq!(trove.get_command_collision(&command("a", "ns", "whatever")), Some(first));
    assert_eq!(trove.get_command_collision(&command("b", "ns", "ls")), None);
    assert_eq!(trove.get_command_collision(&command("a", "third", "ls")), None);
}

#[test]
fn is_command_present_compares_namespace_name_and_body() {
    let trove = Trove::from_commands(&[command("a", "ns", "ls"), command("a", "ns", "ls -l")]);
    assert!(trove.is_command_present(&command("a", "ns", "ls")));
    assert!(trove.is_command_present(&command("a", "ns", "ls -l")));
    assert!(!trove.is_command_present(&command("a", "ns", "ls -a")));
    assert!(!trove.is_command_present(&command("a", "other", "ls")));
    assert!(!trove.is_command_present(&command("b", "ns", "ls")));
}

#[test]
fn add_namespace_registers_once() {
    let mut trove = Trove::default();
    trove.add_namespace("ops");
    trove.add_namespace("dev");
    trove.add_namespace("ops");
    assert_eq!(trove.namespaces, vec!["ops", "dev"]);
    // Registered namespaces are not listed: only those of stored commands are.
    assert!(trove.namespaces().is_empty());
}

#[test]
fn from_commands_keeps_order_and_registers_namespaces() {
    let commands = [
        command("a", "zeta", "ls"),
        command("b", "alpha", "id"),
        command("c", "zeta", "pwd"),
    ];
    let trove = Trove::from_commands(&commands);
    assert_eq!(trove.version, CARGO_VERSION);
    assert_eq!(trove.commands, commands.to_vec());
    assert_eq!(trove.namespaces, vec!["zeta", "alpha"]);
    assert_eq!(trove.namespaces(), vec!["alpha", "zeta"]);
    assert!(Trove::from_commands(&[]).is_empty());
}

#[test]
fn remove_command_takes_every_command_of_that_name() {
    let mut trove = Trove::from_commands(&[
        command("a", "one", "ls"),
        command("b", "one", "id"),
        command("a", "two", "pwd"),
    ]);
    assert_eq!(trove.remove_command("a"), Ok(()));
    assert_eq!(trove.commands, vec![command("b", "one", "id")]);
}

#[test]
fn remove_command_fails_on_an_absent_name() {
    let mut trove = Trove::from_commands(&[command("a", "one", "ls")]);
    assert_eq!(trove.remove_command("b"), Err(TroveError::NotFound));
    assert_eq!(trove.commands.len(), 1);
    assert_eq!(trove.commands, vec![command("a", "one", "ls")]);
    assert_eq!(Trove::default().remove_command("a"), Err(TroveError::NotFound));
}

#[test]
fn remove_namespace_commands_takes_the_whole_namespace() {
    let mut trove = Trove::from_commands(&[
        command("a", "one", "ls"),
        command("b", "two", "id"),
        command("c", "one", "pwd"),
    ]);
    assert_eq!(trove.remove_namespace_commands("one"), Ok(()));
    assert_eq!(trove.commands, vec![command("b", "two", "id")]);
    assert_eq!(trove.remove_namespace_commands("one"), Err(TroveError::NotFound));
    assert_eq!(trove.commands, vec![command("b", "two", "id")]);
}

#[test]
fn namespaces_follow_removals_while_the_register_does_not() {
    let mut trove = Trove::default();
    assert_eq!(trove.add_command(command("a", "one", "ls"), true), Ok(true));
    assert_eq!(trove.add_command(command("b", "two", "id"), true), Ok(true));
    assert_eq!(trove.namespaces(), vec!["one", "two"]);
    assert_eq!(trove.remove_namespace_commands("one"), Ok(()));
    assert_eq!(trove.namespaces(), vec!["two"]);
    assert_eq!(trove.namespaces, vec!["one", "two"]);
    assert_eq!(trove.remove_command("b"), Ok(()));
    assert!(trove.namespaces().is_empty());
    assert_eq!(trove.namespaces, vec!["one", "two"]);
}

#[test]
fn namespaces_are_distinct_and_sorted_by_bytes() {
    let trove = Trove::from_commands(&[
        command("1", "b", "x"),
        command("2", "ab", "x"),
        command("3", "a", "x"),
        command("4", "B", "x"),
        command("5", "é", "x"),
        command("6", "z", "x"),
        command("7", "a", "x"),
        command("8", "", "x"),
    ]);
    assert_eq!(trove.namespaces(), vec!["", "B", "a", "ab", "b", "z", "é"]);
}

#[test]
fn pick_command_takes_the_first_of_that_name() {
    let trove = Trove::from_commands(&[
        command("a", "one", "ls #dir!"),
        command("b", "one", "id"),
        command("b", "two", "pwd"),
    ]);
    let picked = trove.pick_command(&tokens(), "b", |c, _, _| c);
    assert_eq!(picked, Ok(command("b", "one", "id")));
}

#[test]
fn pick_command_hands_the_markers_to_the_engine() {
    let trove = Trove::from_commands(&[command("a", "one", "ls")]);
    let picked = trove.pick_command(&tokens(), "a", |c, token, ending| {
        let body = format!("{}{}{}", token, c.command, ending);
        c.with_command(&body)
    });
    assert_eq!(picked, Ok(command("a", "one", "#ls!")));
}

#[test]
fn pick_command_fails_on_an_absent_name() {
    let trove = Trove::from_commands(&[command("a", "one", "ls")]);
    let picked = trove.pick_command(&tokens(), "b", |_, _, _| panic!("nothing to resolve"));
    assert_eq!(picked, Err(TroveError::NotFound));
    let no_tokens = HoardConfig { parameter_token: None, parameter_ending_token: None };
    let picked = trove.pick_command(&no_tokens, "b", |c, _, _| c);
    assert_eq!(picked, Err(TroveError::NotFound));
}

#[test]
fn update_command_by_name_replaces_every_match() {
    let mut trove = Trove::from_commands(&[
        command("a", "one", "ls"),
        command("b", "one", "id"),
        command("a", "two", "pwd"),
    ]);
    let update = HoardCommand {
        description: "new".to_string(),
        ..command("a", "three", "ls -l")
    };
    trove.update_command_by_name(&update);
    assert_eq!(trove.commands, vec![update.clone(), command("b", "one", "id"), update.clone()]);
    assert_eq!(trove.namespaces, vec!["one", "two"]);

    let before = trove.clone();
    trove.update_command_by_name(&command("absent", "one", "ls"));
    assert_eq!(trove.commands, before.commands);

    let size = trove
        .update_command_by_name(&command("b", "one", "whoami"))
        .update_command_by_name(&command("a", "one", "ls"))
        .commands
        .len();
    assert_eq!(size, 3);
    assert_eq!(bodies(&trove), vec!["ls", "whoami", "ls"]);
}

#[test]
fn merge_adds_the_new_and_skips_the_duplicate() {
    let mut a = Trove::from_commands(&[command("a", "ns", "ls")]);
    let b = Trove::from_commands(&[command("b", "ns", "id"), command("a", "ns", "ls")]);
    assert!(a.merge_trove(&b));
    assert_eq!(a.commands, vec![command("a", "ns", "ls"), command("b", "ns", "id")]);

    let mut a = Trove::from_commands(&[command("a", "ns", "ls")]);
    let b = Trove::from_commands(&[command("a", "ns", "ls"), command("b", "ns", "id")]);
    assert!(a.merge_trove(&b));
    assert_eq!(a.commands.len(), 2);
}

#[test]
fn merge_gives_every_command_its_turn() {
    let mut a = Trove::default();
    let b = Trove::from_commands(&[
        command("a", "one", "ls"),
        command("", "one", "invalid"),
        command("b", "two", "id"),
        command("a", "one", "ls -l"),
    ]);
    assert!(a.merge_trove(&b));
    assert_eq!(a.commands, vec![command("b", "two", "id"), command("a", "one", "ls -l")]);
    assert_eq!(a.namespaces, vec!["one", "two"]);
}

#[test]
fn merge_without_news_reports_no_change() {
    let mut a = Trove::from_commands(&[command("a", "ns", "ls"), command("b", "ns", "id")]);
    let b = Trove::from_commands(&[command("b", "ns", "id"), command("", "ns", "invalid")]);
    let before = a.clone();
    assert!(!a.merge_trove(&b));
    assert_eq!(a.commands, before.commands);
    assert!(!a.merge_trove(&Trove::default()));
    assert_eq!(a.commands, before.commands);
}

#[test]
fn or_default_recovers_from_a_failed_load() {
    let loaded = Trove::from_commands(&[command("a", "ns", "ls")]);
    let kept = Trove::or_default(Some(loaded.clone()));
    assert_eq!(kept.commands, loaded.commands);
    assert_eq!(kept.namespaces, loaded.namespaces);
    assert_eq!(kept.version, loaded.version);
    let fresh = Trove::or_default(None);
    assert!(fresh.is_empty());
    assert_eq!(fresh.version, CARGO_VERSION);
}

#[test]
fn clone_copies_everything() {
    let mut trove = Trove::from_commands(&[command("a", "ns", "ls")]);
    trove.version = "9.9.9".to_string();
    trove.add_namespace("spare");
    let copy = trove.clone();
    assert_eq!(copy.version, "9.9.9");
    assert_eq!(copy.commands, trove.commands);
    assert_eq!(copy.namespaces, vec!["ns", "spare"]);
}

#[test]
fn table_rows_follow_storage_order() {
    let described = HoardCommand {
        description: "lists files".to_string(),
        tags: vec!["files".to_string(), "shell".to_string()],
        ..command("list", "fs", "ls -l")
    };
    let trove = Trove::from_commands(&[described, command("who", "sys", "id")]);
    assert_eq!(
        trove.table_rows(),
        vec![
            vec!["list", "fs", "ls -l", "lists files", "files,shell"],
            vec!["who", "sys", "id", "", ""],
        ]
    );
    assert!(Trove::default().table_rows().is_empty());
    assert_eq!(TABLE_HEADER, ["Name", "namespace", "command", "description", "tags"]);
}

#[test]
fn merge_keeps_one_command_under_each_key() {
    let mut a = Trove::from_commands(&[command("a", "one", "ls"), command("b", "one", "id")]);
    let b = Trove::from_commands(&[
        command("a", "one", "ls -l"),
        command("b", "two", "id -u"),
        command("a", "one", "ls -a"),
    ]);
    assert!(a.merge_trove(&b));
    assert_eq!(
        a.commands,
        vec![command("b", "one", "id"), command("b", "two", "id -u"), command("a", "one", "ls -a")]
    );
}

#[test]
fn error_messages() {
    assert_eq!(TroveError::InvalidCommand.message(), "cannot save invalid command");
    assert_eq!(TroveError::NotFound.message(), "no matching command found");
}
