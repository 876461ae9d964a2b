use rustdmenu::command::{parse_command, Command};

fn strings(list: &[&str]) -> Vec<String> {
    list.iter().map(|s| s.to_string()).collect()
}

#[test]
fn delete_with_an_identifier_is_a_deletion() {
    match parse_command(&strings(&["prog", "delete", "vim"])) {
        Command::Delete { prog } => assert_eq!(prog, "vim"),
        Command::Run { .. } => panic!("a deletion was asked for"),
    }
}

#[test]
fn what_follows_the_identifier_is_left_aside() {
    match parse_command(&strings(&["prog", "delete", "vim", "htop"])) {
        Command::Delete { prog } => assert_eq!(prog, "vim"),
        Command::Run { .. } => panic!("a deletion was asked for"),
    }
}

#[test]
fn no_argument_is_a_run() {
    match parse_command(&strings(&["prog"])) {
        Command::Run { picker_args } => assert!(picker_args.is_empty()),
        Command::Delete { .. } => panic!("a run was asked for"),
    }
}

#[test]
fn other_arguments_go_on_to_the_picker() {
    match parse_command(&strings(&["prog", "-fn", "Terminus-9"])) {
        Command::Run { picker_args } => assert_eq!(picker_args, vec!["-fn", "Terminus-9"]),
        Command::Delete { .. } => panic!("a run was asked for"),
    }
}

#[test]
fn delete_without_an_identifier_is_a_run() {
    match parse_command(&strings(&["prog", "delete"])) {
        Command::Run { picker_args } => assert_eq!(picker_args, vec!["delete"]),
        Command::Delete { .. } => panic!("a run was asked for"),
    }
}

#[test]
fn delete_counts_in_the_first_place_only() {
    match parse_command(&strings(&["prog", "-b", "delete", "vim"])) {
        Command::Run { picker_args } => assert_eq!(picker_args, vec!["-b", "delete", "vim"]),
        Command::Delete { .. } => panic!("a run was asked for"),
    }
}

#[test]
fn no_arguments_at_all_are_a_run() {
    match parse_command(&Vec::new()) {
        Command::Run { picker_args } => assert!(picker_args.is_empty()),
        Command::Delete { .. } => panic!("a run was asked for"),
    }
}
