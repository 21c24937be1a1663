use mylauncher::launch::{supervised_command, LaunchState};
use mylauncher::launcher::{activate_record, Launcher};
use mylauncher::catalog::Catalog;
use mylauncher::history::HistoryList;
use mylauncher::record::ShortcutRecord;
use mylauncher::resolve::{parse_command, resolve, resolve_expanded, strip_placeholders, LaunchCommand};
use mylauncher::session::{Visibility, WindowAction};

fn command(program: &str, args: &[&str]) -> LaunchCommand {
    LaunchCommand { program: program.to_string(), args: args.iter().map(|a| a.to_string()).collect() }
}

#[test]
fn placeholders_are_dropped() {
    assert_eq!(resolve("firefox %u --new-window"), Some(command("firefox", &["--new-window"])));
}

#[test]
fn only_placeholders_give_nothing_to_launch() {
    assert_eq!(resolve("%f %u"), None);
    assert_eq!(resolve(""), None);
    assert_eq!(resolve("   \t "), None);
    assert_eq!(resolve("%U"), None);
}

#[test]
fn strip_joins_the_kept_words_with_single_spaces() {
    assert_eq!(strip_placeholders("  gimp   %F  --no-splash "), "gimp --no-splash");
    assert_eq!(strip_placeholders("%f"), "");
    assert_eq!(strip_placeholders("a%b %c d% 100%"), "a%b d% 100%");
    assert_eq!(strip_placeholders("env\tVAR=1\nprog"), "env VAR=1 prog");
}

#[test]
fn strip_agrees_with_filter_and_join() {
    let samples = ["firefox %u", "% %% a %", "  x  ", "a b c", "%a%b c%d", "snap run --command=sh code %F"];
    for s in samples {
        let expected = s.split_whitespace().filter(|w| !w.starts_with('%')).collect::<Vec<&str>>().join(" ");
        assert_eq!(strip_placeholders(s), expected, "input {:?}", s);
    }
}

#[test]
fn parse_command_splits_program_and_arguments() {
    assert_eq!(parse_command("ls"), Some(command("ls", &[])));
    assert_eq!(parse_command(" ls  -l \t /tmp "), Some(command("ls", &["-l", "/tmp"])));
    assert_eq!(parse_command(" \n "), None);
}

#[test]
fn resolve_expanded_takes_the_expansion() {
    assert_eq!(
        resolve_expanded("$EDITOR file", Some("vim -u NONE file".to_string())),
        Some(command("vim", &["-u", "NONE", "file"]))
    );
    assert_eq!(resolve_expanded("$EMPTY", Some("".to_string())), None);
    assert_eq!(resolve_expanded("$EMPTY", Some("  ".to_string())), None);
}

#[test]
fn resolve_expanded_falls_back_to_the_unexpanded_text() {
    assert_eq!(resolve_expanded("$EDITOR file", None), Some(command("$EDITOR", &["file"])));
}

#[test]
fn resolve_expands_variables() {
    assert_eq!(
        resolve("echo ${MYLAUNCHER_TEST_UNSET_VARIABLE:-fallback value} %u"),
        Some(command("echo", &["fallback", "value"]))
    );
    assert_eq!(resolve("echo $$"), Some(command("echo", &["$"])));
}

#[test]
fn resolve_keeps_the_text_where_a_variable_is_unknown() {
    assert_eq!(
        resolve("echo $MYLAUNCHER_TEST_UNSET_VARIABLE %f"),
        Some(command("echo", &["$MYLAUNCHER_TEST_UNSET_VARIABLE"]))
    );
}

#[test]
fn resolve_leaves_plain_commands_alone() {
    assert_eq!(
        resolve("/usr/bin/flatpak run --branch=stable org.gimp.GIMP @@u %U @@"),
        Some(command("/usr/bin/flatpak", &["run", "--branch=stable", "org.gimp.GIMP", "@@u", "@@"]))
    );
    assert_eq!(resolve("~other/bin/tool"), Some(command("~other/bin/tool", &[])));
}

#[test]
fn supervised_command_wraps_the_command() {
    let cmd = command("firefox", &["--new-window", "x"]);
    assert_eq!(
        supervised_command(&cmd),
        command("systemd-run", &["--user", "--scope", "firefox", "--new-window", "x"])
    );
    assert_eq!(supervised_command(&command("ls", &[])), command("systemd-run", &["--user", "--scope", "ls"]));
}

#[test]
fn launch_tries_the_supervisor_first() {
    let cmd = command("gimp", &["a.png"]);
    let state = LaunchState::start();
    assert_eq!(state, LaunchState::Supervised);
    assert_eq!(state.attempt(&cmd), Some(supervised_command(&cmd)));
    assert!(!state.finished());
    let done = state.after(true);
    assert_eq!(done, LaunchState::LaunchedSupervised);
    assert!(done.launched() && done.finished());
    assert_eq!(done.attempt(&cmd), None);
    assert_eq!(done.after(false), done);
}

#[test]
fn launch_falls_back_to_the_direct_start() {
    let cmd = command("gimp", &["a.png"]);
    let state = LaunchState::start().after(false);
    assert_eq!(state, LaunchState::Direct);
    assert!(!state.finished() && !state.launched());
    assert_eq!(state.attempt(&cmd), Some(cmd.clone()));
    assert_eq!(state.after(true), LaunchState::LaunchedDirect);
    assert!(state.after(true).launched());
    let failed = state.after(false);
    assert_eq!(failed, LaunchState::Failed);
    assert!(failed.finished() && !failed.launched());
    assert_eq!(failed.attempt(&cmd), None);
}

#[test]
fn activate_record_resolves_the_launch_command() {
    let r = ShortcutRecord::new("Firefox", "firefox %u --private", "firefox", "Browser");
    let a = activate_record(&r).unwrap();
    assert_eq!(a.name, "Firefox");
    assert_eq!(a.command, command("firefox", &["--private"]));
    assert!(activate_record(&ShortcutRecord::new("Odd", "%f %u", "i", "d")).is_none());
}

#[test]
fn launcher_ranks_activates_and_records() {
    let catalog = Catalog::from_records(&vec![
        ShortcutRecord::new("GIMP", "gimp-2.10 %U", "gimp", "Image editor"),
        ShortcutRecord::new("GIMP Single-Window", "gimp --single %U", "gimp", "Image editor"),
        ShortcutRecord::new("Files", "nautilus --new-window", "files", "File manager"),
        ShortcutRecord::new("Nothing", "%f", "none", "Nothing to run"),
    ]);
    let mut launcher = Launcher::new(catalog, HistoryList::parse("Files\n"));
    assert_eq!(launcher.catalog().len(), 4);
    assert_eq!(launcher.history().len(), 1);
    let shown: Vec<String> = launcher.rank("").iter().map(|r| r.name.clone()).collect();
    assert_eq!(shown, vec!["Files", "GIMP", "GIMP Single-Window", "Nothing"]);
    let a = launcher.activate("gimp").unwrap();
    assert_eq!(a.name, "GIMP");
    assert_eq!(a.command, command("gimp-2.10", &[]));
    assert!(launcher.activate("nothing").is_none());
    assert!(launcher.activate("no such application").is_none());
    let text = launcher.notify_launched(&a.name);
    assert_eq!(text, "GIMP\nFiles\n");
    let shown: Vec<String> = launcher.rank("").iter().map(|r| r.name.clone()).collect();
    assert_eq!(shown, vec!["GIMP", "Files", "GIMP Single-Window", "Nothing"]);
}

#[test]
fn activation_toggles_the_window() {
    let v = Visibility::initial();
    assert!(!v.is_visible());
    let (shown, action) = v.activate();
    assert_eq!(action, WindowAction::Show);
    assert!(shown.is_visible());
    let (hidden, action) = shown.activate();
    assert_eq!(action, WindowAction::Hide);
    assert_eq!(hidden, Visibility::Hidden);
    assert_eq!(shown.dismiss(), Visibility::Hidden);
    assert_eq!(hidden.dismiss(), Visibility::Hidden);
}
