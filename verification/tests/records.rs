use mylauncher::discover::{
    discover, find_keyless_line, has_shortcut_extension, parse_shortcut, read_records, SourceFile,
};
use mylauncher::record::{accept, RawEntry, ShortcutRecord, Skip};

fn raw(name: Option<&str>, exec: Option<&str>) -> RawEntry {
    RawEntry {
        name: name.map(|s| s.to_string()),
        exec_template: exec.map(|s| s.to_string()),
        icon: None,
        comment: None,
        no_display: false,
        terminal: false,
    }
}

fn file(path: &str, content: &str) -> SourceFile {
    SourceFile { path: path.to_string(), content: content.to_string() }
}

const FIREFOX: &str = "[Desktop Entry]\nType=Application\nName=Firefox\nName[de]=Feuerfuchs\nComment=Browse the Web\nExec=firefox %u\nIcon=firefox\nTerminal=false\n";

#[test]
fn accept_fills_the_defaults() {
    let record = accept(raw(Some("Files"), Some("nautilus"))).unwrap();
    assert_eq!(record.name, "Files");
    assert_eq!(record.exec_template, "nautilus");
    assert_eq!(record.icon_ref, "application-x-executable");
    assert_eq!(record.description, "Application");
    assert!(!record.hidden);
    assert!(!record.terminal);
}

#[test]
fn accept_keeps_what_the_file_gives() {
    let record = accept(RawEntry {
        name: Some("Top".to_string()),
        exec_template: Some("top".to_string()),
        icon: Some("/usr/share/icons/top.png".to_string()),
        comment: Some("Processes".to_string()),
        no_display: true,
        terminal: true,
    })
    .unwrap();
    assert_eq!(record.icon_ref, "/usr/share/icons/top.png");
    assert_eq!(record.description, "Processes");
    assert!(record.hidden);
    assert!(record.terminal);
    assert!(!record.is_listed());
}

#[test]
fn accept_wants_a_name() {
    assert_eq!(accept(raw(None, Some("x"))), Err(Skip::NoName));
    assert_eq!(accept(raw(Some(""), Some("x"))), Err(Skip::NoName));
    assert_eq!(accept(raw(None, None)), Err(Skip::NoName));
}

#[test]
fn accept_wants_a_launch_command() {
    assert_eq!(accept(raw(Some("x"), None)), Err(Skip::NoExec));
    assert_eq!(accept(raw(Some("x"), Some(""))), Err(Skip::NoExec));
}

#[test]
fn display_label_joins_name_and_description() {
    let r = ShortcutRecord::new("Firefox", "firefox", "firefox", "Browser");
    assert_eq!(r.display_label(), "Firefox - Browser");
    assert!(r.is_listed());
    assert_eq!(r.clone(), r);
}

#[test]
fn shortcut_extension_is_desktop() {
    assert!(has_shortcut_extension("/usr/share/applications/firefox.desktop"));
    assert!(has_shortcut_extension("a.b.desktop"));
    assert!(!has_shortcut_extension("/usr/share/applications/firefox.txt"));
    assert!(!has_shortcut_extension("/usr/share/applications/desktop"));
    assert!(!has_shortcut_extension(".desktop"));
    assert!(!has_shortcut_extension("firefox.Desktop"));
    assert!(!has_shortcut_extension(""));
}

#[test]
fn parse_reads_the_keys_of_the_entry() {
    let record = parse_shortcut("/usr/share/applications/firefox.desktop", FIREFOX).unwrap();
    assert_eq!(record.name, "Firefox");
    assert_eq!(record.exec_template, "firefox %u");
    assert_eq!(record.icon_ref, "firefox");
    assert_eq!(record.description, "Browse the Web");
    assert!(!record.hidden);
    assert!(!record.terminal);
}

#[test]
fn parse_marks_hidden_and_terminal_entries() {
    let hidden = parse_shortcut("h.desktop", "[Desktop Entry]\nName=H\nExec=h\nNoDisplay=true\n").unwrap();
    assert!(hidden.hidden && !hidden.terminal);
    let term = parse_shortcut("t.desktop", "[Desktop Entry]\nName=T\nExec=t\nTerminal=true\n").unwrap();
    assert!(term.terminal && !term.hidden);
    let neither = parse_shortcut("n.desktop", "[Desktop Entry]\nName=N\nExec=n\nTerminal=yes\n").unwrap();
    assert!(neither.is_listed());
}

#[test]
fn parse_takes_the_name_without_a_locale() {
    let record = parse_shortcut(
        "x.desktop",
        "[Desktop Entry]\nName[fr]=Feu\nName=Fire\nComment[fr]=Chaud\nExec=fire\n",
    )
    .unwrap();
    assert_eq!(record.name, "Fire");
    assert_eq!(record.description, "");
    let plain = parse_shortcut("x.desktop", "[Desktop Entry]\nName=Fire\nExec=fire\n").unwrap();
    assert_eq!(plain.description, "Application");
}

#[test]
fn parse_takes_the_name_as_the_file_has_it() {
    let record = parse_shortcut(
        "x.desktop",
        "[Desktop Entry]\nName=Calculator\nComment=Sums\nExec=calc\nX-Ubuntu-Gettext-Domain=no-such-domain\n",
    )
    .unwrap();
    assert_eq!(record.name, "Calculator");
    assert_eq!(record.description, "Sums");
}

#[test]
fn parse_reads_only_the_desktop_entry_group() {
    let content = "[Desktop Action new]\nName=New Window\nExec=app --new\n[Desktop Entry]\nName=App\nExec=app\n";
    let record = parse_shortcut("app.desktop", content).unwrap();
    assert_eq!(record.name, "App");
    assert_eq!(record.exec_template, "app");
    assert_eq!(parse_shortcut("a.desktop", "Name=App\nExec=app\n"), Err(Skip::NoName));
}

#[test]
fn parse_gives_each_reason() {
    assert_eq!(parse_shortcut("firefox.txt", FIREFOX), Err(Skip::NotAShortcutFile));
    assert_eq!(parse_shortcut("a.desktop", "[Desktop Entry]\n=oops\n"), Err(Skip::Malformed));
    assert_eq!(parse_shortcut("a.desktop", "[Desktop Entry]\nExec=a\n"), Err(Skip::NoName));
    assert_eq!(parse_shortcut("a.desktop", "[Desktop Entry]\nName[de]=A\nExec=a\n"), Err(Skip::NoName));
    assert_eq!(parse_shortcut("a.desktop", "[Desktop Entry]\nName=A\n"), Err(Skip::NoExec));
    assert_eq!(parse_shortcut("a.desktop", "[Desktop Entry]\nName=A\nExec=\n"), Err(Skip::NoExec));
    assert_eq!(parse_shortcut("a.desktop", ""), Err(Skip::NoName));
}

#[test]
fn keyless_lines_are_found() {
    let samples = [
        "",
        "=",
        "a=b",
        "=b",
        "  =b",
        "\t\u{a0}=b",
        "a=b\n=c",
        "a=b\r\n =c\r\n",
        "a=b\n\n\n  x=1\n",
        "[Desktop Entry]\nName=A\n # = \n",
        "#=\n",
        "x\n\u{3000}=y",
        "\r=x",
        "a ==b",
        "\u{feff}=x",
    ];
    for s in samples {
        let expected = s.lines().any(|l| l.trim().starts_with('='));
        let chars: Vec<char> = s.chars().collect();
        assert_eq!(find_keyless_line(&chars), expected, "input {:?}", s);
    }
}

#[test]
fn read_records_passes_over_what_gives_none() {
    let files = vec![
        file("/a/firefox.desktop", FIREFOX),
        file("/a/readme.txt", "Name=Readme"),
        file("/a/broken.desktop", "=\n"),
        file("/a/empty.desktop", ""),
        file("/a/files.desktop", "[Desktop Entry]\nName=Files\nExec=nautilus\n"),
    ];
    let records = read_records(&files);
    let names: Vec<&str> = records.iter().map(|r| r.name.as_str()).collect();
    assert_eq!(names, vec!["Firefox", "Files"]);
}

#[test]
fn discover_sorts_and_keeps_each_name_once() {
    let files = vec![
        file("/usr/share/applications/gimp.desktop", "[Desktop Entry]\nName=GIMP\nExec=gimp\n"),
        file("/usr/share/applications/firefox.desktop", FIREFOX),
        file("/usr/share/applications/top.desktop", "[Desktop Entry]\nName=Top\nExec=top\nTerminal=true\n"),
        file("/usr/share/applications/helper.desktop", "[Desktop Entry]\nName=Helper\nExec=helper\nNoDisplay=true\n"),
        file("/home/u/.local/share/applications/firefox.desktop", "[Desktop Entry]\nName=Firefox\nExec=my-firefox\n"),
        file("/home/u/.local/share/applications/files.desktop", "[Desktop Entry]\nName=Files\nExec=nautilus\n"),
    ];
    let catalog = discover(&files);
    let names: Vec<&str> = catalog.records().iter().map(|r| r.name.as_str()).collect();
    assert_eq!(names, vec!["Files", "Firefox", "GIMP"]);
    assert_eq!(catalog.len(), 3);
    assert_eq!(catalog.find("Firefox").unwrap().exec_template, "firefox %u");
    assert!(catalog.find("Top").is_none());
    assert!(catalog.find("Helper").is_none());
}

#[test]
fn discover_does_not_depend_on_the_order_of_the_files() {
    let a = file("/a/a.desktop", "[Desktop Entry]\nName=Alpha\nExec=a\n");
    let b = file("/a/b.desktop", "[Desktop Entry]\nName=beta\nExec=b\n");
    let c = file("/a/c.desktop", "[Desktop Entry]\nName=Gamma\nExec=c\n");
    let one = discover(&vec![file(&a.path, &a.content), file(&b.path, &b.content), file(&c.path, &c.content)]);
    let two = discover(&vec![c, a, b]);
    assert_eq!(one.records(), two.records());
    let names: Vec<&str> = one.records().iter().map(|r| r.name.as_str()).collect();
    assert_eq!(names, vec!["Alpha", "Gamma", "beta"]);
}
