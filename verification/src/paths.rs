//! Where shortcut files are looked for and where the history is kept.

use crate::text::{chars_of, text_of, texts};
use vstd::prelude::*;

verus! {

/// `base` with the relative path `part` behind it: a `/` stands between
/// them unless `base` is empty or ends in one.
pub open spec fn joined(base: Seq<char>, part: Seq<char>) -> Seq<char> {
    if base.len() == 0 || base.last() == '/' {
        base + part
    } else {
        base + seq!['/'] + part
    }
}

/// The directories that are searched for shortcut files, in the order of
/// the search: system-wide, system-local, the exports of sandboxed
/// applications, and the user's own under `home`.
pub open spec fn search_directories_of(home: Seq<char>) -> Seq<Seq<char>> {
    seq![
        "/usr/share/applications"@,
        "/usr/local/share/applications"@,
        "/var/lib/flatpak/exports/share/applications"@,
        joined(home, ".local/share/applications"@),
    ]
}

/// The directory of the user's configuration: `config_dir` where the
/// system names one, else `.config` under `home`.
pub open spec fn config_base(config_dir: Option<Seq<char>>, home: Seq<char>) -> Seq<char> {
    match config_dir {
        Some(dir) => dir,
        None => home + "/.config"@,
    }
}

/// The directory in which the launcher keeps its files.
pub open spec fn history_directory_of(config_dir: Option<Seq<char>>, home: Seq<char>) -> Seq<char> {
    joined(config_base(config_dir, home), "mylauncher"@)
}

/// The file in which the history is kept.
pub open spec fn history_file_of(config_dir: Option<Seq<char>>, home: Seq<char>) -> Seq<char> {
    joined(history_directory_of(config_dir, home), "history"@)
}

/// `base` with the relative path `part` behind it.
pub fn join_path(base: &str, part: &str) -> (r: String)
    ensures
        r@ == joined(base@, part@),
{
    let chars = chars_of(base);
    let mut r = base.to_owned();
    if chars.len() > 0 && chars[chars.len() - 1] != '/' {
        r.push('/');
    }
    r.append(part);
    r
}

/// The directories that are searched for shortcut files, in the order of
/// the search.
pub fn search_directories(home: &str) -> (dirs: Vec<String>)
    ensures
        texts(dirs@) == search_directories_of(home@),
{
    let mut dirs: Vec<String> = Vec::new();
    dirs.push("/usr/share/applications".to_owned());
    dirs.push("/usr/local/share/applications".to_owned());
    dirs.push("/var/lib/flatpak/exports/share/applications".to_owned());
    dirs.push(join_path(home, ".local/share/applications"));
    assert(texts(dirs@) =~= search_directories_of(home@));
    dirs
}

/// The directory in which the launcher keeps its files, given the
/// configuration directory that the system names, if it names one.
pub fn history_directory_in(config_dir: Option<String>, home: &str) -> (r: String)
    ensures
        r@ == history_directory_of(text_of(config_dir), home@),
{
    let base = match config_dir {
        Some(dir) => dir,
        None => {
            let mut b = home.to_owned();
            b.append("/.config");
            b
        },
    };
    join_path(base.as_str(), "mylauncher")
}

/// The file in which the history is kept, given the configuration
/// directory that the system names, if it names one.
pub fn history_file_in(config_dir: Option<String>, home: &str) -> (r: String)
    ensures
        r@ == history_file_of(text_of(config_dir), home@),
{
    let dir = history_directory_in(config_dir, home);
    join_path(dir.as_str(), "history")
}

/// `dirs::config_dir`: the configuration directory of the user, as the
/// environment of the process names it. Nothing is known of it beforehand.
#[verifier::external_body]
fn user_config_dir() -> (r: Option<String>) {
    dirs::config_dir().map(|p| p.to_string_lossy().into_owned())
}

/// The directory in which the launcher keeps its files; `home` is used
/// where the system names no configuration directory.
pub fn history_directory(home: &str) -> (r: String)
    ensures
        exists|config_dir: Option<Seq<char>>| r@ == #[trigger] history_directory_of(config_dir, home@),
{
    let config_dir = user_config_dir();
    let ghost d = text_of(config_dir);
    let r = history_directory_in(config_dir, home);
    assert(r@ == history_directory_of(d, home@));
    r
}

/// The file in which the history is kept; `home` is used where the system
/// names no configuration directory.
pub fn history_file(home: &str) -> (r: String)
    ensures
        exists|config_dir: Option<Seq<char>>| r@ == #[trigger] history_file_of(config_dir, home@),
{
    let config_dir = user_config_dir();
    let ghost d = text_of(config_dir);
    let r = history_file_in(config_dir, home);
    assert(r@ == history_file_of(d, home@));
    r
}

} // verus!
