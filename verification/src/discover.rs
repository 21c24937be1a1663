//! From shortcut files to the catalog.

use crate::catalog::{is_catalog, is_catalog_of, Catalog};
use crate::record::{
    accept, accepted, outcome_view, views, RawEntry, RawEntryView, RecordView, ShortcutRecord, Skip,
};
use crate::text::{chars_of, is_space, is_space_char, text_of};
use freedesktop_desktop_entry::DesktopEntry;
use std::path::Path;
use vstd::prelude::*;

verus! {

/// A file found in a search directory: its path and its text.
#[derive(Debug, PartialEq, Eq)]
pub struct SourceFile {
    pub path: String,
    pub content: String,
}

/// What a source file is in contracts.
pub struct SourceFileView {
    pub path: Seq<char>,
    pub content: Seq<char>,
}

impl View for SourceFile {
    type V = SourceFileView;

    open spec fn view(&self) -> SourceFileView {
        SourceFileView { path: self.path@, content: self.content@ }
    }
}

/// The views of the files of `v`, in order.
pub open spec fn file_views(v: Seq<SourceFile>) -> Seq<SourceFileView> {
    Seq::new(v.len(), |i: int| v[i]@)
}

/// The extension of shortcut files.
pub open spec fn shortcut_extension() -> Seq<char> {
    "desktop"@
}

/// Whether a line of `content` starts at `k`, and only white space stands
/// from there up to the position `i`.
pub open spec fn blank_from(content: Seq<char>, k: int, i: int) -> bool {
    &&& 0 <= k <= i
    &&& k == 0 || content[k - 1] == '\n'
    &&& forall|j: int| k <= j < i ==> is_space(#[trigger] content[j])
}

/// Whether only white space stands between the start of a line of
/// `content` and the position `i`.
pub open spec fn blank_before(content: Seq<char>, i: int) -> bool {
    exists|k: int| #[trigger] blank_from(content, k, i)
}

/// Whether `content` has `=` at `i` with no key before it on its line.
pub open spec fn keyless_at(content: Seq<char>, i: int) -> bool {
    &&& 0 <= i < content.len()
    &&& content[i] == '='
    &&& blank_before(content, i)
}

/// Whether a line of `content` has `=` with no key before it.
pub open spec fn has_keyless_line(content: Seq<char>) -> bool {
    exists|i: int| keyless_at(content, i)
}

/// How `blank_before` moves on by one character.
proof fn lemma_blank_step(content: Seq<char>, i: int)
    requires
        0 <= i < content.len(),
    ensures
        blank_before(content, i + 1) == (content[i] == '\n' || (blank_before(content, i)
            && is_space(content[i]))),
{
    if content[i] == '\n' {
        assert(blank_from(content, i + 1, i + 1));
    } else if blank_before(content, i) && is_space(content[i]) {
        let k = choose|k: int| #[trigger] blank_from(content, k, i);
        assert(blank_from(content, k, i + 1));
    } else if blank_before(content, i + 1) {
        let k = choose|k: int| #[trigger] blank_from(content, k, i + 1);
        if k <= i {
            assert(is_space(content[i]));
            assert(blank_from(content, k, i));
        }
    }
}

/// Looks for a line with `=` and no key before it.
pub fn find_keyless_line(content: &Vec<char>) -> (b: bool)
    ensures
        b == has_keyless_line(content@),
{
    let mut blank = true;
    let mut i: usize = 0;
    assert(blank_from(content@, 0, 0));
    while i < content.len()
        invariant
            i <= content.len(),
            blank == blank_before(content@, i as int),
            forall|k: int| 0 <= k < i ==> !keyless_at(content@, k),
        decreases content.len() - i,
    {
        let c = content[i];
        if blank && c == '=' {
            assert(keyless_at(content@, i as int));
            return true;
        }
        proof {
            lemma_blank_step(content@, i as int);
        }
        blank = c == '\n' || (blank && is_space_char(c));
        i = i + 1;
    }
    false
}

/// What `Path::extension` gives for `path`: the part of its file name
/// behind the last dot, if the file name has one that is not its first
/// character.
pub uninterp spec fn path_extension(path: Seq<char>) -> Option<Seq<char>>;

/// `Path::extension`, a function of the path alone.
#[verifier::external_body]
fn extension_of(path: &str) -> (r: Option<String>)
    ensures
        text_of(r) == path_extension(path@),
{
    Path::new(path).extension().and_then(|e| e.to_str()).map(String::from)
}

/// What `DesktopEntry::decode` reads from a shortcut file with the given
/// path and text: of the group `Desktop Entry` the values of `Name`, `Exec`,
/// `Icon` and `Comment` as the file has them, without a locale, and whether
/// `NoDisplay` and `Terminal` are `true`. `None` where the path has no file
/// name to take an application id from.
pub uninterp spec fn decoded_entry(path: Seq<char>, content: Seq<char>) -> Option<RawEntryView>;

/// The view of an optional raw entry.
pub open spec fn raw_view(r: Option<RawEntry>) -> Option<RawEntryView> {
    match r {
        Some(raw) => Some(raw@),
        None => None,
    }
}

/// `DesktopEntry::decode` and the getters `desktop_entry`, `exec`, `icon`,
/// `no_display` and `terminal` on what it returns. The result is a function
/// of the path and the text alone. `decode` indexes before the first byte
/// of the key of a line that begins with `=`, so such a text is not handed
/// to it.
#[verifier::external_body]
fn decode_entry(path: &str, content: &str) -> (r: Option<RawEntry>)
    requires
        !has_keyless_line(content@),
    ensures
        raw_view(r) == decoded_entry(path@, content@),
{
    match DesktopEntry::decode(Path::new(path), content) {
        Ok(entry) => Some(RawEntry {
            name: entry.desktop_entry("Name").map(String::from),
            exec_template: entry.exec().map(String::from),
            icon: entry.icon().map(String::from),
            comment: entry.desktop_entry("Comment").map(String::from),
            no_display: entry.no_display(),
            terminal: entry.terminal(),
        }),
        Err(_) => None,
    }
}

/// Whether `path` has the extension of shortcut files.
pub open spec fn is_shortcut_path(path: Seq<char>) -> bool {
    path_extension(path) == Some(shortcut_extension())
}

/// The record that the file with the given path and text gives, or the
/// reason why it gives none.
pub open spec fn shortcut_of(path: Seq<char>, content: Seq<char>) -> Result<RecordView, Skip> {
    if !is_shortcut_path(path) {
        Err(Skip::NotAShortcutFile)
    } else if has_keyless_line(content) {
        Err(Skip::Malformed)
    } else {
        match decoded_entry(path, content) {
            Some(raw) => accepted(raw),
            None => Err(Skip::Malformed),
        }
    }
}

/// Whether `path` has the extension of shortcut files.
pub fn has_shortcut_extension(path: &str) -> (b: bool)
    ensures
        b == is_shortcut_path(path@),
{
    match extension_of(path) {
        Some(ext) => ext == "desktop".to_owned(),
        None => false,
    }
}

/// Reads the record of one shortcut file.
pub fn parse_shortcut(path: &str, content: &str) -> (r: Result<ShortcutRecord, Skip>)
    ensures
        outcome_view(r) == shortcut_of(path@, content@),
{
    if !has_shortcut_extension(path) {
        return Err(Skip::NotAShortcutFile);
    }
    let chars = chars_of(content);
    if find_keyless_line(&chars) {
        return Err(Skip::Malformed);
    }
    match decode_entry(path, content) {
        Some(raw) => accept(raw),
        None => Err(Skip::Malformed),
    }
}

/// The records that `files` give, in the order of `files`; a file that
/// gives none is passed over.
pub open spec fn found_records(files: Seq<SourceFileView>) -> Seq<RecordView>
    decreases files.len(),
{
    if files.len() == 0 {
        Seq::empty()
    } else {
        let before = found_records(files.drop_last());
        match shortcut_of(files.last().path, files.last().content) {
            Ok(r) => before.push(r),
            Err(_) => before,
        }
    }
}

/// The records that `files` give, in the order of `files`.
pub fn read_records(files: &Vec<SourceFile>) -> (out: Vec<ShortcutRecord>)
    ensures
        views(out@) == found_records(file_views(files@)),
{
    let ghost all = file_views(files@);
    let mut out: Vec<ShortcutRecord> = Vec::new();
    let mut i: usize = 0;
    assert(all.take(0) =~= Seq::<SourceFileView>::empty());
    assert(views(out@) =~= found_records(all.take(0)));
    while i < files.len()
        invariant
            i <= files.len(),
            all == file_views(files@),
            views(out@) == found_records(all.take(i as int)),
        decreases files.len() - i,
    {
        let file = &files[i];
        proof {
            assert(all.take(i + 1).drop_last() =~= all.take(i as int));
            assert(all.take(i + 1).last() == file@);
        }
        match parse_shortcut(file.path.as_str(), file.content.as_str()) {
            Ok(record) => {
                let ghost before = views(out@);
                out.push(record);
                assert(views(out@) =~= before.push(record@));
            },
            Err(_) => {},
        }
        i = i + 1;
    }
    assert(all.take(files.len() as int) =~= all);
    out
}

/// The catalog of the applications that `files` describe. The files are
/// taken in their order, directory after directory; a file that gives no
/// record is passed over.
pub fn discover(files: &Vec<SourceFile>) -> (c: Catalog)
    ensures
        is_catalog_of(c@, found_records(file_views(files@))),
        is_catalog(c@),
{
    let records = read_records(files);
    Catalog::from_records(&records)
}

} // verus!
