//! The record of one application, and the fields decoded from its shortcut file.

use crate::text::text_of;
use vstd::prelude::*;

verus! {

/// The description of a record whose shortcut file gives none.
pub open spec fn default_description() -> Seq<char> {
    "Application"@
}

/// The icon of a record whose shortcut file names none.
pub open spec fn default_icon() -> Seq<char> {
    "application-x-executable"@
}

/// One application that a shortcut file describes.
#[derive(Debug, PartialEq, Eq)]
pub struct ShortcutRecord {
    /// The display name; records are sorted, found and remembered by it.
    pub name: String,
    /// The raw launch command, with its placeholders and references.
    pub exec_template: String,
    /// An icon name or the path of an icon file.
    pub icon_ref: String,
    /// The subtitle shown under the name.
    pub description: String,
    /// Whether the file asks not to be displayed.
    pub hidden: bool,
    /// Whether the application runs in a terminal.
    pub terminal: bool,
}

/// What a record is in contracts.
pub struct RecordView {
    pub name: Seq<char>,
    pub exec_template: Seq<char>,
    pub icon_ref: Seq<char>,
    pub description: Seq<char>,
    pub hidden: bool,
    pub terminal: bool,
}

impl View for ShortcutRecord {
    type V = RecordView;

    open spec fn view(&self) -> RecordView {
        RecordView {
            name: self.name@,
            exec_template: self.exec_template@,
            icon_ref: self.icon_ref@,
            description: self.description@,
            hidden: self.hidden,
            terminal: self.terminal,
        }
    }
}

/// Whether a record may stand in a catalog: neither hidden nor a terminal
/// application.
pub open spec fn is_listed(r: RecordView) -> bool {
    !r.hidden && !r.terminal
}

/// The views of the records of `v`, in order.
pub open spec fn views(v: Seq<ShortcutRecord>) -> Seq<RecordView> {
    Seq::new(v.len(), |i: int| v[i]@)
}

/// The names of the records of `s`, in order.
pub open spec fn names_of(s: Seq<RecordView>) -> Seq<Seq<char>> {
    Seq::new(s.len(), |i: int| s[i].name)
}

/// The text under which a record is displayed: name, `" - "`, description.
pub open spec fn label_of(r: RecordView) -> Seq<char> {
    r.name + " - "@ + r.description
}

impl Clone for ShortcutRecord {
    fn clone(&self) -> (r: Self)
        ensures
            r@ == self@,
    {
        ShortcutRecord {
            name: self.name.clone(),
            exec_template: self.exec_template.clone(),
            icon_ref: self.icon_ref.clone(),
            description: self.description.clone(),
            hidden: self.hidden,
            terminal: self.terminal,
        }
    }
}

impl ShortcutRecord {
    /// A displayed application with the given fields.
    pub fn new(name: &str, exec_template: &str, icon_ref: &str, description: &str) -> (r: Self)
        ensures
            r@ == (RecordView {
                name: name@,
                exec_template: exec_template@,
                icon_ref: icon_ref@,
                description: description@,
                hidden: false,
                terminal: false,
            }),
    {
        ShortcutRecord {
            name: name.to_owned(),
            exec_template: exec_template.to_owned(),
            icon_ref: icon_ref.to_owned(),
            description: description.to_owned(),
            hidden: false,
            terminal: false,
        }
    }

    /// Whether the record may stand in a catalog.
    pub fn is_listed(&self) -> (b: bool)
        ensures
            b == is_listed(self@),
    {
        !self.hidden && !self.terminal
    }

    /// The text under which the record is displayed.
    pub fn display_label(&self) -> (s: String)
        ensures
            s@ == label_of(self@),
    {
        let mut s = self.name.clone();
        s.append(" - ");
        s.append(self.description.as_str());
        s
    }
}

/// What a shortcut file says of the keys that the launcher reads.
#[derive(Debug, PartialEq, Eq)]
pub struct RawEntry {
    /// The value of `Name`.
    pub name: Option<String>,
    /// The value of `Exec`.
    pub exec_template: Option<String>,
    /// The value of `Icon`.
    pub icon: Option<String>,
    /// The value of `Comment`.
    pub comment: Option<String>,
    /// Whether `NoDisplay` is `true`.
    pub no_display: bool,
    /// Whether `Terminal` is `true`.
    pub terminal: bool,
}

/// What a raw entry is in contracts.
pub struct RawEntryView {
    pub name: Option<Seq<char>>,
    pub exec_template: Option<Seq<char>>,
    pub icon: Option<Seq<char>>,
    pub comment: Option<Seq<char>>,
    pub no_display: bool,
    pub terminal: bool,
}

impl View for RawEntry {
    type V = RawEntryView;

    open spec fn view(&self) -> RawEntryView {
        RawEntryView {
            name: text_of(self.name),
            exec_template: text_of(self.exec_template),
            icon: text_of(self.icon),
            comment: text_of(self.comment),
            no_display: self.no_display,
            terminal: self.terminal,
        }
    }
}

/// Why a shortcut file gives no record.
#[derive(Debug, Clone, Copy, PartialEq, Eq, Structural)]
pub enum Skip {
    /// The path does not end in the extension of shortcut files.
    NotAShortcutFile,
    /// The file cannot be decoded: a line has `=` with no key before it,
    /// or the path gives no application id.
    Malformed,
    /// The file gives no name, or an empty one.
    NoName,
    /// The file gives no launch command, or an empty one.
    NoExec,
}

/// The record that a raw entry gives, or the reason why it gives none.
pub open spec fn accepted(raw: RawEntryView) -> Result<RecordView, Skip> {
    if raw.name is None || raw.name->0.len() == 0 {
        Err(Skip::NoName)
    } else if raw.exec_template is None || raw.exec_template->0.len() == 0 {
        Err(Skip::NoExec)
    } else {
        Ok(
            RecordView {
                name: raw.name->0,
                exec_template: raw.exec_template->0,
                icon_ref: if raw.icon is Some {
                    raw.icon->0
                } else {
                    default_icon()
                },
                description: if raw.comment is Some {
                    raw.comment->0
                } else {
                    default_description()
                },
                hidden: raw.no_display,
                terminal: raw.terminal,
            },
        )
    }
}

/// The view of a record or of the reason why there is none.
pub open spec fn outcome_view(r: Result<ShortcutRecord, Skip>) -> Result<RecordView, Skip> {
    match r {
        Ok(rec) => Ok(rec@),
        Err(e) => Err(e),
    }
}

/// Makes the record of a decoded shortcut file. A record needs a name and a
/// launch command, both not empty; a missing icon or comment gets its
/// default.
pub fn accept(raw: RawEntry) -> (r: Result<ShortcutRecord, Skip>)
    ensures
        outcome_view(r) == accepted(raw@),
{
    let RawEntry { name, exec_template, icon, comment, no_display, terminal } = raw;
    let name = match name {
        Some(n) => n,
        None => { return Err(Skip::NoName); },
    };
    if name.as_str().unicode_len() == 0 {
        return Err(Skip::NoName);
    }
    let exec_template = match exec_template {
        Some(e) => e,
        None => { return Err(Skip::NoExec); },
    };
    if exec_template.as_str().unicode_len() == 0 {
        return Err(Skip::NoExec);
    }
    let icon_ref = match icon {
        Some(i) => i,
        None => "application-x-executable".to_owned(),
    };
    let description = match comment {
        Some(c) => c,
        None => "Application".to_owned(),
    };
    Ok(ShortcutRecord { name, exec_template, icon_ref, description, hidden: no_display, terminal })
}

} // verus!
