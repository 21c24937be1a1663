//! The launcher as the presentation sees it: a catalog, a history, and the
//! calls that a window makes.

use crate::catalog::Catalog;
use crate::history::{file_text, is_history, recorded, HistoryList};
use crate::rank::{activation_target, activation_target_of, rank, ranked};
use crate::record::{views, RecordView, ShortcutRecord};
use crate::resolve::{
    command_after_expansion, command_view, kept_words, may_expand, resolve, stripped,
    CommandView, LaunchCommand,
};
use vstd::prelude::*;

verus! {

/// What a confirmed query leads to: the application and the command that
/// starts it.
#[derive(Debug, PartialEq, Eq)]
pub struct Activation {
    /// The name of the application, to be recorded once it runs.
    pub name: String,
    /// The command to start.
    pub command: LaunchCommand,
}

/// What an activation is in contracts.
pub struct ActivationView {
    pub name: Seq<char>,
    pub command: CommandView,
}

impl View for Activation {
    type V = ActivationView;

    open spec fn view(&self) -> ActivationView {
        ActivationView { name: self.name@, command: self.command@ }
    }
}

/// The view of an optional activation.
pub open spec fn activation_view(a: Option<Activation>) -> Option<ActivationView> {
    match a {
        Some(act) => Some(act@),
        None => None,
    }
}

/// What the launch of `record` leads to, given what expansion made of its
/// stripped launch command: its name and the command, or nothing where no
/// command is left.
pub open spec fn activation_with(record: RecordView, expansion: Option<Seq<char>>) -> Option<
    ActivationView,
> {
    match command_after_expansion(stripped(record.exec_template), expansion) {
        Some(command) => Some(ActivationView { name: record.name, command }),
        None => None,
    }
}

/// Whether `r` is what the launch of `record` leads to: nothing where the
/// launch command has no word but placeholders; what its stripped launch
/// command spells where expansion leaves that alone; and in every case what
/// some outcome of the expansion spells.
pub open spec fn activates(record: RecordView, r: Option<ActivationView>) -> bool {
    &&& kept_words(record.exec_template).len() == 0 ==> r is None
    &&& !may_expand(stripped(record.exec_template)) ==> r == activation_with(
        record,
        Some(stripped(record.exec_template)),
    )
    &&& exists|expansion: Option<Seq<char>>| #[trigger] activation_with(record, expansion) == r
}

/// The catalog and the history of one run of the launcher.
pub struct Launcher {
    catalog: Catalog,
    history: HistoryList,
}

impl Launcher {
    /// The catalog, in contracts.
    pub closed spec fn catalog_view(&self) -> Seq<RecordView> {
        self.catalog@
    }

    /// The history, in contracts.
    pub closed spec fn history_view(&self) -> Seq<Seq<char>> {
        self.history@
    }

    /// A launcher over `catalog` that remembers `history`.
    pub fn new(catalog: Catalog, history: HistoryList) -> (l: Self)
        ensures
            l.catalog_view() == catalog@,
            l.history_view() == history@,
    {
        Launcher { catalog, history }
    }

    /// The catalog.
    pub fn catalog(&self) -> (c: &Catalog)
        ensures
            c@ == self.catalog_view(),
    {
        &self.catalog
    }

    /// The history.
    pub fn history(&self) -> (h: &HistoryList)
        ensures
            h@ == self.history_view(),
    {
        &self.history
    }

    /// What to show for `query`.
    pub fn rank(&self, query: &str) -> (out: Vec<ShortcutRecord>)
        ensures
            views(out@) == ranked(self.catalog_view(), self.history_view(), query@),
    {
        rank(&self.catalog, &self.history, query)
    }

    /// What to launch when `query` is confirmed: the target of the query
    /// and the command that its launch command resolves to. `None` where
    /// the query has no target or the target has nothing to launch.
    pub fn activate(&self, query: &str) -> (r: Option<Activation>)
        ensures
            match activation_target(self.catalog_view(), query@) {
                Some(target) => activates(target, activation_view(r)),
                None => r is None,
            },
    {
        match activation_target_of(&self.catalog, query) {
            Some(record) => activate_record(record),
            None => None,
        }
    }

    /// Tells the launcher that the application `name` runs: its launch is
    /// recorded. The result is the text to write to the history file.
    pub fn notify_launched(&mut self, name: &str) -> (text: String)
        ensures
            final(self).history_view() == recorded(old(self).history_view(), name@),
            final(self).catalog_view() == old(self).catalog_view(),
            is_history(final(self).history_view()),
            text@ == file_text(final(self).history_view()),
    {
        self.history.record(name);
        self.history.to_file_text()
    }
}

/// What to launch for `record`: its name and the command that its launch
/// command resolves to, or `None` where there is nothing to launch.
pub fn activate_record(record: &ShortcutRecord) -> (r: Option<Activation>)
    ensures
        activates(record@, activation_view(r)),
{
    let resolved = resolve(record.exec_template.as_str());
    let ghost e = choose|expansion: Option<Seq<char>>| #[trigger]
        command_after_expansion(stripped(record@.exec_template), expansion) == command_view(
            resolved,
        );
    let r = match resolved {
        Some(command) => Some(Activation { name: record.name.clone(), command }),
        None => None,
    };
    assert(activation_with(record@, e) == activation_view(r));
    proof {
        if !may_expand(stripped(record@.exec_template)) {
            assert(activation_with(record@, Some(stripped(record@.exec_template)))
                == activation_view(r));
        }
    }
    r
}

} // verus!
