//! From the launch command of a shortcut file to a program and its arguments.

use crate::text::{
    append_strings, chars_of, is_word, join_with_spaces, join_words, lemma_tokens_are_words, lemma_tokens_of_join,
    split_words, text_of, texts, tokens,
};
use vstd::prelude::*;

verus! {

/// A program and the arguments to start it with.
#[derive(Debug, PartialEq, Eq)]
pub struct LaunchCommand {
    pub program: String,
    pub args: Vec<String>,
}

/// What a launch command is in contracts.
pub struct CommandView {
    pub program: Seq<char>,
    pub args: Seq<Seq<char>>,
}

impl View for LaunchCommand {
    type V = CommandView;

    open spec fn view(&self) -> CommandView {
        CommandView { program: self.program@, args: texts(self.args@) }
    }
}

impl Clone for LaunchCommand {
    fn clone(&self) -> (r: Self)
        ensures
            r@ == self@,
    {
        let mut args: Vec<String> = Vec::new();
        append_strings(&mut args, &self.args);
        assert(texts(args@) =~= texts(self.args@));
        LaunchCommand { program: self.program.clone(), args }
    }
}

/// The view of an optional launch command.
pub open spec fn command_view(c: Option<LaunchCommand>) -> Option<CommandView> {
    match c {
        Some(cmd) => Some(cmd@),
        None => None,
    }
}

/// Whether a word of a launch command is a placeholder: it begins with `%`.
pub open spec fn is_placeholder(word: Seq<char>) -> bool {
    word.len() > 0 && word[0] == '%'
}

/// The words of `template` that are no placeholders.
pub open spec fn kept_words(template: Seq<char>) -> Seq<Seq<char>> {
    tokens(template).filter(|w: Seq<char>| !is_placeholder(w))
}

/// `template` without its placeholders: the other words, one space between
/// neighbours.
pub open spec fn stripped(template: Seq<char>) -> Seq<char> {
    join_words(kept_words(template))
}

/// Whether expansion may change `text`: it holds a `$`, or begins with `~`.
pub open spec fn may_expand(text: Seq<char>) -> bool {
    text.contains('$') || (text.len() > 0 && text[0] == '~')
}

/// The command that `text` spells: its first word is the program, the
/// other words are the arguments. A text without words spells none.
pub open spec fn command_of(text: Seq<char>) -> Option<CommandView> {
    let words = tokens(text);
    if words.len() == 0 {
        None
    } else {
        Some(CommandView { program: words[0], args: words.skip(1) })
    }
}

/// The command of a stripped template `clean`, given what expansion made of
/// it: the command that the expanded text spells, or, where expansion
/// failed, the one that `clean` spells.
pub open spec fn command_after_expansion(
    clean: Seq<char>,
    expansion: Option<Seq<char>>,
) -> Option<CommandView> {
    match expansion {
        Some(expanded) => command_of(expanded),
        None => command_of(clean),
    }
}

/// The words that are kept are words, and splitting the stripped template
/// gives them back.
pub proof fn lemma_stripped_words(template: Seq<char>)
    ensures
        forall|k: int| 0 <= k < kept_words(template).len() ==> is_word(#[trigger] kept_words(template)[k]),
        tokens(stripped(template)) == kept_words(template),
{
    let all = tokens(template);
    let kept = kept_words(template);
    lemma_tokens_are_words(template);
    assert forall|k: int| 0 <= k < kept.len() implies is_word(#[trigger] kept[k]) by {
        all.lemma_filter_contains_rev(|w: Seq<char>| !is_placeholder(w), kept[k]);
        let j = choose|j: int| 0 <= j < all.len() && all[j] == kept[k];
        assert(is_word(all[j]));
    }
    lemma_tokens_of_join(kept);
}

/// Where the stripped template holds no `$` and does not begin with `~`,
/// the template resolves to its words that are no placeholders: the first
/// is the program, the others are the arguments.
pub proof fn lemma_plain_command(template: Seq<char>)
    requires
        !may_expand(stripped(template)),
    ensures
        command_after_expansion(stripped(template), Some(stripped(template))) == if kept_words(
            template,
        ).len() == 0 {
            None
        } else {
            Some(
                CommandView {
                    program: kept_words(template)[0],
                    args: kept_words(template).skip(1),
                },
            )
        },
{
    lemma_stripped_words(template);
}

/// `template` without its placeholders.
pub fn strip_placeholders(template: &str) -> (clean: String)
    ensures
        clean@ == stripped(template@),
{
    let chars = chars_of(template);
    let words = split_words(&chars);
    let ghost all = texts(words@);
    let mut kept: Vec<String> = Vec::new();
    let mut i: usize = 0;
    assert(all.take(0) =~= Seq::<Seq<char>>::empty());
    assert(Seq::<Seq<char>>::empty().filter(|w: Seq<char>| !is_placeholder(w)) =~= Seq::<
        Seq<char>,
    >::empty()) by {
        reveal(Seq::filter);
    }
    assert(texts(kept@) =~= all.take(0).filter(|w: Seq<char>| !is_placeholder(w)));
    while i < words.len()
        invariant
            i <= words.len(),
            all == texts(words@),
            texts(kept@) == all.take(i as int).filter(|w: Seq<char>| !is_placeholder(w)),
        decreases words.len() - i,
    {
        let word = &words[i];
        proof {
            assert(all.take(i + 1) =~= all.take(i as int).push(word@));
            all.take(i as int).lemma_filter_push(word@, |w: Seq<char>| !is_placeholder(w));
        }
        let first = chars_of(word.as_str());
        if !(first.len() > 0 && first[0] == '%') {
            let ghost before = texts(kept@);
            kept.push(word.clone());
            assert(texts(kept@) =~= before.push(word@));
        }
        i = i + 1;
    }
    assert(all.take(words.len() as int) =~= all);
    join_with_spaces(&kept)
}

/// The command that `text` spells.
pub fn parse_command(text: &str) -> (r: Option<LaunchCommand>)
    ensures
        command_view(r) == command_of(text@),
{
    let chars = chars_of(text);
    let mut words = split_words(&chars);
    if words.len() == 0 {
        return None;
    }
    let ghost all = texts(words@);
    let program = words.remove(0);
    assert(texts(words@) =~= all.skip(1));
    Some(LaunchCommand { program, args: words })
}

/// `shellexpand::full`: expands `$NAME`, `${NAME}` and a leading `~` from
/// the environment of the process. What comes back depends on that
/// environment; a text without `$` that does not begin with `~` comes back
/// as it is. `None` stands for the error of a variable that could not be
/// looked up.
#[verifier::external_body]
fn expand_full(text: &str) -> (r: Option<String>)
    ensures
        !may_expand(text@) ==> r is Some && r->0@ == text@,
{
    match shellexpand::full(text) {
        Ok(expanded) => Some(expanded.into_owned()),
        Err(_) => None,
    }
}

/// The command of the stripped template `clean`, given what expansion made
/// of it.
pub fn resolve_expanded(clean: &str, expansion: Option<String>) -> (r: Option<LaunchCommand>)
    ensures
        command_view(r) == command_after_expansion(clean@, text_of(expansion)),
{
    match expansion {
        Some(expanded) => parse_command(expanded.as_str()),
        None => parse_command(clean),
    }
}

/// The command to launch for `template`, or `None` where there is nothing
/// to launch. Placeholders are dropped, then variables and a leading `~`
/// are expanded from the environment, then the text is split into the
/// program and its arguments.
pub fn resolve(template: &str) -> (r: Option<LaunchCommand>)
    ensures
        kept_words(template@).len() == 0 ==> r is None,
        !may_expand(stripped(template@)) ==> command_view(r) == command_of(stripped(template@)),
        exists|expansion: Option<Seq<char>>| #[trigger]
            command_after_expansion(stripped(template@), expansion) == command_view(r),
{
    let clean = strip_placeholders(template);
    proof {
        lemma_stripped_words(template@);
    }
    if clean.as_str().is_empty() {
        proof {
            assert(command_of(clean@) is None);
            assert(command_after_expansion(stripped(template@), None) is None);
            if kept_words(template@).len() > 0 {
                assert(is_word(kept_words(template@)[0]));
                lemma_join_not_empty(kept_words(template@));
            }
        }
        return None;
    }
    let expansion = expand_full(clean.as_str());
    let ghost e = text_of(expansion);
    let r = resolve_expanded(clean.as_str(), expansion);
    proof {
        assert(command_after_expansion(stripped(template@), e) == command_view(r));
        if kept_words(template@).len() == 0 {
            assert(clean@.len() == 0);
        }
    }
    r
}

/// Words joined are not empty, unless there is no word.
pub proof fn lemma_join_not_empty(words: Seq<Seq<char>>)
    requires
        words.len() > 0,
        is_word(words[0]),
    ensures
        join_words(words).len() > 0,
{
}

} // verus!
