//! The short list of the applications launched last.

use crate::text::{
    chars_of, lemma_line_len_of_prefix, line_len, lines, split_lines, strip_cr, texts,
};
use vstd::prelude::*;

verus! {

/// The largest number of names that a history holds.
pub const MAX_HISTORY: usize = 4;

/// Whether `h` can be a history: at most `MAX_HISTORY` names, none twice.
pub open spec fn is_history(h: Seq<Seq<char>>) -> bool {
    h.len() <= MAX_HISTORY && h.no_duplicates()
}

/// `h` without `name`.
pub open spec fn without(h: Seq<Seq<char>>, name: Seq<char>) -> Seq<Seq<char>> {
    h.filter(|n: Seq<char>| n != name)
}

/// The first `MAX_HISTORY` names of `h`.
pub open spec fn bounded(h: Seq<Seq<char>>) -> Seq<Seq<char>> {
    if h.len() > MAX_HISTORY {
        h.take(MAX_HISTORY as int)
    } else {
        h
    }
}

/// The history after a launch of `name`: `name` in front, then the other
/// names in their old order, cut to `MAX_HISTORY` names.
pub open spec fn recorded(h: Seq<Seq<char>>, name: Seq<char>) -> Seq<Seq<char>> {
    bounded(seq![name] + without(h, name))
}

/// The history after launches of `names`, one after the other.
pub open spec fn recorded_all(h: Seq<Seq<char>>, names: Seq<Seq<char>>) -> Seq<Seq<char>>
    decreases names.len(),
{
    if names.len() == 0 {
        h
    } else {
        recorded(recorded_all(h, names.drop_last()), names.last())
    }
}

/// The history that a list of lines stands for: the lines that are not
/// empty, recorded from the last to the first.
pub open spec fn restored(lines: Seq<Seq<char>>) -> Seq<Seq<char>>
    decreases lines.len(),
{
    if lines.len() == 0 {
        Seq::empty()
    } else if lines[0].len() == 0 {
        restored(lines.skip(1))
    } else {
        recorded(restored(lines.skip(1)), lines[0])
    }
}

/// The text of a history file: each name followed by a line feed.
pub open spec fn file_text(h: Seq<Seq<char>>) -> Seq<char>
    decreases h.len(),
{
    if h.len() == 0 {
        Seq::empty()
    } else {
        h[0] + seq!['\n'] + file_text(h.skip(1))
    }
}

/// What `without` keeps and what it drops.
pub proof fn lemma_without(h: Seq<Seq<char>>, name: Seq<char>)
    ensures
        without(h, name).len() <= h.len(),
        !without(h, name).contains(name),
        forall|n: Seq<char>| #[trigger] without(h, name).contains(n) <==> h.contains(n) && n != name,
        h.no_duplicates() ==> without(h, name).no_duplicates(),
        !h.contains(name) ==> without(h, name) == h,
    decreases h.len(),
{
    reveal(Seq::filter);
    let p = |n: Seq<char>| n != name;
    if h.len() == 0 {
    } else {
        let front = h.drop_last();
        let last = h.last();
        lemma_without(front, name);
        let sub = without(front, name);
        let all = without(h, name);
        assert(all == if p(last) {
            sub.push(last)
        } else {
            sub
        });
        assert forall|n: Seq<char>| #[trigger] all.contains(n) <==> h.contains(n) && n != name by {
            if all.contains(n) {
                let i = choose|i: int| 0 <= i < all.len() && all[i] == n;
                if i < sub.len() {
                    assert(sub.contains(n));
                    let j = choose|j: int| 0 <= j < front.len() && front[j] == n;
                    assert(h[j] == n);
                } else {
                    assert(n == last);
                    assert(h[h.len() - 1] == n);
                }
            }
            if h.contains(n) && n != name {
                let j = choose|j: int| 0 <= j < h.len() && h[j] == n;
                if j < front.len() {
                    assert(front[j] == n);
                    assert(front.contains(n));
                    assert(sub.contains(n));
                    let i = choose|i: int| 0 <= i < sub.len() && sub[i] == n;
                    assert(all[i] == n);
                } else {
                    assert(all[all.len() - 1] == n);
                }
            }
        }
        if h.no_duplicates() {
            assert(front.no_duplicates());
            if p(last) {
                assert(!sub.contains(last)) by {
                    if sub.contains(last) {
                        let j = choose|j: int| 0 <= j < front.len() && front[j] == last;
                        assert(h[j] == h[h.len() - 1]);
                    }
                }
                assert forall|i: int, j: int| 0 <= i < all.len() && 0 <= j < all.len() && i != j implies all[i] != all[j] by {
                    if i < sub.len() && j < sub.len() {
                    } else if i < sub.len() {
                        assert(sub.contains(all[i]));
                    } else {
                        assert(sub.contains(all[j]));
                    }
                }
            }
        }
        if !h.contains(name) {
            assert(!front.contains(name)) by {
                if front.contains(name) {
                    let j = choose|j: int| 0 <= j < front.len() && front[j] == name;
                    assert(h[j] == name);
                }
            }
            assert(h[h.len() - 1] == last);
            assert(p(last));
            assert(all =~= h);
        }
    }
}

/// A launch keeps a history a history: never more than `MAX_HISTORY` names,
/// never a name twice. The launched name comes first.
pub proof fn lemma_recorded_is_history(h: Seq<Seq<char>>, name: Seq<char>)
    ensures
        recorded(h, name).len() <= MAX_HISTORY,
        recorded(h, name).len() >= 1,
        recorded(h, name)[0] == name,
        h.no_duplicates() ==> is_history(recorded(h, name)),
{
    lemma_without(h, name);
    let rest = without(h, name);
    let all = seq![name] + rest;
    if h.no_duplicates() {
        assert forall|i: int, j: int| 0 <= i < all.len() && 0 <= j < all.len() && i != j implies all[i] != all[j] by {
            if i > 0 {
                assert(all[i] == rest[i - 1]);
                assert(rest.contains(all[i]));
            }
            if j > 0 {
                assert(all[j] == rest[j - 1]);
                assert(rest.contains(all[j]));
            }
        }
        assert(all.no_duplicates());
        let r = recorded(h, name);
        assert forall|i: int, j: int| 0 <= i < r.len() && 0 <= j < r.len() && i != j implies r[i] != r[j] by {
            assert(r[i] == all[i]);
            assert(r[j] == all[j]);
        }
    }
}

/// After any launches, one after the other, a history is still a history.
pub proof fn lemma_history_after_launches(h: Seq<Seq<char>>, names: Seq<Seq<char>>)
    requires
        is_history(h),
    ensures
        is_history(recorded_all(h, names)),
    decreases names.len(),
{
    if names.len() > 0 {
        lemma_history_after_launches(h, names.drop_last());
        lemma_recorded_is_history(recorded_all(h, names.drop_last()), names.last());
    }
}

/// A second launch of the name launched last changes nothing.
pub proof fn lemma_recorded_twice(h: Seq<Seq<char>>, name: Seq<char>)
    requires
        is_history(h),
    ensures
        recorded(recorded(h, name), name) == recorded(h, name),
{
    lemma_without(h, name);
    lemma_recorded_is_history(h, name);
    let r = recorded(h, name);
    let tail = r.skip(1);
    assert(r =~= seq![name] + tail);
    assert(!tail.contains(name)) by {
        if tail.contains(name) {
            let j = choose|j: int| 0 <= j < tail.len() && tail[j] == name;
            assert(r[j + 1] == r[0]);
        }
    }
    lemma_without(tail, name);
    assert(without(r, name) == tail) by {
        lemma_without_front(name, tail, name);
    }
    assert(seq![name] + without(r, name) =~= r);
}

/// `without` on a list with one more name in front.
pub proof fn lemma_without_front(first: Seq<char>, tail: Seq<Seq<char>>, name: Seq<char>)
    ensures
        without(seq![first] + tail, name) == if first != name {
            seq![first] + without(tail, name)
        } else {
            without(tail, name)
        },
    decreases tail.len(),
{
    reveal(Seq::filter);
    let all = seq![first] + tail;
    if tail.len() == 0 {
        assert(all.drop_last() =~= Seq::<Seq<char>>::empty());
        assert(all.last() == first);
        assert(without(all.drop_last(), name) =~= Seq::<Seq<char>>::empty());
        if first != name {
            assert(without(all, name) =~= seq![first] + without(tail, name));
        } else {
            assert(without(all, name) =~= without(tail, name));
        }
    } else {
        assert(all.drop_last() =~= seq![first] + tail.drop_last());
        assert(all.last() == tail.last());
        lemma_without_front(first, tail.drop_last(), name);
        let sub = without(tail.drop_last(), name);
        if tail.last() != name {
            if first != name {
                assert(without(all, name) =~= seq![first] + sub.push(tail.last()));
            } else {
                assert(without(all, name) =~= sub.push(tail.last()));
            }
        }
    }
}

/// Whether `name` can stand in a history file as a line of its own: it is
/// not empty, holds no line feed and does not end in a carriage return.
pub open spec fn is_line(name: Seq<char>) -> bool {
    &&& name.len() > 0
    &&& !name.contains('\n')
    &&& name.last() != '\r'
}

/// The lines of the file text of `h` are the names of `h`.
pub proof fn lemma_lines_of_file_text(h: Seq<Seq<char>>)
    requires
        forall|i: int| 0 <= i < h.len() ==> is_line(#[trigger] h[i]),
    ensures
        lines(file_text(h)) == h,
    decreases h.len(),
{
    if h.len() > 0 {
        let name = h[0];
        assert(is_line(name));
        let tail = seq!['\n'] + file_text(h.skip(1));
        let s = file_text(h);
        assert(s =~= name + tail);
        assert forall|i: int| 0 <= i < name.len() implies #[trigger] name[i] != '\n' by {
            if name[i] == '\n' {
                assert(name.contains('\n'));
            }
        }
        lemma_line_len_of_prefix(name, tail);
        let n = line_len(s) as int;
        assert(n == name.len());
        assert(s.take(n) =~= name);
        assert(s.skip(n + 1) =~= file_text(h.skip(1)));
        assert(strip_cr(name) == name);
        assert forall|i: int| 0 <= i < h.skip(1).len() implies is_line(#[trigger] h.skip(1)[i]) by {
            assert(h.skip(1)[i] == h[i + 1]);
        }
        lemma_lines_of_file_text(h.skip(1));
        assert(lines(s) =~= h);
    }
}

/// A history whose names are not empty is restored from itself.
pub proof fn lemma_restored_history(h: Seq<Seq<char>>)
    requires
        is_history(h),
        forall|i: int| 0 <= i < h.len() ==> (#[trigger] h[i]).len() > 0,
    ensures
        restored(h) == h,
    decreases h.len(),
{
    if h.len() > 0 {
        let tail = h.skip(1);
        assert forall|i: int, j: int| 0 <= i < tail.len() && 0 <= j < tail.len() && i != j implies tail[i]
            != tail[j] by {
            assert(tail[i] == h[i + 1] && tail[j] == h[j + 1]);
        }
        assert forall|i: int| 0 <= i < tail.len() implies (#[trigger] tail[i]).len() > 0 by {
            assert(tail[i] == h[i + 1]);
        }
        lemma_restored_history(tail);
        assert(!tail.contains(h[0])) by {
            if tail.contains(h[0]) {
                let j = choose|j: int| 0 <= j < tail.len() && tail[j] == h[0];
                assert(h[j + 1] == h[0]);
            }
        }
        lemma_without(tail, h[0]);
        assert(seq![h[0]] + tail =~= h);
    }
}

/// What is written to the history file is what is read from it: the file
/// text of a history, parsed again, gives the same history.
pub proof fn lemma_file_round_trip(h: Seq<Seq<char>>)
    requires
        is_history(h),
        forall|i: int| 0 <= i < h.len() ==> is_line(#[trigger] h[i]),
    ensures
        restored(lines(file_text(h))) == h,
{
    lemma_lines_of_file_text(h);
    lemma_restored_history(h);
}

/// The names launched last, the latest first.
pub struct HistoryList {
    names: Vec<String>,
}

impl View for HistoryList {
    type V = Seq<Seq<char>>;

    closed spec fn view(&self) -> Seq<Seq<char>> {
        texts(self.names@)
    }
}

impl HistoryList {
    #[verifier::type_invariant]
    spec fn well_formed(self) -> bool {
        is_history(texts(self.names@))
    }

    /// The empty history.
    pub fn new() -> (h: Self)
        ensures
            h@ == Seq::<Seq<char>>::empty(),
            is_history(h@),
    {
        let h = HistoryList { names: Vec::new() };
        assert(texts(h.names@) =~= Seq::<Seq<char>>::empty());
        h
    }

    /// The names, the latest first.
    pub fn names(&self) -> (r: &Vec<String>)
        ensures
            texts(r@) == self@,
            is_history(self@),
    {
        proof {
            use_type_invariant(self);
        }
        &self.names
    }

    /// The number of names.
    pub fn len(&self) -> (n: usize)
        ensures
            n == self@.len(),
            n <= MAX_HISTORY,
    {
        proof {
            use_type_invariant(self);
        }
        self.names.len()
    }

    /// Whether `name` is in the history.
    pub fn contains(&self, name: &str) -> (b: bool)
        ensures
            b == self@.contains(name@),
    {
        let key = name.to_owned();
        let mut i: usize = 0;
        while i < self.names.len()
            invariant
                i <= self.names.len(),
                key@ == name@,
                forall|k: int| 0 <= k < i ==> texts(self.names@)[k] != name@,
            decreases self.names.len() - i,
        {
            if self.names[i] == key {
                assert(texts(self.names@)[i as int] == name@);
                return true;
            }
            i = i + 1;
        }
        false
    }

    /// Records a launch of `name`: moves it to the front, or puts it there,
    /// and drops what no longer fits.
    pub fn record(&mut self, name: &str)
        ensures
            final(self)@ == recorded(old(self)@, name@),
            is_history(final(self)@),
            final(self)@.len() >= 1,
            final(self)@[0] == name@,
    {
        proof {
            use_type_invariant(&*self);
            lemma_recorded_is_history(self@, name@);
        }
        let key = name.to_owned();
        let mut out: Vec<String> = Vec::new();
        out.push(name.to_owned());
        let ghost old_names = texts(self.names@);
        let mut i: usize = 0;
        assert(old_names.take(0) =~= Seq::<Seq<char>>::empty());
        assert(without(Seq::<Seq<char>>::empty(), name@) =~= Seq::<Seq<char>>::empty()) by {
            reveal(Seq::filter);
        }
        assert(texts(out@) =~= seq![name@] + without(old_names.take(0), name@));
        while i < self.names.len()
            invariant
                i <= self.names.len(),
                key@ == name@,
                old_names == texts(self.names@),
                texts(out@) == seq![name@] + without(old_names.take(i as int), name@),
            decreases self.names.len() - i,
        {
            proof {
                let done = old_names.take(i as int);
                assert(old_names.take(i + 1) =~= done.push(old_names[i as int]));
                done.lemma_filter_push(old_names[i as int], |n: Seq<char>| n != name@);
            }
            if self.names[i] != key {
                let ghost before = out@;
                out.push(self.names[i].clone());
                assert(texts(out@) =~= texts(before).push(old_names[i as int]));
                assert(texts(out@) =~= seq![name@] + without(old_names.take(i + 1), name@));
            }
            i = i + 1;
        }
        assert(old_names.take(self.names.len() as int) =~= old_names);
        let ghost all = out@;
        if out.len() > MAX_HISTORY {
            out.truncate(MAX_HISTORY);
            assert(texts(out@) =~= texts(all).take(MAX_HISTORY as int));
        }
        assert(texts(out@) == recorded(old_names, name@));
        self.names = out;
    }

    /// The history that the text of a history file stands for: its lines
    /// that are not empty, recorded from the last to the first. A file that
    /// `to_file_text` wrote gives back the history it was written from.
    pub fn parse(content: &str) -> (h: Self)
        ensures
            h@ == restored(lines(content@)),
            is_history(h@),
    {
        let chars = chars_of(content);
        let all = split_lines(&chars);
        let mut h = HistoryList::new();
        let mut i: usize = all.len();
        assert(texts(all@).skip(all.len() as int) =~= Seq::<Seq<char>>::empty());
        while i > 0
            invariant
                i <= all.len(),
                h@ == restored(texts(all@).skip(i as int)),
            decreases i,
        {
            i = i - 1;
            proof {
                let here = texts(all@).skip(i as int);
                assert(here[0] == all@[i as int]@);
                assert(here.skip(1) =~= texts(all@).skip(i + 1));
            }
            if !all[i].as_str().is_empty() {
                h.record(all[i].as_str());
            }
        }
        assert(texts(all@).skip(0) =~= texts(all@));
        proof {
            use_type_invariant(&h);
        }
        h
    }

    /// The text to write to the history file: one name per line, the latest
    /// first, each line ended by a line feed.
    pub fn to_file_text(&self) -> (s: String)
        ensures
            s@ == file_text(self@),
    {
        let mut s = String::new();
        let mut i: usize = 0;
        let ghost names = texts(self.names@);
        assert(names.take(0) =~= Seq::<Seq<char>>::empty());
        while i < self.names.len()
            invariant
                i <= self.names.len(),
                names == texts(self.names@),
                s@ == file_text(names.take(i as int)),
            decreases self.names.len() - i,
        {
            proof {
                lemma_file_text_push(names.take(i as int), names[i as int]);
                assert(names.take(i + 1) =~= names.take(i as int).push(names[i as int]));
            }
            s.append(self.names[i].as_str());
            s.push('\n');
            i = i + 1;
        }
        assert(names.take(self.names.len() as int) =~= names);
        s
    }
}

/// The file text of a history with one more name at its end.
pub proof fn lemma_file_text_push(h: Seq<Seq<char>>, name: Seq<char>)
    ensures
        file_text(h.push(name)) == file_text(h) + name + seq!['\n'],
    decreases h.len(),
{
    let all = h.push(name);
    if h.len() == 0 {
        assert(all.skip(1) =~= Seq::<Seq<char>>::empty());
        assert(all[0] == name);
        assert(file_text(all.skip(1)) =~= Seq::<char>::empty());
        assert(file_text(h) =~= Seq::<char>::empty());
        assert(file_text(all) == all[0] + seq!['\n'] + file_text(all.skip(1)));
        assert(file_text(all) =~= file_text(h) + name + seq!['\n']);
    } else {
        assert(all.skip(1) =~= h.skip(1).push(name));
        assert(all[0] == h[0]);
        lemma_file_text_push(h.skip(1), name);
        assert(file_text(all) =~= file_text(h) + name + seq!['\n']);
    }
}

} // verus!
