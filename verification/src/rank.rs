//! What to show for a query, and what to launch for it.

use crate::catalog::{is_catalog, lemma_sorted_names_differ, sorted_by_name, Catalog};
use crate::history::HistoryList;
use crate::record::{views, RecordView, ShortcutRecord};
use crate::text::{
    chars_of, contains_chars, contains_ignoring_case, equal_ignoring_case, is_substring,
    lemma_self_is_substring, lex_lt, lowercase, texts, to_lower,
};
use vstd::prelude::*;

verus! {

/// The largest number of records shown before anything is typed.
pub const INITIAL_LIMIT: usize = 8;

/// Whether `s[i]` is the first element of `s` of which `p` holds.
pub open spec fn is_first_where<A>(s: Seq<A>, p: spec_fn(A) -> bool, i: int) -> bool {
    &&& 0 <= i < s.len()
    &&& p(s[i])
    &&& forall|k: int| 0 <= k < i ==> !p(#[trigger] s[k])
}

/// The first element of `s` of which `p` holds, if there is one.
pub open spec fn first_where<A>(s: Seq<A>, p: spec_fn(A) -> bool) -> Option<A> {
    if exists|i: int| is_first_where(s, p, i) {
        Some(s[choose|i: int| is_first_where(s, p, i)])
    } else {
        None
    }
}

/// There is only one first element.
pub proof fn lemma_first_where_found<A>(s: Seq<A>, p: spec_fn(A) -> bool, i: int)
    requires
        is_first_where(s, p, i),
    ensures
        first_where(s, p) == Some(s[i]),
{
    let j = choose|j: int| is_first_where(s, p, j);
    if j < i {
        assert(!p(s[j]));
    } else if i < j {
        assert(!p(s[i]));
    }
}

/// Where `p` holds of no element, there is no first one.
pub proof fn lemma_first_where_none<A>(s: Seq<A>, p: spec_fn(A) -> bool)
    requires
        forall|k: int| 0 <= k < s.len() ==> !p(#[trigger] s[k]),
    ensures
        first_where(s, p) is None,
{
}

/// Whether `r` matches the query `q`: its name or its description holds
/// `q`, case ignored.
pub open spec fn matches_query(r: RecordView, q: Seq<char>) -> bool {
    contains_ignoring_case(r.name, q) || contains_ignoring_case(r.description, q)
}

/// The records of `cat` that match `q`, in the order of `cat`.
pub open spec fn filtered(cat: Seq<RecordView>, q: Seq<char>) -> Seq<RecordView> {
    cat.filter(|r: RecordView| matches_query(r, q))
}

/// The first record of `cat` with the name `name`, if there is one.
pub open spec fn first_named(cat: Seq<RecordView>, name: Seq<char>) -> Option<RecordView> {
    first_where(cat, |r: RecordView| r.name == name)
}

/// For each name of `hist` that `cat` knows, the record of that name, in
/// the order of `hist`.
pub open spec fn recent(cat: Seq<RecordView>, hist: Seq<Seq<char>>) -> Seq<RecordView>
    decreases hist.len(),
{
    if hist.len() == 0 {
        Seq::empty()
    } else {
        let before = recent(cat, hist.drop_last());
        match first_named(cat, hist.last()) {
            Some(r) => before.push(r),
            None => before,
        }
    }
}

/// The records of `cat` whose names are not in `hist`, in the order of `cat`.
pub open spec fn others(cat: Seq<RecordView>, hist: Seq<Seq<char>>) -> Seq<RecordView> {
    cat.filter(|r: RecordView| !hist.contains(r.name))
}

/// The order in which records are shown before anything is typed: those
/// launched lately first, the latest at the top, then the others by name.
pub open spec fn browse_order(cat: Seq<RecordView>, hist: Seq<Seq<char>>) -> Seq<RecordView> {
    recent(cat, hist) + others(cat, hist)
}

/// The first `INITIAL_LIMIT` elements of `s`.
pub open spec fn capped(s: Seq<RecordView>) -> Seq<RecordView> {
    if s.len() > INITIAL_LIMIT {
        s.take(INITIAL_LIMIT as int)
    } else {
        s
    }
}

/// What is shown for the query `q`: for the empty query the first
/// `INITIAL_LIMIT` records of the browse order, else every record that
/// matches `q`, by name.
pub open spec fn ranked(cat: Seq<RecordView>, hist: Seq<Seq<char>>, q: Seq<char>) -> Seq<
    RecordView,
> {
    if q.len() == 0 {
        capped(browse_order(cat, hist))
    } else {
        filtered(cat, q)
    }
}

/// What is launched when the query `q` is confirmed: the first record whose
/// name equals `q`, case ignored; if there is none, the first whose name
/// holds `q`, case ignored; if there is none either, nothing.
pub open spec fn activation_target(cat: Seq<RecordView>, q: Seq<char>) -> Option<RecordView> {
    match first_where(cat, |r: RecordView| equal_ignoring_case(r.name, q)) {
        Some(r) => Some(r),
        None => first_where(cat, |r: RecordView| contains_ignoring_case(r.name, q)),
    }
}

/// The view of an optional record.
pub open spec fn target_view(r: Option<&ShortcutRecord>) -> Option<RecordView> {
    match r {
        Some(rec) => Some(rec@),
        None => None,
    }
}

/// Where `p` holds of some element, there is a first one.
pub proof fn lemma_first_where_exists<A>(s: Seq<A>, p: spec_fn(A) -> bool, i: int)
    requires
        0 <= i < s.len(),
        p(s[i]),
    ensures
        exists|j: int| 0 <= j <= i && is_first_where(s, p, j),
    decreases i,
{
    if forall|k: int| 0 <= k < i ==> !p(#[trigger] s[k]) {
        assert(is_first_where(s, p, i));
    } else {
        let k = choose|k: int| 0 <= k < i && p(#[trigger] s[k]);
        lemma_first_where_exists(s, p, k);
    }
}

/// A filter keeps the order: of two elements that it lets through, the one
/// that comes first in the result came first in the sequence.
pub proof fn lemma_filter_keeps_order<A>(s: Seq<A>, p: spec_fn(A) -> bool, i: int, j: int)
    requires
        0 <= i < j < s.filter(p).len(),
    ensures
        exists|a: int, b: int|
            0 <= a < b < s.len() && #[trigger] s[a] == s.filter(p)[i] && #[trigger] s[b] == s.filter(
                p,
            )[j],
    decreases s.len(),
{
    reveal(Seq::filter);
    let out = s.filter(p);
    if s.len() > 0 {
        let front = s.drop_last();
        let sub = front.filter(p);
        if p(s.last()) && j == sub.len() {
            assert(out[j] == s.last());
            assert(out[i] == sub[i]);
            assert(sub.contains(sub[i]));
            front.lemma_filter_contains_rev(p, sub[i]);
            let a = choose|a: int| 0 <= a < front.len() && front[a] == sub[i];
            assert(s[a] == out[i] && s[s.len() - 1] == out[j]);
        } else {
            assert(out[i] == sub[i] && out[j] == sub[j]);
            lemma_filter_keeps_order(front, p, i, j);
            let (a, b) = choose|a: int, b: int|
                0 <= a < b < front.len() && #[trigger] front[a] == sub[i] && #[trigger] front[b]
                    == sub[j];
            assert(s[a] == out[i] && s[b] == out[j]);
        }
    }
}

/// What a query shows is in the order of the names, as the catalog is.
pub proof fn lemma_filtered_is_sorted(cat: Seq<RecordView>, q: Seq<char>)
    requires
        sorted_by_name(cat),
    ensures
        sorted_by_name(filtered(cat, q)),
{
    let p = |r: RecordView| matches_query(r, q);
    let out = filtered(cat, q);
    assert forall|i: int, j: int| 0 <= i < j < out.len() implies lex_lt(
        #[trigger] out[i].name,
        #[trigger] out[j].name,
    ) by {
        lemma_filter_keeps_order(cat, p, i, j);
        let (a, b) = choose|a: int, b: int|
            0 <= a < b < cat.len() && #[trigger] cat[a] == out[i] && #[trigger] cat[b] == out[j];
        assert(lex_lt(cat[a].name, cat[b].name));
    }
}

/// The records that the history does not know are shown in the order of
/// the names, as the catalog is.
pub proof fn lemma_others_are_sorted(cat: Seq<RecordView>, hist: Seq<Seq<char>>)
    requires
        sorted_by_name(cat),
    ensures
        sorted_by_name(others(cat, hist)),
{
    let p = |r: RecordView| !hist.contains(r.name);
    let out = others(cat, hist);
    assert forall|i: int, j: int| 0 <= i < j < out.len() implies lex_lt(
        #[trigger] out[i].name,
        #[trigger] out[j].name,
    ) by {
        lemma_filter_keeps_order(cat, p, i, j);
        let (a, b) = choose|a: int, b: int|
            0 <= a < b < cat.len() && #[trigger] cat[a] == out[i] && #[trigger] cat[b] == out[j];
        assert(lex_lt(cat[a].name, cat[b].name));
    }
}

/// A query shows the records that match it and no others: every record
/// shown is a record of the catalog whose name or description holds the
/// query, case ignored, and every such record of the catalog is shown.
pub proof fn lemma_filtered_is_exact(cat: Seq<RecordView>, q: Seq<char>)
    ensures
        forall|k: int|
            0 <= k < filtered(cat, q).len() ==> matches_query(#[trigger] filtered(cat, q)[k], q)
                && cat.contains(filtered(cat, q)[k]),
        forall|i: int|
            0 <= i < cat.len() && matches_query(#[trigger] cat[i], q) ==> filtered(cat, q).contains(
                cat[i],
            ),
        filtered(cat, q).len() <= cat.len(),
{
    let p = |r: RecordView| matches_query(r, q);
    let out = filtered(cat, q);
    assert forall|k: int| 0 <= k < out.len() implies matches_query(#[trigger] out[k], q)
        && cat.contains(out[k]) by {
        cat.lemma_filter_pred(p, k);
        assert(out.contains(out[k]));
        cat.lemma_filter_contains_rev(p, out[k]);
    }
    assert forall|i: int| 0 <= i < cat.len() && matches_query(#[trigger] cat[i], q) implies out.contains(
        cat[i],
    ) by {
        cat.lemma_filter_contains(p, i);
    }
    cat.lemma_filter_len(p);
}

/// What a query shows, where it is not empty, is what matches it: every
/// record shown is a record of the catalog whose name or description holds
/// the query, case ignored, and every such record of the catalog is shown.
pub proof fn lemma_query_shows_matches(cat: Seq<RecordView>, hist: Seq<Seq<char>>, q: Seq<char>)
    requires
        q.len() > 0,
    ensures
        forall|k: int|
            0 <= k < ranked(cat, hist, q).len() ==> matches_query(#[trigger] ranked(cat, hist, q)[k], q)
                && cat.contains(ranked(cat, hist, q)[k]),
        forall|i: int|
            0 <= i < cat.len() && matches_query(#[trigger] cat[i], q) ==> ranked(
                cat,
                hist,
                q,
            ).contains(cat[i]),
{
    lemma_filtered_is_exact(cat, q);
}

/// A query has a target exactly where the name of some record holds it,
/// case ignored.
pub proof fn lemma_target_exists(cat: Seq<RecordView>, q: Seq<char>)
    ensures
        activation_target(cat, q) is Some <==> exists|i: int|
            0 <= i < cat.len() && contains_ignoring_case((#[trigger] cat[i]).name, q),
        activation_target(cat, q) matches Some(r) ==> cat.contains(r) && contains_ignoring_case(
            r.name,
            q,
        ),
{
    let exact = |r: RecordView| equal_ignoring_case(r.name, q);
    let partial = |r: RecordView| contains_ignoring_case(r.name, q);
    if exists|i: int| is_first_where(cat, exact, i) {
        let i = choose|i: int| is_first_where(cat, exact, i);
        lemma_self_is_substring(lowercase(q));
        assert(contains_ignoring_case(cat[i].name, q));
    } else if exists|i: int| is_first_where(cat, partial, i) {
        let i = choose|i: int| is_first_where(cat, partial, i);
        assert(contains_ignoring_case(cat[i].name, q));
    } else {
        if exists|i: int| 0 <= i < cat.len() && contains_ignoring_case((#[trigger] cat[i]).name, q) {
            let i = choose|i: int|
                0 <= i < cat.len() && contains_ignoring_case((#[trigger] cat[i]).name, q);
            lemma_first_where_exists(cat, partial, i);
        }
    }
}

/// A record whose name equals the query, case ignored, goes before one
/// whose name only holds the query: where the catalog has such a record,
/// the target is one.
pub proof fn lemma_exact_match_wins(cat: Seq<RecordView>, q: Seq<char>, i: int)
    requires
        0 <= i < cat.len(),
        equal_ignoring_case(cat[i].name, q),
    ensures
        activation_target(cat, q) is Some,
        equal_ignoring_case(activation_target(cat, q)->0.name, q),
        cat.contains(activation_target(cat, q)->0),
{
    let p = |r: RecordView| equal_ignoring_case(r.name, q);
    lemma_first_where_exists(cat, p, i);
    let j = choose|j: int| 0 <= j <= i && is_first_where(cat, p, j);
    lemma_first_where_found(cat, p, j);
}

/// Before anything is typed at most `INITIAL_LIMIT` records are shown, all
/// of them from the browse order.
pub proof fn lemma_initial_view(cat: Seq<RecordView>, hist: Seq<Seq<char>>)
    ensures
        ranked(cat, hist, Seq::empty()).len() <= INITIAL_LIMIT,
        ranked(cat, hist, Seq::empty()).is_prefix_of(browse_order(cat, hist)),
        browse_order(cat, hist).len() <= INITIAL_LIMIT ==> ranked(cat, hist, Seq::empty())
            == browse_order(cat, hist),
{
}

/// Every record launched lately is a record of the catalog whose name the
/// history holds.
pub proof fn lemma_recent_from_history(cat: Seq<RecordView>, hist: Seq<Seq<char>>)
    ensures
        recent(cat, hist).len() <= hist.len(),
        forall|k: int|
            0 <= k < recent(cat, hist).len() ==> cat.contains(#[trigger] recent(cat, hist)[k])
                && hist.contains(recent(cat, hist)[k].name),
    decreases hist.len(),
{
    if hist.len() > 0 {
        let front = hist.drop_last();
        lemma_recent_from_history(cat, front);
        let before = recent(cat, front);
        let p = |r: RecordView| r.name == hist.last();
        let all = recent(cat, hist);
        assert forall|k: int| 0 <= k < all.len() implies cat.contains(#[trigger] all[k])
            && hist.contains(all[k].name) by {
            if k < before.len() {
                assert(all[k] == before[k]);
                let j = choose|j: int| 0 <= j < front.len() && front[j] == before[k].name;
                assert(hist[j] == before[k].name);
            } else {
                let j = choose|j: int| is_first_where(cat, p, j);
                assert(all[k] == cat[j]);
                assert(hist[hist.len() - 1] == cat[j].name);
            }
        }
    }
}

/// A record of a catalog whose name the history holds is among those
/// launched lately.
pub proof fn lemma_recent_holds(cat: Seq<RecordView>, hist: Seq<Seq<char>>, i: int)
    requires
        sorted_by_name(cat),
        0 <= i < cat.len(),
        hist.contains(cat[i].name),
    ensures
        recent(cat, hist).contains(cat[i]),
    decreases hist.len(),
{
    let front = hist.drop_last();
    let before = recent(cat, front);
    let all = recent(cat, hist);
    if hist.last() == cat[i].name {
        let p = |r: RecordView| r.name == hist.last();
        assert forall|k: int| 0 <= k < i implies !p(#[trigger] cat[k]) by {
            if cat[k].name == cat[i].name {
                lemma_sorted_names_differ(cat, k, i);
            }
        }
        lemma_first_where_found(cat, p, i);
        assert(all[all.len() - 1] == cat[i]);
    } else {
        let j = choose|j: int| 0 <= j < hist.len() && hist[j] == cat[i].name;
        assert(front[j] == cat[i].name);
        lemma_recent_holds(cat, front, i);
        let k = choose|k: int| 0 <= k < before.len() && before[k] == cat[i];
        assert(all[k] == cat[i]);
    }
}

/// The browse order shows every record of the catalog and nothing else;
/// what the history knows comes first, and no name of the history stands
/// among the others.
pub proof fn lemma_browse_order(cat: Seq<RecordView>, hist: Seq<Seq<char>>)
    requires
        is_catalog(cat),
    ensures
        forall|r: RecordView| #[trigger] browse_order(cat, hist).contains(r) <==> cat.contains(r),
        forall|k: int|
            0 <= k < recent(cat, hist).len() ==> hist.contains(
                (#[trigger] browse_order(cat, hist)[k]).name,
            ),
        forall|k: int|
            recent(cat, hist).len() <= k < browse_order(cat, hist).len() ==> !hist.contains(
                (#[trigger] browse_order(cat, hist)[k]).name,
            ),
{
    let head = recent(cat, hist);
    let p = |r: RecordView| !hist.contains(r.name);
    let tail = others(cat, hist);
    let all = browse_order(cat, hist);
    lemma_recent_from_history(cat, hist);
    assert forall|k: int| 0 <= k < head.len() implies hist.contains((#[trigger] all[k]).name) by {
        assert(all[k] == head[k]);
    }
    assert forall|k: int| head.len() <= k < all.len() implies !hist.contains(
        (#[trigger] all[k]).name,
    ) by {
        assert(all[k] == tail[k - head.len()]);
        cat.lemma_filter_pred(p, k - head.len());
    }
    assert forall|r: RecordView| #[trigger] all.contains(r) <==> cat.contains(r) by {
        if all.contains(r) {
            let k = choose|k: int| 0 <= k < all.len() && all[k] == r;
            if k < head.len() {
                assert(all[k] == head[k]);
            } else {
                assert(all[k] == tail[k - head.len()]);
                assert(tail.contains(r));
                cat.lemma_filter_contains_rev(p, r);
            }
        }
        if cat.contains(r) {
            let i = choose|i: int| 0 <= i < cat.len() && cat[i] == r;
            if hist.contains(r.name) {
                lemma_recent_holds(cat, hist, i);
                let k = choose|k: int| 0 <= k < head.len() && head[k] == r;
                assert(all[k] == r);
            } else {
                cat.lemma_filter_contains(p, i);
                let k = choose|k: int| 0 <= k < tail.len() && tail[k] == r;
                assert(all[head.len() + k] == r);
            }
        }
    }
}

/// With an empty history the browse order is the catalog.
pub proof fn lemma_browse_order_without_history(cat: Seq<RecordView>)
    ensures
        browse_order(cat, Seq::empty()) == cat,
    decreases cat.len(),
{
    reveal(Seq::filter);
    let hist = Seq::<Seq<char>>::empty();
    if cat.len() > 0 {
        lemma_browse_order_without_history(cat.drop_last());
        assert(recent(cat.drop_last(), hist) =~= Seq::<RecordView>::empty());
        assert(others(cat.drop_last(), hist) =~= cat.drop_last());
        assert(!hist.contains(cat.last().name));
        assert(others(cat, hist) =~= cat);
    } else {
        assert(others(cat, hist) =~= cat);
    }
    assert(browse_order(cat, hist) =~= cat);
}

/// Whether the lower-case form of `text` holds `needle`.
fn lowered_holds(text: &str, needle: &Vec<char>) -> (b: bool)
    ensures
        b == is_substring(needle@, lowercase(text@)),
{
    let low = to_lower(text);
    let hay = chars_of(low.as_str());
    contains_chars(&hay, needle)
}

/// Whether `record` matches `query`.
pub fn record_matches(record: &ShortcutRecord, query: &str) -> (b: bool)
    ensures
        b == matches_query(record@, query@),
{
    let low = to_lower(query);
    let needle = chars_of(low.as_str());
    lowered_holds(record.name.as_str(), &needle) || lowered_holds(
        record.description.as_str(),
        &needle,
    )
}

/// The records of `records` that match `query`, in their order.
pub fn filter_records(records: &Vec<ShortcutRecord>, query: &str) -> (out: Vec<ShortcutRecord>)
    ensures
        views(out@) == filtered(views(records@), query@),
{
    let low = to_lower(query);
    let needle = chars_of(low.as_str());
    let ghost all = views(records@);
    let mut out: Vec<ShortcutRecord> = Vec::new();
    let mut i: usize = 0;
    assert(all.take(0) =~= Seq::<RecordView>::empty());
    assert(filtered(Seq::<RecordView>::empty(), query@) =~= Seq::<RecordView>::empty()) by {
        reveal(Seq::filter);
    }
    assert(views(out@) =~= filtered(all.take(0), query@));
    while i < records.len()
        invariant
            i <= records.len(),
            all == views(records@),
            needle@ == lowercase(query@),
            views(out@) == filtered(all.take(i as int), query@),
        decreases records.len() - i,
    {
        let r = &records[i];
        proof {
            assert(all.take(i + 1) =~= all.take(i as int).push(r@));
            all.take(i as int).lemma_filter_push(r@, |x: RecordView| matches_query(x, query@));
        }
        if lowered_holds(r.name.as_str(), &needle) || lowered_holds(r.description.as_str(), &needle) {
            let ghost before = views(out@);
            out.push(r.clone());
            assert(views(out@) =~= before.push(r@));
        }
        i = i + 1;
    }
    assert(all.take(records.len() as int) =~= all);
    out
}

/// The records in the order in which they are shown before anything is
/// typed.
pub fn browse(catalog: &Catalog, history: &HistoryList) -> (out: Vec<ShortcutRecord>)
    ensures
        views(out@) == browse_order(catalog@, history@),
{
    let records = catalog.records();
    let names = history.names();
    let ghost cat = catalog@;
    let ghost hist = history@;
    let mut out: Vec<ShortcutRecord> = Vec::new();
    let mut i: usize = 0;
    assert(hist.take(0) =~= Seq::<Seq<char>>::empty());
    assert(views(out@) =~= recent(cat, hist.take(0)));
    while i < names.len()
        invariant
            i <= names.len(),
            cat == views(records@),
            hist == texts(names@),
            views(out@) == recent(cat, hist.take(i as int)),
        decreases names.len() - i,
    {
        let name = &names[i];
        proof {
            assert(hist.take(i + 1).drop_last() =~= hist.take(i as int));
            assert(hist.take(i + 1).last() == name@);
        }
        let mut k: usize = 0;
        let mut found = false;
        while k < records.len() && !found
            invariant
                k <= records.len(),
                cat == views(records@),
                !found ==> forall|j: int| 0 <= j < k ==> (#[trigger] cat[j]).name != name@,
                found ==> k < records.len() && is_first_where(
                    cat,
                    |r: RecordView| r.name == name@,
                    k as int,
                ),
            decreases records.len() - k + if found { 0int } else { 1int },
        {
            assert(cat[k as int] == records@[k as int]@);
            if records[k].name == *name {
                found = true;
            } else {
                k = k + 1;
            }
        }
        if found {
            proof {
                lemma_first_where_found(cat, |r: RecordView| r.name == name@, k as int);
            }
            let ghost before = views(out@);
            out.push(records[k].clone());
            assert(views(out@) =~= before.push(cat[k as int]));
        } else {
            proof {
                lemma_first_where_none(cat, |r: RecordView| r.name == name@);
            }
        }
        i = i + 1;
    }
    assert(hist.take(names.len() as int) =~= hist);
    let ghost head = views(out@);
    let mut k: usize = 0;
    assert(cat.take(0) =~= Seq::<RecordView>::empty());
    assert(others(Seq::<RecordView>::empty(), hist) =~= Seq::<RecordView>::empty()) by {
        reveal(Seq::filter);
    }
    assert(views(out@) =~= head + others(cat.take(0), hist));
    while k < records.len()
        invariant
            k <= records.len(),
            cat == views(records@),
            hist == history@,
            head == recent(cat, hist),
            views(out@) == head + others(cat.take(k as int), hist),
        decreases records.len() - k,
    {
        let r = &records[k];
        proof {
            assert(cat.take(k + 1) =~= cat.take(k as int).push(r@));
            cat.take(k as int).lemma_filter_push(r@, |x: RecordView| !hist.contains(x.name));
        }
        if !history.contains(r.name.as_str()) {
            let ghost before = views(out@);
            out.push(r.clone());
            assert(views(out@) =~= before.push(r@));
            assert(views(out@) =~= head + others(cat.take(k as int), hist).push(r@));
        }
        k = k + 1;
    }
    assert(cat.take(records.len() as int) =~= cat);
    out
}

/// What to show for `query`.
pub fn rank(catalog: &Catalog, history: &HistoryList, query: &str) -> (out: Vec<ShortcutRecord>)
    ensures
        views(out@) == ranked(catalog@, history@, query@),
{
    if query.is_empty() {
        let mut out = browse(catalog, history);
        let ghost all = views(out@);
        if out.len() > INITIAL_LIMIT {
            out.truncate(INITIAL_LIMIT);
            assert(views(out@) =~= all.take(INITIAL_LIMIT as int));
        }
        out
    } else {
        filter_records(catalog.records(), query)
    }
}

/// What to launch when `query` is confirmed.
pub fn activation_target_of<'a>(catalog: &'a Catalog, query: &str) -> (r: Option<
    &'a ShortcutRecord,
>)
    ensures
        target_view(r) == activation_target(catalog@, query@),
{
    let records = catalog.records();
    let ghost cat = catalog@;
    let low = to_lower(query);
    let mut i: usize = 0;
    while i < records.len()
        invariant
            i <= records.len(),
            cat == views(records@),
            cat == catalog@,
            low@ == lowercase(query@),
            forall|j: int| 0 <= j < i ==> !equal_ignoring_case((#[trigger] cat[j]).name, query@),
        decreases records.len() - i,
    {
        assert(cat[i as int] == records@[i as int]@);
        let name = to_lower(records[i].name.as_str());
        if name == low {
            proof {
                lemma_first_where_found(
                    cat,
                    |r: RecordView| equal_ignoring_case(r.name, query@),
                    i as int,
                );
            }
            return Some(&records[i]);
        }
        i = i + 1;
    }
    proof {
        lemma_first_where_none(cat, |r: RecordView| equal_ignoring_case(r.name, query@));
    }
    let needle = chars_of(low.as_str());
    let mut k: usize = 0;
    while k < records.len()
        invariant
            k <= records.len(),
            cat == views(records@),
            cat == catalog@,
            needle@ == lowercase(query@),
            first_where(cat, |r: RecordView| equal_ignoring_case(r.name, query@)) is None,
            forall|j: int| 0 <= j < k ==> !contains_ignoring_case((#[trigger] cat[j]).name, query@),
        decreases records.len() - k,
    {
        assert(cat[k as int] == records@[k as int]@);
        if lowered_holds(records[k].name.as_str(), &needle) {
            proof {
                lemma_first_where_found(
                    cat,
                    |r: RecordView| contains_ignoring_case(r.name, query@),
                    k as int,
                );
            }
            return Some(&records[k]);
        }
        k = k + 1;
    }
    proof {
        lemma_first_where_none(cat, |r: RecordView| contains_ignoring_case(r.name, query@));
    }
    None
}

} // verus!
