//! The catalog: the displayed applications, sorted by name, each name once.

use crate::record::{is_listed, names_of, views, RecordView, ShortcutRecord};
use crate::text::{
    lemma_lex_asymmetric, lemma_lex_connected, lemma_lex_irreflexive, lemma_lex_transitive, lex_lt,
    name_before,
};
use vstd::prelude::*;

verus! {

/// Whether the names of `s` strictly increase.
pub open spec fn sorted_by_name(s: Seq<RecordView>) -> bool {
    forall|i: int, j: int| 0 <= i < j < s.len() ==> lex_lt(#[trigger] s[i].name, #[trigger] s[j].name)
}

/// Whether `s` can be a catalog: sorted by name, each name once, no record
/// hidden or of a terminal application.
pub open spec fn is_catalog(s: Seq<RecordView>) -> bool {
    &&& sorted_by_name(s)
    &&& forall|i: int| 0 <= i < s.len() ==> is_listed(#[trigger] s[i])
}

/// Whether `input[j]` is the first of the listed records of `input` that
/// bear its name.
pub open spec fn is_first_listed(input: Seq<RecordView>, j: int) -> bool {
    &&& 0 <= j < input.len()
    &&& is_listed(input[j])
    &&& forall|k: int| 0 <= k < j && is_listed(#[trigger] input[k]) ==> input[k].name != input[j].name
}

/// Whether `r` is, among the listed records of `input` with its name, the
/// one that comes first.
pub open spec fn is_survivor(input: Seq<RecordView>, r: RecordView) -> bool {
    exists|j: int| is_first_listed(input, j) && #[trigger] input[j] == r
}

/// Whether a listed record of `input` bears `name`.
pub open spec fn has_listed_name(input: Seq<RecordView>, name: Seq<char>) -> bool {
    exists|j: int| 0 <= j < input.len() && is_listed(#[trigger] input[j]) && input[j].name == name
}

/// Whether `cat` is the catalog of `input`: sorted by name, holding for
/// each name of a listed record of `input` the first such record, and
/// nothing else.
pub open spec fn is_catalog_of(cat: Seq<RecordView>, input: Seq<RecordView>) -> bool {
    &&& sorted_by_name(cat)
    &&& forall|i: int| 0 <= i < cat.len() ==> is_survivor(input, #[trigger] cat[i])
    &&& forall|j: int|
        0 <= j < input.len() && is_listed(#[trigger] input[j]) ==> names_of(cat).contains(
            input[j].name,
        )
}

/// A sorted sequence holds a name at most once.
pub proof fn lemma_sorted_names_differ(s: Seq<RecordView>, i: int, j: int)
    requires
        sorted_by_name(s),
        0 <= i < s.len(),
        0 <= j < s.len(),
        s[i].name == s[j].name,
    ensures
        i == j,
{
    lemma_lex_irreflexive(s[i].name);
    if i < j {
        assert(lex_lt(s[i].name, s[j].name));
    } else if j < i {
        assert(lex_lt(s[j].name, s[i].name));
    }
}

/// The catalog of an input is a catalog.
pub proof fn lemma_catalog_of_is_catalog(cat: Seq<RecordView>, input: Seq<RecordView>)
    requires
        is_catalog_of(cat, input),
    ensures
        is_catalog(cat),
{
    assert forall|i: int| 0 <= i < cat.len() implies is_listed(#[trigger] cat[i]) by {
        assert(is_survivor(input, cat[i]));
    }
}

proof fn lemma_first_listed_extends(input: Seq<RecordView>, r: RecordView, j: int)
    requires
        is_first_listed(input, j),
    ensures
        is_first_listed(input.push(r), j),
        input.push(r)[j] == input[j],
{
    let more = input.push(r);
    assert forall|k: int| 0 <= k < j && is_listed(#[trigger] more[k]) implies more[k].name
        != more[j].name by {
        assert(more[k] == input[k]);
    }
}

proof fn lemma_survivors_extend(cat: Seq<RecordView>, input: Seq<RecordView>, r: RecordView)
    requires
        forall|i: int| 0 <= i < cat.len() ==> is_survivor(input, #[trigger] cat[i]),
    ensures
        forall|i: int| 0 <= i < cat.len() ==> is_survivor(input.push(r), #[trigger] cat[i]),
{
    assert forall|i: int| 0 <= i < cat.len() implies is_survivor(input.push(r), #[trigger] cat[i]) by {
        assert(is_survivor(input, cat[i]));
        let j = choose|j: int| is_first_listed(input, j) && #[trigger] input[j] == cat[i];
        lemma_first_listed_extends(input, r, j);
    }
}

/// A record that is not listed leaves the catalog as it is.
proof fn lemma_extend_unlisted(cat: Seq<RecordView>, input: Seq<RecordView>, r: RecordView)
    requires
        is_catalog_of(cat, input),
        !is_listed(r),
    ensures
        is_catalog_of(cat, input.push(r)),
{
    let more = input.push(r);
    lemma_survivors_extend(cat, input, r);
    assert forall|j: int| 0 <= j < more.len() && is_listed(#[trigger] more[j]) implies names_of(
        cat,
    ).contains(more[j].name) by {
        assert(more[j] == input[j]);
    }
}

/// A record whose name the catalog holds leaves the catalog as it is.
proof fn lemma_extend_duplicate(
    cat: Seq<RecordView>,
    input: Seq<RecordView>,
    r: RecordView,
    p: int,
)
    requires
        is_catalog_of(cat, input),
        0 <= p < cat.len(),
        cat[p].name == r.name,
    ensures
        is_catalog_of(cat, input.push(r)),
{
    let more = input.push(r);
    lemma_survivors_extend(cat, input, r);
    assert forall|j: int| 0 <= j < more.len() && is_listed(#[trigger] more[j]) implies names_of(
        cat,
    ).contains(more[j].name) by {
        if j < input.len() {
            assert(more[j] == input[j]);
        } else {
            assert(names_of(cat)[p] == r.name);
        }
    }
}

/// A listed record with a new name enters the catalog at its place.
proof fn lemma_extend_insert(cat: Seq<RecordView>, input: Seq<RecordView>, r: RecordView, p: int)
    requires
        is_catalog_of(cat, input),
        is_listed(r),
        0 <= p <= cat.len(),
        forall|i: int| 0 <= i < p ==> lex_lt(#[trigger] cat[i].name, r.name),
        forall|i: int| p <= i < cat.len() ==> lex_lt(r.name, #[trigger] cat[i].name),
    ensures
        is_catalog_of(cat.insert(p, r), input.push(r)),
{
    let more = input.push(r);
    let next = cat.insert(p, r);
    lemma_survivors_extend(cat, input, r);
    assert forall|i: int, j: int| 0 <= i < j < next.len() implies lex_lt(
        #[trigger] next[i].name,
        #[trigger] next[j].name,
    ) by {
        if j < p {
            assert(next[i] == cat[i] && next[j] == cat[j]);
        } else if j == p {
            assert(next[i] == cat[i]);
        } else if i < p {
            assert(next[i] == cat[i] && next[j] == cat[j - 1]);
        } else if i == p {
            assert(next[j] == cat[j - 1]);
        } else {
            assert(next[i] == cat[i - 1] && next[j] == cat[j - 1]);
        }
    }
    assert(is_first_listed(more, input.len() as int)) by {
        assert forall|k: int| 0 <= k < input.len() && is_listed(#[trigger] more[k]) implies more[k].name
            != r.name by {
            assert(more[k] == input[k]);
            if input[k].name == r.name {
                assert(names_of(cat).contains(input[k].name));
                let i = choose|i: int| 0 <= i < cat.len() && names_of(cat)[i] == input[k].name;
                assert(cat[i].name == r.name);
                lemma_lex_irreflexive(r.name);
            }
        }
    }
    assert forall|i: int| 0 <= i < next.len() implies is_survivor(more, #[trigger] next[i]) by {
        if i < p {
            assert(next[i] == cat[i]);
        } else if i == p {
            assert(more[input.len() as int] == next[i]);
        } else {
            assert(next[i] == cat[i - 1]);
        }
    }
    assert forall|j: int| 0 <= j < more.len() && is_listed(#[trigger] more[j]) implies names_of(
        next,
    ).contains(more[j].name) by {
        if j < input.len() {
            assert(more[j] == input[j]);
            assert(names_of(cat).contains(input[j].name));
            let i = choose|i: int| 0 <= i < cat.len() && names_of(cat)[i] == input[j].name;
            if i < p {
                assert(names_of(next)[i] == cat[i].name);
            } else {
                assert(next[i + 1] == cat[i]);
                assert(names_of(next)[i + 1] == cat[i].name);
            }
        } else {
            assert(names_of(next)[p] == r.name);
        }
    }
}

/// Whether the names of `s` strictly increase.
pub open spec fn strictly_increasing(s: Seq<Seq<char>>) -> bool {
    forall|i: int, j: int| 0 <= i < j < s.len() ==> lex_lt(#[trigger] s[i], #[trigger] s[j])
}

/// Two strictly increasing sequences with the same names are equal.
pub proof fn lemma_increasing_unique(x: Seq<Seq<char>>, y: Seq<Seq<char>>)
    requires
        strictly_increasing(x),
        strictly_increasing(y),
        forall|n: Seq<char>| x.contains(n) <==> y.contains(n),
    ensures
        x == y,
    decreases x.len(),
{
    if x.len() == 0 {
        if y.len() > 0 {
            assert(y.contains(y[0]));
        }
        assert(x =~= y);
    } else {
        assert(x.contains(x[0]));
        let k = choose|k: int| 0 <= k < y.len() && y[k] == x[0];
        assert(y.contains(y[0]));
        let m = choose|m: int| 0 <= m < x.len() && x[m] == y[0];
        if k > 0 {
            assert(lex_lt(y[0], y[k]));
            if m > 0 {
                assert(lex_lt(x[0], x[m]));
                lemma_lex_asymmetric(x[0], y[0]);
            } else {
                lemma_lex_irreflexive(x[0]);
            }
        }
        assert(x[0] == y[0]);
        let xs = x.skip(1);
        let ys = y.skip(1);
        assert forall|i: int, j: int| 0 <= i < j < xs.len() implies lex_lt(
            #[trigger] xs[i],
            #[trigger] xs[j],
        ) by {
            assert(xs[i] == x[i + 1] && xs[j] == x[j + 1]);
        }
        assert forall|i: int, j: int| 0 <= i < j < ys.len() implies lex_lt(
            #[trigger] ys[i],
            #[trigger] ys[j],
        ) by {
            assert(ys[i] == y[i + 1] && ys[j] == y[j + 1]);
        }
        assert forall|n: Seq<char>| xs.contains(n) <==> ys.contains(n) by {
            lemma_lex_irreflexive(n);
            if xs.contains(n) {
                let i = choose|i: int| 0 <= i < xs.len() && xs[i] == n;
                assert(x[i + 1] == n);
                assert(x.contains(n));
                let j = choose|j: int| 0 <= j < y.len() && y[j] == n;
                assert(lex_lt(x[0], x[i + 1]));
                assert(ys[j - 1] == n);
            }
            if ys.contains(n) {
                let i = choose|i: int| 0 <= i < ys.len() && ys[i] == n;
                assert(y[i + 1] == n);
                assert(y.contains(n));
                let j = choose|j: int| 0 <= j < x.len() && x[j] == n;
                assert(lex_lt(y[0], y[i + 1]));
                assert(xs[j - 1] == n);
            }
        }
        lemma_increasing_unique(xs, ys);
        assert(x =~= seq![x[0]] + xs);
        assert(y =~= seq![y[0]] + ys);
    }
}

/// The names of a catalog of `input` are the names of the listed records
/// of `input`, each once, in increasing order.
pub proof fn lemma_catalog_names(cat: Seq<RecordView>, input: Seq<RecordView>)
    requires
        is_catalog_of(cat, input),
    ensures
        strictly_increasing(names_of(cat)),
        names_of(cat).no_duplicates(),
        forall|n: Seq<char>| names_of(cat).contains(n) <==> has_listed_name(input, n),
{
    let names = names_of(cat);
    assert forall|i: int, j: int| 0 <= i < j < names.len() implies lex_lt(
        #[trigger] names[i],
        #[trigger] names[j],
    ) by {
        assert(lex_lt(cat[i].name, cat[j].name));
    }
    assert forall|i: int, j: int| 0 <= i < names.len() && 0 <= j < names.len() && i != j implies names[i]
        != names[j] by {
        if names[i] == names[j] {
            lemma_sorted_names_differ(cat, i, j);
        }
    }
    assert forall|n: Seq<char>| names.contains(n) <==> has_listed_name(input, n) by {
        if names.contains(n) {
            let i = choose|i: int| 0 <= i < names.len() && names[i] == n;
            assert(is_survivor(input, cat[i]));
            let j = choose|j: int| is_first_listed(input, j) && #[trigger] input[j] == cat[i];
            assert(is_listed(input[j]) && input[j].name == n);
        }
        if has_listed_name(input, n) {
            let j = choose|j: int|
                0 <= j < input.len() && is_listed(#[trigger] input[j]) && input[j].name == n;
            assert(names.contains(input[j].name));
        }
    }
}

/// Of the records with one name a catalog holds exactly one: where a
/// listed record of the input bears `name`, one record of the catalog bears
/// it, and no second one.
pub proof fn lemma_one_record_per_name(cat: Seq<RecordView>, input: Seq<RecordView>, name: Seq<char>)
    requires
        is_catalog_of(cat, input),
        has_listed_name(input, name),
    ensures
        exists|i: int| 0 <= i < cat.len() && (#[trigger] cat[i]).name == name,
        forall|i: int, j: int|
            0 <= i < cat.len() && 0 <= j < cat.len() && (#[trigger] cat[i]).name == name
                && (#[trigger] cat[j]).name == name ==> i == j,
{
    lemma_catalog_names(cat, input);
    assert(names_of(cat).contains(name));
    let i = choose|i: int| 0 <= i < names_of(cat).len() && names_of(cat)[i] == name;
    assert(cat[i].name == name);
    assert forall|i: int, j: int|
        0 <= i < cat.len() && 0 <= j < cat.len() && (#[trigger] cat[i]).name == name
            && (#[trigger] cat[j]).name == name implies i == j by {
        lemma_sorted_names_differ(cat, i, j);
    }
}

/// An input has one catalog only.
pub proof fn lemma_catalog_unique(a: Seq<RecordView>, b: Seq<RecordView>, input: Seq<RecordView>)
    requires
        is_catalog_of(a, input),
        is_catalog_of(b, input),
    ensures
        a == b,
{
    lemma_catalog_names(a, input);
    lemma_catalog_names(b, input);
    lemma_increasing_unique(names_of(a), names_of(b));
    assert(a.len() == names_of(a).len() && b.len() == names_of(b).len());
    assert forall|i: int| 0 <= i < a.len() implies a[i] == b[i] by {
        assert(names_of(a)[i] == names_of(b)[i]);
        assert(is_survivor(input, a[i]));
        assert(is_survivor(input, b[i]));
        let j = choose|j: int| is_first_listed(input, j) && #[trigger] input[j] == a[i];
        let k = choose|k: int| is_first_listed(input, k) && #[trigger] input[k] == b[i];
        if j < k {
            assert(is_listed(input[j]));
        } else if k < j {
            assert(is_listed(input[k]));
        }
    }
    assert(a =~= b);
}

/// The order of the input does not decide which names a catalog holds, nor
/// their order: the catalogs of two inputs with the same records have the
/// same names.
pub proof fn lemma_names_of_rearranged_input(
    a: Seq<RecordView>,
    b: Seq<RecordView>,
    input_a: Seq<RecordView>,
    input_b: Seq<RecordView>,
)
    requires
        is_catalog_of(a, input_a),
        is_catalog_of(b, input_b),
        input_a.to_multiset() == input_b.to_multiset(),
    ensures
        names_of(a) == names_of(b),
{
    lemma_catalog_names(a, input_a);
    lemma_catalog_names(b, input_b);
    assert forall|n: Seq<char>| names_of(a).contains(n) <==> names_of(b).contains(n) by {
        if has_listed_name(input_a, n) {
            lemma_same_listed_names(input_a, input_b, n);
        }
        if has_listed_name(input_b, n) {
            lemma_same_listed_names(input_b, input_a, n);
        }
    }
    lemma_increasing_unique(names_of(a), names_of(b));
}

proof fn lemma_same_listed_names(x: Seq<RecordView>, y: Seq<RecordView>, n: Seq<char>)
    requires
        x.to_multiset() == y.to_multiset(),
        has_listed_name(x, n),
    ensures
        has_listed_name(y, n),
{
    let j = choose|j: int| 0 <= j < x.len() && is_listed(#[trigger] x[j]) && x[j].name == n;
    assert(x.contains(x[j]));
    vstd::seq_lib::to_multiset_contains(x, x[j]);
    vstd::seq_lib::to_multiset_contains(y, x[j]);
    assert(y.contains(x[j]));
    let k = choose|k: int| 0 <= k < y.len() && y[k] == x[j];
    assert(is_listed(y[k]) && y[k].name == n);
}

/// Where no two different listed records share a name, the order of the
/// input does not decide the catalog at all.
pub proof fn lemma_catalog_of_rearranged_input(
    a: Seq<RecordView>,
    b: Seq<RecordView>,
    input_a: Seq<RecordView>,
    input_b: Seq<RecordView>,
)
    requires
        is_catalog_of(a, input_a),
        is_catalog_of(b, input_b),
        input_a.to_multiset() == input_b.to_multiset(),
        forall|i: int, j: int|
            0 <= i < input_a.len() && 0 <= j < input_a.len() && is_listed(#[trigger] input_a[i])
                && is_listed(#[trigger] input_a[j]) && input_a[i].name == input_a[j].name
                ==> input_a[i] == input_a[j],
    ensures
        a == b,
{
    lemma_names_of_rearranged_input(a, b, input_a, input_b);
    assert(a.len() == names_of(a).len() && b.len() == names_of(b).len());
    assert forall|i: int| 0 <= i < a.len() implies a[i] == b[i] by {
        assert(names_of(a)[i] == names_of(b)[i]);
        assert(is_survivor(input_a, a[i]));
        assert(is_survivor(input_b, b[i]));
        let j = choose|j: int| is_first_listed(input_a, j) && #[trigger] input_a[j] == a[i];
        let k = choose|k: int| is_first_listed(input_b, k) && #[trigger] input_b[k] == b[i];
        assert(input_b.contains(input_b[k]));
        vstd::seq_lib::to_multiset_contains(input_b, b[i]);
        vstd::seq_lib::to_multiset_contains(input_a, b[i]);
        assert(input_a.contains(b[i]));
        let m = choose|m: int| 0 <= m < input_a.len() && input_a[m] == b[i];
        assert(is_listed(input_a[m]) && is_listed(input_a[j]));
    }
    assert(a =~= b);
}

/// The displayed applications, sorted by name, each name once.
pub struct Catalog {
    records: Vec<ShortcutRecord>,
}

impl View for Catalog {
    type V = Seq<RecordView>;

    closed spec fn view(&self) -> Seq<RecordView> {
        views(self.records@)
    }
}

impl Catalog {
    #[verifier::type_invariant]
    spec fn well_formed(self) -> bool {
        is_catalog(views(self.records@))
    }

    /// The catalog of `records`: those that are neither hidden nor of a
    /// terminal application, sorted by name. Of several with one name the
    /// first of `records` stays.
    pub fn from_records(records: &Vec<ShortcutRecord>) -> (c: Self)
        ensures
            is_catalog_of(c@, views(records@)),
            is_catalog(c@),
    {
        let ghost input = views(records@);
        let mut out: Vec<ShortcutRecord> = Vec::new();
        let mut t: usize = 0;
        assert(is_catalog_of(views(out@), input.take(0))) by {
            assert(views(out@).len() == 0);
            assert(input.take(0).len() == 0);
        }
        while t < records.len()
            invariant
                t <= records.len(),
                input == views(records@),
                is_catalog_of(views(out@), input.take(t as int)),
            decreases records.len() - t,
        {
            let r = &records[t];
            let ghost done = input.take(t as int);
            let ghost cat = views(out@);
            assert(input.take(t + 1) =~= done.push(r@));
            if !r.is_listed() {
                proof {
                    lemma_extend_unlisted(cat, done, r@);
                }
            } else {
                let mut p: usize = 0;
                while p < out.len() && name_before(out[p].name.as_str(), r.name.as_str())
                    invariant
                        p <= out.len(),
                        cat == views(out@),
                        forall|i: int| 0 <= i < p ==> lex_lt(#[trigger] cat[i].name, r@.name),
                    decreases out.len() - p,
                {
                    assert(cat[p as int].name == out@[p as int].name@);
                    p = p + 1;
                }
                if p < out.len() && out[p].name == r.name {
                    proof {
                        assert(cat[p as int].name == r@.name);
                        lemma_extend_duplicate(cat, done, r@, p as int);
                    }
                } else {
                    proof {
                        assert forall|i: int| p <= i < cat.len() implies lex_lt(
                            r@.name,
                            #[trigger] cat[i].name,
                        ) by {
                            assert(cat[p as int].name == out@[p as int].name@);
                            lemma_lex_connected(cat[p as int].name, r@.name);
                            if i > p {
                                assert(lex_lt(cat[p as int].name, cat[i].name));
                                lemma_lex_transitive(r@.name, cat[p as int].name, cat[i].name);
                            }
                        }
                        lemma_extend_insert(cat, done, r@, p as int);
                    }
                    let copy = r.clone();
                    out.insert(p, copy);
                    assert(views(out@) =~= cat.insert(p as int, r@));
                }
            }
            t = t + 1;
        }
        assert(input.take(records.len() as int) =~= input);
        proof {
            lemma_catalog_of_is_catalog(views(out@), input);
        }
        Catalog { records: out }
    }

    /// The records, in the order of their names.
    pub fn records(&self) -> (r: &Vec<ShortcutRecord>)
        ensures
            views(r@) == self@,
            is_catalog(self@),
    {
        proof {
            use_type_invariant(self);
        }
        &self.records
    }

    /// The number of records.
    pub fn len(&self) -> (n: usize)
        ensures
            n == self@.len(),
    {
        self.records.len()
    }

    /// The record with the name `name`, if there is one.
    pub fn find(&self, name: &str) -> (r: Option<&ShortcutRecord>)
        ensures
            match r {
                Some(rec) => self@.contains(rec@) && rec@.name == name@,
                None => !names_of(self@).contains(name@),
            },
    {
        let key = name.to_owned();
        let mut i: usize = 0;
        while i < self.records.len()
            invariant
                i <= self.records.len(),
                key@ == name@,
                forall|k: int| 0 <= k < i ==> names_of(self@)[k] != name@,
            decreases self.records.len() - i,
        {
            if self.records[i].name == key {
                assert(self@[i as int] == self.records@[i as int]@);
                return Some(&self.records[i]);
            }
            i = i + 1;
        }
        None
    }
}

} // verus!
