use vstd::prelude::*;
use crate::weight::Date;

verus! {

/// The review history of one note.
#[derive(Clone, Debug)]
pub struct ReviewRecord {
    pub name: String,
    pub last_reviewed: Option<Date>,
    pub review_count: u32,
}

/// What the history says of one note: its last review date and its review count.
pub type Entry = (Option<Date>, u32);

pub open spec fn entry_of(r: ReviewRecord) -> Entry {
    (r.last_reviewed, r.review_count)
}

pub open spec fn has_name(s: Seq<ReviewRecord>, k: Seq<char>) -> bool {
    exists|i: int| 0 <= i < s.len() && #[trigger] s[i].name@ == k
}

pub open spec fn distinct_names(s: Seq<ReviewRecord>) -> bool {
    forall|i: int, j: int| 0 <= i < s.len() && 0 <= j < s.len() && i != j
        ==> #[trigger] s[i].name@ != #[trigger] s[j].name@
}

/// The history held by a sequence of records with distinct names, keyed by name.
pub open spec fn records_map(s: Seq<ReviewRecord>) -> Map<Seq<char>, Entry> {
    Map::new(
        |k: Seq<char>| has_name(s, k),
        |k: Seq<char>| entry_of(s[choose|i: int| 0 <= i < s.len() && #[trigger] s[i].name@ == k]),
    )
}

/// The history after a review of note `k` on `today`: its count goes up by one and its
/// date becomes `today`; a note without history gets a first entry.
pub open spec fn recorded(m: Map<Seq<char>, Entry>, k: Seq<char>, today: Date) -> Map<Seq<char>, Entry> {
    let count: u32 = if m.contains_key(k) { (m[k].1 + 1) as u32 } else { 1 };
    m.insert(k, (Some(today), count))
}

/// A review can be recorded without the count overflowing.
pub open spec fn can_record(m: Map<Seq<char>, Entry>, k: Seq<char>) -> bool {
    m.contains_key(k) ==> m[k].1 < u32::MAX
}

/// The history after reviews of the notes `ks`, in that order, all on `today`.
pub open spec fn recorded_all(m: Map<Seq<char>, Entry>, ks: Seq<Seq<char>>, today: Date) -> Map<Seq<char>, Entry>
    decreases ks.len(),
{
    if ks.len() == 0 {
        m
    } else {
        recorded(recorded_all(m, ks.drop_last(), today), ks.last(), today)
    }
}

/// The history of note `k` after reviews on the `days`, one after the other.
pub open spec fn reviewed_on(m: Map<Seq<char>, Entry>, k: Seq<char>, days: Seq<Date>) -> Map<Seq<char>, Entry>
    decreases days.len(),
{
    if days.len() == 0 {
        m
    } else {
        recorded(reviewed_on(m, k, days.drop_last()), k, days.last())
    }
}

/// Reviewing a note without history on `n` days leaves it with `n` reviews and the
/// last of those days as its date; the other notes keep their history.
pub proof fn lemma_repeated_reviews(m: Map<Seq<char>, Entry>, k: Seq<char>, days: Seq<Date>)
    requires
        !m.contains_key(k),
        days.len() <= u32::MAX,
    ensures
        days.len() > 0 ==> reviewed_on(m, k, days).contains_key(k)
            && reviewed_on(m, k, days)[k] == (Some(days.last()), days.len() as u32),
        days.len() == 0 ==> reviewed_on(m, k, days) == m,
        forall|j: Seq<char>| j != k ==> #[trigger] reviewed_on(m, k, days).contains_key(j)
            == m.contains_key(j),
        forall|j: Seq<char>| j != k && m.contains_key(j) ==> #[trigger] reviewed_on(m, k, days)[j]
            == m[j],
    decreases days.len(),
{
    if days.len() > 0 {
        lemma_repeated_reviews(m, k, days.drop_last());
    }
}

/// Records with distinct names, put in any other order (as when they are written out
/// sorted and read back), hold the same history, still one record per name.
pub proof fn lemma_round_trip(s: Seq<ReviewRecord>, t: Seq<ReviewRecord>)
    requires
        distinct_names(s),
        t.to_multiset() == s.to_multiset(),
    ensures
        distinct_names(t),
        records_map(t) == records_map(s),
{
    broadcast use vstd::seq_lib::to_multiset_contains;
    assert(s.no_duplicates()) by {
        assert forall|a: int, b: int| 0 <= a < s.len() && 0 <= b < s.len() && a != b
            implies s[a] != s[b] by {
            assert(s[a].name@ != s[b].name@);
        }
    }
    s.lemma_multiset_has_no_duplicates();
    t.lemma_multiset_has_no_duplicates_conv();
    assert forall|a: int, b: int| 0 <= a < t.len() && 0 <= b < t.len() && a != b
        implies #[trigger] t[a].name@ != #[trigger] t[b].name@ by {
        assert(t.to_multiset().count(t[a]) > 0);
        assert(t.to_multiset().count(t[b]) > 0);
        let i = choose|i: int| 0 <= i < s.len() && s[i] == t[a];
        let j = choose|j: int| 0 <= j < s.len() && s[j] == t[b];
        assert(t[a] != t[b]);
    }
    assert forall|k: Seq<char>| #[trigger] has_name(t, k) == has_name(s, k) by {
        if has_name(t, k) {
            let a = choose|a: int| 0 <= a < t.len() && #[trigger] t[a].name@ == k;
            assert(t.to_multiset().count(t[a]) > 0);
            let i = choose|i: int| 0 <= i < s.len() && s[i] == t[a];
            assert(s[i].name@ == k);
        }
        if has_name(s, k) {
            let i = choose|i: int| 0 <= i < s.len() && #[trigger] s[i].name@ == k;
            assert(s.to_multiset().count(s[i]) > 0);
            let a = choose|a: int| 0 <= a < t.len() && t[a] == s[i];
            assert(t[a].name@ == k);
        }
    }
    assert forall|k: Seq<char>| #[trigger] records_map(t).contains_key(k)
        implies records_map(t)[k] == records_map(s)[k] by {
        let a = choose|a: int| 0 <= a < t.len() && #[trigger] t[a].name@ == k;
        assert(t.to_multiset().count(t[a]) > 0);
        let i = choose|i: int| 0 <= i < s.len() && s[i] == t[a];
        lemma_records_map_at(t, a);
        lemma_records_map_at(s, i);
    }
    assert(records_map(t) =~= records_map(s));
}

/// Reviews of distinct notes leave every other note as it was.
proof fn lemma_recorded_all_elsewhere(m: Map<Seq<char>, Entry>, ks: Seq<Seq<char>>, today: Date, j: Seq<char>)
    requires
        !ks.contains(j),
    ensures
        recorded_all(m, ks, today).contains_key(j) == m.contains_key(j),
        m.contains_key(j) ==> recorded_all(m, ks, today)[j] == m[j],
    decreases ks.len(),
{
    if ks.len() > 0 {
        assert(!ks.drop_last().contains(j)) by {
            if ks.drop_last().contains(j) {
                let i = choose|i: int| 0 <= i < ks.len() - 1 && ks.drop_last()[i] == j;
                assert(ks[i] == j);
            }
        }
        assert(ks[ks.len() - 1] != j);
        lemma_recorded_all_elsewhere(m, ks.drop_last(), today, j);
    }
}

proof fn lemma_records_map_at(s: Seq<ReviewRecord>, i: int)
    requires
        distinct_names(s),
        0 <= i < s.len(),
    ensures
        records_map(s).contains_key(s[i].name@),
        records_map(s)[s[i].name@] == entry_of(s[i]),
{
    let k = s[i].name@;
    assert(has_name(s, k));
    let j = choose|j: int| 0 <= j < s.len() && #[trigger] s[j].name@ == k;
    assert(s[j].name@ == s[i].name@);
}

proof fn lemma_has_name_push(s: Seq<ReviewRecord>, r: ReviewRecord)
    ensures
        forall|k: Seq<char>| #[trigger] has_name(s.push(r), k) == (has_name(s, k) || k == r.name@),
{
    assert forall|k: Seq<char>| #[trigger] has_name(s.push(r), k) == (has_name(s, k) || k == r.name@) by {
        if has_name(s, k) {
            let j = choose|j: int| 0 <= j < s.len() && #[trigger] s[j].name@ == k;
            assert(s.push(r)[j].name@ == k);
        }
        if k == r.name@ {
            assert(s.push(r)[s.len() as int].name@ == k);
        }
        if has_name(s.push(r), k) {
            let j = choose|j: int| 0 <= j < s.len() + 1 && #[trigger] s.push(r)[j].name@ == k;
            if j < s.len() {
                assert(s[j].name@ == k);
            }
        }
    }
}

proof fn lemma_records_map_update(s: Seq<ReviewRecord>, i: int, r: ReviewRecord)
    requires
        distinct_names(s),
        0 <= i < s.len(),
        r.name@ == s[i].name@,
    ensures
        distinct_names(s.update(i, r)),
        records_map(s.update(i, r)) == records_map(s).insert(r.name@, entry_of(r)),
{
    let t = s.update(i, r);
    assert(distinct_names(t)) by {
        assert forall|a: int, b: int| 0 <= a < t.len() && 0 <= b < t.len() && a != b
            implies #[trigger] t[a].name@ != #[trigger] t[b].name@ by {
            assert(t[a].name@ == s[a].name@);
            assert(t[b].name@ == s[b].name@);
        }
    }
    let m = records_map(s).insert(r.name@, entry_of(r));
    assert forall|k: Seq<char>| #[trigger] records_map(t).contains_key(k) == m.contains_key(k) by {
        if has_name(t, k) {
            let j = choose|j: int| 0 <= j < t.len() && #[trigger] t[j].name@ == k;
            assert(s[j].name@ == t[j].name@);
        }
        if has_name(s, k) {
            let j = choose|j: int| 0 <= j < s.len() && #[trigger] s[j].name@ == k;
            assert(s[j].name@ == t[j].name@);
        }
        if k == r.name@ {
            assert(t[i].name@ == k);
        }
    }
    assert forall|k: Seq<char>| #[trigger] records_map(t).contains_key(k)
        implies records_map(t)[k] == m[k] by {
        let j = choose|j: int| 0 <= j < t.len() && #[trigger] t[j].name@ == k;
        lemma_records_map_at(t, j);
        if j != i {
            assert(s[j].name@ == t[j].name@);
            lemma_records_map_at(s, j);
        }
    }
    assert(records_map(t) =~= m);
}

proof fn lemma_records_map_push(s: Seq<ReviewRecord>, r: ReviewRecord)
    requires
        distinct_names(s),
        !has_name(s, r.name@),
    ensures
        distinct_names(s.push(r)),
        records_map(s.push(r)) == records_map(s).insert(r.name@, entry_of(r)),
{
    let t = s.push(r);
    assert(distinct_names(t)) by {
        assert forall|a: int, b: int| 0 <= a < t.len() && 0 <= b < t.len() && a != b
            implies #[trigger] t[a].name@ != #[trigger] t[b].name@ by {
            if a == s.len() {
                assert(s[b].name@ == t[b].name@);
            } else if b == s.len() {
                assert(s[a].name@ == t[a].name@);
            } else {
                assert(s[a].name@ == t[a].name@);
                assert(s[b].name@ == t[b].name@);
            }
        }
    }
    let m = records_map(s).insert(r.name@, entry_of(r));
    assert forall|k: Seq<char>| #[trigger] records_map(t).contains_key(k) == m.contains_key(k) by {
        if has_name(t, k) {
            let j = choose|j: int| 0 <= j < t.len() && #[trigger] t[j].name@ == k;
            if j < s.len() {
                assert(s[j].name@ == t[j].name@);
            }
        }
        if has_name(s, k) {
            let j = choose|j: int| 0 <= j < s.len() && #[trigger] s[j].name@ == k;
            assert(s[j].name@ == t[j].name@);
        }
        if k == r.name@ {
            assert(t[s.len() as int].name@ == k);
        }
    }
    assert forall|k: Seq<char>| #[trigger] records_map(t).contains_key(k)
        implies records_map(t)[k] == m[k] by {
        let j = choose|j: int| 0 <= j < t.len() && #[trigger] t[j].name@ == k;
        lemma_records_map_at(t, j);
        if j < s.len() {
            assert(s[j].name@ == t[j].name@);
            lemma_records_map_at(s, j);
        }
    }
    assert(records_map(t) =~= m);
}

/// The review history of all notes, at most one record per name.
pub struct Store {
    records: Vec<ReviewRecord>,
}

impl View for Store {
    type V = Map<Seq<char>, Entry>;

    closed spec fn view(&self) -> Map<Seq<char>, Entry> {
        records_map(self.records@)
    }
}

impl ReviewRecord {
    /// A copy of this record.
    pub fn duplicate(&self) -> (r: ReviewRecord)
        ensures
            r == *self,
    {
        ReviewRecord {
            name: self.name.clone(),
            last_reviewed: self.last_reviewed,
            review_count: self.review_count,
        }
    }
}

impl Store {
    pub closed spec fn wf(&self) -> bool {
        distinct_names(self.records@)
    }

    /// An empty history.
    pub fn new() -> (r: Store)
        ensures
            r.wf(),
            r@ == Map::<Seq<char>, Entry>::empty(),
    {
        let r = Store { records: Vec::new() };
        assert(r@ =~= Map::<Seq<char>, Entry>::empty());
        r
    }

    /// The history held by `records`, where the first record of each name counts and
    /// later ones with the same name are dropped.
    pub fn from_records(records: Vec<ReviewRecord>) -> (r: Store)
        ensures
            r.wf(),
            forall|k: Seq<char>| #[trigger] r@.contains_key(k) == has_name(records@, k),
            forall|i: int| 0 <= i < records@.len()
                && (forall|j: int| 0 <= j < i ==> records@[j].name@ != records@[i].name@)
                ==> r@[#[trigger] records@[i].name@] == entry_of(records@[i]),
            distinct_names(records@) ==> r@ == records_map(records@),
    {
        let mut store = Store::new();
        let mut i: usize = 0;
        while i < records.len()
            invariant
                i <= records@.len(),
                store.wf(),
                forall|k: Seq<char>| #[trigger] store@.contains_key(k)
                    == has_name(records@.take(i as int), k),
                forall|a: int| 0 <= a < i
                    && (forall|j: int| 0 <= j < a ==> records@[j].name@ != records@[a].name@)
                    ==> store@[#[trigger] records@[a].name@] == entry_of(records@[a]),
            decreases records@.len() - i,
        {
            let r = records[i].duplicate();
            let ghost s = records@.take(i as int);
            let ghost before = store@;
            proof {
                assert(records@.take(i + 1) =~= s.push(r));
                lemma_has_name_push(s, r);
            }
            store.add_if_absent(r);
            proof {
                assert forall|a: int| 0 <= a < i + 1
                    && (forall|j: int| 0 <= j < a ==> records@[j].name@ != records@[a].name@)
                    implies store@[#[trigger] records@[a].name@] == entry_of(records@[a]) by {
                    if a < i {
                        assert(has_name(s, records@[a].name@)) by {
                            assert(s[a].name@ == records@[a].name@);
                        }
                        assert(before.contains_key(records@[a].name@));
                    } else if has_name(s, r.name@) {
                        let j = choose|j: int| 0 <= j < s.len() && #[trigger] s[j].name@ == r.name@;
                        assert(records@[j].name@ == records@[a].name@);
                    }
                }
            }
            i = i + 1;
        }
        proof {
            assert(records@.take(records@.len() as int) =~= records@);
            if distinct_names(records@) {
                assert forall|k: Seq<char>| #[trigger] store@.contains_key(k)
                    implies store@[k] == records_map(records@)[k] by {
                    let j = choose|j: int| 0 <= j < records@.len() && #[trigger] records@[j].name@ == k;
                    lemma_records_map_at(records@, j);
                }
                assert(store@ =~= records_map(records@));
            }
        }
        store
    }

    /// Adds record `r` unless a record of its name is there already.
    fn add_if_absent(&mut self, r: ReviewRecord)
        requires
            old(self).wf(),
        ensures
            final(self).wf(),
            final(self)@ == (if old(self)@.contains_key(r.name@) { old(self)@ } else {
                old(self)@.insert(r.name@, entry_of(r))
            }),
    {
        match self.position(r.name.as_str()) {
            Some(p) => {
                proof { lemma_records_map_at(self.records@, p as int); }
            },
            None => {
                proof { lemma_records_map_push(self.records@, r); }
                self.records.push(r);
            },
        }
    }

    /// Position of the record named `name`, if there is one.
    fn position(&self, name: &str) -> (r: Option<usize>)
        requires
            self.wf(),
        ensures
            match r {
                Some(i) => i < self.records@.len() && self.records@[i as int].name@ == name@,
                None => !has_name(self.records@, name@),
            },
    {
        let mut i: usize = 0;
        while i < self.records.len()
            invariant
                i <= self.records@.len(),
                forall|j: int| 0 <= j < i ==> #[trigger] self.records@[j].name@ != name@,
            decreases self.records@.len() - i,
        {
            if str_equal(self.records[i].name.as_str(), name) {
                return Some(i);
            }
            i = i + 1;
        }
        None
    }

    /// The history of note `name`: its last review date and its review count.
    pub fn get(&self, name: &str) -> (r: Option<Entry>)
        requires
            self.wf(),
        ensures
            r == (if self@.contains_key(name@) { Some(self@[name@]) } else { None::<Entry> }),
    {
        match self.position(name) {
            Some(i) => {
                proof { lemma_records_map_at(self.records@, i as int); }
                Some((self.records[i].last_reviewed, self.records[i].review_count))
            },
            None => None,
        }
    }

    /// Records a review of note `name` on `today`: an existing record gets one more
    /// review and `today` as its date; a note without history gets a record with one
    /// review.
    pub fn modify(&mut self, name: &str, today: Date)
        requires
            old(self).wf(),
            can_record(old(self)@, name@),
        ensures
            final(self).wf(),
            final(self)@ == recorded(old(self)@, name@, today),
    {
        match self.position(name) {
            Some(i) => {
                proof { lemma_records_map_at(self.records@, i as int); }
                let count = self.records[i].review_count + 1;
                let r = ReviewRecord {
                    name: self.records[i].name.clone(),
                    last_reviewed: Some(today),
                    review_count: count,
                };
                proof { lemma_records_map_update(self.records@, i as int, r); }
                self.records.set(i, r);
            },
            None => {
                let r = ReviewRecord {
                    name: String::from_str(name),
                    last_reviewed: Some(today),
                    review_count: 1,
                };
                proof { lemma_records_map_push(self.records@, r); }
                self.records.push(r);
            },
        }
    }
}

impl Store {
    /// Records a review on `today` of each note in `names`, which are distinct.
    pub fn record_reviews(&mut self, names: &Vec<String>, today: Date)
        requires
            old(self).wf(),
            forall|a: int, b: int| 0 <= a < names@.len() && 0 <= b < names@.len() && a != b
                ==> names@[a]@ != names@[b]@,
            forall|a: int| 0 <= a < names@.len() ==> can_record(old(self)@, #[trigger] names@[a]@),
        ensures
            final(self).wf(),
            final(self)@ == recorded_all(old(self)@, names@.map_values(|s: String| s@), today),
    {
        let ghost start = self@;
        let ghost ks = names@.map_values(|s: String| s@);
        let mut i: usize = 0;
        while i < names.len()
            invariant
                i <= names@.len(),
                self.wf(),
                ks == names@.map_values(|s: String| s@),
                forall|a: int, b: int| 0 <= a < names@.len() && 0 <= b < names@.len() && a != b
                    ==> names@[a]@ != names@[b]@,
                forall|a: int| 0 <= a < names@.len() ==> can_record(start, #[trigger] names@[a]@),
                self@ == recorded_all(start, ks.take(i as int), today),
            decreases names@.len() - i,
        {
            proof {
                assert(!ks.take(i as int).contains(ks[i as int])) by {
                    if ks.take(i as int).contains(ks[i as int]) {
                        let a = choose|a: int| 0 <= a < i && ks.take(i as int)[a] == ks[i as int];
                        assert(names@[a]@ == names@[i as int]@);
                    }
                }
                lemma_recorded_all_elsewhere(start, ks.take(i as int), today, ks[i as int]);
                assert(can_record(start, names@[i as int]@));
                assert(ks.take(i + 1).drop_last() =~= ks.take(i as int));
            }
            self.modify(names[i].as_str(), today);
            i = i + 1;
        }
        assert(ks.take(names@.len() as int) =~= ks);
    }
}

/// The history to write back after a run that reviewed `names` on `today`: none in
/// a dry run, which leaves the stored history as it was.
pub fn history_to_save(store: Store, names: &Vec<String>, today: Date, dry: bool) -> (r: Option<Store>)
    requires
        store.wf(),
        forall|a: int, b: int| 0 <= a < names@.len() && 0 <= b < names@.len() && a != b
            ==> names@[a]@ != names@[b]@,
        !dry ==> forall|a: int| 0 <= a < names@.len() ==> can_record(store@, #[trigger] names@[a]@),
    ensures
        dry ==> r is None,
        !dry ==> (r matches Some(s) && s.wf()
            && s@ == recorded_all(store@, names@.map_values(|s: String| s@), today)),
{
    if dry {
        return None;
    }
    let mut s = store;
    s.record_reviews(names, today);
    Some(s)
}

/// Text `a` comes strictly before text `b` in lexicographic order of characters.
pub open spec fn text_less(a: Seq<char>, b: Seq<char>) -> bool
    decreases a.len(),
{
    if b.len() == 0 {
        false
    } else if a.len() == 0 {
        true
    } else if a[0] != b[0] {
        (a[0] as int) < (b[0] as int)
    } else {
        text_less(a.drop_first(), b.drop_first())
    }
}

/// The records are in strictly increasing order of name.
pub open spec fn sorted_by_name(s: Seq<ReviewRecord>) -> bool {
    forall|a: int, b: int| 0 <= a < b < s.len() ==> text_less(s[a].name@, s[b].name@)
}

proof fn lemma_text_less_trans(a: Seq<char>, b: Seq<char>, c: Seq<char>)
    requires
        text_less(a, b),
        text_less(b, c),
    ensures
        text_less(a, c),
    decreases a.len(),
{
    if a.len() > 0 && a[0] == b[0] && b[0] == c[0] {
        lemma_text_less_trans(a.drop_first(), b.drop_first(), c.drop_first());
    }
}

proof fn lemma_text_less_total(a: Seq<char>, b: Seq<char>)
    requires
        a != b,
    ensures
        text_less(a, b) || text_less(b, a),
    decreases a.len(),
{
    if a.len() > 0 && b.len() > 0 && a[0] == b[0] {
        assert(a.drop_first() != b.drop_first()) by {
            if a.drop_first() == b.drop_first() {
                assert(a =~= seq![a[0]] + a.drop_first());
                assert(b =~= seq![b[0]] + b.drop_first());
            }
        }
        lemma_text_less_total(a.drop_first(), b.drop_first());
    } else if a.len() == 0 && b.len() == 0 {
        assert(a =~= b);
    } else if a.len() > 0 && b.len() > 0 && a[0] != b[0] {
        assert((a[0] as int) != (b[0] as int));
    }
}

proof fn lemma_text_less_skip(a: Seq<char>, b: Seq<char>, i: int)
    requires
        0 <= i <= a.len(),
        i <= b.len(),
        a.take(i) == b.take(i),
    ensures
        text_less(a, b) == text_less(a.skip(i), b.skip(i)),
    decreases i,
{
    if i > 0 {
        assert(a[0] == a.take(i)[0]);
        assert(b[0] == b.take(i)[0]);
        assert(a.drop_first().take(i - 1) =~= a.take(i).drop_first());
        assert(b.drop_first().take(i - 1) =~= b.take(i).drop_first());
        lemma_text_less_skip(a.drop_first(), b.drop_first(), i - 1);
        assert(a.drop_first().skip(i - 1) =~= a.skip(i));
        assert(b.drop_first().skip(i - 1) =~= b.skip(i));
    } else {
        assert(a.skip(0) =~= a);
        assert(b.skip(0) =~= b);
    }
}

/// Whether text `a` comes strictly before text `b`, character by character.
pub fn text_before(a: &str, b: &str) -> (r: bool)
    ensures
        r == text_less(a@, b@),
{
    let n = a.unicode_len();
    let m = b.unicode_len();
    let mut i: usize = 0;
    while i < n && i < m
        invariant
            n == a@.len(),
            m == b@.len(),
            i <= n,
            i <= m,
            a@.take(i as int) == b@.take(i as int),
        decreases n - i,
    {
        let x = a.get_char(i);
        let y = b.get_char(i);
        if x != y {
            proof {
                lemma_text_less_skip(a@, b@, i as int);
                assert(a@.skip(i as int)[0] == x);
                assert(b@.skip(i as int)[0] == y);
            }
            return (x as u32) < (y as u32);
        }
        assert(a@.take(i + 1) =~= a@.take(i as int).push(x));
        assert(b@.take(i + 1) =~= b@.take(i as int).push(y));
        i = i + 1;
    }
    proof {
        lemma_text_less_skip(a@, b@, i as int);
    }
    i < m
}

impl Store {
    /// The records, one per note, in increasing order of name: the form in which the
    /// history is written out.
    pub fn records_by_name(&self) -> (r: Vec<ReviewRecord>)
        requires
            self.wf(),
        ensures
            distinct_names(r@),
            sorted_by_name(r@),
            records_map(r@) == self@,
    {
        let mut out: Vec<ReviewRecord> = Vec::new();
        let mut i: usize = 0;
        assert(self.records@.take(0) =~= Seq::<ReviewRecord>::empty());
        while i < self.records.len()
            invariant
                i <= self.records@.len(),
                distinct_names(self.records@),
                sorted_by_name(out@),
                out@.to_multiset() == self.records@.take(i as int).to_multiset(),
            decreases self.records@.len() - i,
        {
            let x = self.records[i].duplicate();
            proof {
                assert(distinct_names(self.records@.take(i as int))) by {
                    assert forall|a: int, b: int| 0 <= a < i && 0 <= b < i && a != b
                        implies #[trigger] self.records@.take(i as int)[a].name@
                            != #[trigger] self.records@.take(i as int)[b].name@ by {
                        assert(self.records@[a].name@ != self.records@[b].name@);
                    }
                }
                lemma_round_trip(self.records@.take(i as int), out@);
            }
            let mut p: usize = 0;
            while p < out.len() && !text_before(x.name.as_str(), out[p].name.as_str())
                invariant
                    p <= out@.len(),
                    forall|j: int| 0 <= j < p ==> !text_less(x.name@, #[trigger] out@[j].name@),
                decreases out@.len() - p,
            {
                p = p + 1;
            }
            proof {
                assert(forall|j: int| 0 <= j < out@.len() ==> out@[j].name@ != x.name@) by {
                    assert forall|j: int| 0 <= j < out@.len() implies out@[j].name@ != x.name@ by {
                        assert(has_name(out@, out@[j].name@));
                        assert(records_map(out@).contains_key(out@[j].name@));
                        assert(has_name(self.records@.take(i as int), out@[j].name@));
                        let k = choose|k: int| 0 <= k < i && #[trigger] self.records@.take(i as int)[k].name@ == out@[j].name@;
                        assert(self.records@[k].name@ == out@[j].name@);
                    }
                }
            }
            let ghost before = out@;
            out.insert(p, x);
            proof {
                assert forall|a: int, b: int| 0 <= a < b < out@.len()
                    implies text_less(out@[a].name@, out@[b].name@) by {
                    if b < p {
                        assert(out@[a] == before[a] && out@[b] == before[b]);
                    } else if b == p {
                        assert(out@[a] == before[a]);
                        lemma_text_less_total(before[a].name@, x.name@);
                    } else if a == p {
                        assert(out@[b] == before[b - 1]);
                        if b - 1 > p {
                            lemma_text_less_trans(x.name@, before[p as int].name@, before[b - 1].name@);
                        }
                    } else if a < p {
                        assert(out@[a] == before[a] && out@[b] == before[b - 1]);
                    } else {
                        assert(out@[a] == before[a - 1] && out@[b] == before[b - 1]);
                    }
                }
                vstd::seq_lib::to_multiset_insert(before, p as int, x);
                assert(self.records@.take(i + 1) =~= self.records@.take(i as int).push(x));
                vstd::seq_lib::to_multiset_build(self.records@.take(i as int), x);
            }
            i = i + 1;
        }
        proof {
            assert(self.records@.take(self.records@.len() as int) =~= self.records@);
            lemma_round_trip(self.records@, out@);
        }
        out
    }
}

/// Whether two strings hold the same characters.
pub fn str_equal(a: &str, b: &str) -> (r: bool)
    ensures
        r == (a@ == b@),
{
    let n = a.unicode_len();
    if n != b.unicode_len() {
        return false;
    }
    let mut i: usize = 0;
    while i < n
        invariant
            n == a@.len(),
            n == b@.len(),
            i <= n,
            a@.subrange(0, i as int) == b@.subrange(0, i as int),
        decreases n - i,
    {
        if a.get_char(i) != b.get_char(i) {
            return false;
        }
        assert(a@.subrange(0, i + 1) =~= a@.subrange(0, i as int).push(a@[i as int]));
        assert(b@.subrange(0, i + 1) =~= b@.subrange(0, i as int).push(b@[i as int]));
        i = i + 1;
    }
    assert(a@ =~= a@.subrange(0, n as int));
    assert(b@ =~= b@.subrange(0, n as int));
    true
}

} // verus!
