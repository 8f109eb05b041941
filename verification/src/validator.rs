//! The error collector: a mapping from field identifiers to diagnostic
//! messages, with merge, lookup, and builder-style construction.
//!
//! A collector is created empty at the start of one decode attempt, filled
//! with one message per failing field, and consumed when the attempt ends.
//! An empty collector means "no errors recorded".

use vstd::prelude::*;
use crate::pattern::{truncate_at_pat, truncate_msg};

verus! {

/// The entry list described by a list of string pairs.
pub open spec fn pairs_view(s: Seq<(String, String)>) -> Seq<(Seq<char>, Seq<char>)> {
    s.map_values(|p: (String, String)| (p.0@, p.1@))
}

/// There is an entry with key `k` among `es`.
pub open spec fn has_key(es: Seq<(Seq<char>, Seq<char>)>, k: Seq<char>) -> bool {
    exists|i: int| 0 <= i < es.len() && es[i].0 == k
}

/// The keys of `es` are pairwise distinct.
pub open spec fn wf_entries(es: Seq<(Seq<char>, Seq<char>)>) -> bool {
    forall|i: int, j: int| 0 <= i < j < es.len() ==> es[i].0 != es[j].0
}

/// The mapping described by an entry list; on a duplicated key the later
/// entry wins.
pub open spec fn map_of(es: Seq<(Seq<char>, Seq<char>)>) -> Map<Seq<char>, Seq<char>>
    decreases es.len()
{
    if es.len() == 0 {
        Map::empty()
    } else {
        map_of(es.drop_last()).insert(es.last().0, es.last().1)
    }
}

/// The position of the first entry with key `k` at or after `i`, if any.
pub open spec fn key_index_from(es: Seq<(Seq<char>, Seq<char>)>, k: Seq<char>, i: int) -> Option<int>
    decreases es.len() - i when i >= 0
{
    if i < 0 || i >= es.len() {
        None
    } else if es[i].0 == k {
        Some(i)
    } else {
        key_index_from(es, k, i + 1)
    }
}

/// Entry-level insertion: overwrite the first entry with key `k` in place,
/// or append a new entry when `k` is absent.
pub open spec fn spec_insert_entry(
    es: Seq<(Seq<char>, Seq<char>)>,
    k: Seq<char>,
    v: Seq<char>,
) -> Seq<(Seq<char>, Seq<char>)> {
    match key_index_from(es, k, 0) {
        Some(j) => es.update(j, (k, v)),
        None => es.push((k, v)),
    }
}

/// `key_index_from` finds exactly the first entry with key `k`.
pub proof fn lemma_key_index_from_correct(es: Seq<(Seq<char>, Seq<char>)>, k: Seq<char>, i: int)
    requires
        0 <= i,
    ensures
        match key_index_from(es, k, i) {
            Some(j) => i <= j < es.len() && es[j].0 == k && forall|l: int| i <= l < j ==> es[l].0 != k,
            None => forall|l: int| i <= l < es.len() ==> es[l].0 != k,
        },
    decreases es.len() - i
{
    if i < es.len() && es[i].0 != k {
        lemma_key_index_from_correct(es, k, i + 1);
    }
}

/// A key is in the mapping exactly when some entry carries it.
pub proof fn lemma_map_of_dom(es: Seq<(Seq<char>, Seq<char>)>)
    ensures
        forall|k: Seq<char>| #[trigger] map_of(es).dom().contains(k) <==> has_key(es, k),
    decreases es.len()
{
    if es.len() == 0 {
    } else {
        lemma_map_of_dom(es.drop_last());
        let dl = es.drop_last();
        assert(map_of(es) == map_of(dl).insert(es.last().0, es.last().1));
        assert forall|k: Seq<char>| #[trigger] map_of(es).dom().contains(k) <==> has_key(es, k) by {
            if map_of(es).dom().contains(k) {
                if k == es.last().0 {
                    assert(es[es.len() - 1].0 == k);
                } else {
                    assert(map_of(dl).dom().contains(k));
                    assert(has_key(dl, k));
                    let i = choose|i: int| 0 <= i < dl.len() && dl[i].0 == k;
                    assert(es[i].0 == k);
                }
            }
            if has_key(es, k) {
                let i = choose|i: int| 0 <= i < es.len() && es[i].0 == k;
                if i == es.len() - 1 {
                    assert(map_of(es).dom().contains(es.last().0));
                } else {
                    assert(dl[i].0 == k);
                    assert(has_key(dl, k));
                    assert(map_of(dl).dom().contains(k));
                }
            }
        }
    }
}

/// With distinct keys, each entry's key maps to that entry's message.
pub proof fn lemma_map_of_index(es: Seq<(Seq<char>, Seq<char>)>, i: int)
    requires
        wf_entries(es),
        0 <= i < es.len(),
    ensures
        map_of(es).dom().contains(es[i].0),
        map_of(es)[es[i].0] == es[i].1,
    decreases es.len()
{
    if i == es.len() - 1 {
    } else {
        assert(wf_entries(es.drop_last())) by {
            assert(forall|a: int, b: int|
                0 <= a < b < es.drop_last().len() ==> es.drop_last()[a].0 == es[a].0
                    && es.drop_last()[b].0 == es[b].0);
        }
        assert(es.drop_last()[i] == es[i]);
        lemma_map_of_index(es.drop_last(), i);
        assert(es[i].0 != es.last().0);
    }
}

/// Replacing the message of entry `i` in place updates the mapping at that
/// entry's key.
pub proof fn lemma_map_of_update(es: Seq<(Seq<char>, Seq<char>)>, i: int, v: Seq<char>)
    requires
        wf_entries(es),
        0 <= i < es.len(),
    ensures
        map_of(es.update(i, (es[i].0, v))) == map_of(es).insert(es[i].0, v),
    decreases es.len()
{
    let k = es[i].0;
    let es2 = es.update(i, (k, v));
    if i == es.len() - 1 {
        assert(es2.drop_last() =~= es.drop_last());
        assert(es2.last() == (k, v));
        assert(map_of(es.drop_last()).insert(k, v) =~= map_of(es).insert(k, v));
    } else {
        assert(wf_entries(es.drop_last())) by {
            assert(forall|a: int, b: int|
                0 <= a < b < es.drop_last().len() ==> es.drop_last()[a].0 == es[a].0
                    && es.drop_last()[b].0 == es[b].0);
        }
        assert(es.drop_last()[i] == es[i]);
        lemma_map_of_update(es.drop_last(), i, v);
        assert(es2.drop_last() =~= es.drop_last().update(i, (k, v)));
        assert(es2.last() == es.last());
        assert(k != es.last().0);
        assert(map_of(es.drop_last()).insert(k, v).insert(es.last().0, es.last().1)
            =~= map_of(es).insert(k, v));
    }
}

/// Appending an entry inserts its pair into the mapping.
pub proof fn lemma_map_of_push(es: Seq<(Seq<char>, Seq<char>)>, k: Seq<char>, v: Seq<char>)
    ensures
        map_of(es.push((k, v))) == map_of(es).insert(k, v),
{
    assert(es.push((k, v)).drop_last() =~= es);
    assert(es.push((k, v)).last() == (k, v));
}

/// Character-wise string equality, decided without trusting any impl.
pub fn str_eq(a: &str, b: &str) -> (r: bool)
    ensures
        r == (a@ == b@),
{
    let na = a.unicode_len();
    let nb = b.unicode_len();
    if na != nb {
        return false;
    }
    let mut i: usize = 0;
    while i < na
        invariant
            na == a@.len(),
            na == b@.len(),
            0 <= i <= na,
            forall|j: int| 0 <= j < i ==> a@[j] == b@[j],
        decreases na - i
    {
        if a.get_char(i) != b.get_char(i) {
            return false;
        }
        i = i + 1;
    }
    proof {
        assert(a@ =~= b@);
    }
    true
}

/// A set of per-field failure messages, keyed by field identifier.
///
/// The view of a collector is the mapping it holds; `wf` says that the
/// stored entries carry pairwise-distinct keys, which every constructor
/// establishes and every method preserves.
#[derive(Clone, Debug, PartialEq, Eq)]
pub struct StructValidator {
    errors: Vec<(String, String)>,
}

impl View for StructValidator {
    type V = Map<Seq<char>, Seq<char>>;

    open spec fn view(&self) -> Map<Seq<char>, Seq<char>> {
        map_of(self.entries())
    }
}

impl StructValidator {
    /// The stored entries, in storage order; this order fixes the textual
    /// serialization but carries no meaning of its own.
    pub closed spec fn entries(&self) -> Seq<(Seq<char>, Seq<char>)> {
        self.errors@.map_values(|p: (String, String)| (p.0@, p.1@))
    }

    /// Structural invariant: no key occurs twice.
    pub open spec fn wf(&self) -> bool {
        wf_entries(self.entries())
    }

    /// An empty collector: the success state.
    pub fn new() -> (r: Self)
        ensures
            r@ == Map::<Seq<char>, Seq<char>>::empty(),
            r.entries() == Seq::<(Seq<char>, Seq<char>)>::empty(),
            r.wf(),
    {
        let r = StructValidator { errors: Vec::new() };
        proof {
            assert(r.entries() =~= Seq::<(Seq<char>, Seq<char>)>::empty());
        }
        r
    }

    /// The position of the first stored entry whose key is `key`, if any.
    fn index_of_key(&self, key: &str) -> (r: Option<usize>)
        ensures
            match r {
                Some(j) => key_index_from(self.entries(), key@, 0) == Some(j as int),
                None => key_index_from(self.entries(), key@, 0) is None,
            },
    {
        let n = self.errors.len();
        let mut j: usize = 0;
        while j < n
            invariant
                n == self.errors.len(),
                n == self.entries().len(),
                0 <= j <= n,
                key_index_from(self.entries(), key@, 0) == key_index_from(
                    self.entries(),
                    key@,
                    j as int,
                ),
            decreases n - j
        {
            assert(self.entries()[j as int] == (self.errors@[j as int].0@, self.errors@[j as int].1@));
            if str_eq(self.errors[j].0.as_str(), key) {
                return Some(j);
            }
            j = j + 1;
        }
        None
    }

    /// The key of the stored entry at position `i`.
    pub fn entry_key(&self, i: usize) -> (r: &String)
        requires
            i < self.entries().len(),
        ensures
            r@ == self.entries()[i as int].0,
    {
        proof {
            assert(self.entries()[i as int] == (self.errors@[i as int].0@, self.errors@[i as int].1@));
        }
        &self.errors[i].0
    }

    /// The message of the stored entry at position `i`.
    pub fn entry_message(&self, i: usize) -> (r: &String)
        requires
            i < self.entries().len(),
        ensures
            r@ == self.entries()[i as int].1,
    {
        proof {
            assert(self.entries()[i as int] == (self.errors@[i as int].0@, self.errors@[i as int].1@));
        }
        &self.errors[i].1
    }

    /// Store `value` under `key` as given, overwriting any prior message.
    pub(crate) fn insert_raw(&mut self, key: String, value: String)
        requires
            old(self).wf(),
        ensures
            final(self).wf(),
            final(self).entries() == spec_insert_entry(old(self).entries(), key@, value@),
            final(self)@ == old(self)@.insert(key@, value@),
    {
        proof {
            lemma_key_index_from_correct(old(self).entries(), key@, 0);
        }
        let ghost es = self.entries();
        match self.index_of_key(key.as_str()) {
            Some(j) => {
                self.errors.set(j, (key, value));
                proof {
                    assert(self.entries() =~= es.update(j as int, (key@, value@)));
                    assert(es[j as int].0 == key@);
                    lemma_map_of_update(es, j as int, value@);
                    assert forall|a: int, b: int|
                        0 <= a < b < self.entries().len() implies self.entries()[a].0
                        != self.entries()[b].0 by {
                        if a != j && b != j {
                            assert(self.entries()[a] == es[a]);
                            assert(self.entries()[b] == es[b]);
                        }
                    }
                }
            },
            None => {
                self.errors.push((key, value));
                proof {
                    assert(self.entries() =~= es.push((key@, value@)));
                    lemma_map_of_push(es, key@, value@);
                    assert forall|a: int, b: int|
                        0 <= a < b < self.entries().len() implies self.entries()[a].0
                        != self.entries()[b].0 by {
                        if b == es.len() {
                            assert(self.entries()[a] == es[a]);
                        } else {
                            assert(self.entries()[a] == es[a]);
                            assert(self.entries()[b] == es[b]);
                        }
                    }
                }
            },
        }
    }

    /// Store `message` under `key`, first cutting the message at the first
    /// `" at line"`; overwrites any prior message for `key`.
    pub fn insert(&mut self, key: &str, message: &str)
        requires
            old(self).wf(),
        ensures
            final(self).wf(),
            final(self).entries() == spec_insert_entry(
                old(self).entries(),
                key@,
                truncate_at_pat(message@),
            ),
            final(self)@ == old(self)@.insert(key@, truncate_at_pat(message@)),
    {
        let value = truncate_msg(message);
        self.insert_raw(key.to_owned(), value);
    }

    /// Builder-style [`Self::insert`].
    pub fn with(self, key: &str, message: &str) -> (r: Self)
        requires
            self.wf(),
        ensures
            r.wf(),
            r.entries() == spec_insert_entry(self.entries(), key@, truncate_at_pat(message@)),
            r@ == self@.insert(key@, truncate_at_pat(message@)),
    {
        let mut c = self;
        c.insert(key, message);
        c
    }

    /// Builder-style conditional insert: a success contributes nothing, a
    /// failure is recorded under `key` like [`Self::insert`].
    pub fn with_result<T>(self, key: &str, result: Result<T, String>) -> (r: Self)
        requires
            self.wf(),
        ensures
            r.wf(),
            match result {
                Ok(_) => r@ == self@ && r.entries() == self.entries(),
                Err(e) => r.entries() == spec_insert_entry(
                    self.entries(),
                    key@,
                    truncate_at_pat(e@),
                ) && r@ == self@.insert(key@, truncate_at_pat(e@)),
            },
    {
        match result {
            Ok(_) => self,
            Err(e) => self.with(key, e.as_str()),
        }
    }

    /// Whether a message is recorded under `key`.
    pub fn contains(&self, key: &str) -> (r: bool)
        ensures
            r == self@.dom().contains(key@),
    {
        proof {
            lemma_map_of_dom(self.entries());
            lemma_key_index_from_correct(self.entries(), key@, 0);
        }
        match self.index_of_key(key) {
            Some(j) => {
                proof {
                    assert(has_key(self.entries(), key@));
                }
                true
            },
            None => {
                proof {
                    if has_key(self.entries(), key@) {
                        let i = choose|i: int|
                            0 <= i < self.entries().len() && self.entries()[i].0 == key@;
                        assert(false);
                    }
                }
                false
            },
        }
    }

    /// Success predicate: no error has been recorded.
    pub fn is_empty(&self) -> (r: bool)
        ensures
            r == (self@ == Map::<Seq<char>, Seq<char>>::empty()),
            r == (self.entries().len() == 0),
    {
        let r = self.errors.len() == 0;
        proof {
            if self.entries().len() == 0 {
                assert(self@ =~= Map::<Seq<char>, Seq<char>>::empty());
            } else {
                assert(self@.dom().contains(self.entries().last().0));
                assert(self@ != Map::<Seq<char>, Seq<char>>::empty());
            }
        }
        r
    }

    /// How many fields have a recorded message.
    pub fn len(&self) -> (r: usize)
        ensures
            r == self.entries().len(),
    {
        self.errors.len()
    }

    /// The message recorded under `key`, if any.
    pub fn get(&self, key: &str) -> (r: Option<&String>)
        requires
            self.wf(),
        ensures
            match r {
                Some(m) => self@.dom().contains(key@) && m@ == self@[key@],
                None => !self@.dom().contains(key@),
            },
    {
        proof {
            lemma_map_of_dom(self.entries());
            lemma_key_index_from_correct(self.entries(), key@, 0);
        }
        match self.index_of_key(key) {
            Some(j) => {
                proof {
                    lemma_map_of_index(self.entries(), j as int);
                    assert(self.entries()[j as int]
                        == (self.errors@[j as int].0@, self.errors@[j as int].1@));
                }
                Some(&self.errors[j].1)
            },
            None => {
                proof {
                    if has_key(self.entries(), key@) {
                        let i = choose|i: int|
                            0 <= i < self.entries().len() && self.entries()[i].0 == key@;
                        assert(false);
                    }
                }
                None
            },
        }
    }

    /// A one-entry collector under the reserved key `"unknown"`, for a
    /// failure that occurs outside any named-field context.
    pub fn custom(message: &str) -> (r: Self)
        ensures
            r.wf(),
            r@ == Map::<Seq<char>, Seq<char>>::empty().insert("unknown"@, truncate_at_pat(message@)),
    {
        let mut c = Self::new();
        c.insert("unknown", message);
        c
    }

    /// Key-wise union: entries of `other` are added to `self`, overwriting
    /// on key collision.
    pub fn merge(&mut self, other: &StructValidator)
        requires
            old(self).wf(),
        ensures
            final(self).wf(),
            final(self)@ == old(self)@.union_prefer_right(other@),
    {
        let n = other.errors.len();
        let mut i: usize = 0;
        proof {
            assert(other.entries().take(0) =~= Seq::<(Seq<char>, Seq<char>)>::empty());
            assert(self@ =~= old(self)@.union_prefer_right(map_of(other.entries().take(0))));
        }
        while i < n
            invariant
                n == other.errors.len(),
                n == other.entries().len(),
                0 <= i <= n,
                self.wf(),
                self@ == old(self)@.union_prefer_right(map_of(other.entries().take(i as int))),
            decreases n - i
        {
            let ghost pre = map_of(other.entries().take(i as int));
            assert(other.entries()[i as int] == (other.errors@[i as int].0@, other.errors@[i as int].1@));
            let k = other.errors[i].0.clone();
            let v = other.errors[i].1.clone();
            self.insert_raw(k, v);
            proof {
                let t1 = other.entries().take(i + 1);
                assert(t1.drop_last() =~= other.entries().take(i as int));
                assert(t1.last() == other.entries()[i as int]);
                assert(map_of(t1) == pre.insert(other.entries()[i as int].0, other.entries()[i as int].1));
                assert(self@ =~= old(self)@.union_prefer_right(map_of(t1)));
            }
            i = i + 1;
        }
        proof {
            assert(other.entries().take(n as int) =~= other.entries());
        }
    }
}

/// The entry list built by inserting the given entries in order into an
/// empty collector, later entries overwriting earlier ones key-wise.
pub open spec fn fold_entries(pes: Seq<(Seq<char>, Seq<char>)>) -> Seq<(Seq<char>, Seq<char>)>
    decreases pes.len()
{
    if pes.len() == 0 {
        Seq::empty()
    } else {
        spec_insert_entry(fold_entries(pes.drop_last()), pes.last().0, pes.last().1)
    }
}

/// On an entry list with pairwise-distinct keys, re-inserting the entries
/// in order rebuilds the same list.
pub proof fn lemma_fold_entries_id(es: Seq<(Seq<char>, Seq<char>)>)
    requires
        wf_entries(es),
    ensures
        fold_entries(es) == es,
    decreases es.len()
{
    if es.len() == 0 {
        assert(fold_entries(es) =~= es);
    } else {
        let dl = es.drop_last();
        assert(wf_entries(dl)) by {
            assert(forall|a: int, b: int|
                0 <= a < b < dl.len() ==> dl[a].0 == es[a].0 && dl[b].0 == es[b].0);
        }
        lemma_fold_entries_id(dl);
        lemma_key_index_from_correct(dl, es.last().0, 0);
        match key_index_from(dl, es.last().0, 0) {
            Some(j) => {
                assert(dl[j].0 == es[j].0);
                assert(es[j].0 != es[es.len() - 1].0);
                assert(false);
            },
            None => {},
        }
        assert(fold_entries(es) == dl.push(es.last()));
        assert(dl.push(es.last()) =~= es);
    }
}

/// The collector obtained by keeping only the failures of a result
/// sequence, merged left to right.
pub open spec fn collected<T>(s: Seq<Result<T, StructValidator>>) -> Map<Seq<char>, Seq<char>>
    decreases s.len()
{
    if s.len() == 0 {
        Map::empty()
    } else {
        collected(s.drop_last()).union_prefer_right(
            match s.last() {
                Ok(_) => Map::<Seq<char>, Seq<char>>::empty(),
                Err(c) => c@,
            },
        )
    }
}

/// Reduce a sequence of results into one collector holding only the
/// errors; successes contribute nothing.
pub fn collect_errors<T>(results: &Vec<Result<T, StructValidator>>) -> (r: StructValidator)
    ensures
        r.wf(),
        r@ == collected(results@),
{
    let mut acc = StructValidator::new();
    let n = results.len();
    proof {
        assert(results@.take(0) =~= Seq::<Result<T, StructValidator>>::empty());
        assert(acc@ =~= collected(results@.take(0)));
    }
    let mut i: usize = 0;
    while i < n
        invariant
            n == results@.len(),
            0 <= i <= n,
            acc.wf(),
            acc@ == collected(results@.take(i as int)),
        decreases n - i
    {
        let ghost pre = acc@;
        match &results[i] {
            Ok(_) => {},
            Err(c) => {
                acc.merge(c);
            },
        }
        proof {
            let t1 = results@.take(i + 1);
            assert(t1.drop_last() =~= results@.take(i as int));
            assert(t1.last() == results@[i as int]);
            match results@[i as int] {
                Ok(_) => {
                    assert(acc@ =~= collected(t1));
                },
                Err(c) => {
                    assert(acc@ =~= collected(t1));
                },
            }
        }
        i = i + 1;
    }
    proof {
        assert(results@.take(n as int) =~= results@);
    }
    acc
}

/// Inserting under the same key twice leaves only the second message: the
/// first write is overwritten with no accumulation per field.
pub proof fn lemma_insert_overwrites(
    m: Map<Seq<char>, Seq<char>>,
    k: Seq<char>,
    first: Seq<char>,
    second: Seq<char>,
)
    ensures
        m.insert(k, first).insert(k, second) == m.insert(k, second),
{
    assert(m.insert(k, first).insert(k, second) =~= m.insert(k, second));
}

/// Reducing `[Ok(v1), Err(c1), Ok(v2), Err(c2)]` yields exactly the merge
/// of `c1` and `c2`; the successes contribute nothing.
pub proof fn lemma_pure_error_iteration<T>(
    v1: T,
    c1: StructValidator,
    v2: T,
    c2: StructValidator,
)
    ensures
        collected(seq![
            Ok::<T, StructValidator>(v1),
            Err::<T, StructValidator>(c1),
            Ok::<T, StructValidator>(v2),
            Err::<T, StructValidator>(c2),
        ]) == c1@.union_prefer_right(c2@),
{
    let e = Map::<Seq<char>, Seq<char>>::empty();
    let s4 = seq![
        Ok::<T, StructValidator>(v1),
        Err::<T, StructValidator>(c1),
        Ok::<T, StructValidator>(v2),
        Err::<T, StructValidator>(c2),
    ];
    let s3 = s4.drop_last();
    let s2 = s3.drop_last();
    let s1 = s2.drop_last();
    let s0 = s1.drop_last();
    assert(s0 =~= Seq::<Result<T, StructValidator>>::empty());
    assert(s1.last() == Ok::<T, StructValidator>(v1));
    assert(s2.last() == Err::<T, StructValidator>(c1));
    assert(s3.last() == Ok::<T, StructValidator>(v2));
    assert(s4.last() == Err::<T, StructValidator>(c2));
    assert(collected(s4) == collected(s3).union_prefer_right(c2@));
    assert(collected(s3) == collected(s2).union_prefer_right(e));
    assert(collected(s2) == collected(s1).union_prefer_right(c1@));
    assert(collected(s1) == collected(s0).union_prefer_right(e));
    assert(collected(s0) == e);
    assert(e.union_prefer_right(e) =~= e);
    assert(e.union_prefer_right(e).union_prefer_right(c1@) =~= c1@);
    assert(c1@.union_prefer_right(e) =~= c1@);
    assert(collected(s4) =~= c1@.union_prefer_right(c2@));
}

} // verus!
