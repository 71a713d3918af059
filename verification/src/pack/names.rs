use vstd::prelude::*;

verus! {

/// One line of a table of contents, as mathematics: a name and the offset
/// and length that stand beside it.
pub struct Entry {
    pub name: Seq<char>,
    pub offset: u64,
    pub length: u64,
}

/// The index of the first entry called `name`, or `s.len()` when there is none.
pub open spec fn position(s: Seq<Entry>, name: Seq<char>) -> int
    decreases s.len(),
{
    if s.len() == 0 {
        0
    } else if s[0].name == name {
        0
    } else {
        1 + position(s.drop_first(), name)
    }
}

/// True when some entry is called `name`.
pub open spec fn has_name(s: Seq<Entry>, name: Seq<char>) -> bool {
    position(s, name) < s.len()
}

/// The offset and length recorded for `name`, if any.
pub open spec fn lookup(s: Seq<Entry>, name: Seq<char>) -> Option<(u64, u64)> {
    if has_name(s, name) {
        Some((s[position(s, name)].offset, s[position(s, name)].length))
    } else {
        None
    }
}

/// The entries after `e` has been recorded: an entry of the same name is
/// replaced where it stands, a new name is appended.
pub open spec fn put(s: Seq<Entry>, e: Entry) -> Seq<Entry> {
    if has_name(s, e.name) {
        s.update(position(s, e.name), e)
    } else {
        s.push(e)
    }
}

/// The entries after each of `es` has been recorded in turn.
pub open spec fn put_all(s: Seq<Entry>, es: Seq<Entry>) -> Seq<Entry>
    decreases es.len(),
{
    if es.len() == 0 {
        s
    } else {
        put_all(put(s, es[0]), es.drop_first())
    }
}

/// No two entries share a name.
pub open spec fn distinct_names(s: Seq<Entry>) -> bool {
    forall|i: int, j: int| 0 <= i < j < s.len() ==> (#[trigger] s[i]).name != (#[trigger] s[j]).name
}

/// What `position` finds: an index in range whose entry has the name, with no
/// earlier entry of that name; or the length, when no entry has the name.
pub proof fn lemma_position(s: Seq<Entry>, name: Seq<char>)
    ensures
        0 <= position(s, name) <= s.len(),
        position(s, name) < s.len() ==> s[position(s, name)].name == name,
        forall|i: int| 0 <= i < position(s, name) ==> (#[trigger] s[i]).name != name,
    decreases s.len(),
{
    if s.len() > 0 && s[0].name != name {
        let t = s.drop_first();
        lemma_position(t, name);
        assert forall|i: int| 0 <= i < position(s, name) implies (#[trigger] s[i]).name
            != name by {
            if i > 0 {
                assert(s[i] == t[i - 1]);
            }
        }
    }
}

/// Where names are distinct, the entry found under a name is the only one
/// with that name.
pub proof fn lemma_position_unique(s: Seq<Entry>, i: int)
    requires
        distinct_names(s),
        0 <= i < s.len(),
    ensures
        position(s, s[i].name) == i,
{
    lemma_position(s, s[i].name);
    let p = position(s, s[i].name);
    if p > i {
        assert(s[i].name != s[i].name);
    }
}

/// Recording an entry keeps names distinct, makes the entry the one found
/// under its name, and leaves what is found under every other name.
pub proof fn lemma_put(s: Seq<Entry>, e: Entry)
    requires
        distinct_names(s),
    ensures
        distinct_names(put(s, e)),
        lookup(put(s, e), e.name) == Some((e.offset, e.length)),
        forall|n: Seq<char>| n != e.name ==> lookup(put(s, e), n) == lookup(s, n),
        forall|n: Seq<char>| has_name(put(s, e), n) <==> (n == e.name || has_name(s, n)),
{
    lemma_position(s, e.name);
    let t = put(s, e);
    let p = position(s, e.name);
    assert(distinct_names(t)) by {
        assert forall|i: int, j: int| 0 <= i < j < t.len() implies (#[trigger] t[i]).name != (
        #[trigger] t[j]).name by {
            if p < s.len() {
                assert(t[i].name == s[i].name);
                assert(t[j].name == s[j].name);
            } else {
                if j < s.len() {
                    assert(t[i] == s[i] && t[j] == s[j]);
                } else {
                    assert(t[i] == s[i]);
                }
            }
        }
    }
    assert(t[p] == e);
    lemma_position_unique(t, p);
    assert forall|n: Seq<char>| n != e.name implies lookup(t, n) == lookup(s, n) && (has_name(
        t,
        n,
    ) <==> has_name(s, n)) by {
        lemma_position(s, n);
        lemma_position(t, n);
        let a = position(s, n);
        let b = position(t, n);
        if a < s.len() {
            assert(t[a] == s[a]);
            if b > a {
                assert(t[a].name != n);
            }
            if b < a {
                assert(s[b].name == t[b].name || b == p);
            }
        } else {
            if b < t.len() {
                if b < s.len() {
                    assert(s[b].name == t[b].name || b == p);
                }
            }
        }
    }
    assert(has_name(t, e.name));
}

/// Every entry after a recording is the recorded entry or the entry that
/// stood at its place before.
pub proof fn lemma_put_elements(s: Seq<Entry>, e: Entry)
    ensures
        s.len() <= put(s, e).len() <= s.len() + 1,
        forall|i: int|
            0 <= i < put(s, e).len() ==> #[trigger] put(s, e)[i] == e || (i < s.len() && put(
                s,
                e,
            )[i] == s[i]),
{
    lemma_position(s, e.name);
}

/// Recording, one after another, entries whose names are distinct and new
/// appends them in order.
pub proof fn lemma_put_all_fresh(s: Seq<Entry>, es: Seq<Entry>)
    requires
        distinct_names(s + es),
    ensures
        put_all(s, es) == s + es,
    decreases es.len(),
{
    if es.len() == 0 {
        assert(s + es =~= s);
    } else {
        let e = es[0];
        lemma_position(s, e.name);
        let p = position(s, e.name);
        if p < s.len() {
            assert((s + es)[p] == s[p]);
            assert((s + es)[s.len() as int] == e);
            assert(false);
        }
        assert(put(s, e) == s.push(e));
        assert(s.push(e) + es.drop_first() =~= s + es);
        lemma_put_all_fresh(s.push(e), es.drop_first());
    }
}

/// The entries with `e` put in behind the last entry whose offset is not
/// greater.
pub open spec fn insert_by_offset(s: Seq<Entry>, e: Entry) -> Seq<Entry>
    decreases s.len(),
{
    if s.len() == 0 {
        seq![e]
    } else if s.last().offset <= e.offset {
        s.push(e)
    } else {
        insert_by_offset(s.drop_last(), e).push(s.last())
    }
}

/// The entries in ascending order of offset; entries of one offset keep the
/// order in which they stand.
pub open spec fn by_offset(s: Seq<Entry>) -> Seq<Entry>
    decreases s.len(),
{
    if s.len() == 0 {
        s
    } else {
        insert_by_offset(by_offset(s.drop_last()), s.last())
    }
}

/// No entry has a greater offset than a later one.
pub open spec fn ascending_offsets(s: Seq<Entry>) -> bool {
    forall|i: int, j: int| 0 <= i <= j < s.len() ==> (#[trigger] s[i]).offset <= (#[trigger] s[j]).offset
}

/// Where `e` goes: every entry from `p` on has a greater offset, and the
/// entry before `p` has not.
pub proof fn lemma_insert_by_offset_at(s: Seq<Entry>, e: Entry, p: int)
    requires
        0 <= p <= s.len(),
        forall|i: int| p <= i < s.len() ==> (#[trigger] s[i]).offset > e.offset,
        p > 0 ==> s[p - 1].offset <= e.offset,
    ensures
        insert_by_offset(s, e) == s.insert(p, e),
    decreases s.len() - p,
{
    if s.len() == 0 {
        assert(s.insert(0, e) =~= seq![e]);
    } else if p == s.len() {
        assert(s.insert(p, e) =~= s.push(e));
    } else {
        assert(s[s.len() - 1].offset > e.offset);
        lemma_insert_by_offset_at(s.drop_last(), e, p);
        assert(s.drop_last().insert(p, e).push(s.last()) =~= s.insert(p, e));
    }
}

/// Putting an entry in gives the same entries and that one, at some place.
pub proof fn lemma_insert_by_offset(s: Seq<Entry>, e: Entry)
    ensures
        exists|p: int|
            0 <= p <= s.len() && #[trigger] s.insert(p, e) == insert_by_offset(s, e) && (forall|
                i: int,
            |
                p <= i < s.len() ==> (#[trigger] s[i]).offset > e.offset) && (p > 0 ==> s[p
                - 1].offset <= e.offset),
    decreases s.len(),
{
    if s.len() == 0 {
        lemma_insert_by_offset_at(s, e, 0);
        assert(s.insert(0, e) == insert_by_offset(s, e));
    } else if s.last().offset <= e.offset {
        lemma_insert_by_offset_at(s, e, s.len() as int);
        assert(s.insert(s.len() as int, e) == insert_by_offset(s, e));
    } else {
        let head = s.drop_last();
        lemma_insert_by_offset(head, e);
        let p = choose|p: int|
            0 <= p <= head.len() && #[trigger] head.insert(p, e) == insert_by_offset(head, e) && (
            forall|i: int| p <= i < head.len() ==> (#[trigger] head[i]).offset > e.offset) && (p > 0
                ==> head[p - 1].offset <= e.offset);
        assert forall|i: int| p <= i < s.len() implies (#[trigger] s[i]).offset > e.offset by {
            if i < head.len() {
                assert(head[i] == s[i]);
            }
        }
        if p > 0 {
            assert(head[p - 1] == s[p - 1]);
        }
        lemma_insert_by_offset_at(s, e, p);
        assert(s.insert(p, e) == insert_by_offset(s, e));
    }
}

/// What ordering by offset gives: the same entries, each as often as
/// before, in ascending order of offset. With them names stay distinct.
pub proof fn lemma_by_offset(s: Seq<Entry>)
    ensures
        by_offset(s).len() == s.len(),
        by_offset(s).to_multiset() == s.to_multiset(),
        ascending_offsets(by_offset(s)),
        forall|i: int| 0 <= i < s.len() ==> by_offset(s).contains(#[trigger] s[i]),
        forall|i: int| 0 <= i < s.len() ==> s.contains(#[trigger] by_offset(s)[i]),
        distinct_names(s) ==> distinct_names(by_offset(s)),
    decreases s.len(),
{
    broadcast use vstd::seq_lib::to_multiset_build;

    let t = by_offset(s);
    if s.len() > 0 {
        let head = s.drop_last();
        let e = s.last();
        let u = by_offset(head);
        lemma_by_offset(head);
        lemma_insert_by_offset(u, e);
        let p = choose|p: int|
            0 <= p <= u.len() && #[trigger] u.insert(p, e) == insert_by_offset(u, e) && (forall|
                i: int,
            |
                p <= i < u.len() ==> (#[trigger] u[i]).offset > e.offset) && (p > 0 ==> u[p
                - 1].offset <= e.offset);
        assert(t == u.insert(p, e));
        assert(head.push(e) =~= s);
        assert(t.to_multiset() =~= s.to_multiset()) by {
            vstd::seq_lib::to_multiset_insert(u, p, e);
        }
        assert forall|i: int, j: int| 0 <= i <= j < t.len() implies (#[trigger] t[i]).offset <= (
        #[trigger] t[j]).offset by {
            if i < p && j < p {
                assert(t[i] == u[i] && t[j] == u[j]);
            } else if i < p && j == p {
                assert(t[i] == u[i]);
                assert(u[i].offset <= u[p - 1].offset);
            } else if i < p && j > p {
                assert(t[i] == u[i] && t[j] == u[j - 1]);
            } else if i == p && j > p {
                assert(t[j] == u[j - 1]);
            } else if i > p {
                assert(t[i] == u[i - 1] && t[j] == u[j - 1]);
            }
        }
        assert forall|i: int| 0 <= i < s.len() implies t.contains(#[trigger] s[i]) by {
            if i < head.len() {
                assert(head[i] == s[i]);
                assert(u.contains(head[i]));
                let k = choose|k: int| 0 <= k < u.len() && u[k] == head[i];
                if k < p {
                    assert(t[k] == s[i]);
                } else {
                    assert(t[k + 1] == s[i]);
                }
            } else {
                assert(t[p] == s[i]);
            }
        }
        assert forall|i: int| 0 <= i < s.len() implies s.contains(#[trigger] t[i]) by {
            if i == p {
                assert(s[s.len() - 1] == t[i]);
            } else {
                let k = if i < p {
                    i
                } else {
                    i - 1
                };
                assert(t[i] == u[k]);
                assert(head.contains(u[k]));
                let m = choose|m: int| 0 <= m < head.len() && head[m] == u[k];
                assert(s[m] == t[i]);
            }
        }
        if distinct_names(s) {
            assert(distinct_names(head)) by {
                assert forall|i: int, j: int| 0 <= i < j < head.len() implies (#[trigger] head[i]).name
                    != (#[trigger] head[j]).name by {
                    assert(head[i] == s[i] && head[j] == s[j]);
                }
            }
            assert forall|k: int| 0 <= k < u.len() implies (#[trigger] u[k]).name != e.name by {
                assert(head.contains(u[k]));
                let m = choose|m: int| 0 <= m < head.len() && head[m] == u[k];
                assert(s[m].name != s[s.len() - 1].name);
            }
            assert forall|i: int, j: int| 0 <= i < j < t.len() implies (#[trigger] t[i]).name != (
            #[trigger] t[j]).name by {
                let a = if i < p {
                    i
                } else {
                    i - 1
                };
                let b = if j < p {
                    j
                } else {
                    j - 1
                };
                if i == p {
                    assert(t[j] == u[b]);
                } else if j == p {
                    assert(t[i] == u[a]);
                } else {
                    assert(t[i] == u[a] && t[j] == u[b]);
                }
            }
        }
    }
}

/// Ordering by offset leaves entries that are in ascending order as they are.
pub proof fn lemma_by_offset_of_ascending(s: Seq<Entry>)
    requires
        ascending_offsets(s),
    ensures
        by_offset(s) == s,
    decreases s.len(),
{
    if s.len() > 0 {
        let head = s.drop_last();
        assert forall|i: int, j: int| 0 <= i <= j < head.len() implies (#[trigger] head[i]).offset
            <= (#[trigger] head[j]).offset by {
            assert(head[i] == s[i] && head[j] == s[j]);
        }
        lemma_by_offset_of_ascending(head);
        if head.len() > 0 {
            assert(head.last() == s[s.len() - 2]);
            assert(s[s.len() - 2].offset <= s[s.len() - 1].offset);
        }
        assert(head.push(s.last()) =~= s);
    }
}

/// The entries of `s` in the order that the indices give.
pub open spec fn in_order(s: Seq<Entry>, order: Seq<usize>) -> Seq<Entry> {
    Seq::new(order.len(), |j: int| s[order[j] as int])
}

/// A name with the offset and length recorded for it.
pub struct NameEntry {
    pub name: String,
    pub offset: u64,
    pub length: u64,
}

impl View for NameEntry {
    type V = Entry;

    open spec fn view(&self) -> Entry {
        Entry { name: self.name@, offset: self.offset, length: self.length }
    }
}

/// The name map: names with their offset and length, in the order in which
/// the names first came. No name occurs twice.
pub struct NameMap {
    entries: Vec<NameEntry>,
}

impl View for NameMap {
    type V = Seq<Entry>;

    closed spec fn view(&self) -> Seq<Entry> {
        Seq::new(self.entries@.len(), |i: int| self.entries@[i]@)
    }
}

impl NameMap {
    /// The invariant of the map: no name occurs twice.
    pub open spec fn wf(&self) -> bool {
        distinct_names(self@)
    }

    /// A map without names.
    pub fn new() -> (m: NameMap)
        ensures
            m@ == Seq::<Entry>::empty(),
            m.wf(),
    {
        let m = NameMap { entries: Vec::new() };
        assert(m@ =~= Seq::<Entry>::empty());
        m
    }

    /// The number of names.
    pub fn len(&self) -> (n: usize)
        ensures
            n == self@.len(),
    {
        self.entries.len()
    }

    /// True when the map holds no name.
    pub fn is_empty(&self) -> (b: bool)
        ensures
            b == (self@.len() == 0),
    {
        self.entries.len() == 0
    }

    /// The entry at index `i` in the order of the map.
    pub fn entry(&self, i: usize) -> (e: &NameEntry)
        requires
            i < self@.len(),
        ensures
            e@ == self@[i as int],
    {
        &self.entries[i]
    }

    /// The indices of the entries in ascending order of offset; entries of
    /// one offset keep the order in which they stand.
    pub fn offset_order(&self) -> (order: Vec<usize>)
        ensures
            order@.len() == self@.len(),
            forall|j: int| 0 <= j < order@.len() ==> (#[trigger] order@[j]) < self@.len(),
            in_order(self@, order@) == by_offset(self@),
    {
        let n: usize = self.entries.len();
        let mut order: Vec<usize> = Vec::new();
        let mut i: usize = 0;
        proof {
            assert(self@.take(0) =~= Seq::<Entry>::empty());
            assert(in_order(self@, order@) =~= by_offset(self@.take(0)));
        }
        while i < n
            invariant
                i <= n,
                n == self.entries@.len(),
                n == self@.len(),
                order@.len() == i,
                forall|j: int| 0 <= j < order@.len() ==> (#[trigger] order@[j]) < i,
                in_order(self@, order@) == by_offset(self@.take(i as int)),
            decreases n - i,
        {
            let x: u64 = self.entries[i].offset;
            let ghost before = in_order(self@, order@);
            let ghost old_order = order@;
            let mut p: usize = order.len();
            while p > 0 && self.entries[order[p - 1]].offset > x
                invariant
                    p <= order@.len(),
                    order@ == old_order,
                    n == self.entries@.len(),
                    forall|j: int| 0 <= j < order@.len() ==> (#[trigger] order@[j]) < n,
                    before == in_order(self@, order@),
                    forall|k: int| p <= k < before.len() ==> (#[trigger] before[k]).offset > x,
                decreases p,
            {
                proof {
                    assert(before[p - 1] == self@[order@[p - 1] as int]);
                }
                p = p - 1;
            }
            proof {
                if p > 0 {
                    assert(before[p - 1] == self@[order@[p - 1] as int]);
                }
                lemma_insert_by_offset_at(before, self@[i as int], p as int);
                assert(self@.take(i + 1).drop_last() =~= self@.take(i as int));
                assert(self@.take(i + 1).last() == self@[i as int]);
            }
            order.insert(p, i);
            proof {
                assert(in_order(self@, order@) =~= before.insert(p as int, self@[i as int]));
            }
            i = i + 1;
        }
        proof {
            assert(self@.take(n as int) =~= self@);
        }
        order
    }

    /// The index of the entry called `name`, if there is one.
    pub fn find(&self, name: &str) -> (r: Option<usize>)
        ensures
            r is Some <==> has_name(self@, name@),
            r matches Some(i) ==> i == position(self@, name@),
    {
        let wanted: String = name.to_owned();
        let mut i: usize = 0;
        while i < self.entries.len()
            invariant
                i <= self.entries@.len(),
                wanted@ == name@,
                forall|j: int| 0 <= j < i ==> (#[trigger] self@[j]).name != name@,
            decreases self.entries@.len() - i,
        {
            if self.entries[i].name == wanted {
                proof {
                    lemma_position(self@, name@);
                    assert(self@[i as int].name == name@);
                }
                return Some(i);
            }
            i = i + 1;
        }
        proof {
            lemma_position(self@, name@);
        }
        None
    }

    /// The offset and length recorded for `name`, if any.
    pub fn get(&self, name: &str) -> (r: Option<(u64, u64)>)
        ensures
            r == lookup(self@, name@),
    {
        match self.find(name) {
            Some(i) => Some((self.entries[i].offset, self.entries[i].length)),
            None => None,
        }
    }

    /// Records `offset` and `length` for `name`. A name that is already
    /// recorded keeps its place and gets the new values.
    pub fn insert(&mut self, name: String, offset: u64, length: u64)
        requires
            old(self).wf(),
        ensures
            final(self)@ == put(old(self)@, Entry { name: name@, offset, length }),
            final(self).wf(),
    {
        proof {
            lemma_put(self@, Entry { name: name@, offset, length });
        }
        match self.find(name.as_str()) {
            Some(i) => {
                self.entries.set(i, NameEntry { name, offset, length });
                assert(self@ =~= put(old(self)@, Entry { name: name@, offset, length }));
            },
            None => {
                self.entries.push(NameEntry { name, offset, length });
                assert(self@ =~= put(old(self)@, Entry { name: name@, offset, length }));
            },
        }
    }

    /// Appends an entry whose name is not in the map yet.
    pub fn push(&mut self, name: String, offset: u64, length: u64)
        requires
            old(self).wf(),
            !has_name(old(self)@, name@),
        ensures
            final(self)@ == old(self)@.push(Entry { name: name@, offset, length }),
            final(self).wf(),
    {
        proof {
            lemma_put(self@, Entry { name: name@, offset, length });
        }
        self.entries.push(NameEntry { name, offset, length });
        assert(self@ =~= old(self)@.push(Entry { name: name@, offset, length }));
    }
}

} // verus!
