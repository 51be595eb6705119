//! The shared store: a typed map from byte keys to entries with an optional
//! absolute deadline, observed lazily — an expired entry is deleted by the
//! first operation that touches its key.

use vstd::prelude::*;

verus! {

/// What a key maps to. Only `String` and `List` are exercised by the
/// commands here; the other variants keep the store extensible.
#[derive(Debug)]
pub enum DataType {
    String(Vec<u8>),
    List(Vec<Vec<u8>>),
    SetData(Vec<Vec<u8>>),
    Hash(Vec<(Vec<u8>, Vec<u8>)>),
}

/// The mathematical value of a `DataType`.
pub enum ValueModel {
    Str(Seq<u8>),
    ListV(Seq<Seq<u8>>),
    SetV(Set<Seq<u8>>),
    HashV(Map<Seq<u8>, Seq<u8>>),
}

pub open spec fn hash_model(l: Seq<(Seq<u8>, Seq<u8>)>) -> Map<Seq<u8>, Seq<u8>>
    decreases l.len(),
{
    if l.len() == 0 {
        Map::empty()
    } else {
        hash_model(l.drop_last()).insert(l.last().0, l.last().1)
    }
}

pub open spec fn value_model(d: DataType) -> ValueModel {
    match d {
        DataType::String(s) => ValueModel::Str(s@),
        DataType::List(l) => ValueModel::ListV(l.deep_view()),
        DataType::SetData(l) => ValueModel::SetV(l.deep_view().to_set()),
        DataType::Hash(l) => ValueModel::HashV(hash_model(l.deep_view())),
    }
}

/// The store's cell: a value and an optional absolute deadline, in the
/// caller's clock (milliseconds).
pub struct Entry {
    pub value: DataType,
    pub deadline: Option<u64>,
}

pub struct EntryModel {
    pub value: ValueModel,
    pub deadline: Option<u64>,
}

pub open spec fn entry_model(e: Entry) -> EntryModel {
    EntryModel { value: value_model(e.value), deadline: e.deadline }
}

pub type StoreModel = Map<Seq<u8>, EntryModel>;

/// An entry is live at `now` when it has no deadline or its deadline is
/// still ahead; at the deadline itself it is already expired.
pub open spec fn entry_live(e: EntryModel, now: u64) -> bool {
    match e.deadline {
        Option::Some(d) => now < d,
        Option::None => true,
    }
}

/// What lazily observing `k` at `now` does to the store: an expired entry
/// is deleted, everything else stays.
pub open spec fn expire_effect(m: StoreModel, k: Seq<u8>, now: u64) -> StoreModel {
    if m.contains_key(k) && !entry_live(m[k], now) {
        m.remove(k)
    } else {
        m
    }
}

/// The inclusive range semantics: negative indices count from the end, the
/// range is clamped to the list, and an inverted or out-of-range start is
/// empty.
pub open spec fn lrange_slice(l: Seq<Seq<u8>>, start: int, end: int) -> Seq<Seq<u8>> {
    let len = l.len() as int;
    let s0 = if start < 0 {
        len + start
    } else {
        start
    };
    let e0 = if end < 0 {
        len + end
    } else {
        end
    };
    let s1 = if s0 < 0 {
        0
    } else {
        s0
    };
    let e1 = if e0 >= len {
        len - 1
    } else {
        e0
    };
    if len == 0 || s1 > e1 || s1 >= len {
        Seq::empty()
    } else {
        l.subrange(s1, e1 + 1)
    }
}

/// What `rpush` computes: the store after appending `vs` to the list at
/// `k` (creating it when absent) and the new length, or nothing when the
/// key holds another kind of value.
pub open spec fn rpush_step(m: StoreModel, k: Seq<u8>, vs: Seq<Seq<u8>>, now: u64) -> Option<
    (StoreModel, int),
> {
    let m1 = expire_effect(m, k, now);
    if !m1.contains_key(k) {
        Some(
            (
                m1.insert(k, EntryModel { value: ValueModel::ListV(vs), deadline: None }),
                vs.len() as int,
            ),
        )
    } else {
        match m1[k].value {
            ValueModel::ListV(l) => Some(
                (
                    m1.insert(
                        k,
                        EntryModel { value: ValueModel::ListV(l + vs), deadline: m1[k].deadline },
                    ),
                    l.len() + vs.len() as int,
                ),
            ),
            _ => None,
        }
    }
}

/// What `lpush` computes: each value is inserted at the head in turn, so
/// the final input value ends up at index zero.
pub open spec fn lpush_step(m: StoreModel, k: Seq<u8>, vs: Seq<Seq<u8>>, now: u64) -> Option<
    (StoreModel, int),
> {
    let m1 = expire_effect(m, k, now);
    if !m1.contains_key(k) {
        Some(
            (
                m1.insert(
                    k,
                    EntryModel { value: ValueModel::ListV(vs.reverse()), deadline: None },
                ),
                vs.len() as int,
            ),
        )
    } else {
        match m1[k].value {
            ValueModel::ListV(l) => Some(
                (
                    m1.insert(
                        k,
                        EntryModel {
                            value: ValueModel::ListV(vs.reverse() + l),
                            deadline: m1[k].deadline,
                        },
                    ),
                    l.len() + vs.len() as int,
                ),
            ),
            _ => None,
        }
    }
}

spec fn keys_unique(s: Seq<(Vec<u8>, Entry)>) -> bool {
    forall|i: int, j: int| 0 <= i < j < s.len() ==> (#[trigger] s[i]).0@ != (#[trigger] s[j]).0@
}

spec fn entries_map(s: Seq<(Vec<u8>, Entry)>) -> StoreModel
    decreases s.len(),
{
    if s.len() == 0 {
        Map::empty()
    } else {
        entries_map(s.drop_last()).insert(s.last().0@, entry_model(s.last().1))
    }
}

/// The key space: a mapping from byte keys to entries, with each key held
/// once.
pub struct Db {
    entries: Vec<(Vec<u8>, Entry)>,
}

impl View for Db {
    type V = StoreModel;

    closed spec fn view(&self) -> StoreModel {
        entries_map(self.entries@)
    }
}

proof fn lemma_entries_map_index(s: Seq<(Vec<u8>, Entry)>, i: int)
    requires
        keys_unique(s),
        0 <= i < s.len(),
    ensures
        entries_map(s).contains_key(s[i].0@),
        entries_map(s)[s[i].0@] == entry_model(s[i].1),
    decreases s.len(),
{
    if i == s.len() - 1 {
    } else {
        assert(keys_unique(s.drop_last())) by {
            assert(forall|a: int, b: int| 0 <= a < b < s.len() - 1 ==> (#[trigger] s.drop_last()[a]).0@
                != (#[trigger] s.drop_last()[b]).0@);
        }
        lemma_entries_map_index(s.drop_last(), i);
        assert(s.drop_last()[i] == s[i]);
        assert(s[i].0@ != s.last().0@);
    }
}

proof fn lemma_entries_map_dom(s: Seq<(Vec<u8>, Entry)>)
    ensures
        forall|k: Seq<u8>| #[trigger] entries_map(s).contains_key(k) ==> exists|i: int|
            0 <= i < s.len() && (#[trigger] s[i]).0@ == k,
    decreases s.len(),
{
    if s.len() > 0 {
        lemma_entries_map_dom(s.drop_last());
        assert forall|k: Seq<u8>| #[trigger] entries_map(s).contains_key(k) implies exists|i: int|
            0 <= i < s.len() && (#[trigger] s[i]).0@ == k by {
            if k == s.last().0@ {
                assert((s[s.len() - 1]).0@ == k);
            } else {
                assert(entries_map(s.drop_last()).contains_key(k));
                let i = choose|i: int| 0 <= i < s.len() - 1 && (#[trigger] s.drop_last()[i]).0@
                    == k;
                assert((s[i]).0@ == k);
            }
        }
    }
}

proof fn lemma_entries_map_absent(s: Seq<(Vec<u8>, Entry)>, k: Seq<u8>)
    requires
        forall|j: int| 0 <= j < s.len() ==> (#[trigger] s[j]).0@ != k,
    ensures
        !entries_map(s).contains_key(k),
{
    lemma_entries_map_dom(s);
    if entries_map(s).contains_key(k) {
        let i = choose|i: int| 0 <= i < s.len() && (#[trigger] s[i]).0@ == k;
    }
}

proof fn lemma_entries_map_push(s: Seq<(Vec<u8>, Entry)>, k: Vec<u8>, e: Entry)
    ensures
        entries_map(s.push((k, e))) == entries_map(s).insert(k@, entry_model(e)),
{
    assert(s.push((k, e)).drop_last() =~= s);
    assert(s.push((k, e)).last() == (k, e));
}

proof fn lemma_entries_map_remove(s: Seq<(Vec<u8>, Entry)>, i: int)
    requires
        keys_unique(s),
        0 <= i < s.len(),
    ensures
        entries_map(s.remove(i)) == entries_map(s).remove(s[i].0@),
    decreases s.len(),
{
    let k = s[i].0@;
    if i == s.len() - 1 {
        assert(s.remove(i) =~= s.drop_last());
        assert forall|j: int| 0 <= j < s.drop_last().len() implies (#[trigger] s.drop_last()[j]).0@
            != k by {
            assert(s.drop_last()[j] == s[j]);
        }
        lemma_entries_map_absent(s.drop_last(), k);
        assert(entries_map(s).remove(k) =~= entries_map(s.drop_last()));
    } else {
        assert(keys_unique(s.drop_last())) by {
            assert(forall|a: int, b: int| 0 <= a < b < s.len() - 1 ==> (#[trigger] s.drop_last()[a]).0@
                != (#[trigger] s.drop_last()[b]).0@);
        }
        assert(s.drop_last()[i] == s[i]);
        lemma_entries_map_remove(s.drop_last(), i);
        assert(s.remove(i).drop_last() =~= s.drop_last().remove(i));
        assert(s.remove(i).last() == s.last());
        assert(k != s.last().0@);
        assert(entries_map(s.remove(i)) == entries_map(s.drop_last().remove(i)).insert(
            s.last().0@,
            entry_model(s.last().1),
        ));
        assert(entries_map(s.drop_last()).remove(k).insert(s.last().0@, entry_model(s.last().1))
            =~= entries_map(s.drop_last()).insert(s.last().0@, entry_model(s.last().1)).remove(k));
    }
}

proof fn lemma_unique_remove(s: Seq<(Vec<u8>, Entry)>, i: int)
    requires
        keys_unique(s),
        0 <= i < s.len(),
    ensures
        keys_unique(s.remove(i)),
        forall|j: int| 0 <= j < s.remove(i).len() ==> (#[trigger] s.remove(i)[j]).0@ != s[i].0@,
{
    let t = s.remove(i);
    assert forall|a: int, b: int| 0 <= a < b < t.len() implies (#[trigger] t[a]).0@ != (
    #[trigger] t[b]).0@ by {
        if b < i {
            assert(t[a] == s[a] && t[b] == s[b]);
        } else if a < i {
            assert(t[a] == s[a] && t[b] == s[b + 1]);
        } else {
            assert(t[a] == s[a + 1] && t[b] == s[b + 1]);
        }
    }
    assert forall|j: int| 0 <= j < t.len() implies (#[trigger] t[j]).0@ != s[i].0@ by {
        if j < i {
            assert(t[j] == s[j]);
        } else {
            assert(t[j] == s[j + 1]);
        }
    }
}

proof fn lemma_unique_push(s: Seq<(Vec<u8>, Entry)>, k: Vec<u8>, e: Entry)
    requires
        keys_unique(s),
        forall|j: int| 0 <= j < s.len() ==> (#[trigger] s[j]).0@ != k@,
    ensures
        keys_unique(s.push((k, e))),
{
    let t = s.push((k, e));
    assert forall|a: int, b: int| 0 <= a < b < t.len() implies (#[trigger] t[a]).0@ != (
    #[trigger] t[b]).0@ by {
        if b < s.len() {
            assert(t[a] == s[a] && t[b] == s[b]);
        } else {
            assert(t[a] == s[a] && t[b] == (k, e));
        }
    }
}

/// Copy a byte string.
pub(crate) fn copy_bytes(v: &Vec<u8>) -> (r: Vec<u8>)
    ensures
        r@ == v@,
{
    let mut r: Vec<u8> = Vec::new();
    let mut i: usize = 0;
    while i < v.len()
        invariant
            i <= v@.len(),
            r@ == v@.subrange(0, i as int),
        decreases v@.len() - i,
    {
        r.push(v[i]);
        assert(r@ =~= v@.subrange(0, (i + 1) as int));
        i = i + 1;
    }
    assert(r@ =~= v@);
    r
}

/// Copy a list of byte strings.
fn copy_list(l: &Vec<Vec<u8>>) -> (r: Vec<Vec<u8>>)
    ensures
        r.deep_view() == l.deep_view(),
{
    let mut r: Vec<Vec<u8>> = Vec::new();
    let mut i: usize = 0;
    while i < l.len()
        invariant
            i <= l@.len(),
            r@.len() == i,
            forall|j: int| 0 <= j < i ==> (#[trigger] r@[j]).deep_view() == l@[j].deep_view(),
        decreases l@.len() - i,
    {
        let b = copy_bytes(&l[i]);
        proof {
            assert(b.deep_view() =~= l@[i as int].deep_view());
        }
        r.push(b);
        i = i + 1;
    }
    assert forall|j: int| 0 <= j < r@.len() implies #[trigger] r.deep_view()[j] == l.deep_view()[j]
        by {
        assert(r.deep_view()[j] == r@[j].deep_view());
        assert(l.deep_view()[j] == l@[j].deep_view());
    }
    assert(r.deep_view() =~= l.deep_view());
    r
}

/// Copy a list of byte-string pairs.
fn copy_pairs(l: &Vec<(Vec<u8>, Vec<u8>)>) -> (r: Vec<(Vec<u8>, Vec<u8>)>)
    ensures
        r.deep_view() == l.deep_view(),
{
    let mut r: Vec<(Vec<u8>, Vec<u8>)> = Vec::new();
    let mut i: usize = 0;
    while i < l.len()
        invariant
            i <= l@.len(),
            r@.len() == i,
            forall|j: int| 0 <= j < i ==> (#[trigger] r@[j]).deep_view() == l@[j].deep_view(),
        decreases l@.len() - i,
    {
        let p: &(Vec<u8>, Vec<u8>) = &l[i];
        let a = copy_bytes(&p.0);
        let b = copy_bytes(&p.1);
        proof {
            assert(a.deep_view() =~= l@[i as int].0.deep_view());
            assert(b.deep_view() =~= l@[i as int].1.deep_view());
            assert((a, b).deep_view() == l@[i as int].deep_view());
        }
        r.push((a, b));
        i = i + 1;
    }
    assert forall|j: int| 0 <= j < r@.len() implies #[trigger] r.deep_view()[j] == l.deep_view()[j]
        by {
        assert(r.deep_view()[j] == r@[j].deep_view());
        assert(l.deep_view()[j] == l@[j].deep_view());
    }
    assert(r.deep_view() =~= l.deep_view());
    r
}

/// Copy a value, preserving its mathematical content.
fn clone_value(d: &DataType) -> (r: DataType)
    ensures
        value_model(r) == value_model(*d),
{
    match d {
        DataType::String(s) => DataType::String(copy_bytes(s)),
        DataType::List(l) => DataType::List(copy_list(l)),
        DataType::SetData(l) => DataType::SetData(copy_list(l)),
        DataType::Hash(l) => DataType::Hash(copy_pairs(l)),
    }
}

/// Compare two byte strings.
pub(crate) fn bytes_eq(a: &Vec<u8>, b: &Vec<u8>) -> (r: bool)
    ensures
        r == (a@ == b@),
{
    if a.len() != b.len() {
        return false;
    }
    let mut i: usize = 0;
    while i < a.len()
        invariant
            i <= a@.len(),
            a@.len() == b@.len(),
            forall|j: int| 0 <= j < i ==> a@[j] == #[trigger] b@[j],
        decreases a@.len() - i,
    {
        if a[i] != b[i] {
            return false;
        }
        i = i + 1;
    }
    assert(a@ =~= b@);
    true
}

impl Db {
    /// Each key appears in at most one cell.
    pub closed spec fn wf(&self) -> bool {
        keys_unique(self.entries@)
    }

    /// An empty store.
    pub fn new() -> (r: Db)
        ensures
            r.wf(),
            r@ == Map::<Seq<u8>, EntryModel>::empty(),
    {
        Db { entries: Vec::new() }
    }

    /// The cell index holding `key`, if any.
    fn find_idx(&self, key: &Vec<u8>) -> (r: Option<usize>)
        ensures
            match r {
                Option::Some(i) => i < self.entries@.len() && self.entries@[i as int].0@ == key@,
                Option::None => forall|j: int| 0 <= j < self.entries@.len() ==> (
                #[trigger] self.entries@[j]).0@ != key@,
            },
    {
        let mut i: usize = 0;
        while i < self.entries.len()
            invariant
                i <= self.entries@.len(),
                forall|j: int| 0 <= j < i ==> (#[trigger] self.entries@[j]).0@ != key@,
            decreases self.entries@.len() - i,
        {
            let pair: &(Vec<u8>, Entry) = &self.entries[i];
            if bytes_eq(&pair.0, key) {
                return Some(i);
            }
            i = i + 1;
        }
        None
    }

    /// Observe `key` at `now`: delete its entry if the deadline has passed.
    fn expire_key(&mut self, key: &Vec<u8>, now: u64)
        requires
            old(self).wf(),
        ensures
            final(self).wf(),
            final(self)@ == expire_effect(old(self)@, key@, now),
    {
        let ghost s0 = self.entries@;
        match self.find_idx(key) {
            Option::None => {
                proof {
                    lemma_entries_map_absent(s0, key@);
                }
            },
            Option::Some(i) => {
                proof {
                    lemma_entries_map_index(s0, i as int);
                }
                let expired: bool = match self.entries[i].1.deadline {
                    Option::Some(d) => now >= d,
                    Option::None => false,
                };
                if expired {
                    self.entries.remove(i);
                    proof {
                        lemma_entries_map_remove(s0, i as int);
                        assert(self.entries@ =~= s0.remove(i as int));
                        assert forall|a: int, b: int| 0 <= a < b < self.entries@.len() implies (
                        #[trigger] self.entries@[a]).0@ != (#[trigger] self.entries@[b]).0@ by {
                            if b < i {
                                assert(self.entries@[a] == s0[a] && self.entries@[b] == s0[b]);
                            } else if a < i {
                                assert(self.entries@[a] == s0[a] && self.entries@[b] == s0[b + 1]);
                            } else {
                                assert(self.entries@[a] == s0[a + 1] && self.entries@[b] == s0[b
                                    + 1]);
                            }
                        }
                    }
                }
            },
        }
    }

    /// Look `key` up at `now`. An absent or expired key reads as nothing;
    /// expiration deletes the entry; otherwise a copy of the value comes
    /// back and the store is unchanged.
    pub fn get(&mut self, key: &Vec<u8>, now: u64) -> (r: Option<DataType>)
        requires
            old(self).wf(),
        ensures
            final(self).wf(),
            final(self)@ == expire_effect(old(self)@, key@, now),
            ({
                let m = expire_effect(old(self)@, key@, now);
                match r {
                    Option::Some(v) => m.contains_key(key@) && value_model(v) == m[key@].value,
                    Option::None => !m.contains_key(key@),
                }
            }),
    {
        self.expire_key(key, now);
        let ghost s1 = self.entries@;
        match self.find_idx(key) {
            Option::None => {
                proof {
                    lemma_entries_map_absent(s1, key@);
                }
                None
            },
            Option::Some(i) => {
                proof {
                    lemma_entries_map_index(s1, i as int);
                }
                let pair: &(Vec<u8>, Entry) = &self.entries[i];
                Some(clone_value(&pair.1.value))
            },
        }
    }

    /// Insert or overwrite `key` as a string entry with the given deadline.
    pub fn set(&mut self, key: Vec<u8>, value: Vec<u8>, deadline: Option<u64>)
        requires
            old(self).wf(),
        ensures
            final(self).wf(),
            final(self)@ == old(self)@.insert(
                key@,
                EntryModel { value: ValueModel::Str(value@), deadline },
            ),
    {
        let ghost s0 = self.entries@;
        let entry = Entry { value: DataType::String(value), deadline };
        match self.find_idx(&key) {
            Option::None => {
                self.entries.push((key, entry));
                proof {
                    lemma_entries_map_push(s0, key, entry);
                    assert forall|a: int, b: int| 0 <= a < b < self.entries@.len() implies (
                    #[trigger] self.entries@[a]).0@ != (#[trigger] self.entries@[b]).0@ by {
                        if b < s0.len() {
                            assert(self.entries@[a] == s0[a] && self.entries@[b] == s0[b]);
                        } else {
                            assert(self.entries@[a] == s0[a]);
                        }
                    }
                }
            },
            Option::Some(i) => {
                proof {
                    lemma_entries_map_index(s0, i as int);
                }
                let old_pair = self.entries.remove(i);
                let ghost s1 = self.entries@;
                self.entries.push((old_pair.0, entry));
                proof {
                    lemma_entries_map_remove(s0, i as int);
                    assert(s1 =~= s0.remove(i as int));
                    assert forall|a: int, b: int| 0 <= a < b < s1.len() implies (
                    #[trigger] s1[a]).0@ != (#[trigger] s1[b]).0@ by {
                        if b < i {
                            assert(s1[a] == s0[a] && s1[b] == s0[b]);
                        } else if a < i {
                            assert(s1[a] == s0[a] && s1[b] == s0[b + 1]);
                        } else {
                            assert(s1[a] == s0[a + 1] && s1[b] == s0[b + 1]);
                        }
                    }
                    lemma_entries_map_push(s1, old_pair.0, entry);
                    assert forall|j: int| 0 <= j < s1.len() implies (#[trigger] s1[j]).0@ != key@
                        by {
                        if j < i {
                            assert(s1[j] == s0[j]);
                        } else {
                            assert(s1[j] == s0[j + 1]);
                        }
                    }
                    lemma_entries_map_absent(s1, key@);
                    assert forall|a: int, b: int| 0 <= a < b < self.entries@.len() implies (
                    #[trigger] self.entries@[a]).0@ != (#[trigger] self.entries@[b]).0@ by {
                        if b < s1.len() {
                            assert(self.entries@[a] == s1[a] && self.entries@[b] == s1[b]);
                        } else {
                            assert(self.entries@[a] == s1[a]);
                        }
                    }
                    assert(old_pair.0@ == key@);
                    assert(final(self)@ =~= old(self)@.insert(
                        key@,
                        EntryModel { value: ValueModel::Str(value@), deadline },
                    ));
                }
            },
        }
    }

    /// Append `values` to the list at `key`, creating the list if the key
    /// is absent or expired; another kind of value is left untouched and
    /// reported as a type error.
    pub fn rpush(&mut self, key: Vec<u8>, values: Vec<Vec<u8>>, now: u64) -> (r: Result<
        usize,
        (),
    >)
        requires
            old(self).wf(),
            values@.len() >= 1,
        ensures
            final(self).wf(),
            match rpush_step(old(self)@, key@, values.deep_view(), now) {
                Option::Some(p) => r matches Ok(n) && n as int == p.1 && final(self)@ == p.0,
                Option::None => r is Err && final(self)@ == expire_effect(
                    old(self)@,
                    key@,
                    now,
                ),
            },
    {
        let ghost vs = values.deep_view();
        self.expire_key(&key, now);
        let ghost m1 = self@;
        let ghost s1 = self.entries@;
        match self.find_idx(&key) {
            Option::None => {
                proof {
                    lemma_entries_map_absent(s1, key@);
                }
                let n = values.len();
                let entry = Entry { value: DataType::List(values), deadline: None };
                self.entries.push((key, entry));
                proof {
                    lemma_unique_push(s1, key, entry);
                    lemma_entries_map_push(s1, key, entry);
                }
                Ok(n)
            },
            Option::Some(i) => {
                proof {
                    lemma_entries_map_index(s1, i as int);
                }
                let pair = self.entries.remove(i);
                let ghost s2 = self.entries@;
                proof {
                    lemma_entries_map_remove(s1, i as int);
                    lemma_unique_remove(s1, i as int);
                    assert(s2 =~= s1.remove(i as int));
                }
                let (key0, entry0) = pair;
                let Entry { value: val0, deadline: dl0 } = entry0;
                match val0 {
                    DataType::List(mut list) => {
                        let ghost l0 = list.deep_view();
                        let mut tail = values;
                        let ghost tview = tail@;
                        list.append(&mut tail);
                        proof {
                            assert forall|t: int| 0 <= t < list@.len() implies (
                            #[trigger] list@[t]).deep_view() == (l0 + vs)[t] by {
                                if t >= l0.len() {
                                    assert(list@[t] == tview[t - l0.len()]);
                                }
                            }
                            assert forall|t: int| 0 <= t < list@.len() implies list.deep_view()[t]
                                == (l0 + vs)[t] by {
                                assert(list.deep_view()[t] == list@[t].deep_view());
                            }
                            assert(list.deep_view() =~= l0 + vs);
                        }
                        let n = list.len();
                        let newentry = Entry { value: DataType::List(list), deadline: dl0 };
                        self.entries.push((key0, newentry));
                        proof {
                            lemma_unique_push(s2, key0, newentry);
                            lemma_entries_map_push(s2, key0, newentry);
                            assert(final(self)@ =~= m1.insert(
                                key@,
                                EntryModel { value: ValueModel::ListV(l0 + vs), deadline: dl0 },
                            ));
                        }
                        Ok(n)
                    },
                    other => {
                        let newentry = Entry { value: other, deadline: dl0 };
                        self.entries.push((key0, newentry));
                        proof {
                            lemma_unique_push(s2, key0, newentry);
                            lemma_entries_map_push(s2, key0, newentry);
                            assert(entry_model(newentry) == m1[key@]);
                            assert(final(self)@ =~= m1);
                        }
                        Err(())
                    },
                }
            },
        }
    }

    /// Insert each of `values` at the head of the list at `key` in turn,
    /// creating the list if the key is absent or expired; another kind of
    /// value is left untouched and reported as a type error.
    pub fn lpush(&mut self, key: Vec<u8>, values: Vec<Vec<u8>>, now: u64) -> (r: Result<
        usize,
        (),
    >)
        requires
            old(self).wf(),
            values@.len() >= 1,
        ensures
            final(self).wf(),
            match lpush_step(old(self)@, key@, values.deep_view(), now) {
                Option::Some(p) => r matches Ok(n) && n as int == p.1 && final(self)@ == p.0,
                Option::None => r is Err && final(self)@ == expire_effect(
                    old(self)@,
                    key@,
                    now,
                ),
            },
    {
        let ghost vs = values.deep_view();
        let mut rev: Vec<Vec<u8>> = Vec::new();
        let mut j: usize = values.len();
        while j > 0
            invariant
                j <= values@.len(),
                rev@.len() == values@.len() - j,
                vs == values.deep_view(),
                forall|t: int| 0 <= t < rev@.len() ==> (#[trigger] rev@[t]).deep_view() == vs[
                    vs.len() - 1 - t],
            decreases j,
        {
            j = j - 1;
            let b = copy_bytes(&values[j]);
            proof {
                assert(b.deep_view() =~= values@[j as int].deep_view());
                assert(values@[j as int].deep_view() == vs[j as int]);
            }
            rev.push(b);
        }
        proof {
            assert forall|t: int| 0 <= t < rev@.len() implies rev.deep_view()[t] == vs.reverse()[t]
                by {
                assert(rev.deep_view()[t] == rev@[t].deep_view());
            }
            assert(rev.deep_view() =~= vs.reverse());
        }
        self.expire_key(&key, now);
        let ghost m1 = self@;
        let ghost s1 = self.entries@;
        match self.find_idx(&key) {
            Option::None => {
                proof {
                    lemma_entries_map_absent(s1, key@);
                }
                let n = rev.len();
                let entry = Entry { value: DataType::List(rev), deadline: None };
                self.entries.push((key, entry));
                proof {
                    lemma_unique_push(s1, key, entry);
                    lemma_entries_map_push(s1, key, entry);
                }
                Ok(n)
            },
            Option::Some(i) => {
                proof {
                    lemma_entries_map_index(s1, i as int);
                }
                let pair = self.entries.remove(i);
                let ghost s2 = self.entries@;
                proof {
                    lemma_entries_map_remove(s1, i as int);
                    lemma_unique_remove(s1, i as int);
                    assert(s2 =~= s1.remove(i as int));
                }
                let (key0, entry0) = pair;
                let Entry { value: val0, deadline: dl0 } = entry0;
                match val0 {
                    DataType::List(mut list) => {
                        let ghost l0 = list.deep_view();
                        let mut combined = rev;
                        let ghost lview = list@;
                        let ghost rview = combined@;
                        let ghost rdv = combined.deep_view();
                        combined.append(&mut list);
                        proof {
                            assert forall|t: int| 0 <= t < combined@.len() implies (
                            #[trigger] combined@[t]).deep_view() == (vs.reverse() + l0)[t] by {
                                if t >= vs.len() {
                                    assert(combined@[t] == lview[t - vs.len()]);
                                } else {
                                    assert(combined@[t] == rview[t]);
                                    assert(rdv[t] == rview[t].deep_view());
                                }
                            }
                            assert forall|t: int| 0 <= t < combined@.len() implies combined.deep_view()[t]
                                == (vs.reverse() + l0)[t] by {
                                assert(combined.deep_view()[t] == combined@[t].deep_view());
                            }
                            assert(combined.deep_view() =~= vs.reverse() + l0);
                        }
                        let n = combined.len();
                        let newentry = Entry { value: DataType::List(combined), deadline: dl0 };
                        self.entries.push((key0, newentry));
                        proof {
                            lemma_unique_push(s2, key0, newentry);
                            lemma_entries_map_push(s2, key0, newentry);
                            assert(final(self)@ =~= m1.insert(
                                key@,
                                EntryModel {
                                    value: ValueModel::ListV(vs.reverse() + l0),
                                    deadline: dl0,
                                },
                            ));
                        }
                        Ok(n)
                    },
                    other => {
                        let newentry = Entry { value: other, deadline: dl0 };
                        self.entries.push((key0, newentry));
                        proof {
                            lemma_unique_push(s2, key0, newentry);
                            lemma_entries_map_push(s2, key0, newentry);
                            assert(entry_model(newentry) == m1[key@]);
                            assert(final(self)@ =~= m1);
                        }
                        Err(())
                    },
                }
            },
        }
    }

    /// The length of the list at `key`; an absent or expired key reads as
    /// zero, another kind of value is a type error.
    pub fn llen(&mut self, key: &Vec<u8>, now: u64) -> (r: Result<usize, ()>)
        requires
            old(self).wf(),
        ensures
            final(self).wf(),
            final(self)@ == expire_effect(old(self)@, key@, now),
            ({
                let m = expire_effect(old(self)@, key@, now);
                if !m.contains_key(key@) {
                    r matches Ok(n) && n == 0
                } else {
                    match m[key@].value {
                        ValueModel::ListV(l) => r matches Ok(n) && n as int == l.len(),
                        _ => r is Err,
                    }
                }
            }),
    {
        self.expire_key(key, now);
        let ghost s1 = self.entries@;
        match self.find_idx(key) {
            Option::None => {
                proof {
                    lemma_entries_map_absent(s1, key@);
                }
                Ok(0)
            },
            Option::Some(i) => {
                proof {
                    lemma_entries_map_index(s1, i as int);
                }
                let pair: &(Vec<u8>, Entry) = &self.entries[i];
                match &pair.1.value {
                    DataType::List(l) => Ok(l.len()),
                    _ => Err(()),
                }
            },
        }
    }

    /// The inclusive slice of the list at `key` under the range semantics
    /// of `lrange_slice`; an absent or expired key reads as empty, another
    /// kind of value is a type error.
    pub fn lrange(&mut self, key: &Vec<u8>, start: i64, end: i64, now: u64) -> (r: Result<
        Vec<Vec<u8>>,
        (),
    >)
        requires
            old(self).wf(),
        ensures
            final(self).wf(),
            final(self)@ == expire_effect(old(self)@, key@, now),
            ({
                let m = expire_effect(old(self)@, key@, now);
                if !m.contains_key(key@) {
                    r matches Ok(v) && v.deep_view() == Seq::<Seq<u8>>::empty()
                } else {
                    match m[key@].value {
                        ValueModel::ListV(l) => r matches Ok(v) && v.deep_view() == lrange_slice(
                            l,
                            start as int,
                            end as int,
                        ),
                        _ => r is Err,
                    }
                }
            }),
    {
        self.expire_key(key, now);
        let ghost s1 = self.entries@;
        match self.find_idx(key) {
            Option::None => {
                proof {
                    lemma_entries_map_absent(s1, key@);
                }
                let out: Vec<Vec<u8>> = Vec::new();
                proof {
                    assert(out.deep_view() =~= Seq::<Seq<u8>>::empty());
                }
                Ok(out)
            },
            Option::Some(i) => {
                proof {
                    lemma_entries_map_index(s1, i as int);
                }
                let pair: &(Vec<u8>, Entry) = &self.entries[i];
                match &pair.1.value {
                    DataType::List(l) => {
                        let ghost lv = l.deep_view();
                        let len = l.len();
                        let li: i128 = len as i128;
                        let s0: i128 = if start < 0 {
                            li + start as i128
                        } else {
                            start as i128
                        };
                        let e0: i128 = if end < 0 {
                            li + end as i128
                        } else {
                            end as i128
                        };
                        let lo: i128 = if s0 < 0 {
                            0
                        } else {
                            s0
                        };
                        let hi: i128 = if e0 >= li {
                            li - 1
                        } else {
                            e0
                        };
                        if len == 0 || lo > hi || lo >= li {
                            let out: Vec<Vec<u8>> = Vec::new();
                            proof {
                                assert(out.deep_view() =~= lrange_slice(
                                    lv,
                                    start as int,
                                    end as int,
                                ));
                            }
                            Ok(out)
                        } else {
                            let a: usize = lo as usize;
                            let bnd: usize = hi as usize;
                            let mut out: Vec<Vec<u8>> = Vec::new();
                            let mut t: usize = a;
                            while t <= bnd
                                invariant
                                    a <= t <= bnd + 1,
                                    bnd < l@.len(),
                                    bnd < usize::MAX,
                                    lv == l.deep_view(),
                                    out@.len() == t - a,
                                    forall|u: int| 0 <= u < out@.len() ==> (
                                    #[trigger] out@[u]).deep_view() == lv[a + u],
                                decreases bnd + 1 - t,
                            {
                                let b = copy_bytes(&l[t]);
                                proof {
                                    assert(b.deep_view() =~= l@[t as int].deep_view());
                                    assert(l@[t as int].deep_view() == lv[t as int]);
                                }
                                out.push(b);
                                t = t + 1;
                            }
                            proof {
                                assert forall|u: int| 0 <= u < out@.len() implies out.deep_view()[u]
                                    == lrange_slice(lv, start as int, end as int)[u] by {
                                    assert(out.deep_view()[u] == out@[u].deep_view());
                                }
                                assert(out.deep_view() =~= lrange_slice(
                                    lv,
                                    start as int,
                                    end as int,
                                ));
                            }
                            Ok(out)
                        }
                    },
                    _ => Err(()),
                }
            },
        }
    }
}

} // verus!
