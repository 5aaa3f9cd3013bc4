//! The key-value store: single values and lists under byte-string keys, with optional expiry.
//!
//! Times are nanoseconds since the Unix epoch. An entry whose expiry lies before the current
//! time is dropped when a read meets it.

use vstd::prelude::*;
use std::collections::VecDeque;
use crate::byte_strings::{bytes_equal, copy_bytes, lemma_views_push, views};
use crate::clock::{clock_reading, now_nanos};
use crate::command::parse_errors;
use crate::command::CommandError;

verus! {

/// Store `value` under `key`, replacing what was there, to expire at `expiration`.
pub struct SetOperation {
    pub key: Vec<u8>,
    pub value: Vec<u8>,
    pub expiration: Option<i128>,
}

/// Which end of the list a push adds to.
#[derive(Debug, Clone, Copy, PartialEq, Eq, Structural)]
pub enum PushKind {
    RPush,
    LPush,
}

/// Add `values` to the list under `key`.
pub struct PushOperation {
    pub kind: PushKind,
    pub key: Vec<u8>,
    pub values: Vec<Vec<u8>>,
}

/// Read the elements `start..=end` of the list under `key`.
pub struct RangeOperation {
    pub key: Vec<u8>,
    pub start: isize,
    pub end: isize,
}

enum Value {
    Single(Vec<u8>),
    List(VecDeque<Vec<u8>>),
}

struct StoredValue {
    value: Value,
    expires_at: Option<i128>,
}

/// What a key holds.
pub enum ValueView {
    Single(Seq<u8>),
    List(Seq<Seq<u8>>),
}

/// What a key holds, and when it expires.
pub struct EntryView {
    pub value: ValueView,
    pub expires_at: Option<int>,
}

pub open spec fn opt_int(o: Option<i128>) -> Option<int> {
    match o {
        Some(t) => Some(t as int),
        None => None,
    }
}

spec fn stored_view(s: StoredValue) -> EntryView {
    EntryView {
        value: match s.value {
            Value::Single(v) => ValueView::Single(v@),
            Value::List(l) => ValueView::List(views(l@)),
        },
        expires_at: opt_int(s.expires_at),
    }
}

/// The store: each key at most once.
pub struct Storage {
    entries: Vec<(Vec<u8>, StoredValue)>,
}

impl Storage {
    spec fn has_key(self, k: Seq<u8>) -> bool {
        exists|i: int| 0 <= i < self.entries@.len() && #[trigger] self.entries@[i].0@ == k
    }

    spec fn index_of(self, k: Seq<u8>) -> int {
        choose|i: int| 0 <= i < self.entries@.len() && #[trigger] self.entries@[i].0@ == k
    }

    /// No key occurs twice, and no list is longer than a Rust collection can be.
    #[verifier::type_invariant]
    spec fn wf(self) -> bool {
        &&& forall|i: int, j: int|
            0 <= i < self.entries@.len() && 0 <= j < self.entries@.len() && i != j
                ==> #[trigger] self.entries@[i].0@ != #[trigger] self.entries@[j].0@
        &&& forall|i: int|
            0 <= i < self.entries@.len() ==> (#[trigger] self.entries@[i].1.value matches Value::List(l)
                ==> l@.len() <= isize::MAX)
    }
}

impl View for Storage {
    type V = Map<Seq<u8>, EntryView>;

    closed spec fn view(&self) -> Map<Seq<u8>, EntryView> {
        Map::new(
            |k: Seq<u8>| self.has_key(k),
            |k: Seq<u8>| stored_view(self.entries@[self.index_of(k)].1),
        )
    }
}

// ------------------------------------------------------------------------------------------
// The operations, on the store's map.
// ------------------------------------------------------------------------------------------

/// The entry has expired by `now`.
pub open spec fn expired(e: EntryView, now: int) -> bool {
    e.expires_at matches Some(d) && d < now
}

pub open spec fn spec_set(m: Map<Seq<u8>, EntryView>, key: Seq<u8>, value: Seq<u8>, expiration: Option<int>) -> Map<Seq<u8>, EntryView> {
    m.insert(key, EntryView { value: ValueView::Single(value), expires_at: expiration })
}

/// A read of `key` at `now`: the value (the last element, for a list), and the map after an
/// expired entry is dropped.
pub open spec fn spec_get(m: Map<Seq<u8>, EntryView>, key: Seq<u8>, now: int) -> (Option<Seq<u8>>, Map<Seq<u8>, EntryView>) {
    if !m.contains_key(key) {
        (None, m)
    } else if expired(m[key], now) {
        (None, m.remove(key))
    } else {
        match m[key].value {
            ValueView::Single(v) => (Some(v), m),
            ValueView::List(l) => (if l.len() == 0 {
                None
            } else {
                Some(l.last())
            }, m),
        }
    }
}

/// The list that a push starts from: the list under `key`, a single value as a list of one,
/// or an empty list.
pub open spec fn list_before_push(m: Map<Seq<u8>, EntryView>, key: Seq<u8>) -> Seq<Seq<u8>> {
    if !m.contains_key(key) {
        Seq::empty()
    } else {
        match m[key].value {
            ValueView::List(l) => l,
            ValueView::Single(v) => seq![v],
        }
    }
}

/// A push: `RPush` appends the values, `LPush` puts them, in their order, in front. The
/// entry keeps its expiry. Gives the new length and the new map.
pub open spec fn spec_push(m: Map<Seq<u8>, EntryView>, kind: PushKind, key: Seq<u8>, values: Seq<Seq<u8>>) -> (nat, Map<Seq<u8>, EntryView>) {
    let old_list = list_before_push(m, key);
    let new_list = match kind {
        PushKind::RPush => old_list + values,
        PushKind::LPush => values + old_list,
    };
    let expires_at = if m.contains_key(key) {
        m[key].expires_at
    } else {
        None
    };
    (new_list.len(), m.insert(key, EntryView { value: ValueView::List(new_list), expires_at }))
}

/// The inclusive bounds that LRANGE reads from a list of length `len`: negative indices count
/// from the end, a start still negative becomes 0, an end past the tail becomes the last
/// index, and the range is empty when the start is past the tail, the end is still negative,
/// or the start is past the end.
pub open spec fn spec_list_range_bounds(start: int, end: int, len: int) -> Option<(int, int)> {
    let s = if start < 0 {
        if start + len < 0 {
            0
        } else {
            start + len
        }
    } else {
        start
    };
    let e = if end < 0 {
        end + len
    } else if end >= len {
        len - 1
    } else {
        end
    };
    if len == 0 || s >= len || e < 0 || s > e {
        None
    } else {
        Some((s, e))
    }
}

/// A range read of `key` at `now`, and the map after an expired entry is dropped.
pub open spec fn spec_get_range(m: Map<Seq<u8>, EntryView>, key: Seq<u8>, start: int, end: int, now: int) -> (Result<Seq<Seq<u8>>, CommandError>, Map<Seq<u8>, EntryView>) {
    if !m.contains_key(key) {
        (Ok(Seq::empty()), m)
    } else if expired(m[key], now) {
        (Ok(Seq::empty()), m.remove(key))
    } else {
        match m[key].value {
            ValueView::List(l) => match spec_list_range_bounds(start, end, l.len() as int) {
                Some((s, e)) => (Ok(l.subrange(s, e + 1)), m),
                None => (Ok(Seq::empty()), m),
            },
            ValueView::Single(_) => (
                Err(CommandError::InvalidArgument(parse_errors::VALUE_TYPE_MISMATCH)),
                m,
            ),
        }
    }
}

/// The length of the list under `key` at `now` (a single value counts as a list of one), and
/// the map after an expired entry is dropped.
pub open spec fn spec_llen(m: Map<Seq<u8>, EntryView>, key: Seq<u8>, now: int) -> (nat, Map<Seq<u8>, EntryView>) {
    if !m.contains_key(key) {
        (0, m)
    } else if expired(m[key], now) {
        (0, m.remove(key))
    } else {
        match m[key].value {
            ValueView::List(l) => (l.len(), m),
            ValueView::Single(_) => (1, m),
        }
    }
}

pub open spec fn opt_view(o: Option<Vec<u8>>) -> Option<Seq<u8>> {
    match o {
        Some(v) => Some(v@),
        None => None,
    }
}

pub open spec fn range_view(r: Result<Vec<Vec<u8>>, CommandError>) -> Result<Seq<Seq<u8>>, CommandError> {
    match r {
        Ok(v) => Ok(views(v@)),
        Err(e) => Err(e),
    }
}

// ------------------------------------------------------------------------------------------
// The executable store.
// ------------------------------------------------------------------------------------------

impl Storage {
    proof fn lemma_view_at(self, i: int)
        requires
            self.wf(),
            0 <= i < self.entries@.len(),
        ensures
            self@.contains_key(self.entries@[i].0@),
            self@[self.entries@[i].0@] == stored_view(self.entries@[i].1),
    {
        let k = self.entries@[i].0@;
        assert(self.has_key(k));
        let j = self.index_of(k);
        assert(self.entries@[j].0@ == k);
    }

    /// An empty store.
    pub fn new() -> (s: Storage)
        ensures
            s@ == Map::<Seq<u8>, EntryView>::empty(),
    {
        let s = Storage { entries: Vec::new() };
        assert(s@ =~= Map::<Seq<u8>, EntryView>::empty());
        s
    }

    fn find(&self, key: &[u8]) -> (r: Option<usize>)
        requires
            self.wf(),
        ensures
            match r {
                Some(i) => i < self.entries@.len() && self.entries@[i as int].0@ == key@,
                None => !self@.contains_key(key@),
            },
    {
        let mut i: usize = 0;
        while i < self.entries.len()
            invariant
                i <= self.entries@.len(),
                forall|j: int| 0 <= j < i ==> self.entries@[j].0@ != key@,
            decreases self.entries@.len() - i,
        {
            if bytes_equal(self.entries[i].0.as_slice(), key) {
                return Some(i);
            }
            i += 1;
        }
        None
    }

    fn replace_at(&mut self, i: usize, key: Vec<u8>, sv: StoredValue)
        requires
            old(self).wf(),
            i < old(self).entries@.len(),
            old(self).entries@[i as int].0@ == key@,
            sv.value matches Value::List(l) ==> l@.len() <= isize::MAX,
        ensures
            final(self).wf(),
            final(self)@ == old(self)@.insert(key@, stored_view(sv)),
    {
        let ghost old_self = *self;
        let mut entries: Vec<(Vec<u8>, StoredValue)> = Vec::new();
        std::mem::swap(&mut entries, &mut self.entries);
        entries.set(i, (key, sv));
        let ghost new_self = Storage { entries: entries };
        proof {
            let k = key@;
            assert(new_self.wf()) by {
                assert forall|a: int, b: int|
                    0 <= a < new_self.entries@.len() && 0 <= b < new_self.entries@.len() && a != b
                        implies #[trigger] new_self.entries@[a].0@ != #[trigger] new_self.entries@[b].0@ by {
                    assert(old_self.entries@[a].0@ != old_self.entries@[b].0@);
                }
            }
            assert forall|k2: Seq<u8>| #![trigger new_self@.contains_key(k2)] new_self@.contains_key(k2) <==> old_self@.insert(k, stored_view(sv)).contains_key(k2) by {
                if old_self.has_key(k2) {
                    let j = choose|j: int| 0 <= j < old_self.entries@.len() && #[trigger] old_self.entries@[j].0@ == k2;
                    assert(new_self.entries@[j].0@ == k2);
                }
                if new_self.has_key(k2) {
                    let j = choose|j: int| 0 <= j < new_self.entries@.len() && #[trigger] new_self.entries@[j].0@ == k2;
                    assert(old_self.entries@[j].0@ == k2);
                }
                if k2 == k {
                    assert(new_self.entries@[i as int].0@ == k);
                }
            }
            assert forall|k2: Seq<u8>| #[trigger] new_self@.contains_key(k2) implies new_self@[k2] == old_self@.insert(k, stored_view(sv))[k2] by {
                let j = new_self.index_of(k2);
                if k2 == k {
                    new_self.lemma_view_at(i as int);
                } else {
                    assert(j != i);
                    assert(old_self.entries@[j].0@ == k2);
                    old_self.lemma_view_at(j);
                    new_self.lemma_view_at(j);
                }
            }
            assert(new_self@ =~= old_self@.insert(k, stored_view(sv)));
        }
        self.entries = entries;
    }

    fn append(&mut self, key: Vec<u8>, sv: StoredValue)
        requires
            old(self).wf(),
            !old(self)@.contains_key(key@),
            sv.value matches Value::List(l) ==> l@.len() <= isize::MAX,
        ensures
            final(self).wf(),
            final(self)@ == old(self)@.insert(key@, stored_view(sv)),
    {
        let ghost old_self = *self;
        let ghost k = key@;
        let mut entries: Vec<(Vec<u8>, StoredValue)> = Vec::new();
        std::mem::swap(&mut entries, &mut self.entries);
        entries.push((key, sv));
        let ghost new_self = Storage { entries: entries };
        proof {
            let n = old_self.entries@.len() as int;
            assert forall|a: int| 0 <= a < n implies #[trigger] old_self.entries@[a].0@ != k by {
                if old_self.entries@[a].0@ == k {
                    assert(old_self.has_key(k));
                }
            }
            assert(new_self.wf()) by {
                assert forall|a: int, b: int|
                    0 <= a < new_self.entries@.len() && 0 <= b < new_self.entries@.len() && a != b
                        implies #[trigger] new_self.entries@[a].0@ != #[trigger] new_self.entries@[b].0@ by {
                    if a < n && b < n {
                        assert(old_self.entries@[a].0@ != old_self.entries@[b].0@);
                    } else if a < n {
                        assert(old_self.entries@[a].0@ != k);
                    } else {
                        assert(old_self.entries@[b].0@ != k);
                    }
                }
            }
            assert forall|k2: Seq<u8>| #![trigger new_self@.contains_key(k2)] new_self@.contains_key(k2) <==> old_self@.insert(k, stored_view(sv)).contains_key(k2) by {
                if old_self.has_key(k2) {
                    let j = choose|j: int| 0 <= j < old_self.entries@.len() && #[trigger] old_self.entries@[j].0@ == k2;
                    assert(new_self.entries@[j].0@ == k2);
                }
                if new_self.has_key(k2) {
                    let j = choose|j: int| 0 <= j < new_self.entries@.len() && #[trigger] new_self.entries@[j].0@ == k2;
                    if j < n {
                        assert(old_self.entries@[j].0@ == k2);
                    }
                }
                if k2 == k {
                    assert(new_self.entries@[n].0@ == k);
                }
            }
            assert forall|k2: Seq<u8>| #[trigger] new_self@.contains_key(k2) implies new_self@[k2] == old_self@.insert(k, stored_view(sv))[k2] by {
                let j = new_self.index_of(k2);
                if k2 == k {
                    new_self.lemma_view_at(n);
                } else {
                    assert(j != n);
                    assert(old_self.entries@[j].0@ == k2);
                    old_self.lemma_view_at(j);
                    new_self.lemma_view_at(j);
                }
            }
            assert(new_self@ =~= old_self@.insert(k, stored_view(sv)));
        }
        self.entries = entries;
    }

    fn remove_at(&mut self, i: usize)
        requires
            old(self).wf(),
            i < old(self).entries@.len(),
        ensures
            final(self).wf(),
            final(self)@ == old(self)@.remove(old(self).entries@[i as int].0@),
    {
        let ghost old_self = *self;
        let ghost k = self.entries@[i as int].0@;
        let mut entries: Vec<(Vec<u8>, StoredValue)> = Vec::new();
        std::mem::swap(&mut entries, &mut self.entries);
        let _removed = entries.remove(i);
        let ghost new_self = Storage { entries: entries };
        proof {
            let n = old_self.entries@.len() as int;
            assert forall|a: int| 0 <= a < new_self.entries@.len() implies #[trigger] new_self.entries@[a]
                == old_self.entries@[if a < i {
                a
            } else {
                a + 1
            }] by {}
            assert(new_self.wf()) by {
                assert forall|a: int, b: int|
                    0 <= a < new_self.entries@.len() && 0 <= b < new_self.entries@.len() && a != b
                        implies #[trigger] new_self.entries@[a].0@ != #[trigger] new_self.entries@[b].0@ by {
                    let a0 = if a < i { a } else { a + 1 };
                    let b0 = if b < i { b } else { b + 1 };
                    assert(old_self.entries@[a0].0@ != old_self.entries@[b0].0@);
                }
                assert forall|a: int| 0 <= a < new_self.entries@.len() implies (#[trigger] new_self.entries@[a].1.value matches Value::List(l) ==> l@.len() <= isize::MAX) by {
                    let a0 = if a < i { a } else { a + 1 };
                    assert(old_self.entries@[a0].1.value == new_self.entries@[a].1.value);
                }
            }
            assert forall|k2: Seq<u8>| #![trigger new_self@.contains_key(k2)] new_self@.contains_key(k2) <==> old_self@.remove(k).contains_key(k2) by {
                if old_self.has_key(k2) && k2 != k {
                    let j = choose|j: int| 0 <= j < old_self.entries@.len() && #[trigger] old_self.entries@[j].0@ == k2;
                    assert(j != i);
                    let j2 = if j < i { j } else { j - 1 };
                    assert(new_self.entries@[j2].0@ == k2);
                }
                if new_self.has_key(k2) {
                    let j = choose|j: int| 0 <= j < new_self.entries@.len() && #[trigger] new_self.entries@[j].0@ == k2;
                    let j0 = if j < i { j } else { j + 1 };
                    assert(old_self.entries@[j0].0@ == k2);
                    assert(j0 != i);
                    assert(old_self.entries@[j0].0@ != old_self.entries@[i as int].0@);
                }
            }
            assert forall|k2: Seq<u8>| #[trigger] new_self@.contains_key(k2) implies new_self@[k2] == old_self@.remove(k)[k2] by {
                let j = new_self.index_of(k2);
                let j0 = if j < i { j } else { j + 1 };
                assert(old_self.entries@[j0].0@ == k2);
                old_self.lemma_view_at(j0);
                new_self.lemma_view_at(j);
            }
            assert(new_self@ =~= old_self@.remove(k));
        }
        self.entries = entries;
    }
}

fn copy_list(l: &VecDeque<Vec<u8>>) -> (r: VecDeque<Vec<u8>>)
    ensures
        views(r@) == views(l@),
{
    let mut out: VecDeque<Vec<u8>> = VecDeque::new();
    let mut i: usize = 0;
    while i < l.len()
        invariant
            i <= l@.len(),
            views(out@) =~= views(l@).take(i as int),
        decreases l@.len() - i,
    {
        let c = copy_bytes(l[i].as_slice());
        proof {
            lemma_views_push(out@, c);
        }
        out.push_back(c);
        i += 1;
    }
    assert(views(l@).take(i as int) =~= views(l@));
    out
}

/// Stores a single value under the key, replacing what the key held.
pub fn set(storage: &mut Storage, operation: SetOperation)
    ensures
        final(storage)@ == spec_set(
            old(storage)@,
            operation.key@,
            operation.value@,
            opt_int(operation.expiration),
        ),
{
    proof {
        use_type_invariant(&*storage);
    }
    let SetOperation { key, value, expiration } = operation;
    let sv = StoredValue { value: Value::Single(value), expires_at: expiration };
    match storage.find(key.as_slice()) {
        Some(i) => storage.replace_at(i, key, sv),
        None => storage.append(key, sv),
    }
}

/// Reads the key at time `now`.
pub fn get_at(storage: &mut Storage, key: Vec<u8>, now: i128) -> (r: Option<Vec<u8>>)
    ensures
        (opt_view(r), final(storage)@) == spec_get(old(storage)@, key@, now as int),
{
    proof {
        use_type_invariant(&*storage);
    }
    match storage.find(key.as_slice()) {
        None => None,
        Some(i) => {
            proof {
                storage.lemma_view_at(i as int);
            }
            let expired_now = match storage.entries[i].1.expires_at {
                Some(d) => d < now,
                None => false,
            };
            if expired_now {
                storage.remove_at(i);
                return None;
            }
            match &storage.entries[i].1.value {
                Value::Single(v) => Some(copy_bytes(v.as_slice())),
                Value::List(l) => {
                    if l.len() == 0 {
                        None
                    } else {
                        Some(copy_bytes(l[l.len() - 1].as_slice()))
                    }
                },
            }
        },
    }
}

/// Reads the key at the current time.
pub fn get(storage: &mut Storage, key: Vec<u8>) -> (r: Option<Vec<u8>>)
    ensures
        exists|now: int|
            clock_reading(now) && (opt_view(r), final(storage)@) == spec_get(old(storage)@, key@, now),
{
    let now = now_nanos();
    get_at(storage, key, now)
}

/// The inclusive bounds of the elements that LRANGE reads from a list of length `len`
/// (Redis's index rules); `None` for an empty range.
pub fn list_range_bounds(start: isize, end: isize, len: usize) -> (r: Option<(usize, usize)>)
    requires
        len <= isize::MAX,
    ensures
        match spec_list_range_bounds(start as int, end as int, len as int) {
            Some((s, e)) => r matches Some((a, b)) && a == s && b == e,
            None => r is None,
        },
{
    let mut start = start;
    let mut end = end;
    if len == 0 {
        return None;
    }
    let len = len as isize;
    if start < 0 {
        start += len;
        if start < 0 {
            start = 0;
        }
    }
    if start >= len {
        return None;
    }
    if end < 0 {
        end += len;
        if end < 0 {
            return None;
        }
    }
    if end >= len {
        end = len - 1;
    }
    if start > end {
        None
    } else {
        Some((start as usize, end as usize))
    }
}

/// Whether a push keeps the list within the length a Rust collection can have.
pub open spec fn push_fits(m: Map<Seq<u8>, EntryView>, kind: PushKind, key: Seq<u8>, values: Seq<Seq<u8>>) -> bool {
    spec_push(m, kind, key, values).0 <= isize::MAX
}

/// Whether `push` can take this operation (a list never grows past `isize::MAX` elements).
pub fn can_push(storage: &Storage, operation: &PushOperation) -> (r: bool)
    ensures
        r == push_fits(storage@, operation.kind, operation.key@, views(operation.values@)),
{
    proof {
        use_type_invariant(storage);
    }
    let old_len: usize = match storage.find(operation.key.as_slice()) {
        None => 0,
        Some(i) => {
            proof {
                storage.lemma_view_at(i as int);
            }
            match &storage.entries[i].1.value {
                Value::List(l) => l.len(),
                Value::Single(_) => 1,
            }
        },
    };
    (old_len as u128) + (operation.values.len() as u128) <= (isize::MAX as u128)
}

/// Adds the values to the list under the key (a single value first becomes a list of one)
/// and gives the list's new length.
pub fn push(storage: &mut Storage, operation: PushOperation) -> (r: usize)
    requires
        push_fits(old(storage)@, operation.kind, operation.key@, views(operation.values@)),
    ensures
        (r as nat, final(storage)@) == spec_push(
            old(storage)@,
            operation.kind,
            operation.key@,
            views(operation.values@),
        ),
{
    proof {
        use_type_invariant(&*storage);
    }
    let PushOperation { kind, key, values } = operation;
    let ghost vs = views(values@);
    let found = storage.find(key.as_slice());
    let (mut list, expires_at): (VecDeque<Vec<u8>>, Option<i128>) = match found {
        None => (VecDeque::new(), None),
        Some(i) => {
            proof {
                storage.lemma_view_at(i as int);
            }
            let expires_at = storage.entries[i].1.expires_at;
            let list = match &storage.entries[i].1.value {
                Value::List(l) => copy_list(l),
                Value::Single(v) => {
                    let mut d: VecDeque<Vec<u8>> = VecDeque::new();
                    d.push_back(copy_bytes(v.as_slice()));
                    assert(views(d@) =~= seq![v@]);
                    d
                },
            };
            (list, expires_at)
        },
    };
    let ghost before = views(list@);
    assert(before == list_before_push(storage@, key@));
    match kind {
        PushKind::RPush => {
            let mut i: usize = 0;
            while i < values.len()
                invariant
                    i <= values@.len(),
                    vs == views(values@),
                    views(list@) =~= before + vs.take(i as int),
                decreases values@.len() - i,
            {
                let c = copy_bytes(values[i].as_slice());
                proof {
                    lemma_views_push(list@, c);
                    assert(vs.take(i + 1) =~= vs.take(i as int).push(c@));
                }
                list.push_back(c);
                i += 1;
            }
            assert(vs.take(i as int) =~= vs);
        },
        PushKind::LPush => {
            let mut i: usize = values.len();
            while i > 0
                invariant
                    i <= values@.len(),
                    vs == views(values@),
                    views(list@) =~= vs.skip(i as int) + before,
                decreases i,
            {
                i -= 1;
                let c = copy_bytes(values[i].as_slice());
                proof {
                    lemma_views_push(list@, c);
                    assert(vs.skip(i as int) =~= seq![c@] + vs.skip(i + 1));
                }
                list.push_front(c);
            }
            assert(vs.skip(0) =~= vs);
        },
    }
    let ret = list.len();
    let sv = StoredValue { value: Value::List(list), expires_at };
    match found {
        Some(i) => storage.replace_at(i, key, sv),
        None => storage.append(key, sv),
    }
    ret
}

/// Reads the elements `start..=end` of the list under the key at time `now`.
pub fn get_range_at(storage: &mut Storage, operation: RangeOperation, now: i128) -> (r: Result<
    Vec<Vec<u8>>,
    CommandError,
>)
    ensures
        (range_view(r), final(storage)@) == spec_get_range(
            old(storage)@,
            operation.key@,
            operation.start as int,
            operation.end as int,
            now as int,
        ),
{
    proof {
        use_type_invariant(&*storage);
    }
    let RangeOperation { key, start, end } = operation;
    match storage.find(key.as_slice()) {
        None => {
            let out: Vec<Vec<u8>> = Vec::new();
            assert(views(out@) =~= Seq::<Seq<u8>>::empty());
            Ok(out)
        },
        Some(i) => {
            proof {
                storage.lemma_view_at(i as int);
            }
            let expired_now = match storage.entries[i].1.expires_at {
                Some(d) => d < now,
                None => false,
            };
            if expired_now {
                storage.remove_at(i);
                let out: Vec<Vec<u8>> = Vec::new();
                assert(views(out@) =~= Seq::<Seq<u8>>::empty());
                return Ok(out);
            }
            match &storage.entries[i].1.value {
                Value::List(values) => {
                    let ghost l = views(values@);
                    assert(storage.entries@[i as int].1.value matches Value::List(ll) ==> ll@.len() <= isize::MAX);
                    let mut out: Vec<Vec<u8>> = Vec::new();
                    match list_range_bounds(start, end, values.len()) {
                        Some((s, e)) => {
                            let mut j: usize = s;
                            while j <= e
                                invariant
                                    s <= j <= e + 1,
                                    e < values@.len(),
                                    values@.len() <= isize::MAX,
                                    l == views(values@),
                                    views(out@) =~= l.subrange(s as int, j as int),
                                decreases e + 1 - j,
                            {
                                let c = copy_bytes(values[j].as_slice());
                                proof {
                                    lemma_views_push(out@, c);
                                    assert(l.subrange(s as int, j + 1) =~= l.subrange(s as int, j as int).push(c@));
                                }
                                out.push(c);
                                j += 1;
                            }
                        },
                        None => {
                            assert(views(out@) =~= Seq::<Seq<u8>>::empty());
                        },
                    }
                    Ok(out)
                },
                Value::Single(_) => Err(CommandError::InvalidArgument(parse_errors::VALUE_TYPE_MISMATCH)),
            }
        },
    }
}

/// Reads the elements `start..=end` of the list under the key at the current time.
pub fn get_range(storage: &mut Storage, operation: RangeOperation) -> (r: Result<
    Vec<Vec<u8>>,
    CommandError,
>)
    ensures
        exists|now: int|
            clock_reading(now) && (range_view(r), final(storage)@) == spec_get_range(
                old(storage)@,
                operation.key@,
                operation.start as int,
                operation.end as int,
                now,
            ),
{
    let now = now_nanos();
    get_range_at(storage, operation, now)
}

/// The length of the list under the key at time `now`.
pub fn llen_at(storage: &mut Storage, key: Vec<u8>, now: i128) -> (r: usize)
    ensures
        r <= isize::MAX,
        (r as nat, final(storage)@) == spec_llen(old(storage)@, key@, now as int),
{
    proof {
        use_type_invariant(&*storage);
    }
    match storage.find(key.as_slice()) {
        None => 0,
        Some(i) => {
            proof {
                storage.lemma_view_at(i as int);
            }
            let expired_now = match storage.entries[i].1.expires_at {
                Some(d) => d < now,
                None => false,
            };
            if expired_now {
                storage.remove_at(i);
                return 0;
            }
            assert(storage.entries@[i as int].1.value matches Value::List(ll) ==> ll@.len() <= isize::MAX);
            match &storage.entries[i].1.value {
                Value::List(l) => l.len(),
                Value::Single(_) => 1,
            }
        },
    }
}

/// The length of the list under the key at the current time.
pub fn llen(storage: &mut Storage, key: Vec<u8>) -> (r: usize)
    ensures
        r <= isize::MAX,
        exists|now: int| clock_reading(now) && (r as nat, final(storage)@) == spec_llen(old(storage)@, key@, now),
{
    let now = now_nanos();
    llen_at(storage, key, now)
}

// ------------------------------------------------------------------------------------------
// Laws of the store.
// ------------------------------------------------------------------------------------------

/// A read of a key gives the value last stored under it, while that value has not expired.
pub proof fn law_get_after_set(
    m: Map<Seq<u8>, EntryView>,
    key: Seq<u8>,
    value: Seq<u8>,
    expiration: Option<int>,
    now: int,
)
    requires
        expiration matches Some(d) ==> d >= now,
    ensures
        spec_get(spec_set(m, key, value, expiration), key, now) == (
            Some(value),
            spec_set(m, key, value, expiration),
        ),
{
}

/// Storing under one key leaves what a read of any other key gives unchanged.
pub proof fn law_set_keeps_other_keys(
    m: Map<Seq<u8>, EntryView>,
    key: Seq<u8>,
    value: Seq<u8>,
    expiration: Option<int>,
    other: Seq<u8>,
    now: int,
)
    requires
        other != key,
    ensures
        spec_get(spec_set(m, key, value, expiration), other, now).0 == spec_get(m, other, now).0,
{
}

/// A read that finds an expired entry removes it: the key is absent afterwards.
pub proof fn law_expired_entry_is_dropped(m: Map<Seq<u8>, EntryView>, key: Seq<u8>, now: int)
    requires
        m.contains_key(key),
        expired(m[key], now),
    ensures
        spec_get(m, key, now).0 is None,
        !spec_get(m, key, now).1.contains_key(key),
        spec_get_range(m, key, 0, -1, now).0 == Ok::<Seq<Seq<u8>>, CommandError>(Seq::empty()),
        !spec_get_range(m, key, 0, -1, now).1.contains_key(key),
{
}

/// A push gives the new length of the list: the old length plus the number of values.
pub proof fn law_push_length(
    m: Map<Seq<u8>, EntryView>,
    kind: PushKind,
    key: Seq<u8>,
    values: Seq<Seq<u8>>,
)
    ensures
        spec_push(m, kind, key, values).0 == list_before_push(m, key).len() + values.len(),
{
}

/// The bounds that LRANGE reads are always inside the list, in order.
pub proof fn law_range_bounds_inside(start: int, end: int, len: int)
    requires
        len >= 0,
    ensures
        spec_list_range_bounds(start, end, len) matches Some((s, e)) ==> 0 <= s <= e < len,
{
}

/// `LRANGE key 0 -1` reads the whole list.
pub proof fn law_range_zero_to_last_is_whole(len: int)
    requires
        len > 0,
    ensures
        spec_list_range_bounds(0, -1, len) == Some((0int, len - 1)),
{
}

/// After an RPUSH, reading the whole list gives the old list followed by the pushed values;
/// after an LPUSH, the pushed values followed by the old list (while the entry has not expired).
pub proof fn law_range_after_push(
    m: Map<Seq<u8>, EntryView>,
    kind: PushKind,
    key: Seq<u8>,
    values: Seq<Seq<u8>>,
    now: int,
)
    requires
        !(m.contains_key(key) && expired(m[key], now)),
    ensures
        ({
            let after = spec_push(m, kind, key, values).1;
            let expected = match kind {
                PushKind::RPush => list_before_push(m, key) + values,
                PushKind::LPush => values + list_before_push(m, key),
            };
            spec_get_range(after, key, 0, -1, now) == (
                Ok::<Seq<Seq<u8>>, CommandError>(expected),
                after,
            )
        }),
{
    let after = spec_push(m, kind, key, values).1;
    let expected = match kind {
        PushKind::RPush => list_before_push(m, key) + values,
        PushKind::LPush => values + list_before_push(m, key),
    };
    if expected.len() > 0 {
        assert(expected.subrange(0, expected.len() as int) =~= expected);
    } else {
        assert(expected =~= Seq::<Seq<u8>>::empty());
    }
}

/// A range read of a key that holds a single value is refused as a type mismatch.
pub proof fn law_range_of_single_value_is_refused(
    m: Map<Seq<u8>, EntryView>,
    key: Seq<u8>,
    value: Seq<u8>,
    start: int,
    end: int,
    now: int,
)
    ensures
        spec_get_range(spec_set(m, key, value, None), key, start, end, now).0 == Err::<
            Seq<Seq<u8>>,
            CommandError,
        >(CommandError::InvalidArgument(parse_errors::VALUE_TYPE_MISMATCH)),
{
}


/// A negative end counts back from the end of the list: `-1` is the last element, `-len` the
/// first. It reads as the index `len + end`.
pub proof fn law_negative_end_counts_from_the_end(start: int, end: int, len: int)
    requires
        -len <= end < 0,
    ensures
        spec_list_range_bounds(start, end, len) == spec_list_range_bounds(start, len + end, len),
{
}

/// A negative start counts back from the end of the list, and reads as the index `len + start`.
pub proof fn law_negative_start_counts_from_the_end(start: int, end: int, len: int)
    requires
        -len <= start < 0,
    ensures
        spec_list_range_bounds(start, end, len) == spec_list_range_bounds(len + start, end, len),
{
}

/// Indices inside the list, in order, are read as they are: from `start` to `end` inclusive.
pub proof fn law_range_inside_is_read_as_is(start: int, end: int, len: int)
    requires
        0 <= start <= end < len,
    ensures
        spec_list_range_bounds(start, end, len) == Some((start, end)),
{
}

/// With a negative end, LRANGE reads from `start` up to and including the element `-end`
/// places from the tail.
pub proof fn law_range_to_negative_end(start: int, end: int, len: int)
    requires
        -len <= end < 0,
        0 <= start <= len + end,
    ensures
        spec_list_range_bounds(start, end, len) == Some((start, len + end)),
{
}


/// An end past the tail reads up to the last element, and a start before the head (even
/// after counting from the end) reads from the first.
pub proof fn law_range_clamps_to_the_list(start: int, end: int, len: int)
    requires
        len > 0,
    ensures
        end >= len ==> spec_list_range_bounds(start, end, len) == spec_list_range_bounds(
            start,
            len - 1,
            len,
        ),
        start < -len ==> spec_list_range_bounds(start, end, len) == spec_list_range_bounds(
            0,
            end,
            len,
        ),
{
}

/// The range is empty on an empty list, when the start lies past the tail, when the end lies
/// before the head, or when the start comes after the end.
pub proof fn law_empty_ranges(start: int, end: int, len: int)
    requires
        len >= 0,
        len == 0 || start >= len || end < -len || (0 <= end < start) || (end < 0 && 0 <= start
            && start > end + len),
    ensures
        spec_list_range_bounds(start, end, len) is None,
{
}

} // verus!
