//! The keyspace engine: keys mapped to values with optional absolute expiry
//! deadlines, which reads check lazily.
use vstd::prelude::*;
use crate::frame::{Frame, Value};
use crate::text::{bytes_eq, contains, contains_bytes, copy_bytes, strip_stars, without_stars};

verus! {

/// A key, its value and its expiry deadline in milliseconds since the
/// Unix epoch.
pub type Record = (Seq<u8>, Seq<u8>, Option<u64>);

/// The keyspace as a map from key to value and deadline.
pub type Keyspace = Map<Seq<u8>, (Seq<u8>, Option<u64>)>;

/// One entry of the keyspace.
#[derive(Debug)]
pub struct Item {
    pub key: Vec<u8>,
    pub value: Vec<u8>,
    pub ttl: Option<u64>,
}

impl Item {
    pub open spec fn rec(&self) -> Record {
        (self.key@, self.value@, self.ttl)
    }
}

/// The records of a sequence of items.
pub open spec fn recs_of(items: Seq<Item>) -> Seq<Record> {
    Seq::new(items.len(), |i: int| items[i].rec())
}

/// No two records share a key.
pub open spec fn unique_keys(rs: Seq<Record>) -> bool {
    forall|i: int, j: int| 0 <= i < rs.len() && 0 <= j < rs.len() && i != j ==> #[trigger] rs[i].0 != #[trigger] rs[j].0
}

/// The keyspace that records with distinct keys describe.
pub open spec fn map_of(rs: Seq<Record>) -> Keyspace {
    Map::new(
        |k: Seq<u8>| exists|i: int| 0 <= i < rs.len() && rs[i].0 == k,
        |k: Seq<u8>|
            {
                let i = choose|i: int| 0 <= i < rs.len() && rs[i].0 == k;
                (rs[i].1, rs[i].2)
            },
    )
}

/// `m` after setting each record in turn.
pub open spec fn apply(m: Keyspace, rs: Seq<Record>) -> Keyspace
    decreases rs.len(),
{
    if rs.len() == 0 {
        m
    } else {
        apply(m, rs.drop_last()).insert(rs.last().0, (rs.last().1, rs.last().2))
    }
}

/// Whether an entry is still readable at `now`.
pub open spec fn live(e: (Seq<u8>, Option<u64>), now: u64) -> bool {
    match e.1 {
        None => true,
        Some(deadline) => now < deadline,
    }
}

/// What reading `k` at `now` gives: its value, or nothing when the key is
/// absent or expired.
pub open spec fn lookup(m: Keyspace, k: Seq<u8>, now: u64) -> Option<Seq<u8>> {
    if m.contains_key(k) && live(m[k], now) {
        Some(m[k].0)
    } else {
        None
    }
}

/// The reply for a lookup: the value as a bulk string, or null.
pub open spec fn bulk_or_null(o: Option<Seq<u8>>) -> Frame {
    match o {
        Some(v) => Frame::Bulk(v),
        None => Frame::Null,
    }
}

/// Whether `KEYS pattern` at `now` lists `k`.
pub open spec fn key_listed(m: Keyspace, pattern: Seq<u8>, now: u64, k: Seq<u8>) -> bool {
    m.contains_key(k) && live(m[k], now) && contains_bytes(k, strip_stars(pattern))
}

/// The reply frame of a `KEYS` query: distinct bulk strings, exactly the
/// listed keys, in no particular order.
pub open spec fn lists_keys(f: Frame, m: Keyspace, pattern: Seq<u8>, now: u64) -> bool {
    &&& f is Array
    &&& f->Array_0.no_duplicates()
    &&& forall|i: int| 0 <= i < f->Array_0.len() ==> #[trigger] f->Array_0[i] is Bulk
    &&& forall|k: Seq<u8>| f->Array_0.contains(Frame::Bulk(k)) <==> key_listed(m, pattern, now, k)
}

pub open spec fn ok_bytes() -> Seq<u8> {
    seq![79u8, 75u8]
}

proof fn lemma_map_of_at(rs: Seq<Record>, i: int)
    requires
        unique_keys(rs),
        0 <= i < rs.len(),
    ensures
        map_of(rs).contains_key(rs[i].0),
        map_of(rs)[rs[i].0] == (rs[i].1, rs[i].2),
{
    let k = rs[i].0;
    assert(exists|j: int| 0 <= j < rs.len() && rs[j].0 == k);
    let j = choose|j: int| 0 <= j < rs.len() && rs[j].0 == k;
    assert(i == j);
}

proof fn lemma_map_of_update(rs: Seq<Record>, i: int, r: Record)
    requires
        unique_keys(rs),
        0 <= i < rs.len(),
        rs[i].0 == r.0,
    ensures
        unique_keys(rs.update(i, r)),
        map_of(rs.update(i, r)) == map_of(rs).insert(r.0, (r.1, r.2)),
{
    let ns = rs.update(i, r);
    assert(unique_keys(ns)) by {
        assert forall|a: int, b: int| 0 <= a < ns.len() && 0 <= b < ns.len() && a != b implies #[trigger] ns[a].0
            != #[trigger] ns[b].0 by {
            assert(ns[a].0 == rs[a].0);
            assert(ns[b].0 == rs[b].0);
        }
    }
    let lhs = map_of(ns);
    let rhs = map_of(rs).insert(r.0, (r.1, r.2));
    assert forall|k: Seq<u8>| lhs.contains_key(k) <==> rhs.contains_key(k) by {
        if lhs.contains_key(k) {
            let j = choose|j: int| 0 <= j < ns.len() && ns[j].0 == k;
            if j != i {
                assert(rs[j].0 == k);
                assert(map_of(rs).contains_key(k));
            }
        }
        if rhs.contains_key(k) {
            if k == r.0 {
                assert(ns[i].0 == k);
            } else {
                let j = choose|j: int| 0 <= j < rs.len() && rs[j].0 == k;
                assert(ns[j].0 == k);
            }
        }
    }
    assert forall|k: Seq<u8>| lhs.contains_key(k) implies lhs[k] == rhs[k] by {
        let j = choose|j: int| 0 <= j < ns.len() && ns[j].0 == k;
        lemma_map_of_at(ns, j);
        if j != i {
            lemma_map_of_at(rs, j);
        }
    }
    assert(lhs =~= rhs);
}

proof fn lemma_map_of_push(rs: Seq<Record>, r: Record)
    requires
        unique_keys(rs),
        !map_of(rs).contains_key(r.0),
    ensures
        unique_keys(rs.push(r)),
        map_of(rs.push(r)) == map_of(rs).insert(r.0, (r.1, r.2)),
{
    let ns = rs.push(r);
    assert(unique_keys(ns)) by {
        assert forall|a: int, b: int| 0 <= a < ns.len() && 0 <= b < ns.len() && a != b implies #[trigger] ns[a].0
            != #[trigger] ns[b].0 by {
            if a == rs.len() {
                assert(!(exists|j: int| 0 <= j < rs.len() && rs[j].0 == r.0));
                assert(ns[b] == rs[b]);
            } else if b == rs.len() {
                assert(!(exists|j: int| 0 <= j < rs.len() && rs[j].0 == r.0));
                assert(ns[a] == rs[a]);
            } else {
                assert(ns[a] == rs[a] && ns[b] == rs[b]);
            }
        }
    }
    let lhs = map_of(ns);
    let rhs = map_of(rs).insert(r.0, (r.1, r.2));
    assert forall|k: Seq<u8>| lhs.contains_key(k) <==> rhs.contains_key(k) by {
        if lhs.contains_key(k) && k != r.0 {
            let j = choose|j: int| 0 <= j < ns.len() && ns[j].0 == k;
            assert(rs[j].0 == k);
        }
        if rhs.contains_key(k) {
            if k == r.0 {
                assert(ns[rs.len() as int].0 == k);
            } else {
                let j = choose|j: int| 0 <= j < rs.len() && rs[j].0 == k;
                assert(ns[j].0 == k);
            }
        }
    }
    assert forall|k: Seq<u8>| lhs.contains_key(k) implies lhs[k] == rhs[k] by {
        let j = choose|j: int| 0 <= j < ns.len() && ns[j].0 == k;
        lemma_map_of_at(ns, j);
        if j < rs.len() {
            lemma_map_of_at(rs, j);
        }
    }
    assert(lhs =~= rhs);
}

/// The keyspace, shared by every connection behind one lock.
pub struct Storage {
    storage: Vec<Item>,
}

impl View for Storage {
    type V = Keyspace;

    open spec fn view(&self) -> Keyspace {
        map_of(self.entries())
    }
}

impl Storage {
    /// The entries in the order in which they are held.
    pub closed spec fn entries(&self) -> Seq<Record> {
        recs_of(self.storage@)
    }

    /// Keys are held once each.
    pub open spec fn wf(&self) -> bool {
        unique_keys(self.entries())
    }

    /// An empty keyspace.
    pub fn new() -> (s: Self)
        ensures
            s.wf(),
            s@ == Keyspace::empty(),
            s.entries().len() == 0,
    {
        let s = Storage { storage: Vec::new() };
        assert(s@ =~= Keyspace::empty());
        s
    }

    /// The number of entries.
    pub fn len(&self) -> (r: usize)
        ensures
            r == self.entries().len(),
    {
        self.storage.len()
    }

    /// The entry at position `i` of [`Storage::entries`].
    pub fn item_at(&self, i: usize) -> (r: &Item)
        requires
            i < self.entries().len(),
        ensures
            r.rec() == self.entries()[i as int],
    {
        &self.storage[i]
    }

    /// Where `key` is held.
    fn find(&self, key: &[u8]) -> (r: Option<usize>)
        requires
            self.wf(),
        ensures
            r matches Some(i) ==> i < self.entries().len() && self.entries()[i as int].0 == key@,
            r is None ==> !self@.contains_key(key@),
    {
        let mut i: usize = 0;
        while i < self.storage.len()
            invariant
                i <= self.storage@.len(),
                forall|j: int| 0 <= j < i ==> #[trigger] self.entries()[j].0 != key@,
            decreases self.storage@.len() - i,
        {
            if bytes_eq(self.storage[i].key.as_slice(), key) {
                return Some(i);
            }
            i = i + 1;
        }
        None
    }

    /// Sets `key` to `value` with the deadline `ttl`, replacing any earlier
    /// value and deadline.
    pub fn set(&mut self, key: Vec<u8>, value: Vec<u8>, ttl: Option<u64>) -> (r: Value)
        requires
            old(self).wf(),
        ensures
            final(self).wf(),
            final(self)@ == old(self)@.insert(key@, (value@, ttl)),
            r.model() == Frame::Simple(ok_bytes()),
    {
        let ghost rs = self.entries();
        let ghost rec = (key@, value@, ttl);
        let item = Item { key, value, ttl };
        match self.find(item.key.as_slice()) {
            Some(i) => {
                proof {
                    lemma_map_of_update(rs, i as int, rec);
                }
                self.storage.set(i, item);
                assert(self.entries() =~= rs.update(i as int, rec));
            },
            None => {
                proof {
                    lemma_map_of_push(rs, rec);
                }
                self.storage.push(item);
                assert(self.entries() =~= rs.push(rec));
            },
        }
        let ok = vec![79u8, 75u8];
        assert(ok@ =~= ok_bytes());
        Value::SimpleString(ok)
    }

    /// The value of `key` at time `now` (milliseconds since the Unix epoch),
    /// or null when it is absent or its deadline has passed.
    pub fn get(&self, key: &[u8], now: u64) -> (r: Value)
        requires
            self.wf(),
        ensures
            r.model() == bulk_or_null(lookup(self@, key@, now)),
    {
        match self.find(key) {
            None => Value::Null,
            Some(i) => {
                proof {
                    lemma_map_of_at(self.entries(), i as int);
                }
                let item = &self.storage[i];
                match item.ttl {
                    Some(deadline) => {
                        if now >= deadline {
                            return Value::Null;
                        }
                    },
                    None => {},
                }
                Value::BulkString(copy_bytes(&item.value))
            },
        }
    }

    /// Every key readable at `now` that contains `pattern` once each `*` is
    /// deleted from it, as bulk strings in no particular order.
    pub fn keys(&self, pattern: &[u8], now: u64) -> (r: Value)
        requires
            self.wf(),
        ensures
            lists_keys(r.model(), self@, pattern@, now),
    {
        let needle = without_stars(pattern);
        let ghost rs = self.entries();
        let ghost m = self@;
        let mut out: Vec<Value> = Vec::new();
        let ghost mut idx: Seq<int> = Seq::empty();
        let mut i: usize = 0;
        while i < self.storage.len()
            invariant
                i <= self.storage@.len(),
                rs == self.entries(),
                m == self@,
                unique_keys(rs),
                needle@ == strip_stars(pattern@),
                out@.len() == idx.len(),
                forall|t: int| 0 <= t < idx.len() ==> 0 <= #[trigger] idx[t] < i,
                forall|t: int, u: int| 0 <= t < u < idx.len() ==> #[trigger] idx[t] < #[trigger] idx[u],
                forall|t: int| 0 <= t < idx.len() ==> #[trigger] out@[t].model() == Frame::Bulk(rs[idx[t]].0),
                forall|t: int| 0 <= t < idx.len() ==> key_listed(m, pattern@, now, #[trigger] rs[idx[t]].0),
                forall|j: int| 0 <= j < i && key_listed(m, pattern@, now, #[trigger] rs[j].0) ==> exists|t: int|
                    0 <= t < idx.len() && idx[t] == j,
            decreases self.storage@.len() - i,
        {
            let item = &self.storage[i];
            proof {
                lemma_map_of_at(rs, i as int);
            }
            let alive = match item.ttl {
                Some(deadline) => now < deadline,
                None => true,
            };
            assert(rs[i as int].0 == item.key@);
            assert(alive == live(m[rs[i as int].0], now));
            let ghost old_idx = idx;
            if alive && contains(item.key.as_slice(), needle.as_slice()) {
                out.push(Value::BulkString(copy_bytes(&item.key)));
                proof {
                    idx = idx.push(i as int);
                    assert(idx[idx.len() - 1] == i);
                }
            }
            proof {
                assert forall|j: int| 0 <= j < i + 1 && key_listed(m, pattern@, now, #[trigger] rs[j].0) implies exists|t: int|
                    0 <= t < idx.len() && idx[t] == j by {
                    if j < i {
                        let t = choose|t: int| 0 <= t < old_idx.len() && old_idx[t] == j;
                        assert(idx[t] == j);
                    } else {
                        assert(idx[idx.len() - 1] == j);
                    }
                }
            }
            i = i + 1;
        }
        let ghost fs = crate::frame::models(out@);
        proof {
            assert forall|t: int| 0 <= t < fs.len() implies #[trigger] fs[t] == Frame::Bulk(rs[idx[t]].0) by {}
            assert(fs.no_duplicates()) by {
                assert forall|t: int, u: int| 0 <= t < fs.len() && 0 <= u < fs.len() && t != u implies fs[t] != fs[u] by {
                    if t < u {
                        assert(idx[t] < idx[u]);
                    } else {
                        assert(idx[u] < idx[t]);
                    }
                    assert(rs[idx[t]].0 != rs[idx[u]].0);
                }
            }
            assert forall|k: Seq<u8>| fs.contains(Frame::Bulk(k)) <==> key_listed(m, pattern@, now, k) by {
                if fs.contains(Frame::Bulk(k)) {
                    let t = choose|t: int| 0 <= t < fs.len() && fs[t] == Frame::Bulk(k);
                    assert(rs[idx[t]].0 == k);
                }
                if key_listed(m, pattern@, now, k) {
                    let j = choose|j: int| 0 <= j < rs.len() && rs[j].0 == k;
                    assert(key_listed(m, pattern@, now, rs[j].0));
                    let t = choose|t: int| 0 <= t < idx.len() && idx[t] == j;
                    assert(fs[t] == Frame::Bulk(k));
                }
            }
            crate::frame::lemma_array_model(out);
        }
        Value::Array(out)
    }
}

/// Setting other keys leaves the entry of `k` as it was.
pub proof fn lemma_apply_untouched(m: Keyspace, k: Seq<u8>, rs: Seq<Record>)
    requires
        forall|i: int| 0 <= i < rs.len() ==> #[trigger] rs[i].0 != k,
    ensures
        apply(m, rs).contains_key(k) == m.contains_key(k),
        m.contains_key(k) ==> apply(m, rs)[k] == m[k],
    decreases rs.len(),
{
    if rs.len() > 0 {
        let init = rs.drop_last();
        assert forall|i: int| 0 <= i < init.len() implies #[trigger] init[i].0 != k by {
            assert(init[i] == rs[i]);
        }
        lemma_apply_untouched(m, k, init);
        assert(rs.last().0 != k);
    }
}

/// Set/get: once `k` is set to `v` with no deadline, reading `k` at any
/// time gives `v`, whatever other keys are set afterwards, until `k` is set
/// again.
pub proof fn set_get_law(m: Keyspace, k: Seq<u8>, v: Seq<u8>, later: Seq<Record>, now: u64)
    requires
        forall|i: int| 0 <= i < later.len() ==> #[trigger] later[i].0 != k,
    ensures
        lookup(apply(m.insert(k, (v, None)), later), k, now) == Some(v),
{
    lemma_apply_untouched(m.insert(k, (v, None)), k, later);
}

/// Expiry: once the clock has reached the deadline of `k`, no later read
/// of `k` gives a value, whatever other keys are set meanwhile, until `k`
/// is set again.
pub proof fn expiry_law(m: Keyspace, k: Seq<u8>, later: Seq<Record>, now: u64, at: u64)
    requires
        m.contains_key(k),
        m[k].1 matches Some(deadline) && deadline <= now,
        now <= at,
        forall|i: int| 0 <= i < later.len() ==> #[trigger] later[i].0 != k,
    ensures
        lookup(m, k, now) is None,
        lookup(apply(m, later), k, at) is None,
{
    lemma_apply_untouched(m, k, later);
}

/// Setting records with distinct keys, one after another, into an empty
/// keyspace gives the keyspace that they describe.
pub proof fn lemma_apply_unique(rs: Seq<Record>)
    requires
        unique_keys(rs),
    ensures
        apply(Keyspace::empty(), rs) == map_of(rs),
    decreases rs.len(),
{
    if rs.len() == 0 {
        assert(map_of(rs) =~= Keyspace::empty());
    } else {
        let init = rs.drop_last();
        assert(unique_keys(init)) by {
            assert forall|a: int, b: int| 0 <= a < init.len() && 0 <= b < init.len() && a != b implies #[trigger] init[a].0
                != #[trigger] init[b].0 by {
                assert(init[a] == rs[a] && init[b] == rs[b]);
            }
        }
        lemma_apply_unique(init);
        assert(!map_of(init).contains_key(rs.last().0)) by {
            if map_of(init).contains_key(rs.last().0) {
                let j = choose|j: int| 0 <= j < init.len() && init[j].0 == rs.last().0;
                assert(rs[j].0 == rs[rs.len() - 1].0);
            }
        }
        lemma_map_of_push(init, rs.last());
        assert(init.push(rs.last()) =~= rs);
    }
}


} // verus!
