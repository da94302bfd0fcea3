//! The key-value table with lazy expiry, and the shared handle to it.
use std::sync::Arc;
use std::time::Duration;
use std::time::Instant;
use vstd::prelude::*;
use vstd::rwlock::RwLock;
use vstd::rwlock::RwLockPredicate;

verus! {

/// What the table holds for one key: its value and, if set, the instant
/// (nanoseconds on the store's clock) from which the key reads as absent.
pub struct Slot {
    pub value: Seq<char>,
    pub expires_at: Option<u128>,
}

/// Whether a slot is still visible at `now`.
pub open spec fn is_live(s: Slot, now: u128) -> bool {
    match s.expires_at {
        None => true,
        Some(e) => now < e,
    }
}

/// What a read of `k` at `now` sees.
pub open spec fn live_value(m: Map<Seq<char>, Slot>, k: Seq<char>, now: u128) -> Option<Seq<char>> {
    if m.contains_key(k) && is_live(m[k], now) {
        Some(m[k].value)
    } else {
        None
    }
}

/// The expiry instant of an entry written at `now` with an optional
/// time-to-live in milliseconds, both on the store's nanosecond clock; it
/// saturates at the clock's range.
pub open spec fn deadline(now: u128, ttl: Option<u64>) -> Option<u128> {
    match ttl {
        None => None,
        Some(d) => if now + d * NANOS_PER_MILLI <= u128::MAX {
            Some((now + d * NANOS_PER_MILLI) as u128)
        } else {
            Some(u128::MAX)
        },
    }
}

/// The characters of an optional text.
pub open spec fn opt_text(r: Option<String>) -> Option<Seq<char>> {
    match r {
        Some(s) => Some(s@),
        None => None,
    }
}

pub struct Entry {
    pub key: String,
    pub value: String,
    pub expires_at: Option<u128>,
}

pub open spec fn slot_of(e: Entry) -> Slot {
    Slot { value: e.value@, expires_at: e.expires_at }
}

pub open spec fn has_key(s: Seq<Entry>, k: Seq<char>) -> bool {
    exists|i: int| 0 <= i < s.len() && #[trigger] s[i].key@ == k
}

pub open spec fn keys_unique(s: Seq<Entry>) -> bool {
    forall|i: int, j: int| 0 <= i < s.len() && 0 <= j < s.len() && i != j ==> #[trigger] s[i].key@ != #[trigger] s[j].key@
}

pub open spec fn table_map(s: Seq<Entry>) -> Map<Seq<char>, Slot> {
    Map::new(
        |k: Seq<char>| has_key(s, k),
        |k: Seq<char>| slot_of(s[choose|i: int| 0 <= i < s.len() && #[trigger] s[i].key@ == k]),
    )
}

proof fn lemma_table_map_at(s: Seq<Entry>, i: int)
    requires
        keys_unique(s),
        0 <= i < s.len(),
    ensures
        table_map(s).contains_key(s[i].key@),
        table_map(s)[s[i].key@] == slot_of(s[i]),
{
    let k = s[i].key@;
    assert(has_key(s, k));
    let j = choose|j: int| 0 <= j < s.len() && #[trigger] s[j].key@ == k;
    assert(j == i);
}

proof fn lemma_table_map_remove(s: Seq<Entry>, i: int)
    requires
        keys_unique(s),
        0 <= i < s.len(),
    ensures
        keys_unique(s.remove(i)),
        table_map(s.remove(i)) == table_map(s).remove(s[i].key@),
{
    let t = s.remove(i);
    let k = s[i].key@;
    assert(keys_unique(t)) by {
        assert forall|a: int, b: int|
            0 <= a < t.len() && 0 <= b < t.len() && a != b implies #[trigger] t[a].key@
            != #[trigger] t[b].key@ by {
            let a2 = if a < i {
                a
            } else {
                a + 1
            };
            let b2 = if b < i {
                b
            } else {
                b + 1
            };
            assert(t[a] == s[a2]);
            assert(t[b] == s[b2]);
        }
    }
    assert forall|q: Seq<char>| has_key(t, q) <==> has_key(s, q) && q != k by {
        if has_key(t, q) {
            let a = choose|a: int| 0 <= a < t.len() && #[trigger] t[a].key@ == q;
            let a2 = if a < i {
                a
            } else {
                a + 1
            };
            assert(t[a] == s[a2]);
        }
        if has_key(s, q) && q != k {
            let a = choose|a: int| 0 <= a < s.len() && #[trigger] s[a].key@ == q;
            let a2 = if a < i {
                a
            } else {
                a - 1
            };
            assert(t[a2] == s[a]);
        }
    }
    assert forall|q: Seq<char>| #[trigger] table_map(t).contains_key(q) implies table_map(t)[q]
        == table_map(s)[q] by {
        let a = choose|a: int| 0 <= a < t.len() && #[trigger] t[a].key@ == q;
        let a2 = if a < i {
            a
        } else {
            a + 1
        };
        assert(t[a] == s[a2]);
        lemma_table_map_at(t, a);
        lemma_table_map_at(s, a2);
    }
    assert(table_map(t) =~= table_map(s).remove(k));
}

proof fn lemma_table_map_push(s: Seq<Entry>, e: Entry)
    requires
        keys_unique(s),
        !has_key(s, e.key@),
    ensures
        keys_unique(s.push(e)),
        table_map(s.push(e)) == table_map(s).insert(e.key@, slot_of(e)),
{
    let t = s.push(e);
    assert(keys_unique(t)) by {
        assert forall|a: int, b: int|
            0 <= a < t.len() && 0 <= b < t.len() && a != b implies #[trigger] t[a].key@
            != #[trigger] t[b].key@ by {
            if a < s.len() && b < s.len() {
                assert(t[a] == s[a] && t[b] == s[b]);
            } else if a < s.len() {
                assert(t[a] == s[a]);
            } else {
                assert(t[b] == s[b]);
            }
        }
    }
    assert forall|q: Seq<char>| has_key(t, q) <==> has_key(s, q) || q == e.key@ by {
        if has_key(t, q) {
            let a = choose|a: int| 0 <= a < t.len() && #[trigger] t[a].key@ == q;
            if a < s.len() {
                assert(t[a] == s[a]);
            }
        }
        if has_key(s, q) {
            let a = choose|a: int| 0 <= a < s.len() && #[trigger] s[a].key@ == q;
            assert(t[a] == s[a]);
        }
        if q == e.key@ {
            assert(t[s.len() as int] == e);
        }
    }
    assert forall|q: Seq<char>| #[trigger] table_map(t).contains_key(q) implies table_map(t)[q]
        == table_map(s).insert(e.key@, slot_of(e))[q] by {
        let a = choose|a: int| 0 <= a < t.len() && #[trigger] t[a].key@ == q;
        lemma_table_map_at(t, a);
        if a < s.len() {
            assert(t[a] == s[a]);
            lemma_table_map_at(s, a);
        }
    }
    assert(table_map(t) =~= table_map(s).insert(e.key@, slot_of(e)));
}

/// The entries of a store: at most one per key.
pub struct Table {
    entries: Vec<Entry>,
}

impl View for Table {
    type V = Map<Seq<char>, Slot>;

    closed spec fn view(&self) -> Map<Seq<char>, Slot> {
        table_map(self.entries@)
    }
}

fn same_text(a: &String, b: &String) -> (r: bool)
    ensures
        r == (a@ == b@),
{
    *a == *b
}

impl Table {
    /// Keys are unique.
    pub closed spec fn wf(&self) -> bool {
        keys_unique(self.entries@)
    }

    pub fn new() -> (r: Table)
        ensures
            r.wf(),
            r@ == Map::<Seq<char>, Slot>::empty(),
    {
        let r = Table { entries: Vec::new() };
        proof {
            assert(r@ =~= Map::<Seq<char>, Slot>::empty());
        }
        r
    }

    /// Position of the entry for `key`, if there is one.
    fn position(&self, key: &String) -> (r: Option<usize>)
        requires
            self.wf(),
        ensures
            r matches Some(i) ==> i < self.entries.len() && self.entries@[i as int].key@ == key@,
            r is None ==> !has_key(self.entries@, key@),
    {
        let mut i: usize = 0;
        while i < self.entries.len()
            invariant
                i <= self.entries.len(),
                forall|j: int| 0 <= j < i ==> #[trigger] self.entries@[j].key@ != key@,
            decreases self.entries.len() - i,
        {
            if same_text(&self.entries[i].key, key) {
                return Some(i);
            }
            i = i + 1;
        }
        None
    }

    /// Sets `key` to `value`, replacing what was there, with the given
    /// expiry instant or none.
    pub fn insert(&mut self, key: String, value: String, expires_at: Option<u128>)
        requires
            old(self).wf(),
        ensures
            final(self).wf(),
            final(self)@ == old(self)@.insert(key@, Slot { value: value@, expires_at }),
    {
        match self.position(&key) {
            Some(i) => {
                proof {
                    lemma_table_map_remove(self.entries@, i as int);
                }
                let _old = self.entries.remove(i);
                proof {
                    assert(!has_key(self.entries@, key@));
                }
            },
            None => {},
        }
        let ghost before = self.entries@;
        let e = Entry { key, value, expires_at };
        proof {
            lemma_table_map_push(before, e);
        }
        self.entries.push(e);
        proof {
            assert(self@ =~= old(self)@.insert(e.key@, Slot { value: e.value@, expires_at }));
        }
    }

    /// The value of `key` as a read at `now` sees it: absent once its
    /// expiry instant is reached.
    pub fn lookup(&self, key: &String, now: u128) -> (r: Option<String>)
        requires
            self.wf(),
        ensures
            opt_text(r) == live_value(self@, key@, now),
    {
        match self.position(key) {
            Some(i) => {
                proof {
                    lemma_table_map_at(self.entries@, i as int);
                }
                let e = &self.entries[i];
                let live = match e.expires_at {
                    None => true,
                    Some(t) => now < t,
                };
                if live {
                    Some(e.value.clone())
                } else {
                    None
                }
            },
            None => None,
        }
    }

    /// Deletes the entry for `key`, expired or not, and returns its value.
    pub fn remove(&mut self, key: &String) -> (r: Option<String>)
        requires
            old(self).wf(),
        ensures
            final(self).wf(),
            final(self)@ == old(self)@.remove(key@),
            opt_text(r) == (if old(self)@.contains_key(key@) {
                Some(old(self)@[key@].value)
            } else {
                None
            }),
    {
        match self.position(key) {
            Some(i) => {
                proof {
                    lemma_table_map_remove(self.entries@, i as int);
                    lemma_table_map_at(self.entries@, i as int);
                }
                let e = self.entries.remove(i);
                Some(e.value)
            },
            None => {
                proof {
                    assert(self@ =~= old(self)@.remove(key@));
                }
                None
            },
        }
    }
}

/// Nanoseconds in a millisecond.
pub const NANOS_PER_MILLI: u128 = 1_000_000;

/// The expiry instant of an entry written at `now` with `ttl`.
pub fn expiry_at(now: u128, ttl: Option<u64>) -> (r: Option<u128>)
    ensures
        r == deadline(now, ttl),
{
    match ttl {
        None => None,
        Some(d) => Some(now.saturating_add(d as u128 * NANOS_PER_MILLI)),
    }
}

/// Whether the expiry instant of `k` falls after `t1` and no later than `t2`.
pub open spec fn expires_between(m: Map<Seq<char>, Slot>, k: Seq<char>, t1: u128, t2: u128) -> bool {
    m.contains_key(k) && match m[k].expires_at {
        Some(e) => t1 < e && e <= t2,
        None => false,
    }
}

/// A read changes nothing, so two reads of a key with no write between them
/// agree, unless the key's expiry instant falls between them.
pub proof fn lemma_get_idempotent(m: Map<Seq<char>, Slot>, k: Seq<char>, t1: u128, t2: u128)
    requires
        t1 <= t2,
        !expires_between(m, k, t1, t2),
    ensures
        live_value(m, k, t1) == live_value(m, k, t2),
{
}

/// A key written without a time-to-live, as a SET writes it, reads back as
/// the written value at any later instant.
pub proof fn lemma_set_then_get(m: Map<Seq<char>, Slot>, k: Seq<char>, v: Seq<char>, written: u128, read: u128)
    ensures
        live_value(m.insert(k, Slot { value: v, expires_at: deadline(written, None) }), k, read)
            == Some(v),
{
}

/// A key written at `now` with a time-to-live of `ttl` milliseconds reads as
/// its value until that many nanoseconds have passed on the clock, and as
/// absent from then on, with no removal.
pub proof fn lemma_expiry(m: Map<Seq<char>, Slot>, k: Seq<char>, v: Seq<char>, now: u128, ttl: u64, t: u128)
    requires
        now + ttl * NANOS_PER_MILLI <= u128::MAX,
    ensures
        live_value(m.insert(k, Slot { value: v, expires_at: deadline(now, Some(ttl)) }), k, t)
            == (if t < now + ttl * NANOS_PER_MILLI {
            Some(v)
        } else {
            None
        }),
{
}

#[verifier::external_type_specification]
#[verifier::external_body]
pub struct ExInstant(Instant);

/// Relies on Instant::now: a reading of the monotonic clock; nothing is
/// assumed of its value.
pub assume_specification[ Instant::now ]() -> Instant;

/// Relies on Instant::elapsed: the time since an earlier reading; nothing is
/// assumed of its value.
pub assume_specification[ Instant::elapsed ](i: &Instant) -> Duration;

/// Relies on Duration::as_nanos: whole nanoseconds of a duration; nothing
/// is assumed of its value.
pub assume_specification[ Duration::as_nanos ](d: &Duration) -> u128;

/// Relies on Arc::clone: a second handle to the same shared value.
#[verifier::external_body]
fn share<T>(a: &Arc<T>) -> (r: Arc<T>)
    ensures
        r == *a,
{
    Arc::clone(a)
}

/// The invariant that the shared table keeps under its lock.
pub struct TableInvariant;

impl RwLockPredicate<Table> for TableInvariant {
    open spec fn inv(self, t: Table) -> bool {
        t.wf()
    }
}

/// A handle to one shared table. Clones share the table and the clock: a
/// write through one handle is seen through all of them. Readers share the
/// lock; a writer holds it alone, so no read sees half a write.
///
/// What `new`, `insert`, `get` and `remove` return or leave behind depends
/// on the clock and on the writes of other handles, so they state no
/// contract. Each one reads the clock and applies the matching `Table`
/// operation under the lock; those operations have exact contracts.
pub struct Store {
    shared: Arc<RwLock<Table, TableInvariant>>,
    origin: Instant,
}

impl Store {
    /// Whether two handles refer to one and the same shared table.
    pub closed spec fn same_table(&self, o: &Store) -> bool {
        self.shared == o.shared
    }

    pub fn new() -> Store {
        let table = Table::new();
        let lock = RwLock::new(table, Ghost(TableInvariant));
        Store { shared: Arc::new(lock), origin: Instant::now() }
    }

    /// Nanoseconds since this store was made.
    fn now(&self) -> u128 {
        let elapsed = self.origin.elapsed();
        elapsed.as_nanos()
    }

    /// Sets `key` to `value`, replacing any entry and its expiry. With a
    /// time-to-live in milliseconds the entry reads as absent from the moment
    /// it has passed; without one it never expires.
    pub fn insert(&self, key: String, value: String, ttl: Option<u64>) {
        let expires_at = expiry_at(self.now(), ttl);
        let (mut table, handle) = self.shared.acquire_write();
        table.insert(key, value, expires_at);
        handle.release_write(table);
    }

    /// The value of `key`, unless there is none or its expiry has passed.
    pub fn get(&self, key: &str) -> Option<String> {
        let key: String = key.to_owned();
        let now = self.now();
        let handle = self.shared.acquire_read();
        let r = handle.borrow().lookup(&key, now);
        handle.release_read();
        r
    }

    /// Deletes the entry for `key`, expired or not, and returns its value.
    pub fn remove(&self, key: &str) -> Option<String> {
        let key: String = key.to_owned();
        let (mut table, handle) = self.shared.acquire_write();
        let r = table.remove(&key);
        handle.release_write(table);
        r
    }
}

impl Clone for Store {
    fn clone(&self) -> (r: Store)
        ensures
            r.same_table(self),
    {
        Store { shared: share(&self.shared), origin: self.origin }
    }
}

} // verus!
