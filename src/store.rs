use vstd::prelude::*;

verus! {

/// `std::time::SystemTime`, a wall-clock reading; opaque here.
#[verifier::external_type_specification]
#[verifier::external_body]
pub struct ExSystemTime(std::time::SystemTime);

/// The error of `SystemTime::duration_since`; only its presence is used.
#[verifier::external_type_specification]
#[verifier::external_body]
pub struct ExSystemTimeError(std::time::SystemTimeError);

/// Relies on `SystemTime::now`: it reads the wall clock; nothing is known of the value.
pub assume_specification[ std::time::SystemTime::now ]() -> std::time::SystemTime;

/// Relies on `SystemTime::duration_since`: it measures the span from `earlier`,
/// or fails when `earlier` is later; nothing more is relied on.
pub assume_specification[ std::time::SystemTime::duration_since ](
    this: &std::time::SystemTime,
    earlier: std::time::SystemTime,
) -> Result<std::time::Duration, std::time::SystemTimeError>;

/// The largest number of whole milliseconds that a `Duration` can hold:
/// `u64::MAX` seconds and 999 milliseconds.
pub const MAX_DURATION_MS: u128 = 18446744073709551615999;

/// Relies on `Duration::as_millis`: whole milliseconds of the span. A
/// `Duration` holds `u64` seconds and fewer than a billion nanoseconds, so the
/// count is at most `MAX_DURATION_MS`.
pub assume_specification[ std::time::Duration::as_millis ](this: &std::time::Duration) -> (r: u128)
    ensures
        r <= MAX_DURATION_MS,
;

/// Relies on `std::time::UNIX_EPOCH`: hands out the fixed origin of wall-clock time.
#[verifier::external_body]
fn unix_epoch() -> std::time::SystemTime {
    std::time::UNIX_EPOCH
}

/// Wall-clock time in whole milliseconds since the Unix epoch; a clock set
/// before the epoch reads as 0. Not monotonic. It never reaches the largest
/// timestamp, so an entry written now with a positive time to live is live now.
pub fn get_time() -> (r: u128)
    ensures
        r <= MAX_DURATION_MS,
{
    let now = std::time::SystemTime::now();
    match now.duration_since(unix_epoch()) {
        Ok(d) => d.as_millis(),
        Err(_) => 0,
    }
}

/// How long an entry lives when `SET` names no time to live: 365 days, in milliseconds.
pub const DEFAULT_TTL_MS: u64 = 31536000000;

/// The absolute expiry of an entry written at `now` with the given time to
/// live (or the default one); it saturates at the largest timestamp.
pub open spec fn expiry_of(now: u128, ttl_ms: Option<u64>) -> u128 {
    let t = match ttl_ms {
        Some(ms) => ms,
        None => DEFAULT_TTL_MS,
    };
    if now + t > u128::MAX {
        u128::MAX
    } else {
        (now + t) as u128
    }
}

/// The abstract store: each key with its value and absolute expiry.
pub type StoreMap = Map<Seq<char>, (Seq<char>, u128)>;

/// What a lookup of `k` at time `now` sees: the value, unless the key is
/// absent or its expiry is at or before `now`.
pub open spec fn live_value(m: StoreMap, k: Seq<char>, now: u128) -> Option<Seq<char>> {
    if m.contains_key(k) && now < m[k].1 {
        Some(m[k].0)
    } else {
        None
    }
}

/// The store after `SET k v` at time `now`: the entry is replaced whole.
pub open spec fn after_set(m: StoreMap, k: Seq<char>, v: Seq<char>, ttl_ms: Option<u64>, now: u128) -> StoreMap {
    m.insert(k, (v, expiry_of(now, ttl_ms)))
}

/// A stored value with the time, in milliseconds since the epoch, at which it expires.
pub struct StoredValue {
    pub value: String,
    pub expiry: u128,
}

/// Keys with their stored values; expired entries stay until overwritten.
pub struct Store {
    keys: Vec<String>,
    entries: Vec<StoredValue>,
    model: Ghost<StoreMap>,
}

impl View for Store {
    type V = StoreMap;

    closed spec fn view(&self) -> StoreMap {
        self.model@
    }
}

impl Store {
    /// Keys are unique, and the two vectors hold exactly the abstract map.
    pub closed spec fn wf(&self) -> bool {
        &&& self.keys@.len() == self.entries@.len()
        &&& forall|i: int, j: int|
            0 <= i < j < self.keys@.len() ==> #[trigger] self.keys@[i]@ != #[trigger] self.keys@[j]@
        &&& forall|k: Seq<char>|
            #[trigger] self.model@.contains_key(k) <==> exists|i: int|
                0 <= i < self.keys@.len() && #[trigger] self.keys@[i]@ == k
        &&& forall|i: int|
            0 <= i < self.keys@.len() ==> #[trigger] self.model@[self.keys@[i]@] == (
                self.entries@[i].value@,
                self.entries@[i].expiry,
            )
    }

    /// An empty store.
    pub fn new() -> (r: Store)
        ensures
            r.wf(),
            r@ == StoreMap::empty(),
    {
        Store { keys: Vec::new(), entries: Vec::new(), model: Ghost(StoreMap::empty()) }
    }

    /// Where `key` stands, if it is stored.
    fn find(&self, key: &String) -> (r: Option<usize>)
        requires
            self.wf(),
        ensures
            r is Some <==> self@.contains_key(key@),
            r matches Some(i) ==> i < self.keys@.len() && self.keys@[i as int]@ == key@,
    {
        let mut i: usize = 0;
        while i < self.keys.len()
            invariant
                self.wf(),
                i <= self.keys@.len(),
                forall|j: int| 0 <= j < i ==> #[trigger] self.keys@[j]@ != key@,
            decreases self.keys@.len() - i,
        {
            if self.keys[i] == *key {
                return Some(i);
            }
            i = i + 1;
        }
        None
    }

    /// The value of `key` at time `now`, unless it is absent or expired.
    /// The entry is never removed.
    pub fn get(&self, key: &String, now: u128) -> (r: Option<String>)
        requires
            self.wf(),
        ensures
            r is Some <==> live_value(self@, key@, now) is Some,
            r matches Some(v) ==> v@ == live_value(self@, key@, now)->0,
    {
        match self.find(key) {
            None => None,
            Some(i) => {
                let e = &self.entries[i];
                if now < e.expiry {
                    Some(e.value.clone())
                } else {
                    None
                }
            },
        }
    }

    /// Stores `value` under `key` at time `now`, replacing any earlier entry
    /// whole; it expires `ttl_ms` milliseconds later, or after the default
    /// time to live.
    pub fn set(&mut self, key: String, value: String, ttl_ms: Option<u64>, now: u128)
        requires
            old(self).wf(),
        ensures
            final(self).wf(),
            final(self)@ == after_set(old(self)@, key@, value@, ttl_ms, now),
    {
        let t: u64 = match ttl_ms {
            Some(ms) => ms,
            None => DEFAULT_TTL_MS,
        };
        let expiry = now.saturating_add(t as u128);
        assert(expiry == expiry_of(now, ttl_ms));
        let ghost k = key@;
        let ghost entry = (value@, expiry);
        let ghost old_keys = self.keys@;
        match self.find(&key) {
            Some(i) => {
                self.entries.set(i, StoredValue { value, expiry });
                self.model = Ghost(self.model@.insert(k, entry));
                assert forall|j: int| 0 <= j < self.keys@.len() implies #[trigger] self.model@[self.keys@[j]@] == (
                    self.entries@[j].value@,
                    self.entries@[j].expiry,
                ) by {
                    if j != i {
                        assert(self.keys@[j]@ != k);
                    }
                }
                assert forall|kk: Seq<char>| #[trigger] self.model@.contains_key(kk) implies exists|j: int|
                    0 <= j < self.keys@.len() && #[trigger] self.keys@[j]@ == kk by {
                    if kk == k {
                        assert(self.keys@[i as int]@ == kk);
                    } else {
                        let j = choose|j: int| 0 <= j < old_keys.len() && #[trigger] old_keys[j]@ == kk;
                        assert(self.keys@[j]@ == kk);
                    }
                }
            },
            None => {
                self.keys.push(key);
                self.entries.push(StoredValue { value, expiry });
                self.model = Ghost(self.model@.insert(k, entry));
                let n = self.keys.len() - 1;
                assert(self.keys@[n as int]@ == k);
                assert forall|kk: Seq<char>| #[trigger] self.model@.contains_key(kk) implies exists|j: int|
                    0 <= j < self.keys@.len() && #[trigger] self.keys@[j]@ == kk by {
                    if kk == k {
                        assert(self.keys@[n as int]@ == kk);
                    } else {
                        let j = choose|j: int| 0 <= j < old_keys.len() && #[trigger] old_keys[j]@ == kk;
                        assert(self.keys@[j]@ == kk);
                    }
                }
                assert forall|j: int| 0 <= j < self.keys@.len() implies #[trigger] self.model@[self.keys@[j]@] == (
                    self.entries@[j].value@,
                    self.entries@[j].expiry,
                ) by {
                    if j < n {
                        assert(old_keys[j]@ != k);
                    }
                }
            },
        }
    }
}

/// A value just written with the default time to live is read back at once.
pub proof fn lemma_set_then_get(m: StoreMap, k: Seq<char>, v: Seq<char>, now: u128)
    requires
        now < u128::MAX,
    ensures
        live_value(after_set(m, k, v, None, now), k, now) == Some(v),
{
}

/// Lookups of one key in one store agree: whenever two of them find the
/// entry live, at whatever times, they give the same value.
pub proof fn lemma_gets_agree(m: StoreMap, k: Seq<char>, t1: u128, t2: u128)
    ensures
        live_value(m, k, t1) is Some && live_value(m, k, t2) is Some ==> live_value(m, k, t1) == live_value(m, k, t2),
{
}

/// An entry written with a time to live of zero is absent at every later time.
pub proof fn lemma_zero_ttl_expires(m: StoreMap, k: Seq<char>, v: Seq<char>, written: u128, later: u128)
    requires
        written < later,
    ensures
        live_value(after_set(m, k, v, Some(0), written), k, later) is None,
{
}

/// A second write to a key replaces the first whole: the store is as if only
/// the second had happened, and read back at once it gives the second value.
pub proof fn lemma_overwrite(
    m: StoreMap,
    k: Seq<char>,
    a: Seq<char>,
    b: Seq<char>,
    ttl_a: Option<u64>,
    ttl_b: Option<u64>,
    first: u128,
    second: u128,
)
    ensures
        after_set(after_set(m, k, a, ttl_a, first), k, b, ttl_b, second) == after_set(m, k, b, ttl_b, second),
        second < u128::MAX ==> live_value(
            after_set(after_set(m, k, a, ttl_a, first), k, b, None, second),
            k,
            second,
        ) == Some(b),
{
    assert(after_set(after_set(m, k, a, ttl_a, first), k, b, ttl_b, second) =~= after_set(m, k, b, ttl_b, second));
}

} // verus!
