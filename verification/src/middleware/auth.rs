//! API keys and rate limiting.

use crate::digits::{parse_unsigned, unsigned_of};
use crate::text::{
    arg_text, begins_with, comma_list, lemma_pieces_extend, lemma_trimmed, pieces, split, split_list,
    strip_prefix, texts, trim, trimmed,
};
use vstd::hash_map::StringHashMap;
use vstd::prelude::*;
use vstd::string::*;
use vstd::utf8::encode_utf8_decode_utf8;

verus! {

// ── token bucket ─────────────────────────────────────────────────────────────

/// One token, in the units in which a bucket counts: a bucket gains as many units per nanosecond
/// as it gains tokens per minute.
pub const TOKEN: u128 = 60_000_000_000;

/// How long a bucket is kept without a request, in nanoseconds.
pub const STALE_AFTER_NS: u64 = 600_000_000_000;

/// A token bucket: it holds up to `capacity` tokens and gains `per_minute` tokens a minute.
#[derive(Clone, Copy)]
pub struct Bucket {
    pub tokens: u128,
    pub last_refill_ns: u64,
    pub capacity: u32,
    pub per_minute: u32,
}

impl Bucket {
    pub open spec fn wf(self) -> bool {
        self.tokens <= self.capacity * TOKEN
    }

    /// A full bucket.
    pub open spec fn full(capacity: u32, per_minute: u32, now_ns: u64) -> Bucket {
        Bucket {
            tokens: (capacity * TOKEN) as u128,
            last_refill_ns: now_ns,
            capacity,
            per_minute,
        }
    }

    /// The time since the last refill.
    pub open spec fn elapsed(self, now_ns: u64) -> int {
        if now_ns >= self.last_refill_ns {
            now_ns - self.last_refill_ns
        } else {
            0
        }
    }

    /// What the bucket holds at `now_ns`, before a request.
    pub open spec fn level(self, now_ns: u64) -> int {
        let gained = self.tokens + self.elapsed(now_ns) * self.per_minute;
        if gained > self.capacity * TOKEN {
            self.capacity * TOKEN
        } else {
            gained
        }
    }

    /// A request at `now_ns` is allowed.
    pub open spec fn allows(self, now_ns: u64) -> bool {
        self.level(now_ns) >= TOKEN
    }

    /// The bucket after a request at `now_ns`.
    pub open spec fn after(self, now_ns: u64) -> Bucket {
        Bucket {
            tokens: (if self.allows(now_ns) {
                self.level(now_ns) - TOKEN
            } else {
                self.level(now_ns)
            }) as u128,
            last_refill_ns: now_ns,
            capacity: self.capacity,
            per_minute: self.per_minute,
        }
    }

    pub fn new(capacity: u32, per_minute: u32, now_ns: u64) -> (r: Self)
        ensures
            r == Bucket::full(capacity, per_minute, now_ns),
            r.wf(),
    {
        Bucket {
            tokens: capacity as u128 * TOKEN,
            last_refill_ns: now_ns,
            capacity,
            per_minute,
        }
    }

    /// Takes a token, if there is one. Returns whether the request is allowed.
    pub fn consume(&mut self, now_ns: u64) -> (r: bool)
        requires
            old(self).wf(),
        ensures
            r == old(self).allows(now_ns),
            *final(self) == old(self).after(now_ns),
            final(self).wf(),
    {
        let elapsed: u64 = if now_ns >= self.last_refill_ns {
            now_ns - self.last_refill_ns
        } else {
            0
        };
        let most: u128 = self.capacity as u128 * TOKEN;
        proof {
            assert(elapsed * self.per_minute <= 0xffff_ffff_ffff_ffff * 0xffff_ffff)
                by (nonlinear_arith)
                requires
                    elapsed <= 0xffff_ffff_ffff_ffff,
                    self.per_minute <= 0xffff_ffff,
            ;
        }
        let gained: u128 = self.tokens + elapsed as u128 * self.per_minute as u128;
        let level: u128 = if gained > most {
            most
        } else {
            gained
        };
        self.last_refill_ns = now_ns;
        if level >= TOKEN {
            self.tokens = level - TOKEN;
            true
        } else {
            self.tokens = level;
            false
        }
    }
}

/// How many of the requests at `times` a bucket allows.
pub open spec fn allowed_count(b: Bucket, times: Seq<u64>) -> nat
    decreases times.len(),
{
    if times.len() == 0 {
        0
    } else {
        (if b.allows(times[0]) {
            1nat
        } else {
            0nat
        }) + allowed_count(b.after(times[0]), times.drop_first())
    }
}

/// Times that never run backwards, from `from` on.
pub open spec fn in_order(from: u64, times: Seq<u64>) -> bool {
    &&& forall|i: int| 0 <= i < times.len() ==> from <= #[trigger] times[i]
    &&& forall|i: int, j: int|
        0 <= i <= j < times.len() ==> #[trigger] times[i] <= #[trigger] times[j]
}

/// Over any stretch of time a bucket allows no more requests than it holds tokens at the start and
/// gains on the way.
pub proof fn law_rate_is_bounded(b: Bucket, times: Seq<u64>, until: u64)
    requires
        b.wf(),
        in_order(b.last_refill_ns, times),
        b.last_refill_ns <= until,
        forall|i: int| 0 <= i < times.len() ==> #[trigger] times[i] <= until,
    ensures
        allowed_count(b, times) * TOKEN <= b.tokens + (until - b.last_refill_ns) * b.per_minute,
    decreases times.len(),
{
    if times.len() == 0 {
        assert((until - b.last_refill_ns) * b.per_minute >= 0) by (nonlinear_arith)
            requires
                until >= b.last_refill_ns,
        ;
    } else {
        let t = times[0];
        let next = b.after(t);
        let rest = times.drop_first();
        assert(b.level(t) >= 0) by {
            assert(b.elapsed(t) * b.per_minute >= 0) by (nonlinear_arith)
                requires
                    b.elapsed(t) >= 0,
            ;
        }
        assert(in_order(next.last_refill_ns, rest)) by {
            assert forall|i: int| 0 <= i < rest.len() implies t <= #[trigger] rest[i] by {
                assert(rest[i] == times[i + 1]);
            }
            assert forall|i: int, j: int| 0 <= i <= j < rest.len() implies #[trigger] rest[i]
                <= #[trigger] rest[j] by {
                assert(rest[i] == times[i + 1]);
                assert(rest[j] == times[j + 1]);
            }
        }
        law_rate_is_bounded(next, rest, until);
        let p = b.per_minute as int;
        assert((until - t) * p + (t - b.last_refill_ns) * p == (until - b.last_refill_ns) * p)
            by (nonlinear_arith);
        assert((1 + allowed_count(next, rest)) * TOKEN == TOKEN + allowed_count(next, rest)
            * TOKEN) by (nonlinear_arith);
    }
}

/// A full bucket allows a burst of as many requests as it has capacity, and then no more.
pub proof fn law_burst_is_capacity(capacity: u32, per_minute: u32, now_ns: u64, k: nat)
    requires
        k <= capacity,
    ensures
        ({
            let b = burst(Bucket::full(capacity, per_minute, now_ns), now_ns, k);
            &&& b.tokens == (capacity - k) * TOKEN
            &&& b.allows(now_ns) <==> k < capacity
        }),
    decreases k,
{
    let full = Bucket::full(capacity, per_minute, now_ns);
    let b = burst(full, now_ns, k);
    if k > 0 {
        law_burst_is_capacity(capacity, per_minute, now_ns, (k - 1) as nat);
        let before = burst(full, now_ns, (k - 1) as nat);
        assert(0int * before.per_minute == 0);
        lemma_burst_fields(full, now_ns, (k - 1) as nat);
        assert((capacity - (k - 1)) * TOKEN == (capacity - k) * TOKEN + TOKEN) by (nonlinear_arith);
        assert((capacity - (k - 1)) * TOKEN <= capacity * TOKEN) by (nonlinear_arith)
            requires
                k >= 1,
        ;
        assert((capacity - k) * TOKEN >= 0) by (nonlinear_arith)
            requires
                capacity >= k,
        ;
    }
    lemma_burst_fields(full, now_ns, k);
    assert(0int * b.per_minute == 0);
    assert((capacity - k) * TOKEN <= capacity * TOKEN) by (nonlinear_arith)
        requires
            k >= 0,
    ;
    if k < capacity {
        assert((capacity - k) * TOKEN >= TOKEN) by (nonlinear_arith)
            requires
                capacity - k >= 1,
        ;
    }
}

/// A bucket after `k` requests at the same moment.
pub open spec fn burst(b: Bucket, now_ns: u64, k: nat) -> Bucket
    decreases k,
{
    if k == 0 {
        b
    } else {
        burst(b, now_ns, (k - 1) as nat).after(now_ns)
    }
}

proof fn lemma_burst_fields(b: Bucket, now_ns: u64, k: nat)
    requires
        b.last_refill_ns == now_ns,
    ensures
        burst(b, now_ns, k).last_refill_ns == now_ns,
        burst(b, now_ns, k).capacity == b.capacity,
        burst(b, now_ns, k).per_minute == b.per_minute,
    decreases k,
{
    if k > 0 {
        lemma_burst_fields(b, now_ns, (k - 1) as nat);
    }
}

// ── rate limiter ─────────────────────────────────────────────────────────────

/// A token bucket for each key.
pub struct RateLimiter {
    buckets: StringHashMap<Bucket>,
    keys: Vec<String>,
    capacity: u32,
    per_minute: u32,
}

impl View for RateLimiter {
    type V = Map<Seq<char>, Bucket>;

    closed spec fn view(&self) -> Map<Seq<char>, Bucket> {
        self.buckets@
    }
}

impl RateLimiter {
    pub closed spec fn wf(&self) -> bool {
        &&& forall|k: Seq<char>| #[trigger] self.buckets@.contains_key(k) ==> self.buckets@[k].wf()
        &&& forall|k: Seq<char>| #[trigger]
            self.buckets@.contains_key(k) <==> texts(self.keys@).contains(k)
        &&& texts(self.keys@).no_duplicates()
    }

    /// The most tokens a bucket holds.
    pub closed spec fn capacity(&self) -> u32 {
        self.capacity
    }

    /// The tokens that a bucket gains a minute.
    pub closed spec fn per_minute(&self) -> u32 {
        self.per_minute
    }

    /// The bucket of a key at `now_ns`: a full one for a key that has none.
    pub open spec fn bucket_at(&self, key: Seq<char>, now_ns: u64) -> Bucket {
        if self@.contains_key(key) {
            self@[key]
        } else {
            Bucket::full(self.capacity(), self.per_minute(), now_ns)
        }
    }

    /// `capacity` is the largest burst, `per_minute` the sustained rate.
    pub fn new(capacity: u32, per_minute: u32) -> (r: Self)
        ensures
            r.wf(),
            r@ == Map::<Seq<char>, Bucket>::empty(),
            r.capacity() == capacity,
            r.per_minute() == per_minute,
    {
        RateLimiter { buckets: StringHashMap::new(), keys: Vec::new(), capacity, per_minute }
    }

    /// Whether a request with this key is allowed at `now_ns`. It takes a token from the bucket of
    /// the key, and leaves the others alone.
    pub fn check(&mut self, key: &str, now_ns: u64) -> (r: bool)
        requires
            old(self).wf(),
        ensures
            final(self).wf(),
            final(self).capacity() == old(self).capacity(),
            final(self).per_minute() == old(self).per_minute(),
            r == old(self).bucket_at(key@, now_ns).allows(now_ns),
            final(self)@ == old(self)@.insert(
                key@,
                old(self).bucket_at(key@, now_ns).after(now_ns),
            ),
    {
        let ghost before = texts(self.keys@);
        let ghost map = self.buckets@;
        let mut bucket: Bucket = match self.buckets.get(key) {
            Some(b) => *b,
            None => {
                self.keys.push(key.to_owned());
                proof {
                    assert(texts(self.keys@) =~= before.push(key@));
                    assert forall|k: Seq<char>| texts(self.keys@).contains(k) <==> (
                    before.contains(k) || k == key@) by {
                        let now = texts(self.keys@);
                        if before.contains(k) {
                            assert(now[before.index_of(k)] == k);
                        }
                        if k == key@ {
                            assert(now[before.len() as int] == k);
                        }
                        if now.contains(k) {
                            let i = now.index_of(k);
                            if i < before.len() {
                                assert(before[i] == k);
                            }
                        }
                    }
                    assert(!before.contains(key@));
                    assert(texts(self.keys@).no_duplicates()) by {
                        let now = texts(self.keys@);
                        assert forall|i: int, j: int|
                            0 <= i < now.len() && 0 <= j < now.len() && i != j implies now[i]
                            != now[j] by {
                            if i < before.len() {
                                assert(before.contains(before[i]));
                            }
                            if j < before.len() {
                                assert(before.contains(before[j]));
                            }
                        }
                    }
                }
                Bucket::new(self.capacity, self.per_minute, now_ns)
            },
        };
        let allowed: bool = bucket.consume(now_ns);
        self.buckets.insert(key.to_owned(), bucket);
        allowed
    }

    /// Drops the buckets of keys that have not been seen for ten minutes.
    pub fn prune(&mut self, now_ns: u64)
        requires
            old(self).wf(),
        ensures
            final(self).wf(),
            final(self).capacity() == old(self).capacity(),
            final(self).per_minute() == old(self).per_minute(),
            forall|k: Seq<char>| #[trigger]
                final(self)@.contains_key(k) <==> old(self)@.contains_key(k)
                    && old(self)@[k].last_refill_ns + STALE_AFTER_NS > now_ns,
            forall|k: Seq<char>| #[trigger]
                final(self)@.contains_key(k) ==> final(self)@[k] == old(self)@[k],
    {
        let ghost map = self.buckets@;
        let ghost all = texts(self.keys@);
        let mut kept: Vec<String> = Vec::new();
        let mut i: usize = 0;
        while i < self.keys.len()
            invariant
                all == texts(self.keys@),
                all.no_duplicates(),
                i <= self.keys@.len(),
                self.capacity == old(self).capacity,
                self.per_minute == old(self).per_minute,
                forall|k: Seq<char>| #[trigger] map.contains_key(k) <==> all.contains(k),
                forall|k: Seq<char>| #[trigger]
                    self.buckets@.contains_key(k) <==> map.contains_key(k) && (
                    map[k].last_refill_ns + STALE_AFTER_NS > now_ns || !all.take(
                        i as int,
                    ).contains(k)),
                forall|k: Seq<char>| #[trigger]
                    self.buckets@.contains_key(k) ==> self.buckets@[k] == map[k],
                forall|k: Seq<char>| #[trigger]
                    texts(kept@).contains(k) <==> all.take(i as int).contains(k)
                        && map[k].last_refill_ns + STALE_AFTER_NS > now_ns,
                texts(kept@).no_duplicates(),
            decreases self.keys@.len() - i,
        {
            let ghost key = self.keys@[i as int]@;
            proof {
                assert(all[i as int] == key);
                assert(all.contains(key));
                assert(!all.take(i as int).contains(key)) by {
                    if all.take(i as int).contains(key) {
                        let j = all.take(i as int).index_of(key);
                        assert(all[j] == all[i as int]);
                    }
                }
                assert(self.buckets@.contains_key(key));
                assert(all.take(i + 1) =~= all.take(i as int).push(key));
                assert forall|k: Seq<char>| all.take(i + 1).contains(k) <==> (all.take(
                    i as int,
                ).contains(k) || k == key) by {
                    lemma_contains_push(all.take(i as int), key, k);
                }
            }
            let last: u64 = match self.buckets.get(self.keys[i].as_str()) {
                Some(b) => b.last_refill_ns,
                None => 0,
            };
            let ghost was = texts(kept@);
            proof {
                assert(last == map[key].last_refill_ns);
                assert(!was.contains(key));
            }
            if last as u128 + STALE_AFTER_NS as u128 > now_ns as u128 {
                kept.push(self.keys[i].clone());
                proof {
                    assert(texts(kept@) =~= was.push(key));
                    assert forall|k: Seq<char>| texts(kept@).contains(k) <==> (was.contains(k) || k
                        == key) by {
                        lemma_contains_push(was, key, k);
                    }
                    assert forall|k: Seq<char>| #[trigger] texts(kept@).contains(k) <==> all.take(
                        i + 1,
                    ).contains(k) && map[k].last_refill_ns + STALE_AFTER_NS > now_ns by {
                        assert(was.contains(k) <==> all.take(i as int).contains(k)
                            && map[k].last_refill_ns + STALE_AFTER_NS > now_ns);
                    }
                    assert forall|a: int, b: int|
                        0 <= a < texts(kept@).len() && 0 <= b < texts(kept@).len() && a
                            != b implies texts(kept@)[a] != texts(kept@)[b] by {
                        if a < was.len() {
                            assert(was.contains(was[a]));
                        }
                        if b < was.len() {
                            assert(was.contains(was[b]));
                        }
                    }
                }
            } else {
                self.buckets.remove(self.keys[i].as_str());
                proof {
                    assert forall|k: Seq<char>| #[trigger] texts(kept@).contains(k) <==> all.take(
                        i + 1,
                    ).contains(k) && map[k].last_refill_ns + STALE_AFTER_NS > now_ns by {
                        assert(was.contains(k) <==> all.take(i as int).contains(k)
                            && map[k].last_refill_ns + STALE_AFTER_NS > now_ns);
                    }
                }
            }
            i += 1;
        }
        proof {
            assert(all.take(i as int) =~= all);
        }
        self.keys = kept;
    }
}

proof fn lemma_contains_push<A>(s: Seq<A>, a: A, k: A)
    ensures
        s.push(a).contains(k) <==> (s.contains(k) || k == a),
{
    if s.contains(k) {
        assert(s.push(a)[s.index_of(k)] == k);
    }
    if k == a {
        assert(s.push(a)[s.len() as int] == k);
    }
    if s.push(a).contains(k) {
        let i = s.push(a).index_of(k);
        if i < s.len() {
            assert(s[i] == k);
        }
    }
}

/// Each key has its own bucket: a request under one key leaves the buckets of all others as they
/// are.
pub proof fn law_keys_have_their_own_buckets(
    before: &RateLimiter,
    after: &RateLimiter,
    key: Seq<char>,
    now_ns: u64,
    other: Seq<char>,
    later_ns: u64,
)
    requires
        after@ == before@.insert(key, before.bucket_at(key, now_ns).after(now_ns)),
        after.capacity() == before.capacity(),
        after.per_minute() == before.per_minute(),
        other != key,
    ensures
        after.bucket_at(other, later_ns) == before.bucket_at(other, later_ns),
{
}

// ── keys ─────────────────────────────────────────────────────────────────────

/// Compares two texts byte by byte, in a time that depends on their lengths alone.
fn same_secret(a: &str, b: &str) -> (r: bool)
    ensures
        r == (a@ == b@),
{
    let x = a.as_bytes();
    let y = b.as_bytes();
    proof {
        encode_utf8_decode_utf8(a@);
        encode_utf8_decode_utf8(b@);
    }
    if x.len() != y.len() {
        return false;
    }
    let mut difference: u8 = 0;
    let mut i: usize = 0;
    proof {
        assert(x@.take(0) =~= y@.take(0));
    }
    while i < x.len()
        invariant
            x@.len() == y@.len(),
            i <= x@.len(),
            difference == 0 <==> x@.take(i as int) == y@.take(i as int),
        decreases x@.len() - i,
    {
        let p: u8 = x[i];
        let q: u8 = y[i];
        proof {
            assert((difference | (p ^ q)) == 0 <==> difference == 0 && p == q) by (bit_vector);
            assert(x@.take(i + 1) =~= x@.take(i as int).push(p));
            assert(y@.take(i + 1) =~= y@.take(i as int).push(q));
            if x@.take(i + 1) == y@.take(i + 1) {
                assert(x@.take(i as int) =~= x@.take(i + 1).drop_last());
                assert(y@.take(i as int) =~= y@.take(i + 1).drop_last());
                assert(x@.take(i + 1).last() == p);
                assert(y@.take(i + 1).last() == q);
            }
        }
        difference = difference | (p ^ q);
        i += 1;
    }
    proof {
        assert(x@.take(i as int) =~= x@);
        assert(y@.take(i as int) =~= y@);
    }
    difference == 0
}

/// A list of valid API keys. With an empty list every request is allowed.
pub struct ApiKeys {
    pub keys: Vec<String>,
}

/// The keys that the settings name: a comma-separated list of keys, or else the master key.
pub open spec fn keys_of(api_keys: Option<Seq<char>>, master_key: Option<Seq<char>>) -> Seq<
    Seq<char>,
> {
    match (api_keys, master_key) {
        (Some(list), _) => comma_list(list),
        (None, Some(list)) => comma_list(list),
        (None, None) => comma_list(Seq::empty()),
    }
}

impl ApiKeys {
    pub fn new(keys: Vec<String>) -> (r: Self)
        ensures
            r.keys == keys,
    {
        ApiKeys { keys }
    }

    /// The keys of the settings `API_KEYS`, or else `MASTER_KEY`.
    pub fn from_settings(api_keys: Option<&str>, master_key: Option<&str>) -> (r: Self)
        ensures
            texts(r.keys@) == keys_of(arg_text(api_keys), arg_text(master_key)),
    {
        let keys = match api_keys {
            Some(list) => split_list(list),
            None => match master_key {
                Some(list) => split_list(list),
                None => {
                    let none: String = String::new();
                    split_list(none.as_str())
                },
            },
        };
        ApiKeys { keys }
    }

    /// Whether the token is one of the keys, or there are none.
    pub fn is_valid(&self, token: &str) -> (r: bool)
        ensures
            r == (self.keys@.len() == 0 || texts(self.keys@).contains(token@)),
    {
        if self.keys.is_empty() {
            return true;
        }
        let mut i: usize = 0;
        while i < self.keys.len()
            invariant
                i <= self.keys@.len(),
                forall|j: int| 0 <= j < i ==> texts(self.keys@)[j] != token@,
            decreases self.keys@.len() - i,
        {
            proof {
                assert(texts(self.keys@)[i as int] == self.keys@[i as int]@);
            }
            if same_secret(self.keys[i].as_str(), token) {
                return true;
            }
            i += 1;
        }
        false
    }

    pub fn is_enabled(&self) -> (r: bool)
        ensures
            r == (self.keys@.len() > 0),
    {
        !self.keys.is_empty()
    }
}

/// A single key. Without one every request is allowed.
pub struct MasterKey {
    pub key: Option<String>,
}

impl MasterKey {
    /// The key of the setting `MASTER_KEY`, trimmed; none if it is blank.
    pub fn from_setting(master_key: Option<&str>) -> (r: Self)
        ensures
            match arg_text(master_key) {
                Some(s) => if trimmed(s).len() == 0 {
                    r.key is None
                } else {
                    r.key matches Some(k) && k@ == trimmed(s)
                },
                None => r.key is None,
            },
    {
        match master_key {
            Some(s) => {
                let k = trim(s);
                if k.as_str().is_empty() {
                    MasterKey { key: None }
                } else {
                    MasterKey { key: Some(k) }
                }
            },
            None => MasterKey { key: None },
        }
    }

    pub fn is_valid(&self, token: &str) -> (r: bool)
        ensures
            r == (self.key matches Some(k) ==> k@ == token@),
    {
        match &self.key {
            None => true,
            Some(k) => same_secret(k.as_str(), token),
        }
    }

    pub fn is_enabled(&self) -> (r: bool)
        ensures
            r == (self.key is Some),
    {
        self.key.is_some()
    }
}

// ── key of a request ─────────────────────────────────────────────────────────

/// The key in the headers of a request: the bearer token of `Authorization`, or else `X-API-Key`,
/// trimmed.
pub open spec fn request_key(authorization: Option<Seq<char>>, x_api_key: Option<Seq<char>>) -> Option<
    Seq<char>,
> {
    match authorization {
        Some(s) if begins_with(s, "Bearer "@) => Some(trimmed(s.skip("Bearer "@.len() as int))),
        _ => match x_api_key {
            Some(s) => Some(trimmed(s)),
            None => None,
        },
    }
}

/// Reads the key in the headers of a request.
pub fn extract_key(authorization: Option<&str>, x_api_key: Option<&str>) -> (r: Option<String>)
    ensures
        match r {
            Some(k) => request_key(arg_text(authorization), arg_text(x_api_key)) == Some(k@),
            None => request_key(arg_text(authorization), arg_text(x_api_key)) is None,
        },
{
    match authorization {
        Some(s) => match strip_prefix(s, "Bearer ") {
            Some(key) => {
                return Some(trim(key.as_str()));
            },
            None => {},
        },
        None => {},
    }
    match x_api_key {
        Some(s) => Some(trim(s)),
        None => None,
    }
}

// ── decisions ────────────────────────────────────────────────────────────────

/// What becomes of a request.
#[derive(Clone, Copy, PartialEq, Eq, Structural)]
pub enum Admission {
    Allowed,
    /// 401
    Unauthorized,
    /// 429
    TooManyRequests,
}

/// The number that the text of a setting writes, or a default.
pub open spec fn number_setting(s: Option<Seq<char>>, default: u32) -> nat {
    match s {
        Some(t) => match unsigned_of(t, 0xffff_ffff) {
            Some(n) => n,
            None => default as nat,
        },
        None => default as nat,
    }
}

fn read_number(s: Option<&str>, default: u32) -> (r: u32)
    ensures
        r == number_setting(arg_text(s), default),
{
    match s {
        Some(t) => match parse_unsigned(t, 0xffff_ffff) {
            Some(n) => n as u32,
            None => default,
        },
        None => default,
    }
}

/// Keys and rate limits of the protected endpoints.
pub struct AuthState {
    pub api_keys: ApiKeys,
    pub limiter: RateLimiter,
}

/// The key of the bucket from which a request takes its token.
pub open spec fn bucket_key(key: Seq<char>) -> Seq<char> {
    if key.len() == 0 {
        "anonymous"@
    } else {
        key
    }
}

impl AuthState {
    /// 60 requests a minute and a burst of 10, unless the settings say otherwise.
    pub fn from_settings(
        api_keys: Option<&str>,
        master_key: Option<&str>,
        per_minute: Option<&str>,
        burst: Option<&str>,
    ) -> (r: Self)
        ensures
            texts(r.api_keys.keys@) == keys_of(arg_text(api_keys), arg_text(master_key)),
            r.limiter.wf(),
            r.limiter@ == Map::<Seq<char>, Bucket>::empty(),
            r.limiter.per_minute() == number_setting(arg_text(per_minute), 60),
            r.limiter.capacity() == number_setting(arg_text(burst), 10),
    {
        let per_minute: u32 = read_number(per_minute, 60);
        let burst: u32 = read_number(burst, 10);
        AuthState {
            api_keys: ApiKeys::from_settings(api_keys, master_key),
            limiter: RateLimiter::new(burst, per_minute),
        }
    }

    /// The key of the request is valid.
    pub open spec fn key_valid(&self, key: Seq<char>) -> bool {
        self.api_keys.keys@.len() == 0 || texts(self.api_keys.keys@).contains(key)
    }

    /// Decides on a request. An invalid key is refused without touching the rate limits; a valid
    /// one takes a token from its bucket.
    pub fn decide(
        &mut self,
        authorization: Option<&str>,
        x_api_key: Option<&str>,
        now_ns: u64,
    ) -> (r: Admission)
        requires
            old(self).limiter.wf(),
        ensures
            final(self).limiter.wf(),
            final(self).api_keys == old(self).api_keys,
            final(self).limiter.capacity() == old(self).limiter.capacity(),
            final(self).limiter.per_minute() == old(self).limiter.per_minute(),
            ({
                let key = match request_key(arg_text(authorization), arg_text(x_api_key)) {
                    Some(k) => k,
                    None => Seq::empty(),
                };
                let bucket = old(self).limiter.bucket_at(bucket_key(key), now_ns);
                if !old(self).key_valid(key) {
                    r == Admission::Unauthorized && final(self).limiter@ == old(self).limiter@
                } else {
                    &&& r == (if bucket.allows(now_ns) {
                        Admission::Allowed
                    } else {
                        Admission::TooManyRequests
                    })
                    &&& final(self).limiter@ == old(self).limiter@.insert(
                        bucket_key(key),
                        bucket.after(now_ns),
                    )
                }
            }),
    {
        let key: String = match extract_key(authorization, x_api_key) {
            Some(k) => k,
            None => String::new(),
        };
        if !self.api_keys.is_valid(key.as_str()) {
            return Admission::Unauthorized;
        }
        let bucket: String = if key.as_str().is_empty() {
            "anonymous".to_owned()
        } else {
            key
        };
        if self.limiter.check(bucket.as_str(), now_ns) {
            Admission::Allowed
        } else {
            Admission::TooManyRequests
        }
    }
}

/// The address that a request came from: the first entry of `X-Forwarded-For`, trimmed, or else
/// the peer of the connection.
pub open spec fn client_address(forwarded: Option<Seq<char>>, peer: Seq<char>) -> Seq<char> {
    match forwarded {
        Some(s) => trimmed(pieces(s, ',')[0]),
        None => peer,
    }
}

/// Reads the address that a request came from.
pub fn client_ip(forwarded_for: Option<&str>, peer: &str) -> (r: String)
    ensures
        r@ == client_address(arg_text(forwarded_for), peer@),
{
    match forwarded_for {
        Some(s) => {
            let parts = split(s, ',');
            proof {
                crate::text::lemma_pieces_nonempty(s@, ',');
                assert(texts(parts@).len() == parts@.len());
                assert(texts(parts@)[0] == parts@[0]@);
            }
            trim(parts[0].as_str())
        },
        None => peer.to_owned(),
    }
}

/// Rate limits of the public endpoints, by client address.
pub struct PublicRateLimitState {
    pub limiter: RateLimiter,
}

impl PublicRateLimitState {
    /// 120 requests a minute, unless the setting says otherwise; the burst is as large.
    pub fn from_setting(per_minute: Option<&str>) -> (r: Self)
        ensures
            r.limiter.wf(),
            r.limiter@ == Map::<Seq<char>, Bucket>::empty(),
            r.limiter.per_minute() == number_setting(arg_text(per_minute), 120),
            r.limiter.capacity() == number_setting(arg_text(per_minute), 120),
    {
        let n: u32 = read_number(per_minute, 120);
        PublicRateLimitState { limiter: RateLimiter::new(n, n) }
    }

    /// Decides on a request.
    pub fn decide(&mut self, forwarded_for: Option<&str>, peer: &str, now_ns: u64) -> (r: Admission)
        requires
            old(self).limiter.wf(),
        ensures
            final(self).limiter.wf(),
            ({
                let key = client_address(arg_text(forwarded_for), peer@);
                let bucket = old(self).limiter.bucket_at(key, now_ns);
                &&& r == (if bucket.allows(now_ns) {
                    Admission::Allowed
                } else {
                    Admission::TooManyRequests
                })
                &&& final(self).limiter@ == old(self).limiter@.insert(key, bucket.after(now_ns))
            }),
            final(self).limiter.capacity() == old(self).limiter.capacity(),
            final(self).limiter.per_minute() == old(self).limiter.per_minute(),
    {
        let ip = client_ip(forwarded_for, peer);
        if self.limiter.check(ip.as_str(), now_ns) {
            Admission::Allowed
        } else {
            Admission::TooManyRequests
        }
    }
}

// ── what is let in ───────────────────────────────────────────────────────────

/// A bucket gains as many sixtieths of a request's price each second as it allows requests a
/// minute, up to its capacity, and allows a request where that makes at least one. An allowed
/// request is paid for; a refused one costs nothing.
pub proof fn law_bucket_refills_and_pays(b: Bucket, now_ns: u64)
    requires
        b.wf(),
    ensures
        ({
            let waited = if now_ns >= b.last_refill_ns {
                now_ns - b.last_refill_ns
            } else {
                0
            };
            let gained = b.tokens + waited * b.per_minute;
            let held = if gained <= b.capacity * 60_000_000_000 {
                gained
            } else {
                b.capacity * 60_000_000_000
            };
            &&& b.allows(now_ns) <==> held >= 60_000_000_000
            &&& b.after(now_ns).tokens == (if held >= 60_000_000_000 {
                held - 60_000_000_000
            } else {
                held
            })
            &&& b.after(now_ns).last_refill_ns == now_ns
            &&& b.after(now_ns).capacity == b.capacity
            &&& b.after(now_ns).per_minute == b.per_minute
        }),
{
    let waited = b.elapsed(now_ns);
    assert(waited * b.per_minute >= 0) by (nonlinear_arith)
        requires
            waited >= 0,
    ;
    assert(b.capacity * 60_000_000_000 <= u128::MAX);
}

/// A key that has made no request yet has a full bucket.
pub proof fn law_first_request_finds_a_full_bucket(
    limiter: &RateLimiter,
    key: Seq<char>,
    now_ns: u64,
)
    requires
        !limiter@.contains_key(key),
    ensures
        limiter.bucket_at(key, now_ns).tokens == limiter.capacity() * 60_000_000_000,
        limiter.bucket_at(key, now_ns).capacity == limiter.capacity(),
        limiter.bucket_at(key, now_ns).per_minute == limiter.per_minute(),
        limiter.bucket_at(key, now_ns).allows(now_ns) <==> limiter.capacity() > 0,
{
    let b = limiter.bucket_at(key, now_ns);
    law_bucket_refills_and_pays(b, now_ns);
    assert(0int * b.per_minute == 0);
}

/// The key of a request is what follows `Bearer ` in its authorization, without white space around
/// it, or else the one in its own header.
pub proof fn law_request_names_its_key(
    authorization: Option<Seq<char>>,
    x_api_key: Option<Seq<char>>,
    token: Seq<char>,
)
    ensures
        request_key(Some("Bearer "@ + token), x_api_key) == Some(trimmed(token)),
        authorization is None || !begins_with(authorization->0, "Bearer "@) ==> request_key(
            authorization,
            x_api_key,
        ) == (if x_api_key is Some {
            Some(trimmed(x_api_key->0))
        } else {
            None
        }),
{
    let s = "Bearer "@ + token;
    assert(s.subrange(0, "Bearer "@.len() as int) =~= "Bearer "@);
    assert(s.skip("Bearer "@.len() as int) =~= token);
}

/// The keys that are let in are those of the list of keys, and only without one those of the master
/// key. A request is let in by its key exactly when it is one of them or there are none.
pub proof fn law_only_listed_keys_are_valid(
    auth: &AuthState,
    api_keys: Option<Seq<char>>,
    master_key: Option<Seq<char>>,
    key: Seq<char>,
)
    requires
        texts(auth.api_keys.keys@) == keys_of(api_keys, master_key),
    ensures
        ({
            let listed = if api_keys is Some {
                comma_list(api_keys->0)
            } else if master_key is Some {
                comma_list(master_key->0)
            } else {
                Seq::empty()
            };
            auth.key_valid(key) <==> listed.len() == 0 || listed.contains(key)
        }),
{
    assert(texts(auth.api_keys.keys@).len() == auth.api_keys.keys@.len());
    lemma_empty_list();
}

proof fn lemma_empty_list()
    ensures
        comma_list(Seq::empty()).len() == 0,
{
    let empty = Seq::<char>::empty();
    let keep = |p: Seq<char>| p.len() > 0;
    let all = pieces(empty, ',').map_values(|p: Seq<char>| trimmed(p));
    lemma_trimmed(empty);
    reveal(Seq::filter);
    assert(all.drop_last() =~= Seq::empty());
    assert(all.last().len() == 0);
    assert(all.drop_last().filter(keep).len() == 0);
}

/// Requests without a key share one bucket; any other has that of its key.
pub proof fn law_requests_without_a_key_share_a_bucket(key: Seq<char>)
    ensures
        key.len() == 0 ==> bucket_key(key) == "anonymous"@,
        key.len() > 0 ==> bucket_key(key) == key,
{
}

/// A request is counted for the first address that it was forwarded for, or else for its peer.
pub proof fn law_first_forwarded_address_counts(first: Seq<char>, rest: Seq<char>, peer: Seq<char>)
    requires
        forall|i: int| 0 <= i < first.len() ==> #[trigger] first[i] != ',',
    ensures
        client_address(None, peer) == peer,
        client_address(Some(first), peer) == trimmed(first),
        client_address(Some(first.push(',') + rest), peer) == trimmed(first),
{
    let empty = Seq::<char>::empty();
    lemma_pieces_extend(empty, first, ',');
    assert(empty + first =~= first);
    assert(pieces(empty, ',') =~= seq![empty]);
    assert(pieces(first, ',') =~= seq![first]);
    assert(first.push(',').drop_last() =~= first);
    assert(pieces(first.push(','), ',') =~= seq![first, empty]);
    lemma_first_piece(first.push(','), rest, ',');
}

proof fn lemma_first_piece(s: Seq<char>, t: Seq<char>, c: char)
    requires
        pieces(s, c).len() >= 2,
    ensures
        pieces(s + t, c).len() >= 2,
        pieces(s + t, c)[0] == pieces(s, c)[0],
    decreases t.len(),
{
    if t.len() == 0 {
        assert(s + t =~= s);
    } else {
        lemma_first_piece(s, t.drop_last(), c);
        assert((s + t).drop_last() =~= s + t.drop_last());
    }
}

/// A setting that is a number of up to 32 bits counts; anything else leaves the default.
pub proof fn law_bad_numbers_leave_the_default(s: Option<Seq<char>>, default: u32)
    ensures
        number_setting(s, default) == (if s is Some && unsigned_of(s->0, u32::MAX as nat) is Some {
            unsigned_of(s->0, u32::MAX as nat)->0
        } else {
            default as nat
        }),
{
}

} // verus!
