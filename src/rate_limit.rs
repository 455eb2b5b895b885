use vstd::prelude::*;
use crate::clock::now_seconds;

verus! {

/// Rate limiting configuration.
#[derive(Debug, Clone, Copy, PartialEq, Eq, Structural)]
pub struct RateLimitConfig {
    /// Sustained requests allowed per minute.
    pub requests_per_minute: u32,
    /// Largest number of requests admitted at once.
    pub burst: u32,
    /// When false every request is admitted.
    pub enabled: bool,
}

impl Default for RateLimitConfig {
    fn default() -> (r: Self)
        ensures
            r.requests_per_minute == 60,
            r.burst == 10,
            r.enabled,
    {
        RateLimitConfig { requests_per_minute: 60, burst: 10, enabled: true }
    }
}

/// State of one client's bucket: the available tokens, in sixtieths of a
/// token, and the time of the last refill. Counting sixtieths makes the refill
/// exact: `requests_per_minute` tokens a minute is that many units a second.
#[derive(Debug, Clone, Copy, PartialEq, Eq, Structural)]
pub struct TokenBucket {
    pub units: u64,
    pub last_update: i64,
}

/// Snapshot of a client's bucket, suitable for rate-limit headers.
#[derive(Debug, Clone, Copy, PartialEq, Eq, Structural)]
pub struct RateLimitStatus {
    pub remaining: u32,
    pub limit: u32,
    pub reset_at: i64,
}

/// Capacity of a bucket, in sixtieths of a token.
pub open spec fn capacity(burst: u32) -> int {
    burst * 60
}

/// A bucket as created for a client seen for the first time: full.
pub open spec fn fresh_bucket(burst: u32, now: i64) -> TokenBucket {
    TokenBucket { units: (burst * 60) as u64, last_update: now }
}

/// Seconds since the last refill; a clock that went back counts as none.
pub open spec fn elapsed(b: TokenBucket, now: i64) -> int {
    if now >= b.last_update {
        now - b.last_update
    } else {
        0
    }
}

/// Level of the bucket after refilling up to `now`, capped at capacity.
pub open spec fn refilled(b: TokenBucket, cfg: RateLimitConfig, now: i64) -> int {
    vstd::math::min(capacity(cfg.burst), b.units + elapsed(b, now) * cfg.requests_per_minute)
}

/// Whether a request at `now` is admitted: at least one whole token is there.
pub open spec fn admits(b: TokenBucket, cfg: RateLimitConfig, now: i64) -> bool {
    refilled(b, cfg, now) >= 60
}

/// The bucket after a check at `now`: refilled, and one token taken if admitted.
pub open spec fn after_check(b: TokenBucket, cfg: RateLimitConfig, now: i64) -> TokenBucket {
    let level = refilled(b, cfg, now);
    TokenBucket {
        units: (if level >= 60 { level - 60 } else { level }) as u64,
        last_update: now,
    }
}

/// A bucket of capacity at least one token admits again once enough time
/// has passed to refill one token, however empty it was.
pub proof fn lemma_refill_admits(b: TokenBucket, cfg: RateLimitConfig, now: i64)
    requires
        cfg.burst >= 1,
        now >= b.last_update,
        (now - b.last_update) * cfg.requests_per_minute >= 60,
    ensures
        admits(b, cfg, now),
{
}

/// One admission check at `now` for client `id`: the client's bucket, or a
/// full one if it has none yet, is refilled and charged, and the request is
/// admitted exactly when a whole token was there.
pub open spec fn check_outcome(
    before: Map<Seq<char>, TokenBucket>,
    cfg: RateLimitConfig,
    id: Seq<char>,
    now: i64,
    admitted: bool,
    after: Map<Seq<char>, TokenBucket>,
) -> bool {
    let b = if before.contains_key(id) {
        before[id]
    } else {
        fresh_bucket(cfg.burst, now)
    };
    &&& admitted == admits(b, cfg, now)
    &&& after == before.insert(id, after_check(b, cfg, now))
}

/// A check for one client leaves every other client's bucket as it was.
pub proof fn lemma_check_isolated(
    before: Map<Seq<char>, TokenBucket>,
    cfg: RateLimitConfig,
    id: Seq<char>,
    now: i64,
    admitted: bool,
    after: Map<Seq<char>, TokenBucket>,
    other: Seq<char>,
)
    requires
        check_outcome(before, cfg, id, now, admitted, after),
        other != id,
    ensures
        after.contains_key(other) == before.contains_key(other),
        before.contains_key(other) ==> after[other] == before[other],
{
}

/// Rate limiter using the token bucket algorithm, one bucket per client.
/// The buckets are a vector of (client, bucket) pairs with distinct clients,
/// seen through `view` as a map; vstd specifies no map keyed by `String`.
pub struct RateLimiter {
    config: RateLimitConfig,
    buckets: Vec<(String, TokenBucket)>,
}

impl RateLimiter {
    /// Buckets keyed by client, as a map.
    pub closed spec fn view(&self) -> Map<Seq<char>, TokenBucket> {
        Map::new(
            |k: Seq<char>| exists|i: int| 0 <= i < self.buckets@.len() && #[trigger] self.buckets@[i].0@ == k,
            |k: Seq<char>|
                self.buckets@[choose|i: int| 0 <= i < self.buckets@.len() && #[trigger] self.buckets@[i].0@ == k].1,
        )
    }

    pub closed spec fn spec_config(&self) -> RateLimitConfig {
        self.config
    }

    /// Each client has at most one bucket, and no bucket holds more than its capacity.
    pub closed spec fn wf(&self) -> bool {
        &&& forall|i: int, j: int|
            0 <= i < j < self.buckets@.len() ==> #[trigger] self.buckets@[i].0@ != #[trigger] self.buckets@[j].0@
        &&& forall|i: int|
            0 <= i < self.buckets@.len() ==> #[trigger] self.buckets@[i].1.units <= capacity(self.config.burst)
    }

    proof fn lemma_lookup(&self, i: int)
        requires
            self.wf(),
            0 <= i < self.buckets@.len(),
        ensures
            self@.contains_key(self.buckets@[i].0@),
            self@[self.buckets@[i].0@] == self.buckets@[i].1,
    {
        let k = self.buckets@[i].0@;
        assert(self@.dom().contains(k));
        let j = choose|j: int| 0 <= j < self.buckets@.len() && #[trigger] self.buckets@[j].0@ == k;
        assert(i == j);
    }

    /// Every bucket in the map is within capacity.
    pub proof fn lemma_within_capacity(&self, k: Seq<char>)
        requires
            self.wf(),
            self@.contains_key(k),
        ensures
            self@[k].units <= capacity(self.spec_config().burst),
    {
        let i = choose|i: int| 0 <= i < self.buckets@.len() && #[trigger] self.buckets@[i].0@ == k;
        self.lemma_lookup(i);
    }

    /// Create a rate limiter with no buckets yet.
    pub fn new(config: RateLimitConfig) -> (r: Self)
        ensures
            r.wf(),
            r.spec_config() == config,
            r@ == Map::<Seq<char>, TokenBucket>::empty(),
    {
        let r = RateLimiter { config, buckets: Vec::new() };
        assert(r@ =~= Map::<Seq<char>, TokenBucket>::empty());
        r
    }

    /// The configuration this limiter was made with.
    pub fn config(&self) -> (r: RateLimitConfig)
        ensures
            r == self.spec_config(),
    {
        self.config
    }

    fn find(&self, key: &String) -> (r: Option<usize>)
        requires
            self.wf(),
        ensures
            match r {
                Some(i) => i < self.buckets@.len() && self.buckets@[i as int].0@ == key@,
                None => !self@.contains_key(key@),
            },
    {
        let mut i: usize = 0;
        while i < self.buckets.len()
            invariant
                0 <= i <= self.buckets@.len(),
                forall|j: int| 0 <= j < i ==> #[trigger] self.buckets@[j].0@ != key@,
            decreases self.buckets@.len() - i,
        {
            if self.buckets[i].0 == *key {
                return Some(i);
            }
            i += 1;
        }
        None
    }

    /// Refill `b` up to `now` and take one token if there is one.
    fn step(b: TokenBucket, cfg: RateLimitConfig, now: i64) -> (r: (TokenBucket, bool))
        requires
            b.units <= capacity(cfg.burst),
        ensures
            r.0 == after_check(b, cfg, now),
            r.1 == admits(b, cfg, now),
            r.0.units <= capacity(cfg.burst),
    {
        let cap: i128 = cfg.burst as i128 * 60;
        let gap: i128 = now as i128 - b.last_update as i128;
        let secs: i128 = if gap > 0 { gap } else { 0 };
        assert(secs <= 0x1_0000_0000_0000_0000i128);
        assert(secs * cfg.requests_per_minute <= 0x1_0000_0000_0000_0000i128 * 0x1_0000_0000i128) by (nonlinear_arith)
            requires
                0 <= secs <= 0x1_0000_0000_0000_0000i128,
                cfg.requests_per_minute <= 0x1_0000_0000i128,
        ;
        let grown: i128 = b.units as i128 + secs * cfg.requests_per_minute as i128;
        let level: i128 = if grown < cap { grown } else { cap };
        if level >= 60 {
            (TokenBucket { units: (level - 60) as u64, last_update: now }, true)
        } else {
            (TokenBucket { units: level as u64, last_update: now }, false)
        }
    }

    /// Admission check for `client_id` at time `now` (seconds).
    pub fn check_rate_limit_at(&mut self, client_id: &str, now: i64) -> (r: bool)
        requires
            old(self).wf(),
        ensures
            final(self).wf(),
            final(self).spec_config() == old(self).spec_config(),
            !old(self).spec_config().enabled ==> r && final(self)@ == old(self)@,
            old(self).spec_config().enabled ==> check_outcome(
                old(self)@,
                old(self).spec_config(),
                client_id@,
                now,
                r,
                final(self)@,
            ),
    {
        if !self.config.enabled {
            return true;
        }
        let key = String::from_str(client_id);
        let cfg = self.config;
        let ghost before = self.buckets@;
        match self.find(&key) {
            Some(i) => {
                proof {
                    self.lemma_lookup(i as int);
                }
                let b = self.buckets[i].1;
                let (nb, ok) = Self::step(b, cfg, now);
                self.buckets.set(i, (key, nb));
                proof {
                    assert forall|j: int| 0 <= j < self.buckets@.len() implies #[trigger] self.buckets@[j].0@ == before[j].0@ by {}
                    assert(self.wf());
                    assert forall|k: Seq<char>| #[trigger] self@.contains_key(k) == old(self)@.insert(client_id@, nb).contains_key(k) by {
                        if self@.contains_key(k) {
                            let j = choose|j: int| 0 <= j < self.buckets@.len() && #[trigger] self.buckets@[j].0@ == k;
                            assert(old(self).buckets@[j].0@ == k);
                            assert(old(self)@.dom().contains(k));
                        }
                        if k == client_id@ {
                            assert(self.buckets@[i as int].0@ == k);
                            assert(self@.dom().contains(k));
                        }
                        if old(self)@.contains_key(k) && k != client_id@ {
                            let j = choose|j: int| 0 <= j < before.len() && #[trigger] before[j].0@ == k;
                            assert(self.buckets@[j].0@ == k);
                        }
                    }
                    assert forall|k: Seq<char>| #[trigger] self@.contains_key(k) implies self@[k] == old(self)@.insert(client_id@, nb)[k] by {
                        let j = choose|j: int| 0 <= j < self.buckets@.len() && #[trigger] self.buckets@[j].0@ == k;
                        self.lemma_lookup(j);
                        if k != client_id@ {
                            old(self).lemma_lookup(j);
                        }
                    }
                    assert(self@ =~= old(self)@.insert(client_id@, nb));
                }
                ok
            },
            None => {
                let fresh = TokenBucket { units: cfg.burst as u64 * 60, last_update: now };
                let (nb, ok) = Self::step(fresh, cfg, now);
                let ghost kv = key@;
                self.buckets.push((key, nb));
                proof {
                    let n = before.len() as int;
                    assert(self.buckets@.len() == n + 1);
                    assert(self.buckets@[n].0@ == kv);
                    assert(kv == client_id@);
                    assert forall|j: int| 0 <= j < n implies #[trigger] self.buckets@[j] == before[j] by {}
                    assert(self.wf()) by {
                        assert forall|j: int| 0 <= j < n implies before[j].0@ != client_id@ by {
                            if before[j].0@ == client_id@ {
                                assert(old(self)@.contains_key(client_id@));
                            }
                        }
                    }
                    assert forall|k: Seq<char>| #[trigger] self@.contains_key(k) == old(self)@.insert(client_id@, nb).contains_key(k) by {
                        if self@.contains_key(k) && k != client_id@ {
                            let j = choose|j: int| 0 <= j < self.buckets@.len() && #[trigger] self.buckets@[j].0@ == k;
                            assert(j < n);
                            assert(before[j].0@ == k);
                        }
                        if old(self)@.contains_key(k) {
                            let j = choose|j: int| 0 <= j < before.len() && #[trigger] before[j].0@ == k;
                            assert(self.buckets@[j].0@ == k);
                        }
                        if k == client_id@ {
                            assert(self.buckets@[n].0@ == k);
                            assert(self@.dom().contains(k));
                        }
                    }
                    assert forall|k: Seq<char>| #[trigger] self@.contains_key(k) implies self@[k] == old(self)@.insert(client_id@, nb)[k] by {
                        let j = choose|j: int| 0 <= j < self.buckets@.len() && #[trigger] self.buckets@[j].0@ == k;
                        self.lemma_lookup(j);
                        if k != client_id@ {
                            old(self).lemma_lookup(j);
                        }
                    }
                    assert(self@ =~= old(self)@.insert(client_id@, nb));
                }
                ok
            },
        }
    }

    /// Admission check for `client_id` at the current time.
    pub fn check_rate_limit(&mut self, client_id: &str) -> (r: bool)
        requires
            old(self).wf(),
        ensures
            final(self).wf(),
            final(self).spec_config() == old(self).spec_config(),
            !old(self).spec_config().enabled ==> r && final(self)@ == old(self)@,
            old(self).spec_config().enabled ==> exists|now: i64|
                #[trigger] check_outcome(
                    old(self)@,
                    old(self).spec_config(),
                    client_id@,
                    now,
                    r,
                    final(self)@,
                ),
    {
        let now = now_seconds();
        self.check_rate_limit_at(client_id, now)
    }

    /// Status of `client_id`'s bucket, as if read at time `now`.
    pub fn get_status_at(&self, client_id: &str, now: i64) -> (r: RateLimitStatus)
        requires
            self.wf(),
        ensures
            r.limit == self.spec_config().burst,
            self@.contains_key(client_id@) ==> {
                let b = self@[client_id@];
                &&& r.remaining == b.units / 60
                &&& r.reset_at == vstd::math::min(b.last_update + 60, i64::MAX as int)
            },
            !self@.contains_key(client_id@) ==> {
                &&& r.remaining == self.spec_config().burst
                &&& r.reset_at == vstd::math::min(now + 60, i64::MAX as int)
            },
    {
        let key = String::from_str(client_id);
        match self.find(&key) {
            Some(i) => {
                proof {
                    self.lemma_lookup(i as int);
                }
                let b = self.buckets[i].1;
                RateLimitStatus {
                    remaining: (b.units / 60) as u32,
                    limit: self.config.burst,
                    reset_at: if b.last_update <= i64::MAX - 60 { b.last_update + 60 } else { i64::MAX },
                }
            },
            None => RateLimitStatus {
                remaining: self.config.burst,
                limit: self.config.burst,
                reset_at: if now <= i64::MAX - 60 { now + 60 } else { i64::MAX },
            },
        }
    }

    /// Status of `client_id`'s bucket now.
    pub fn get_status(&self, client_id: &str) -> (r: RateLimitStatus)
        requires
            self.wf(),
        ensures
            r.limit == self.spec_config().burst,
            self@.contains_key(client_id@) ==> {
                let b = self@[client_id@];
                &&& r.remaining == b.units / 60
                &&& r.reset_at == vstd::math::min(b.last_update + 60, i64::MAX as int)
            },
            !self@.contains_key(client_id@) ==> {
                &&& r.remaining == self.spec_config().burst
                &&& exists|now: i64| r.reset_at == vstd::math::min(#[trigger] (now + 60), i64::MAX as int)
            },
    {
        let now = now_seconds();
        self.get_status_at(client_id, now)
    }
}

} // verus!
