//! Per-source-address admission gate: one token bucket per (protocol,
//! address) pair. On each check the bucket refills once a full period has
//! elapsed since its last refill, then one token is consumed if available;
//! otherwise the check is denied with the time until the next refill.

use vstd::prelude::*;

use crate::text::{bytes_eq, copy_bytes};

verus! {

/// The two independent quotas: (burst capacity, refill period) per protocol.
#[derive(Clone, Copy)]
pub struct LimiterConfig {
    pub submission_burst: u64,
    pub submission_period: u64,
    pub retrieval_burst: u64,
    pub retrieval_period: u64,
}

impl LimiterConfig {
    /// A quota needs at least one token of capacity and a positive period.
    pub open spec fn wf(&self) -> bool {
        &&& self.submission_burst >= 1
        &&& self.submission_period >= 1
        &&& self.retrieval_burst >= 1
        &&& self.retrieval_period >= 1
    }
}

/// One address's bucket: tokens remaining and the time of the last refill.
#[derive(Clone, Copy)]
pub struct TokenBucket {
    pub tokens: u64,
    pub last_refill: u64,
}

/// The answer of one admission check.
#[derive(Clone, Copy, PartialEq, Eq, Structural, Debug)]
pub enum LimitDecision {
    Allow,
    Deny { retry_after: u64 },
}

/// A full bucket whose refill window starts at `now`.
pub open spec fn full_bucket(now: u64, burst: u64) -> TokenBucket {
    TokenBucket { tokens: burst, last_refill: now }
}

/// The bucket after refilling at time `now`: a full period after the last
/// refill restores the full burst capacity; a clock that moved backwards
/// restarts the window at `now` without granting tokens.
pub open spec fn refilled(b: TokenBucket, now: u64, burst: u64, period: u64) -> TokenBucket {
    if b.last_refill + period <= now {
        full_bucket(now, burst)
    } else if now < b.last_refill {
        TokenBucket { tokens: b.tokens, last_refill: now }
    } else {
        b
    }
}

/// Whether a check at `now` is admitted.
pub open spec fn bucket_allows(b: TokenBucket, now: u64, burst: u64, period: u64) -> bool {
    refilled(b, now, burst, period).tokens > 0
}

/// The bucket after a check at `now`: refill, then consume one token if any.
pub open spec fn bucket_next(b: TokenBucket, now: u64, burst: u64, period: u64) -> TokenBucket {
    let r = refilled(b, now, burst, period);
    if r.tokens > 0 {
        TokenBucket { tokens: (r.tokens - 1) as u64, last_refill: r.last_refill }
    } else {
        r
    }
}

/// On denial, the time until the next refill grants a token.
pub open spec fn spec_retry(b: TokenBucket, now: u64, burst: u64, period: u64) -> u64 {
    ((refilled(b, now, burst, period).last_refill + period) - now) as u64
}

/// The decision of a check at `now`.
pub open spec fn bucket_decision(b: TokenBucket, now: u64, burst: u64, period: u64)
    -> LimitDecision {
    if bucket_allows(b, now, burst, period) {
        LimitDecision::Allow
    } else {
        LimitDecision::Deny { retry_after: spec_retry(b, now, burst, period) }
    }
}

/// The stored bucket of `addr`, or a full bucket opening at `now` when the
/// address was never checked (buckets are created lazily on first check).
pub open spec fn entry_or_full(o: Option<TokenBucket>, now: u64, burst: u64) -> TokenBucket {
    match o {
        Some(b) => b,
        None => full_bucket(now, burst),
    }
}

/// The bucket recorded for `addr`, if any (first match).
spec fn bucket_of(entries: Seq<(Vec<u8>, TokenBucket)>, addr: Seq<u8>) -> Option<TokenBucket>
    decreases entries.len(),
{
    if entries.len() == 0 {
        None
    } else if entries[0].0@ == addr {
        Some(entries[0].1)
    } else {
        bucket_of(entries.drop_first(), addr)
    }
}

/// Updating the first entry of `addr` in place rewrites that address's
/// bucket and no other.
proof fn lemma_bucket_update(entries: Seq<(Vec<u8>, TokenBucket)>, i: int, nb: TokenBucket)
    requires
        0 <= i < entries.len(),
        forall|j: int| 0 <= j < i ==> entries[j].0@ != entries[i].0@,
    ensures
        forall|k: Seq<u8>| #[trigger] bucket_of(
            entries.update(i, (entries[i].0, nb)),
            k,
        ) == if k == entries[i].0@ {
            Some(nb)
        } else {
            bucket_of(entries, k)
        },
    decreases i,
{
    let updated = entries.update(i, (entries[i].0, nb));
    if i == 0 {
        assert(updated[0] == (entries[0].0, nb));
        assert forall|k: Seq<u8>| true implies #[trigger] bucket_of(updated, k) == if k
            == entries[0].0@ {
            Some(nb)
        } else {
            bucket_of(entries, k)
        } by {
            if k == entries[0].0@ {
                assert(bucket_of(updated, k) == Some(nb));
            } else {
                assert(updated.drop_first() =~= entries.drop_first());
            }
        }
    } else {
        assert(updated.drop_first() =~= entries.drop_first().update(i - 1, (entries[i].0, nb)));
        assert(entries.drop_first()[i - 1] == entries[i]);
        lemma_bucket_update(entries.drop_first(), i - 1, nb);
        assert forall|k: Seq<u8>| true implies #[trigger] bucket_of(updated, k) == if k
            == entries[i].0@ {
            Some(nb)
        } else {
            bucket_of(entries, k)
        } by {
            assert(updated[0] == entries[0]);
            if updated[0].0@ == k {
                assert(k != entries[i].0@);
                assert(bucket_of(updated, k) == Some(entries[0].1));
                assert(bucket_of(entries, k) == Some(entries[0].1));
            } else {
                assert(bucket_of(updated, k) == bucket_of(updated.drop_first(), k));
                assert(bucket_of(entries, k) == bucket_of(entries.drop_first(), k));
            }
        }
    }
}

/// Appending an entry for a new address creates that bucket and no other.
proof fn lemma_bucket_push(entries: Seq<(Vec<u8>, TokenBucket)>, e: (Vec<u8>, TokenBucket))
    requires
        bucket_of(entries, e.0@) is None,
    ensures
        forall|k: Seq<u8>| #[trigger] bucket_of(entries.push(e), k) == if k == e.0@ {
            Some(e.1)
        } else {
            bucket_of(entries, k)
        },
    decreases entries.len(),
{
    let p = entries.push(e);
    assert(p[0] == if entries.len() == 0 {
        e
    } else {
        entries[0]
    });
    if entries.len() == 0 {
        assert(p.drop_first() =~= Seq::<(Vec<u8>, TokenBucket)>::empty());
        assert forall|k: Seq<u8>| true implies #[trigger] bucket_of(p, k) == if k == e.0@ {
            Some(e.1)
        } else {
            bucket_of(entries, k)
        } by {
            assert(bucket_of(p.drop_first(), k) is None);
            assert(bucket_of(entries, k) is None);
        }
    } else {
        assert(p.drop_first() =~= entries.drop_first().push(e));
        assert(bucket_of(entries.drop_first(), e.0@) is None);
        lemma_bucket_push(entries.drop_first(), e);
        assert forall|k: Seq<u8>| true implies #[trigger] bucket_of(p, k) == if k == e.0@ {
            Some(e.1)
        } else {
            bucket_of(entries, k)
        } by {
            assert(p[0] == entries[0]);
            if p[0].0@ == k {
                assert(k != e.0@);
                assert(bucket_of(p, k) == Some(entries[0].1));
                assert(bucket_of(entries, k) == Some(entries[0].1));
            } else {
                assert(bucket_of(p, k) == bucket_of(p.drop_first(), k));
                assert(bucket_of(entries, k) == bucket_of(entries.drop_first(), k));
            }
        }
    }
}

/// When no entry's address matches, no bucket is recorded.
proof fn lemma_bucket_absent(entries: Seq<(Vec<u8>, TokenBucket)>, addr: Seq<u8>)
    requires
        forall|j: int| 0 <= j < entries.len() ==> entries[j].0@ != addr,
    ensures
        bucket_of(entries, addr) is None,
    decreases entries.len(),
{
    if entries.len() > 0 {
        lemma_bucket_absent(entries.drop_first(), addr);
    }
}

/// Refill then consume, executably.
fn bucket_step(b: TokenBucket, now: u64, burst: u64, period: u64) -> (r: (
    TokenBucket,
    LimitDecision,
))
    ensures
        r.0 == bucket_next(b, now, burst, period),
        r.1 == bucket_decision(b, now, burst, period),
{
    let rb: TokenBucket = if now >= b.last_refill && now - b.last_refill >= period {
        TokenBucket { tokens: burst, last_refill: now }
    } else if now < b.last_refill {
        TokenBucket { tokens: b.tokens, last_refill: now }
    } else {
        b
    };
    proof {
        assert(rb == refilled(b, now, burst, period));
    }
    if rb.tokens > 0 {
        (
            TokenBucket { tokens: rb.tokens - 1, last_refill: rb.last_refill },
            LimitDecision::Allow,
        )
    } else {
        let retry = period - (now - rb.last_refill);
        (rb, LimitDecision::Deny { retry_after: retry })
    }
}

/// One admission check against one protocol's bucket table.
#[verifier::loop_isolation(false)]
fn check_table(entries: &mut Vec<(Vec<u8>, TokenBucket)>, addr: &[u8], now: u64, burst: u64, period: u64)
    -> (d: LimitDecision)
    requires
        forall|j: int| 0 <= j < old(entries)@.len() ==> #[trigger] old(entries)@[j].1.tokens
            <= burst,
    ensures
        ({
            let b0 = entry_or_full(bucket_of(old(entries)@, addr@), now, burst);
            &&& bucket_of(final(entries)@, addr@) == Some(bucket_next(b0, now, burst, period))
            &&& d == bucket_decision(b0, now, burst, period)
        }),
        forall|k: Seq<u8>| k != addr@ ==> #[trigger] bucket_of(final(entries)@, k) == bucket_of(
            old(entries)@,
            k,
        ),
        forall|j: int| 0 <= j < final(entries)@.len() ==> #[trigger] final(entries)@[j].1.tokens
            <= burst,
{
    let n = entries.len();
    let mut i: usize = 0;
    while i < n
        invariant
            0 <= i <= n,
            n == entries@.len(),
            entries@ == old(entries)@,
            forall|j: int| 0 <= j < i ==> entries@[j].0@ != addr@,
        decreases n - i,
    {
        if bytes_eq(entries[i].0.as_slice(), addr) {
            let b = entries[i].1;
            proof {
                assert(bucket_of(entries@, addr@) == Some(b)) by {
                    lemma_bucket_found(entries@, i as int);
                }
            }
            let (nb, d) = bucket_step(b, now, burst, period);
            entries[i].1 = nb;
            proof {
                assert(entries@ == old(entries)@.update(
                    i as int,
                    (old(entries)@[i as int].0, nb),
                ));
                lemma_bucket_update(old(entries)@, i as int, nb);
                assert forall|j: int| 0 <= j < entries@.len() implies #[trigger] entries@[j].1.tokens
                    <= burst by {
                    if j != i {
                        assert(old(entries)@[j].1 == entries@[j].1);
                    }
                }
            }
            return d;
        }
        i += 1;
    }
    proof {
        lemma_bucket_absent(entries@, addr@);
    }
    let b0 = TokenBucket { tokens: burst, last_refill: now };
    let (nb, d) = bucket_step(b0, now, burst, period);
    let key = copy_bytes(addr);
    let ghost entry = (key, nb);
    entries.push((key, nb));
    proof {
        lemma_bucket_push(old(entries)@, entry);
    }
    d
}

/// The first matching index is what `bucket_of` reports.
proof fn lemma_bucket_found(entries: Seq<(Vec<u8>, TokenBucket)>, i: int)
    requires
        0 <= i < entries.len(),
        entries[i].0@ == entries[i].0@,
        forall|j: int| 0 <= j < i ==> entries[j].0@ != entries[i].0@,
    ensures
        bucket_of(entries, entries[i].0@) == Some(entries[i].1),
    decreases i,
{
    if i > 0 {
        assert(entries.drop_first()[i - 1] == entries[i]);
        lemma_bucket_found(entries.drop_first(), i - 1);
    }
}

/// The per-source-address rate limiter, one bucket table per protocol.
pub struct RateLimiter {
    config: LimiterConfig,
    submission: Vec<(Vec<u8>, TokenBucket)>,
    retrieval: Vec<(Vec<u8>, TokenBucket)>,
}

impl RateLimiter {
    pub closed spec fn spec_config(&self) -> LimiterConfig {
        self.config
    }

    /// The submission-protocol bucket recorded for `addr`, if any.
    pub closed spec fn submission_bucket(&self, addr: Seq<u8>) -> Option<TokenBucket> {
        bucket_of(self.submission@, addr)
    }

    /// The retrieval-protocol bucket recorded for `addr`, if any.
    pub closed spec fn retrieval_bucket(&self, addr: Seq<u8>) -> Option<TokenBucket> {
        bucket_of(self.retrieval@, addr)
    }

    /// Tokens never exceed the configured burst capacity.
    pub closed spec fn wf(&self) -> bool {
        &&& self.config.wf()
        &&& forall|j: int| 0 <= j < self.submission@.len() ==> #[trigger] self.submission@[j].1.tokens
            <= self.config.submission_burst
        &&& forall|j: int| 0 <= j < self.retrieval@.len() ==> #[trigger] self.retrieval@[j].1.tokens
            <= self.config.retrieval_burst
    }

    /// The default quotas: submission 10 per 60 time units, retrieval 5 per
    /// 30 time units.
    pub fn new() -> (r: Self)
        ensures
            r.wf(),
            r.spec_config() == (LimiterConfig {
                submission_burst: 10,
                submission_period: 60,
                retrieval_burst: 5,
                retrieval_period: 30,
            }),
            forall|a: Seq<u8>| #[trigger] r.submission_bucket(a) is None,
            forall|a: Seq<u8>| #[trigger] r.retrieval_bucket(a) is None,
    {
        Self::with_config(
            LimiterConfig {
                submission_burst: 10,
                submission_period: 60,
                retrieval_burst: 5,
                retrieval_period: 30,
            },
        )
    }

    /// A limiter with the given quotas and no recorded address.
    pub fn with_config(config: LimiterConfig) -> (r: Self)
        requires
            config.wf(),
        ensures
            r.wf(),
            r.spec_config() == config,
            forall|a: Seq<u8>| #[trigger] r.submission_bucket(a) is None,
            forall|a: Seq<u8>| #[trigger] r.retrieval_bucket(a) is None,
    {
        RateLimiter { config, submission: Vec::new(), retrieval: Vec::new() }
    }

    /// One admission check for the submission protocol: refill the address's
    /// bucket (created full on first sight), then consume one token, or deny
    /// with the time until the next refill.
    pub fn check_smtp_limit(&mut self, ip: &str, now: u64) -> (d: LimitDecision)
        requires
            old(self).wf(),
        ensures
            final(self).wf(),
            final(self).spec_config() == old(self).spec_config(),
            ({
                let k = vstd::utf8::encode_utf8(ip@);
                let burst = old(self).spec_config().submission_burst;
                let period = old(self).spec_config().submission_period;
                let b0 = entry_or_full(old(self).submission_bucket(k), now, burst);
                &&& d == bucket_decision(b0, now, burst, period)
                &&& final(self).submission_bucket(k) == Some(bucket_next(b0, now, burst, period))
                &&& forall|k2: Seq<u8>| k2 != k ==> #[trigger] final(self).submission_bucket(k2)
                    == old(self).submission_bucket(k2)
                &&& forall|k2: Seq<u8>| #[trigger] final(self).retrieval_bucket(k2) == old(self).retrieval_bucket(k2)
            }),
    {
        let burst = self.config.submission_burst;
        let period = self.config.submission_period;
        check_table(&mut self.submission, ip.as_bytes(), now, burst, period)
    }

    /// One admission check for the retrieval protocol.
    pub fn check_imap_limit(&mut self, ip: &str, now: u64) -> (d: LimitDecision)
        requires
            old(self).wf(),
        ensures
            final(self).wf(),
            final(self).spec_config() == old(self).spec_config(),
            ({
                let k = vstd::utf8::encode_utf8(ip@);
                let burst = old(self).spec_config().retrieval_burst;
                let period = old(self).spec_config().retrieval_period;
                let b0 = entry_or_full(old(self).retrieval_bucket(k), now, burst);
                &&& d == bucket_decision(b0, now, burst, period)
                &&& final(self).retrieval_bucket(k) == Some(bucket_next(b0, now, burst, period))
                &&& forall|k2: Seq<u8>| k2 != k ==> #[trigger] final(self).retrieval_bucket(k2)
                    == old(self).retrieval_bucket(k2)
                &&& forall|k2: Seq<u8>| #[trigger] final(self).submission_bucket(k2) == old(self).submission_bucket(k2)
            }),
    {
        let burst = self.config.retrieval_burst;
        let period = self.config.retrieval_period;
        check_table(&mut self.retrieval, ip.as_bytes(), now, burst, period)
    }
}

/// The outcomes of a chain of checks against one bucket: the decision of
/// each check in order, each applied to the bucket the previous one left —
/// exactly what repeated `check_smtp_limit` or `check_imap_limit` calls on
/// one address produce, by their contracts.
pub open spec fn run_allows(b: TokenBucket, times: Seq<u64>, burst: u64, period: u64) -> Seq<
    bool,
>
    decreases times.len(),
{
    if times.len() == 0 {
        Seq::empty()
    } else {
        seq![bucket_allows(b, times[0], burst, period)] + run_allows(
            bucket_next(b, times[0], burst, period),
            times.drop_first(),
            burst,
            period,
        )
    }
}

/// From a bucket holding `m` tokens whose window opened at `t0`, checks
/// within that window are admitted exactly while tokens remain.
proof fn lemma_drain(m: u64, t0: u64, times: Seq<u64>, burst: u64, period: u64)
    requires
        period >= 1,
        forall|i: int| 0 <= i < times.len() ==> t0 <= #[trigger] times[i] < t0 + period,
    ensures
        run_allows(TokenBucket { tokens: m, last_refill: t0 }, times, burst, period).len()
            == times.len(),
        forall|i: int| 0 <= i < times.len() ==> #[trigger] run_allows(
            TokenBucket { tokens: m, last_refill: t0 },
            times,
            burst,
            period,
        )[i] == (i < m),
    decreases times.len(),
{
    let b = TokenBucket { tokens: m, last_refill: t0 };
    if times.len() > 0 {
        assert(refilled(b, times[0], burst, period) == b);
        if m > 0 {
            lemma_drain((m - 1) as u64, t0, times.drop_first(), burst, period);
        } else {
            lemma_drain(0, t0, times.drop_first(), burst, period);
        }
    }
}

/// Law (token bucket): from a fresh address, `burst + 1` checks within one
/// refill period admit exactly the first `burst` and deny the last.
pub proof fn lemma_burst_then_deny(t0: u64, times: Seq<u64>, burst: u64, period: u64)
    requires
        burst >= 1,
        period >= 1,
        times.len() == burst + 1,
        forall|i: int| 0 <= i < times.len() ==> t0 <= #[trigger] times[i] < t0 + period,
    ensures
        forall|i: int| 0 <= i < burst ==> #[trigger] run_allows(
            full_bucket(t0, burst),
            times,
            burst,
            period,
        )[i],
        !run_allows(full_bucket(t0, burst), times, burst, period)[burst as int],
{
    lemma_drain(burst, t0, times, burst, period);
}

/// Law (token bucket): a full refill period after the last refill, at least
/// one further check is admitted.
pub proof fn lemma_refill_allows(b: TokenBucket, now: u64, burst: u64, period: u64)
    requires
        burst >= 1,
        b.last_refill + period <= now,
    ensures
        bucket_allows(b, now, burst, period),
{
}

} // verus!
