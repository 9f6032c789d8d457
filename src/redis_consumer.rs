use crate::lru_cache::{opt_view, Cache, CacheView, LRUCache};
use crate::redis_request::{LookupResult, Message, RedisRequest};
use vstd::prelude::*;

verus! {

/// The backing store, as the worker sees it.
pub trait RedisProvider {
    /// Whether `r` is an answer that the store may give for `key`. It names the
    /// store's answer, so that the worker can be held to passing on exactly what
    /// it was told for the key it asked about. A store whose impl keeps the default
    /// counts every answer; one written with its own contract may say more.
    closed spec fn answers(&self, key: Seq<char>, r: LookupResult) -> bool {
        true
    }

    fn fetch(&self, key: &String) -> (r: Result<Option<String>, redis::RedisError>)
        ensures
            self.answers(key@, r),
    ;
}

/// Whether the store's answer to `PING` shows that it is reachable.
pub fn is_pong(reply: &Option<String>) -> (r: bool)
    ensures
        r == (opt_view(*reply) == Some("PONG"@)),
{
    match reply {
        Some(s) => *s == String::from_str("PONG"),
        None => false,
    }
}

/// What the store's answer `fetched` for `key` makes of the cache `before`, after
/// a miss: a value is cached, at some time on the cache's clock; none and an error
/// leave the cache as it was.
pub open spec fn miss_settled(
    before: CacheView,
    key: Seq<char>,
    fetched: LookupResult,
    after: CacheView,
) -> bool {
    match fetched {
        Ok(Some(s)) => exists|t: u128| #[trigger] before.put(key, s@, t as int) == after,
        _ => after == before,
    }
}

/// What a lookup of `key` at time `now` makes of the cache `before`, given that it
/// returned `r` and left the cache `after`: a live cached value is returned as it
/// is; on a miss the store's answer `r` is settled as `miss_settled` says.
pub open spec fn lookup_at(
    before: CacheView,
    key: Seq<char>,
    now: u128,
    r: LookupResult,
    after: CacheView,
) -> bool {
    let (mid, hit) = before.get(key, now as int);
    match hit {
        Some(v) => match r {
            Ok(Some(s)) => s@ == v && after == mid,
            _ => false,
        },
        None => miss_settled(mid, key, r, after),
    }
}

/// Whether a worker in state `stopped` resolves `msg`.
pub open spec fn serves<C>(stopped: bool, msg: Message<C>) -> bool {
    !stopped && msg is Request
}

/// Whether a worker in state `stopped` is stopped after `msg`.
pub open spec fn stops_after<C>(stopped: bool, msg: Message<C>) -> bool {
    stopped || msg is Shutdown
}

/// How many of `msgs` a worker in state `stopped` resolves, taking them in order.
pub open spec fn served_count<C>(stopped: bool, msgs: Seq<Message<C>>) -> nat
    decreases msgs.len(),
{
    if msgs.len() == 0 {
        0
    } else {
        (if serves(stopped, msgs[0]) {
            1nat
        } else {
            0nat
        }) + served_count(stops_after(stopped, msgs[0]), msgs.skip(1))
    }
}

/// Whether a worker in state `stopped` is stopped once it has taken all of `msgs`.
pub open spec fn stopped_after_all<C>(stopped: bool, msgs: Seq<Message<C>>) -> bool
    decreases msgs.len(),
{
    if msgs.len() == 0 {
        stopped
    } else {
        stopped_after_all(stops_after(stopped, msgs[0]), msgs.skip(1))
    }
}

/// A stopped worker resolves nothing more.
pub proof fn lemma_stopped_serves_nothing<C>(msgs: Seq<Message<C>>)
    ensures
        served_count(true, msgs) == 0,
        stopped_after_all(true, msgs),
    decreases msgs.len(),
{
    if msgs.len() > 0 {
        lemma_stopped_serves_nothing(msgs.skip(1));
    }
}

/// A queue that holds `n` lookups and then the signal to stop: a running worker
/// resolves exactly those `n` lookups, none of what follows the signal, and stops.
pub proof fn lemma_shutdown_after_requests<C>(msgs: Seq<Message<C>>, n: nat)
    requires
        n < msgs.len(),
        msgs[n as int] is Shutdown,
        forall|i: int| 0 <= i < n ==> #[trigger] msgs[i] is Request,
    ensures
        served_count(false, msgs) == n,
        stopped_after_all(false, msgs),
    decreases n,
{
    if n == 0 {
        lemma_stopped_serves_nothing(msgs.skip(1));
    } else {
        let rest = msgs.skip(1);
        assert forall|i: int| 0 <= i < n - 1 implies #[trigger] rest[i] is Request by {
            assert(rest[i] == msgs[i + 1]);
        }
        assert(rest[n - 1] == msgs[n as int]);
        assert(msgs[0] is Request);
        lemma_shutdown_after_requests(rest, (n - 1) as nat);
    }
}

/// What the worker does with the item it has taken.
pub enum Action<C> {
    /// Hand the result to the waiter behind the completion handle.
    Complete(C, LookupResult),
    /// Leave the loop.
    Stop,
}

/// The worker: it owns the cache and the store, and resolves lookups one at a time
/// until it is told to stop.
pub struct RedisConsumer<TProvider> {
    redis_provider: TProvider,
    cache: LRUCache,
    stopped: bool,
}

impl<TProvider: RedisProvider> RedisConsumer<TProvider> {
    pub closed spec fn cache_view(&self) -> CacheView {
        self.cache@
    }

    pub closed spec fn stopped_spec(&self) -> bool {
        self.stopped
    }

    /// The store the worker asks on a miss.
    pub closed spec fn provider(&self) -> TProvider {
        self.redis_provider
    }

    /// A lookup of `key` from this worker's cache, made at some reading of the
    /// cache's clock, that returned `r` and left the cache `after`: `lookup_at`
    /// holds, and on a miss `r` is the store's answer for `key`.
    pub open spec fn resolves(&self, key: Seq<char>, r: LookupResult, after: CacheView) -> bool {
        exists|now: u128|
            #[trigger] lookup_at(self.cache_view(), key, now, r, after) && (self.cache_view().get(
                key,
                now as int,
            ).1 is None ==> self.provider().answers(key, r))
    }

    pub open spec fn wf(&self) -> bool {
        self.cache_view().wf()
    }

    /// A running worker over `cache` and `redis_provider`.
    pub fn new(cache: LRUCache, redis_provider: TProvider) -> (r: RedisConsumer<TProvider>)
        requires
            cache@.wf(),
        ensures
            r.wf(),
            r.cache_view() == cache@,
            !r.stopped_spec(),
    {
        RedisConsumer { redis_provider, cache, stopped: false }
    }

    pub fn cache(&self) -> (r: &LRUCache)
        ensures
            r@ == self.cache_view(),
    {
        &self.cache
    }

    pub fn is_stopped(&self) -> (r: bool)
        ensures
            r == self.stopped_spec(),
    {
        self.stopped
    }

    /// The cache half of a lookup: the live cached value of `key`, if there is one,
    /// read at the time the cache's clock gives.
    pub fn cached_lookup(&mut self, key: &String) -> (r: Option<String>)
        requires
            old(self).wf(),
        ensures
            final(self).wf(),
            final(self).stopped_spec() == old(self).stopped_spec(),
            final(self).provider() == old(self).provider(),
            exists|now: u128| #[trigger]
                old(self).cache_view().get(key@, now as int) == (final(self).cache_view(), opt_view(r)),
    {
        self.cache.get(key)
    }

    /// The store half of a lookup that missed the cache: `fetched`, the store's
    /// answer for `key`, is returned as it is; a value (and only a value) is cached.
    pub fn finish_miss(&mut self, key: &String, fetched: LookupResult) -> (r: LookupResult)
        requires
            old(self).wf(),
        ensures
            final(self).wf(),
            final(self).stopped_spec() == old(self).stopped_spec(),
            final(self).provider() == old(self).provider(),
            r == fetched,
            miss_settled(old(self).cache_view(), key@, fetched, final(self).cache_view()),
    {
        let ghost before = self.cache@;
        match &fetched {
            Ok(Some(val)) => {
                self.cache.put(key, val.clone());
                assert(fetched == Ok::<Option<String>, redis::RedisError>(Some(*val)));
                assert(exists|t: u128| #[trigger] before.put(key@, val@, t as int) == self.cache@);
            },
            _ => {},
        }
        fetched
    }

    /// Resolves one lookup: from the cache when it holds a live value, else by
    /// fetching `key` from the store and settling its answer with `finish_miss`.
    pub fn resolve(&mut self, key: &String) -> (r: LookupResult)
        requires
            old(self).wf(),
        ensures
            final(self).wf(),
            final(self).stopped_spec() == old(self).stopped_spec(),
            final(self).provider() == old(self).provider(),
            old(self).resolves(key@, r, final(self).cache_view()),
    {
        let ghost before = self.cache@;
        let cached_get = self.cached_lookup(key);
        let ghost now = choose|now: u128| #[trigger]
            before.get(key@, now as int) == (self.cache@, opt_view(cached_get));
        match cached_get {
            Some(val) => {
                let r: LookupResult = Ok(Some(val));
                assert(lookup_at(before, key@, now, r, self.cache@));
                r
            },
            None => {
                let fetched = self.redis_provider.fetch(key);
                let r = self.finish_miss(key, fetched);
                assert(lookup_at(before, key@, now, r, self.cache@));
                assert(old(self).provider().answers(key@, r));
                r
            },
        }
    }

    /// Takes one item of the queue: a lookup is resolved and its result handed back
    /// with its completion handle; the signal to stop, or any item once stopped,
    /// ends the loop.
    pub fn step<C>(&mut self, msg: Message<C>) -> (a: Action<C>)
        requires
            old(self).wf(),
        ensures
            final(self).wf(),
            final(self).provider() == old(self).provider(),
            final(self).stopped_spec() == stops_after(old(self).stopped_spec(), msg),
            match msg {
                Message::Request(req) => if serves(old(self).stopped_spec(), msg) {
                    match a {
                        Action::Complete(c, r) => c == req.completion && old(self).resolves(
                            req.key@,
                            r,
                            final(self).cache_view(),
                        ),
                        Action::Stop => false,
                    }
                } else {
                    a is Stop && final(self).cache_view() == old(self).cache_view()
                },
                Message::Shutdown => a is Stop && final(self).cache_view()
                    == old(self).cache_view(),
            },
    {
        if self.stopped {
            return Action::Stop;
        }
        match msg {
            Message::Shutdown => {
                self.stopped = true;
                Action::Stop
            },
            Message::Request(request) => {
                let RedisRequest { key, completion } = request;
                let result = self.resolve(&key);
                Action::Complete(completion, result)
            },
        }
    }
}

} // verus!
