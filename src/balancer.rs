use vstd::prelude::*;
use crate::service::RegisteredService;
use crate::tally::Tally;
use std::hash::{Hash, Hasher};

verus! {

/// How a worker is picked among candidates.
#[derive(Debug, Clone, Copy, PartialEq, Eq, Structural)]
pub enum LoadBalanceStrategy {
    RoundRobin,
    LeastConnections,
    WeightedRandom,
    ConsistentHash,
}

impl Default for LoadBalanceStrategy {
    fn default() -> (s: LoadBalanceStrategy)
        ensures
            s == LoadBalanceStrategy::RoundRobin,
    {
        LoadBalanceStrategy::RoundRobin
    }
}

/// The 64-bit value that std's `DefaultHasher`, built by `new`, gives for
/// a string.
pub uninterp spec fn default_hash_of(s: Seq<char>) -> u64;

/// Relies on `std::collections::hash_map::DefaultHasher`: a hasher made by
/// `new` has fixed keys, so the hash depends on the string alone.
#[verifier::external_body]
fn simple_hash(s: &str) -> (r: u64)
    ensures
        r == default_hash_of(s@),
{
    let mut hasher = std::collections::hash_map::DefaultHasher::new();
    s.hash(&mut hasher);
    hasher.finish()
}

/// Relies on std's `RandomState`: every new state carries freshly drawn
/// random keys, and hashing with it gives an unpredictable value. Nothing
/// is promised of that value.
#[verifier::external_body]
fn rand_u64() -> (r: u64) {
    std::hash::BuildHasher::hash_one(&std::collections::hash_map::RandomState::new(), 0u8)
}

/// Default weight of a service whose weight was never set.
pub const DEFAULT_WEIGHT: u32 = 100;

/// The sum of `w`.
pub open spec fn weight_sum(w: Seq<u32>) -> nat
    decreases w.len(),
{
    if w.len() == 0 {
        0
    } else {
        weight_sum(w.drop_last()) + w.last() as nat
    }
}

/// The index that a weighted draw of `point` lands on: the first index at
/// which the running sum of weights exceeds `point`.
pub open spec fn lands_on(w: Seq<u32>, point: nat, i: int) -> bool {
    &&& 0 <= i < w.len()
    &&& point < weight_sum(w.take(i + 1))
    &&& forall|j: int| 0 <= j < i ==> point >= #[trigger] weight_sum(w.take(j + 1))
}

/// Per-name round-robin counters, per-service connection counts and
/// weights.
pub struct LoadBalancer {
    round_robin_counters: Tally<usize>,
    connection_counts: Tally<usize>,
    weights: Tally<u32>,
}

impl LoadBalancer {
    pub closed spec fn wf(&self) -> bool {
        self.round_robin_counters.wf() && self.connection_counts.wf() && self.weights.wf()
    }

    /// The round-robin counter of a service name.
    pub closed spec fn counter(&self, name: Seq<char>) -> usize {
        match self.round_robin_counters.get_spec(name) {
            Some(c) => c,
            None => 0,
        }
    }

    /// The open connections of a service id.
    pub closed spec fn connections(&self, id: Seq<char>) -> usize {
        match self.connection_counts.get_spec(id) {
            Some(c) => c,
            None => 0,
        }
    }

    /// The weight of a service id.
    pub closed spec fn weight(&self, id: Seq<char>) -> u32 {
        match self.weights.get_spec(id) {
            Some(w) => w,
            None => DEFAULT_WEIGHT,
        }
    }

    /// The weights of `services`, in order.
    pub open spec fn weights_of(&self, services: Seq<RegisteredService>) -> Seq<u32> {
        services.map_values(|s: RegisteredService| self.weight(s.service_id@))
    }

    /// `i` is the first of the services with the fewest connections.
    pub open spec fn least_loaded(&self, services: Seq<RegisteredService>, i: int) -> bool {
        &&& 0 <= i < services.len()
        &&& forall|j: int| 0 <= j < services.len() ==>
            self.connections(services[i].service_id@) <= #[trigger] self.connections(services[j].service_id@)
        &&& forall|j: int| 0 <= j < i ==>
            self.connections(services[i].service_id@) < #[trigger] self.connections(services[j].service_id@)
    }

    pub fn new() -> (lb: LoadBalancer)
        ensures
            lb.wf(),
            forall|k: Seq<char>| #[trigger] lb.counter(k) == 0,
            forall|k: Seq<char>| #[trigger] lb.connections(k) == 0,
            forall|k: Seq<char>| #[trigger] lb.weight(k) == DEFAULT_WEIGHT,
    {
        let lb = LoadBalancer { round_robin_counters: Tally::new(), connection_counts: Tally::new(), weights: Tally::new() };
        assert forall|k: Seq<char>| #[trigger] lb.counter(k) == 0 by {
            assert(lb.round_robin_counters.get_spec(k) is None);
        }
        assert forall|k: Seq<char>| #[trigger] lb.connections(k) == 0 by {
            assert(lb.connection_counts.get_spec(k) is None);
        }
        assert forall|k: Seq<char>| #[trigger] lb.weight(k) == DEFAULT_WEIGHT by {
            assert(lb.weights.get_spec(k) is None);
        }
        lb
    }
}

/// The key that consistent hashing uses: the routing key, or "default".
pub open spec fn routing_key_of(routing_key: Option<&str>) -> Seq<char> {
    match routing_key {
        Some(k) => k@,
        None => "default"@,
    }
}

/// The round-robin counter after one step: it wraps like an atomic add.
pub open spec fn next_count(c: usize) -> usize {
    if c == usize::MAX { 0 } else { (c + 1) as usize }
}

impl LoadBalancer {
    fn round_robin(&mut self, services: &[RegisteredService]) -> (i: usize)
        requires
            old(self).wf(),
            services@.len() > 0,
        ensures
            final(self).wf(),
            i == old(self).counter(services@[0].service_name@) as nat % services@.len() as nat,
            final(self).counter(services@[0].service_name@) == next_count(old(self).counter(services@[0].service_name@)),
            forall|k: Seq<char>| k != services@[0].service_name@ ==> #[trigger] final(self).counter(k) == old(self).counter(k),
            forall|k: Seq<char>| #[trigger] final(self).connections(k) == old(self).connections(k),
            forall|k: Seq<char>| #[trigger] final(self).weight(k) == old(self).weight(k),
    {
        let key = services[0].service_name.clone();
        let c = match self.round_robin_counters.get(&key) {
            Some(c) => c,
            None => 0,
        };
        let next = if c == usize::MAX { 0 } else { c + 1 };
        self.round_robin_counters.set(key, next);
        proof {
            assert forall|k: Seq<char>| k != services@[0].service_name@ implies #[trigger] self.counter(k) == old(self).counter(k) by {
                assert(self.round_robin_counters.get_spec(k) == old(self).round_robin_counters.get_spec(k));
            }
        }
        c % services.len()
    }

    fn least_connections(&self, services: &[RegisteredService]) -> (i: usize)
        requires
            self.wf(),
            services@.len() > 0,
        ensures
            self.least_loaded(services@, i as int),
    {
        let mut selected: usize = 0;
        let mut min = self.get_connections(&services[0].service_id);
        let mut i: usize = 1;
        while i < services.len()
            invariant
                self.wf(),
                1 <= i <= services@.len(),
                selected < i,
                min == self.connections(services@[selected as int].service_id@),
                forall|j: int| 0 <= j < i ==> min <= #[trigger] self.connections(services@[j].service_id@),
                forall|j: int| 0 <= j < selected ==> min < #[trigger] self.connections(services@[j].service_id@),
            decreases services@.len() - i,
        {
            let count = self.get_connections(&services[i].service_id);
            if count < min {
                min = count;
                selected = i;
            }
            i = i + 1;
        }
        selected
    }

    /// The index that a weighted draw lands on. With all weights zero the
    /// first service is picked; otherwise `draw` is reduced modulo the
    /// total weight and the first service whose running weight exceeds it
    /// is picked.
    pub fn weighted_pick(&self, services: &[RegisteredService], draw: u64) -> (i: usize)
        requires
            self.wf(),
            services@.len() > 0,
        ensures
            weight_sum(self.weights_of(services@)) == 0 ==> i == 0,
            weight_sum(self.weights_of(services@)) > 0 ==> lands_on(
                self.weights_of(services@),
                draw as nat % weight_sum(self.weights_of(services@)),
                i as int,
            ),
    {
        let ghost w = self.weights_of(services@);
        let mut weights: Vec<u32> = Vec::new();
        let mut total: u128 = 0;
        let mut i: usize = 0;
        assert(w.take(0) =~= Seq::<u32>::empty());
        while i < services.len()
            invariant
                self.wf(),
                w == self.weights_of(services@),
                0 <= i <= services@.len(),
                weights@ == w.take(i as int),
                total == weight_sum(w.take(i as int)),
                total <= i * 0xffff_ffffu128,
            decreases services@.len() - i,
        {
            let wt = self.get_weight(&services[i].service_id);
            assert(w.take(i + 1).drop_last() =~= w.take(i as int));
            weights.push(wt);
            assert(weights@ =~= w.take(i + 1));
            total = total + wt as u128;
            i = i + 1;
        }
        assert(w.take(i as int) =~= w);
        if total == 0 {
            return 0;
        }
        let point = (draw as u128) % total;
        let mut cumulative: u128 = 0;
        let mut j: usize = 0;
        while j < weights.len()
            invariant
                weights@ == w,
                w == self.weights_of(services@),
                w.len() == services@.len(),
                total == weight_sum(w),
                total > 0,
                point == draw as nat % total as nat,
                0 <= j <= w.len(),
                cumulative == weight_sum(w.take(j as int)),
                cumulative <= j * 0xffff_ffffu128,
                forall|q: int| 0 <= q < j ==> point >= #[trigger] weight_sum(w.take(q + 1)),
            decreases w.len() - j,
        {
            assert(w.take(j + 1).drop_last() =~= w.take(j as int));
            cumulative = cumulative + weights[j] as u128;
            if point < cumulative {
                return j;
            }
            j = j + 1;
        }
        assert(w.take(w.len() - 1 + 1) =~= w);
        0
    }

    fn consistent_hash(&self, services: &[RegisteredService], routing_key: Option<&str>) -> (i: usize)
        requires
            services@.len() > 0,
        ensures
            i == default_hash_of(routing_key_of(routing_key)) as nat % services@.len() as nat,
    {
        let key = match routing_key {
            Some(k) => k,
            None => "default",
        };
        proof { reveal_strlit("default"); }
        let hash = simple_hash(key);
        (hash % (services.len() as u64)) as usize
    }

    /// Picks one of `services` by `strategy`, or none when there are no
    /// candidates; a single candidate is picked whatever the strategy.
    pub fn select(
        &mut self,
        services: &[RegisteredService],
        strategy: LoadBalanceStrategy,
        routing_key: Option<&str>,
    ) -> (r: Option<RegisteredService>)
        requires
            old(self).wf(),
        ensures
            final(self).wf(),
            r is None <==> services@.len() == 0,
            r matches Some(s) ==> exists|i: int| 0 <= i < services@.len() && s.same_as(&services@[i]),
            services@.len() == 1 ==> r is Some && r.unwrap().same_as(&services@[0]),
            services@.len() > 1 && strategy == LoadBalanceStrategy::RoundRobin ==> {
                let name = services@[0].service_name@;
                let c = old(self).counter(name);
                &&& r is Some
                &&& r.unwrap().same_as(&services@[(c as nat % services@.len() as nat) as int])
                &&& final(self).counter(name) == next_count(c)
            },
            services@.len() > 1 && strategy == LoadBalanceStrategy::LeastConnections ==>
                exists|i: int| old(self).least_loaded(services@, i) && r is Some && r.unwrap().same_as(&services@[i]),
            services@.len() > 1 && strategy == LoadBalanceStrategy::ConsistentHash ==>
                r is Some && r.unwrap().same_as(&services@[
                    (default_hash_of(routing_key_of(routing_key)) as nat % services@.len() as nat) as int
                ]),
            forall|k: Seq<char>| !(services@.len() > 1 && strategy == LoadBalanceStrategy::RoundRobin && k == services@[0].service_name@)
                ==> #[trigger] final(self).counter(k) == old(self).counter(k),
            forall|k: Seq<char>| #[trigger] final(self).connections(k) == old(self).connections(k),
            forall|k: Seq<char>| #[trigger] final(self).weight(k) == old(self).weight(k),
    {
        if services.len() == 0 {
            return None;
        }
        if services.len() == 1 {
            return Some(services[0].clone());
        }
        let i = match strategy {
            LoadBalanceStrategy::RoundRobin => self.round_robin(services),
            LoadBalanceStrategy::LeastConnections => self.least_connections(services),
            LoadBalanceStrategy::WeightedRandom => {
                let draw = rand_u64();
                let i = self.weighted_pick(services, draw);
                proof {
                    let w = self.weights_of(services@);
                    if weight_sum(w) > 0 {
                        assert(lands_on(w, draw as nat % weight_sum(w), i as int));
                    }
                }
                i
            },
            LoadBalanceStrategy::ConsistentHash => self.consistent_hash(services, routing_key),
        };
        Some(services[i].clone())
    }

    pub fn get_connections(&self, service_id: &String) -> (r: usize)
        requires
            self.wf(),
        ensures
            r == self.connections(service_id@),
    {
        match self.connection_counts.get(service_id) {
            Some(c) => c,
            None => 0,
        }
    }

    pub fn get_weight(&self, service_id: &String) -> (r: u32)
        requires
            self.wf(),
        ensures
            r == self.weight(service_id@),
    {
        match self.weights.get(service_id) {
            Some(w) => w,
            None => DEFAULT_WEIGHT,
        }
    }

    /// Counts one more open connection (saturating at the largest count).
    pub fn increment_connections(&mut self, service_id: &str)
        requires
            old(self).wf(),
        ensures
            final(self).wf(),
            final(self).connections(service_id@) == if old(self).connections(service_id@) == usize::MAX {
                usize::MAX
            } else {
                (old(self).connections(service_id@) + 1) as usize
            },
            forall|k: Seq<char>| k != service_id@ ==> #[trigger] final(self).connections(k) == old(self).connections(k),
            forall|k: Seq<char>| #[trigger] final(self).counter(k) == old(self).counter(k),
            forall|k: Seq<char>| #[trigger] final(self).weight(k) == old(self).weight(k),
    {
        let key = service_id.to_owned();
        let c = self.get_connections(&key);
        let next = if c == usize::MAX { c } else { c + 1 };
        self.connection_counts.set(key, next);
        proof {
            assert forall|k: Seq<char>| k != service_id@ implies #[trigger] self.connections(k) == old(self).connections(k) by {
                assert(self.connection_counts.get_spec(k) == old(self).connection_counts.get_spec(k));
            }
        }
    }

    /// Counts one connection less, never going below zero; unknown ids are
    /// left alone.
    pub fn decrement_connections(&mut self, service_id: &str)
        requires
            old(self).wf(),
        ensures
            final(self).wf(),
            final(self).connections(service_id@) == if old(self).connections(service_id@) == 0 {
                0
            } else {
                (old(self).connections(service_id@) - 1) as usize
            },
            forall|k: Seq<char>| k != service_id@ ==> #[trigger] final(self).connections(k) == old(self).connections(k),
            forall|k: Seq<char>| #[trigger] final(self).counter(k) == old(self).counter(k),
            forall|k: Seq<char>| #[trigger] final(self).weight(k) == old(self).weight(k),
    {
        let key = service_id.to_owned();
        match self.connection_counts.get(&key) {
            Some(c) => {
                let next = if c == 0 { 0 } else { c - 1 };
                self.connection_counts.set(key, next);
                proof {
                    assert forall|k: Seq<char>| k != service_id@ implies #[trigger] self.connections(k) == old(self).connections(k) by {
                        assert(self.connection_counts.get_spec(k) == old(self).connection_counts.get_spec(k));
                    }
                }
            },
            None => {},
        }
    }

    /// Sets the weight of a service id, known or not yet registered.
    pub fn set_weight(&mut self, service_id: &str, weight: u32)
        requires
            old(self).wf(),
        ensures
            final(self).wf(),
            final(self).weight(service_id@) == weight,
            forall|k: Seq<char>| k != service_id@ ==> #[trigger] final(self).weight(k) == old(self).weight(k),
            forall|k: Seq<char>| #[trigger] final(self).counter(k) == old(self).counter(k),
            forall|k: Seq<char>| #[trigger] final(self).connections(k) == old(self).connections(k),
    {
        self.weights.set(service_id.to_owned(), weight);
        proof {
            assert forall|k: Seq<char>| k != service_id@ implies #[trigger] self.weight(k) == old(self).weight(k) by {
                assert(self.weights.get_spec(k) == old(self).weights.get_spec(k));
            }
        }
    }
}

impl Default for LoadBalancer {
    fn default() -> (lb: LoadBalancer)
        ensures
            lb.wf(),
            forall|k: Seq<char>| #[trigger] lb.counter(k) == 0,
            forall|k: Seq<char>| #[trigger] lb.connections(k) == 0,
            forall|k: Seq<char>| #[trigger] lb.weight(k) == DEFAULT_WEIGHT,
    {
        LoadBalancer::new()
    }
}

} // verus!
