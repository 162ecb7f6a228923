use vstd::prelude::*;

verus! {

/// Health of a registered worker.
#[derive(Debug, Clone, Copy, PartialEq, Eq, Structural)]
pub enum ServiceHealth {
    Unknown,
    Healthy,
    Unhealthy,
}

/// Reads a health state from its name; names other than "healthy" and
/// "unhealthy" give `Unknown`.
pub open spec fn health_of(name: Seq<char>) -> ServiceHealth {
    if name == "healthy"@ {
        ServiceHealth::Healthy
    } else if name == "unhealthy"@ {
        ServiceHealth::Unhealthy
    } else {
        ServiceHealth::Unknown
    }
}

pub fn parse_health(name: &String) -> (h: ServiceHealth)
    ensures
        h == health_of(name@),
{
    let healthy = "healthy".to_owned();
    let unhealthy = "unhealthy".to_owned();
    proof {
        reveal_strlit("healthy");
        reveal_strlit("unhealthy");
    }
    if *name == healthy {
        ServiceHealth::Healthy
    } else if *name == unhealthy {
        ServiceHealth::Unhealthy
    } else {
        ServiceHealth::Unknown
    }
}

/// A worker known to the registry.
pub struct RegisteredService {
    pub service_id: String,
    pub service_name: String,
    pub service_type: String,
    pub endpoint: String,
    pub labels: Vec<(String, String)>,
    pub group_id: Option<String>,
    pub health: ServiceHealth,
    /// Index of the command that last registered or renewed the service.
    pub lease_renewed_at: u64,
}

impl RegisteredService {
    /// Field-by-field equality of the contents.
    pub open spec fn same_as(&self, o: &RegisteredService) -> bool {
        &&& self.service_id@ == o.service_id@
        &&& self.service_name@ == o.service_name@
        &&& self.service_type@ == o.service_type@
        &&& self.endpoint@ == o.endpoint@
        &&& self.labels@ == o.labels@
        &&& self.group_id == o.group_id
        &&& self.health == o.health
        &&& self.lease_renewed_at == o.lease_renewed_at
    }

    pub fn duplicate(&self) -> (r: RegisteredService)
        ensures
            r.same_as(self),
    {
        let mut labels: Vec<(String, String)> = Vec::new();
        let mut i: usize = 0;
        while i < self.labels.len()
            invariant
                0 <= i <= self.labels@.len(),
                labels@ == self.labels@.take(i as int),
            decreases self.labels@.len() - i,
        {
            let k = self.labels[i].0.clone();
            let v = self.labels[i].1.clone();
            labels.push((k, v));
            assert(labels@ =~= self.labels@.take(i + 1));
            i = i + 1;
        }
        assert(labels@ =~= self.labels@);
        let group_id = match &self.group_id {
            Some(g) => Some(g.clone()),
            None => None,
        };
        RegisteredService {
            service_id: self.service_id.clone(),
            service_name: self.service_name.clone(),
            service_type: self.service_type.clone(),
            endpoint: self.endpoint.clone(),
            labels,
            group_id,
            health: self.health,
            lease_renewed_at: self.lease_renewed_at,
        }
    }
}

/// Which services an enumeration selects.
pub enum ServiceFilter {
    ByName(String),
    ByType(String),
    InGroup(String),
}

impl ServiceFilter {
    pub open spec fn selects(&self, s: RegisteredService) -> bool {
        match self {
            ServiceFilter::ByName(n) => s.service_name@ == n@,
            ServiceFilter::ByType(t) => s.service_type@ == t@,
            ServiceFilter::InGroup(g) => s.group_id matches Some(x) && x@ == g@,
        }
    }

    pub fn test(&self, s: &RegisteredService) -> (r: bool)
        ensures
            r == self.selects(*s),
    {
        match self {
            ServiceFilter::ByName(n) => s.service_name == *n,
            ServiceFilter::ByType(t) => s.service_type == *t,
            ServiceFilter::InGroup(g) => match &s.group_id {
                Some(x) => *x == *g,
                None => false,
            },
        }
    }
}

impl Clone for RegisteredService {
    fn clone(&self) -> (r: RegisteredService)
        ensures
            r.same_as(self),
    {
        self.duplicate()
    }
}

} // verus!
