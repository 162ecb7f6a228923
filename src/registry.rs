use vstd::prelude::*;
use crate::service::{health_of, parse_health, RegisteredService, ServiceFilter, ServiceHealth};
use crate::table::{is_selected_copy, Key, KeyView, Table};

verus! {

/// A point in time as seconds and nanoseconds, as exchanged with
/// checkpoint stores.
#[derive(Debug, Clone, Copy, PartialEq, Eq, Structural)]
pub struct SerializableTimestamp {
    pub seconds: i64,
    pub nanos: i32,
}

/// `a` is no later than `b`; an absent time is earlier than any time.
pub open spec fn time_le(a: Option<SerializableTimestamp>, b: Option<SerializableTimestamp>) -> bool {
    match (a, b) {
        (None, _) => true,
        (Some(_), None) => false,
        (Some(x), Some(y)) => x.seconds < y.seconds || (x.seconds == y.seconds && x.nanos <= y.nanos),
    }
}

pub fn time_le_exec(a: &Option<SerializableTimestamp>, b: &Option<SerializableTimestamp>) -> (r: bool)
    ensures
        r == time_le(*a, *b),
{
    match (a, b) {
        (None, _) => true,
        (Some(_), None) => false,
        (Some(x), Some(y)) => x.seconds < y.seconds || (x.seconds == y.seconds && x.nanos <= y.nanos),
    }
}

/// The closed set of state-changing operations of the control plane.
#[allow(inconsistent_fields)]
pub enum RouterCommand {
    Noop,
    RegisterService {
        service_id: String,
        service_name: String,
        service_type: String,
        endpoint: String,
        labels: Vec<(String, String)>,
        group_id: Option<String>,
    },
    DeregisterService { service_id: String },
    RenewLease { service_id: String },
    UpdateServiceHealth { service_id: String, health: String },
    CreatePipeline { pipeline_id: String, name: String, config: Vec<u8> },
    UpdatePipeline { pipeline_id: String, config: Vec<u8> },
    DeletePipeline { pipeline_id: String },
    EnablePipeline { pipeline_id: String },
    DisablePipeline { pipeline_id: String },
    CommitSourceOffset { source_id: String, partition: u32, offset: u64 },
    AdvanceWatermark {
        source_id: String,
        partition: u32,
        position: u64,
        event_time: Option<SerializableTimestamp>,
    },
    SaveServiceCheckpoint {
        service_id: String,
        checkpoint_id: String,
        data: Vec<u8>,
        source_offsets: Vec<(String, u64)>,
    },
    JoinGroup { service_id: String, group_id: String, stage_id: String },
    LeaveGroup { service_id: String, group_id: String },
    AssignPartitions { group_id: String, assignments: Vec<(String, Vec<u32>)>, generation: u64 },
    CommitGroupOffset { group_id: String, source_id: String, partition: u32, offset: u64 },
}

pub struct Pipeline {
    pub pipeline_id: String,
    pub name: String,
    pub config: Vec<u8>,
    pub enabled: bool,
}

pub struct Watermark {
    pub position: u64,
    pub event_time: Option<SerializableTimestamp>,
}

pub struct Checkpoint {
    pub checkpoint_id: String,
    pub data: Vec<u8>,
    pub source_offsets: Vec<(String, u64)>,
}

pub struct GroupAssignment {
    pub assignments: Vec<(String, Vec<u32>)>,
    pub generation: u64,
}

/// The registry's contents as maps. Keys by one id are `(id, "", 0)`;
/// per-partition keys are `(source, "", partition)`; group members are
/// `(group, service, 0)`; group offsets `(group, source, partition)`;
/// checkpoints `(service, checkpoint, 0)`.
#[verifier::ext_equal]
pub struct RegistryView {
    pub services: Map<KeyView, RegisteredService>,
    pub pipelines: Map<KeyView, Pipeline>,
    pub offsets: Map<KeyView, u64>,
    pub watermarks: Map<KeyView, Watermark>,
    pub checkpoints: Map<KeyView, Checkpoint>,
    pub latest_checkpoint: Map<KeyView, Seq<char>>,
    pub members: Map<KeyView, String>,
    pub assignments: Map<KeyView, GroupAssignment>,
    pub group_offsets: Map<KeyView, u64>,
}

pub open spec fn id_key(id: Seq<char>) -> KeyView {
    (id, Seq::<char>::empty(), 0u32)
}

pub open spec fn part_key(source: Seq<char>, partition: u32) -> KeyView {
    (source, Seq::<char>::empty(), partition)
}

/// The state after applying `cmd` at time `at_ms` to `v`.
pub open spec fn apply_spec(v: RegistryView, cmd: RouterCommand, at_ms: u64) -> RegistryView {
    match cmd {
        RouterCommand::Noop => v,
        RouterCommand::RegisterService { service_id, service_name, service_type, endpoint, labels, group_id } => {
            RegistryView {
                services: v.services.insert(id_key(service_id@), RegisteredService {
                    service_id, service_name, service_type, endpoint, labels, group_id,
                    health: ServiceHealth::Unknown,
                    lease_renewed_at: at_ms,
                }),
                ..v
            }
        },
        RouterCommand::DeregisterService { service_id } => RegistryView {
            services: v.services.remove(id_key(service_id@)),
            members: Map::new(|q: KeyView| v.members.contains_key(q) && q.1 != service_id@, |q: KeyView| v.members[q]),
            ..v
        },
        RouterCommand::RenewLease { service_id } => {
            if v.services.contains_key(id_key(service_id@)) {
                let s = v.services[id_key(service_id@)];
                RegistryView {
                    services: v.services.insert(id_key(service_id@), RegisteredService { lease_renewed_at: at_ms, ..s }),
                    ..v
                }
            } else {
                v
            }
        },
        RouterCommand::UpdateServiceHealth { service_id, health } => {
            if v.services.contains_key(id_key(service_id@)) {
                let s = v.services[id_key(service_id@)];
                RegistryView {
                    services: v.services.insert(id_key(service_id@), RegisteredService { health: health_of(health@), ..s }),
                    ..v
                }
            } else {
                v
            }
        },
        RouterCommand::CreatePipeline { pipeline_id, name, config } => RegistryView {
            pipelines: v.pipelines.insert(id_key(pipeline_id@), Pipeline { pipeline_id, name, config, enabled: true }),
            ..v
        },
        RouterCommand::UpdatePipeline { pipeline_id, config } => {
            if v.pipelines.contains_key(id_key(pipeline_id@)) {
                let p = v.pipelines[id_key(pipeline_id@)];
                RegistryView { pipelines: v.pipelines.insert(id_key(pipeline_id@), Pipeline { config, ..p }), ..v }
            } else {
                v
            }
        },
        RouterCommand::DeletePipeline { pipeline_id } => RegistryView {
            pipelines: v.pipelines.remove(id_key(pipeline_id@)),
            ..v
        },
        RouterCommand::EnablePipeline { pipeline_id } => {
            if v.pipelines.contains_key(id_key(pipeline_id@)) {
                let p = v.pipelines[id_key(pipeline_id@)];
                RegistryView { pipelines: v.pipelines.insert(id_key(pipeline_id@), Pipeline { enabled: true, ..p }), ..v }
            } else {
                v
            }
        },
        RouterCommand::DisablePipeline { pipeline_id } => {
            if v.pipelines.contains_key(id_key(pipeline_id@)) {
                let p = v.pipelines[id_key(pipeline_id@)];
                RegistryView { pipelines: v.pipelines.insert(id_key(pipeline_id@), Pipeline { enabled: false, ..p }), ..v }
            } else {
                v
            }
        },
        RouterCommand::CommitSourceOffset { source_id, partition, offset } => {
            let k = part_key(source_id@, partition);
            if v.offsets.contains_key(k) && offset < v.offsets[k] {
                v
            } else {
                RegistryView { offsets: v.offsets.insert(k, offset), ..v }
            }
        },
        RouterCommand::AdvanceWatermark { source_id, partition, position, event_time } => {
            let k = part_key(source_id@, partition);
            if v.watermarks.contains_key(k) && !(v.watermarks[k].position <= position && time_le(v.watermarks[k].event_time, event_time)) {
                v
            } else {
                RegistryView { watermarks: v.watermarks.insert(k, Watermark { position, event_time }), ..v }
            }
        },
        RouterCommand::SaveServiceCheckpoint { service_id, checkpoint_id, data, source_offsets } => RegistryView {
            checkpoints: v.checkpoints.insert((service_id@, checkpoint_id@, 0u32), Checkpoint { checkpoint_id, data, source_offsets }),
            latest_checkpoint: v.latest_checkpoint.insert(id_key(service_id@), checkpoint_id@),
            ..v
        },
        RouterCommand::JoinGroup { service_id, group_id, stage_id } => RegistryView {
            members: v.members.insert((group_id@, service_id@, 0u32), stage_id),
            ..v
        },
        RouterCommand::LeaveGroup { service_id, group_id } => RegistryView {
            members: v.members.remove((group_id@, service_id@, 0u32)),
            ..v
        },
        RouterCommand::AssignPartitions { group_id, assignments, generation } => {
            let k = id_key(group_id@);
            if v.assignments.contains_key(k) && generation < v.assignments[k].generation {
                v
            } else {
                RegistryView { assignments: v.assignments.insert(k, GroupAssignment { assignments, generation }), ..v }
            }
        },
        RouterCommand::CommitGroupOffset { group_id, source_id, partition, offset } => RegistryView {
            group_offsets: v.group_offsets.insert((group_id@, source_id@, partition), offset),
            ..v
        },
    }
}

/// The state after applying each of `log` in order.
pub open spec fn replay(v: RegistryView, log: Seq<(RouterCommand, u64)>) -> RegistryView
    decreases log.len(),
{
    if log.len() == 0 {
        v
    } else {
        apply_spec(replay(v, log.drop_last()), log.last().0, log.last().1)
    }
}

/// The authoritative registry, changed only by applying commands.
pub struct ServiceRegistry {
    services: Table<RegisteredService>,
    pipelines: Table<Pipeline>,
    offsets: Table<u64>,
    watermarks: Table<Watermark>,
    checkpoints: Table<Checkpoint>,
    latest_checkpoint: Table<String>,
    members: Table<String>,
    assignments: Table<GroupAssignment>,
    group_offsets: Table<u64>,
}

pub open spec fn string_view_map(m: Map<KeyView, String>) -> Map<KeyView, Seq<char>> {
    Map::new(|q: KeyView| m.contains_key(q), |q: KeyView| m[q]@)
}

fn id_key_exec(id: &String) -> (k: Key)
    ensures
        k.view() == id_key(id@),
{
    Key::named(id.clone())
}

fn part_key_exec(source: &String, partition: u32) -> (k: Key)
    ensures
        k.view() == part_key(source@, partition),
{
    Key { name: source.clone(), scope: String::new(), partition }
}

impl ServiceRegistry {
    pub closed spec fn wf(&self) -> bool {
        &&& self.services.wf()
        &&& self.pipelines.wf()
        &&& self.offsets.wf()
        &&& self.watermarks.wf()
        &&& self.checkpoints.wf()
        &&& self.latest_checkpoint.wf()
        &&& self.members.wf()
        &&& self.assignments.wf()
        &&& self.group_offsets.wf()
    }

    pub closed spec fn view(&self) -> RegistryView {
        RegistryView {
            services: self.services.view(),
            pipelines: self.pipelines.view(),
            offsets: self.offsets.view(),
            watermarks: self.watermarks.view(),
            checkpoints: self.checkpoints.view(),
            latest_checkpoint: string_view_map(self.latest_checkpoint.view()),
            members: self.members.view(),
            assignments: self.assignments.view(),
            group_offsets: self.group_offsets.view(),
        }
    }

    pub fn new() -> (r: ServiceRegistry)
        ensures
            r.wf(),
            r.view() == empty_registry(),
    {
        let r = ServiceRegistry {
            services: Table::new(),
            pipelines: Table::new(),
            offsets: Table::new(),
            watermarks: Table::new(),
            checkpoints: Table::new(),
            latest_checkpoint: Table::new(),
            members: Table::new(),
            assignments: Table::new(),
            group_offsets: Table::new(),
        };
        assert(string_view_map(r.latest_checkpoint.view()) =~= Map::empty());
        assert(r.view() =~= empty_registry());
        r
    }

    /// Applies one command of the log, stamped with time `at_ms`.
    pub fn apply(&mut self, cmd: RouterCommand, at_ms: u64)
        requires
            old(self).wf(),
        ensures
            final(self).wf(),
            final(self).view() == apply_spec(old(self).view(), cmd, at_ms),
    {
        let ghost c = cmd;
        match cmd {
            RouterCommand::Noop => {},
            RouterCommand::RegisterService { service_id, service_name, service_type, endpoint, labels, group_id } => {
                let k = id_key_exec(&service_id);
                let s = RegisteredService {
                    service_id, service_name, service_type, endpoint, labels, group_id,
                    health: ServiceHealth::Unknown,
                    lease_renewed_at: at_ms,
                };
                self.services.insert(k, s);
            },
            RouterCommand::DeregisterService { service_id } => {
                self.services.take(&id_key_exec(&service_id));
                self.members.remove_scope(&service_id);
                proof {
                    assert(self.members.view() =~= Map::new(
                        |q: KeyView| old(self).members.view().contains_key(q) && q.1 != service_id@,
                        |q: KeyView| old(self).members.view()[q],
                    ));
                }
            },
            RouterCommand::RenewLease { service_id } => {
                let k = id_key_exec(&service_id);
                match self.services.take(&k) {
                    Some(s) => {
                        self.services.insert(k, RegisteredService { lease_renewed_at: at_ms, ..s });
                        proof { assert(self.services.view() =~= old(self).services.view().insert(id_key(service_id@), RegisteredService { lease_renewed_at: at_ms, ..s })); }
                    },
                    None => {
                        proof { assert(self.services.view() =~= old(self).services.view()); }
                    },
                }
            },
            RouterCommand::UpdateServiceHealth { service_id, health } => {
                let k = id_key_exec(&service_id);
                match self.services.take(&k) {
                    Some(s) => {
                        let h = parse_health(&health);
                        self.services.insert(k, RegisteredService { health: h, ..s });
                        proof { assert(self.services.view() =~= old(self).services.view().insert(id_key(service_id@), RegisteredService { health: h, ..s })); }
                    },
                    None => {
                        proof { assert(self.services.view() =~= old(self).services.view()); }
                    },
                }
            },
            RouterCommand::CreatePipeline { pipeline_id, name, config } => {
                let k = id_key_exec(&pipeline_id);
                self.pipelines.insert(k, Pipeline { pipeline_id, name, config, enabled: true });
            },
            RouterCommand::UpdatePipeline { pipeline_id, config } => {
                let k = id_key_exec(&pipeline_id);
                match self.pipelines.take(&k) {
                    Some(p) => {
                        let ghost np = Pipeline { config, ..p };
                        self.pipelines.insert(k, Pipeline { config, ..p });
                        proof { assert(self.pipelines.view() =~= old(self).pipelines.view().insert(id_key(pipeline_id@), np)); }
                    },
                    None => {
                        proof { assert(self.pipelines.view() =~= old(self).pipelines.view()); }
                    },
                }
            },
            RouterCommand::DeletePipeline { pipeline_id } => {
                self.pipelines.take(&id_key_exec(&pipeline_id));
            },
            RouterCommand::EnablePipeline { pipeline_id } => {
                self.set_enabled(&pipeline_id, true);
            },
            RouterCommand::DisablePipeline { pipeline_id } => {
                self.set_enabled(&pipeline_id, false);
            },
            RouterCommand::CommitSourceOffset { source_id, partition, offset } => {
                let k = part_key_exec(&source_id, partition);
                let stale = match self.offsets.get(&k) {
                    Some(o) => offset < *o,
                    None => false,
                };
                if !stale {
                    self.offsets.insert(k, offset);
                }
            },
            RouterCommand::AdvanceWatermark { source_id, partition, position, event_time } => {
                let k = part_key_exec(&source_id, partition);
                let stale = match self.watermarks.get(&k) {
                    Some(w) => !(w.position <= position && time_le_exec(&w.event_time, &event_time)),
                    None => false,
                };
                if !stale {
                    self.watermarks.insert(k, Watermark { position, event_time });
                }
            },
            RouterCommand::SaveServiceCheckpoint { service_id, checkpoint_id, data, source_offsets } => {
                let k = Key::scoped(service_id.clone(), checkpoint_id.clone());
                let latest = checkpoint_id.clone();
                self.checkpoints.insert(k, Checkpoint { checkpoint_id, data, source_offsets });
                self.latest_checkpoint.insert(Key::named(service_id), latest);
                proof {
                    assert(string_view_map(self.latest_checkpoint.view()) =~= string_view_map(old(self).latest_checkpoint.view()).insert(id_key(service_id@), latest@));
                }
            },
            RouterCommand::JoinGroup { service_id, group_id, stage_id } => {
                self.members.insert(Key::scoped(group_id, service_id), stage_id);
            },
            RouterCommand::LeaveGroup { service_id, group_id } => {
                self.members.take(&Key::scoped(group_id, service_id));
            },
            RouterCommand::AssignPartitions { group_id, assignments, generation } => {
                let k = id_key_exec(&group_id);
                let stale = match self.assignments.get(&k) {
                    Some(a) => generation < a.generation,
                    None => false,
                };
                if !stale {
                    self.assignments.insert(k, GroupAssignment { assignments, generation });
                }
            },
            RouterCommand::CommitGroupOffset { group_id, source_id, partition, offset } => {
                self.group_offsets.insert(Key { name: group_id, scope: source_id, partition }, offset);
            },
        }
        proof {
            assert(self.view() =~= apply_spec(old(self).view(), c, at_ms));
        }
    }

    fn set_enabled(&mut self, pipeline_id: &String, enabled: bool)
        requires
            old(self).wf(),
        ensures
            final(self).wf(),
            final(self).view() == (if old(self).view().pipelines.contains_key(id_key(pipeline_id@)) {
                RegistryView {
                    pipelines: old(self).view().pipelines.insert(
                        id_key(pipeline_id@),
                        Pipeline { enabled, ..old(self).view().pipelines[id_key(pipeline_id@)] },
                    ),
                    ..old(self).view()
                }
            } else {
                old(self).view()
            }),
    {
        let k = id_key_exec(pipeline_id);
        match self.pipelines.take(&k) {
            Some(p) => {
                let ghost np = Pipeline { enabled, ..p };
                self.pipelines.insert(k, Pipeline { enabled, ..p });
                proof {
                    assert(self.pipelines.view() =~= old(self).pipelines.view().insert(id_key(pipeline_id@), np));
                    assert(self.view() =~= RegistryView { pipelines: old(self).view().pipelines.insert(id_key(pipeline_id@), np), ..old(self).view() });
                }
            },
            None => {
                proof {
                    assert(self.pipelines.view() =~= old(self).pipelines.view());
                    assert(self.view() =~= old(self).view());
                }
            },
        }
    }
}

/// A registry with nothing in it.
pub open spec fn empty_registry() -> RegistryView {
    RegistryView {
        services: Map::empty(),
        pipelines: Map::empty(),
        offsets: Map::empty(),
        watermarks: Map::empty(),
        checkpoints: Map::empty(),
        latest_checkpoint: Map::empty(),
        members: Map::empty(),
        assignments: Map::empty(),
        group_offsets: Map::empty(),
    }
}

impl ServiceRegistry {
    /// Applies a log of commands, each with its time stamp, in order.
    pub fn apply_log(&mut self, log: Vec<(RouterCommand, u64)>)
        requires
            old(self).wf(),
        ensures
            final(self).wf(),
            final(self).view() == replay(old(self).view(), log@),
    {
        let ghost all = log@;
        let mut rest = log;
        let mut i: usize = 0;
        let n = rest.len();
        assert(all.len() == n);
        assert(all.take(0) =~= Seq::<(RouterCommand, u64)>::empty());
        while rest.len() > 0
            invariant
                self.wf(),
                rest@.len() + i == all.len(),
                all.len() <= usize::MAX,
                rest@ == all.skip(i as int),
                self.view() == replay(old(self).view(), all.take(i as int)),
            decreases rest@.len(),
        {
            let (cmd, at_ms) = rest.remove(0);
            assert(all.take(i + 1).drop_last() =~= all.take(i as int));
            assert(all.take(i + 1).last() == (cmd, at_ms));
            self.apply(cmd, at_ms);
            assert(rest@ =~= all.skip(i + 1));
            i = i + 1;
        }
        assert(all.take(i as int) =~= all);
    }

    pub fn get_service(&self, service_id: &String) -> (r: Option<&RegisteredService>)
        requires
            self.wf(),
        ensures
            r matches Some(s) ==> self.view().services.contains_key(id_key(service_id@)) && *s == self.view().services[id_key(service_id@)],
            r is None <==> !self.view().services.contains_key(id_key(service_id@)),
    {
        self.services.get(&id_key_exec(service_id))
    }

    pub fn get_pipeline(&self, pipeline_id: &String) -> (r: Option<&Pipeline>)
        requires
            self.wf(),
        ensures
            r matches Some(p) ==> self.view().pipelines.contains_key(id_key(pipeline_id@)) && *p == self.view().pipelines[id_key(pipeline_id@)],
            r is None <==> !self.view().pipelines.contains_key(id_key(pipeline_id@)),
    {
        self.pipelines.get(&id_key_exec(pipeline_id))
    }

    pub fn get_committed_offset(&self, source_id: &String, partition: u32) -> (r: Option<u64>)
        requires
            self.wf(),
        ensures
            r matches Some(o) ==> self.view().offsets.contains_key(part_key(source_id@, partition)) && o == self.view().offsets[part_key(source_id@, partition)],
            r is None <==> !self.view().offsets.contains_key(part_key(source_id@, partition)),
    {
        match self.offsets.get(&part_key_exec(source_id, partition)) {
            Some(o) => Some(*o),
            None => None,
        }
    }

    pub fn get_watermark(&self, source_id: &String, partition: u32) -> (r: Option<&Watermark>)
        requires
            self.wf(),
        ensures
            r matches Some(w) ==> self.view().watermarks.contains_key(part_key(source_id@, partition)) && *w == self.view().watermarks[part_key(source_id@, partition)],
            r is None <==> !self.view().watermarks.contains_key(part_key(source_id@, partition)),
    {
        self.watermarks.get(&part_key_exec(source_id, partition))
    }

    pub fn get_assignment(&self, group_id: &String) -> (r: Option<&GroupAssignment>)
        requires
            self.wf(),
        ensures
            r matches Some(a) ==> self.view().assignments.contains_key(id_key(group_id@)) && *a == self.view().assignments[id_key(group_id@)],
            r is None <==> !self.view().assignments.contains_key(id_key(group_id@)),
    {
        self.assignments.get(&id_key_exec(group_id))
    }

    /// The stage that `service_id` prefers within `group_id`, if it joined.
    pub fn get_member_stage(&self, group_id: &String, service_id: &String) -> (r: Option<&String>)
        requires
            self.wf(),
        ensures
            r matches Some(st) ==> self.view().members.contains_key((group_id@, service_id@, 0u32)) && *st == self.view().members[(group_id@, service_id@, 0u32)],
            r is None <==> !self.view().members.contains_key((group_id@, service_id@, 0u32)),
    {
        self.members.get(&Key::scoped(group_id.clone(), service_id.clone()))
    }

    pub fn get_group_offset(&self, group_id: &String, source_id: &String, partition: u32) -> (r: Option<u64>)
        requires
            self.wf(),
        ensures
            r matches Some(o) ==> self.view().group_offsets.contains_key((group_id@, source_id@, partition)) && o == self.view().group_offsets[(group_id@, source_id@, partition)],
            r is None <==> !self.view().group_offsets.contains_key((group_id@, source_id@, partition)),
    {
        match self.group_offsets.get(&Key { name: group_id.clone(), scope: source_id.clone(), partition }) {
            Some(o) => Some(*o),
            None => None,
        }
    }

    /// The id of the newest checkpoint saved by `service_id`.
    pub fn get_latest_checkpoint(&self, service_id: &String) -> (r: Option<&String>)
        requires
            self.wf(),
        ensures
            r matches Some(c) ==> self.view().latest_checkpoint.contains_key(id_key(service_id@)) && c@ == self.view().latest_checkpoint[id_key(service_id@)],
            r is None <==> !self.view().latest_checkpoint.contains_key(id_key(service_id@)),
    {
        self.latest_checkpoint.get(&id_key_exec(service_id))
    }
}

impl ServiceRegistry {
    /// The sweep of lease expiry: drops every service whose lease was last
    /// renewed before `cutoff_ms`. Nothing else changes.
    pub fn expire_leases(&mut self, cutoff_ms: u64)
        requires
            old(self).wf(),
        ensures
            final(self).wf(),
            final(self).view() == (RegistryView {
                services: Map::new(
                    |q: KeyView| old(self).view().services.contains_key(q) && old(self).view().services[q].lease_renewed_at >= cutoff_ms,
                    |q: KeyView| old(self).view().services[q],
                ),
                ..old(self).view()
            }),
    {
        self.services.remove_expired(cutoff_ms);
        proof {
            assert(self.services.view() =~= Map::new(
                |q: KeyView| old(self).view().services.contains_key(q) && old(self).view().services[q].lease_renewed_at >= cutoff_ms,
                |q: KeyView| old(self).view().services[q],
            ));
            assert(string_view_map(self.latest_checkpoint.view()) == string_view_map(old(self).latest_checkpoint.view()));
        }
    }
}

impl ServiceRegistry {
    /// The registered services that `filter` selects (by name, type or
    /// group), as copies.
    pub fn find_services(&self, filter: &ServiceFilter) -> (r: Vec<RegisteredService>)
        requires
            self.wf(),
        ensures
            forall|j: int| 0 <= j < r@.len() ==> is_selected_copy(self.view().services, filter, #[trigger] r@[j]),
            forall|q: KeyView| #[trigger] self.view().services.contains_key(q) && filter.selects(self.view().services[q])
                ==> exists|j: int| 0 <= j < r@.len() && (#[trigger] r@[j]).same_as(&self.view().services[q]),
    {
        self.services.select(filter)
    }
}

impl Default for ServiceRegistry {
    fn default() -> (r: ServiceRegistry)
        ensures
            r.wf(),
            r.view() == empty_registry(),
    {
        ServiceRegistry::new()
    }
}

/// Applying is deterministic: the same log replayed from the same state
/// gives the same state.
pub proof fn lemma_replay_deterministic(a: RegistryView, b: RegistryView, log: Seq<(RouterCommand, u64)>)
    requires
        a == b,
    ensures
        replay(a, log) == replay(b, log),
{
}

/// Replaying a log in two parts is replaying it whole.
pub proof fn lemma_replay_append(v: RegistryView, first: Seq<(RouterCommand, u64)>, second: Seq<(RouterCommand, u64)>)
    ensures
        replay(replay(v, first), second) == replay(v, first + second),
    decreases second.len(),
{
    if second.len() == 0 {
        assert(first + second =~= first);
    } else {
        lemma_replay_append(v, first, second.drop_last());
        assert((first + second).drop_last() =~= first + second.drop_last());
    }
}

/// An offset commit below the stored offset changes nothing.
pub proof fn lemma_stale_offset_commit_is_noop(v: RegistryView, source_id: String, partition: u32, offset: u64, at_ms: u64)
    requires
        v.offsets.contains_key(part_key(source_id@, partition)),
        offset < v.offsets[part_key(source_id@, partition)],
    ensures
        apply_spec(v, RouterCommand::CommitSourceOffset { source_id, partition, offset }, at_ms) == v,
{
}

/// A watermark that moves back in position or in event time changes
/// nothing.
pub proof fn lemma_stale_watermark_is_noop(
    v: RegistryView,
    source_id: String,
    partition: u32,
    position: u64,
    event_time: Option<SerializableTimestamp>,
    at_ms: u64,
)
    requires
        v.watermarks.contains_key(part_key(source_id@, partition)),
        position < v.watermarks[part_key(source_id@, partition)].position
            || !time_le(v.watermarks[part_key(source_id@, partition)].event_time, event_time),
    ensures
        apply_spec(v, RouterCommand::AdvanceWatermark { source_id, partition, position, event_time }, at_ms) == v,
{
}

/// Committed offsets never go down.
pub proof fn lemma_offsets_monotone(v: RegistryView, cmd: RouterCommand, at_ms: u64, k: KeyView)
    requires
        v.offsets.contains_key(k),
    ensures
        apply_spec(v, cmd, at_ms).offsets.contains_key(k),
        apply_spec(v, cmd, at_ms).offsets[k] >= v.offsets[k],
{
}

/// A partition assignment with an older generation than the stored one
/// changes nothing.
pub proof fn lemma_stale_assignment_is_noop(
    v: RegistryView,
    group_id: String,
    assignments: Vec<(String, Vec<u32>)>,
    generation: u64,
    at_ms: u64,
)
    requires
        v.assignments.contains_key(id_key(group_id@)),
        generation < v.assignments[id_key(group_id@)].generation,
    ensures
        apply_spec(v, RouterCommand::AssignPartitions { group_id, assignments, generation }, at_ms) == v,
{
}

} // verus!
