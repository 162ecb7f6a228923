use etl_router::registry::{RouterCommand, SerializableTimestamp, ServiceRegistry};
use etl_router::service::{ServiceFilter, ServiceHealth};
use etl_router::sink::{DeliveryGuarantee, WriteOptions};

fn s(x: &str) -> String {
    x.to_string()
}

fn assign(gen: u64, parts: Vec<u32>) -> RouterCommand {
    RouterCommand::AssignPartitions { group_id: s("g"), assignments: vec![(s("svc-1"), parts)], generation: gen }
}

fn register(id: &str) -> RouterCommand {
    RouterCommand::RegisterService {
        service_id: s(id),
        service_name: s("sink"),
        service_type: s("sink"),
        endpoint: s("host:1"),
        labels: vec![(s("zone"), s("a"))],
        group_id: Some(s("g")),
    }
}

#[test]
fn stale_generation_is_ignored() {
    let mut r = ServiceRegistry::new();
    r.apply(assign(5, vec![1, 2]), 0);
    r.apply(assign(4, vec![9]), 1);
    let a = r.get_assignment(&s("g")).unwrap();
    assert_eq!(a.generation, 5);
    assert_eq!(a.assignments[0].1, vec![1, 2]);
    r.apply(assign(5, vec![3]), 2);
    assert_eq!(r.get_assignment(&s("g")).unwrap().assignments[0].1, vec![3]);
}

#[test]
fn offsets_never_regress() {
    let mut r = ServiceRegistry::default();
    r.apply(RouterCommand::CommitSourceOffset { source_id: s("src"), partition: 0, offset: 10 }, 0);
    r.apply(RouterCommand::CommitSourceOffset { source_id: s("src"), partition: 0, offset: 7 }, 0);
    assert_eq!(r.get_committed_offset(&s("src"), 0), Some(10));
    r.apply(RouterCommand::CommitSourceOffset { source_id: s("src"), partition: 0, offset: 12 }, 0);
    assert_eq!(r.get_committed_offset(&s("src"), 0), Some(12));
    assert_eq!(r.get_committed_offset(&s("src"), 1), None);
}

#[test]
fn watermarks_never_regress() {
    let mut r = ServiceRegistry::new();
    let t = |sec| Some(SerializableTimestamp { seconds: sec, nanos: 0 });
    r.apply(RouterCommand::AdvanceWatermark { source_id: s("src"), partition: 2, position: 100, event_time: t(50) }, 0);
    r.apply(RouterCommand::AdvanceWatermark { source_id: s("src"), partition: 2, position: 90, event_time: t(60) }, 0);
    r.apply(RouterCommand::AdvanceWatermark { source_id: s("src"), partition: 2, position: 110, event_time: t(40) }, 0);
    let w = r.get_watermark(&s("src"), 2).unwrap();
    assert_eq!((w.position, w.event_time), (100, t(50)));
    r.apply(RouterCommand::AdvanceWatermark { source_id: s("src"), partition: 2, position: 110, event_time: t(55) }, 0);
    assert_eq!(r.get_watermark(&s("src"), 2).unwrap().position, 110);
}

#[test]
fn service_lifecycle() {
    let mut r = ServiceRegistry::new();
    r.apply(register("svc-1"), 5);
    let svc = r.get_service(&s("svc-1")).unwrap();
    assert_eq!(svc.health, ServiceHealth::Unknown);
    assert_eq!(svc.lease_renewed_at, 5);
    r.apply(RouterCommand::UpdateServiceHealth { service_id: s("svc-1"), health: s("healthy") }, 6);
    assert_eq!(r.get_service(&s("svc-1")).unwrap().health, ServiceHealth::Healthy);
    r.apply(RouterCommand::UpdateServiceHealth { service_id: s("svc-1"), health: s("bogus") }, 7);
    assert_eq!(r.get_service(&s("svc-1")).unwrap().health, ServiceHealth::Unknown);
    r.apply(RouterCommand::RenewLease { service_id: s("svc-1") }, 9);
    assert_eq!(r.get_service(&s("svc-1")).unwrap().lease_renewed_at, 9);
    r.apply(RouterCommand::RenewLease { service_id: s("ghost") }, 9);
    assert!(r.get_service(&s("ghost")).is_none());
    r.apply(RouterCommand::JoinGroup { service_id: s("svc-1"), group_id: s("g"), stage_id: s("st") }, 10);
    assert_eq!(r.get_member_stage(&s("g"), &s("svc-1")).map(|x| x.as_str()), Some("st"));
    r.apply(RouterCommand::DeregisterService { service_id: s("svc-1") }, 11);
    assert!(r.get_service(&s("svc-1")).is_none());
    assert!(r.get_member_stage(&s("g"), &s("svc-1")).is_none());
}

#[test]
fn leave_group() {
    let mut r = ServiceRegistry::new();
    r.apply(RouterCommand::JoinGroup { service_id: s("a"), group_id: s("g"), stage_id: s("st") }, 0);
    r.apply(RouterCommand::JoinGroup { service_id: s("b"), group_id: s("g"), stage_id: s("st") }, 0);
    r.apply(RouterCommand::LeaveGroup { service_id: s("a"), group_id: s("g") }, 0);
    assert!(r.get_member_stage(&s("g"), &s("a")).is_none());
    assert!(r.get_member_stage(&s("g"), &s("b")).is_some());
}

#[test]
fn pipeline_crud() {
    let mut r = ServiceRegistry::new();
    r.apply(RouterCommand::CreatePipeline { pipeline_id: s("p"), name: s("orders"), config: vec![1] }, 0);
    assert!(r.get_pipeline(&s("p")).unwrap().enabled);
    r.apply(RouterCommand::DisablePipeline { pipeline_id: s("p") }, 0);
    assert!(!r.get_pipeline(&s("p")).unwrap().enabled);
    r.apply(RouterCommand::UpdatePipeline { pipeline_id: s("p"), config: vec![2, 3] }, 0);
    assert_eq!(r.get_pipeline(&s("p")).unwrap().config, vec![2, 3]);
    assert_eq!(r.get_pipeline(&s("p")).unwrap().name, "orders");
    r.apply(RouterCommand::EnablePipeline { pipeline_id: s("p") }, 0);
    assert!(r.get_pipeline(&s("p")).unwrap().enabled);
    r.apply(RouterCommand::DeletePipeline { pipeline_id: s("p") }, 0);
    assert!(r.get_pipeline(&s("p")).is_none());
}

#[test]
fn checkpoints_and_group_offsets() {
    let mut r = ServiceRegistry::new();
    r.apply(RouterCommand::SaveServiceCheckpoint { service_id: s("w"), checkpoint_id: s("c1"), data: vec![], source_offsets: vec![] }, 0);
    r.apply(RouterCommand::SaveServiceCheckpoint { service_id: s("w"), checkpoint_id: s("c2"), data: vec![7], source_offsets: vec![(s("src"), 3)] }, 0);
    assert_eq!(r.get_latest_checkpoint(&s("w")).map(|x| x.as_str()), Some("c2"));
    r.apply(RouterCommand::CommitGroupOffset { group_id: s("g"), source_id: s("src"), partition: 1, offset: 4 }, 0);
    assert_eq!(r.get_group_offset(&s("g"), &s("src"), 1), Some(4));
    r.apply(RouterCommand::Noop, 0);
    assert_eq!(r.get_group_offset(&s("g"), &s("src"), 2), None);
}

fn sample_log() -> Vec<(RouterCommand, u64)> {
    vec![
        (register("svc-1"), 1),
        (assign(3, vec![0, 1]), 2),
        (RouterCommand::CommitSourceOffset { source_id: s("src"), partition: 0, offset: 8 }, 3),
        (RouterCommand::CommitSourceOffset { source_id: s("src"), partition: 0, offset: 2 }, 4),
        (assign(2, vec![5]), 5),
    ]
}

#[test]
fn replay_is_deterministic() {
    let mut a = ServiceRegistry::new();
    let mut b = ServiceRegistry::new();
    a.apply_log(sample_log());
    for (cmd, at) in sample_log() {
        b.apply(cmd, at);
    }
    assert_eq!(a.get_committed_offset(&s("src"), 0), Some(8));
    assert_eq!(a.get_committed_offset(&s("src"), 0), b.get_committed_offset(&s("src"), 0));
    assert_eq!(a.get_assignment(&s("g")).unwrap().generation, 3);
    assert_eq!(b.get_assignment(&s("g")).unwrap().generation, 3);
    assert_eq!(a.get_service(&s("svc-1")).unwrap().endpoint, b.get_service(&s("svc-1")).unwrap().endpoint);
}

#[test]
fn write_option_presets() {
    let a = WriteOptions::at_least_once();
    assert!(a.require_ack);
    assert_eq!(a.timeout_ms, 30000);
    assert_eq!(a.guarantee, DeliveryGuarantee::AtLeastOnce);
    let e = WriteOptions::exactly_once();
    assert!(e.require_ack);
    assert_eq!(e.timeout_ms, 60000);
    assert_eq!(e.guarantee, DeliveryGuarantee::ExactlyOnce);
}

#[test]
fn lease_expiry_drops_stale_services() {
    let mut r = ServiceRegistry::new();
    r.apply(register("old"), 10);
    r.apply(register("fresh"), 20);
    r.apply(RouterCommand::RenewLease { service_id: s("old") }, 30);
    r.apply(register("stale"), 5);
    r.expire_leases(15);
    assert!(r.get_service(&s("old")).is_some());
    assert!(r.get_service(&s("fresh")).is_some());
    assert!(r.get_service(&s("stale")).is_none());
}

#[test]
fn enumerate_services() {
    let mut r = ServiceRegistry::new();
    r.apply(register("a"), 0);
    r.apply(register("b"), 0);
    r.apply(
        RouterCommand::RegisterService {
            service_id: s("c"),
            service_name: s("enricher"),
            service_type: s("transform"),
            endpoint: s("h:2"),
            labels: vec![],
            group_id: None,
        },
        0,
    );
    let mut by_name: Vec<String> = r.find_services(&ServiceFilter::ByName(s("sink"))).into_iter().map(|x| x.service_id).collect();
    by_name.sort();
    assert_eq!(by_name, vec!["a", "b"]);
    let by_type = r.find_services(&ServiceFilter::ByType(s("transform")));
    assert_eq!(by_type.len(), 1);
    assert_eq!(by_type[0].labels.len(), 0);
    assert_eq!(r.find_services(&ServiceFilter::InGroup(s("g"))).len(), 2);
    let copy = r.find_services(&ServiceFilter::ByName(s("sink")))[0].clone();
    assert_eq!(copy.labels, vec![(s("zone"), s("a"))]);
}
