use bpmn::graph::{
    BpmnActivity, BpmnFlow, BpmnFlowElement, BpmnFlowType, BpmnGatewayType, BpmnGraph, GraphError,
};
use bpmn::instance::{FailureReason, InstanceStatus, Outcome, ProcessInstance, Step};
use bpmn::token::TokenState;
use bpmn::tracker::{ExecutionError, JoinOutcome, JoinTracker, MergeOutcome};

fn activity(name: &str) -> BpmnFlowElement {
    BpmnFlowElement::Activity(BpmnActivity::new(name.to_string()))
}

fn gateway(kind: BpmnGatewayType) -> BpmnFlowElement {
    BpmnFlowElement::Gateway(kind)
}

fn seq(source: usize, target: usize) -> BpmnFlow {
    BpmnFlow { flow_type: BpmnFlowType::Sequence, source, target }
}

/// Drives the instance to its end; the activity at `failing`, if any, fails.
/// Returns the invoked elements in order and the last step.
fn drive(inst: &mut ProcessInstance, failing: Option<usize>) -> (Vec<usize>, Step) {
    let mut invoked = Vec::new();
    for _ in 0..1000 {
        match inst.step() {
            Step::Invoke { token, element } => {
                invoked.push(element);
                let outcome = if failing == Some(element) {
                    Outcome::Failure(format!("activity {} failed", element))
                } else {
                    Outcome::Success
                };
                assert!(inst.complete_activity(token, outcome));
            }
            Step::Advanced => {}
            last => return (invoked, last),
        }
    }
    panic!("instance did not end");
}

fn live_count(inst: &ProcessInstance) -> usize {
    inst.tokens()
        .iter()
        .filter(|t| t.state == TokenState::Active || t.state == TokenState::WaitingAtJoin)
        .count()
}

#[test]
fn activity_new_keeps_name() {
    let a = BpmnActivity::new("Name1".to_string());
    assert_eq!(a.name, "Name1");
}

#[test]
fn graph_new_builds_adjacency() {
    let g = BpmnGraph::new(vec![activity("Name1"), activity("Name2")], vec![seq(0, 1)], 0).unwrap();
    assert_eq!(g.outgoing_flows(0).len(), 1);
    assert_eq!(g.outgoing_flows(0)[0].target, 1);
    assert_eq!(g.outgoing_flows(1).len(), 0);
    assert_eq!(g.incoming_count(0), 0);
    assert_eq!(g.incoming_count(1), 1);
}

#[test]
fn graph_rejects_dangling_flow() {
    let r = BpmnGraph::new(vec![activity("A")], vec![seq(0, 1)], 0);
    assert_eq!(r.err(), Some(GraphError::DanglingFlowTarget));
    let r = BpmnGraph::new(vec![activity("A")], vec![seq(3, 0)], 0);
    assert_eq!(r.err(), Some(GraphError::DanglingFlowTarget));
}

#[test]
fn graph_rejects_missing_start() {
    let r = BpmnGraph::new(vec![activity("A")], vec![], 1);
    assert_eq!(r.err(), Some(GraphError::NoStartElement));
    let r = BpmnGraph::new(vec![], vec![], 0);
    assert_eq!(r.err(), Some(GraphError::NoStartElement));
}

#[test]
fn graph_rejects_start_with_incoming_flow() {
    let r = BpmnGraph::new(vec![activity("A"), activity("B")], vec![seq(0, 1), seq(1, 0)], 0);
    assert_eq!(r.err(), Some(GraphError::InvalidStart));
}

#[test]
fn graph_rejects_malformed_join() {
    // A -> AND-split -> {B, C} -> AND-join -> {D, E}
    let elements = vec![
        activity("A"),
        gateway(BpmnGatewayType::AND),
        activity("B"),
        activity("C"),
        gateway(BpmnGatewayType::AND),
        activity("D"),
        activity("E"),
    ];
    let flows = vec![seq(0, 1), seq(1, 2), seq(1, 3), seq(2, 4), seq(3, 4), seq(4, 5), seq(4, 6)];
    let r = BpmnGraph::new(elements, flows, 0);
    assert_eq!(r.err(), Some(GraphError::MalformedJoinGateway));
}

#[test]
fn message_flows_count_like_sequence_flows() {
    let flows = vec![BpmnFlow { flow_type: BpmnFlowType::Message, source: 0, target: 1 }];
    let g = BpmnGraph::new(vec![activity("A"), activity("B")], flows, 0).unwrap();
    let mut inst = ProcessInstance::new(1, g);
    let (invoked, last) = drive(&mut inst, None);
    assert_eq!(invoked, vec![0, 1]);
    assert_eq!(last, Step::Done);
}

#[test]
fn scenario_sequence_completes() {
    // A -> B
    let g = BpmnGraph::new(vec![activity("A"), activity("B")], vec![seq(0, 1)], 0).unwrap();
    let mut inst = ProcessInstance::new(7, g);
    assert_eq!(inst.id(), 7);
    let (invoked, last) = drive(&mut inst, None);
    assert_eq!(invoked, vec![0, 1]);
    assert_eq!(last, Step::Done);
    assert!(matches!(inst.status(), InstanceStatus::Completed));
    assert_eq!(live_count(&inst), 0);
}

#[test]
fn chain_without_gateways_visits_each_once() {
    let elements = vec![activity("A"), activity("B"), activity("C"), activity("D")];
    let flows = vec![seq(0, 2), seq(2, 1), seq(1, 3)];
    let g = BpmnGraph::new(elements, flows, 0).unwrap();
    let mut inst = ProcessInstance::new(0, g);
    let (invoked, _) = drive(&mut inst, None);
    assert_eq!(invoked, vec![0, 2, 1, 3]);
    assert!(matches!(inst.status(), InstanceStatus::Completed));
    assert_eq!(inst.tokens().len(), 1);
}

fn and_split_join_graph() -> BpmnGraph {
    // A -> AND-split -> {B, C} -> AND-join -> D
    let elements = vec![
        activity("A"),
        gateway(BpmnGatewayType::AND),
        activity("B"),
        activity("C"),
        gateway(BpmnGatewayType::AND),
        activity("D"),
    ];
    let flows = vec![seq(0, 1), seq(1, 2), seq(1, 3), seq(2, 4), seq(3, 4), seq(4, 5)];
    BpmnGraph::new(elements, flows, 0).unwrap()
}

#[test]
fn scenario_and_split_join() {
    let mut inst = ProcessInstance::new(1, and_split_join_graph());
    let (invoked, last) = drive(&mut inst, None);
    assert_eq!(last, Step::Done);
    assert_eq!(invoked.len(), 4);
    assert_eq!(invoked[0], 0);
    assert!(invoked[1..3].contains(&2) && invoked[1..3].contains(&3));
    assert_eq!(invoked[3], 5);
    assert_eq!(invoked.iter().filter(|e| **e == 5).count(), 1);
    assert!(matches!(inst.status(), InstanceStatus::Completed));
}

#[test]
fn and_join_fires_once_whatever_the_order() {
    // Complete C before B by hand.
    let mut inst = ProcessInstance::new(1, and_split_join_graph());
    let Step::Invoke { token: a, element: 0 } = inst.step() else { panic!() };
    assert!(inst.complete_activity(a, Outcome::Success));
    assert_eq!(inst.step(), Step::Advanced);
    let Step::Invoke { token: b, element: 2 } = inst.step() else { panic!() };
    let c = b + 1;
    assert_eq!(inst.tokens()[c].position, 3);
    assert!(inst.complete_activity(c, Outcome::Success));
    assert_eq!(inst.step(), Step::Invoke { token: b, element: 2 });
    assert!(inst.complete_activity(b, Outcome::Success));
    assert_eq!(inst.step(), Step::Advanced);
    assert_eq!(inst.tokens()[b].state, TokenState::WaitingAtJoin);
    assert_eq!(inst.step(), Step::Advanced);
    assert_eq!(inst.tokens()[b].state, TokenState::Completed);
    assert_eq!(inst.tokens()[c].position, 5);
    assert_eq!(live_count(&inst), 1);
    let (invoked, _) = drive(&mut inst, None);
    assert_eq!(invoked, vec![5]);
    assert!(matches!(inst.status(), InstanceStatus::Completed));
}

#[test]
fn scenario_or_split_takes_first_flow() {
    // A -> OR-split -> {B, C}
    let elements = vec![activity("A"), gateway(BpmnGatewayType::OR), activity("B"), activity("C")];
    let flows = vec![seq(0, 1), seq(1, 2), seq(1, 3)];
    let g = BpmnGraph::new(elements, flows, 0).unwrap();
    let mut inst = ProcessInstance::new(1, g);
    let (invoked, _) = drive(&mut inst, None);
    assert_eq!(invoked, vec![0, 2]);
    assert!(!invoked.contains(&3));
    assert!(matches!(inst.status(), InstanceStatus::Completed));
}

#[test]
fn or_join_lets_one_of_three_through() {
    // A -> AND-split -> {B, C, D} -> OR-join -> E
    let elements = vec![
        activity("A"),
        gateway(BpmnGatewayType::AND),
        activity("B"),
        activity("C"),
        activity("D"),
        gateway(BpmnGatewayType::OR),
        activity("E"),
    ];
    let flows = vec![
        seq(0, 1),
        seq(1, 2),
        seq(1, 3),
        seq(1, 4),
        seq(2, 5),
        seq(3, 5),
        seq(4, 5),
        seq(5, 6),
    ];
    let g = BpmnGraph::new(elements, flows, 0).unwrap();
    let mut inst = ProcessInstance::new(1, g);
    let (invoked, _) = drive(&mut inst, None);
    assert_eq!(invoked.iter().filter(|e| **e == 6).count(), 1);
    assert_eq!(invoked.len(), 5);
    assert!(matches!(inst.status(), InstanceStatus::Completed));
}

#[test]
fn scenario_failure_terminates_siblings() {
    // B fails while C is still pending.
    let mut inst = ProcessInstance::new(1, and_split_join_graph());
    let (invoked, last) = drive(&mut inst, Some(2));
    assert_eq!(last, Step::Done);
    assert_eq!(invoked, vec![0, 2]);
    match inst.status() {
        InstanceStatus::Failed(FailureReason::Activity(reason)) => {
            assert_eq!(reason, "activity 2 failed")
        }
        _ => panic!("instance should have failed"),
    }
    assert_eq!(live_count(&inst), 0);
    let terminated = inst.tokens().iter().filter(|t| t.state == TokenState::Terminated).count();
    assert_eq!(terminated, 2);
}

#[test]
fn scenario_first_activity_fails() {
    let g = BpmnGraph::new(vec![activity("A"), activity("B")], vec![seq(0, 1)], 0).unwrap();
    let mut inst = ProcessInstance::new(1, g);
    let (invoked, _) = drive(&mut inst, Some(0));
    assert_eq!(invoked, vec![0]);
    assert!(matches!(
        inst.status(),
        InstanceStatus::Failed(FailureReason::Activity(r)) if r == "activity 0 failed"
    ));
    assert_eq!(inst.tokens()[0].state, TokenState::Terminated);
}

#[test]
fn cancel_twice_is_cancel_once() {
    let mut inst = ProcessInstance::new(1, and_split_join_graph());
    let Step::Invoke { token, .. } = inst.step() else { panic!() };
    assert!(inst.complete_activity(token, Outcome::Success));
    assert_eq!(inst.step(), Step::Advanced);
    inst.cancel();
    let once: Vec<_> = inst.tokens().clone();
    assert!(matches!(inst.status(), InstanceStatus::Cancelled));
    inst.cancel();
    assert_eq!(inst.tokens(), &once);
    assert!(matches!(inst.status(), InstanceStatus::Cancelled));
    assert_eq!(live_count(&inst), 0);
    assert_eq!(inst.step(), Step::Done);
}

#[test]
fn outcome_after_cancel_is_discarded() {
    let g = BpmnGraph::new(vec![activity("A"), activity("B")], vec![seq(0, 1)], 0).unwrap();
    let mut inst = ProcessInstance::new(1, g);
    let Step::Invoke { token, .. } = inst.step() else { panic!() };
    inst.cancel();
    assert!(!inst.complete_activity(token, Outcome::Success));
    assert_eq!(inst.tokens()[0].position, 0);
    assert!(matches!(inst.status(), InstanceStatus::Cancelled));
}

#[test]
fn cancel_after_completion_changes_nothing() {
    let g = BpmnGraph::new(vec![activity("A")], vec![], 0).unwrap();
    let mut inst = ProcessInstance::new(1, g);
    drive(&mut inst, None);
    inst.cancel();
    assert!(matches!(inst.status(), InstanceStatus::Completed));
    assert_eq!(inst.tokens()[0].state, TokenState::Completed);
}

#[test]
fn activity_with_two_flows_fans_out() {
    let elements = vec![activity("A"), activity("B"), activity("C")];
    let g = BpmnGraph::new(elements, vec![seq(0, 1), seq(0, 2)], 0).unwrap();
    let mut inst = ProcessInstance::new(1, g);
    let (invoked, _) = drive(&mut inst, None);
    assert_eq!(invoked, vec![0, 1, 2]);
    assert_eq!(inst.tokens().len(), 3);
    assert!(matches!(inst.status(), InstanceStatus::Completed));
}

#[test]
fn join_fed_by_or_split_stalls() {
    // A -> OR-split -> {B, C} -> AND-join -> D: only one branch ever arrives.
    let elements = vec![
        activity("A"),
        gateway(BpmnGatewayType::OR),
        activity("B"),
        activity("C"),
        gateway(BpmnGatewayType::AND),
        activity("D"),
    ];
    let flows = vec![seq(0, 1), seq(1, 2), seq(1, 3), seq(2, 4), seq(3, 4), seq(4, 5)];
    let g = BpmnGraph::new(elements, flows, 0).unwrap();
    let mut inst = ProcessInstance::new(1, g);
    let (invoked, last) = drive(&mut inst, None);
    assert_eq!(invoked, vec![0, 2]);
    assert_eq!(last, Step::Stalled);
    assert!(matches!(inst.status(), InstanceStatus::Running));
    assert_eq!(live_count(&inst), 1);
}

#[test]
fn tracker_join_seals_on_last_arrival() {
    let mut tr = JoinTracker::new(&vec![0, 3]);
    assert_eq!(tr.len(), 2);
    assert_eq!(tr.register_arrival(1, 10), Ok(JoinOutcome::Waiting));
    assert_eq!(tr.register_arrival(1, 30), Ok(JoinOutcome::Waiting));
    assert_eq!(tr.arrived_count(1), 2);
    assert_eq!(tr.register_arrival(1, 20), Ok(JoinOutcome::Sealed { continuation: 20 }));
    assert_eq!(tr.arrived_count(1), 0);
    // The next generation is tracked afresh.
    assert_eq!(tr.register_arrival(1, 10), Ok(JoinOutcome::Waiting));
    assert_eq!(tr.arrived_count(1), 1);
}

#[test]
fn tracker_rejects_duplicate_arrival() {
    let mut tr = JoinTracker::new(&vec![2]);
    assert_eq!(tr.register_arrival(0, 4), Ok(JoinOutcome::Waiting));
    assert_eq!(tr.register_arrival(0, 4), Err(ExecutionError::DuplicateJoinArrival));
    assert_eq!(tr.arrived_count(0), 1);
    assert_eq!(tr.register_arrival(0, 5), Ok(JoinOutcome::Sealed { continuation: 5 }));
}

#[test]
fn tracker_merge_first_continues() {
    let mut tr = JoinTracker::new(&vec![3]);
    assert_eq!(tr.register_merge(0, 1), Ok(MergeOutcome::Continue));
    assert_eq!(tr.register_merge(0, 1), Err(ExecutionError::DuplicateJoinArrival));
    assert_eq!(tr.register_merge(0, 2), Ok(MergeOutcome::Merged));
    assert_eq!(tr.register_merge(0, 3), Ok(MergeOutcome::Merged));
    assert_eq!(tr.arrived_count(0), 0);
    assert_eq!(tr.register_merge(0, 4), Ok(MergeOutcome::Continue));
}

#[test]
fn tracker_release_all_clears_generations() {
    let mut tr = JoinTracker::new(&vec![2, 2]);
    assert_eq!(tr.register_arrival(0, 1), Ok(JoinOutcome::Waiting));
    assert_eq!(tr.register_merge(1, 1), Ok(MergeOutcome::Continue));
    tr.release_all();
    assert_eq!(tr.arrived_count(0), 0);
    assert_eq!(tr.arrived_count(1), 0);
}
