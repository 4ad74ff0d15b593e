use std::time::Duration;

use waterdrop_terrain_generator::assoc::AssocMap;
use waterdrop_terrain_generator::graph::topology::GraphNodeId;
use waterdrop_terrain_generator::node::message::{
    MessageLifetime, NodeMessage, NodeMessageLog, NodeMessageSeverity, TimedNodeMessage,
};
use waterdrop_terrain_generator::node::error::decimal_text;
use waterdrop_terrain_generator::node::NodeError;

#[test]
fn message_constructors_set_the_severity() {
    assert_eq!(NodeMessage::error("e".to_string()).severity, NodeMessageSeverity::Error);
    assert_eq!(NodeMessage::warning("w".to_string()).severity, NodeMessageSeverity::Warning);
    let i = NodeMessage::info("i".to_string());
    assert_eq!(i.severity, NodeMessageSeverity::Info);
    assert_eq!(i.text, "i");
}

#[test]
fn success_messages_last_three_seconds() {
    assert_eq!(NodeMessageLog::action_message_duration(), Duration::from_secs(3));
}

#[test]
fn timed_messages_expire_after_their_duration() {
    let m = TimedNodeMessage::new(NodeMessage::info("x".to_string()), MessageLifetime::Timed(Duration::from_secs(2)));
    assert!(!m.is_expired_after(Duration::from_millis(1999)));
    assert!(m.is_expired_after(Duration::from_secs(2)));
    assert_eq!(m.remaining_after(Duration::from_millis(500)), Some(Duration::from_millis(1500)));
    assert_eq!(m.remaining_after(Duration::from_secs(3)), None);
    // At the very moment it expires, nothing is left.
    assert_eq!(m.remaining_after(Duration::from_secs(2)), None);
    assert_eq!(m.remaining_after(Duration::from_millis(1999)), Some(Duration::from_millis(1)));
    let p = TimedNodeMessage::new(NodeMessage::error("y".to_string()), MessageLifetime::Persistent);
    assert!(!p.is_expired_after(Duration::from_secs(1_000_000)));
    assert_eq!(p.remaining_after(Duration::ZERO), None);
    assert!(!p.is_expired());
    assert_eq!(p.remaining(), None);
    assert!(!m.is_expired());
    assert!(m.remaining().unwrap() <= Duration::from_secs(2));
}

#[test]
fn set_result_records_the_latest_feedback_per_node() {
    let mut log = NodeMessageLog::new();
    let a = GraphNodeId(1);
    let b = GraphNodeId(2);
    log.set_result(a, Ok("saved".to_string()));
    let m = log.get(a).unwrap();
    assert_eq!(m.severity, NodeMessageSeverity::Info);
    assert_eq!(m.text, "saved");
    assert!(log.remaining(a).unwrap() <= Duration::from_secs(3));

    log.set_result(a, Err(NodeError::CyclicGraph));
    let m = log.get(a).unwrap();
    assert_eq!(m.severity, NodeMessageSeverity::Error);
    assert_eq!(m.text, "Graph contains a cycle");
    assert_eq!(log.remaining(a), None);

    let missing = NodeError::InputNotConnected { node_id: b, node: "B".to_string(), socket: "In".to_string() };
    log.set_result(b, Err(missing));
    assert_eq!(log.get(b).unwrap().severity, NodeMessageSeverity::Warning);
    assert_eq!(log.get(b).unwrap().text, "\"B\" input \"In\" is not connected");

    log.prune_expired();
    assert!(log.get(a).is_some() && log.get(b).is_some());
    log.clear(a);
    assert!(log.get(a).is_none());
    assert!(log.get(GraphNodeId(9)).is_none());
    assert_eq!(log.remaining(GraphNodeId(9)), None);
}

#[test]
fn error_severity_is_a_warning_only_for_missing_inputs() {
    assert_eq!(NodeError::CyclicGraph.severity(), NodeMessageSeverity::Error);
    assert_eq!(NodeError::NodeNotFound(GraphNodeId(0)).severity(), NodeMessageSeverity::Error);
    let e = NodeError::InputNotConnected { node_id: GraphNodeId(0), node: String::new(), socket: String::new() };
    assert_eq!(e.severity(), NodeMessageSeverity::Warning);
    assert!(matches!(NodeError::from("bad".to_string()), NodeError::ProcessingFailed(m) if m == "bad"));
    assert!(matches!(NodeError::from_message("worse"), NodeError::ProcessingFailed(m) if m == "worse"));
}

#[test]
fn error_messages_name_what_went_wrong() {
    assert_eq!(NodeError::NodeNotFound(GraphNodeId(4)).message(), "Unknown node id GraphNodeId(4)");
    assert_eq!(
        NodeError::OutputSocketNotFound { node: "GraphNodeId(2)".to_string(), socket: 130 }.message(),
        "GraphNodeId(2) has no output socket 130"
    );
    assert_eq!(
        NodeError::InputSocketNotFound { node: "GraphNodeId(0)".to_string(), socket: 0 }.message(),
        "GraphNodeId(0) has no input socket 0"
    );
    assert_eq!(NodeError::SocketOccupied.message(), "Socket is already occupied by another connection");
    let mismatch = NodeError::SocketTypeMismatch {
        from_node: "GraphNodeId(0)".to_string(),
        from_socket: "Height".to_string(),
        to_node: "GraphNodeId(1)".to_string(),
        to_socket: "Mask".to_string(),
    };
    assert_eq!(mismatch.message(), "Cannot connect GraphNodeId(0):Height to GraphNodeId(1):Mask, socket types differ");
    let missing = NodeError::NotConnected {
        from_node: GraphNodeId(3),
        from_socket: "Out".to_string(),
        to_node: GraphNodeId(5),
        to_socket: "7".to_string(),
    };
    assert_eq!(missing.message(), "No connection from GraphNodeId(3):Out to GraphNodeId(5):7");
    let unwired = NodeError::InputNotConnected { node_id: GraphNodeId(1), node: "Clamp".to_string(), socket: "Height".to_string() };
    assert_eq!(unwired.message(), "\"Clamp\" input \"Height\" is not connected");
    assert_eq!(NodeError::CyclicGraph.message(), "Graph contains a cycle");
    assert_eq!(NodeError::OutputNotAvailable { node: "Slope".to_string() }.message(), "No output available to feed Slope");
    assert_eq!(NodeError::NodeNotEvaluated(GraphNodeId(12)).message(), "GraphNodeId(12) was not evaluated");
    assert_eq!(NodeError::from_message("boom").message(), "boom");
}

#[test]
fn decimal_text_writes_integers_in_base_ten() {
    assert_eq!(decimal_text(0), "0");
    assert_eq!(decimal_text(9), "9");
    assert_eq!(decimal_text(10), "10");
    assert_eq!(decimal_text(4096), "4096");
    assert_eq!(decimal_text(usize::MAX), usize::MAX.to_string());
}

#[test]
fn zero_length_timed_messages_expire_at_once() {
    let m = TimedNodeMessage::new(NodeMessage::info("gone".to_string()), MessageLifetime::Timed(Duration::ZERO));
    assert!(m.is_expired());
    let mut log = NodeMessageLog::new();
    log.set_result(GraphNodeId(1), Err(NodeError::CyclicGraph));
    log.set_result(GraphNodeId(2), Ok("done".to_string()));
    log.prune_expired();
    assert!(log.get(GraphNodeId(1)).is_some());
    assert!(log.get(GraphNodeId(2)).is_some());
}

#[test]
fn feedback_is_read_against_the_time_passed() {
    let mut log = NodeMessageLog::new();
    let (a, b) = (GraphNodeId(1), GraphNodeId(2));
    log.set_result(a, Ok("saved".to_string()));
    log.set_result(b, Err(NodeError::CyclicGraph));
    assert_eq!(log.get_after(a, Duration::from_millis(2999)).unwrap().text, "saved");
    assert!(log.get_after(a, Duration::from_secs(3)).is_none());
    assert!(log.get_after(b, Duration::from_secs(3600)).is_some());
    assert!(log.get_after(GraphNodeId(7), Duration::ZERO).is_none());
    assert_eq!(log.remaining_after(a, Duration::from_secs(1)), Some(Duration::from_secs(2)));
    assert_eq!(log.remaining_after(a, Duration::from_secs(3)), None);
    assert_eq!(log.remaining_after(b, Duration::ZERO), None);
}

#[test]
fn pruning_drops_exactly_the_expired_feedback() {
    let mut log = NodeMessageLog::new();
    let (a, b, c) = (GraphNodeId(1), GraphNodeId(2), GraphNodeId(3));
    log.set_result(a, Ok("one".to_string()));
    log.set_result(b, Ok("two".to_string()));
    log.set_result(c, Err(NodeError::CyclicGraph));
    let mut readings = AssocMap::new();
    readings.insert(a, Duration::from_secs(3));
    readings.insert(b, Duration::from_secs(1));
    readings.insert(c, Duration::from_secs(100));
    log.prune_expired_after(&readings);
    assert!(log.get_after(a, Duration::ZERO).is_none());
    assert_eq!(log.get_after(b, Duration::ZERO).unwrap().text, "two");
    assert!(log.get_after(c, Duration::ZERO).is_some());
}

#[test]
fn pruning_again_at_the_same_readings_removes_nothing_more() {
    let mut log = NodeMessageLog::new();
    let (a, b) = (GraphNodeId(1), GraphNodeId(2));
    log.set_result(a, Ok("one".to_string()));
    log.set_result(b, Ok("two".to_string()));
    let mut readings = AssocMap::new();
    readings.insert(a, Duration::from_secs(4));
    readings.insert(b, Duration::from_millis(2500));
    log.prune_expired_after(&readings);
    assert_eq!(log.get_after(b, Duration::from_millis(2500)).unwrap().text, "two");
    log.prune_expired_after(&readings);
    assert!(log.get_after(a, Duration::ZERO).is_none());
    assert_eq!(log.get_after(b, Duration::from_millis(2500)).unwrap().text, "two");
    assert_eq!(log.remaining_after(b, Duration::from_millis(2500)), Some(Duration::from_millis(500)));
}
