//! Errors raised while editing or evaluating the node graph.

use vstd::prelude::*;

use crate::graph::topology::{id_text, node_id_text, GraphNodeId};
use crate::node::message::NodeMessageSeverity;

verus! {

/// Everything that can go wrong while editing or evaluating a graph. Node texts hold a node's
/// debug name (`GraphNodeId(3)`) or label; socket texts hold a socket's name, or its index when
/// the socket no longer exists.
#[derive(Debug, Clone)]
pub enum NodeError {
    NodeNotFound(GraphNodeId),
    OutputSocketNotFound { node: String, socket: usize },
    InputSocketNotFound { node: String, socket: usize },
    SocketOccupied,
    SocketTypeMismatch { from_node: String, from_socket: String, to_node: String, to_socket: String },
    NotConnected { from_node: GraphNodeId, from_socket: String, to_node: GraphNodeId, to_socket: String },
    /// `node_id` identifies the node unambiguously (two nodes of the same type share the same `node` label).
    InputNotConnected { node_id: GraphNodeId, node: String, socket: String },
    CyclicGraph,
    /// Internal scheduling bug: the topological order should guarantee this never happens.
    OutputNotAvailable { node: String },
    /// Internal scheduling bug.
    NodeNotEvaluated(GraphNodeId),
    ProcessingFailed(String),
}

/// The severity with which an error is shown: a missing input is only a warning, since the user
/// is most likely still wiring the graph.
pub open spec fn error_severity(e: NodeError) -> NodeMessageSeverity {
    match e {
        NodeError::InputNotConnected { .. } => NodeMessageSeverity::Warning,
        _ => NodeMessageSeverity::Error,
    }
}

impl NodeError {
    pub fn severity(&self) -> (s: NodeMessageSeverity)
        ensures
            s == error_severity(*self),
    {
        match self {
            NodeError::InputNotConnected { .. } => NodeMessageSeverity::Warning,
            _ => NodeMessageSeverity::Error,
        }
    }

    /// A failure reported by a node's own processing, described by `msg`.
    pub fn from_message(msg: &str) -> (e: NodeError)
        ensures
            e matches NodeError::ProcessingFailed(t) && t@ == msg@,
    {
        NodeError::ProcessingFailed(msg.to_owned())
    }
}

/// The character of decimal digit `d`.
pub open spec fn digit_char(d: nat) -> char {
    if d == 0 {
        '0'
    } else if d == 1 {
        '1'
    } else if d == 2 {
        '2'
    } else if d == 3 {
        '3'
    } else if d == 4 {
        '4'
    } else if d == 5 {
        '5'
    } else if d == 6 {
        '6'
    } else if d == 7 {
        '7'
    } else if d == 8 {
        '8'
    } else {
        '9'
    }
}

/// `n` written in decimal, without leading zeros, as `Display` writes an integer.
pub open spec fn decimal(n: nat) -> Seq<char>
    decreases n,
{
    if n < 10 {
        seq![digit_char(n)]
    } else {
        decimal(n / 10).push(digit_char(n % 10))
    }
}

fn digit_text(d: usize) -> (r: &'static str)
    requires
        d < 10,
    ensures
        r@ == seq![digit_char(d as nat)],
{
    proof {
        reveal_strlit("0");
        reveal_strlit("1");
        reveal_strlit("2");
        reveal_strlit("3");
        reveal_strlit("4");
        reveal_strlit("5");
        reveal_strlit("6");
        reveal_strlit("7");
        reveal_strlit("8");
        reveal_strlit("9");
    }
    match d {
        0 => "0",
        1 => "1",
        2 => "2",
        3 => "3",
        4 => "4",
        5 => "5",
        6 => "6",
        7 => "7",
        8 => "8",
        _ => "9",
    }
}

/// `n` written in decimal.
pub fn decimal_text(n: usize) -> (r: String)
    ensures
        r@ == decimal(n as nat),
    decreases n,
{
    if n < 10 {
        String::from_str(digit_text(n))
    } else {
        let mut s = decimal_text(n / 10);
        s.append(digit_text(n % 10));
        proof {
            assert(decimal(n as nat) == decimal((n / 10) as nat).push(digit_char((n % 10) as nat)));
            assert(decimal((n / 10) as nat) + seq![digit_char((n % 10) as nat)] =~= decimal((n / 10) as nat).push(
                digit_char((n % 10) as nat),
            ));
        }
        s
    }
}

/// The text shown for `e`.
pub open spec fn error_message(e: NodeError) -> Seq<char> {
    match e {
        NodeError::NodeNotFound(id) => "Unknown node id "@ + node_id_text(id.0),
        NodeError::OutputSocketNotFound { node, socket } => node@ + " has no output socket "@ + decimal(socket as nat),
        NodeError::InputSocketNotFound { node, socket } => node@ + " has no input socket "@ + decimal(socket as nat),
        NodeError::SocketOccupied => "Socket is already occupied by another connection"@,
        NodeError::SocketTypeMismatch { from_node, from_socket, to_node, to_socket } => "Cannot connect "@ + from_node@
            + ":"@ + from_socket@ + " to "@ + to_node@ + ":"@ + to_socket@ + ", socket types differ"@,
        NodeError::NotConnected { from_node, from_socket, to_node, to_socket } => "No connection from "@ + node_id_text(
            from_node.0,
        ) + ":"@ + from_socket@ + " to "@ + node_id_text(to_node.0) + ":"@ + to_socket@,
        NodeError::InputNotConnected { node, socket, .. } => "\""@ + node@ + "\" input \""@ + socket@
            + "\" is not connected"@,
        NodeError::CyclicGraph => "Graph contains a cycle"@,
        NodeError::OutputNotAvailable { node } => "No output available to feed "@ + node@,
        NodeError::NodeNotEvaluated(id) => node_id_text(id.0) + " was not evaluated"@,
        NodeError::ProcessingFailed(msg) => msg@,
    }
}

impl NodeError {
    /// The text shown for this error.
    pub fn message(&self) -> (r: String)
        ensures
            r@ == error_message(*self),
    {
        match self {
            NodeError::NodeNotFound(id) => {
                let mut s = String::from_str("Unknown node id ");
                s.append(id_text(*id).as_str());
                s
            },
            NodeError::OutputSocketNotFound { node, socket } => {
                let mut s = node.clone();
                s.append(" has no output socket ");
                s.append(decimal_text(*socket).as_str());
                s
            },
            NodeError::InputSocketNotFound { node, socket } => {
                let mut s = node.clone();
                s.append(" has no input socket ");
                s.append(decimal_text(*socket).as_str());
                s
            },
            NodeError::SocketOccupied => String::from_str("Socket is already occupied by another connection"),
            NodeError::SocketTypeMismatch { from_node, from_socket, to_node, to_socket } => {
                let mut s = String::from_str("Cannot connect ");
                s.append(from_node.as_str());
                s.append(":");
                s.append(from_socket.as_str());
                s.append(" to ");
                s.append(to_node.as_str());
                s.append(":");
                s.append(to_socket.as_str());
                s.append(", socket types differ");
                s
            },
            NodeError::NotConnected { from_node, from_socket, to_node, to_socket } => {
                let mut s = String::from_str("No connection from ");
                s.append(id_text(*from_node).as_str());
                s.append(":");
                s.append(from_socket.as_str());
                s.append(" to ");
                s.append(id_text(*to_node).as_str());
                s.append(":");
                s.append(to_socket.as_str());
                s
            },
            NodeError::InputNotConnected { node, socket, .. } => {
                let mut s = String::from_str("\"");
                s.append(node.as_str());
                s.append("\" input \"");
                s.append(socket.as_str());
                s.append("\" is not connected");
                s
            },
            NodeError::CyclicGraph => String::from_str("Graph contains a cycle"),
            NodeError::OutputNotAvailable { node } => {
                let mut s = String::from_str("No output available to feed ");
                s.append(node.as_str());
                s
            },
            NodeError::NodeNotEvaluated(id) => {
                let mut s = id_text(*id);
                s.append(" was not evaluated");
                s
            },
            NodeError::ProcessingFailed(msg) => msg.clone(),
        }
    }
}

impl From<String> for NodeError {
    fn from(msg: String) -> (e: NodeError) {
        NodeError::ProcessingFailed(msg)
    }
}

impl vstd::std_specs::convert::FromSpecImpl<String> for NodeError {
    open spec fn obeys_from_spec() -> bool {
        true
    }

    open spec fn from_spec(v: String) -> NodeError {
        NodeError::ProcessingFailed(v)
    }
}

} // verus!
