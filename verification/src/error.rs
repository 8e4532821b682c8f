//! Errors of tree operations.
use vstd::prelude::*;

use crate::node::{NodeId, id_to_key};

verus! {

/// Errors that can occur when manipulating a tree.
#[derive(Debug)]
pub enum TreeError {
    /// Moving the first node next to the second would create a cycle.
    Cycle(NodeId, NodeId),
    /// The requested parent node does not exist.
    MissingParent(NodeId),
    /// The node cannot be the target of the operation.
    InvalidTarget(NodeId),
    /// The operation is not supported.
    UnsupportedOperation(String),
    /// The id cannot be used for a node.
    InvalidId(String),
    /// The document does not hold a well-formed tree.
    BadYrsDoc(String),
    /// The tree was poisoned by a malformed document; the message says why.
    TreePoisoned(String),
}

/// The text of an error, as shown to users.
pub open spec fn describe(e: TreeError) -> Seq<char> {
    match e {
        TreeError::Cycle(child, parent) => "Operation would create a cycle: "@ + id_to_key(child@)
            + " -> "@ + id_to_key(parent@),
        TreeError::MissingParent(parent) => "Requested parent node does not exist: "@ + id_to_key(
            parent@,
        ),
        TreeError::InvalidTarget(target) => "Invalid target: "@ + id_to_key(target@),
        TreeError::UnsupportedOperation(op) => "Unsupported operation: "@ + op@,
        TreeError::InvalidId(id) => "Invalid ID: "@ + id@,
        TreeError::BadYrsDoc(msg) => "Malformed Yrs document: "@ + msg@,
        TreeError::TreePoisoned(msg) => "Tree is poisoned: "@ + msg@,
    }
}

/// The debugging form of an error: the variant's name and its contents.
pub open spec fn debug_form(e: TreeError) -> Seq<char> {
    match e {
        TreeError::Cycle(child, parent) => "Cycle("@ + id_to_key(child@) + " -> "@ + id_to_key(
            parent@,
        ) + ")"@,
        TreeError::MissingParent(parent) => "MissingParent("@ + id_to_key(parent@) + ")"@,
        TreeError::InvalidTarget(target) => "InvalidTarget("@ + id_to_key(target@) + ")"@,
        TreeError::UnsupportedOperation(op) => "UnsupportedOperation("@ + op@ + ")"@,
        TreeError::InvalidId(id) => "InvalidId("@ + id@ + ")"@,
        TreeError::BadYrsDoc(msg) => "BadYrsDoc("@ + msg@ + ")"@,
        TreeError::TreePoisoned(msg) => "TreePoisoned("@ + msg@ + ")"@,
    }
}

fn joined(a: &str, b: &str) -> (r: String)
    ensures
        r@ == a@ + b@,
{
    let mut s = a.to_owned();
    s.append(b);
    s
}

impl TreeError {
    /// The text of the error (see `describe`).
    pub fn message(&self) -> (r: String)
        ensures
            r@ == describe(*self),
    {
        match self {
            TreeError::Cycle(child, parent) => {
                let mut s = joined("Operation would create a cycle: ", child.to_string().as_str());
                s.append(" -> ");
                s.append(parent.to_string().as_str());
                s
            },
            TreeError::MissingParent(parent) => joined(
                "Requested parent node does not exist: ",
                parent.to_string().as_str(),
            ),
            TreeError::InvalidTarget(target) => joined("Invalid target: ", target.to_string().as_str()),
            TreeError::UnsupportedOperation(op) => joined("Unsupported operation: ", op.as_str()),
            TreeError::InvalidId(id) => joined("Invalid ID: ", id.as_str()),
            TreeError::BadYrsDoc(msg) => joined("Malformed Yrs document: ", msg.as_str()),
            TreeError::TreePoisoned(msg) => joined("Tree is poisoned: ", msg.as_str()),
        }
    }

    /// The debugging form of the error (see `debug_form`).
    pub fn debug_string(&self) -> (r: String)
        ensures
            r@ == debug_form(*self),
    {
        let (mut s, tail) = match self {
            TreeError::Cycle(child, parent) => {
                let mut s = joined("Cycle(", child.to_string().as_str());
                s.append(" -> ");
                (s, parent.to_string())
            },
            TreeError::MissingParent(parent) => ("MissingParent(".to_owned(), parent.to_string()),
            TreeError::InvalidTarget(target) => ("InvalidTarget(".to_owned(), target.to_string()),
            TreeError::UnsupportedOperation(op) => ("UnsupportedOperation(".to_owned(), op.clone()),
            TreeError::InvalidId(id) => ("InvalidId(".to_owned(), id.clone()),
            TreeError::BadYrsDoc(msg) => ("BadYrsDoc(".to_owned(), msg.clone()),
            TreeError::TreePoisoned(msg) => ("TreePoisoned(".to_owned(), msg.clone()),
        };
        s.append(tail.as_str());
        s.append(")");
        s
    }
}

} // verus!
