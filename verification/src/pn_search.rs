//! Nodes for proof-number search over and/or trees.

use vstd::prelude::*;

verus! {

#[derive(Copy, Clone, Debug, PartialEq, Eq, Structural)]
pub enum ProofNumber {
    Infinity,
    Finite(u32),
}

#[derive(Copy, Clone, Debug, PartialEq, Eq, Structural)]
pub enum NodeValue {
    True,
    False,
    Unknown,
}

#[derive(Copy, Clone, Debug, PartialEq, Eq, Structural)]
pub enum NodeType {
    And,
    Or,
}

/// A node of the and/or search tree, carrying its kind, its current value,
/// its proof and disproof numbers, and client data.
pub struct Node<T> {
    pub is_type: NodeType,
    pub value: NodeValue,
    pub proof_number: ProofNumber,
    pub disproof_number: ProofNumber,
    pub data: T,
}

impl<T> Node<T> {
    /// A leaf whose value is not yet known: proving and disproving each take
    /// one step.
    pub fn create_unknown_leaf(is_type: NodeType, data: T) -> (r: Node<T>)
        ensures
            r.is_type == is_type,
            r.value == NodeValue::Unknown,
            r.proof_number == ProofNumber::Finite(1u32),
            r.disproof_number == ProofNumber::Finite(1u32),
    {
        Node {
            is_type,
            value: NodeValue::Unknown,
            proof_number: ProofNumber::Finite(1),
            disproof_number: ProofNumber::Finite(1),
            data,
        }
    }

    /// A leaf known true: proved at no cost, disprovable at none.
    pub fn create_true_leaf(is_type: NodeType, data: T) -> (r: Node<T>)
        ensures
            r.is_type == is_type,
            r.value == NodeValue::True,
            r.proof_number == ProofNumber::Finite(0u32),
            r.disproof_number == ProofNumber::Infinity,
    {
        Node {
            is_type,
            value: NodeValue::True,
            proof_number: ProofNumber::Finite(0),
            disproof_number: ProofNumber::Infinity,
            data,
        }
    }

    /// A leaf known false: unprovable, disproved at no cost.
    pub fn create_false_leaf(is_type: NodeType, data: T) -> (r: Node<T>)
        ensures
            r.is_type == is_type,
            r.value == NodeValue::False,
            r.proof_number == ProofNumber::Infinity,
            r.disproof_number == ProofNumber::Finite(0u32),
    {
        Node {
            is_type,
            value: NodeValue::False,
            proof_number: ProofNumber::Infinity,
            disproof_number: ProofNumber::Finite(0),
            data,
        }
    }
}

} // verus!
