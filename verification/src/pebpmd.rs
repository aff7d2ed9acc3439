//! Privacy-enhanced BPMD (PE-BPMD) annotations after name resolution.
use vstd::prelude::*;
use crate::ids::{LaneId, NodeId, PoolId, SdeId, TokenCoordinate};

verus! {

/// A resolved PE-BPMD block.
#[derive(Debug, Clone)]
pub struct PeBpmd {
    pub kind: PeBpmdType,
    pub meta: PeBpmdMeta,
}

/// The three kinds of PE-BPMD blocks.
#[derive(Debug, Clone)]
pub enum PeBpmdType {
    SecureChannel(SecureChannel),
    Tee(Tee),
    Mpc(Mpc),
}

/// The protection kind of a block together with the block's token coordinate.
pub open spec fn spec_protection(t: PeBpmdType) -> PeBpmdProtection {
    match t {
        PeBpmdType::SecureChannel(inner) => PeBpmdProtection::SecureChannel(inner.tc),
        PeBpmdType::Tee(inner) => PeBpmdProtection::Tee(inner.common.tc),
        PeBpmdType::Mpc(inner) => PeBpmdProtection::Mpc(inner.common.tc),
    }
}

impl PeBpmdType {
    /// The protection kind of this block, located at the block.
    pub fn protection(&self) -> (r: PeBpmdProtection)
        ensures
            r == spec_protection(*self),
    {
        match self {
            PeBpmdType::SecureChannel(inner) => PeBpmdProtection::SecureChannel(inner.tc),
            PeBpmdType::Tee(inner) => PeBpmdProtection::Tee(inner.common.tc),
            PeBpmdType::Mpc(inner) => PeBpmdProtection::Mpc(inner.common.tc),
        }
    }
}

/// A resolved `(secure-channel ...)` block.
#[derive(Debug, Clone)]
pub struct SecureChannel {
    pub sender: Option<(NodeId, TokenCoordinate)>,
    pub receiver: Option<(NodeId, TokenCoordinate)>,
    pub permitted_ids: Vec<(SdeId, TokenCoordinate)>,
    pub tc: TokenCoordinate,
}

/// A resolved `(tee ...)` block.
#[derive(Debug, Clone)]
pub struct Tee {
    pub common: ComputationCommon,
}

/// A resolved `(mpc ...)` block.
#[derive(Debug, Clone)]
pub struct Mpc {
    pub common: ComputationCommon,
}

/// The resolved attributes shared by TEE and MPC blocks.
#[derive(Debug, Clone)]
pub struct ComputationCommon {
    pub pebpmd_type: PeBpmdSubType,
    pub in_protect: Vec<Protection>,
    pub in_unprotect: Vec<Protection>,
    pub out_protect: Vec<Protection>,
    pub out_unprotect: Vec<Protection>,
    pub data_without_protection: Vec<(SdeId, TokenCoordinate)>,
    /// Recorded, but not read by any later phase yet.
    pub data_already_protected: Vec<(SdeId, TokenCoordinate)>,
    pub software_operators: Vec<PoolId>,
    pub hardware_operators: Vec<PoolId>,
    pub external_root_access: Vec<PoolId>,
    pub tc: TokenCoordinate,
}

/// What a TEE or MPC block is attached to.
#[derive(Debug, Clone)]
pub enum PeBpmdSubType {
    Pool(PoolId),
    Lane { pool_id: PoolId, lane_id: LaneId },
    Tasks(Vec<(NodeId, TokenCoordinate)>),
}

/// A resolved `(xxx-in-protect ...)` style annotation.
#[derive(Debug, Clone, Copy)]
pub struct Protection {
    pub node: NodeId,
    pub rv_source: Option<PoolId>,
    /// The whole `(tee-in-protect ...)` expression.
    pub tc: TokenCoordinate,
}

/// The protection kind that applies to a data element, located at its block.
#[derive(Debug, Clone, Copy, PartialEq, Eq, Structural, Hash)]
pub enum PeBpmdProtection {
    SecureChannel(TokenCoordinate),
    Tee(TokenCoordinate),
    Mpc(TokenCoordinate),
}

/// The token coordinate carried by any protection kind.
pub open spec fn spec_protection_tc(p: PeBpmdProtection) -> TokenCoordinate {
    match p {
        PeBpmdProtection::SecureChannel(tc) => tc,
        PeBpmdProtection::Tee(tc) => tc,
        PeBpmdProtection::Mpc(tc) => tc,
    }
}

impl PeBpmdProtection {
    /// Whether this is a secure channel protection.
    pub fn is_secure_channel(&self) -> (r: bool)
        ensures
            r == (*self is SecureChannel),
    {
        matches!(self, PeBpmdProtection::SecureChannel(..))
    }

    /// The token coordinate of the block.
    pub fn tc(&self) -> (r: TokenCoordinate)
        ensures
            r == spec_protection_tc(*self),
    {
        match self {
            PeBpmdProtection::SecureChannel(tc) => *tc,
            PeBpmdProtection::Tee(tc) => *tc,
            PeBpmdProtection::Mpc(tc) => *tc,
        }
    }

    /// The keyword of the protection kind, as used in the DSL and in diagnostics.
    pub fn to_string(&self) -> (r: String)
        ensures
            r@ == (match *self {
                PeBpmdProtection::Mpc(..) => "mpc"@,
                PeBpmdProtection::Tee(..) => "tee"@,
                PeBpmdProtection::SecureChannel(..) => "secure-channel"@,
            }),
    {
        match self {
            PeBpmdProtection::Mpc(..) => String::from_str("mpc"),
            PeBpmdProtection::Tee(..) => String::from_str("tee"),
            PeBpmdProtection::SecureChannel(..) => String::from_str("secure-channel"),
        }
    }
}

/// Presentation attributes of a PE-BPMD block.
#[derive(Debug, Clone)]
pub struct PeBpmdMeta {
    pub stroke_color: Option<String>,
    pub fill_color: Option<String>,
}

} // verus!
