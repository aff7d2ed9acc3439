//! The statement-level records that the lexer hands to the parser, as far as the verified
//! parts of the parser read them.
use vstd::prelude::*;
use crate::ids::TokenCoordinate;
use crate::pebpmd::PeBpmdMeta;

verus! {

/// The event marker as written in the source (`~catch`, `~send`, ... or nothing).
#[derive(Debug, Clone, Copy, PartialEq, Eq, Structural)]
pub enum EventVisual {
    Unspecified,
    Receive,
    Catch,
    Send,
    Throw,
}

/// A `(xxx-in-protect @node @rv-pool)` style annotation as written in the source.
#[derive(Debug, Clone)]
pub struct Protection {
    pub node: String,
    pub rv: Option<String>,
    pub tc: TokenCoordinate,
}

/// What a TEE or MPC block is attached to, as written in the source.
#[derive(Debug, Clone)]
pub enum PeBpmdSubType {
    Pool(String, TokenCoordinate),
    Lane(String, TokenCoordinate),
    Tasks(Vec<(String, TokenCoordinate)>),
}

/// The attributes shared by TEE and MPC blocks, as written in the source.
#[derive(Debug, Clone)]
pub struct ComputationCommon {
    pub pebpmd_type: PeBpmdSubType,
    pub in_protect: Vec<Protection>,
    pub in_unprotect: Vec<Protection>,
    pub out_protect: Vec<Protection>,
    pub out_unprotect: Vec<Protection>,
    pub data_without_protection: Vec<(String, TokenCoordinate)>,
    pub data_already_protected: Vec<(String, TokenCoordinate)>,
    pub software_operators: Vec<(String, TokenCoordinate)>,
    pub hardware_operators: Vec<(String, TokenCoordinate)>,
    pub external_root_access: Vec<(String, TokenCoordinate)>,
    pub tc: TokenCoordinate,
}

/// A `(secure-channel ...)` block as written in the source.
#[derive(Debug, Clone)]
pub struct SecureChannel {
    pub sender: Option<(String, TokenCoordinate)>,
    pub receiver: Option<(String, TokenCoordinate)>,
    pub argument_ids: Vec<(String, TokenCoordinate)>,
    pub tc: TokenCoordinate,
}

/// A `(tee ...)` block as written in the source.
#[derive(Debug, Clone)]
pub struct Tee {
    pub common: ComputationCommon,
}

/// A `(mpc ...)` block as written in the source.
#[derive(Debug, Clone)]
pub struct Mpc {
    pub common: ComputationCommon,
}

/// The kind of a PE-BPMD block as written in the source.
#[derive(Debug, Clone)]
pub enum PeBpmdType {
    SecureChannel(SecureChannel),
    Tee(Tee),
    Mpc(Mpc),
}

/// A PE-BPMD block as written in the source.
#[derive(Debug, Clone)]
pub struct PeBpmd {
    pub kind: PeBpmdType,
    pub meta: PeBpmdMeta,
}

/// Whether `c` may stand in a label or an identifier without being replaced: ASCII letters and
/// digits, `_` and `-`.
pub open spec fn spec_is_allowed_symbol_in_label_or_id(c: char) -> bool {
    ('a' <= c && c <= 'z') || ('A' <= c && c <= 'Z') || ('0' <= c && c <= '9') || c == '_' || c == '-'
}

/// Executable form of [`spec_is_allowed_symbol_in_label_or_id`].
pub fn is_allowed_symbol_in_label_or_id(c: char) -> (r: bool)
    ensures
        r == spec_is_allowed_symbol_in_label_or_id(c),
{
    ('a' <= c && c <= 'z') || ('A' <= c && c <= 'Z') || ('0' <= c && c <= '9') || c == '_' || c == '-'
}

} // verus!
