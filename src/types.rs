use vstd::prelude::*;

verus! {

/// Most approvals a token may carry, plus one: an approval is refused when the
/// token already holds `MAX_APPROVALS_PER_TOKEN - 1` of them, so that revoking
/// them all stays within one unit of computation.
pub const MAX_APPROVALS_PER_TOKEN: usize = 99;

/// Bytes stored for an approval besides the account identifier: a four-byte
/// length prefix and the eight-byte approval id.
pub const APPROVAL_RECORD_OVERHEAD: u128 = 12;

/// Permission for a spender to move up to `amount` units, tagged `approval_id`.
#[derive(Clone, Copy, Debug, PartialEq, Eq, Structural)]
pub struct Approval {
    pub amount: u128,
    pub approval_id: u64,
}

/// The outcome of one successful grant: the stored approval and the number of
/// bytes newly stored for it (zero when an existing entry was overwritten).
#[derive(Clone, Copy, Debug, PartialEq, Eq, Structural)]
pub struct Grant {
    pub approval: Approval,
    pub storage_bytes: u128,
}

#[derive(Clone, Copy, Debug, PartialEq, Eq, Structural)]
pub enum MtError {
    /// The caller is not the owner the operation requires.
    Unauthorized,
    /// The account holds fewer units than the operation needs.
    InsufficientBalance,
    /// The attached deposit does not cover the storage used.
    InsufficientDeposit,
    /// The token already carries the largest number of approvals allowed.
    ApprovalCapExceeded,
    /// No such token, or no approval for that spender.
    NotFound,
    /// The spender's approval does not cover the amount or carries another id.
    ApprovalMismatch,
    /// The token's approval-id counter cannot advance any further.
    ApprovalIdOverflow,
    /// Crediting the account would exceed the largest representable balance.
    BalanceOverflow,
    /// A token with that id is already registered.
    TokenExists,
}

/// The approvals of one token as seen by one query: the token's owner and the
/// approved accounts with their approvals, in storage order.
#[derive(Clone, Debug, PartialEq, Eq)]
pub struct TokenApproval {
    pub approval_owner_id: String,
    pub approved_account_ids: Vec<(String, Approval)>,
}

/// The approval that a transfer by a spender used up, kept so that it can be
/// reinstated when the transfer is undone.
#[derive(Clone, Debug, PartialEq, Eq)]
pub struct ConsumedApproval {
    pub spender_id: String,
    pub approval_id: u64,
    pub amount: u128,
}

/// A transfer whose receiver has been notified and whose outcome is awaited:
/// `amount` units of `token_id` have moved from `sender_id`, the token's owner,
/// to `receiver_id`.
#[derive(Clone, Debug, PartialEq, Eq)]
pub struct PendingTransfer {
    pub sender_id: String,
    pub receiver_id: String,
    pub token_id: String,
    pub amount: u128,
    pub approval: Option<ConsumedApproval>,
}

/// How the receiver's acknowledgment settled.
#[derive(Clone, Copy, Debug, PartialEq, Eq, Structural)]
pub enum ReceiverOutcome {
    /// The receiver reports how many of the units it used.
    Used(u128),
    /// The receiver's own execution failed: the transfer stands as made.
    ReceiverFailed,
    /// The acknowledgment call did not execute: the transfer is undone.
    CallFailed,
}

} // verus!
