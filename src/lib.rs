//! Approval management and transfer resolution for a multi-token ledger.
//!
//! [`MultiToken`] keeps, per token, its owner and balances, the approvals its
//! owner granted to spenders, a counter of those approvals and the next
//! approval id. Every operation keeps the approval counter equal to the number
//! of approvals, below [`MAX_APPROVALS_PER_TOKEN`], and every stored approval
//! id below the token's next id.
//!
//! Policies:
//! - an approval covers a spend of at most its amount (`approved amount >=
//!   queried amount`), and of its id when one is asked for;
//! - a transfer by a spender uses up its approval; when the transfer is undone
//!   the approval comes back under its original id, whole when all units came
//!   back and as the returned part otherwise;
//! - rejected requests change nothing; batch grants are all or nothing.
use vstd::prelude::*;

mod keyed;
pub mod ledger;
pub mod types;

pub use ledger::MultiToken;
pub use types::{
    Approval, ConsumedApproval, Grant, MtError, PendingTransfer, ReceiverOutcome, TokenApproval,
    MAX_APPROVALS_PER_TOKEN,
};
