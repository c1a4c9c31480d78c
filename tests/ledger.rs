use multi_token::ledger::{bytes_for_approved_account_id, storage_refund};
use multi_token::{Approval, MtError, MultiToken, ReceiverOutcome, MAX_APPROVALS_PER_TOKEN};

fn s(x: &str) -> String {
    x.to_string()
}

fn ledger_with(token: &str, owner: &str, supply: u128) -> MultiToken {
    let mut l = MultiToken::new();
    l.create_token(s(token), s(owner), supply).unwrap();
    l
}

#[test]
fn grant_then_is_approved_round_trip() {
    let mut l = ledger_with("gold", "alice", 500);
    let g = l.internal_approve(&s("alice"), &s("bob"), &s("gold"), 100).unwrap();
    assert!(l.is_approved(&s("gold"), &s("bob"), 100, None));
    assert!(!l.is_approved(&s("gold"), &s("bob"), 150, None));
    assert!(l.is_approved(&s("gold"), &s("bob"), 100, Some(g.approval.approval_id)));
    assert!(!l.is_approved(&s("gold"), &s("bob"), 100, Some(g.approval.approval_id + 1)));
    assert!(l.is_approved(&s("gold"), &s("bob"), 40, None));
    assert!(!l.is_approved(&s("gold"), &s("carol"), 1, None));
}

#[test]
fn scenario_partial_use_returns_remainder() {
    let mut l = ledger_with("gold", "owner", 100);
    let g = l.internal_approve(&s("owner"), &s("spender"), &s("gold"), 60).unwrap();
    assert_eq!(g.approval.approval_id, 0);
    let p = l
        .mt_transfer_call(&s("spender"), &s("receiver"), &s("gold"), 60, Some(0))
        .unwrap();
    assert_eq!(l.balance_of(&s("gold"), &s("owner")), 40);
    assert_eq!(l.balance_of(&s("gold"), &s("receiver")), 60);
    assert!(!l.is_approved(&s("gold"), &s("spender"), 1, None));
    let kept = l.mt_resolve_transfer(&p, ReceiverOutcome::Used(40));
    assert_eq!(kept, 40);
    assert_eq!(l.balance_of(&s("gold"), &s("receiver")), 40);
    assert_eq!(l.balance_of(&s("gold"), &s("owner")), 60);
    let ta = l.mt_token_approval(&s("gold"), &s("spender")).unwrap();
    assert_eq!(ta.approved_account_ids[0].1, Approval { amount: 20, approval_id: 0 });
}

#[test]
fn scenario_failed_call_rolls_back() {
    let mut l = ledger_with("gold", "owner", 100);
    l.internal_approve(&s("owner"), &s("spender"), &s("gold"), 60).unwrap();
    let p = l
        .mt_transfer_call(&s("spender"), &s("receiver"), &s("gold"), 60, None)
        .unwrap();
    let kept = l.mt_resolve_transfer(&p, ReceiverOutcome::CallFailed);
    assert_eq!(kept, 0);
    assert_eq!(l.balance_of(&s("gold"), &s("owner")), 100);
    assert_eq!(l.balance_of(&s("gold"), &s("receiver")), 0);
    let ta = l.mt_token_approval(&s("gold"), &s("spender")).unwrap();
    assert_eq!(ta.approved_account_ids[0].1, Approval { amount: 60, approval_id: 0 });
}

#[test]
fn scenario_grant_beyond_balance_fails() {
    let mut l = ledger_with("gold", "owner", 10);
    let r = l.internal_approve(&s("owner"), &s("spender"), &s("gold"), 20);
    assert_eq!(r, Err(MtError::InsufficientBalance));
    assert_eq!(l.mt_token_approval(&s("gold"), &s("spender")), Err(MtError::NotFound));
    assert!(l.mt_token_approvals(&s("gold"), 0, 10).is_empty());
}

#[test]
fn failed_receiver_keeps_everything() {
    let mut l = ledger_with("gold", "owner", 100);
    l.internal_approve(&s("owner"), &s("spender"), &s("gold"), 60).unwrap();
    let p = l
        .mt_transfer_call(&s("spender"), &s("receiver"), &s("gold"), 50, None)
        .unwrap();
    assert_eq!(l.mt_resolve_transfer(&p, ReceiverOutcome::ReceiverFailed), 50);
    assert_eq!(l.balance_of(&s("gold"), &s("owner")), 50);
    assert_eq!(l.balance_of(&s("gold"), &s("receiver")), 50);
    assert!(!l.is_approved(&s("gold"), &s("spender"), 1, None));
}

#[test]
fn owner_transfer_consumes_no_approval() {
    let mut l = ledger_with("gold", "owner", 100);
    let p = l.mt_transfer_call(&s("owner"), &s("receiver"), &s("gold"), 30, None).unwrap();
    assert!(p.approval.is_none());
    assert_eq!(l.mt_resolve_transfer(&p, ReceiverOutcome::Used(500)), 30);
    assert_eq!(l.balance_of(&s("gold"), &s("owner")), 70);
    assert_eq!(l.balance_of(&s("gold"), &s("receiver")), 30);
}

#[test]
fn transfer_errors() {
    let mut l = ledger_with("gold", "owner", 100);
    l.internal_approve(&s("owner"), &s("spender"), &s("gold"), 60).unwrap();
    assert_eq!(
        l.mt_transfer_call(&s("stranger"), &s("r"), &s("gold"), 10, None).unwrap_err(),
        MtError::Unauthorized
    );
    assert_eq!(
        l.mt_transfer_call(&s("spender"), &s("r"), &s("gold"), 61, None).unwrap_err(),
        MtError::ApprovalMismatch
    );
    assert_eq!(
        l.mt_transfer_call(&s("spender"), &s("r"), &s("gold"), 10, Some(7)).unwrap_err(),
        MtError::ApprovalMismatch
    );
    assert_eq!(
        l.mt_transfer_call(&s("owner"), &s("r"), &s("gold"), 101, None).unwrap_err(),
        MtError::InsufficientBalance
    );
    assert_eq!(
        l.mt_transfer_call(&s("owner"), &s("r"), &s("silver"), 1, None).unwrap_err(),
        MtError::NotFound
    );
    assert_eq!(l.balance_of(&s("gold"), &s("owner")), 100);
    assert!(l.is_approved(&s("gold"), &s("spender"), 60, Some(0)));
}

#[test]
fn transfer_of_whole_supply() {
    let mut l = ledger_with("gold", "owner", 10);
    l.create_token(s("big"), s("rich"), u128::MAX).unwrap();
    let p = l.mt_transfer_call(&s("rich"), &s("owner"), &s("big"), 5, None).unwrap();
    assert_eq!(p.amount, 5);
    assert_eq!(
        l.mt_transfer_call(&s("rich"), &s("owner"), &s("big"), u128::MAX - 4, None).unwrap_err(),
        MtError::InsufficientBalance
    );
    l.mt_transfer_call(&s("rich"), &s("owner"), &s("big"), u128::MAX - 5, None).unwrap();
    assert_eq!(l.balance_of(&s("big"), &s("owner")), u128::MAX);
    assert_eq!(l.balance_of(&s("big"), &s("rich")), 0);
    assert_eq!(l.balance_of(&s("gold"), &s("owner")), 10);
}

#[test]
fn approval_ids_increase_even_when_overwriting() {
    let mut l = ledger_with("gold", "alice", 100);
    let a = l.internal_approve(&s("alice"), &s("bob"), &s("gold"), 10).unwrap();
    let b = l.internal_approve(&s("alice"), &s("bob"), &s("gold"), 20).unwrap();
    let c = l.internal_approve(&s("alice"), &s("carol"), &s("gold"), 5).unwrap();
    assert_eq!(a.approval.approval_id, 0);
    assert_eq!(b.approval.approval_id, 1);
    assert_eq!(c.approval.approval_id, 2);
    assert_eq!(b.storage_bytes, 0);
    assert_eq!(l.mt_token_approvals(&s("gold"), 0, 10).len(), 2);
    let ta = l.mt_token_approval(&s("gold"), &s("bob")).unwrap();
    assert_eq!(ta.approval_owner_id, "alice");
    assert_eq!(ta.approved_account_ids[0].1, Approval { amount: 20, approval_id: 1 });
}

#[test]
fn grant_errors() {
    let mut l = ledger_with("gold", "alice", 100);
    assert_eq!(
        l.internal_approve(&s("bob"), &s("carol"), &s("gold"), 1),
        Err(MtError::Unauthorized)
    );
    assert_eq!(
        l.internal_approve(&s("alice"), &s("carol"), &s("silver"), 1),
        Err(MtError::NotFound)
    );
    assert_eq!(l.create_token(s("gold"), s("bob"), 1), Err(MtError::TokenExists));
}

#[test]
fn cap_refuses_the_last_spender() {
    let mut l = ledger_with("gold", "alice", 100);
    for i in 0..MAX_APPROVALS_PER_TOKEN - 1 {
        l.internal_approve(&s("alice"), &format!("spender{}", i), &s("gold"), 1).unwrap();
    }
    let page = l.mt_token_approvals(&s("gold"), 0, 1000);
    assert_eq!(page.len(), MAX_APPROVALS_PER_TOKEN - 1);
    let r = l.internal_approve(&s("alice"), &s("one_more"), &s("gold"), 1);
    assert_eq!(r, Err(MtError::ApprovalCapExceeded));
    assert_eq!(l.mt_token_approvals(&s("gold"), 0, 1000).len(), MAX_APPROVALS_PER_TOKEN - 1);
    assert!(!l.is_approved(&s("gold"), &s("one_more"), 1, None));
}

#[test]
fn revoke_absent_spender_is_noop() {
    let mut l = ledger_with("gold", "alice", 100);
    l.internal_approve(&s("alice"), &s("bob"), &s("gold"), 10).unwrap();
    assert_eq!(l.internal_revoke(&s("alice"), &s("gold"), &s("carol")), Ok(false));
    assert!(l.is_approved(&s("gold"), &s("bob"), 10, None));
    assert_eq!(l.internal_revoke(&s("bob"), &s("gold"), &s("bob")), Err(MtError::Unauthorized));
}

#[test]
fn revoke_last_spender_empties_token() {
    let mut l = ledger_with("gold", "alice", 100);
    l.internal_approve(&s("alice"), &s("bob"), &s("gold"), 10).unwrap();
    assert_eq!(l.internal_revoke(&s("alice"), &s("gold"), &s("bob")), Ok(true));
    assert!(l.mt_token_approvals(&s("gold"), 0, 10).is_empty());
    assert_eq!(l.mt_token_approval(&s("gold"), &s("bob")), Err(MtError::NotFound));
}

#[test]
fn batch_grant_is_all_or_nothing() {
    let mut l = ledger_with("gold", "alice", 100);
    l.create_token(s("silver"), s("bob"), 100).unwrap();
    let r = l.mt_approve(&s("alice"), &s("carol"), &vec![s("gold"), s("silver")], &vec![5, 5]);
    assert_eq!(r, Err(MtError::Unauthorized));
    assert!(!l.is_approved(&s("gold"), &s("carol"), 1, None));
    let g = l
        .mt_approve(&s("alice"), &s("carol"), &vec![s("gold"), s("gold")], &vec![5, 7])
        .unwrap();
    assert_eq!(g.len(), 2);
    assert_eq!(g[0].approval, Approval { amount: 5, approval_id: 0 });
    assert_eq!(g[1].approval, Approval { amount: 7, approval_id: 1 });
    assert_eq!(g[0].storage_bytes, 17);
    assert_eq!(g[1].storage_bytes, 0);
    assert!(l.mt_is_approved(&vec![s("gold")], &s("carol"), &vec![7], &Some(vec![1])));
    assert!(!l.mt_is_approved(&vec![s("gold"), s("silver")], &s("carol"), &vec![7, 1], &None));
}

#[test]
fn batch_revoke_and_revoke_all() {
    let mut l = ledger_with("gold", "alice", 100);
    l.create_token(s("silver"), s("alice"), 100).unwrap();
    l.mt_approve(&s("alice"), &s("bob"), &vec![s("gold"), s("silver")], &vec![1, 1]).unwrap();
    l.internal_approve(&s("alice"), &s("carol"), &s("gold"), 3).unwrap();
    let removed = l.mt_revoke(&s("alice"), &vec![s("gold"), s("silver"), s("gold")], &s("bob")).unwrap();
    assert_eq!(removed, vec![true, true, false]);
    assert!(l.is_approved(&s("gold"), &s("carol"), 3, None));
    assert!(l.mt_token_approvals(&s("silver"), 0, 10).is_empty());
    l.internal_approve(&s("alice"), &s("dave"), &s("gold"), 3).unwrap();
    assert_eq!(l.mt_revoke_all(&s("bob"), &vec![s("gold")]), Err(MtError::Unauthorized));
    let all = l.mt_revoke_all(&s("alice"), &vec![s("gold"), s("gold")]).unwrap();
    assert_eq!(all, vec![vec![s("carol"), s("dave")], vec![]]);
    assert!(l.mt_token_approvals(&s("gold"), 0, 10).is_empty());
    let gone = l.internal_revoke_all(&s("alice"), &s("silver")).unwrap();
    assert!(gone.is_empty());
}

#[test]
fn approval_pages_follow_storage_order() {
    let mut l = ledger_with("gold", "alice", 100);
    for name in ["a", "b", "c", "d"] {
        l.internal_approve(&s("alice"), &s(name), &s("gold"), 1).unwrap();
    }
    l.internal_revoke(&s("alice"), &s("gold"), &s("b")).unwrap();
    let page = l.mt_token_approvals(&s("gold"), 1, 2);
    assert_eq!(page.len(), 2);
    assert_eq!(page[0].approved_account_ids[0].0, "c");
    assert_eq!(page[1].approved_account_ids[0].0, "d");
    assert_eq!(page[1].approval_owner_id, "alice");
    assert!(l.mt_token_approvals(&s("gold"), 3, 2).is_empty());
    assert!(l.mt_token_approvals(&s("gold"), u128::MAX, u128::MAX).is_empty());
}

#[test]
fn storage_bytes_and_refund() {
    assert_eq!(bytes_for_approved_account_id(&s("bob.near")), 20);
    assert_eq!(bytes_for_approved_account_id(&s("")), 12);
    assert_eq!(storage_refund(20, 3, 100), Ok(40));
    assert_eq!(storage_refund(20, 3, 60), Ok(0));
    assert_eq!(storage_refund(20, 3, 59), Err(MtError::InsufficientDeposit));
    assert_eq!(storage_refund(u128::MAX, 2, u128::MAX), Err(MtError::InsufficientDeposit));
}

#[test]
fn oversized_report_counts_as_full_use() {
    let mut l = ledger_with("gold", "owner", 100);
    l.internal_approve(&s("owner"), &s("spender"), &s("gold"), 60).unwrap();
    let p = l.mt_transfer_call(&s("spender"), &s("recv"), &s("gold"), 60, None).unwrap();
    assert_eq!(
        l.mt_transfer_call(&s("recv"), &s("other"), &s("gold"), 50, None).unwrap_err(),
        MtError::Unauthorized
    );
    assert_eq!(l.mt_resolve_transfer(&p, ReceiverOutcome::Used(1000)), 60);
    assert_eq!(l.balance_of(&s("gold"), &s("recv")), 60);
    assert!(!l.is_approved(&s("gold"), &s("spender"), 1, None));
}

#[test]
fn unused_transfer_restores_consumed_approval() {
    let mut l = ledger_with("gold", "owner", 100);
    l.internal_approve(&s("owner"), &s("spender"), &s("gold"), 60).unwrap();
    let p = l.mt_transfer_call(&s("spender"), &s("recv"), &s("gold"), 30, None).unwrap();
    assert_eq!(l.mt_resolve_transfer(&p, ReceiverOutcome::Used(0)), 0);
    assert_eq!(l.balance_of(&s("gold"), &s("owner")), 100);
    assert!(l.is_approved(&s("gold"), &s("spender"), 60, Some(0)));
}

#[test]
fn newer_grant_is_not_overwritten_by_restore() {
    let mut l = ledger_with("gold", "owner", 100);
    l.internal_approve(&s("owner"), &s("spender"), &s("gold"), 60).unwrap();
    let p = l.mt_transfer_call(&s("spender"), &s("recv"), &s("gold"), 60, None).unwrap();
    l.internal_approve(&s("owner"), &s("spender"), &s("gold"), 5).unwrap();
    assert_eq!(l.mt_resolve_transfer(&p, ReceiverOutcome::CallFailed), 0);
    assert!(l.is_approved(&s("gold"), &s("spender"), 5, Some(1)));
    assert!(!l.is_approved(&s("gold"), &s("spender"), 6, None));
}
