use vstd::prelude::*;

use crate::keyed::KeyedVec;
use crate::types::{
    Approval, ConsumedApproval, Grant, MtError, PendingTransfer, ReceiverOutcome, TokenApproval, APPROVAL_RECORD_OVERHEAD,
    MAX_APPROVALS_PER_TOKEN,
};

verus! {

/// Bytes that an approval for account `a` occupies in storage.
pub open spec fn account_record_bytes(a: Seq<char>) -> nat {
    (vstd::utf8::encode_utf8(a).len() as usize) as nat + APPROVAL_RECORD_OVERHEAD as nat
}

/// Bytes that an approval for `account_id` occupies in storage.
pub fn bytes_for_approved_account_id(account_id: &String) -> (r: u128)
    ensures
        r as nat == account_record_bytes(account_id@),
{
    let n = account_id.as_str().len();
    n as u128 + APPROVAL_RECORD_OVERHEAD
}

/// Approvals `m` after `s` lost its approval on token `t`; a token left
/// without approvals is dropped.
pub open spec fn without_spender(
    m: Map<Seq<char>, Map<Seq<char>, Approval>>,
    t: Seq<char>,
    s: Seq<char>,
) -> Map<Seq<char>, Map<Seq<char>, Approval>> {
    if !m.contains_key(t) || !m[t].contains_key(s) {
        m
    } else if m[t].len() == 1 {
        m.remove(t)
    } else {
        m.insert(t, m[t].remove(s))
    }
}

/// Approvals `m` after `s` lost its approval on each token of `ts` in turn.
pub open spec fn without_spender_all(
    m: Map<Seq<char>, Map<Seq<char>, Approval>>,
    ts: Seq<Seq<char>>,
    s: Seq<char>,
) -> Map<Seq<char>, Map<Seq<char>, Approval>>
    decreases ts.len(),
{
    if ts.len() == 0 {
        m
    } else {
        without_spender(without_spender_all(m, ts.drop_last(), s), ts.last(), s)
    }
}

/// The approvals of token `t` in `m` (none when `t` has no entry).
pub open spec fn approvals_in(
    m: Map<Seq<char>, Map<Seq<char>, Approval>>,
    t: Seq<char>,
) -> Map<Seq<char>, Approval> {
    if m.contains_key(t) {
        m[t]
    } else {
        Map::empty()
    }
}

/// What a grant of `amount` on token `t` by `caller` yields, given the owners,
/// the balances, the approvals and the approval-id counters: the new approval,
/// or the first precondition that fails. The cap is checked before anything
/// else may change: a token holding `MAX_APPROVALS_PER_TOKEN - 1` approvals
/// takes no grant.
pub open spec fn grant_rule(
    owners: Map<Seq<char>, Seq<char>>,
    balances: Map<Seq<char>, Map<Seq<char>, u128>>,
    approvals: Map<Seq<char>, Map<Seq<char>, Approval>>,
    next_ids: Map<Seq<char>, u64>,
    caller: Seq<char>,
    t: Seq<char>,
    amount: u128,
) -> Result<Approval, MtError> {
    let next_id = if next_ids.contains_key(t) {
        next_ids[t]
    } else {
        0
    };
    let balance = if balances.contains_key(t) && balances[t].contains_key(caller) {
        balances[t][caller]
    } else {
        0
    };
    if !owners.contains_key(t) {
        Err(MtError::NotFound)
    } else if owners[t] != caller {
        Err(MtError::Unauthorized)
    } else if balance < amount {
        Err(MtError::InsufficientBalance)
    } else if approvals_in(approvals, t).len() + 1 >= MAX_APPROVALS_PER_TOKEN {
        Err(MtError::ApprovalCapExceeded)
    } else if next_id == u64::MAX {
        Err(MtError::ApprovalIdOverflow)
    } else {
        Ok(Approval { amount, approval_id: next_id })
    }
}

/// The grants of `amounts[i]` on `ts[i]` to `spender`, applied in order: the
/// approvals and counters after all of them and the grants made, or the
/// error of the first that fails.
pub open spec fn grant_all(
    owners: Map<Seq<char>, Seq<char>>,
    balances: Map<Seq<char>, Map<Seq<char>, u128>>,
    approvals: Map<Seq<char>, Map<Seq<char>, Approval>>,
    next_ids: Map<Seq<char>, u64>,
    caller: Seq<char>,
    spender: Seq<char>,
    ts: Seq<Seq<char>>,
    amounts: Seq<u128>,
) -> Result<(Map<Seq<char>, Map<Seq<char>, Approval>>, Map<Seq<char>, u64>, Seq<Grant>), MtError>
    decreases ts.len(),
{
    if ts.len() == 0 || amounts.len() != ts.len() {
        Ok((approvals, next_ids, Seq::empty()))
    } else {
        match grant_all(
            owners,
            balances,
            approvals,
            next_ids,
            caller,
            spender,
            ts.drop_last(),
            amounts.drop_last(),
        ) {
            Err(e) => Err(e),
            Ok((ap, nx, done)) => {
                let t = ts.last();
                match grant_rule(owners, balances, ap, nx, caller, t, amounts.last()) {
                    Err(e) => Err(e),
                    Ok(a) => {
                        let bytes: u128 = if approvals_in(ap, t).contains_key(spender) {
                            0
                        } else {
                            account_record_bytes(spender) as u128
                        };
                        Ok(
                            (
                                ap.insert(t, approvals_in(ap, t).insert(spender, a)),
                                nx.insert(t, (a.approval_id + 1) as u64),
                                done.push(Grant { approval: a, storage_bytes: bytes }),
                            ),
                        )
                    },
                }
            },
        }
    }
}

/// The identifiers held by `v`, as sequences of characters.
pub open spec fn ids_view(v: Seq<String>) -> Seq<Seq<char>> {
    Seq::new(v.len(), |i: int| v[i]@)
}

/// A grant on a prefix that fails is the outcome of the whole sequence.
pub proof fn lemma_grant_all_prefix(
    owners: Map<Seq<char>, Seq<char>>,
    balances: Map<Seq<char>, Map<Seq<char>, u128>>,
    approvals: Map<Seq<char>, Map<Seq<char>, Approval>>,
    next_ids: Map<Seq<char>, u64>,
    caller: Seq<char>,
    spender: Seq<char>,
    ts: Seq<Seq<char>>,
    amounts: Seq<u128>,
    n: int,
)
    requires
        0 <= n <= ts.len(),
        amounts.len() == ts.len(),
        grant_all(owners, balances, approvals, next_ids, caller, spender, ts.take(n), amounts.take(n)) is Err,
    ensures
        grant_all(owners, balances, approvals, next_ids, caller, spender, ts, amounts) == grant_all(
            owners,
            balances,
            approvals,
            next_ids,
            caller,
            spender,
            ts.take(n),
            amounts.take(n),
        ),
    decreases ts.len() - n,
{
    if n < ts.len() {
        assert(ts.take(n + 1).drop_last() =~= ts.take(n));
        assert(amounts.take(n + 1).drop_last() =~= amounts.take(n));
        lemma_grant_all_prefix(owners, balances, approvals, next_ids, caller, spender, ts, amounts, n + 1);
    } else {
        assert(ts.take(n) =~= ts);
        assert(amounts.take(n) =~= amounts);
    }
}

/// An entry-for-entry copy of a table of approval sets.
fn copy_approvals(src: &KeyedVec<KeyedVec<Approval>>) -> (r: KeyedVec<KeyedVec<Approval>>)
    requires
        src.wf(),
        forall|t: Seq<char>| #[trigger] src@.contains_key(t) ==> src@[t].wf(),
    ensures
        r.wf(),
        r@.dom() == src@.dom(),
        forall|t: Seq<char>| #[trigger]
            r@.contains_key(t) ==> r@[t].wf() && r@[t]@ == src@[t]@ && r@[t].keys() == src@[t].keys(),
{
    let mut r: KeyedVec<KeyedVec<Approval>> = KeyedVec::new();
    let mut i: usize = 0;
    while i < src.len()
        invariant
            src.wf(),
            forall|t: Seq<char>| #[trigger] src@.contains_key(t) ==> src@[t].wf(),
            i <= src.keys().len(),
            r.wf(),
            forall|t: Seq<char>| #[trigger]
                r@.contains_key(t) ==> src@.contains_key(t) && r@[t].wf() && r@[t]@ == src@[t]@
                    && r@[t].keys() == src@[t].keys(),
            forall|j: int| 0 <= j < i ==> r@.contains_key(#[trigger] src.keys()[j]),
        decreases src.keys().len() - i,
    {
        let (k, v) = src.get_at(i);
        let c = v.copy();
        r.insert(k.clone(), c);
        i = i + 1;
    }
    proof {
        assert forall|t: Seq<char>| src@.contains_key(t) implies r@.contains_key(t) by {
            let j = choose|j: int| 0 <= j < src.entries@.len() && #[trigger] src.key_at(j) == t;
            assert(src.keys()[j] == t);
        }
        assert(r@.dom() =~= src@.dom());
    }
    r
}

/// First position of a page that asks for `from` in a sequence of `n`.
pub open spec fn page_start(n: nat, from: u128) -> int {
    if from < n {
        from as int
    } else {
        n as int
    }
}

/// End of a page of at most `limit` from `from` in a sequence of `n`.
pub open spec fn page_end(n: nat, from: u128, limit: u128) -> int {
    if limit < n - page_start(n, from) {
        page_start(n, from) + limit
    } else {
        n as int
    }
}

/// The balance of `a` in `table` (zero when absent).
pub open spec fn balance_in(table: Map<Seq<char>, u128>, a: Seq<char>) -> u128 {
    if table.contains_key(a) {
        table[a]
    } else {
        0
    }
}

/// The balance table `table` after `amount` units moved from `from` to `to`.
pub open spec fn moved(table: Map<Seq<char>, u128>, from: Seq<char>, to: Seq<char>, amount: u128) -> Map<
    Seq<char>,
    u128,
> {
    if from == to {
        table
    } else {
        table.insert(from, (balance_in(table, from) - amount) as u128).insert(
            to,
            (balance_in(table, to) + amount) as u128,
        )
    }
}

/// How many of the `amount` transferred units the receiver keeps by its own
/// account: a report above `amount` counts as `amount`, a failed receiver
/// keeps all, and a call that did not execute keeps none.
pub open spec fn used_of(amount: u128, outcome: ReceiverOutcome) -> u128 {
    match outcome {
        ReceiverOutcome::Used(u) => if u < amount {
            u
        } else {
            amount
        },
        ReceiverOutcome::ReceiverFailed => amount,
        ReceiverOutcome::CallFailed => 0,
    }
}

/// Settles the storage that a grant used against the attached deposit: the
/// cost is `storage_bytes * byte_cost`, and what is left of `attached` goes
/// back to the caller.
pub fn storage_refund(storage_bytes: u128, byte_cost: u128, attached: u128) -> (r: Result<
    u128,
    MtError,
>)
    ensures
        storage_bytes * byte_cost <= attached ==> r == Ok::<u128, MtError>(
            (attached - storage_bytes * byte_cost) as u128,
        ),
        storage_bytes * byte_cost > attached ==> r == Err::<u128, MtError>(MtError::InsufficientDeposit),
{
    match storage_bytes.checked_mul(byte_cost) {
        Some(cost) => if cost <= attached {
            Ok(attached - cost)
        } else {
            Err(MtError::InsufficientDeposit)
        },
        None => Err(MtError::InsufficientDeposit),
    }
}

/// The ledger: token owners and balances, and per token the approved spenders,
/// the number of approvals, and the next approval id.
pub struct MultiToken {
    owner_by_id: KeyedVec<String>,
    balances_per_token: KeyedVec<KeyedVec<u128>>,
    approvals_by_id: KeyedVec<KeyedVec<Approval>>,
    approvals_number_by_id: KeyedVec<usize>,
    next_approval_id_by_id: KeyedVec<u64>,
}

impl MultiToken {
    /// Owner of each registered token.
    pub closed spec fn owners(&self) -> Map<Seq<char>, Seq<char>> {
        Map::new(|t: Seq<char>| self.owner_by_id@.contains_key(t), |t: Seq<char>| self.owner_by_id@[t]@)
    }

    /// Balance tables of the registered tokens.
    pub closed spec fn balances(&self) -> Map<Seq<char>, Map<Seq<char>, u128>> {
        Map::new(
            |t: Seq<char>| self.balances_per_token@.contains_key(t),
            |t: Seq<char>| self.balances_per_token@[t]@,
        )
    }

    /// Approved spenders of each token that has at least one.
    pub closed spec fn approvals(&self) -> Map<Seq<char>, Map<Seq<char>, Approval>> {
        Map::new(
            |t: Seq<char>| self.approvals_by_id@.contains_key(t),
            |t: Seq<char>| self.approvals_by_id@[t]@,
        )
    }

    /// The stored approval counters.
    pub closed spec fn approval_counts(&self) -> Map<Seq<char>, usize> {
        self.approvals_number_by_id@
    }

    /// The stored approval-id counters.
    pub closed spec fn next_ids(&self) -> Map<Seq<char>, u64> {
        self.next_approval_id_by_id@
    }

    /// The spenders of token `t` in storage order.
    pub closed spec fn approval_order(&self, t: Seq<char>) -> Seq<Seq<char>> {
        if self.approvals_by_id@.contains_key(t) {
            self.approvals_by_id@[t].keys()
        } else {
            Seq::empty()
        }
    }

    pub open spec fn balance(&self, t: Seq<char>, a: Seq<char>) -> u128 {
        if self.balances().contains_key(t) && self.balances()[t].contains_key(a) {
            self.balances()[t][a]
        } else {
            0
        }
    }

    pub open spec fn approvals_of(&self, t: Seq<char>) -> Map<Seq<char>, Approval> {
        if self.approvals().contains_key(t) {
            self.approvals()[t]
        } else {
            Map::empty()
        }
    }

    pub open spec fn count_of(&self, t: Seq<char>) -> nat {
        if self.approval_counts().contains_key(t) {
            self.approval_counts()[t] as nat
        } else {
            0
        }
    }

    pub open spec fn next_id_of(&self, t: Seq<char>) -> u64 {
        if self.next_ids().contains_key(t) {
            self.next_ids()[t]
        } else {
            0
        }
    }

    /// The invariants of the approval ledger: the counter of each token equals
    /// the number of its approvals and stays under the cap, and every stored
    /// approval id is below the token's next id.
    pub open spec fn consistent(&self) -> bool {
        &&& forall|t: Seq<char>| #[trigger] self.count_of(t) == self.approvals_of(t).len()
        &&& forall|t: Seq<char>| #[trigger] self.count_of(t) < MAX_APPROVALS_PER_TOKEN
        &&& forall|t: Seq<char>, s: Seq<char>|
            #[trigger] self.approvals_of(t).contains_key(s) ==> self.approvals_of(t)[s].approval_id
                < self.next_id_of(t)
    }

    pub closed spec fn wf(&self) -> bool {
        &&& self.owner_by_id.wf()
        &&& self.balances_per_token.wf()
        &&& self.approvals_by_id.wf()
        &&& self.approvals_number_by_id.wf()
        &&& self.next_approval_id_by_id.wf()
        &&& forall|t: Seq<char>| #[trigger]
            self.balances_per_token@.contains_key(t) ==> self.balances_per_token@[t].wf()
        &&& forall|t: Seq<char>| #[trigger]
            self.approvals_by_id@.contains_key(t) ==> self.approvals_by_id@[t].wf()
                && self.approvals_by_id@[t]@.len() > 0 && self.owner_by_id@.contains_key(t)
        &&& forall|t: Seq<char>| #[trigger]
            self.owner_by_id@.contains_key(t) ==> self.balances_per_token@.contains_key(t)
        &&& self.consistent()
    }

    /// Every well-formed ledger keeps the approval invariants.
    pub proof fn lemma_consistent(&self)
        requires
            self.wf(),
        ensures
            self.consistent(),
    {
    }

    proof fn lemma_consistent_frame(a: &Self, b: &Self)
        requires
            a.consistent(),
            a.approvals() == b.approvals(),
            a.approval_counts() == b.approval_counts(),
            a.next_ids() == b.next_ids(),
        ensures
            b.consistent(),
    {
        assert forall|t: Seq<char>| #[trigger] b.count_of(t) == b.approvals_of(t).len() && b.count_of(
            t,
        ) < MAX_APPROVALS_PER_TOKEN by {
            assert(a.count_of(t) == a.approvals_of(t).len());
        }
        assert forall|t: Seq<char>, s: Seq<char>| #[trigger]
            b.approvals_of(t).contains_key(s) implies b.approvals_of(t)[s].approval_id
            < b.next_id_of(t) by {
            assert(a.approvals_of(t).contains_key(s));
        }
    }

    /// What a grant of `amount` on token `t` by `caller` yields: the new
    /// approval, or the first precondition that fails.
    pub open spec fn grant_check(&self, caller: Seq<char>, t: Seq<char>, amount: u128) -> Result<
        Approval,
        MtError,
    > {
        grant_rule(self.owners(), self.balances(), self.approvals(), self.next_ids(), caller, t, amount)
    }

    /// The state after a grant of `a` to `spender` on `t` succeeded.
    pub open spec fn granted(
        &self,
        next: &Self,
        spender: Seq<char>,
        t: Seq<char>,
        a: Approval,
    ) -> bool {
        let added: nat = if self.approvals_of(t).contains_key(spender) {
            0
        } else {
            1
        };
        &&& next.owners() == self.owners()
        &&& next.balances() == self.balances()
        &&& next.approvals() == self.approvals().insert(t, self.approvals_of(t).insert(spender, a))
        &&& next.approval_counts() == self.approval_counts().insert(
            t,
            (self.count_of(t) + added) as usize,
        )
        &&& next.next_ids() == self.next_ids().insert(t, (a.approval_id + 1) as u64)
        &&& next.approval_order(t) == if added == 0 {
            self.approval_order(t)
        } else {
            self.approval_order(t).push(spender)
        }
        &&& forall|u: Seq<char>| u != t ==> #[trigger] next.approval_order(u) == self.approval_order(u)
    }

    pub fn new() -> (r: Self)
        ensures
            r.wf(),
            r.owners() == Map::<Seq<char>, Seq<char>>::empty(),
            r.balances() == Map::<Seq<char>, Map<Seq<char>, u128>>::empty(),
            r.approvals() == Map::<Seq<char>, Map<Seq<char>, Approval>>::empty(),
            r.approval_counts() == Map::<Seq<char>, usize>::empty(),
            r.next_ids() == Map::<Seq<char>, u64>::empty(),
    {
        let r = MultiToken {
            owner_by_id: KeyedVec::new(),
            balances_per_token: KeyedVec::new(),
            approvals_by_id: KeyedVec::new(),
            approvals_number_by_id: KeyedVec::new(),
            next_approval_id_by_id: KeyedVec::new(),
        };
        assert(r.owners() =~= Map::empty());
        assert(r.balances() =~= Map::empty());
        assert(r.approvals() =~= Map::empty());
        r
    }

    /// Registers token `token_id` owned by `owner_id`, who holds all of `supply`.
    pub fn create_token(&mut self, token_id: String, owner_id: String, supply: u128) -> (r: Result<
        (),
        MtError,
    >)
        requires
            old(self).wf(),
        ensures
            final(self).wf(),
            match r {
                Ok(()) => {
                    &&& !old(self).owners().contains_key(token_id@)
                    &&& final(self).owners() == old(self).owners().insert(token_id@, owner_id@)
                    &&& final(self).balances() == old(self).balances().insert(
                        token_id@,
                        Map::empty().insert(owner_id@, supply),
                    )
                    &&& final(self).approvals() == old(self).approvals()
                    &&& final(self).approval_counts() == old(self).approval_counts()
                    &&& final(self).next_ids() == old(self).next_ids()
                    &&& forall|u: Seq<char>| #[trigger]
                        final(self).approval_order(u) == old(self).approval_order(u)
                },
                Err(e) => e == MtError::TokenExists && old(self).owners().contains_key(token_id@)
                    && *final(self) == *old(self),
            },
    {
        if self.owner_by_id.index_of(&token_id).is_some() {
            return Err(MtError::TokenExists);
        }
        let ghost tv = token_id@;
        let mut table: KeyedVec<u128> = KeyedVec::new();
        table.insert(owner_id.clone(), supply);
        self.owner_by_id.insert(token_id.clone(), owner_id);
        self.balances_per_token.insert(token_id, table);
        proof {
            assert(self.owners() =~= old(self).owners().insert(tv, self.owner_by_id@[tv]@));
            assert(self.balances() =~= old(self).balances().insert(tv, table@));
            assert(self.approvals() =~= old(self).approvals());
            Self::lemma_consistent_frame(old(self), self);
        }
        Ok(())
    }

    /// Balance of `account_id` in token `token_id` (zero when either is unknown).
    pub fn balance_of(&self, token_id: &String, account_id: &String) -> (r: u128)
        requires
            self.wf(),
        ensures
            r == self.balance(token_id@, account_id@),
    {
        match self.balances_per_token.get(token_id) {
            Some(table) => match table.get(account_id) {
                Some(b) => *b,
                None => 0,
            },
            None => 0,
        }
    }

    /// Owner of token `token_id`, if registered.
    pub fn token_owner(&self, token_id: &String) -> (r: Option<String>)
        requires
            self.wf(),
        ensures
            match r {
                Some(o) => self.owners().contains_key(token_id@) && o@ == self.owners()[token_id@],
                None => !self.owners().contains_key(token_id@),
            },
    {
        match self.owner_by_id.get(token_id) {
            Some(o) => Some(o.clone()),
            None => None,
        }
    }

    fn count_for(&self, token_id: &String) -> (r: usize)
        requires
            self.wf(),
        ensures
            r == self.count_of(token_id@),
    {
        match self.approvals_number_by_id.get(token_id) {
            Some(n) => *n,
            None => 0,
        }
    }

    fn next_id_for(&self, token_id: &String) -> (r: u64)
        requires
            self.wf(),
        ensures
            r == self.next_id_of(token_id@),
    {
        match self.next_approval_id_by_id.get(token_id) {
            Some(n) => *n,
            None => 0,
        }
    }

    /// Grants `spender` an approval of `amount` units of `token_id`, which
    /// `caller` must own. Re-approving a spender overwrites its entry; every
    /// grant takes the token's next approval id and advances it.
    pub fn internal_approve(
        &mut self,
        caller: &String,
        spender: &String,
        token_id: &String,
        amount: u128,
    ) -> (r: Result<Grant, MtError>)
        requires
            old(self).wf(),
        ensures
            final(self).wf(),
            match old(self).grant_check(caller@, token_id@, amount) {
                Ok(a) => r is Ok && r->Ok_0.approval == a && r->Ok_0.storage_bytes as nat == if old(
                    self,
                ).approvals_of(token_id@).contains_key(spender@) {
                    0
                } else {
                    account_record_bytes(spender@)
                } && old(self).granted(final(self), spender@, token_id@, a),
                Err(e) => r == Err::<Grant, MtError>(e) && *final(self) == *old(self),
            },
    {
        let owner = match self.owner_by_id.get(token_id) {
            Some(o) => o,
            None => return Err(MtError::NotFound),
        };
        if *owner != *caller {
            return Err(MtError::Unauthorized);
        }
        if self.balance_of(token_id, caller) < amount {
            return Err(MtError::InsufficientBalance);
        }
        let count = self.count_for(token_id);
        proof {
            assert(self.count_of(token_id@) < MAX_APPROVALS_PER_TOKEN);
        }
        if count + 1 >= MAX_APPROVALS_PER_TOKEN {
            return Err(MtError::ApprovalCapExceeded);
        }
        let id = self.next_id_for(token_id);
        if id == u64::MAX {
            return Err(MtError::ApprovalIdOverflow);
        }
        let approval = Approval { amount, approval_id: id };
        let ghost t = token_id@;
        self.next_approval_id_by_id.insert(token_id.clone(), id + 1);
        proof {
            let o = old(self);
            assert forall|u: Seq<char>, s: Seq<char>| #[trigger]
                self.approvals_of(u).contains_key(s) implies self.approvals_of(u)[s].approval_id
                < self.next_id_of(u) by {
                assert(o.approvals_of(u).contains_key(s));
            }
            assert(self.approvals() =~= o.approvals());
            assert forall|u: Seq<char>| #[trigger] self.count_of(u) == self.approvals_of(u).len()
                && self.count_of(u) < MAX_APPROVALS_PER_TOKEN by {
                assert(o.count_of(u) == o.approvals_of(u).len());
            }
            assert(self.count_of(t) + 1 < MAX_APPROVALS_PER_TOKEN);
        }
        let existed = self.put_approval(token_id, spender, approval);
        let storage_bytes = if existed {
            0
        } else {
            bytes_for_approved_account_id(spender)
        };
        Ok(Grant { approval, storage_bytes })
    }

    /// Whether `caller` may manage the approvals of token `t`.
    pub open spec fn owner_check(&self, caller: Seq<char>, t: Seq<char>) -> Result<(), MtError> {
        if !self.owners().contains_key(t) {
            Err(MtError::NotFound)
        } else if self.owners()[t] != caller {
            Err(MtError::Unauthorized)
        } else {
            Ok(())
        }
    }

    /// The result of checking `caller` against every token of `ts`: the
    /// error of the first token that fails, if any.
    pub open spec fn owner_check_all(&self, caller: Seq<char>, ts: Seq<Seq<char>>) -> Result<
        (),
        MtError,
    >
        decreases ts.len(),
    {
        if ts.len() == 0 {
            Ok(())
        } else {
            match self.owner_check_all(caller, ts.drop_last()) {
                Ok(()) => self.owner_check(caller, ts.last()),
                Err(e) => Err(e),
            }
        }
    }

    fn check_owner(&self, caller: &String, token_id: &String) -> (r: Result<(), MtError>)
        requires
            self.wf(),
        ensures
            r == self.owner_check(caller@, token_id@),
    {
        match self.owner_by_id.get(token_id) {
            Some(o) => if *o == *caller {
                Ok(())
            } else {
                Err(MtError::Unauthorized)
            },
            None => Err(MtError::NotFound),
        }
    }

    fn check_owner_all(&self, caller: &String, token_ids: &Vec<String>) -> (r: Result<(), MtError>)
        requires
            self.wf(),
        ensures
            r == self.owner_check_all(caller@, ids_view(token_ids@)),
    {
        let mut i: usize = 0;
        while i < token_ids.len()
            invariant
                self.wf(),
                i <= token_ids@.len(),
                self.owner_check_all(caller@, ids_view(token_ids@).take(i as int)) == Ok::<
                    (),
                    MtError,
                >(()),
            decreases token_ids@.len() - i,
        {
            let c = self.check_owner(caller, &token_ids[i]);
            proof {
                assert(ids_view(token_ids@).take(i + 1).drop_last() =~= ids_view(token_ids@).take(
                    i as int,
                ));
            }
            if c.is_err() {
                proof {
                    self.lemma_owner_check_prefix(caller@, ids_view(token_ids@), i + 1);
                }
                return c;
            }
            i = i + 1;
        }
        proof {
            assert(ids_view(token_ids@).take(i as int) =~= ids_view(token_ids@));
        }
        Ok(())
    }

    /// A failure on a prefix of `ts` is the failure of the whole of `ts`.
    proof fn lemma_owner_check_prefix(&self, caller: Seq<char>, ts: Seq<Seq<char>>, n: int)
        requires
            0 <= n <= ts.len(),
            self.owner_check_all(caller, ts.take(n)) is Err,
        ensures
            self.owner_check_all(caller, ts) == self.owner_check_all(caller, ts.take(n)),
        decreases ts.len() - n,
    {
        if n < ts.len() {
            assert(ts.take(n + 1).drop_last() =~= ts.take(n));
            self.lemma_owner_check_prefix(caller, ts, n + 1);
        } else {
            assert(ts.take(n) =~= ts);
        }
    }

    /// Removes the approval of `spender` on `token_id`, which `caller` must
    /// own, and tells whether there was one. A spender without an approval
    /// leaves the ledger as it was.
    pub fn internal_revoke(&mut self, caller: &String, token_id: &String, spender: &String) -> (r:
        Result<bool, MtError>)
        requires
            old(self).wf(),
        ensures
            final(self).wf(),
            match old(self).owner_check(caller@, token_id@) {
                Ok(()) => r == Ok::<bool, MtError>(
                    old(self).approvals_of(token_id@).contains_key(spender@),
                ) && old(self).revoked(final(self), token_id@, spender@),
                Err(e) => r == Err::<bool, MtError>(e) && *final(self) == *old(self),
            },
    {
        let c = self.check_owner(caller, token_id);
        if c.is_err() {
            return Err(c.unwrap_err());
        }
        let removed = self.remove_approval(token_id, spender);
        Ok(removed)
    }

    /// The state after `spender` lost its approval on `t`.
    pub open spec fn revoked(&self, next: &Self, t: Seq<char>, spender: Seq<char>) -> bool {
        &&& next.owners() == self.owners()
        &&& next.balances() == self.balances()
        &&& next.next_ids() == self.next_ids()
        &&& next.approvals() == without_spender(self.approvals(), t, spender)
        &&& forall|u: Seq<char>| u != t ==> #[trigger] next.approval_order(u) == self.approval_order(u)
        &&& !self.approvals_of(t).contains_key(spender) ==> *next == *self
        &&& self.approvals_of(t).contains_key(spender) ==> exists|i: int|
            0 <= i < self.approval_order(t).len() && self.approval_order(t)[i] == spender
                && next.approval_order(t) == self.approval_order(t).remove(i)
    }

    fn remove_approval(&mut self, token_id: &String, spender: &String) -> (r: bool)
        requires
            old(self).wf(),
        ensures
            final(self).wf(),
            r == old(self).approvals_of(token_id@).contains_key(spender@),
            old(self).revoked(final(self), token_id@, spender@),
    {
        let ghost t = token_id@;
        let ghost sp = spender@;
        match self.approvals_by_id.get(token_id) {
            None => return false,
            Some(set) => if set.index_of(spender).is_none() {
                return false;
            },
        }
        let count = self.count_for(token_id);
        let ghost old_set = old(self).approvals_of(t);
        let mut set = match self.approvals_by_id.remove(token_id) {
            Some(s) => s,
            None => KeyedVec::new(),
        };
        let ghost old_keys = set.keys();
        set.remove(spender);
        let ghost new_set = set@;
        let ghost new_keys = set.keys();
        proof {
            assert(new_set == old_set.remove(sp));
            assert(old_set.dom().contains(sp));
            assert(new_set.len() == old_set.len() - 1);
        }
        if set.len() > 0 {
            self.approvals_by_id.insert(token_id.clone(), set);
        }
        self.approvals_number_by_id.insert(token_id.clone(), count - 1);
        proof {
            let o = old(self);
            assert(o.count_of(t) == old_set.len());
            assert(self.owners() =~= o.owners());
            assert(self.balances() =~= o.balances());
            assert(old_keys == o.approval_order(t));
            let i = choose|i: int|
                0 <= i < old_keys.len() && old_keys[i] == sp && new_keys == old_keys.remove(i);
            if new_set.len() == 0 {
                assert(self.approvals() =~= o.approvals().remove(t));
                assert(self.approval_order(t) =~= old_keys.remove(i));
            } else {
                assert(self.approvals() =~= o.approvals().insert(t, new_set));
            }
            assert forall|u: Seq<char>| u != t implies #[trigger] self.approval_order(u)
                == o.approval_order(u) by {}
            assert forall|u: Seq<char>| #[trigger]
                self.approvals_by_id@.contains_key(u) implies self.approvals_by_id@[u].wf()
                && self.approvals_by_id@[u]@.len() > 0 && self.owner_by_id@.contains_key(u) by {
                if u != t {
                    assert(o.approvals_by_id@.contains_key(u));
                }
            }
            assert forall|u: Seq<char>| #[trigger] self.count_of(u) == self.approvals_of(u).len()
                && self.count_of(u) < MAX_APPROVALS_PER_TOKEN by {
                if u != t {
                    assert(o.count_of(u) == o.approvals_of(u).len());
                } else {
                    assert(o.count_of(u) < MAX_APPROVALS_PER_TOKEN);
                    if new_set.len() == 0 {
                        assert(self.approvals_of(u) =~= Map::empty());
                    }
                }
            }
            assert forall|u: Seq<char>, s: Seq<char>| #[trigger]
                self.approvals_of(u).contains_key(s) implies self.approvals_of(u)[s].approval_id
                < self.next_id_of(u) by {
                assert(o.approvals_of(u).contains_key(s));
            }
        }
        true
    }

    /// Grants `spender` the approvals `amounts[i]` on `token_ids[i]`, in order.
    /// Either every grant succeeds or the ledger is left as it was and the
    /// first error is returned.
    pub fn mt_approve(
        &mut self,
        caller: &String,
        spender: &String,
        token_ids: &Vec<String>,
        amounts: &Vec<u128>,
    ) -> (r: Result<Vec<Grant>, MtError>)
        requires
            old(self).wf(),
            token_ids@.len() == amounts@.len(),
        ensures
            final(self).wf(),
            final(self).owners() == old(self).owners(),
            final(self).balances() == old(self).balances(),
            match grant_all(
                old(self).owners(),
                old(self).balances(),
                old(self).approvals(),
                old(self).next_ids(),
                caller@,
                spender@,
                ids_view(token_ids@),
                amounts@,
            ) {
                Ok((ap, nx, grants)) => r is Ok && r->Ok_0@ == grants && final(self).approvals() == ap
                    && final(self).next_ids() == nx,
                Err(e) => r == Err::<Vec<Grant>, MtError>(e) && final(self).approvals()
                    == old(self).approvals() && final(self).next_ids() == old(self).next_ids()
                    && final(self).approval_counts() == old(self).approval_counts() && forall|
                    u: Seq<char>,
                | #[trigger] final(self).approval_order(u) == old(self).approval_order(u),
            },
    {
        let saved_approvals = copy_approvals(&self.approvals_by_id);
        let saved_numbers = self.approvals_number_by_id.copy();
        let saved_next = self.next_approval_id_by_id.copy();
        let ghost ts = ids_view(token_ids@);
        let ghost o = *old(self);
        let mut grants: Vec<Grant> = Vec::new();
        let mut i: usize = 0;
        while i < token_ids.len()
            invariant
                self.wf(),
                o == *old(self),
                o.wf(),
                token_ids@.len() == amounts@.len(),
                ts == ids_view(token_ids@),
                i <= token_ids@.len(),
                self.owners() == o.owners(),
                self.balances() == o.balances(),
                saved_numbers.wf(),
                saved_numbers@ == o.approvals_number_by_id@,
                saved_next.wf(),
                saved_next@ == o.next_approval_id_by_id@,
                saved_approvals.wf(),
                saved_approvals@.dom() == o.approvals_by_id@.dom(),
                forall|t: Seq<char>| #[trigger]
                    saved_approvals@.contains_key(t) ==> saved_approvals@[t].wf()
                        && saved_approvals@[t]@ == o.approvals_by_id@[t]@
                        && saved_approvals@[t].keys() == o.approvals_by_id@[t].keys(),
                grant_all(
                    o.owners(),
                    o.balances(),
                    o.approvals(),
                    o.next_ids(),
                    caller@,
                    spender@,
                    ts.take(i as int),
                    amounts@.take(i as int),
                ) == Ok::<_, MtError>((self.approvals(), self.next_ids(), grants@)),
            decreases token_ids@.len() - i,
        {
            proof {
                assert(ts.take(i + 1).drop_last() =~= ts.take(i as int));
                assert(amounts@.take(i + 1).drop_last() =~= amounts@.take(i as int));
                assert(ts.take(i + 1).last() == token_ids@[i as int]@);
            }
            match self.internal_approve(caller, spender, &token_ids[i], amounts[i]) {
                Ok(g) => {
                    grants.push(g);
                    proof {
                        assert(self.approvals_of(ts[i as int]) == approvals_in(self.approvals(), ts[i as int]));
                    }
                },
                Err(e) => {
                    proof {
                        lemma_grant_all_prefix(
                            o.owners(),
                            o.balances(),
                            o.approvals(),
                            o.next_ids(),
                            caller@,
                            spender@,
                            ts,
                            amounts@,
                            i + 1,
                        );
                    }
                    self.approvals_by_id = saved_approvals;
                    self.approvals_number_by_id = saved_numbers;
                    self.next_approval_id_by_id = saved_next;
                    proof {
                        assert(self.approvals() =~= o.approvals());
                        assert(self.owners() =~= o.owners());
                        assert(self.balances() =~= o.balances());
                        Self::lemma_consistent_frame(&o, self);
                        assert forall|u: Seq<char>| #[trigger]
                            self.approvals_by_id@.contains_key(u) implies self.approvals_by_id@[u].wf()
                            && self.approvals_by_id@[u]@.len() > 0 && self.owner_by_id@.contains_key(
                            u,
                        ) by {
                            assert(o.approvals_by_id@.contains_key(u));
                            assert(o.owners().contains_key(u));
                            assert(self.owners().contains_key(u));
                        }
                        assert forall|u: Seq<char>| #[trigger]
                            self.approval_order(u) == o.approval_order(u) by {}
                    }
                    return Err(e);
                },
            }
            i = i + 1;
        }
        proof {
            assert(ts.take(i as int) =~= ts);
            assert(amounts@.take(i as int) =~= amounts@);
        }
        Ok(grants)
    }

    /// Removes the approvals of `spender` on each of `token_ids`, all of which
    /// `caller` must own; tells for each whether an approval was removed. The
    /// ownership of every token is checked before anything changes.
    pub fn mt_revoke(&mut self, caller: &String, token_ids: &Vec<String>, spender: &String) -> (r:
        Result<Vec<bool>, MtError>)
        requires
            old(self).wf(),
        ensures
            final(self).wf(),
            match old(self).owner_check_all(caller@, ids_view(token_ids@)) {
                Ok(()) => r is Ok && r->Ok_0@.len() == token_ids@.len() && (forall|i: int|
                    0 <= i < token_ids@.len() ==> #[trigger] r->Ok_0@[i] == approvals_in(
                        without_spender_all(old(self).approvals(), ids_view(token_ids@).take(i), spender@),
                        token_ids@[i]@,
                    ).contains_key(spender@)) && final(self).approvals()
                    == without_spender_all(old(self).approvals(), ids_view(token_ids@), spender@)
                    && final(self).owners() == old(self).owners() && final(self).balances()
                    == old(self).balances() && final(self).next_ids() == old(self).next_ids(),
                Err(e) => r == Err::<Vec<bool>, MtError>(e) && *final(self) == *old(self),
            },
    {
        let c = self.check_owner_all(caller, token_ids);
        if c.is_err() {
            return Err(c.unwrap_err());
        }
        let ghost ts = ids_view(token_ids@);
        let mut removed: Vec<bool> = Vec::new();
        let mut i: usize = 0;
        while i < token_ids.len()
            invariant
                self.wf(),
                ts == ids_view(token_ids@),
                i <= token_ids@.len(),
                removed@.len() == i,
                self.approvals() == without_spender_all(old(self).approvals(), ts.take(i as int), spender@),
                forall|j: int|
                    0 <= j < i ==> #[trigger] removed@[j] == approvals_in(
                        without_spender_all(old(self).approvals(), ts.take(j), spender@),
                        ts[j],
                    ).contains_key(spender@),
                self.owners() == old(self).owners(),
                self.balances() == old(self).balances(),
                self.next_ids() == old(self).next_ids(),
            decreases token_ids@.len() - i,
        {
            proof {
                assert(ts.take(i + 1).drop_last() =~= ts.take(i as int));
            }
            let b = self.remove_approval(&token_ids[i], spender);
            removed.push(b);
            i = i + 1;
        }
        proof {
            assert(ts.take(i as int) =~= ts);
            assert forall|j: int| 0 <= j < token_ids@.len() implies ts.take(j) == ids_view(
                token_ids@,
            ).take(j) && ts[j] == token_ids@[j]@ by {}
        }
        Ok(removed)
    }

    /// Removes every approval on `token_id`, which `caller` must own, and
    /// returns the spenders that lost one, in storage order.
    pub fn internal_revoke_all(&mut self, caller: &String, token_id: &String) -> (r: Result<
        Vec<String>,
        MtError,
    >)
        requires
            old(self).wf(),
        ensures
            final(self).wf(),
            match old(self).owner_check(caller@, token_id@) {
                Ok(()) => r is Ok && ids_view(r->Ok_0@) == old(self).approval_order(token_id@)
                    && final(self).approvals() == old(self).approvals().remove(token_id@)
                    && final(self).owners() == old(self).owners() && final(self).balances()
                    == old(self).balances() && final(self).next_ids() == old(self).next_ids()
                    && forall|u: Seq<char>|
                    u != token_id@ ==> #[trigger] final(self).approval_order(u)
                        == old(self).approval_order(u),
                Err(e) => r == Err::<Vec<String>, MtError>(e) && *final(self) == *old(self),
            },
    {
        let c = self.check_owner(caller, token_id);
        if c.is_err() {
            return Err(c.unwrap_err());
        }
        let removed = self.clear_approvals(token_id);
        Ok(removed)
    }

    fn clear_approvals(&mut self, token_id: &String) -> (r: Vec<String>)
        requires
            old(self).wf(),
        ensures
            final(self).wf(),
            ids_view(r@) == old(self).approval_order(token_id@),
            final(self).approvals() == old(self).approvals().remove(token_id@),
            final(self).owners() == old(self).owners(),
            final(self).balances() == old(self).balances(),
            final(self).next_ids() == old(self).next_ids(),
            forall|u: Seq<char>|
                u != token_id@ ==> #[trigger] final(self).approval_order(u) == old(self).approval_order(u),
    {
        let ghost t = token_id@;
        let mut spenders: Vec<String> = Vec::new();
        match self.approvals_by_id.remove(token_id) {
            Some(set) => {
                let mut i: usize = 0;
                while i < set.len()
                    invariant
                        set.wf(),
                        i <= set.keys().len(),
                        spenders@.len() == i,
                        ids_view(spenders@) == set.keys().take(i as int),
                    decreases set.keys().len() - i,
                {
                    let (k, _) = set.get_at(i);
                    let ghost prev = spenders@;
                    let kc = k.clone();
                    spenders.push(kc);
                    proof {
                        assert(spenders@ == prev.push(kc));
                        assert(kc@ == set.keys()[i as int]);
                        assert(ids_view(spenders@).len() == i + 1);
                        assert forall|j: int| 0 <= j < i + 1 implies ids_view(spenders@)[j]
                            == set.keys().take(i + 1)[j] by {
                            if j < i {
                                assert(ids_view(prev)[j] == set.keys().take(i as int)[j]);
                                assert(spenders@[j] == prev[j]);
                            } else {
                                assert(spenders@[j] == kc);
                            }
                        }
                        assert(ids_view(spenders@) =~= set.keys().take(i + 1));
                    }
                    i = i + 1;
                }
                proof {
                    assert(set.keys().take(i as int) =~= set.keys());
                }
                self.approvals_number_by_id.insert(token_id.clone(), 0);
            },
            None => {
                proof {
                    assert(ids_view(spenders@) =~= Seq::<Seq<char>>::empty());
                }
            },
        }
        proof {
            let o = old(self);
            assert(self.approvals() =~= o.approvals().remove(t));
            assert(self.owners() =~= o.owners());
            assert(self.balances() =~= o.balances());
            assert forall|u: Seq<char>| u != t implies #[trigger] self.approval_order(u)
                == o.approval_order(u) by {}
            assert forall|u: Seq<char>| #[trigger]
                self.approvals_by_id@.contains_key(u) implies self.approvals_by_id@[u].wf()
                && self.approvals_by_id@[u]@.len() > 0 && self.owner_by_id@.contains_key(u) by {
                assert(o.approvals_by_id@.contains_key(u));
            }
            assert forall|u: Seq<char>| #[trigger] self.count_of(u) == self.approvals_of(u).len()
                && self.count_of(u) < MAX_APPROVALS_PER_TOKEN by {
                if u != t {
                    assert(o.count_of(u) == o.approvals_of(u).len());
                } else {
                    assert(self.approvals_of(u) =~= Map::empty());
                    assert(o.count_of(u) == o.approvals_of(u).len());
                }
            }
            assert forall|u: Seq<char>, s: Seq<char>| #[trigger]
                self.approvals_of(u).contains_key(s) implies self.approvals_of(u)[s].approval_id
                < self.next_id_of(u) by {
                assert(o.approvals_of(u).contains_key(s));
            }
        }
        spenders
    }

    /// Removes every approval on each of `token_ids`, all of which `caller`
    /// must own; returns for each token the spenders that lost an approval.
    /// The ownership of every token is checked before anything changes.
    pub fn mt_revoke_all(&mut self, caller: &String, token_ids: &Vec<String>) -> (r: Result<
        Vec<Vec<String>>,
        MtError,
    >)
        requires
            old(self).wf(),
        ensures
            final(self).wf(),
            match old(self).owner_check_all(caller@, ids_view(token_ids@)) {
                Ok(()) => r is Ok && r->Ok_0@.len() == token_ids@.len() && final(self).approvals()
                    == old(self).approvals().remove_keys(ids_view(token_ids@).to_set())
                    && final(self).owners() == old(self).owners() && final(self).balances()
                    == old(self).balances() && final(self).next_ids() == old(self).next_ids()
                    && forall|i: int|
                    0 <= i < token_ids@.len() ==> ids_view(#[trigger] r->Ok_0@[i]@) == if ids_view(
                        token_ids@,
                    ).take(i).contains(token_ids@[i]@) {
                        Seq::<Seq<char>>::empty()
                    } else {
                        old(self).approval_order(token_ids@[i]@)
                    },
                Err(e) => r == Err::<Vec<Vec<String>>, MtError>(e) && *final(self) == *old(self),
            },
    {
        let c = self.check_owner_all(caller, token_ids);
        if c.is_err() {
            return Err(c.unwrap_err());
        }
        let ghost ts = ids_view(token_ids@);
        let mut removed: Vec<Vec<String>> = Vec::new();
        let mut i: usize = 0;
        while i < token_ids.len()
            invariant
                self.wf(),
                ts == ids_view(token_ids@),
                i <= token_ids@.len(),
                removed@.len() == i,
                self.approvals() == old(self).approvals().remove_keys(ts.take(i as int).to_set()),
                forall|u: Seq<char>|
                    !ts.take(i as int).contains(u) ==> #[trigger] self.approval_order(u)
                        == old(self).approval_order(u),
                forall|u: Seq<char>|
                    ts.take(i as int).contains(u) ==> #[trigger] self.approval_order(u)
                        == Seq::<Seq<char>>::empty(),
                forall|j: int|
                    0 <= j < i ==> ids_view(#[trigger] removed@[j]@) == if ts.take(j).contains(
                        ts[j],
                    ) {
                        Seq::<Seq<char>>::empty()
                    } else {
                        old(self).approval_order(ts[j])
                    },
                self.owners() == old(self).owners(),
                self.balances() == old(self).balances(),
                self.next_ids() == old(self).next_ids(),
            decreases token_ids@.len() - i,
        {
            let ghost t = ts[i as int];
            let spenders = self.clear_approvals(&token_ids[i]);
            proof {
                assert(ts.take(i + 1) =~= ts.take(i as int).push(t));
                assert(ts.take(i + 1).to_set() =~= ts.take(i as int).to_set().insert(t)) by {
                    assert forall|u: Seq<char>| ts.take(i + 1).to_set().contains(u) <==> ts.take(
                        i as int,
                    ).to_set().insert(t).contains(u) by {
                        if ts.take(i + 1).contains(u) && u != t {
                            let k = choose|k: int| 0 <= k < i + 1 && #[trigger] ts.take(i + 1)[k] == u;
                            assert(ts.take(i as int)[k] == u);
                        }
                        if ts.take(i as int).contains(u) {
                            let k = choose|k: int| 0 <= k < i && #[trigger] ts.take(i as int)[k] == u;
                            assert(ts.take(i + 1)[k] == u);
                        }
                        if u == t {
                            assert(ts.take(i + 1)[i as int] == u);
                        }
                    }
                }
                assert(self.approvals() =~= old(self).approvals().remove_keys(
                    ts.take(i + 1).to_set(),
                ));
                assert forall|u: Seq<char>| ts.take(i + 1).contains(u) implies #[trigger]
                    self.approval_order(u) == Seq::<Seq<char>>::empty() by {
                    assert(ts.take(i + 1).to_set().contains(u));
                    if u != t {
                        assert(ts.take(i as int).to_set().contains(u));
                    } else {
                        assert(!self.approvals().contains_key(u));
                    }
                }
                assert forall|u: Seq<char>| !ts.take(i + 1).contains(u) implies #[trigger]
                    self.approval_order(u) == old(self).approval_order(u) by {
                    assert(!ts.take(i + 1).to_set().contains(u));
                    assert(!ts.take(i as int).to_set().contains(u));
                    assert(u != t);
                }
                assert(ids_view(spenders@) == if ts.take(i as int).contains(t) {
                    Seq::<Seq<char>>::empty()
                } else {
                    old(self).approval_order(t)
                });
            }
            removed.push(spenders);
            proof {
                assert forall|j: int| 0 <= j < i + 1 implies ids_view(#[trigger] removed@[j]@) == if ts.take(
                    j,
                ).contains(ts[j]) {
                    Seq::<Seq<char>>::empty()
                } else {
                    old(self).approval_order(ts[j])
                } by {}
            }
            i = i + 1;
        }
        proof {
            assert(ts.take(i as int) =~= ts);
            assert forall|j: int| 0 <= j < token_ids@.len() implies ts.take(j) == ids_view(
                token_ids@,
            ).take(j) && ts[j] == token_ids@[j]@ by {}
        }
        Ok(removed)
    }

    /// Whether `s` may move `amount` units of token `t`: its approval covers at
    /// least `amount`, and carries the id `id` when one is given.
    pub open spec fn approved(&self, t: Seq<char>, s: Seq<char>, amount: u128, id: Option<u64>) -> bool {
        &&& self.approvals_of(t).contains_key(s)
        &&& self.approvals_of(t)[s].amount >= amount
        &&& (id matches Some(i) ==> self.approvals_of(t)[s].approval_id == i)
    }

    /// Whether `spender` may move `amount` units of `token_id` (see `approved`).
    pub fn is_approved(
        &self,
        token_id: &String,
        spender: &String,
        amount: u128,
        approval_id: Option<u64>,
    ) -> (r: bool)
        requires
            self.wf(),
        ensures
            r == self.approved(token_id@, spender@, amount, approval_id),
    {
        match self.approvals_by_id.get(token_id) {
            None => false,
            Some(set) => match set.get(spender) {
                None => false,
                Some(a) => a.amount >= amount && match approval_id {
                    Some(id) => a.approval_id == id,
                    None => true,
                },
            },
        }
    }

    /// Whether `spender` may move `amounts[i]` units of `token_ids[i]` for
    /// every `i`, each with the id `approval_ids[i]` when ids are given.
    pub fn mt_is_approved(
        &self,
        token_ids: &Vec<String>,
        spender: &String,
        amounts: &Vec<u128>,
        approval_ids: &Option<Vec<u64>>,
    ) -> (r: bool)
        requires
            self.wf(),
            amounts@.len() == token_ids@.len(),
            approval_ids matches Some(ids) ==> ids@.len() == token_ids@.len(),
        ensures
            r == forall|i: int|
                0 <= i < token_ids@.len() ==> self.approved(
                    #[trigger] token_ids@[i]@,
                    spender@,
                    amounts@[i],
                    match approval_ids {
                        Some(ids) => Some(ids@[i]),
                        None => None,
                    },
                ),
    {
        let mut i: usize = 0;
        while i < token_ids.len()
            invariant
                self.wf(),
                i <= token_ids@.len(),
                amounts@.len() == token_ids@.len(),
                approval_ids matches Some(ids) ==> ids@.len() == token_ids@.len(),
                forall|j: int|
                    0 <= j < i ==> self.approved(
                        #[trigger] token_ids@[j]@,
                        spender@,
                        amounts@[j],
                        match approval_ids {
                            Some(ids) => Some(ids@[j]),
                            None => None,
                        },
                    ),
            decreases token_ids@.len() - i,
        {
            let id = match approval_ids {
                Some(ids) => Some(ids[i]),
                None => None,
            };
            if !self.is_approved(&token_ids[i], spender, amounts[i], id) {
                return false;
            }
            i = i + 1;
        }
        true
    }

    /// The approval of `account_id` on `token_id`, with the token's owner.
    pub fn mt_token_approval(&self, token_id: &String, account_id: &String) -> (r: Result<
        TokenApproval,
        MtError,
    >)
        requires
            self.wf(),
        ensures
            match r {
                Ok(ta) => self.reports(token_id@, ta, account_id@),
                Err(e) => e == MtError::NotFound && !self.approvals_of(token_id@).contains_key(
                    account_id@,
                ),
            },
    {
        let set = match self.approvals_by_id.get(token_id) {
            Some(set) => set,
            None => return Err(MtError::NotFound),
        };
        let a = match set.get(account_id) {
            Some(a) => *a,
            None => return Err(MtError::NotFound),
        };
        let owner = match self.owner_by_id.get(token_id) {
            Some(o) => o.clone(),
            None => return Err(MtError::NotFound),
        };
        let mut ids: Vec<(String, Approval)> = Vec::new();
        ids.push((account_id.clone(), a));
        Ok(TokenApproval { approval_owner_id: owner, approved_account_ids: ids })
    }

    /// Whether `ta` reports the approval of spender `s` on token `t`.
    pub open spec fn reports(&self, t: Seq<char>, ta: TokenApproval, s: Seq<char>) -> bool {
        &&& self.owners().contains_key(t)
        &&& ta.approval_owner_id@ == self.owners()[t]
        &&& ta.approved_account_ids@.len() == 1
        &&& ta.approved_account_ids@[0].0@ == s
        &&& self.approvals_of(t).contains_key(s)
        &&& ta.approved_account_ids@[0].1 == self.approvals_of(t)[s]
    }

    /// The approvals of `token_id` at positions `from_index` up to
    /// `from_index + limit` in storage order, one per record; empty when the
    /// range holds none or the token has no approvals.
    pub fn mt_token_approvals(&self, token_id: &String, from_index: u128, limit: u128) -> (r: Vec<
        TokenApproval,
    >)
        requires
            self.wf(),
        ensures
            r@.len() == page_end(self.approval_order(token_id@).len(), from_index, limit)
                - page_start(self.approval_order(token_id@).len(), from_index),
            forall|i: int|
                0 <= i < r@.len() ==> self.reports(
                    token_id@,
                    #[trigger] r@[i],
                    self.approval_order(token_id@)[page_start(
                        self.approval_order(token_id@).len(),
                        from_index,
                    ) + i],
                ),
    {
        let mut out: Vec<TokenApproval> = Vec::new();
        let set = match self.approvals_by_id.get(token_id) {
            Some(set) => set,
            None => return out,
        };
        let owner = match self.owner_by_id.get(token_id) {
            Some(o) => o,
            None => return out,
        };
        let n = set.len();
        let start: usize = if from_index < n as u128 {
            from_index as usize
        } else {
            n
        };
        let end: usize = if limit < (n - start) as u128 {
            start + limit as usize
        } else {
            n
        };
        let ghost order = self.approval_order(token_id@);
        let mut i: usize = start;
        while i < end
            invariant
                set.wf(),
                set@ == self.approvals_of(token_id@),
                set.keys() == order,
                order == self.approval_order(token_id@),
                owner@ == self.owners()[token_id@],
                start <= i <= end <= n,
                n == order.len(),
                out@.len() == i - start,
                self.owners().contains_key(token_id@),
                start == page_start(n as nat, from_index),
                end == page_end(n as nat, from_index, limit),
                forall|j: int|
                    0 <= j < out@.len() ==> self.reports(token_id@, #[trigger] out@[j], order[start + j]),
            decreases end - i,
        {
            let (k, a) = set.get_at(i);
            let mut ids: Vec<(String, Approval)> = Vec::new();
            ids.push((k.clone(), *a));
            out.push(TokenApproval { approval_owner_id: owner.clone(), approved_account_ids: ids });
            i = i + 1;
        }
        out
    }

    /// Stores `a` as the approval of `spender` on `token_id`, overwriting any
    /// earlier one, and counts it when it is new. Tells whether there was one.
    fn put_approval(&mut self, token_id: &String, spender: &String, a: Approval) -> (existed: bool)
        requires
            old(self).wf(),
            old(self).owners().contains_key(token_id@),
            a.approval_id < old(self).next_id_of(token_id@),
            old(self).count_of(token_id@) + 1 < MAX_APPROVALS_PER_TOKEN,
        ensures
            final(self).wf(),
            existed == old(self).approvals_of(token_id@).contains_key(spender@),
            final(self).owners() == old(self).owners(),
            final(self).balances() == old(self).balances(),
            final(self).next_ids() == old(self).next_ids(),
            final(self).approvals() == old(self).approvals().insert(
                token_id@,
                old(self).approvals_of(token_id@).insert(spender@, a),
            ),
            final(self).approval_counts() == old(self).approval_counts().insert(
                token_id@,
                (old(self).count_of(token_id@) + if existed {
                    0nat
                } else {
                    1nat
                }) as usize,
            ),
            final(self).approval_order(token_id@) == if existed {
                old(self).approval_order(token_id@)
            } else {
                old(self).approval_order(token_id@).push(spender@)
            },
            forall|u: Seq<char>|
                u != token_id@ ==> #[trigger] final(self).approval_order(u) == old(self).approval_order(u),
    {
        let count = self.count_for(token_id);
        let ghost t = token_id@;
        let ghost sp = spender@;
        let approval = a;
        let ghost old_set = old(self).approvals_of(t);
        let mut set = match self.approvals_by_id.remove(token_id) {
            Some(s) => s,
            None => KeyedVec::new(),
        };
        proof {
            assert(set@ == old_set);
            assert(set.keys() == old(self).approval_order(t));
        }
        let existed = set.insert(spender.clone(), approval);
        let ghost new_set = set@;
        self.approvals_by_id.insert(token_id.clone(), set);
        let new_count = if existed {
            count
        } else {
            count + 1
        };
        self.approvals_number_by_id.insert(token_id.clone(), new_count);
        proof {
            let o = old(self);
            assert(self.owners() =~= o.owners());
            assert(self.balances() =~= o.balances());
            assert(self.approvals() =~= o.approvals().insert(t, old_set.insert(sp, approval)));
            assert(new_set.len() == new_count) by {
                if existed {
                    assert(new_set.dom() =~= old_set.dom());
                }
            }
            assert forall|u: Seq<char>| u != t implies #[trigger] self.approval_order(u)
                == o.approval_order(u) by {}
            assert forall|u: Seq<char>| #[trigger]
                self.approvals_by_id@.contains_key(u) implies self.approvals_by_id@[u].wf()
                && self.approvals_by_id@[u]@.len() > 0 && self.owner_by_id@.contains_key(u) by {
                if u != t {
                    assert(o.approvals_by_id@.contains_key(u));
                }
            }
            assert forall|u: Seq<char>| #[trigger] self.count_of(u) == self.approvals_of(u).len()
                && self.count_of(u) < MAX_APPROVALS_PER_TOKEN by {
                if u != t {
                    assert(o.count_of(u) == o.approvals_of(u).len());
                }
            }
            assert forall|u: Seq<char>, s: Seq<char>| #[trigger]
                self.approvals_of(u).contains_key(s) implies self.approvals_of(u)[s].approval_id
                < self.next_id_of(u) by {
                if u != t || s != sp {
                    assert(o.approvals_of(u).contains_key(s));
                }
            }
        }
        existed
    }

    /// What a transfer of `amount` units of `t` to `receiver`, asked for by
    /// `caller` with the expected approval id `id`, yields: nothing is
    /// touched unless every check passes.
    pub open spec fn transfer_check(
        &self,
        caller: Seq<char>,
        receiver: Seq<char>,
        t: Seq<char>,
        amount: u128,
        id: Option<u64>,
    ) -> Result<(), MtError> {
        if !self.owners().contains_key(t) {
            Err(MtError::NotFound)
        } else if caller != self.owners()[t] && !self.approvals_of(t).contains_key(caller) {
            Err(MtError::Unauthorized)
        } else if caller != self.owners()[t] && !self.approved(t, caller, amount, id) {
            Err(MtError::ApprovalMismatch)
        } else if self.balance(t, self.owners()[t]) < amount {
            Err(MtError::InsufficientBalance)
        } else if self.owners()[t] != receiver && self.balance(t, receiver) + amount > u128::MAX {
            Err(MtError::BalanceOverflow)
        } else {
            Ok(())
        }
    }

    /// Moves `amount` units of `token_id` from `from` to `to`.
    fn move_balance(&mut self, token_id: &String, from: &String, to: &String, amount: u128)
        requires
            old(self).wf(),
            old(self).balances().contains_key(token_id@),
            old(self).balance(token_id@, from@) >= amount,
            from@ == to@ || old(self).balance(token_id@, to@) + amount <= u128::MAX,
        ensures
            final(self).wf(),
            final(self).balances() == old(self).balances().insert(
                token_id@,
                moved(old(self).balances()[token_id@], from@, to@, amount),
            ),
            final(self).owners() == old(self).owners(),
            final(self).approvals() == old(self).approvals(),
            final(self).approval_counts() == old(self).approval_counts(),
            final(self).next_ids() == old(self).next_ids(),
            forall|u: Seq<char>| #[trigger] final(self).approval_order(u) == old(self).approval_order(u),
    {
        let ghost t = token_id@;
        if *from == *to {
            proof {
                assert(old(self).balances().insert(t, old(self).balances()[t]) =~= old(self).balances());
            }
            return;
        }
        let mut table = match self.balances_per_token.remove(token_id) {
            Some(tb) => tb,
            None => KeyedVec::new(),
        };
        let ghost old_table = table@;
        let bf = match table.get(from) {
            Some(b) => *b,
            None => 0,
        };
        let bt = match table.get(to) {
            Some(b) => *b,
            None => 0,
        };
        table.insert(from.clone(), bf - amount);
        table.insert(to.clone(), bt + amount);
        let ghost new_table = table@;
        self.balances_per_token.insert(token_id.clone(), table);
        proof {
            let o = old(self);
            assert(new_table == moved(old_table, from@, to@, amount));
            assert(self.balances() =~= o.balances().insert(t, new_table));
            assert(self.approvals() =~= o.approvals());
            assert(self.owners() =~= o.owners());
            assert forall|u: Seq<char>| #[trigger]
                self.balances_per_token@.contains_key(u) implies self.balances_per_token@[u].wf() by {
                if u != t {
                    assert(o.balances_per_token@.contains_key(u));
                }
            }
            assert forall|u: Seq<char>| #[trigger]
                self.owner_by_id@.contains_key(u) implies self.balances_per_token@.contains_key(u) by {
                assert(o.balances_per_token@.contains_key(u));
            }
            Self::lemma_consistent_frame(o, self);
        }
    }

    /// Starts a transfer-and-call: moves `amount` units of `token_id` from its
    /// owner to `receiver_id` before the receiver is notified. A caller other
    /// than the owner spends its approval, which is used up and kept in the
    /// returned record so that it can be reinstated.
    pub fn mt_transfer_call(
        &mut self,
        caller: &String,
        receiver_id: &String,
        token_id: &String,
        amount: u128,
        approval_id: Option<u64>,
    ) -> (r: Result<PendingTransfer, MtError>)
        requires
            old(self).wf(),
        ensures
            final(self).wf(),
            match old(self).transfer_check(caller@, receiver_id@, token_id@, amount, approval_id) {
                Ok(()) => {
                    let t = token_id@;
                    let owner = old(self).owners()[t];
                    &&& r is Ok
                    &&& r->Ok_0.sender_id@ == owner
                    &&& r->Ok_0.receiver_id@ == receiver_id@
                    &&& r->Ok_0.token_id@ == t
                    &&& r->Ok_0.amount == amount
                    &&& final(self).balances() == old(self).balances().insert(
                        t,
                        moved(old(self).balances()[t], owner, receiver_id@, amount),
                    )
                    &&& final(self).owners() == old(self).owners()
                    &&& final(self).next_ids() == old(self).next_ids()
                    &&& caller@ == owner ==> r->Ok_0.approval is None && final(self).approvals()
                        == old(self).approvals()
                    &&& caller@ != owner ==> {
                        &&& r->Ok_0.approval is Some
                        &&& r->Ok_0.approval->Some_0.spender_id@ == caller@
                        &&& r->Ok_0.approval->Some_0.approval_id == old(self).approvals_of(
                            t,
                        )[caller@].approval_id
                        &&& r->Ok_0.approval->Some_0.amount == old(self).approvals_of(
                            t,
                        )[caller@].amount
                        &&& final(self).approvals() == without_spender(
                            old(self).approvals(),
                            t,
                            caller@,
                        )
                    }
                },
                Err(e) => r == Err::<PendingTransfer, MtError>(e) && *final(self) == *old(self),
            },
    {
        let owner = match self.owner_by_id.get(token_id) {
            Some(o) => o.clone(),
            None => return Err(MtError::NotFound),
        };
        let by_owner = *caller == owner;
        let mut consumed: Option<ConsumedApproval> = None;
        if !by_owner {
            let stored = match self.approvals_by_id.get(token_id) {
                Some(set) => match set.get(caller) {
                    Some(a) => *a,
                    None => return Err(MtError::Unauthorized),
                },
                None => return Err(MtError::Unauthorized),
            };
            if !self.is_approved(token_id, caller, amount, approval_id) {
                return Err(MtError::ApprovalMismatch);
            }
            consumed = Some(
                ConsumedApproval {
                    spender_id: caller.clone(),
                    approval_id: stored.approval_id,
                    amount: stored.amount,
                },
            );
        }
        if self.balance_of(token_id, &owner) < amount {
            return Err(MtError::InsufficientBalance);
        }
        if owner != *receiver_id && self.balance_of(token_id, receiver_id) > u128::MAX - amount {
            return Err(MtError::BalanceOverflow);
        }
        if !by_owner {
            self.remove_approval(token_id, caller);
        }
        proof {
            assert(self.balances().contains_key(token_id@));
        }
        self.move_balance(token_id, &owner, receiver_id, amount);
        Ok(
            PendingTransfer {
                sender_id: owner,
                receiver_id: receiver_id.clone(),
                token_id: token_id.clone(),
                amount,
                approval: consumed,
            },
        )
    }

    /// The units that resolving `p` with `outcome` sends back to the sender:
    /// the unused remainder, as far as the receiver still holds it and the
    /// sender's balance can take it.
    pub open spec fn refund_of(&self, p: PendingTransfer, outcome: ReceiverOutcome) -> u128 {
        let unused = (p.amount - used_of(p.amount, outcome)) as u128;
        let held = self.balance(p.token_id@, p.receiver_id@);
        let room = (u128::MAX - self.balance(p.token_id@, p.sender_id@)) as u128;
        if p.sender_id@ == p.receiver_id@ {
            unused
        } else if unused <= held && unused <= room {
            unused
        } else if held <= room {
            held
        } else {
            room
        }
    }

    /// The approval that resolving `p` with `outcome` reinstates, if any: when
    /// all units came back, the consumed approval itself; when part came back,
    /// an approval of that part under the consumed id. Nothing is reinstated
    /// over a newer approval of the same spender, past the cap, or with an id
    /// the token has not issued.
    pub open spec fn restore_of(&self, p: PendingTransfer, outcome: ReceiverOutcome) -> Option<
        Approval,
    > {
        let t = p.token_id@;
        let refund = self.refund_of(p, outcome);
        match p.approval {
            None => None,
            Some(c) => if refund == 0 || !self.owners().contains_key(t) || self.approvals_of(
                t,
            ).contains_key(c.spender_id@) || self.count_of(t) + 1 >= MAX_APPROVALS_PER_TOKEN
                || c.approval_id >= self.next_id_of(t) {
                None
            } else {
                Some(
                    Approval {
                        amount: if refund == p.amount {
                            c.amount
                        } else {
                            refund
                        },
                        approval_id: c.approval_id,
                    },
                )
            },
        }
    }

    /// Finishes a transfer-and-call once the receiver's acknowledgment has
    /// settled: the unused units go back to the sender, a consumed approval is
    /// reinstated as `restore_of` says, and the units the receiver keeps are
    /// returned.
    pub fn mt_resolve_transfer(&mut self, p: &PendingTransfer, outcome: ReceiverOutcome) -> (r: u128)
        requires
            old(self).wf(),
        ensures
            final(self).wf(),
            r == p.amount - old(self).refund_of(*p, outcome),
            final(self).balances() == if old(self).refund_of(*p, outcome) > 0 && p.sender_id@
                != p.receiver_id@ {
                old(self).balances().insert(
                    p.token_id@,
                    moved(
                        old(self).balances()[p.token_id@],
                        p.receiver_id@,
                        p.sender_id@,
                        old(self).refund_of(*p, outcome),
                    ),
                )
            } else {
                old(self).balances()
            },
            final(self).approvals() == match old(self).restore_of(*p, outcome) {
                Some(a) => old(self).approvals().insert(
                    p.token_id@,
                    old(self).approvals_of(p.token_id@).insert(p.approval->Some_0.spender_id@, a),
                ),
                None => old(self).approvals(),
            },
            final(self).approval_order(p.token_id@) == match old(self).restore_of(*p, outcome) {
                Some(a) => old(self).approval_order(p.token_id@).push(p.approval->Some_0.spender_id@),
                None => old(self).approval_order(p.token_id@),
            },
            forall|u: Seq<char>|
                u != p.token_id@ ==> #[trigger] final(self).approval_order(u) == old(self).approval_order(u),
            final(self).owners() == old(self).owners(),
            final(self).next_ids() == old(self).next_ids(),
    {
        let used: u128 = match outcome {
            ReceiverOutcome::Used(u) => if u < p.amount {
                u
            } else {
                p.amount
            },
            ReceiverOutcome::ReceiverFailed => p.amount,
            ReceiverOutcome::CallFailed => 0,
        };
        let unused = p.amount - used;
        let refund: u128 = if p.sender_id == p.receiver_id {
            unused
        } else {
            let held = self.balance_of(&p.token_id, &p.receiver_id);
            let room = u128::MAX - self.balance_of(&p.token_id, &p.sender_id);
            if unused <= held && unused <= room {
                unused
            } else if held <= room {
                held
            } else {
                room
            }
        };
        let ghost pre = *self;
        if refund > 0 && p.sender_id != p.receiver_id {
            proof {
                assert(self.balances().contains_key(p.token_id@));
            }
            self.move_balance(&p.token_id, &p.receiver_id, &p.sender_id, refund);
        }
        proof {
            assert forall|u: Seq<char>| #[trigger] self.count_of(u) == pre.count_of(u)
                && self.approvals_of(u) == pre.approvals_of(u) && self.next_id_of(u)
                == pre.next_id_of(u) by {}
        }
        if refund > 0 {
            if let Some(c) = &p.approval {
                let known = self.owner_by_id.index_of(&p.token_id).is_some();
                let held = match self.approvals_by_id.get(&p.token_id) {
                    Some(set) => set.index_of(&c.spender_id).is_some(),
                    None => false,
                };
                if known && !held && self.count_for(&p.token_id) + 1 < MAX_APPROVALS_PER_TOKEN
                    && c.approval_id < self.next_id_for(&p.token_id) {
                    let a = Approval {
                        amount: if refund == p.amount {
                            c.amount
                        } else {
                            refund
                        },
                        approval_id: c.approval_id,
                    };
                    self.put_approval(&p.token_id, &c.spender_id, a);
                }
            }
        }
        p.amount - refund
    }

    /// Every token's approval counter equals the number of its approvals.
    pub proof fn law_count_matches_approvals(&self, t: Seq<char>)
        requires
            self.wf(),
        ensures
            self.count_of(t) == self.approvals_of(t).len(),
    {
    }

    /// A grant takes an id above every approval id the token carries, and the
    /// token's next id moves past it, also when an existing spender is
    /// approved again.
    pub proof fn law_grant_id_increases(
        &self,
        next: &Self,
        caller: Seq<char>,
        spender: Seq<char>,
        t: Seq<char>,
        amount: u128,
    )
        requires
            self.wf(),
            self.grant_check(caller, t, amount) is Ok,
            self.granted(next, spender, t, self.grant_check(caller, t, amount)->Ok_0),
        ensures
            forall|s: Seq<char>| #[trigger]
                self.approvals_of(t).contains_key(s) ==> self.approvals_of(t)[s].approval_id
                    < self.grant_check(caller, t, amount)->Ok_0.approval_id,
            self.grant_check(caller, t, amount)->Ok_0.approval_id < next.next_id_of(t),
            self.next_id_of(t) < next.next_id_of(t),
    {
    }

    /// With `MAX_APPROVALS_PER_TOKEN - 1` approvals on a token, a grant by its
    /// owner that the balance covers fails on the cap.
    pub proof fn law_cap_refuses_grant(&self, caller: Seq<char>, t: Seq<char>, amount: u128)
        requires
            self.wf(),
            self.owners().contains_key(t),
            self.owners()[t] == caller,
            self.balance(t, caller) >= amount,
            self.approvals_of(t).len() + 1 == MAX_APPROVALS_PER_TOKEN,
        ensures
            self.grant_check(caller, t, amount) == Err::<Approval, MtError>(
                MtError::ApprovalCapExceeded,
            ),
    {
    }

    /// Revoking a spender that has no approval on the token changes nothing.
    pub proof fn law_revoke_absent_is_noop(&self, next: &Self, t: Seq<char>, spender: Seq<char>)
        requires
            self.wf(),
            !self.approvals_of(t).contains_key(spender),
            self.revoked(next, t, spender),
        ensures
            *next == *self,
    {
    }

    /// Revoking the last approval of a token drops the token from the
    /// approvals, and its page of approvals becomes empty.
    pub proof fn law_revoke_last_drops_token(&self, next: &Self, t: Seq<char>, spender: Seq<char>)
        requires
            self.wf(),
            next.wf(),
            self.approvals_of(t).contains_key(spender),
            self.approvals_of(t).len() == 1,
            self.revoked(next, t, spender),
        ensures
            !next.approvals().contains_key(t),
            next.approval_order(t).len() == 0,
    {
        assert(self.approvals().contains_key(t));
        assert(next.approvals() == self.approvals().remove(t));
        assert(!next.approvals().contains_key(t));
    }

    /// After a grant of `a`, the spender is approved for exactly the amounts up
    /// to `a.amount`, with or without the grant's id.
    pub proof fn law_grant_then_approved(
        &self,
        next: &Self,
        spender: Seq<char>,
        t: Seq<char>,
        a: Approval,
        amount: u128,
    )
        requires
            self.granted(next, spender, t, a),
        ensures
            next.approved(t, spender, amount, None) <==> amount <= a.amount,
            next.approved(t, spender, amount, Some(a.approval_id)) <==> amount <= a.amount,
    {
        assert(next.approvals().contains_key(t));
    }

    /// The storage order of a token's approvals lists each approved spender
    /// exactly once.
    pub proof fn lemma_order_lists_approvals(&self, t: Seq<char>)
        requires
            self.wf(),
        ensures
            self.approval_order(t).len() == self.approvals_of(t).len(),
            self.approval_order(t).no_duplicates(),
            forall|i: int|
                0 <= i < self.approval_order(t).len() ==> self.approvals_of(t).contains_key(
                    #[trigger] self.approval_order(t)[i],
                ),
            forall|s: Seq<char>| #[trigger]
                self.approvals_of(t).contains_key(s) ==> self.approval_order(t).contains(s),
    {
        if self.approvals_by_id@.contains_key(t) {
            let set = self.approvals_by_id@[t];
            assert forall|i: int| 0 <= i < set.keys().len() implies set@.contains_key(
                #[trigger] set.keys()[i],
            ) by {
                assert(set.keys()[i] == set.key_at(i));
            }
            assert forall|i: int, j: int|
                0 <= i < set.keys().len() && 0 <= j < set.keys().len() && i != j implies set.keys()[i]
                != set.keys()[j] by {
                assert(set.keys()[i] == set.key_at(i));
                assert(set.keys()[j] == set.key_at(j));
            }
            assert forall|s: Seq<char>| #[trigger] set@.contains_key(s) implies set.keys().contains(s) by {
                let i = choose|i: int| 0 <= i < set.entries@.len() && #[trigger] set.key_at(i) == s;
                assert(set.keys()[i] == s);
            }
        }
    }

    /// Resolving a transfer never reinstates more than the consumed approval
    /// allowed, nor more than the units that came back unless all of them did.
    pub proof fn law_restore_within_consumed(&self, p: PendingTransfer, outcome: ReceiverOutcome)
        requires
            p.approval is Some,
            p.amount <= p.approval->Some_0.amount,
            self.restore_of(p, outcome) is Some,
        ensures
            self.restore_of(p, outcome)->Some_0.amount <= p.approval->Some_0.amount,
            self.restore_of(p, outcome)->Some_0.approval_id == p.approval->Some_0.approval_id,
            self.refund_of(p, outcome) < p.amount ==> self.restore_of(p, outcome)->Some_0.amount
                == self.refund_of(p, outcome),
    {
    }
}

} // verus!
