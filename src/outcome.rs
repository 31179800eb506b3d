use vstd::prelude::*;
use crate::types::{Address, Context};
use crate::amount::{Amount, Price};
use crate::registry::{Call, CallRegistry, owed, owed_fits, settled_as};

verus! {

/// The outcome and final price that an oracle reported for one call.
#[derive(Clone, Copy, Debug, PartialEq, Eq)]
pub struct Settlement {
    pub call_id: u64,
    pub outcome: bool,
    pub final_price: Price,
}

/// A user's claim on one settled call.
#[derive(Clone, Copy, Debug, PartialEq, Eq)]
pub struct Withdrawal {
    pub call_id: u64,
    pub user: Address,
}

/// Announces the outcome an oracle reported.
#[derive(Clone, Copy, Debug, PartialEq, Eq)]
pub struct OutcomeSubmitted {
    pub call_id: u64,
    pub outcome: bool,
    pub final_price: Price,
    pub oracle: Address,
}

/// Announces a payout claimed by `recipient` on a settled call.
#[derive(Clone, Copy, Debug, PartialEq, Eq)]
pub struct PayoutWithdrawn {
    pub call_id: u64,
    pub recipient: Address,
    pub amount: Amount,
}

/// Why an outcome-manager operation was refused. A refused operation changes nothing.
#[derive(Clone, Copy, Debug, PartialEq, Eq, Structural)]
pub enum OutcomeError {
    NotOwner,
    NotOracle,
    AlreadySettled,
    NotSettled,
    AlreadyWithdrawn,
    PayoutOverflow,
}

/// Oracle authorization, settlement finality and withdrawal bookkeeping.
pub struct OutcomeManager {
    registry: Address,
    owner: Address,
    oracles: Vec<Address>,
    settlements: Vec<Settlement>,
    withdrawals: Vec<Withdrawal>,
}

/// The abstract state of an [`OutcomeManager`].
pub struct ManagerView {
    pub registry: Address,
    pub owner: Address,
    /// Addresses currently authorized to report outcomes.
    pub oracles: Set<Address>,
    /// Settled calls, with their outcome and final price.
    pub settlements: Map<u64, (bool, Price)>,
    /// (call id, user) pairs that have withdrawn.
    pub withdrawn: Set<(u64, Address)>,
}

/// The latest settlement recorded for `call_id`, searching from the end.
pub open spec fn settlement_in(s: Seq<Settlement>, call_id: u64) -> Option<(bool, Price)>
    decreases s.len(),
{
    if s.len() == 0 {
        None
    } else if s.last().call_id == call_id {
        Some((s.last().outcome, s.last().final_price))
    } else {
        settlement_in(s.drop_last(), call_id)
    }
}

impl View for OutcomeManager {
    type V = ManagerView;

    closed spec fn view(&self) -> ManagerView {
        ManagerView {
            registry: self.registry,
            owner: self.owner,
            oracles: Set::new(|a: Address| self.oracles@.contains(a)),
            settlements: Map::new(
                |id: u64| settlement_in(self.settlements@, id) is Some,
                |id: u64| settlement_in(self.settlements@, id)->Some_0,
            ),
            withdrawn: Set::new(
                |w: (u64, Address)| self.withdrawals@.contains(Withdrawal { call_id: w.0, user: w.1 }),
            ),
        }
    }
}

/// The answer that `set_oracle` owes.
pub open spec fn set_oracle_result(m: ManagerView, ctx: Context) -> Result<(), OutcomeError> {
    if ctx.caller != m.owner {
        Err(OutcomeError::NotOwner)
    } else {
        Ok(())
    }
}

/// The answer that `submit_outcome` owes.
pub open spec fn submit_result(m: ManagerView, calls: Seq<Call>, ctx: Context, call_id: u64) -> Result<
    (),
    OutcomeError,
> {
    if !m.oracles.contains(ctx.caller) {
        Err(OutcomeError::NotOracle)
    } else if m.settlements.dom().contains(call_id) || (call_id < calls.len()
        && calls[call_id as int].settled) {
        Err(OutcomeError::AlreadySettled)
    } else {
        Ok(())
    }
}

/// Whether a submission result is a success, or its error.
pub open spec fn submit_outcome_of(r: Result<OutcomeSubmitted, OutcomeError>) -> Result<(), OutcomeError> {
    match r {
        Ok(_) => Ok(()),
        Err(err) => Err(err),
    }
}

/// The answer that `withdraw_payout` owes. The payout follows the outcome that
/// this manager recorded and the stakes that the registry holds.
pub open spec fn withdraw_result(m: ManagerView, calls: Seq<Call>, ctx: Context, call_id: u64) -> Result<
    (),
    OutcomeError,
> {
    if !m.settlements.dom().contains(call_id) {
        Err(OutcomeError::NotSettled)
    } else if m.withdrawn.contains((call_id, ctx.caller)) {
        Err(OutcomeError::AlreadyWithdrawn)
    } else if !owed_fits(calls, call_id, ctx.caller, m.settlements[call_id].0) {
        Err(OutcomeError::PayoutOverflow)
    } else {
        Ok(())
    }
}

/// Whether a withdrawal result is a success, or its error.
pub open spec fn withdraw_outcome_of(r: Result<PayoutWithdrawn, OutcomeError>) -> Result<(), OutcomeError> {
    match r {
        Ok(_) => Ok(()),
        Err(err) => Err(err),
    }
}

/// `m` with `oracle` authorized or revoked, nothing else changed.
pub open spec fn with_oracle(m: ManagerView, oracle: Address, authorized: bool) -> ManagerView {
    ManagerView {
        oracles: if authorized {
            m.oracles.insert(oracle)
        } else {
            m.oracles.remove(oracle)
        },
        ..m
    }
}

/// `m` with `call_id` settled as (`outcome`, `final_price`), nothing else changed.
pub open spec fn with_settlement(m: ManagerView, call_id: u64, outcome: bool, final_price: Price) -> ManagerView {
    ManagerView { settlements: m.settlements.insert(call_id, (outcome, final_price)), ..m }
}

/// `m` with `user`'s withdrawal on `call_id` recorded, nothing else changed.
pub open spec fn with_withdrawal(m: ManagerView, call_id: u64, user: Address) -> ManagerView {
    ManagerView { withdrawn: m.withdrawn.insert((call_id, user)), ..m }
}

impl OutcomeManager {
    /// A manager paired with the registry at `registry`, owned by the caller.
    pub fn init(ctx: Context, registry: Address) -> (r: OutcomeManager)
        ensures
            r@.registry == registry,
            r@.owner == ctx.caller,
            r@.oracles == Set::<Address>::empty(),
            r@.settlements == Map::<u64, (bool, Price)>::empty(),
            r@.withdrawn == Set::<(u64, Address)>::empty(),
    {
        let r = OutcomeManager {
            registry,
            owner: ctx.caller,
            oracles: Vec::new(),
            settlements: Vec::new(),
            withdrawals: Vec::new(),
        };
        proof {
            assert(r@.oracles =~= Set::<Address>::empty());
            assert(r@.settlements =~= Map::<u64, (bool, Price)>::empty());
            assert(r@.withdrawn =~= Set::<(u64, Address)>::empty());
        }
        r
    }

    /// Grants or revokes `oracle`'s right to report outcomes. Only the owner may.
    pub fn set_oracle(&mut self, ctx: Context, oracle: Address, authorized: bool) -> (r: Result<
        (),
        OutcomeError,
    >)
        ensures
            r == set_oracle_result(old(self)@, ctx),
            r.is_err() ==> final(self)@ == old(self)@,
            r.is_ok() ==> final(self)@ == with_oracle(old(self)@, oracle, authorized),
    {
        if ctx.caller != self.owner {
            return Err(OutcomeError::NotOwner);
        }
        let present = find_address(&self.oracles, oracle);
        if authorized {
            if !present {
                self.oracles.push(oracle);
                proof {
                    assert forall|a: Address| #[trigger] self.oracles@.contains(a) == (a == oracle
                        || old(self).oracles@.contains(a)) by {
                        if a != oracle && self.oracles@.contains(a) {
                            let i = choose|i: int| 0 <= i < self.oracles@.len() && self.oracles@[i] == a;
                            assert(old(self).oracles@[i] == a);
                        }
                        if old(self).oracles@.contains(a) {
                            let i = choose|i: int| 0 <= i < old(self).oracles@.len() && old(self).oracles@[i] == a;
                            assert(self.oracles@[i] == a);
                        }
                        if a == oracle {
                            assert(self.oracles@[old(self).oracles@.len() as int] == a);
                        }
                    }
                }
            }
            proof {
                assert(self@.oracles =~= old(self)@.oracles.insert(oracle));
            }
        } else {
            let kept = without_address(&self.oracles, oracle);
            self.oracles = kept;
            proof {
                assert(self@.oracles =~= old(self)@.oracles.remove(oracle));
            }
        }
        Ok(())
    }

    /// Records the caller's report of `call_id`'s outcome and final price, once,
    /// and settles the call in `reg` in the same step, so that the two never
    /// disagree. Only an authorized oracle may.
    pub fn submit_outcome(
        &mut self,
        reg: &mut CallRegistry,
        ctx: Context,
        call_id: u64,
        outcome: bool,
        final_price: Price,
    ) -> (r: Result<OutcomeSubmitted, OutcomeError>)
        requires
            old(reg).wf(),
        ensures
            final(reg).wf(),
            submit_outcome_of(r) == submit_result(old(self)@, old(reg)@, ctx, call_id),
            r.is_err() ==> final(self)@ == old(self)@ && final(reg)@ == old(reg)@,
            r.is_ok() ==> final(self)@ == with_settlement(old(self)@, call_id, outcome, final_price),
            r.is_ok() && call_id < old(reg)@.len() ==> settled_as(
                old(reg)@,
                final(reg)@,
                call_id as int,
                outcome,
                final_price,
            ),
            r.is_ok() && call_id >= old(reg)@.len() ==> final(reg)@ == old(reg)@,
            r matches Ok(e) ==> e == (OutcomeSubmitted {
                call_id,
                outcome,
                final_price,
                oracle: ctx.caller,
            }),
    {
        if !find_address(&self.oracles, ctx.caller) {
            return Err(OutcomeError::NotOracle);
        }
        if find_settlement(&self.settlements, call_id).is_some() || reg.is_call_settled(call_id) {
            return Err(OutcomeError::AlreadySettled);
        }
        if call_id < reg.get_next_call_id() {
            let settled = reg.settle_call(call_id, outcome, final_price);
            assert(settled.is_ok());
        }
        let s = Settlement { call_id, outcome, final_price };
        self.settlements.push(s);
        proof {
            assert forall|id: u64| settlement_in(self.settlements@, id) == if id == call_id {
                Some((outcome, final_price))
            } else {
                settlement_in(old(self).settlements@, id)
            } by {
                assert(self.settlements@.drop_last() =~= old(self).settlements@);
            }
            assert(self@.settlements =~= old(self)@.settlements.insert(call_id, (outcome, final_price)));
        }
        Ok(OutcomeSubmitted { call_id, outcome, final_price, oracle: ctx.caller })
    }

    /// Pays the caller what they are owed on settled call `call_id`, once: their
    /// stake on the side that this manager recorded as winning, plus their share
    /// of the other side's pool, as [`owed`] states over the stakes in `reg`.
    /// Returns the payout for the host to transfer.
    pub fn withdraw_payout(&mut self, reg: &CallRegistry, ctx: Context, call_id: u64) -> (r: Result<
        PayoutWithdrawn,
        OutcomeError,
    >)
        requires
            reg.wf(),
        ensures
            withdraw_outcome_of(r) == withdraw_result(old(self)@, reg@, ctx, call_id),
            r.is_err() ==> final(self)@ == old(self)@,
            r.is_ok() ==> final(self)@ == with_withdrawal(old(self)@, call_id, ctx.caller),
            r matches Ok(e) ==> e.call_id == call_id && e.recipient == ctx.caller
                && e.amount.value() == owed(
                reg@,
                call_id,
                ctx.caller,
                old(self)@.settlements[call_id].0,
            ),
    {
        let outcome = match find_settlement(&self.settlements, call_id) {
            Some(s) => s.0,
            None => return Err(OutcomeError::NotSettled),
        };
        let w = Withdrawal { call_id, user: ctx.caller };
        if find_withdrawal(&self.withdrawals, w) {
            return Err(OutcomeError::AlreadyWithdrawn);
        }
        let amount = match reg.payout_of(call_id, ctx.caller, outcome) {
            Some(a) => a,
            None => return Err(OutcomeError::PayoutOverflow),
        };
        self.withdrawals.push(w);
        proof {
            assert forall|x: Withdrawal| #[trigger] self.withdrawals@.contains(x) == (x == w
                || old(self).withdrawals@.contains(x)) by {
                if x != w && self.withdrawals@.contains(x) {
                    let i = choose|i: int| 0 <= i < self.withdrawals@.len() && self.withdrawals@[i] == x;
                    assert(old(self).withdrawals@[i] == x);
                }
                if old(self).withdrawals@.contains(x) {
                    let i = choose|i: int| 0 <= i < old(self).withdrawals@.len() && old(self).withdrawals@[i] == x;
                    assert(self.withdrawals@[i] == x);
                }
                if x == w {
                    assert(self.withdrawals@[old(self).withdrawals@.len() as int] == x);
                }
            }
            assert(self@.withdrawn =~= old(self)@.withdrawn.insert((call_id, ctx.caller)));
        }
        Ok(PayoutWithdrawn { call_id, recipient: ctx.caller, amount })
    }
    /// Whether an outcome has been recorded for `call_id`.
    pub fn is_settled(&self, call_id: u64) -> (r: bool)
        ensures
            r == self@.settlements.dom().contains(call_id),
    {
        find_settlement(&self.settlements, call_id).is_some()
    }

    /// The recorded outcome of `call_id` (false if none was recorded).
    pub fn get_outcome(&self, call_id: u64) -> (r: bool)
        ensures
            r == (self@.settlements.dom().contains(call_id) && self@.settlements[call_id].0),
    {
        match find_settlement(&self.settlements, call_id) {
            Some(s) => s.0,
            None => false,
        }
    }

    /// The recorded final price of `call_id` (0 if none was recorded).
    pub fn get_final_price(&self, call_id: u64) -> (r: Price)
        ensures
            self@.settlements.dom().contains(call_id) ==> r == self@.settlements[call_id].1,
            !self@.settlements.dom().contains(call_id) ==> r.value() == 0,
    {
        match find_settlement(&self.settlements, call_id) {
            Some(s) => s.1,
            None => Price::zero(),
        }
    }

    /// Whether `user` has withdrawn on `call_id`.
    pub fn has_withdrawn(&self, call_id: u64, user: Address) -> (r: bool)
        ensures
            r == self@.withdrawn.contains((call_id, user)),
    {
        find_withdrawal(&self.withdrawals, Withdrawal { call_id, user })
    }

    /// Whether `addr` is currently an authorized oracle.
    pub fn is_oracle(&self, addr: Address) -> (r: bool)
        ensures
            r == self@.oracles.contains(addr),
    {
        find_address(&self.oracles, addr)
    }

    /// The owner, who alone manages oracles.
    pub fn get_owner(&self) -> (r: Option<Address>)
        ensures
            r == Some(self@.owner),
    {
        Some(self.owner)
    }

    /// The address of the registry this manager was paired with.
    pub fn get_registry(&self) -> (r: Address)
        ensures
            r == self@.registry,
    {
        self.registry
    }
}

/// Oracle trust: right after `set_oracle(x, true)` a report by `x` on a call that
/// neither this manager nor the registry has settled is accepted; right after
/// `set_oracle(x, false)` any report by `x` is refused.
pub proof fn lemma_oracle_authorization(m: ManagerView, calls: Seq<Call>, ctx: Context, call_id: u64)
    ensures
        !m.settlements.dom().contains(call_id) && !(call_id < calls.len()
            && calls[call_id as int].settled) ==> submit_result(
            with_oracle(m, ctx.caller, true),
            calls,
            ctx,
            call_id,
        ) == Ok::<(), OutcomeError>(()),
        submit_result(with_oracle(m, ctx.caller, false), calls, ctx, call_id) == Err::<
            (),
            OutcomeError,
        >(OutcomeError::NotOracle),
{
}

/// Settlement is final: after a report on `call_id` is accepted, every further
/// report on it is refused, and the recorded outcome and price stay the first ones.
pub proof fn lemma_submit_once(
    m: ManagerView,
    calls: Seq<Call>,
    call_id: u64,
    outcome: bool,
    final_price: Price,
    ctx: Context,
)
    ensures
        submit_result(with_settlement(m, call_id, outcome, final_price), calls, ctx, call_id)
            != Ok::<(), OutcomeError>(()),
        with_settlement(m, call_id, outcome, final_price).settlements[call_id] == (
            outcome,
            final_price,
        ),
{
}

/// Withdrawal happens once per user and settled call: refused before settlement,
/// accepted the first time after it when the payout fits, refused the second time.
pub proof fn lemma_withdraw_once(m: ManagerView, calls: Seq<Call>, ctx: Context, call_id: u64)
    ensures
        !m.settlements.dom().contains(call_id) ==> withdraw_result(m, calls, ctx, call_id)
            == Err::<(), OutcomeError>(OutcomeError::NotSettled),
        m.settlements.dom().contains(call_id) && !m.withdrawn.contains((call_id, ctx.caller))
            && owed_fits(calls, call_id, ctx.caller, m.settlements[call_id].0) ==> withdraw_result(
            m,
            calls,
            ctx,
            call_id,
        ) == Ok::<(), OutcomeError>(()),
        m.settlements.dom().contains(call_id) ==> withdraw_result(
            with_withdrawal(m, call_id, ctx.caller),
            calls,
            ctx,
            call_id,
        ) == Err::<(), OutcomeError>(OutcomeError::AlreadyWithdrawn),
{
}

/// Whether `addr` occurs in `v`.
fn find_address(v: &Vec<Address>, addr: Address) -> (r: bool)
    ensures
        r == v@.contains(addr),
{
    let mut i: usize = 0;
    while i < v.len()
        invariant
            i <= v@.len(),
            forall|j: int| 0 <= j < i ==> v@[j] != addr,
        decreases v@.len() - i,
    {
        if v[i] == addr {
            return true;
        }
        i = i + 1;
    }
    false
}

/// `v` without any occurrence of `addr`.
fn without_address(v: &Vec<Address>, addr: Address) -> (r: Vec<Address>)
    ensures
        forall|a: Address| #[trigger] r@.contains(a) == (a != addr && v@.contains(a)),
{
    let mut r: Vec<Address> = Vec::new();
    let mut i: usize = 0;
    while i < v.len()
        invariant
            i <= v@.len(),
            forall|a: Address| #[trigger] r@.contains(a) == (a != addr && v@.subrange(0, i as int).contains(a)),
        decreases v@.len() - i,
    {
        let x = v[i];
        let ghost before = r@;
        assert(forall|a: Address| #[trigger] before.contains(a) == (a != addr && v@.subrange(0, i as int).contains(a)));
        if x != addr {
            r.push(x);
        }
        proof {
            let p = v@.subrange(0, i as int);
            let q = v@.subrange(0, i + 1);
            assert(q =~= p.push(x));
            assert forall|a: Address| #[trigger] r@.contains(a) == (a != addr && q.contains(a)) by {
                if q.contains(a) && a != addr {
                    let j = choose|j: int| 0 <= j < q.len() && q[j] == a;
                    if j < p.len() {
                        assert(p[j] == a);
                        assert(p.contains(a));
                        assert(before.contains(a));
                        let k = choose|k: int| 0 <= k < before.len() && before[k] == a;
                        assert(r@[k] == a);
                    } else {
                        assert(r@[before.len() as int] == a);
                    }
                }
                if r@.contains(a) {
                    let k = choose|k: int| 0 <= k < r@.len() && r@[k] == a;
                    if k < before.len() {
                        assert(before[k] == a);
                        assert(before.contains(a));
                        assert(p.contains(a));
                        let j = choose|j: int| 0 <= j < p.len() && p[j] == a;
                        assert(q[j] == a);
                    } else {
                        assert(q[i as int] == a);
                    }
                }
            }
        }
        i = i + 1;
    }
    proof {
        assert(v@.subrange(0, v@.len() as int) =~= v@);
    }
    r
}

/// The latest settlement recorded for `call_id` in `v`.
fn find_settlement(v: &Vec<Settlement>, call_id: u64) -> (r: Option<(bool, Price)>)
    ensures
        r == settlement_in(v@, call_id),
{
    let mut i: usize = v.len();
    proof {
        assert(v@.subrange(0, i as int) =~= v@);
    }
    while i > 0
        invariant
            i <= v@.len(),
            settlement_in(v@.subrange(0, i as int), call_id) == settlement_in(v@, call_id),
        decreases i,
    {
        proof {
            assert(v@.subrange(0, i as int).drop_last() =~= v@.subrange(0, i - 1));
        }
        if v[i - 1].call_id == call_id {
            return Some((v[i - 1].outcome, v[i - 1].final_price));
        }
        i = i - 1;
    }
    None
}

/// Whether `w` occurs in `v`.
fn find_withdrawal(v: &Vec<Withdrawal>, w: Withdrawal) -> (r: bool)
    ensures
        r == v@.contains(w),
{
    let mut i: usize = 0;
    while i < v.len()
        invariant
            i <= v@.len(),
            forall|j: int| 0 <= j < i ==> v@[j] != w,
        decreases v@.len() - i,
    {
        if v[i].call_id == w.call_id && v[i].user == w.user {
            return true;
        }
        i = i + 1;
    }
    false
}

} // verus!
