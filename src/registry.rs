use vstd::prelude::*;
use crate::types::{Address, Context};
use crate::amount::{Amount, Price, amount_max, u512_checked_add, u512_is_zero};
use crate::payout::{payout_amount, payout_fits, payout_spec};

verus! {

/// One staker's accumulated stake on one side of a call.
#[derive(Clone, Copy, Debug, PartialEq, Eq)]
pub struct UserStake {
    pub user: Address,
    pub position: bool,
    pub amount: Amount,
}

/// A prediction call: its terms, its stake ledger and its settlement fields.
pub struct Call {
    pub creator: Address,
    pub total_stake_yes: Amount,
    pub total_stake_no: Amount,
    pub start_ts: u64,
    pub end_ts: u64,
    pub token_address: String,
    pub pair_id: String,
    pub ipfs_cid: String,
    pub settled: bool,
    pub outcome: bool,
    pub final_price: Price,
    /// One entry per (user, position) that has staked, in order of first stake.
    pub stakes: Vec<UserStake>,
}

/// Announces a new call, with all its terms.
#[derive(Debug, PartialEq, Eq)]
pub struct CallCreated {
    pub call_id: u64,
    pub creator: Address,
    pub stake_amount: Amount,
    pub start_ts: u64,
    pub end_ts: u64,
    pub token_address: String,
    pub pair_id: String,
    pub ipfs_cid: String,
}

/// Announces stake added to one side of a call.
#[derive(Clone, Copy, Debug, PartialEq, Eq)]
pub struct StakeAdded {
    pub call_id: u64,
    pub staker: Address,
    pub position: bool,
    pub amount: Amount,
}

/// Why a registry operation was refused. A refused operation changes nothing.
#[derive(Clone, Copy, Debug, PartialEq, Eq, Structural)]
pub enum RegistryError {
    EndTimeNotInFuture,
    ZeroStake,
    CallNotFound,
    CallEnded,
    AlreadySettled,
    StakeOverflow,
    CallIdsExhausted,
}

/// The set of calls, keyed by dense ids 0, 1, 2, ... in order of creation.
pub struct CallRegistry {
    calls: Vec<Call>,
}

/// Sum of all stakes recorded on one side.
pub open spec fn side_total(s: Seq<UserStake>, position: bool) -> int
    decreases s.len(),
{
    if s.len() == 0 {
        0
    } else {
        side_total(s.drop_last(), position) + if s.last().position == position {
            s.last().amount.value() as int
        } else {
            0
        }
    }
}

/// Sum of the stakes that `user` recorded on one side.
pub open spec fn stake_of(s: Seq<UserStake>, user: Address, position: bool) -> int
    decreases s.len(),
{
    if s.len() == 0 {
        0
    } else {
        stake_of(s.drop_last(), user, position) + if s.last().user == user && s.last().position
            == position {
            s.last().amount.value() as int
        } else {
            0
        }
    }
}

/// No two entries share a (user, position) key.
pub open spec fn keys_unique(s: Seq<UserStake>) -> bool {
    forall|i: int, j: int|
        0 <= i < j < s.len() ==> !(s[i].user == s[j].user && s[i].position == s[j].position)
}

/// The running total that a call keeps for one side.
pub open spec fn total_of(c: Call, position: bool) -> int {
    if position {
        c.total_stake_yes.value() as int
    } else {
        c.total_stake_no.value() as int
    }
}

/// A call's stored totals match its ledger, and its time window is not empty.
pub open spec fn call_wf(c: Call) -> bool {
    &&& c.start_ts < c.end_ts
    &&& c.total_stake_yes.value() == side_total(c.stakes@, true)
    &&& c.total_stake_no.value() == side_total(c.stakes@, false)
    &&& keys_unique(c.stakes@)
}

/// The fields fixed at creation are equal.
pub open spec fn same_terms(a: Call, b: Call) -> bool {
    &&& a.creator == b.creator
    &&& a.start_ts == b.start_ts
    &&& a.end_ts == b.end_ts
    &&& a.token_address@ == b.token_address@
    &&& a.pair_id@ == b.pair_id@
    &&& a.ipfs_cid@ == b.ipfs_cid@
}

/// The settlement fields are equal.
pub open spec fn same_settlement(a: Call, b: Call) -> bool {
    &&& a.settled == b.settled
    &&& a.outcome == b.outcome
    &&& a.final_price == b.final_price
}

proof fn lemma_push(s: Seq<UserStake>, e: UserStake, user: Address, position: bool)
    ensures
        side_total(s.push(e), position) == side_total(s, position) + if e.position == position {
            e.amount.value() as int
        } else {
            0
        },
        stake_of(s.push(e), user, position) == stake_of(s, user, position) + if e.user == user
            && e.position == position {
            e.amount.value() as int
        } else {
            0
        },
{
    assert(s.push(e).drop_last() =~= s);
}

proof fn lemma_raise(s: Seq<UserStake>, i: int, e: UserStake, a: int, user: Address, position: bool)
    requires
        0 <= i < s.len(),
        e.user == s[i].user,
        e.position == s[i].position,
        e.amount.value() == s[i].amount.value() + a,
    ensures
        side_total(s.update(i, e), position) == side_total(s, position) + if e.position
            == position {
            a
        } else {
            0
        },
        stake_of(s.update(i, e), user, position) == stake_of(s, user, position) + if e.user
            == user && e.position == position {
            a
        } else {
            0
        },
    decreases s.len(),
{
    let t = s.update(i, e);
    if i == s.len() - 1 {
        assert(t.drop_last() =~= s.drop_last());
    } else {
        lemma_raise(s.drop_last(), i, e, a, user, position);
        assert(t.drop_last() =~= s.drop_last().update(i, e));
    }
}

proof fn lemma_entry_bounded(s: Seq<UserStake>, i: int)
    requires
        0 <= i < s.len(),
    ensures
        s[i].amount.value() <= side_total(s, s[i].position),
        0 <= side_total(s, s[i].position),
    decreases s.len(),
{
    lemma_nonneg(s, s[i].position);
    if i < s.len() - 1 {
        lemma_entry_bounded(s.drop_last(), i);
    } else {
        lemma_nonneg(s.drop_last(), s[i].position);
    }
}

proof fn lemma_nonneg(s: Seq<UserStake>, position: bool)
    ensures
        0 <= side_total(s, position),
    decreases s.len(),
{
    if s.len() > 0 {
        lemma_nonneg(s.drop_last(), position);
    }
}

proof fn lemma_lookup(s: Seq<UserStake>, user: Address, position: bool)
    requires
        keys_unique(s),
    ensures
        forall|i: int|
            0 <= i < s.len() && s[i].user == user && s[i].position == position ==> stake_of(
                s,
                user,
                position,
            ) == s[i].amount.value(),
        (forall|i: int|
            0 <= i < s.len() ==> !(s[i].user == user && s[i].position == position)) ==> stake_of(
            s,
            user,
            position,
        ) == 0,
    decreases s.len(),
{
    if s.len() > 0 {
        let d = s.drop_last();
        assert(keys_unique(d));
        lemma_lookup(d, user, position);
        if s.last().user == user && s.last().position == position {
            assert forall|i: int| 0 <= i < d.len() implies !(d[i].user == user && d[i].position
                == position) by {
                assert(s[i] == d[i]);
            }
        }
        assert forall|i: int|
            0 <= i < s.len() && s[i].user == user && s[i].position == position implies stake_of(
            s,
            user,
            position,
        ) == s[i].amount.value() by {
            if i < d.len() {
                assert(s[i] == d[i]);
                assert(!(s.last().user == user && s.last().position == position));
            }
        }
    }
}

/// What `create_call` stores as the new call.
pub open spec fn opened_as(
    c: Call,
    ctx: Context,
    end_ts: u64,
    token_address: Seq<char>,
    pair_id: Seq<char>,
    ipfs_cid: Seq<char>,
) -> bool {
    &&& c.creator == ctx.caller
    &&& c.start_ts == ctx.block_time
    &&& c.end_ts == end_ts
    &&& c.token_address@ == token_address
    &&& c.pair_id@ == pair_id
    &&& c.ipfs_cid@ == ipfs_cid
    &&& c.total_stake_yes == ctx.attached_value
    &&& c.total_stake_no.value() == 0
    &&& !c.settled
    &&& !c.outcome
    &&& c.final_price.value() == 0
    &&& c.stakes@ == seq![UserStake { user: ctx.caller, position: true, amount: ctx.attached_value }]
}

/// `new` is `old` with one call appended, opened as `create_call` opens it.
pub open spec fn created(
    old: Seq<Call>,
    new: Seq<Call>,
    ctx: Context,
    end_ts: u64,
    token_address: Seq<char>,
    pair_id: Seq<char>,
    ipfs_cid: Seq<char>,
) -> bool {
    &&& new.len() == old.len() + 1
    &&& new.drop_last() == old
    &&& opened_as(new.last(), ctx, end_ts, token_address, pair_id, ipfs_cid)
}

/// `e` announces call `call_id` opened as `create_call` opens it.
pub open spec fn announces_creation(
    e: CallCreated,
    call_id: u64,
    ctx: Context,
    end_ts: u64,
    token_address: Seq<char>,
    pair_id: Seq<char>,
    ipfs_cid: Seq<char>,
) -> bool {
    &&& e.call_id == call_id
    &&& e.creator == ctx.caller
    &&& e.stake_amount == ctx.attached_value
    &&& e.start_ts == ctx.block_time
    &&& e.end_ts == end_ts
    &&& e.token_address@ == token_address
    &&& e.pair_id@ == pair_id
    &&& e.ipfs_cid@ == ipfs_cid
}

/// The id that a creation result carries, or its error.
pub open spec fn created_id(r: Result<CallCreated, RegistryError>) -> Result<u64, RegistryError> {
    match r {
        Ok(e) => Ok(e.call_id),
        Err(err) => Err(err),
    }
}

/// Whether a staking result is a success, or its error.
pub open spec fn stake_outcome(r: Result<StakeAdded, RegistryError>) -> Result<(), RegistryError> {
    match r {
        Ok(_) => Ok(()),
        Err(err) => Err(err),
    }
}

/// What `user` is owed on call `call_id` when `outcome` wins: [`payout_spec`] of
/// their stake on that side, that side's pool and the other side's pool. Nothing
/// was staked on a call that was never created, so nothing is owed there.
pub open spec fn owed(calls: Seq<Call>, call_id: u64, user: Address, outcome: bool) -> int {
    if call_id < calls.len() {
        let c = calls[call_id as int];
        payout_spec(stake_of(c.stakes@, user, outcome), total_of(c, outcome), total_of(c, !outcome))
    } else {
        0
    }
}

/// [`owed`] is computed without passing 2^512 - 1.
pub open spec fn owed_fits(calls: Seq<Call>, call_id: u64, user: Address, outcome: bool) -> bool {
    call_id < calls.len() ==> ({
        let c = calls[call_id as int];
        payout_fits(
            stake_of(c.stakes@, user, outcome) as nat,
            total_of(c, outcome) as nat,
            total_of(c, !outcome) as nat,
        )
    })
}

/// The id that the next created call gets.
pub open spec fn next_call_id(calls: Seq<Call>) -> int {
    calls.len() as int
}

/// The answer that `create_call` owes: the next id, or the first precondition that fails.
pub open spec fn create_result(calls: Seq<Call>, ctx: Context, end_ts: u64) -> Result<
    u64,
    RegistryError,
> {
    if end_ts <= ctx.block_time {
        Err(RegistryError::EndTimeNotInFuture)
    } else if ctx.attached_value.value() == 0 {
        Err(RegistryError::ZeroStake)
    } else if calls.len() >= u64::MAX {
        Err(RegistryError::CallIdsExhausted)
    } else {
        Ok(calls.len() as u64)
    }
}

/// The answer that `stake_on_call` owes: success, or the first precondition that fails.
pub open spec fn stake_result(calls: Seq<Call>, ctx: Context, call_id: u64, position: bool) -> Result<
    (),
    RegistryError,
> {
    if call_id >= calls.len() {
        Err(RegistryError::CallNotFound)
    } else if ctx.block_time >= calls[call_id as int].end_ts {
        Err(RegistryError::CallEnded)
    } else if calls[call_id as int].settled {
        Err(RegistryError::AlreadySettled)
    } else if ctx.attached_value.value() == 0 {
        Err(RegistryError::ZeroStake)
    } else if total_of(calls[call_id as int], position) + ctx.attached_value.value() > amount_max() {
        Err(RegistryError::StakeOverflow)
    } else {
        Ok(())
    }
}

/// `new` is `old` after the caller of `ctx` added the attached value on `position`
/// of call `id`: both that side's total and the caller's own stake grow by it,
/// and nothing else changes.
pub open spec fn staked(old: Seq<Call>, new: Seq<Call>, ctx: Context, id: int, position: bool) -> bool {
    &&& new.len() == old.len()
    &&& forall|j: int| 0 <= j < old.len() && j != id ==> new[j] == old[j]
    &&& same_terms(new[id], old[id])
    &&& same_settlement(new[id], old[id])
    &&& total_of(new[id], position) == total_of(old[id], position) + ctx.attached_value.value()
    &&& total_of(new[id], !position) == total_of(old[id], !position)
    &&& forall|u: Address, p: bool|
        #[trigger] stake_of(new[id].stakes@, u, p) == stake_of(old[id].stakes@, u, p) + if u
            == ctx.caller && p == position {
            ctx.attached_value.value() as int
        } else {
            0
        }
}

/// The answer that `settle_call` owes.
pub open spec fn settle_result(calls: Seq<Call>, call_id: u64) -> Result<(), RegistryError> {
    if call_id >= calls.len() {
        Err(RegistryError::CallNotFound)
    } else if calls[call_id as int].settled {
        Err(RegistryError::AlreadySettled)
    } else {
        Ok(())
    }
}

/// `new` is `old` with call `id` marked settled with `outcome` and `final_price`,
/// and nothing else changed.
pub open spec fn settled_as(old: Seq<Call>, new: Seq<Call>, id: int, outcome: bool, final_price: Price) -> bool {
    &&& new.len() == old.len()
    &&& 0 <= id < old.len()
    &&& forall|j: int| 0 <= j < old.len() && j != id ==> new[j] == old[j]
    &&& same_terms(new[id], old[id])
    &&& new[id].total_stake_yes == old[id].total_stake_yes
    &&& new[id].total_stake_no == old[id].total_stake_no
    &&& new[id].stakes@ == old[id].stakes@
    &&& new[id].settled
    &&& new[id].outcome == outcome
    &&& new[id].final_price == final_price
}

impl View for CallRegistry {
    type V = Seq<Call>;

    closed spec fn view(&self) -> Seq<Call> {
        self.calls@
    }
}

impl CallRegistry {
    /// Every call keeps its totals equal to its ledger; ids fit in `u64`.
    pub closed spec fn wf(&self) -> bool {
        &&& self.calls@.len() <= u64::MAX
        &&& forall|i: int| 0 <= i < self.calls@.len() ==> call_wf(#[trigger] self.calls@[i])
    }

    /// An empty registry: the first call created gets id 0.
    pub fn init() -> (r: CallRegistry)
        ensures
            r.wf(),
            r@.len() == 0,
    {
        CallRegistry { calls: Vec::new() }
    }

    /// Opens a new call that ends at `end_ts`, backed by the attached value on YES.
    /// Returns the new call's id.
    pub fn create_call(
        &mut self,
        ctx: Context,
        end_ts: u64,
        token_address: String,
        pair_id: String,
        ipfs_cid: String,
    ) -> (r: Result<CallCreated, RegistryError>)
        requires
            old(self).wf(),
        ensures
            final(self).wf(),
            created_id(r) == create_result(old(self)@, ctx, end_ts),
            r.is_err() ==> final(self)@ == old(self)@,
            r.is_ok() ==> created(
                old(self)@,
                final(self)@,
                ctx,
                end_ts,
                token_address@,
                pair_id@,
                ipfs_cid@,
            ),
            r matches Ok(e) ==> announces_creation(
                e,
                old(self)@.len() as u64,
                ctx,
                end_ts,
                token_address@,
                pair_id@,
                ipfs_cid@,
            ),
    {
        if end_ts <= ctx.block_time {
            return Err(RegistryError::EndTimeNotInFuture);
        }
        if u512_is_zero(&ctx.attached_value) {
            return Err(RegistryError::ZeroStake);
        }
        let n: u64 = self.calls.len() as u64;
        if n == u64::MAX {
            return Err(RegistryError::CallIdsExhausted);
        }
        let event = CallCreated {
            call_id: n,
            creator: ctx.caller,
            stake_amount: ctx.attached_value,
            start_ts: ctx.block_time,
            end_ts,
            token_address: token_address.clone(),
            pair_id: pair_id.clone(),
            ipfs_cid: ipfs_cid.clone(),
        };
        let mut stakes: Vec<UserStake> = Vec::new();
        stakes.push(UserStake { user: ctx.caller, position: true, amount: ctx.attached_value });
        let call = Call {
            creator: ctx.caller,
            total_stake_yes: ctx.attached_value,
            total_stake_no: Amount::zero(),
            start_ts: ctx.block_time,
            end_ts,
            token_address,
            pair_id,
            ipfs_cid,
            settled: false,
            outcome: false,
            final_price: Price::zero(),
            stakes,
        };
        proof {
            let e = UserStake { user: ctx.caller, position: true, amount: ctx.attached_value };
            lemma_push(Seq::empty(), e, ctx.caller, true);
            lemma_push(Seq::empty(), e, ctx.caller, false);
            assert(seq![e] =~= Seq::<UserStake>::empty().push(e));
        }
        self.calls.push(call);
        proof {
            assert(self.calls@.drop_last() =~= old(self).calls@);
        }
        Ok(event)
    }

    /// Adds the attached value to the caller's stake on `position` of call `call_id`.
    pub fn stake_on_call(&mut self, ctx: Context, call_id: u64, position: bool) -> (r: Result<
        StakeAdded,
        RegistryError,
    >)
        requires
            old(self).wf(),
        ensures
            final(self).wf(),
            stake_outcome(r) == stake_result(old(self)@, ctx, call_id, position),
            r matches Ok(e) ==> e == (StakeAdded {
                call_id,
                staker: ctx.caller,
                position,
                amount: ctx.attached_value,
            }),
            r.is_err() ==> final(self)@ == old(self)@,
            r.is_ok() ==> staked(old(self)@, final(self)@, ctx, call_id as int, position),
    {
        let n: u64 = self.calls.len() as u64;
        if call_id >= n {
            return Err(RegistryError::CallNotFound);
        }
        let idx = call_id as usize;
        if ctx.block_time >= self.calls[idx].end_ts {
            return Err(RegistryError::CallEnded);
        }
        if self.calls[idx].settled {
            return Err(RegistryError::AlreadySettled);
        }
        let amount = ctx.attached_value;
        if u512_is_zero(&amount) {
            return Err(RegistryError::ZeroStake);
        }
        let total = if position {
            self.calls[idx].total_stake_yes
        } else {
            self.calls[idx].total_stake_no
        };
        let new_total = match u512_checked_add(total, amount) {
            Some(t) => t,
            None => return Err(RegistryError::StakeOverflow),
        };
        proof {
            new_total.lemma_bounded();
        }
        let found = find_stake(&self.calls[idx].stakes, ctx.caller, position);
        let ghost old_call = self.calls@[idx as int];
        let ghost s = old_call.stakes@;
        proof {
            assert(call_wf(old_call));
        }
        let c = &mut self.calls[idx];
        if position {
            c.total_stake_yes = new_total;
        } else {
            c.total_stake_no = new_total;
        }
        match found {
            Some(k) => {
                proof {
                    lemma_entry_bounded(s, k as int);
                }
                let cur = c.stakes[k].amount;
                let raised = u512_checked_add(cur, amount);
                let new_amount = raised.unwrap();
                c.stakes[k].amount = new_amount;
                proof {
                    let e = UserStake { amount: new_amount, ..s[k as int] };
                    assert(c.stakes@ =~= s.update(k as int, e));
                    assert forall|u: Address, p: bool|
                        #[trigger] stake_of(c.stakes@, u, p) == stake_of(s, u, p) + if u
                            == ctx.caller && p == position {
                            amount.value() as int
                        } else {
                            0
                        } by {
                        lemma_raise(s, k as int, e, amount.value() as int, u, p);
                    }
                    lemma_raise(s, k as int, e, amount.value() as int, ctx.caller, !position);
                    lemma_raise(s, k as int, e, amount.value() as int, ctx.caller, position);
                    assert forall|i: int, j: int|
                        0 <= i < j < c.stakes@.len() implies !(c.stakes@[i].user
                        == c.stakes@[j].user && c.stakes@[i].position
                        == c.stakes@[j].position) by {
                        assert(s[i].user == c.stakes@[i].user && s[i].position
                            == c.stakes@[i].position);
                        assert(s[j].user == c.stakes@[j].user && s[j].position
                            == c.stakes@[j].position);
                    }
                }
            },
            None => {
                c.stakes.push(UserStake { user: ctx.caller, position, amount });
                proof {
                    let e = UserStake { user: ctx.caller, position, amount };
                    assert forall|u: Address, p: bool|
                        #[trigger] stake_of(c.stakes@, u, p) == stake_of(s, u, p) + if u
                            == ctx.caller && p == position {
                            amount.value() as int
                        } else {
                            0
                        } by {
                        lemma_push(s, e, u, p);
                    }
                    lemma_push(s, e, ctx.caller, !position);
                    lemma_push(s, e, ctx.caller, position);
                }
            },
        }
        proof {
            assert forall|i: int| 0 <= i < self.calls@.len() implies call_wf(
                #[trigger] self.calls@[i],
            ) by {
                if i != idx as int {
                    assert(self.calls@[i] == old(self).calls@[i]);
                }
            }
        }
        Ok(StakeAdded { call_id, staker: ctx.caller, position, amount })
    }

    /// Records the outcome and final price of call `call_id`, once.
    pub fn settle_call(&mut self, call_id: u64, outcome: bool, final_price: Price) -> (r: Result<
        (),
        RegistryError,
    >)
        requires
            old(self).wf(),
        ensures
            final(self).wf(),
            r == settle_result(old(self)@, call_id),
            r.is_err() ==> final(self)@ == old(self)@,
            r.is_ok() ==> settled_as(old(self)@, final(self)@, call_id as int, outcome, final_price),
    {
        let n: u64 = self.calls.len() as u64;
        if call_id >= n {
            return Err(RegistryError::CallNotFound);
        }
        let idx = call_id as usize;
        if self.calls[idx].settled {
            return Err(RegistryError::AlreadySettled);
        }
        let c = &mut self.calls[idx];
        c.settled = true;
        c.outcome = outcome;
        c.final_price = final_price;
        proof {
            assert forall|i: int| 0 <= i < self.calls@.len() implies call_wf(
                #[trigger] self.calls@[i],
            ) by {
                if i != idx as int {
                    assert(self.calls@[i] == old(self).calls@[i]);
                } else {
                    assert(call_wf(old(self).calls@[i]));
                }
            }
        }
        Ok(())
    }
    /// The creator of call `call_id`; `None` tells that no such call was created.
    pub fn get_call_creator(&self, call_id: u64) -> (r: Option<Address>)
        ensures
            r == if call_id < self@.len() {
                Some(self@[call_id as int].creator)
            } else {
                None
            },
    {
        if call_id < self.calls.len() as u64 {
            Some(self.calls[call_id as usize].creator)
        } else {
            None
        }
    }

    /// Total staked on YES for call `call_id` (0 for an unknown call).
    pub fn get_total_stake_yes(&self, call_id: u64) -> (r: Amount)
        ensures
            r.value() == if call_id < self@.len() {
                self@[call_id as int].total_stake_yes.value()
            } else {
                0
            },
    {
        if call_id < self.calls.len() as u64 {
            self.calls[call_id as usize].total_stake_yes
        } else {
            Amount::zero()
        }
    }

    /// Total staked on NO for call `call_id` (0 for an unknown call).
    pub fn get_total_stake_no(&self, call_id: u64) -> (r: Amount)
        ensures
            r.value() == if call_id < self@.len() {
                self@[call_id as int].total_stake_no.value()
            } else {
                0
            },
    {
        if call_id < self.calls.len() as u64 {
            self.calls[call_id as usize].total_stake_no
        } else {
            Amount::zero()
        }
    }

    /// End time of call `call_id` (0 for an unknown call).
    pub fn get_end_ts(&self, call_id: u64) -> (r: u64)
        ensures
            r == if call_id < self@.len() {
                self@[call_id as int].end_ts
            } else {
                0
            },
    {
        if call_id < self.calls.len() as u64 {
            self.calls[call_id as usize].end_ts
        } else {
            0
        }
    }

    /// Whether call `call_id` is settled (false for an unknown call).
    pub fn is_call_settled(&self, call_id: u64) -> (r: bool)
        ensures
            r == (call_id < self@.len() && self@[call_id as int].settled),
    {
        call_id < self.calls.len() as u64 && self.calls[call_id as usize].settled
    }

    /// The outcome recorded for call `call_id` (false for an unknown or unsettled call).
    pub fn get_outcome(&self, call_id: u64) -> (r: bool)
        ensures
            r == (call_id < self@.len() && self@[call_id as int].outcome),
    {
        call_id < self.calls.len() as u64 && self.calls[call_id as usize].outcome
    }

    /// What `user` has staked on `position` of call `call_id` (0 if nothing).
    pub fn get_user_stake(&self, call_id: u64, user: Address, position: bool) -> (r: Amount)
        requires
            self.wf(),
        ensures
            r.value() == if call_id < self@.len() {
                stake_of(self@[call_id as int].stakes@, user, position)
            } else {
                0
            },
    {
        if call_id >= self.calls.len() as u64 {
            return Amount::zero();
        }
        let stakes = &self.calls[call_id as usize].stakes;
        proof {
            assert(call_wf(self.calls@[call_id as int]));
            lemma_lookup(stakes@, user, position);
        }
        match find_stake(stakes, user, position) {
            Some(k) => stakes[k].amount,
            None => Amount::zero(),
        }
    }

    /// What `user` is owed on call `call_id` if `outcome` is its winning side:
    /// [`owed`]. `None` when that payout does not fit, see [`owed_fits`].
    pub fn payout_of(&self, call_id: u64, user: Address, outcome: bool) -> (r: Option<Amount>)
        requires
            self.wf(),
        ensures
            match r {
                Some(p) => owed_fits(self@, call_id, user, outcome) && p.value() == owed(
                    self@,
                    call_id,
                    user,
                    outcome,
                ),
                None => !owed_fits(self@, call_id, user, outcome),
            },
    {
        if call_id >= self.calls.len() as u64 {
            return Some(Amount::zero());
        }
        let c = &self.calls[call_id as usize];
        let stakes = &c.stakes;
        let found = find_stake(stakes, user, outcome);
        proof {
            assert(call_wf(self.calls@[call_id as int]));
            lemma_lookup(stakes@, user, outcome);
            lemma_nonneg(stakes@, outcome);
        }
        let stake = match found {
            Some(k) => {
                proof {
                    lemma_entry_bounded(stakes@, k as int);
                }
                stakes[k].amount
            },
            None => Amount::zero(),
        };
        let (win, lose) = if outcome {
            (c.total_stake_yes, c.total_stake_no)
        } else {
            (c.total_stake_no, c.total_stake_yes)
        };
        payout_amount(stake, win, lose)
    }

    /// The id that the next created call will get.
    pub fn get_next_call_id(&self) -> (r: u64)
        requires
            self.wf(),
        ensures
            r == next_call_id(self@),
    {
        self.calls.len() as u64
    }
}

/// Ids are dense and sequential: a successful `create_call` returns the id that
/// was next, and the next id afterwards is one more.
pub proof fn lemma_ids_consecutive(
    before: Seq<Call>,
    after: Seq<Call>,
    ctx: Context,
    end_ts: u64,
    token_address: Seq<char>,
    pair_id: Seq<char>,
    ipfs_cid: Seq<char>,
    id: u64,
)
    requires
        create_result(before, ctx, end_ts) == Ok::<u64, RegistryError>(id),
        created(before, after, ctx, end_ts, token_address, pair_id, ipfs_cid),
    ensures
        id == next_call_id(before),
        next_call_id(after) == id + 1,
{
}

/// Stake conservation holds for a freshly created call: its YES total is the
/// creator's stake, the sum of its YES ledger, and its NO total and ledger are empty.
pub proof fn lemma_created_call_conserves(
    before: Seq<Call>,
    after: Seq<Call>,
    ctx: Context,
    end_ts: u64,
    token_address: Seq<char>,
    pair_id: Seq<char>,
    ipfs_cid: Seq<char>,
)
    requires
        created(before, after, ctx, end_ts, token_address, pair_id, ipfs_cid),
    ensures
        after.last().total_stake_yes.value() == side_total(after.last().stakes@, true),
        after.last().total_stake_yes.value() == ctx.attached_value.value(),
        after.last().total_stake_no.value() == side_total(after.last().stakes@, false),
        after.last().total_stake_no.value() == 0,
        stake_of(after.last().stakes@, ctx.caller, true) == ctx.attached_value.value(),
{
    let e = UserStake { user: ctx.caller, position: true, amount: ctx.attached_value };
    lemma_push(Seq::empty(), e, ctx.caller, true);
    lemma_push(Seq::empty(), e, ctx.caller, false);
    assert(seq![e] =~= Seq::<UserStake>::empty().push(e));
}

/// Stake conservation: in every reachable registry, each call's YES total is the
/// sum of all YES stakes recorded for it, and its NO total the sum of all NO stakes.
pub proof fn lemma_stake_conservation(reg: &CallRegistry, call_id: u64)
    requires
        reg.wf(),
        call_id < reg@.len(),
    ensures
        reg@[call_id as int].total_stake_yes.value() == side_total(
            reg@[call_id as int].stakes@,
            true,
        ),
        reg@[call_id as int].total_stake_no.value() == side_total(
            reg@[call_id as int].stakes@,
            false,
        ),
{
    assert(call_wf(reg.calls@[call_id as int]));
}

/// Staking is open strictly before the end time: at or after `end_ts` it fails,
/// and before it, on an unsettled call, a positive stake that does not overflow
/// the side's total succeeds.
pub proof fn lemma_staking_window(calls: Seq<Call>, ctx: Context, call_id: u64, position: bool)
    requires
        call_id < calls.len(),
    ensures
        ctx.block_time >= calls[call_id as int].end_ts ==> stake_result(
            calls,
            ctx,
            call_id,
            position,
        ) == Err::<(), RegistryError>(RegistryError::CallEnded),
        ctx.block_time < calls[call_id as int].end_ts && !calls[call_id as int].settled
            && ctx.attached_value.value() > 0 && total_of(calls[call_id as int], position)
            + ctx.attached_value.value() <= amount_max() ==> stake_result(calls, ctx, call_id, position)
            == Ok::<(), RegistryError>(()),
{
}

/// Settlement is final: once `settle_call` has succeeded on a call, settling it
/// again fails, and the recorded outcome and final price stay those of the first call.
pub proof fn lemma_settle_once(
    before: Seq<Call>,
    after: Seq<Call>,
    call_id: u64,
    outcome: bool,
    final_price: Price,
)
    requires
        settled_as(before, after, call_id as int, outcome, final_price),
    ensures
        settle_result(after, call_id) == Err::<(), RegistryError>(RegistryError::AlreadySettled),
        after[call_id as int].outcome == outcome,
        after[call_id as int].final_price == final_price,
{
}

/// Position of the entry for (`user`, `position`), if there is one.
fn find_stake(stakes: &Vec<UserStake>, user: Address, position: bool) -> (r: Option<usize>)
    ensures
        match r {
            Some(k) => k < stakes@.len() && stakes@[k as int].user == user && stakes@[k as int].position
                == position,
            None => forall|i: int|
                0 <= i < stakes@.len() ==> !(stakes@[i].user == user && stakes@[i].position
                    == position),
        },
{
    let mut i: usize = 0;
    while i < stakes.len()
        invariant
            i <= stakes@.len(),
            forall|j: int| 0 <= j < i ==> !(stakes@[j].user == user && stakes@[j].position == position),
        decreases stakes@.len() - i,
    {
        if stakes[i].user == user && stakes[i].position == position {
            return Some(i);
        }
        i = i + 1;
    }
    None
}

} // verus!
