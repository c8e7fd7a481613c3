use vstd::prelude::*;

use crate::error::{ContractError, HookError, OwnershipError};
use crate::history::{
    current, heights_at_most, heights_increasing, lemma_recorded_ordered, lemma_recorded_value_at,
    lemma_value_at_above, lemma_value_at_non_positive, lemma_value_at_step, recorded, value_at,
    weight_of, Checkpoint, History,
};
use crate::msg::{
    ContractVersion, Custody, ExecuteMsg, HookMsg, ModuleState, VoterState, HooksResponse, InfoResponse, InstantiateMsg,
    ListVotersResponse, MigrateMsg, NftStakeChangedHookMsg, QueryMsg, QueryResponse,
    RegisteredNftResponse, TotalPowerAtHeightResponse, VotingPowerAtHeightResponse,
};
use crate::order::{
    chars_lt, lemma_chars_lt_irreflexive, lemma_chars_lt_total, lemma_chars_lt_transitive, str_lt,
};
use crate::ownership::{
    clone_opt, opt_view, owner_check, ownership_after, Action, ActionView, BlockInfo, Ownership,
    OwnershipView,
};

verus! {

/// The name under which the module records its version.
pub const CONTRACT_NAME: &'static str = "crates.io:dao-voting-sg-community-nft";

/// The version of this code.
pub const CONTRACT_VERSION: &'static str = "2.6.0";

/// How many voters a page lists when the caller names no limit.
pub const DEFAULT_LIMIT: u32 = 30;

/// A participant that has registered at least once: the registered token, if
/// any, and the history of its voting power.
struct Voter {
    addr: String,
    token: Option<String>,
    power: History,
}

/// The voting-power ledger: token weights, registrations, the per-voter and
/// total voting power as functions of block height, the notified endpoints
/// and the authority that may change weights.
pub struct VotingModule {
    dao: String,
    nft_contract: String,
    ownership: Ownership,
    version: ContractVersion,
    tokens: Vec<(String, u128)>,
    voters: Vec<Voter>,
    total: History,
    hooks: Vec<String>,
    height: u64,
}

spec fn voter_index(vs: Seq<Voter>, p: Seq<char>) -> int {
    if exists|i: int| 0 <= i < vs.len() && vs[i].addr@ == p {
        choose|i: int| 0 <= i < vs.len() && vs[i].addr@ == p
    } else {
        -1
    }
}

spec fn holder_index(vs: Seq<Voter>, t: Seq<char>) -> int {
    if exists|i: int| 0 <= i < vs.len() && opt_view(vs[i].token) == Some(t) {
        choose|i: int| 0 <= i < vs.len() && opt_view(vs[i].token) == Some(t)
    } else {
        -1
    }
}

spec fn token_index(ts: Seq<(String, u128)>, t: Seq<char>) -> int {
    if exists|i: int| 0 <= i < ts.len() && ts[i].0@ == t {
        choose|i: int| 0 <= i < ts.len() && ts[i].0@ == t
    } else {
        -1
    }
}

spec fn addrs_unique(vs: Seq<Voter>) -> bool {
    forall|i: int, j: int| 0 <= i < j < vs.len() ==> vs[i].addr@ != vs[j].addr@
}

spec fn held_unique(vs: Seq<Voter>) -> bool {
    forall|i: int, j: int|
        0 <= i < vs.len() && 0 <= j < vs.len() && i != j && vs[i].token is Some ==> opt_view(
            vs[i].token,
        ) != opt_view(vs[j].token)
}

spec fn ids_unique(ts: Seq<(String, u128)>) -> bool {
    forall|i: int, j: int| 0 <= i < j < ts.len() ==> ts[i].0@ != ts[j].0@
}

spec fn strings_unique(s: Seq<String>) -> bool {
    forall|i: int, j: int| 0 <= i < j < s.len() ==> s[i]@ != s[j]@
}

/// The sum, over the voters, of what a query at height `q` sees.
spec fn sum_at(vs: Seq<Voter>, q: int) -> int
    decreases vs.len(),
{
    if vs.len() == 0 {
        0
    } else {
        sum_at(vs.drop_last(), q) + weight_of(value_at(vs.last().power@, q))
    }
}

/// The live power that a voter's registration calls for.
spec fn power_matches(ts: Seq<(String, u128)>, v: Voter) -> bool {
    match v.token {
        Some(t) => token_index(ts, t@) >= 0 && current(v.power@) == Some(
            ts[token_index(ts, t@)].1,
        ),
        None => current(v.power@) is None,
    }
}

proof fn lemma_voter_index(vs: Seq<Voter>, i: int)
    requires
        addrs_unique(vs),
        0 <= i < vs.len(),
    ensures
        voter_index(vs, vs[i].addr@) == i,
{
    let k = voter_index(vs, vs[i].addr@);
    assert(0 <= k < vs.len() && vs[k].addr@ == vs[i].addr@);
}

proof fn lemma_holder_index(vs: Seq<Voter>, i: int)
    requires
        held_unique(vs),
        0 <= i < vs.len(),
        vs[i].token is Some,
    ensures
        holder_index(vs, vs[i].token->0@) == i,
{
    let t = vs[i].token->0@;
    assert(opt_view(vs[i].token) == Some(t));
    let k = holder_index(vs, t);
    if k != i {
        assert(opt_view(vs[k].token) == Some(t));
    }
}

proof fn lemma_token_index(ts: Seq<(String, u128)>, i: int)
    requires
        ids_unique(ts),
        0 <= i < ts.len(),
    ensures
        token_index(ts, ts[i].0@) == i,
{
    let k = token_index(ts, ts[i].0@);
    assert(0 <= k < ts.len() && ts[k].0@ == ts[i].0@);
}

proof fn lemma_sum_update(vs: Seq<Voter>, i: int, v: Voter, q: int)
    requires
        0 <= i < vs.len(),
    ensures
        sum_at(vs.update(i, v), q) == sum_at(vs, q) - weight_of(value_at(vs[i].power@, q))
            + weight_of(value_at(v.power@, q)),
    decreases vs.len(),
{
    let u = vs.update(i, v);
    if i == vs.len() - 1 {
        assert(u.drop_last() =~= vs.drop_last());
    } else {
        assert(u.drop_last() =~= vs.drop_last().update(i, v));
        lemma_sum_update(vs.drop_last(), i, v, q);
    }
}

proof fn lemma_sum_push(vs: Seq<Voter>, v: Voter, q: int)
    ensures
        sum_at(vs.push(v), q) == sum_at(vs, q) + weight_of(value_at(v.power@, q)),
{
    assert(vs.push(v).drop_last() =~= vs);
}

proof fn lemma_sum_ge(vs: Seq<Voter>, i: int, q: int)
    requires
        0 <= i < vs.len(),
    ensures
        sum_at(vs, q) >= weight_of(value_at(vs[i].power@, q)),
    decreases vs.len(),
{
    lemma_sum_nonneg(vs.drop_last(), q);
    if i < vs.len() - 1 {
        lemma_sum_ge(vs.drop_last(), i, q);
    }
}

proof fn lemma_sum_nonneg(vs: Seq<Voter>, q: int)
    ensures
        sum_at(vs, q) >= 0,
    decreases vs.len(),
{
    if vs.len() > 0 {
        lemma_sum_nonneg(vs.drop_last(), q);
    }
}

proof fn lemma_voter_index_frame(vs: Seq<Voter>, vs2: Seq<Voter>)
    requires
        addrs_unique(vs),
        vs2.len() == vs.len(),
        forall|i: int| 0 <= i < vs.len() ==> (#[trigger] vs2[i]).addr@ == vs[i].addr@,
    ensures
        addrs_unique(vs2),
        forall|p: Seq<char>| #[trigger] voter_index(vs2, p) == voter_index(vs, p),
{
    assert forall|p: Seq<char>| #[trigger] voter_index(vs2, p) == voter_index(vs, p) by {
        if exists|i: int| 0 <= i < vs.len() && vs[i].addr@ == p {
            let i = choose|i: int| 0 <= i < vs.len() && vs[i].addr@ == p;
            lemma_voter_index(vs, i);
            lemma_voter_index(vs2, i);
        } else {
            assert(!exists|i: int| 0 <= i < vs2.len() && vs2[i].addr@ == p);
        }
    }
}

proof fn lemma_voter_index_push(vs: Seq<Voter>, v: Voter)
    requires
        addrs_unique(vs),
        forall|i: int| 0 <= i < vs.len() ==> vs[i].addr@ != v.addr@,
    ensures
        addrs_unique(vs.push(v)),
        forall|p: Seq<char>| #[trigger]
            voter_index(vs.push(v), p) == if p == v.addr@ {
                vs.len() as int
            } else {
                voter_index(vs, p)
            },
{
    let vs2 = vs.push(v);
    assert forall|p: Seq<char>| #[trigger]
        voter_index(vs2, p) == if p == v.addr@ {
            vs.len() as int
        } else {
            voter_index(vs, p)
        } by {
        if p == v.addr@ {
            lemma_voter_index(vs2, vs.len() as int);
        } else if exists|i: int| 0 <= i < vs.len() && vs[i].addr@ == p {
            let i = choose|i: int| 0 <= i < vs.len() && vs[i].addr@ == p;
            lemma_voter_index(vs, i);
            lemma_voter_index(vs2, i);
        } else {
            assert(!exists|i: int| 0 <= i < vs2.len() && vs2[i].addr@ == p);
        }
    }
}

proof fn lemma_token_index_frame(ts: Seq<(String, u128)>, ts2: Seq<(String, u128)>)
    requires
        ids_unique(ts),
        ts2.len() == ts.len(),
        forall|i: int| 0 <= i < ts.len() ==> (#[trigger] ts2[i]).0@ == ts[i].0@,
    ensures
        ids_unique(ts2),
        forall|t: Seq<char>| #[trigger] token_index(ts2, t) == token_index(ts, t),
{
    assert forall|t: Seq<char>| #[trigger] token_index(ts2, t) == token_index(ts, t) by {
        if exists|i: int| 0 <= i < ts.len() && ts[i].0@ == t {
            let i = choose|i: int| 0 <= i < ts.len() && ts[i].0@ == t;
            lemma_token_index(ts, i);
            lemma_token_index(ts2, i);
        } else {
            assert(!exists|i: int| 0 <= i < ts2.len() && ts2[i].0@ == t);
        }
    }
}

proof fn lemma_token_index_push(ts: Seq<(String, u128)>, x: (String, u128))
    requires
        ids_unique(ts),
        forall|i: int| 0 <= i < ts.len() ==> ts[i].0@ != x.0@,
    ensures
        ids_unique(ts.push(x)),
        forall|t: Seq<char>| #[trigger]
            token_index(ts.push(x), t) == if t == x.0@ {
                ts.len() as int
            } else {
                token_index(ts, t)
            },
{
    let ts2 = ts.push(x);
    assert forall|t: Seq<char>| #[trigger]
        token_index(ts2, t) == if t == x.0@ {
            ts.len() as int
        } else {
            token_index(ts, t)
        } by {
        if t == x.0@ {
            lemma_token_index(ts2, ts.len() as int);
        } else if exists|i: int| 0 <= i < ts.len() && ts[i].0@ == t {
            let i = choose|i: int| 0 <= i < ts.len() && ts[i].0@ == t;
            lemma_token_index(ts, i);
            lemma_token_index(ts2, i);
        } else {
            assert(!exists|i: int| 0 <= i < ts2.len() && ts2[i].0@ == t);
        }
    }
}

/// Where the holder of each token stands after voter `i` changes its token.
proof fn lemma_holder_index_update(vs: Seq<Voter>, i: int, v: Voter)
    requires
        held_unique(vs),
        held_unique(vs.update(i, v)),
        0 <= i < vs.len(),
    ensures
        forall|t: Seq<char>| #[trigger]
            holder_index(vs.update(i, v), t) == if opt_view(v.token) == Some(t) {
                i
            } else if opt_view(vs[i].token) == Some(t) {
                -1
            } else {
                holder_index(vs, t)
            },
{
    let vs2 = vs.update(i, v);
    assert forall|t: Seq<char>| #[trigger]
        holder_index(vs2, t) == if opt_view(v.token) == Some(t) {
            i
        } else if opt_view(vs[i].token) == Some(t) {
            -1
        } else {
            holder_index(vs, t)
        } by {
        if opt_view(v.token) == Some(t) {
            lemma_holder_index(vs2, i);
        } else if opt_view(vs[i].token) == Some(t) {
            assert(!exists|k: int| 0 <= k < vs2.len() && opt_view(vs2[k].token) == Some(t));
        } else if exists|k: int| 0 <= k < vs.len() && opt_view(vs[k].token) == Some(t) {
            let k = choose|k: int| 0 <= k < vs.len() && opt_view(vs[k].token) == Some(t);
            lemma_holder_index(vs, k);
            lemma_holder_index(vs2, k);
        } else {
            assert(!exists|k: int| 0 <= k < vs2.len() && opt_view(vs2[k].token) == Some(t));
        }
    }
}

proof fn lemma_holder_index_push(vs: Seq<Voter>, v: Voter)
    requires
        held_unique(vs),
        held_unique(vs.push(v)),
    ensures
        forall|t: Seq<char>| #[trigger]
            holder_index(vs.push(v), t) == if opt_view(v.token) == Some(t) {
                vs.len() as int
            } else {
                holder_index(vs, t)
            },
{
    let vs2 = vs.push(v);
    assert forall|t: Seq<char>| #[trigger]
        holder_index(vs2, t) == if opt_view(v.token) == Some(t) {
            vs.len() as int
        } else {
            holder_index(vs, t)
        } by {
        if opt_view(v.token) == Some(t) {
            lemma_holder_index(vs2, vs.len() as int);
        } else if exists|k: int| 0 <= k < vs.len() && opt_view(vs[k].token) == Some(t) {
            let k = choose|k: int| 0 <= k < vs.len() && opt_view(vs[k].token) == Some(t);
            lemma_holder_index(vs, k);
            lemma_holder_index(vs2, k);
        } else {
            assert(!exists|k: int| 0 <= k < vs2.len() && opt_view(vs2[k].token) == Some(t));
        }
    }
}

/// Writing voter `i` and the total at height `h` by the same change keeps
/// the total equal to the sum of the voters at every height.
proof fn lemma_conservation_update(
    vs: Seq<Voter>,
    i: int,
    v: Voter,
    total: Seq<Checkpoint>,
    h: u64,
    nv: Option<u128>,
    nt: u128,
)
    requires
        0 <= i < vs.len(),
        forall|q: int| weight_of(#[trigger] value_at(total, q)) == sum_at(vs, q),
        forall|k: int| 0 <= k < vs.len() ==> heights_at_most(#[trigger] vs[k].power@, h),
        heights_at_most(total, h),
        v.power@ == recorded(vs[i].power@, h, nv),
        nt == weight_of(current(total)) - weight_of(current(vs[i].power@)) + weight_of(nv),
    ensures
        forall|q: int| weight_of(#[trigger] value_at(recorded(total, h, Some(nt)), q))
            == sum_at(vs.update(i, v), q),
{
    assert forall|q: int| weight_of(#[trigger] value_at(recorded(total, h, Some(nt)), q))
        == sum_at(vs.update(i, v), q) by {
        lemma_sum_update(vs, i, v, q);
        lemma_recorded_value_at(total, h, Some(nt), q);
        lemma_recorded_value_at(vs[i].power@, h, nv, q);
        assert(weight_of(value_at(total, q)) == sum_at(vs, q));
        if q > h {
            lemma_value_at_above(total, h, q);
            lemma_value_at_above(vs[i].power@, h, q);
        }
    }
}

proof fn lemma_conservation_push(
    vs: Seq<Voter>,
    v: Voter,
    total: Seq<Checkpoint>,
    h: u64,
    nv: Option<u128>,
    nt: u128,
)
    requires
        forall|q: int| weight_of(#[trigger] value_at(total, q)) == sum_at(vs, q),
        heights_at_most(total, h),
        v.power@ == recorded(Seq::empty(), h, nv),
        nt == weight_of(current(total)) + weight_of(nv),
    ensures
        forall|q: int| weight_of(#[trigger] value_at(recorded(total, h, Some(nt)), q))
            == sum_at(vs.push(v), q),
{
    assert forall|q: int| weight_of(#[trigger] value_at(recorded(total, h, Some(nt)), q))
        == sum_at(vs.push(v), q) by {
        lemma_sum_push(vs, v, q);
        lemma_recorded_value_at(total, h, Some(nt), q);
        lemma_recorded_value_at(Seq::empty(), h, nv, q);
        assert(weight_of(value_at(total, q)) == sum_at(vs, q));
        if q > h {
            lemma_value_at_above(total, h, q);
        }
    }
}

/// The character sequences of a list of strings.
pub open spec fn strings_view(v: Seq<String>) -> Seq<Seq<char>> {
    v.map_values(|s: String| s@)
}

/// One stake notification per endpoint, in order, for `addr` and `token`.
pub open spec fn stake_msgs(msgs: Seq<HookMsg>, hooks: Seq<Seq<char>>, addr: Seq<char>, token: Seq<char>) -> bool {
    &&& msgs.len() == hooks.len()
    &&& forall|i: int|
        0 <= i < msgs.len() ==> (#[trigger] msgs[i]).contract_addr@ == hooks[i] && match msgs[i].msg {
            NftStakeChangedHookMsg::Stake { addr: a, token_id: t } => a@ == addr && t@ == token,
            _ => false,
        }
}

/// One unstake notification per endpoint, in order, for `addr` and `token`.
pub open spec fn unstake_msgs(msgs: Seq<HookMsg>, hooks: Seq<Seq<char>>, addr: Seq<char>, token: Seq<char>) -> bool {
    &&& msgs.len() == hooks.len()
    &&& forall|i: int|
        0 <= i < msgs.len() ==> (#[trigger] msgs[i]).contract_addr@ == hooks[i] && match msgs[i].msg {
            NftStakeChangedHookMsg::Unstake { addr: a, token_ids: ts } => a@ == addr
                && strings_view(ts@) == seq![token],
            _ => false,
        }
}

/// Whether `v` comes after the cursor; everything does when there is none.
pub open spec fn after(cursor: Option<Seq<char>>, v: Seq<char>) -> bool {
    match cursor {
        Some(c) => chars_lt(c, v),
        None => true,
    }
}

proof fn lemma_chars_lt_asymmetric(a: Seq<char>, b: Seq<char>)
    requires
        chars_lt(a, b),
    ensures
        !chars_lt(b, a),
{
    if chars_lt(b, a) {
        lemma_chars_lt_transitive(a, b, a);
        lemma_chars_lt_irreflexive(a);
    }
}

/// The outcome of a registration by `sender`, holding `owned`, at height `h`.
pub open spec fn register_post(
    prev: &VotingModule,
    next: &VotingModule,
    h: u64,
    sender: Seq<char>,
    owned: Seq<Seq<char>>,
    r: Result<Vec<HookMsg>, ContractError>,
) -> bool {
    match prev.register_error(sender, owned) {
        Some(e) => r == Err::<Vec<HookMsg>, ContractError>(e) && *next == *prev,
        None => r is Ok && stake_msgs(r->Ok_0@, prev.hooks(), sender, owned[0]) && next.registered_from(
            prev,
            sender,
            owned[0],
            h,
        ),
    }
}

/// The outcome of `sender` withdrawing its registration at height `h`.
pub open spec fn unregister_post(
    prev: &VotingModule,
    next: &VotingModule,
    h: u64,
    sender: Seq<char>,
    r: Result<Vec<HookMsg>, ContractError>,
) -> bool {
    match prev.registered(sender) {
        None => r == Err::<Vec<HookMsg>, ContractError>(ContractError::NotRegistered {}) && *next
            == *prev,
        Some(t) => r is Ok && unstake_msgs(r->Ok_0@, prev.hooks(), sender, t) && next.unregistered_from(
            prev,
            sender,
            t,
            h,
        ),
    }
}

/// The outcome of reconciling token `t` with its reported `holder` at height `h`.
pub open spec fn sync_post(
    prev: &VotingModule,
    next: &VotingModule,
    h: u64,
    t: Seq<char>,
    holder: Option<Seq<char>>,
    r: Vec<HookMsg>,
) -> bool {
    match prev.token_voter(t) {
        Some(p) => if holder == Some(p) {
            *next == *prev && r@.len() == 0
        } else {
            unstake_msgs(r@, prev.hooks(), p, t) && next.unregistered_from(prev, p, t, h)
        },
        None => *next == *prev && r@.len() == 0,
    }
}

/// The outcome of `sender` setting the weight of token `t` to `power` at height `h`.
pub open spec fn set_weight_post(
    prev: &VotingModule,
    next: &VotingModule,
    h: u64,
    sender: Seq<char>,
    t: Seq<char>,
    power: u128,
    r: Result<(), ContractError>,
) -> bool {
    &&& r is Err ==> *next == *prev
    &&& match prev.authority_check(sender) {
        Err(e) => r == Err::<(), ContractError>(ContractError::Ownable(e)),
        Ok(_) => match prev.token_voter(t) {
            Some(p) => if prev.total_after_weight(t, power) > u128::MAX {
                r == Err::<(), ContractError>(ContractError::Overflow {})
            } else {
                r is Ok && next.total_history() == recorded(
                    prev.total_history(),
                    h,
                    Some(prev.total_after_weight(t, power) as u128),
                ) && forall|x: Seq<char>| #[trigger]
                    next.power_history(x) == if x == p {
                        recorded(prev.power_history(x), h, Some(power))
                    } else {
                        prev.power_history(x)
                    }
            },
            None => r is Ok && next.total_history() == prev.total_history() && forall|x: Seq<char>|
                #[trigger]
                next.power_history(x) == prev.power_history(x),
        },
    }
    &&& r is Ok ==> {
        &&& next.same_setup(prev)
        &&& next.height() == h
        &&& forall|x: Seq<char>| #[trigger] next.registered(x) == prev.registered(x)
        &&& forall|x: Seq<char>| #[trigger] next.token_voter(x) == prev.token_voter(x)
        &&& forall|x: Seq<char>| #[trigger]
            next.token_weight(x) == if x == t {
                Some(power)
            } else {
                prev.token_weight(x)
            }
    }
}

/// Nothing but the endpoints has changed.
pub open spec fn only_hooks_changed(prev: &VotingModule, next: &VotingModule) -> bool {
    &&& next.same_ledger(prev)
    &&& next.dao() == prev.dao()
    &&& next.nft_contract() == prev.nft_contract()
    &&& next.ownership() == prev.ownership()
    &&& next.version() == prev.version()
}

/// The outcome of `sender` adding the endpoint `addr`.
pub open spec fn add_hook_post(
    prev: &VotingModule,
    next: &VotingModule,
    sender: Seq<char>,
    addr: Seq<char>,
    r: Result<(), ContractError>,
) -> bool {
    &&& r is Err ==> *next == *prev
    &&& match prev.authority_check(sender) {
        Err(e) => r == Err::<(), ContractError>(ContractError::Ownable(e)),
        Ok(_) => if prev.hooks().contains(addr) {
            r == Err::<(), ContractError>(ContractError::HookError(HookError::HookAlreadyRegistered {}))
        } else {
            r is Ok && next.hooks() == prev.hooks().push(addr)
        },
    }
    &&& r is Ok ==> only_hooks_changed(prev, next)
}

/// The outcome of `sender` removing the endpoint `addr`.
pub open spec fn remove_hook_post(
    prev: &VotingModule,
    next: &VotingModule,
    sender: Seq<char>,
    addr: Seq<char>,
    r: Result<(), ContractError>,
) -> bool {
    &&& r is Err ==> *next == *prev
    &&& match prev.authority_check(sender) {
        Err(e) => r == Err::<(), ContractError>(ContractError::Ownable(e)),
        Ok(_) => if prev.hooks().contains(addr) {
            r is Ok && exists|i: int|
                0 <= i < prev.hooks().len() && prev.hooks()[i] == addr && next.hooks() == prev.hooks().remove(i)
        } else {
            r == Err::<(), ContractError>(ContractError::HookError(HookError::HookNotRegistered {}))
        },
    }
    &&& r is Ok ==> only_hooks_changed(prev, next)
}

/// The outcome of `sender` asking `action` of the delegated ownership at `block`.
pub open spec fn update_owner_post(
    prev: &VotingModule,
    next: &VotingModule,
    block: BlockInfo,
    sender: Seq<char>,
    action: ActionView,
    r: Result<(), ContractError>,
) -> bool {
    &&& match prev.owner_update(block, sender, action) {
        Ok(o) => r is Ok && next.ownership() == o,
        Err(e) => r == Err::<(), ContractError>(ContractError::Ownable(e)) && *next == *prev,
    }
    &&& next.same_ledger(prev)
    &&& next.dao() == prev.dao()
    &&& next.nft_contract() == prev.nft_contract()
    &&& next.hooks() == prev.hooks()
    &&& next.version() == prev.version()
}

/// A result with its notifications dropped.
pub open spec fn without_msgs(r: Result<Vec<HookMsg>, ContractError>) -> Result<(), ContractError> {
    match r {
        Ok(_) => Ok(()),
        Err(e) => Err(e),
    }
}

proof fn lemma_sum_prefix_le(vs: Seq<Voter>, k: int, q: int)
    requires
        0 <= k <= vs.len(),
    ensures
        sum_at(vs.take(k), q) <= sum_at(vs, q),
    decreases vs.len(),
{
    if k < vs.len() {
        assert(vs.drop_last().take(k) =~= vs.take(k));
        lemma_sum_prefix_le(vs.drop_last(), k, q);
    } else {
        assert(vs.take(k) =~= vs);
    }
}

proof fn lemma_sum_non_positive(vs: Seq<Voter>, q: int)
    requires
        q <= 0,
    ensures
        sum_at(vs, q) == 0,
    decreases vs.len(),
{
    if vs.len() > 0 {
        lemma_sum_non_positive(vs.drop_last(), q);
        lemma_value_at_non_positive(vs.last().power@, q);
    }
}

proof fn lemma_sum_step(vs: Seq<Voter>, q: int)
    requires
        forall|k: int, j: int|
            0 <= k < vs.len() && 0 <= j < vs[k].power@.len() ==> (#[trigger] vs[k].power@[j]).0 != q - 1,
    ensures
        sum_at(vs, q) == sum_at(vs, q - 1),
    decreases vs.len(),
{
    if vs.len() > 0 {
        let last = vs.last().power@;
        assert forall|j: int| 0 <= j < last.len() implies last[j].0 != q - 1 by {
            assert(vs[vs.len() - 1].power@[j] == last[j]);
        }
        lemma_value_at_step(last, q);
        lemma_sum_step(vs.drop_last(), q);
    }
}

proof fn lemma_holder_index_frame(vs: Seq<Voter>, vs2: Seq<Voter>)
    requires
        held_unique(vs),
        vs2.len() == vs.len(),
        forall|i: int| 0 <= i < vs.len() ==> opt_view((#[trigger] vs2[i]).token) == opt_view(vs[i].token),
    ensures
        held_unique(vs2),
        forall|t: Seq<char>| #[trigger] holder_index(vs2, t) == holder_index(vs, t),
{
    assert forall|i: int, j: int|
        0 <= i < vs2.len() && 0 <= j < vs2.len() && i != j && vs2[i].token is Some implies opt_view(
            vs2[i].token,
        ) != opt_view(vs2[j].token) by {
        assert(opt_view(vs2[i].token) == opt_view(vs[i].token));
        assert(opt_view(vs2[j].token) == opt_view(vs[j].token));
    }
    assert forall|t: Seq<char>| #[trigger] holder_index(vs2, t) == holder_index(vs, t) by {
        if exists|k: int| 0 <= k < vs.len() && opt_view(vs[k].token) == Some(t) {
            let k = choose|k: int| 0 <= k < vs.len() && opt_view(vs[k].token) == Some(t);
            lemma_holder_index(vs, k);
            lemma_holder_index(vs2, k);
        } else {
            assert(!exists|k: int| 0 <= k < vs2.len() && opt_view(vs2[k].token) == Some(t));
        }
    }
}

proof fn lemma_sum_frame(vs: Seq<Voter>, vs2: Seq<Voter>, q: int)
    requires
        vs2.len() == vs.len(),
        forall|i: int| 0 <= i < vs.len() ==> (#[trigger] vs2[i]).power@ == vs[i].power@,
    ensures
        sum_at(vs2, q) == sum_at(vs, q),
    decreases vs.len(),
{
    if vs.len() > 0 {
        lemma_sum_frame(vs.drop_last(), vs2.drop_last(), q);
    }
}

impl VotingModule {
    /// The token that `p` is registered with.
    pub closed spec fn registered(&self, p: Seq<char>) -> Option<Seq<char>> {
        let i = voter_index(self.voters@, p);
        if i >= 0 {
            opt_view(self.voters@[i].token)
        } else {
            None
        }
    }

    /// The voter registered with token `t`.
    pub closed spec fn token_voter(&self, t: Seq<char>) -> Option<Seq<char>> {
        let i = holder_index(self.voters@, t);
        if i >= 0 {
            Some(self.voters@[i].addr@)
        } else {
            None
        }
    }

    /// The weight assigned to token `t`, if it has a record.
    pub closed spec fn token_weight(&self, t: Seq<char>) -> Option<u128> {
        let i = token_index(self.tokens@, t);
        if i >= 0 {
            Some(self.tokens@[i].1)
        } else {
            None
        }
    }

    /// The history of `p`'s voting power; empty for one that never registered.
    pub closed spec fn power_history(&self, p: Seq<char>) -> Seq<Checkpoint> {
        let i = voter_index(self.voters@, p);
        if i >= 0 {
            self.voters@[i].power@
        } else {
            Seq::empty()
        }
    }

    /// The history of the total voting power.
    pub closed spec fn total_history(&self) -> Seq<Checkpoint> {
        self.total@
    }

    /// Everyone that has a history of voting power, each once.
    pub closed spec fn participants(&self) -> Seq<Seq<char>> {
        self.voters@.map_values(|v: Voter| v.addr@)
    }

    /// The notified endpoints, in the order they were added.
    pub closed spec fn hooks(&self) -> Seq<Seq<char>> {
        self.hooks@.map_values(|s: String| s@)
    }

    /// The governing body.
    pub closed spec fn dao(&self) -> Seq<char> {
        self.dao@
    }

    /// The collection whose tokens carry the votes.
    pub closed spec fn nft_contract(&self) -> Seq<char> {
        self.nft_contract@
    }

    /// The delegated owner and any transfer that waits.
    pub closed spec fn ownership(&self) -> OwnershipView {
        self.ownership@
    }

    /// The name and version recorded for the module.
    pub closed spec fn version(&self) -> (Seq<char>, Seq<char>) {
        (self.version.contract@, self.version.version@)
    }

    /// The highest height at which anything was written.
    pub closed spec fn height(&self) -> u64 {
        self.height
    }

    /// The voting power of `p` that a query at height `q` sees.
    pub open spec fn power_at(&self, p: Seq<char>, q: int) -> int {
        weight_of(value_at(self.power_history(p), q))
    }

    /// The total voting power that a query at height `q` sees.
    pub open spec fn total_at(&self, q: int) -> int {
        weight_of(value_at(self.total_history(), q))
    }

    /// The live total voting power.
    pub open spec fn live_total(&self) -> int {
        weight_of(current(self.total_history()))
    }

    /// The module's invariant.
    pub closed spec fn wf(&self) -> bool {
        let vs = self.voters@;
        let ts = self.tokens@;
        &&& addrs_unique(vs)
        &&& held_unique(vs)
        &&& ids_unique(ts)
        &&& strings_unique(self.hooks@)
        &&& forall|i: int|
            0 <= i < vs.len() ==> heights_increasing(#[trigger] vs[i].power@) && heights_at_most(
                vs[i].power@,
                self.height,
            )
        &&& forall|i: int| 0 <= i < vs.len() ==> power_matches(ts, #[trigger] vs[i])
        &&& heights_increasing(self.total@)
        &&& heights_at_most(self.total@, self.height)
        &&& forall|q: int| weight_of(#[trigger] value_at(self.total@, q)) == sum_at(vs, q)
    }

    /// The module as the governing body `sender` instantiates it at `block`:
    /// no tokens, no voters, a total of zero, and as owner the one named or
    /// else `sender`.
    pub fn instantiate(block: &BlockInfo, sender: &String, msg: InstantiateMsg) -> (r: VotingModule)
        ensures
            r.wf(),
            r.dao() == sender@,
            r.nft_contract() == msg.nft_contract@,
            r.ownership() == (OwnershipView {
                owner: Some(
                    match msg.owner {
                        Some(o) => o@,
                        None => sender@,
                    },
                ),
                pending_owner: None,
                pending_expiry: None,
            }),
            r.height() == block.height,
            r.total_history() == seq![(block.height, Some(0u128))],
            forall|p: Seq<char>| #[trigger] r.registered(p) is None,
            forall|p: Seq<char>| #[trigger] r.power_history(p) == Seq::<Checkpoint>::empty(),
            forall|t: Seq<char>| #[trigger] r.token_weight(t) is None,
            forall|t: Seq<char>| #[trigger] r.token_voter(t) is None,
            r.participants() == Seq::<Seq<char>>::empty(),
            r.hooks() == Seq::<Seq<char>>::empty(),
            r.version() == (CONTRACT_NAME@, CONTRACT_VERSION@),
    {
        let owner = match msg.owner {
            Some(o) => o,
            None => sender.clone(),
        };
        let mut total = History::new();
        total.save(block.height, Some(0));
        let r = VotingModule {
            dao: sender.clone(),
            nft_contract: msg.nft_contract,
            ownership: Ownership::new(Some(owner)),
            version: ContractVersion {
                contract: CONTRACT_NAME.to_string(),
                version: CONTRACT_VERSION.to_string(),
            },
            tokens: Vec::new(),
            voters: Vec::new(),
            total,
            hooks: Vec::new(),
            height: block.height,
        };
        assert(r.total@ =~= seq![(block.height, Some(0u128))]);
        assert forall|q: int| weight_of(#[trigger] value_at(r.total@, q)) == sum_at(r.voters@, q) by {
            assert(r.total@.drop_last() =~= Seq::<Checkpoint>::empty());
            assert(value_at(r.total@.drop_last(), q) is None);
            assert(sum_at(r.voters@, q) == 0);
        }
        assert(r.participants() =~= Seq::<Seq<char>>::empty());
        assert(r.hooks() =~= Seq::<Seq<char>>::empty());
        r
    }

    /// What stays the same across every call that only moves voting power.
    pub open spec fn same_setup(&self, other: &VotingModule) -> bool {
        &&& self.dao() == other.dao()
        &&& self.nft_contract() == other.nft_contract()
        &&& self.ownership() == other.ownership()
        &&& self.hooks() == other.hooks()
        &&& self.version() == other.version()
    }

    /// The state after voter `p` registered token `t` at height `h`, against
    /// the state before: the token keeps its weight `w` (zero when it had no
    /// record), and `w` is written to `p`'s power and added to the total.
    pub open spec fn registered_from(&self, prev: &VotingModule, p: Seq<char>, t: Seq<char>, h: u64) -> bool {
        let w = weight_of(prev.token_weight(t));
        &&& self.same_setup(prev)
        &&& self.height() == h
        &&& forall|x: Seq<char>| #[trigger]
            self.registered(x) == if x == p {
                Some(t)
            } else {
                prev.registered(x)
            }
        &&& forall|x: Seq<char>| #[trigger]
            self.token_voter(x) == if x == t {
                Some(p)
            } else {
                prev.token_voter(x)
            }
        &&& forall|x: Seq<char>| #[trigger]
            self.token_weight(x) == if x == t {
                Some(w as u128)
            } else {
                prev.token_weight(x)
            }
        &&& forall|x: Seq<char>| #[trigger]
            self.power_history(x) == if x == p {
                recorded(prev.power_history(x), h, Some(w as u128))
            } else {
                prev.power_history(x)
            }
        &&& self.total_history() == recorded(prev.total_history(), h, Some((prev.live_total() + w) as u128))
    }

    /// Why `sender`, holding the tokens `owned`, cannot register; `None` when it can.
    pub open spec fn register_error(&self, sender: Seq<char>, owned: Seq<Seq<char>>) -> Option<ContractError> {
        if self.registered(sender) is Some {
            Some(ContractError::AlreadyRegistered {})
        } else if owned.len() == 0 {
            Some(ContractError::CannotRegister {})
        } else if owned.len() > 1 {
            Some(ContractError::TooManyNfts {})
        } else if self.token_voter(owned[0]) is Some {
            Some(ContractError::NftAlreadyRegistered {})
        } else if self.live_total() + weight_of(self.token_weight(owned[0])) > u128::MAX {
            Some(ContractError::Overflow {})
        } else {
            None
        }
    }

    /// One stake notification for each endpoint, in order.
    pub fn stake_nft_hook_msgs(&self, addr: &String, token_id: &String) -> (r: Vec<HookMsg>)
        ensures
            stake_msgs(r@, self.hooks(), addr@, token_id@),
    {
        let mut r: Vec<HookMsg> = Vec::new();
        let mut i: usize = 0;
        while i < self.hooks.len()
            invariant
                i <= self.hooks@.len(),
                r@.len() == i,
                forall|k: int|
                    0 <= k < i ==> (#[trigger] r@[k]).contract_addr@ == self.hooks()[k] && match r@[k].msg {
                        NftStakeChangedHookMsg::Stake { addr: a, token_id: t } => a@ == addr@ && t@ == token_id@,
                        _ => false,
                    },
            decreases self.hooks@.len() - i,
        {
            r.push(
                HookMsg {
                    contract_addr: self.hooks[i].clone(),
                    msg: NftStakeChangedHookMsg::Stake { addr: addr.clone(), token_id: token_id.clone() },
                },
            );
            i = i + 1;
        }
        r
    }

    /// One unstake notification for each endpoint, in order.
    pub fn unstake_nft_hook_msgs(&self, addr: &String, token_id: &String) -> (r: Vec<HookMsg>)
        ensures
            unstake_msgs(r@, self.hooks(), addr@, token_id@),
    {
        let mut r: Vec<HookMsg> = Vec::new();
        let mut i: usize = 0;
        while i < self.hooks.len()
            invariant
                i <= self.hooks@.len(),
                r@.len() == i,
                forall|k: int|
                    0 <= k < i ==> (#[trigger] r@[k]).contract_addr@ == self.hooks()[k] && match r@[k].msg {
                        NftStakeChangedHookMsg::Unstake { addr: a, token_ids: ts } => a@ == addr@
                            && strings_view(ts@) == seq![token_id@],
                        _ => false,
                    },
            decreases self.hooks@.len() - i,
        {
            let ids = vec![token_id.clone()];
            assert(strings_view(ids@) =~= seq![token_id@]);
            r.push(
                HookMsg {
                    contract_addr: self.hooks[i].clone(),
                    msg: NftStakeChangedHookMsg::Unstake { addr: addr.clone(), token_ids: ids },
                },
            );
            i = i + 1;
        }
        r
    }

    /// Registers `sender`, which holds exactly the tokens `owned`, with its one
    /// token at `block`. The token keeps its weight (zero when it had none) and
    /// that weight is added to the sender's and to the total voting power,
    /// visible from the next height on. Every endpoint is told.
    pub fn execute_register(&mut self, block: &BlockInfo, sender: &String, owned: &Vec<String>) -> (r:
        Result<Vec<HookMsg>, ContractError>)
        requires
            old(self).wf(),
            old(self).height() <= block.height,
        ensures
            final(self).wf(),
            register_post(old(self), final(self), block.height, sender@, strings_view(owned@), r),
    {
        let ghost owned_v = strings_view(owned@);
        let ghost vs = self.voters@;
        let ghost ts = self.tokens@;
        let vi = self.find_voter(sender);
        proof {
            if let Some(i) = vi {
                lemma_voter_index(vs, i as int);
            }
        }
        if let Some(i) = vi {
            if self.voters[i].token.is_some() {
                return Err(ContractError::AlreadyRegistered {});
            }
        }
        if owned.len() == 0 {
            return Err(ContractError::CannotRegister {});
        }
        if owned.len() > 1 {
            return Err(ContractError::TooManyNfts {});
        }
        let t = &owned[0];
        assert(owned_v[0] == t@);
        let hi = self.find_holder(t);
        proof {
            if let Some(k) = hi {
                lemma_holder_index(vs, k as int);
            }
        }
        if hi.is_some() {
            return Err(ContractError::NftAlreadyRegistered {});
        }
        let ti = self.find_token(t);
        proof {
            if let Some(j) = ti {
                lemma_token_index(ts, j as int);
            }
        }
        let w: u128 = match ti {
            Some(j) => self.tokens[j].1,
            None => 0,
        };
        let cur_total: u128 = match self.total.load() {
            Some(x) => x,
            None => 0,
        };
        let new_total = match cur_total.checked_add(w) {
            Some(x) => x,
            None => {
                return Err(ContractError::Overflow {});
            },
        };
        let h = block.height;
        let ghost old_self = *self;
        if ti.is_none() {
            let entry = (t.clone(), 0u128);
            self.tokens.push(entry);
            proof {
                lemma_token_index_push(ts, entry);
            }
        }
        match vi {
            Some(i) => {
                self.voters[i].token = Some(t.clone());
                self.voters[i].power.save(h, Some(w));
                let ghost nv = self.voters@[i as int];
                assert(self.voters@ == vs.update(i as int, nv));
                proof {
                    lemma_voter_index_frame(vs, self.voters@);
                    lemma_holder_index_update(vs, i as int, nv);
                    lemma_conservation_update(vs, i as int, nv, old_self.total@, h, Some(w), new_total);
                    lemma_recorded_ordered(vs[i as int].power@, h, Some(w), h);
                }
            },
            None => {
                let mut power = History::new();
                power.save(h, Some(w));
                let nv = Voter { addr: sender.clone(), token: Some(t.clone()), power };
                self.voters.push(nv);
                proof {
                    lemma_voter_index_push(vs, nv);
                    lemma_holder_index_push(vs, nv);
                    lemma_conservation_push(vs, nv, old_self.total@, h, Some(w), new_total);
                    lemma_recorded_ordered(Seq::empty(), h, Some(w), h);
                }
            },
        }
        self.total.save(h, Some(new_total));
        self.height = h;
        proof {
            lemma_recorded_ordered(old_self.total@, h, Some(new_total), h);
            let vs2 = self.voters@;
            assert forall|k: int| 0 <= k < vs2.len() implies heights_increasing(#[trigger] vs2[k].power@)
                && heights_at_most(vs2[k].power@, h) && power_matches(self.tokens@, vs2[k]) by {
                if k < vs.len() && vi != Some(k as usize) {
                    assert(vs2[k] == vs[k]);
                    assert(power_matches(ts, vs[k]));
                    if let Some(tk) = vs[k].token {
                        assert(tk@ != t@);
                    }
                }
            }
        }
        Ok(self.stake_nft_hook_msgs(sender, t))
    }

    /// The state after voter `p` gave up token `t` at height `h`, against the state before.
    pub open spec fn unregistered_from(&self, prev: &VotingModule, p: Seq<char>, t: Seq<char>, h: u64) -> bool {
        &&& self.same_setup(prev)
        &&& self.height() == h
        &&& forall|x: Seq<char>| #[trigger]
            self.registered(x) == if x == p {
                None
            } else {
                prev.registered(x)
            }
        &&& forall|x: Seq<char>| #[trigger]
            self.token_voter(x) == if x == t {
                None
            } else {
                prev.token_voter(x)
            }
        &&& forall|x: Seq<char>| #[trigger] self.token_weight(x) == prev.token_weight(x)
        &&& forall|x: Seq<char>| #[trigger]
            self.power_history(x) == if x == p {
                recorded(prev.power_history(x), h, None)
            } else {
                prev.power_history(x)
            }
        &&& self.total_history() == recorded(
            prev.total_history(),
            h,
            Some((prev.live_total() - weight_of(current(prev.power_history(p)))) as u128),
        )
    }

    /// Clears the registration of voter `i` at height `h`: its token loses its
    /// voter, its power is removed and subtracted from the total.
    fn unregister_voter(&mut self, i: usize, h: u64) -> (r: Vec<HookMsg>)
        requires
            old(self).wf(),
            old(self).height() <= h,
            i < old(self).voters@.len(),
            old(self).voters@[i as int].token is Some,
        ensures
            final(self).wf(),
            final(self).unregistered_from(
                old(self),
                old(self).voters@[i as int].addr@,
                old(self).voters@[i as int].token->0@,
                h,
            ),
            unstake_msgs(
                r@,
                old(self).hooks(),
                old(self).voters@[i as int].addr@,
                old(self).voters@[i as int].token->0@,
            ),
    {
        let ghost vs = self.voters@;
        let ghost old_self = *self;
        let ghost p = vs[i as int].addr@;
        proof {
            lemma_voter_index(vs, i as int);
            lemma_holder_index(vs, i as int);
            let q = self.height as int + 1;
            lemma_value_at_above(self.total@, self.height, q);
            lemma_value_at_above(vs[i as int].power@, self.height, q);
            lemma_sum_ge(vs, i as int, q);
            assert(weight_of(value_at(self.total@, q)) == sum_at(vs, q));
        }
        let cur: u128 = match self.voters[i].power.load() {
            Some(x) => x,
            None => 0,
        };
        let cur_total: u128 = match self.total.load() {
            Some(x) => x,
            None => 0,
        };
        let new_total = cur_total - cur;
        let addr = self.voters[i].addr.clone();
        let token = clone_opt(&self.voters[i].token).unwrap();
        self.voters[i].token = None;
        self.voters[i].power.save(h, None);
        let ghost nv = self.voters@[i as int];
        assert(self.voters@ == vs.update(i as int, nv));
        self.total.save(h, Some(new_total));
        self.height = h;
        proof {
            lemma_voter_index_frame(vs, self.voters@);
            lemma_holder_index_update(vs, i as int, nv);
            lemma_conservation_update(vs, i as int, nv, old_self.total@, h, None, new_total);
            lemma_recorded_ordered(vs[i as int].power@, h, None, h);
            lemma_recorded_ordered(old_self.total@, h, Some(new_total), h);
            let vs2 = self.voters@;
            assert forall|k: int| 0 <= k < vs2.len() implies heights_increasing(#[trigger] vs2[k].power@)
                && heights_at_most(vs2[k].power@, h) && power_matches(self.tokens@, vs2[k]) by {
                if k != i {
                    assert(vs2[k] == vs[k]);
                    assert(power_matches(self.tokens@, vs[k]));
                }
            }
        }
        self.unstake_nft_hook_msgs(&addr, &token)
    }

    /// Withdraws `sender`'s registration at `block`. Its voting power drops to
    /// zero and leaves the total, visible from the next height on; its token
    /// keeps its weight and can be registered again. Every endpoint is told.
    pub fn execute_unregister(&mut self, block: &BlockInfo, sender: &String) -> (r: Result<Vec<HookMsg>, ContractError>)
        requires
            old(self).wf(),
            old(self).height() <= block.height,
        ensures
            final(self).wf(),
            unregister_post(old(self), final(self), block.height, sender@, r),
    {
        let vi = self.find_voter(sender);
        proof {
            if let Some(i) = vi {
                lemma_voter_index(self.voters@, i as int);
            }
        }
        match vi {
            Some(i) => {
                if self.voters[i].token.is_none() {
                    return Err(ContractError::NotRegistered {});
                }
                Ok(self.unregister_voter(i, block.height))
            },
            None => Err(ContractError::NotRegistered {}),
        }
    }

    /// Reconciles token `token_id` with `holder`, the account that the token
    /// collection now reports as holding it (`None` when the token is gone).
    /// When the registered voter of the token no longer holds it, its
    /// registration is withdrawn as by `execute_unregister`; otherwise nothing
    /// changes.
    pub fn execute_sync(&mut self, block: &BlockInfo, token_id: &String, holder: &Option<String>) -> (r:
        Vec<HookMsg>)
        requires
            old(self).wf(),
            old(self).height() <= block.height,
        ensures
            final(self).wf(),
            sync_post(old(self), final(self), block.height, token_id@, opt_view(*holder), r),
    {
        let hi = self.find_holder(token_id);
        proof {
            if let Some(k) = hi {
                lemma_holder_index(self.voters@, k as int);
            }
        }
        match hi {
            Some(i) => {
                let still_held = match holder {
                    Some(a) => *a == self.voters[i].addr,
                    None => false,
                };
                if still_held {
                    Vec::new()
                } else {
                    self.unregister_voter(i, block.height)
                }
            },
            None => Vec::new(),
        }
    }

    /// Whether `sender` may make privileged calls: the governing body always
    /// may, anyone else only as the delegated owner.
    pub open spec fn authority_check(&self, sender: Seq<char>) -> Result<(), OwnershipError> {
        if sender == self.dao() {
            Ok(())
        } else {
            owner_check(self.ownership(), sender)
        }
    }

    fn check_authority(&self, sender: &String) -> (r: Result<(), ContractError>)
        ensures
            match self.authority_check(sender@) {
                Ok(_) => r is Ok,
                Err(e) => r == Err::<(), ContractError>(ContractError::Ownable(e)),
            },
    {
        if *sender == self.dao {
            return Ok(());
        }
        match self.ownership.assert_owner(sender) {
            Ok(_) => Ok(()),
            Err(e) => Err(ContractError::Ownable(e)),
        }
    }

    /// The total that setting token `t` to `power` leads to, when `t` has a voter.
    pub open spec fn total_after_weight(&self, t: Seq<char>, power: u128) -> int {
        self.live_total() - weight_of(self.token_weight(t)) + power
    }

    /// Sets the weight of token `token_id` to `power` at `block`; only the
    /// governing body or the owner may. A token without a record gets one.
    /// When a voter is registered with the token, its voting power and the
    /// total move by the difference, visible from the next height on.
    pub fn execute_set_voting_power(
        &mut self,
        block: &BlockInfo,
        sender: &String,
        token_id: String,
        power: u128,
    ) -> (r: Result<(), ContractError>)
        requires
            old(self).wf(),
            old(self).height() <= block.height,
        ensures
            final(self).wf(),
            set_weight_post(old(self), final(self), block.height, sender@, token_id@, power, r),
    {
        match self.check_authority(sender) {
            Err(e) => {
                return Err(e);
            },
            Ok(_) => {},
        }
        let h = block.height;
        let ghost vs = self.voters@;
        let ghost ts = self.tokens@;
        let ghost old_self = *self;
        let ti = self.find_token(&token_id);
        let hi = self.find_holder(&token_id);
        proof {
            if let Some(j) = ti {
                lemma_token_index(ts, j as int);
            }
            if let Some(k) = hi {
                lemma_holder_index(vs, k as int);
            }
        }
        match ti {
            None => {
                proof {
                    if let Some(k) = hi {
                        assert(power_matches(ts, vs[k as int]));
                    }
                }
                let entry = (token_id, power);
                self.tokens.push(entry);
                proof {
                    lemma_token_index_push(ts, entry);
                }
                self.height = h;
                proof {
                    assert forall|k: int| 0 <= k < vs.len() implies power_matches(self.tokens@, #[trigger] vs[k]) by {
                        assert(power_matches(ts, vs[k]));
                    }
                    assert forall|x: Seq<char>| #[trigger] self.token_voter(x) == old_self.token_voter(x) by {}
                }
                Ok(())
            },
            Some(j) => {
                let vp = self.tokens[j].1;
                match hi {
                    None => {},
                    Some(i) => {
                        proof {
                            assert(power_matches(ts, vs[i as int]));
                            let q = self.height as int + 1;
                            lemma_value_at_above(self.total@, self.height, q);
                            lemma_value_at_above(vs[i as int].power@, self.height, q);
                            lemma_sum_ge(vs, i as int, q);
                            assert(weight_of(value_at(self.total@, q)) == sum_at(vs, q));
                        }
                        let cur_total: u128 = match self.total.load() {
                            Some(x) => x,
                            None => 0,
                        };
                        let new_total: u128 = if power > vp {
                            match cur_total.checked_add(power - vp) {
                                Some(x) => x,
                                None => {
                                    return Err(ContractError::Overflow {});
                                },
                            }
                        } else {
                            cur_total - (vp - power)
                        };
                        self.voters[i].power.save(h, Some(power));
                        let ghost nv = self.voters@[i as int];
                        assert(self.voters@ == vs.update(i as int, nv));
                        self.total.save(h, Some(new_total));
                        proof {
                            lemma_voter_index_frame(vs, self.voters@);
                            lemma_holder_index_update(vs, i as int, nv);
                            lemma_conservation_update(vs, i as int, nv, old_self.total@, h, Some(power), new_total);
                            lemma_recorded_ordered(vs[i as int].power@, h, Some(power), h);
                            lemma_recorded_ordered(old_self.total@, h, Some(new_total), h);
                        }
                    },
                }
                let ghost vs2 = self.voters@;
                let ghost ts0 = self.tokens@;
                self.tokens[j].1 = power;
                self.height = h;
                proof {
                    lemma_token_index_frame(ts0, self.tokens@);
                    assert forall|k: int| 0 <= k < vs2.len() implies heights_increasing(#[trigger] vs2[k].power@)
                        && heights_at_most(vs2[k].power@, h) && power_matches(self.tokens@, vs2[k]) by {
                        if hi != Some(k as usize) {
                            assert(vs2[k] == vs[k]);
                            assert(power_matches(ts, vs[k]));
                            if let Some(tk) = vs[k].token {
                                assert(tk@ != token_id@);
                            }
                        }
                    }
                    if hi.is_none() {
                        assert(self.voters@ == vs);
                        assert forall|x: Seq<char>| #[trigger] self.power_history(x) == old_self.power_history(x) by {}
                    }
                }
                Ok(())
            },
        }
    }

    /// Nothing that voting power depends on has changed.
    pub open spec fn same_ledger(&self, other: &VotingModule) -> bool {
        &&& forall|x: Seq<char>| #[trigger] self.registered(x) == other.registered(x)
        &&& forall|x: Seq<char>| #[trigger] self.token_voter(x) == other.token_voter(x)
        &&& forall|x: Seq<char>| #[trigger] self.token_weight(x) == other.token_weight(x)
        &&& forall|x: Seq<char>| #[trigger] self.power_history(x) == other.power_history(x)
        &&& self.total_history() == other.total_history()
        &&& self.participants() == other.participants()
        &&& self.height() == other.height()
    }

    /// Adds `addr` to the notified endpoints; only the governing body or the
    /// owner may, and an endpoint is added once.
    pub fn execute_add_hook(&mut self, sender: &String, addr: String) -> (r: Result<(), ContractError>)
        requires
            old(self).wf(),
        ensures
            final(self).wf(),
            add_hook_post(old(self), final(self), sender@, addr@, r),
    {
        match self.check_authority(sender) {
            Err(e) => {
                return Err(e);
            },
            Ok(_) => {},
        }
        let found = self.find_hook(&addr);
        match found {
            Some(i) => {
                assert(self.hooks()[i as int] == addr@);
                Err(ContractError::HookError(HookError::HookAlreadyRegistered {}))
            },
            None => {
                let ghost old_hooks = self.hooks();
                self.hooks.push(addr);
                assert(self.hooks() =~= old_hooks.push(addr@));
                Ok(())
            },
        }
    }

    /// Removes `addr` from the notified endpoints; only the governing body or
    /// the owner may.
    pub fn execute_remove_hook(&mut self, sender: &String, addr: String) -> (r: Result<(), ContractError>)
        requires
            old(self).wf(),
        ensures
            final(self).wf(),
            remove_hook_post(old(self), final(self), sender@, addr@, r),
    {
        match self.check_authority(sender) {
            Err(e) => {
                return Err(e);
            },
            Ok(_) => {},
        }
        let found = self.find_hook(&addr);
        match found {
            Some(i) => {
                let ghost old_hooks = self.hooks();
                let ghost old_raw = self.hooks@;
                self.hooks.remove(i);
                assert(self.hooks() =~= old_hooks.remove(i as int));
                assert(old_hooks[i as int] == addr@);
                assert forall|a: int, b: int| 0 <= a < b < self.hooks@.len() implies self.hooks@[a]@ != self.hooks@[b]@ by {
                    let a0 = if a < i { a } else { a + 1 };
                    let b0 = if b < i { b } else { b + 1 };
                    assert(self.hooks@[a] == old_raw[a0]);
                    assert(self.hooks@[b] == old_raw[b0]);
                }
                Ok(())
            },
            None => {
                assert forall|j: int| 0 <= j < self.hooks().len() implies self.hooks()[j] != addr@ by {
                    assert(self.hooks()[j] == self.hooks@[j]@);
                }
                assert(!self.hooks().contains(addr@));
                Err(ContractError::HookError(HookError::HookNotRegistered {}))
            },
        }
    }

    /// What a call to change the delegated owner makes of it. The governing
    /// body may renounce as the owner may, which hands ownership back to the
    /// governing body; and it may propose a transfer in the owner's place.
    pub open spec fn owner_update(&self, block: BlockInfo, sender: Seq<char>, action: ActionView) -> Result<
        OwnershipView,
        OwnershipError,
    > {
        match action {
            ActionView::Renounce => match self.authority_check(sender) {
                Err(e) => Err(e),
                Ok(_) => Ok(OwnershipView { owner: Some(self.dao()), pending_owner: None, pending_expiry: None }),
            },
            ActionView::Transfer { .. } => ownership_after(
                self.ownership(),
                block,
                if sender == self.dao() && self.ownership().owner is Some {
                    self.ownership().owner->0
                } else {
                    sender
                },
                action,
            ),
            ActionView::Accept => ownership_after(self.ownership(), block, sender, action),
        }
    }

    /// Transfers, accepts or renounces the delegated ownership.
    pub fn execute_update_owner(&mut self, block: &BlockInfo, sender: &String, action: Action) -> (r: Result<
        (),
        ContractError,
    >)
        requires
            old(self).wf(),
        ensures
            final(self).wf(),
            update_owner_post(old(self), final(self), *block, sender@, action@, r),
    {
        match action {
            Action::RenounceOwnership => {
                match self.check_authority(sender) {
                    Err(e) => {
                        return Err(e);
                    },
                    Ok(_) => {},
                }
                let dao = self.dao.clone();
                self.ownership = Ownership::new(Some(dao));
                assert(self.ownership() == OwnershipView { owner: Some(self.dao()), pending_owner: None, pending_expiry: None });
                Ok(())
            },
            Action::TransferOwnership { new_owner, expiry } => {
                let acting = if *sender == self.dao && self.ownership.owner.is_some() {
                    match &self.ownership.owner {
                        Some(o) => o.clone(),
                        None => sender.clone(),
                    }
                } else {
                    sender.clone()
                };
                let action = Action::TransferOwnership { new_owner, expiry };
                match self.ownership.update_ownership(block, &acting, action) {
                    Ok(_) => Ok(()),
                    Err(e) => Err(ContractError::Ownable(e)),
                }
            },
            Action::AcceptOwnership => {
                match self.ownership.update_ownership(block, sender, Action::AcceptOwnership) {
                    Ok(_) => Ok(()),
                    Err(e) => Err(ContractError::Ownable(e)),
                }
            },
        }
    }

    /// The voting power of `address` as a query at `height` (the current
    /// block's when absent) sees it.
    pub fn query_voting_power_at_height(&self, block: &BlockInfo, address: &String, height: Option<u64>) -> (r:
        VotingPowerAtHeightResponse)
        requires
            self.wf(),
        ensures
            r.height == match height {
                Some(h) => h,
                None => block.height,
            },
            r.power == self.power_at(address@, r.height as int),
    {
        let h = match height {
            Some(h) => h,
            None => block.height,
        };
        let vi = self.find_voter(address);
        let power: u128 = match vi {
            Some(i) => {
                proof {
                    lemma_voter_index(self.voters@, i as int);
                }
                match self.voters[i].power.load_at(h) {
                    Some(x) => x,
                    None => 0,
                }
            },
            None => 0,
        };
        VotingPowerAtHeightResponse { power, height: h }
    }

    /// The total voting power as a query at `height` (the current block's
    /// when absent) sees it.
    pub fn query_total_power_at_height(&self, block: &BlockInfo, height: Option<u64>) -> (r:
        TotalPowerAtHeightResponse)
        ensures
            r.height == match height {
                Some(h) => h,
                None => block.height,
            },
            r.power == self.total_at(r.height as int),
    {
        let h = match height {
            Some(h) => h,
            None => block.height,
        };
        let power: u128 = match self.total.load_at(h) {
            Some(x) => x,
            None => 0,
        };
        TotalPowerAtHeightResponse { power, height: h }
    }

    /// The token that `address` is registered with.
    pub fn query_registered_nft(&self, address: &String) -> (r: RegisteredNftResponse)
        requires
            self.wf(),
        ensures
            opt_view(r.token_id) == self.registered(address@),
    {
        match self.find_voter(address) {
            Some(i) => {
                proof {
                    lemma_voter_index(self.voters@, i as int);
                }
                RegisteredNftResponse { token_id: clone_opt(&self.voters[i].token) }
            },
            None => RegisteredNftResponse { token_id: None },
        }
    }

    /// The governing body.
    pub fn query_dao(&self) -> (r: String)
        ensures
            r@ == self.dao(),
    {
        self.dao.clone()
    }

    /// The collection whose tokens carry the votes.
    pub fn query_nft_contract(&self) -> (r: String)
        ensures
            r@ == self.nft_contract(),
    {
        self.nft_contract.clone()
    }

    /// The notified endpoints, in the order they were added.
    pub fn query_hooks(&self) -> (r: HooksResponse)
        ensures
            strings_view(r.hooks@) == self.hooks(),
    {
        let mut hooks: Vec<String> = Vec::new();
        let mut i: usize = 0;
        while i < self.hooks.len()
            invariant
                i <= self.hooks@.len(),
                strings_view(hooks@) == self.hooks().take(i as int),
            decreases self.hooks@.len() - i,
        {
            let ghost before = hooks@;
            hooks.push(self.hooks[i].clone());
            assert(strings_view(hooks@) =~= strings_view(before).push(self.hooks@[i as int]@));
            assert(self.hooks().take(i + 1) =~= self.hooks().take(i as int).push(self.hooks@[i as int]@));
            i = i + 1;
        }
        assert(self.hooks().take(i as int) =~= self.hooks());
        HooksResponse { hooks }
    }

    /// The delegated owner and any transfer that waits.
    pub fn query_ownership(&self) -> (r: Ownership)
        ensures
            r@ == self.ownership(),
    {
        self.ownership.clone_ownership()
    }

    /// The recorded name and version of the code.
    pub fn query_info(&self) -> (r: InfoResponse)
        ensures
            (r.info.contract@, r.info.version@) == self.version(),
    {
        InfoResponse {
            info: ContractVersion {
                contract: self.version.contract.clone(),
                version: self.version.version.clone(),
            },
        }
    }

    /// Records this code's name and version when the recorded version comes
    /// before it; leaves everything else alone.
    pub fn migrate(&mut self, _msg: MigrateMsg)
        requires
            old(self).wf(),
        ensures
            final(self).wf(),
            final(self).version() == if chars_lt(old(self).version().1, CONTRACT_VERSION@) {
                (CONTRACT_NAME@, CONTRACT_VERSION@)
            } else {
                old(self).version()
            },
            final(self).same_ledger(old(self)),
            final(self).same_config(old(self)),
    {
        let current = CONTRACT_VERSION.to_string();
        if str_lt(&self.version.version, &current) {
            self.version = ContractVersion { contract: CONTRACT_NAME.to_string(), version: current };
        }
    }

    /// Records `contract` and `version` as the name and version of the code
    /// that last wrote the module's state.
    pub fn set_contract_version(&mut self, contract: String, version: String)
        requires
            old(self).wf(),
        ensures
            final(self).wf(),
            final(self).version() == (contract@, version@),
            final(self).same_ledger(old(self)),
            final(self).same_config(old(self)),
    {
        self.version = ContractVersion { contract, version };
    }

    /// The governing body, collection, owner and endpoints are unchanged.
    pub open spec fn same_config(&self, other: &VotingModule) -> bool {
        &&& self.dao() == other.dao()
        &&& self.nft_contract() == other.nft_contract()
        &&& self.ownership() == other.ownership()
        &&& self.hooks() == other.hooks()
    }

    /// `page` lists, in ascending order, the first `limit` registered voters
    /// that come after `start`.
    pub open spec fn is_voter_page(&self, start: Option<Seq<char>>, limit: nat, page: Seq<Seq<char>>) -> bool {
        &&& page.len() <= limit
        &&& forall|i: int|
            0 <= i < page.len() ==> self.registered(#[trigger] page[i]) is Some && after(start, page[i])
        &&& forall|i: int, j: int| 0 <= i < j < page.len() ==> chars_lt(page[i], page[j])
        &&& forall|v: Seq<char>|
            #![trigger self.registered(v)]
            self.registered(v) is Some && after(start, v) && (page.len() < limit || (page.len() > 0
                && chars_lt(v, page.last()))) ==> page.contains(v)
    }

    /// The registered voter with the smallest address after `cursor`.
    fn next_voter(&self, cursor: &Option<String>) -> (r: Option<usize>)
        ensures
            match r {
                Some(i) => {
                    &&& i < self.voters@.len()
                    &&& self.voters@[i as int].token is Some
                    &&& after(opt_view(*cursor), self.voters@[i as int].addr@)
                    &&& forall|k: int|
                        0 <= k < self.voters@.len() && (#[trigger] self.voters@[k]).token is Some && after(
                            opt_view(*cursor),
                            self.voters@[k].addr@,
                        ) ==> self.voters@[k].addr@ == self.voters@[i as int].addr@ || chars_lt(
                            self.voters@[i as int].addr@,
                            self.voters@[k].addr@,
                        )
                },
                None => forall|k: int|
                    0 <= k < self.voters@.len() ==> !((#[trigger] self.voters@[k]).token is Some && after(
                        opt_view(*cursor),
                        self.voters@[k].addr@,
                    )),
            },
    {
        let mut best: Option<usize> = None;
        let mut k: usize = 0;
        while k < self.voters.len()
            invariant
                k <= self.voters@.len(),
                match best {
                    Some(i) => {
                        &&& i < k
                        &&& self.voters@[i as int].token is Some
                        &&& after(opt_view(*cursor), self.voters@[i as int].addr@)
                        &&& forall|m: int|
                            0 <= m < k && (#[trigger] self.voters@[m]).token is Some && after(
                                opt_view(*cursor),
                                self.voters@[m].addr@,
                            ) ==> self.voters@[m].addr@ == self.voters@[i as int].addr@ || chars_lt(
                                self.voters@[i as int].addr@,
                                self.voters@[m].addr@,
                            )
                    },
                    None => forall|m: int|
                        0 <= m < k ==> !((#[trigger] self.voters@[m]).token is Some && after(
                            opt_view(*cursor),
                            self.voters@[m].addr@,
                        )),
                },
            decreases self.voters@.len() - k,
        {
            if self.voters[k].token.is_some() {
                let eligible = match cursor {
                    Some(c) => str_lt(c, &self.voters[k].addr),
                    None => true,
                };
                if eligible {
                    match best {
                        None => {
                            best = Some(k);
                        },
                        Some(i) => {
                            if str_lt(&self.voters[k].addr, &self.voters[i].addr) {
                                proof {
                                    assert forall|m: int|
                                        0 <= m < k + 1 && (#[trigger] self.voters@[m]).token is Some
                                            && after(opt_view(*cursor), self.voters@[m].addr@)
                                        implies self.voters@[m].addr@ == self.voters@[k as int].addr@
                                        || chars_lt(self.voters@[k as int].addr@, self.voters@[m].addr@) by {
                                        if m < k && self.voters@[m].addr@ != self.voters@[i as int].addr@ {
                                            lemma_chars_lt_transitive(
                                                self.voters@[k as int].addr@,
                                                self.voters@[i as int].addr@,
                                                self.voters@[m].addr@,
                                            );
                                        }
                                    }
                                }
                                best = Some(k);
                            } else {
                                proof {
                                    lemma_chars_lt_total(self.voters@[k as int].addr@, self.voters@[i as int].addr@);
                                }
                            }
                        },
                    }
                }
            }
            k = k + 1;
        }
        best
    }

    /// Lists, in ascending order, at most `limit` (by default `DEFAULT_LIMIT`)
    /// registered voters, starting after `start_after`.
    pub fn query_list_voters(&self, start_after: Option<String>, limit: Option<u32>) -> (r: ListVotersResponse)
        requires
            self.wf(),
        ensures
            self.is_voter_page(
                opt_view(start_after),
                match limit {
                    Some(l) => l as nat,
                    None => DEFAULT_LIMIT as nat,
                },
                strings_view(r.voters@),
            ),
    {
        let limit: usize = match limit {
            Some(l) => l as usize,
            None => DEFAULT_LIMIT as usize,
        };
        let ghost start = opt_view(start_after);
        let mut page: Vec<String> = Vec::new();
        let mut cursor: Option<String> = start_after;
        while page.len() < limit
            invariant
                self.wf(),
                page@.len() <= limit,
                forall|i: int|
                    0 <= i < page@.len() ==> self.registered(#[trigger] strings_view(page@)[i]) is Some
                        && after(start, strings_view(page@)[i]),
                forall|i: int, j: int|
                    0 <= i < j < page@.len() ==> chars_lt(strings_view(page@)[i], strings_view(page@)[j]),
                opt_view(cursor) == if page@.len() == 0 {
                    start
                } else {
                    Some(strings_view(page@).last())
                },
                forall|v: Seq<char>|
                    #![trigger self.registered(v)]
                    self.registered(v) is Some && after(start, v) && !after(opt_view(cursor), v)
                        ==> strings_view(page@).contains(v),
            ensures
                page@.len() < limit ==> forall|v: Seq<char>|
                    #![trigger self.registered(v)]
                    self.registered(v) is Some && after(start, v) ==> !after(opt_view(cursor), v),
            decreases limit - page@.len(),
        {
            let next = self.next_voter(&cursor);
            match next {
                None => {
                    proof {
                        assert forall|v: Seq<char>|
                            #![trigger self.registered(v)]
                            self.registered(v) is Some && after(start, v) implies !after(opt_view(cursor), v) by {
                            let k = voter_index(self.voters@, v);
                            assert(0 <= k < self.voters@.len());
                            assert(self.voters@[k].token is Some);
                        }
                    }
                    break;
                },
                Some(i) => {
                    let a = self.voters[i].addr.clone();
                    let ghost pv = strings_view(page@);
                    proof {
                        lemma_voter_index(self.voters@, i as int);
                        if pv.len() > 0 {
                            if let Some(st) = start {
                                lemma_chars_lt_transitive(st, pv.last(), a@);
                            }
                        }
                    }
                    page.push(a.clone());
                    let ghost pv2 = strings_view(page@);
                    assert(pv2 =~= pv.push(a@));
                    proof {
                        assert forall|x: int, y: int| 0 <= x < y < pv2.len() implies chars_lt(pv2[x], pv2[y]) by {
                            if y == pv2.len() - 1 && x < pv.len() - 1 {
                                lemma_chars_lt_transitive(pv[x], pv.last(), a@);
                            }
                        }
                        assert forall|v: Seq<char>|
                            #![trigger self.registered(v)]
                            self.registered(v) is Some && after(start, v) && !after(Some(a@), v)
                                implies pv2.contains(v) by {
                            if after(opt_view(cursor), v) {
                                let k = voter_index(self.voters@, v);
                                assert(self.voters@[k].token is Some);
                                lemma_chars_lt_total(a@, v);
                                assert(v == a@);
                                assert(pv2[pv2.len() - 1] == v);
                            } else {
                                assert(pv.contains(v));
                                let x = choose|x: int| 0 <= x < pv.len() && pv[x] == v;
                                assert(pv2[x] == v);
                            }
                        }
                    }
                    cursor = Some(a);
                },
            }
        }
        proof {
            let pv = strings_view(page@);
            assert forall|v: Seq<char>|
                #![trigger self.registered(v)]
                self.registered(v) is Some && after(start, v) && (pv.len() < limit || (pv.len() > 0
                    && chars_lt(v, pv.last()))) implies pv.contains(v) by {
                if pv.len() >= limit {
                    lemma_chars_lt_asymmetric(v, pv.last());
                }
            }
        }
        ListVotersResponse { voters: page }
    }

    /// Runs the call `msg` from `sender` at `block`, with what the token
    /// collection reports in `custody`, and returns the notifications to send.
    pub fn execute(&mut self, block: &BlockInfo, sender: &String, msg: ExecuteMsg, custody: &Custody) -> (r:
        Result<Vec<HookMsg>, ContractError>)
        requires
            old(self).wf(),
            old(self).height() <= block.height,
        ensures
            final(self).wf(),
            match msg {
                ExecuteMsg::Register {} => register_post(
                    old(self),
                    final(self),
                    block.height,
                    sender@,
                    strings_view(custody.owned_by_sender@),
                    r,
                ),
                ExecuteMsg::Unregister {} => unregister_post(old(self), final(self), block.height, sender@, r),
                ExecuteMsg::SetVotingPower { token_id, power } => set_weight_post(
                    old(self),
                    final(self),
                    block.height,
                    sender@,
                    token_id@,
                    power,
                    without_msgs(r),
                ),
                ExecuteMsg::Sync { token_id } => r is Ok && sync_post(
                    old(self),
                    final(self),
                    block.height,
                    token_id@,
                    opt_view(custody.holder),
                    r->Ok_0,
                ),
                ExecuteMsg::AddHook { addr } => add_hook_post(old(self), final(self), sender@, addr@, without_msgs(r)),
                ExecuteMsg::RemoveHook { addr } => remove_hook_post(
                    old(self),
                    final(self),
                    sender@,
                    addr@,
                    without_msgs(r),
                ),
                ExecuteMsg::UpdateOwnership(action) => update_owner_post(
                    old(self),
                    final(self),
                    *block,
                    sender@,
                    action@,
                    without_msgs(r),
                ),
            },
            r is Ok && !(msg is Register) && !(msg is Unregister) && !(msg is Sync) ==> r->Ok_0@.len() == 0,
    {
        match msg {
            ExecuteMsg::Register {} => self.execute_register(block, sender, &custody.owned_by_sender),
            ExecuteMsg::Unregister {} => self.execute_unregister(block, sender),
            ExecuteMsg::SetVotingPower { token_id, power } => {
                match self.execute_set_voting_power(block, sender, token_id, power) {
                    Ok(_) => Ok(Vec::new()),
                    Err(e) => Err(e),
                }
            },
            ExecuteMsg::Sync { token_id } => Ok(self.execute_sync(block, &token_id, &custody.holder)),
            ExecuteMsg::AddHook { addr } => {
                match self.execute_add_hook(sender, addr) {
                    Ok(_) => Ok(Vec::new()),
                    Err(e) => Err(e),
                }
            },
            ExecuteMsg::RemoveHook { addr } => {
                match self.execute_remove_hook(sender, addr) {
                    Ok(_) => Ok(Vec::new()),
                    Err(e) => Err(e),
                }
            },
            ExecuteMsg::UpdateOwnership(action) => {
                match self.execute_update_owner(block, sender, action) {
                    Ok(_) => Ok(Vec::new()),
                    Err(e) => Err(e),
                }
            },
        }
    }

    /// Answers the query `msg` at `block`.
    pub fn query(&self, block: &BlockInfo, msg: QueryMsg) -> (r: QueryResponse)
        requires
            self.wf(),
        ensures
            match msg {
                QueryMsg::Dao {} => r matches QueryResponse::Dao(d) && d@ == self.dao(),
                QueryMsg::NftContract {} => r matches QueryResponse::NftContract(n) && n@ == self.nft_contract(),
                QueryMsg::Info {} => r matches QueryResponse::Info(i) && (i.info.contract@, i.info.version@)
                    == self.version(),
                QueryMsg::Hooks {} => r matches QueryResponse::Hooks(h) && strings_view(h.hooks@) == self.hooks(),
                QueryMsg::RegisteredNft { address } => r matches QueryResponse::RegisteredNft(n) && opt_view(
                    n.token_id,
                ) == self.registered(address@),
                QueryMsg::ListVoters { start_after, limit } => r matches QueryResponse::ListVoters(l)
                    && self.is_voter_page(
                    opt_view(start_after),
                    match limit {
                        Some(x) => x as nat,
                        None => DEFAULT_LIMIT as nat,
                    },
                    strings_view(l.voters@),
                ),
                QueryMsg::TotalPowerAtHeight { height } => r matches QueryResponse::TotalPowerAtHeight(t)
                    && t.height == match height {
                    Some(h) => h,
                    None => block.height,
                } && t.power == self.total_at(t.height as int),
                QueryMsg::VotingPowerAtHeight { address, height } => r matches QueryResponse::VotingPowerAtHeight(
                    v,
                ) && v.height == match height {
                    Some(h) => h,
                    None => block.height,
                } && v.power == self.power_at(address@, v.height as int),
                QueryMsg::Ownership {} => r matches QueryResponse::Ownership(o) && o@ == self.ownership(),
            },
    {
        match msg {
            QueryMsg::Dao {} => QueryResponse::Dao(self.query_dao()),
            QueryMsg::NftContract {} => QueryResponse::NftContract(self.query_nft_contract()),
            QueryMsg::Info {} => QueryResponse::Info(self.query_info()),
            QueryMsg::Hooks {} => QueryResponse::Hooks(self.query_hooks()),
            QueryMsg::RegisteredNft { address } => QueryResponse::RegisteredNft(self.query_registered_nft(&address)),
            QueryMsg::ListVoters { start_after, limit } => QueryResponse::ListVoters(
                self.query_list_voters(start_after, limit),
            ),
            QueryMsg::TotalPowerAtHeight { height } => QueryResponse::TotalPowerAtHeight(
                self.query_total_power_at_height(block, height),
            ),
            QueryMsg::VotingPowerAtHeight { address, height } => QueryResponse::VotingPowerAtHeight(
                self.query_voting_power_at_height(block, &address, height),
            ),
            QueryMsg::Ownership {} => QueryResponse::Ownership(self.query_ownership()),
        }
    }

    /// The highest height at which anything was written; a call must not run
    /// at a lower one.
    pub fn last_height(&self) -> (r: u64)
        ensures
            r == self.height(),
    {
        self.height
    }

    /// Whether the total equals the sum of the voters as a query at `q` sees them.
    pub closed spec fn balanced_at(&self, q: int) -> bool {
        weight_of(value_at(self.total@, q)) == sum_at(self.voters@, q)
    }

    /// Whether the balance holds just above every height at which something was written.
    closed spec fn balanced_at_writes(&self) -> bool {
        &&& forall|i: int| 0 <= i < self.total@.len() ==> self.balanced_at((#[trigger] self.total@[i]).0 + 1)
        &&& forall|k: int, j: int|
            0 <= k < self.voters@.len() && 0 <= j < self.voters@[k].power@.len() ==> self.balanced_at(
                (#[trigger] self.voters@[k].power@[j]).0 + 1,
            )
    }

    proof fn lemma_balanced_everywhere(&self, q: int)
        requires
            self.balanced_at_writes(),
        ensures
            self.balanced_at(q),
        decreases q,
    {
        if q <= 0 {
            lemma_value_at_non_positive(self.total@, q);
            lemma_sum_non_positive(self.voters@, q);
        } else if exists|i: int| 0 <= i < self.total@.len() && self.total@[i].0 == q - 1 {
            let i = choose|i: int| 0 <= i < self.total@.len() && self.total@[i].0 == q - 1;
            assert(self.balanced_at(self.total@[i].0 + 1));
        } else if exists|k: int, j: int|
            0 <= k < self.voters@.len() && 0 <= j < self.voters@[k].power@.len() && self.voters@[k].power@[j].0
                == q - 1 {
            let (k, j) = choose|k: int, j: int|
                0 <= k < self.voters@.len() && 0 <= j < self.voters@[k].power@.len()
                    && self.voters@[k].power@[j].0 == q - 1;
            assert(self.balanced_at(self.voters@[k].power@[j].0 + 1));
        } else {
            lemma_value_at_step(self.total@, q);
            lemma_sum_step(self.voters@, q);
            self.lemma_balanced_everywhere(q - 1);
        }
    }

    /// Whether the balance holds just above height `h`.
    fn balanced_after(&self, h: u64) -> (r: bool)
        ensures
            r == self.balanced_at(h as int + 1),
    {
        let ghost q = h as int + 1;
        let total: u128 = if h < u64::MAX {
            match self.total.load_at(h + 1) {
                Some(x) => x,
                None => 0,
            }
        } else {
            proof {
                lemma_value_at_above(self.total@, u64::MAX, q);
            }
            match self.total.load() {
                Some(x) => x,
                None => 0,
            }
        };
        let mut sum: u128 = 0;
        let mut k: usize = 0;
        assert(self.voters@.take(0) =~= Seq::<Voter>::empty());
        while k < self.voters.len()
            invariant
                q == h as int + 1,
                k <= self.voters@.len(),
                total == weight_of(value_at(self.total@, q)),
                sum == sum_at(self.voters@.take(k as int), q),
            decreases self.voters@.len() - k,
        {
            let w: u128 = if h < u64::MAX {
                match self.voters[k].power.load_at(h + 1) {
                    Some(x) => x,
                    None => 0,
                }
            } else {
                proof {
                    lemma_value_at_above(self.voters@[k as int].power@, u64::MAX, q);
                }
                match self.voters[k].power.load() {
                    Some(x) => x,
                    None => 0,
                }
            };
            assert(self.voters@.take(k + 1).drop_last() =~= self.voters@.take(k as int));
            match sum.checked_add(w) {
                Some(x) => {
                    sum = x;
                },
                None => {
                    proof {
                        lemma_sum_prefix_le(self.voters@, k + 1, q);
                    }
                    return false;
                },
            }
            k = k + 1;
        }
        assert(self.voters@.take(k as int) =~= self.voters@);
        total == sum
    }

    /// Whether the total equals the sum of the voters at every height.
    fn is_balanced(&self) -> (r: bool)
        ensures
            r == forall|q: int| #[trigger] self.balanced_at(q),
    {
        let mut i: usize = 0;
        while i < self.total.checkpoints().len()
            invariant
                i <= self.total@.len(),
                forall|a: int| 0 <= a < i ==> self.balanced_at((#[trigger] self.total@[a]).0 + 1),
            decreases self.total@.len() - i,
        {
            let cps = self.total.checkpoints();
            if !self.balanced_after(cps[i].0) {
                return false;
            }
            i = i + 1;
        }
        let mut k: usize = 0;
        while k < self.voters.len()
            invariant
                k <= self.voters@.len(),
                forall|a: int| 0 <= a < self.total@.len() ==> self.balanced_at((#[trigger] self.total@[a]).0 + 1),
                forall|b: int, j: int|
                    0 <= b < k && 0 <= j < self.voters@[b].power@.len() ==> self.balanced_at(
                        (#[trigger] self.voters@[b].power@[j]).0 + 1,
                    ),
            decreases self.voters@.len() - k,
        {
            let cps = self.voters[k].power.checkpoints();
            let mut j: usize = 0;
            while j < cps.len()
                invariant
                    k < self.voters@.len(),
                    cps@ == self.voters@[k as int].power@,
                    j <= cps@.len(),
                    forall|b: int, m: int|
                        0 <= b < k && 0 <= m < self.voters@[b].power@.len() ==> self.balanced_at(
                            (#[trigger] self.voters@[b].power@[m]).0 + 1,
                        ),
                    forall|m: int| 0 <= m < j ==> self.balanced_at((#[trigger] cps@[m]).0 + 1),
                decreases cps@.len() - j,
            {
                if !self.balanced_after(cps[j].0) {
                    return false;
                }
                j = j + 1;
            }
            proof {
                assert forall|b: int, m: int|
                    0 <= b < k + 1 && 0 <= m < self.voters@[b].power@.len() implies self.balanced_at(
                        (#[trigger] self.voters@[b].power@[m]).0 + 1,
                    ) by {
                    if b == k {
                        assert(cps@[m] == self.voters@[b].power@[m]);
                    }
                }
            }
            k = k + 1;
        }
        proof {
            assert forall|q: int| #[trigger] self.balanced_at(q) by {
                self.lemma_balanced_everywhere(q);
            }
        }
        true
    }

    fn addrs_distinct(&self) -> (r: bool)
        ensures
            r == addrs_unique(self.voters@),
    {
        let n = self.voters.len();
        let mut b: usize = 0;
        while b < n
            invariant
                n == self.voters@.len(),
                b <= n,
                forall|x: int, y: int| 0 <= x < y < b ==> self.voters@[x].addr@ != self.voters@[y].addr@,
            decreases n - b,
        {
            let mut a: usize = 0;
            while a < b
                invariant
                    n == self.voters@.len(),
                    a <= b < n,
                    forall|x: int, y: int| 0 <= x < y < b ==> self.voters@[x].addr@ != self.voters@[y].addr@,
                    forall|x: int| 0 <= x < a ==> self.voters@[x].addr@ != self.voters@[b as int].addr@,
                decreases b - a,
            {
                if self.voters[a].addr == self.voters[b].addr {
                    return false;
                }
                a = a + 1;
            }
            b = b + 1;
        }
        true
    }

    fn held_distinct(&self) -> (r: bool)
        ensures
            r == held_unique(self.voters@),
    {
        let n = self.voters.len();
        let mut b: usize = 0;
        while b < n
            invariant
                n == self.voters@.len(),
                b <= n,
                forall|x: int, y: int|
                    0 <= x < b && 0 <= y < b && x != y && self.voters@[x].token is Some ==> opt_view(
                        self.voters@[x].token,
                    ) != opt_view(self.voters@[y].token),
            decreases n - b,
        {
            let mut a: usize = 0;
            while a < b
                invariant
                    n == self.voters@.len(),
                    a <= b < n,
                    forall|x: int, y: int|
                        0 <= x < b && 0 <= y < b && x != y && self.voters@[x].token is Some ==> opt_view(
                            self.voters@[x].token,
                        ) != opt_view(self.voters@[y].token),
                    forall|x: int|
                        0 <= x < a && self.voters@[x].token is Some ==> opt_view(self.voters@[x].token)
                            != opt_view(self.voters@[b as int].token),
                decreases b - a,
            {
                match (&self.voters[a].token, &self.voters[b].token) {
                    (Some(ta), Some(tb)) => {
                        if *ta == *tb {
                            return false;
                        }
                    },
                    _ => {},
                }
                a = a + 1;
            }
            b = b + 1;
        }
        true
    }

    fn ids_distinct(&self) -> (r: bool)
        ensures
            r == ids_unique(self.tokens@),
    {
        let n = self.tokens.len();
        let mut b: usize = 0;
        while b < n
            invariant
                n == self.tokens@.len(),
                b <= n,
                forall|x: int, y: int| 0 <= x < y < b ==> self.tokens@[x].0@ != self.tokens@[y].0@,
            decreases n - b,
        {
            let mut a: usize = 0;
            while a < b
                invariant
                    n == self.tokens@.len(),
                    a <= b < n,
                    forall|x: int, y: int| 0 <= x < y < b ==> self.tokens@[x].0@ != self.tokens@[y].0@,
                    forall|x: int| 0 <= x < a ==> self.tokens@[x].0@ != self.tokens@[b as int].0@,
                decreases b - a,
            {
                if self.tokens[a].0 == self.tokens[b].0 {
                    return false;
                }
                a = a + 1;
            }
            b = b + 1;
        }
        true
    }

    fn hooks_distinct(&self) -> (r: bool)
        ensures
            r == strings_unique(self.hooks@),
    {
        let n = self.hooks.len();
        let mut b: usize = 0;
        while b < n
            invariant
                n == self.hooks@.len(),
                b <= n,
                forall|x: int, y: int| 0 <= x < y < b ==> self.hooks@[x]@ != self.hooks@[y]@,
            decreases n - b,
        {
            let mut a: usize = 0;
            while a < b
                invariant
                    n == self.hooks@.len(),
                    a <= b < n,
                    forall|x: int, y: int| 0 <= x < y < b ==> self.hooks@[x]@ != self.hooks@[y]@,
                    forall|x: int| 0 <= x < a ==> self.hooks@[x]@ != self.hooks@[b as int]@,
                decreases b - a,
            {
                if self.hooks[a] == self.hooks[b] {
                    return false;
                }
                a = a + 1;
            }
            b = b + 1;
        }
        true
    }

    fn histories_ordered(&self) -> (r: bool)
        ensures
            r == (forall|i: int|
                0 <= i < self.voters@.len() ==> heights_increasing(#[trigger] self.voters@[i].power@)
                    && heights_at_most(self.voters@[i].power@, self.height)),
    {
        let mut k: usize = 0;
        while k < self.voters.len()
            invariant
                k <= self.voters@.len(),
                forall|i: int|
                    0 <= i < k ==> heights_increasing(#[trigger] self.voters@[i].power@) && heights_at_most(
                        self.voters@[i].power@,
                        self.height,
                    ),
            decreases self.voters@.len() - k,
        {
            if !self.voters[k].power.is_ordered_within(self.height) {
                return false;
            }
            k = k + 1;
        }
        true
    }

    fn powers_consistent(&self) -> (r: bool)
        requires
            ids_unique(self.tokens@),
        ensures
            r == (forall|i: int| 0 <= i < self.voters@.len() ==> power_matches(self.tokens@, #[trigger] self.voters@[i])),
    {
        let mut k: usize = 0;
        while k < self.voters.len()
            invariant
                ids_unique(self.tokens@),
                k <= self.voters@.len(),
                forall|i: int| 0 <= i < k ==> power_matches(self.tokens@, #[trigger] self.voters@[i]),
            decreases self.voters@.len() - k,
        {
            let live = self.voters[k].power.load();
            match &self.voters[k].token {
                Some(t) => {
                    match self.find_token(t) {
                        Some(j) => {
                            proof {
                                lemma_token_index(self.tokens@, j as int);
                            }
                            let vp = self.tokens[j].1;
                            let same = match live {
                                Some(x) => x == vp,
                                None => false,
                            };
                            if !same {
                                return false;
                            }
                        },
                        None => {
                            return false;
                        },
                    }
                },
                None => {
                    if live.is_some() {
                        return false;
                    }
                },
            }
            k = k + 1;
        }
        true
    }

    /// Whether the module's invariant holds.
    fn check_wf(&self) -> (r: bool)
        ensures
            r == self.wf(),
    {
        let shaped = self.addrs_distinct() && self.held_distinct() && self.ids_distinct()
            && self.hooks_distinct() && self.histories_ordered() && self.powers_consistent()
            && self.total.is_ordered_within(self.height);
        if !shaped {
            return false;
        }
        let balanced = self.is_balanced();
        proof {
            if balanced {
                assert forall|q: int| weight_of(#[trigger] value_at(self.total@, q)) == sum_at(self.voters@, q) by {
                    assert(self.balanced_at(q));
                }
            } else {
                let q = choose|q: int| !#[trigger] self.balanced_at(q);
                assert(weight_of(value_at(self.total@, q)) != sum_at(self.voters@, q));
            }
        }
        balanced
    }

    /// Whether this module holds exactly the state `s`.
    pub closed spec fn holds(&self, s: &ModuleState) -> bool {
        &&& self.dao@ == s.dao@
        &&& self.nft_contract@ == s.nft_contract@
        &&& self.ownership@ == s.ownership@
        &&& self.version.contract@ == s.version.contract@
        &&& self.version.version@ == s.version.version@
        &&& self.tokens@.len() == s.tokens@.len()
        &&& forall|i: int|
            0 <= i < self.tokens@.len() ==> (#[trigger] self.tokens@[i]).0@ == s.tokens@[i].0@
                && self.tokens@[i].1 == s.tokens@[i].1
        &&& self.voters@.len() == s.voters@.len()
        &&& forall|i: int|
            0 <= i < self.voters@.len() ==> (#[trigger] self.voters@[i]).addr@ == s.voters@[i].addr@
                && opt_view(self.voters@[i].token) == opt_view(s.voters@[i].token)
                && self.voters@[i].power@ == s.voters@[i].power@
        &&& self.total@ == s.total@
        &&& self.hooks@.len() == s.hooks@.len()
        &&& forall|i: int| 0 <= i < self.hooks@.len() ==> (#[trigger] self.hooks@[i])@ == s.hooks@[i]@
        &&& self.height == s.height
    }

    /// Two modules that hold the same state are alike in every respect that
    /// the module's contracts speak of.
    pub proof fn lemma_same_state(&self, other: &VotingModule, s: &ModuleState)
        requires
            self.holds(s),
            other.holds(s),
        ensures
            self.wf() ==> other.wf(),
            self.wf() ==> forall|p: Seq<char>| #[trigger] other.registered(p) == self.registered(p),
            self.wf() ==> forall|p: Seq<char>| #[trigger] other.power_history(p) == self.power_history(p),
            self.wf() ==> forall|t: Seq<char>| #[trigger] other.token_voter(t) == self.token_voter(t),
            self.wf() ==> forall|t: Seq<char>| #[trigger] other.token_weight(t) == self.token_weight(t),
            other.total_history() == self.total_history(),
            other.participants() == self.participants(),
            other.hooks() == self.hooks(),
            other.dao() == self.dao(),
            other.nft_contract() == self.nft_contract(),
            other.ownership() == self.ownership(),
            other.version() == self.version(),
            other.height() == self.height(),
    {
        let vs = self.voters@;
        let vs2 = other.voters@;
        let ts = self.tokens@;
        let ts2 = other.tokens@;
        assert(other.participants() =~= self.participants());
        assert(other.hooks() =~= self.hooks());
        if self.wf() {
            assert forall|i: int| 0 <= i < vs.len() implies (#[trigger] vs2[i]).addr@ == vs[i].addr@ by {
                assert(vs[i].addr@ == s.voters@[i].addr@);
            }
            assert forall|i: int| 0 <= i < vs.len() implies opt_view((#[trigger] vs2[i]).token) == opt_view(
                vs[i].token,
            ) by {
                assert(opt_view(vs[i].token) == opt_view(s.voters@[i].token));
            }
            assert forall|i: int| 0 <= i < vs.len() implies (#[trigger] vs2[i]).power@ == vs[i].power@ by {
                assert(vs[i].power@ == s.voters@[i].power@);
            }
            assert forall|i: int| 0 <= i < ts.len() implies (#[trigger] ts2[i]).0@ == ts[i].0@ && ts2[i].1
                == ts[i].1 by {
                assert(ts[i].0@ == s.tokens@[i].0@);
            }
            lemma_voter_index_frame(vs, vs2);
            lemma_holder_index_frame(vs, vs2);
            lemma_token_index_frame(ts, ts2);
            assert forall|a: int, b: int| 0 <= a < b < other.hooks@.len() implies other.hooks@[a]@
                != other.hooks@[b]@ by {
                assert(self.hooks@[a]@ == s.hooks@[a]@);
                assert(self.hooks@[b]@ == s.hooks@[b]@);
            }
            assert forall|i: int| 0 <= i < vs2.len() implies power_matches(ts2, #[trigger] vs2[i]) by {
                assert(power_matches(ts, vs[i]));
            }
            assert forall|i: int| 0 <= i < vs2.len() implies heights_increasing(#[trigger] vs2[i].power@)
                && heights_at_most(vs2[i].power@, other.height) by {
                assert(heights_increasing(vs[i].power@));
            }
            assert forall|q: int| weight_of(#[trigger] value_at(other.total@, q)) == sum_at(vs2, q) by {
                lemma_sum_frame(vs, vs2, q);
                assert(weight_of(value_at(self.total@, q)) == sum_at(vs, q));
            }
        }
    }

    /// The module's whole state, as plain values.
    pub fn export(&self) -> (r: ModuleState)
        ensures
            self.holds(&r),
    {
        let mut tokens: Vec<(String, u128)> = Vec::new();
        let mut i: usize = 0;
        while i < self.tokens.len()
            invariant
                i <= self.tokens@.len(),
                tokens@.len() == i,
                forall|k: int|
                    0 <= k < i ==> (#[trigger] tokens@[k]).0@ == self.tokens@[k].0@ && tokens@[k].1
                        == self.tokens@[k].1,
            decreases self.tokens@.len() - i,
        {
            tokens.push((self.tokens[i].0.clone(), self.tokens[i].1));
            i = i + 1;
        }
        let mut voters: Vec<VoterState> = Vec::new();
        let mut k: usize = 0;
        while k < self.voters.len()
            invariant
                k <= self.voters@.len(),
                voters@.len() == k,
                forall|m: int|
                    0 <= m < k ==> (#[trigger] voters@[m]).addr@ == self.voters@[m].addr@ && opt_view(
                        voters@[m].token,
                    ) == opt_view(self.voters@[m].token) && voters@[m].power@ == self.voters@[m].power@,
            decreases self.voters@.len() - k,
        {
            voters.push(
                VoterState {
                    addr: self.voters[k].addr.clone(),
                    token: clone_opt(&self.voters[k].token),
                    power: self.voters[k].power.checkpoints(),
                },
            );
            k = k + 1;
        }
        let mut hooks: Vec<String> = Vec::new();
        let mut j: usize = 0;
        while j < self.hooks.len()
            invariant
                j <= self.hooks@.len(),
                hooks@.len() == j,
                forall|m: int| 0 <= m < j ==> (#[trigger] hooks@[m])@ == self.hooks@[m]@,
            decreases self.hooks@.len() - j,
        {
            hooks.push(self.hooks[j].clone());
            j = j + 1;
        }
        ModuleState {
            dao: self.dao.clone(),
            nft_contract: self.nft_contract.clone(),
            ownership: self.ownership.clone_ownership(),
            version: ContractVersion {
                contract: self.version.contract.clone(),
                version: self.version.version.clone(),
            },
            tokens,
            voters,
            total: self.total.checkpoints(),
            hooks,
            height: self.height,
        }
    }

    /// The module that holds the state `s`, when that state meets the
    /// module's invariant; `None` when it does not.
    pub fn import(s: &ModuleState) -> (r: Option<VotingModule>)
        ensures
            match r {
                Some(m) => m.wf() && m.holds(s),
                None => forall|m: VotingModule| #[trigger] m.holds(s) ==> !m.wf(),
            },
    {
        let mut tokens: Vec<(String, u128)> = Vec::new();
        let mut i: usize = 0;
        while i < s.tokens.len()
            invariant
                i <= s.tokens@.len(),
                tokens@.len() == i,
                forall|k: int|
                    0 <= k < i ==> (#[trigger] tokens@[k]).0@ == s.tokens@[k].0@ && tokens@[k].1 == s.tokens@[k].1,
            decreases s.tokens@.len() - i,
        {
            tokens.push((s.tokens[i].0.clone(), s.tokens[i].1));
            i = i + 1;
        }
        let mut voters: Vec<Voter> = Vec::new();
        let mut k: usize = 0;
        while k < s.voters.len()
            invariant
                k <= s.voters@.len(),
                voters@.len() == k,
                forall|m: int|
                    0 <= m < k ==> (#[trigger] voters@[m]).addr@ == s.voters@[m].addr@ && opt_view(
                        voters@[m].token,
                    ) == opt_view(s.voters@[m].token) && voters@[m].power@ == s.voters@[m].power@,
            decreases s.voters@.len() - k,
        {
            let mut power: Vec<Checkpoint> = Vec::new();
            let mut j: usize = 0;
            while j < s.voters[k].power.len()
                invariant
                    k < s.voters@.len(),
                    j <= s.voters@[k as int].power@.len(),
                    power@ == s.voters@[k as int].power@.take(j as int),
                decreases s.voters@[k as int].power@.len() - j,
            {
                power.push(s.voters[k].power[j]);
                assert(power@ =~= s.voters@[k as int].power@.take(j + 1));
                j = j + 1;
            }
            assert(s.voters@[k as int].power@.take(j as int) =~= s.voters@[k as int].power@);
            voters.push(
                Voter {
                    addr: s.voters[k].addr.clone(),
                    token: clone_opt(&s.voters[k].token),
                    power: History::from_checkpoints(power),
                },
            );
            k = k + 1;
        }
        let mut total: Vec<Checkpoint> = Vec::new();
        let mut t: usize = 0;
        while t < s.total.len()
            invariant
                t <= s.total@.len(),
                total@ == s.total@.take(t as int),
            decreases s.total@.len() - t,
        {
            total.push(s.total[t]);
            assert(total@ =~= s.total@.take(t + 1));
            t = t + 1;
        }
        assert(s.total@.take(t as int) =~= s.total@);
        let mut hooks: Vec<String> = Vec::new();
        let mut j: usize = 0;
        while j < s.hooks.len()
            invariant
                j <= s.hooks@.len(),
                hooks@.len() == j,
                forall|m: int| 0 <= m < j ==> (#[trigger] hooks@[m])@ == s.hooks@[m]@,
            decreases s.hooks@.len() - j,
        {
            hooks.push(s.hooks[j].clone());
            j = j + 1;
        }
        let m = VotingModule {
            dao: s.dao.clone(),
            nft_contract: s.nft_contract.clone(),
            ownership: s.ownership.clone_ownership(),
            version: ContractVersion {
                contract: s.version.contract.clone(),
                version: s.version.version.clone(),
            },
            tokens,
            voters,
            total: History::from_checkpoints(total),
            hooks,
            height: s.height,
        };
        if m.check_wf() {
            Some(m)
        } else {
            proof {
                assert forall|m2: VotingModule| #[trigger] m2.holds(s) implies !m2.wf() by {
                    if m2.wf() {
                        m2.lemma_same_state(&m, s);
                    }
                }
            }
            None
        }
    }

    fn find_voter(&self, p: &String) -> (r: Option<usize>)
        ensures
            match r {
                Some(i) => i < self.voters@.len() && self.voters@[i as int].addr@ == p@,
                None => forall|i: int| 0 <= i < self.voters@.len() ==> self.voters@[i].addr@ != p@,
            },
    {
        let mut i: usize = 0;
        while i < self.voters.len()
            invariant
                i <= self.voters@.len(),
                forall|k: int| 0 <= k < i ==> self.voters@[k].addr@ != p@,
            decreases self.voters@.len() - i,
        {
            if self.voters[i].addr == *p {
                return Some(i);
            }
            i = i + 1;
        }
        None
    }

    fn find_holder(&self, t: &String) -> (r: Option<usize>)
        ensures
            match r {
                Some(i) => i < self.voters@.len() && opt_view(self.voters@[i as int].token) == Some(t@),
                None => forall|i: int|
                    0 <= i < self.voters@.len() ==> opt_view(self.voters@[i].token) != Some(t@),
            },
    {
        let mut i: usize = 0;
        while i < self.voters.len()
            invariant
                i <= self.voters@.len(),
                forall|k: int| 0 <= k < i ==> opt_view(self.voters@[k].token) != Some(t@),
            decreases self.voters@.len() - i,
        {
            match &self.voters[i].token {
                Some(h) => {
                    if *h == *t {
                        return Some(i);
                    }
                },
                None => {},
            }
            i = i + 1;
        }
        None
    }

    fn find_token(&self, t: &String) -> (r: Option<usize>)
        ensures
            match r {
                Some(i) => i < self.tokens@.len() && self.tokens@[i as int].0@ == t@,
                None => forall|i: int| 0 <= i < self.tokens@.len() ==> self.tokens@[i].0@ != t@,
            },
    {
        let mut i: usize = 0;
        while i < self.tokens.len()
            invariant
                i <= self.tokens@.len(),
                forall|k: int| 0 <= k < i ==> self.tokens@[k].0@ != t@,
            decreases self.tokens@.len() - i,
        {
            if self.tokens[i].0 == *t {
                return Some(i);
            }
            i = i + 1;
        }
        None
    }

    fn find_hook(&self, a: &String) -> (r: Option<usize>)
        ensures
            match r {
                Some(i) => i < self.hooks@.len() && self.hooks@[i as int]@ == a@,
                None => forall|i: int| 0 <= i < self.hooks@.len() ==> self.hooks@[i]@ != a@,
            },
    {
        let mut i: usize = 0;
        while i < self.hooks.len()
            invariant
                i <= self.hooks@.len(),
                forall|k: int| 0 <= k < i ==> self.hooks@[k]@ != a@,
            decreases self.hooks@.len() - i,
        {
            if self.hooks[i] == *a {
                return Some(i);
            }
            i = i + 1;
        }
        None
    }
}

} // verus!

verus! {

/// The sum of the voting power that a query at height `q` sees, over `ps`.
pub open spec fn power_sum(m: &VotingModule, ps: Seq<Seq<char>>, q: int) -> int
    decreases ps.len(),
{
    if ps.len() == 0 {
        0
    } else {
        power_sum(m, ps.drop_last(), q) + m.power_at(ps.last(), q)
    }
}

proof fn lemma_sum_prefix(m: &VotingModule, n: int, q: int)
    requires
        m.wf(),
        0 <= n <= m.voters@.len(),
    ensures
        sum_at(m.voters@.take(n), q) == power_sum(m, m.participants().take(n), q),
    decreases n,
{
    let vs = m.voters@.take(n);
    let ps = m.participants().take(n);
    if n > 0 {
        assert(vs.drop_last() =~= m.voters@.take(n - 1));
        assert(ps.drop_last() =~= m.participants().take(n - 1));
        lemma_sum_prefix(m, n - 1, q);
        lemma_voter_index(m.voters@, n - 1);
    }
}

/// Conservation: at every height, the total voting power equals the sum of
/// the voting power of everyone that has a history, each counted once.
pub proof fn lemma_total_is_sum_of_voters(m: &VotingModule, q: int)
    requires
        m.wf(),
    ensures
        m.participants().no_duplicates(),
        m.total_at(q) == power_sum(m, m.participants(), q),
{
    lemma_sum_prefix(m, m.voters@.len() as int, q);
    assert(m.voters@.take(m.voters@.len() as int) =~= m.voters@);
    assert(m.participants().take(m.voters@.len() as int) =~= m.participants());
    assert(weight_of(value_at(m.total@, q)) == sum_at(m.voters@, q));
}

/// Uniqueness: a token is registered by at most one voter, a voter holds at
/// most one token, and a token's voter is exactly the one registered with it.
pub proof fn lemma_one_voter_per_token(m: &VotingModule, p1: Seq<char>, p2: Seq<char>, t: Seq<char>)
    requires
        m.wf(),
    ensures
        m.registered(p1) == Some(t) && m.registered(p2) == Some(t) ==> p1 == p2,
        m.token_voter(t) == Some(p1) <==> m.registered(p1) == Some(t),
{
    let vs = m.voters@;
    let i1 = voter_index(vs, p1);
    let i2 = voter_index(vs, p2);
    if m.registered(p1) == Some(t) && m.registered(p2) == Some(t) {
        assert(vs[i1].addr@ == p1);
        assert(vs[i2].addr@ == p2);
    }
    if m.token_voter(t) == Some(p1) {
        let k = holder_index(vs, t);
        lemma_voter_index(vs, k);
    }
    if m.registered(p1) == Some(t) {
        lemma_holder_index(vs, i1);
    }
}

/// Delayed visibility: a voter that registers and unregisters again within
/// one height leaves its own voting power and the total, as seen at every
/// height, as they were before.
pub proof fn lemma_register_unregister_same_height(
    m0: &VotingModule,
    m1: &VotingModule,
    m2: &VotingModule,
    p: Seq<char>,
    t: Seq<char>,
    h: u64,
    q: int,
)
    requires
        m0.wf(),
        m0.height() <= h,
        m0.register_error(p, seq![t]) is None,
        m1.registered_from(m0, p, t, h),
        m2.unregistered_from(m1, p, t, h),
    ensures
        m2.total_at(q) == m0.total_at(q),
        m2.power_at(p, q) == m0.power_at(p, q),
        m2.registered(p) is None,
{
    let i = voter_index(m0.voters@, p);
    let ph = m0.power_history(p);
    if i >= 0 {
        assert(power_matches(m0.tokens@, m0.voters@[i]));
        assert(heights_at_most(m0.voters@[i].power@, m0.height));
    }
    assert(current(ph) is None);
    assert(heights_at_most(ph, h));
    assert(heights_at_most(m0.total@, h));
    let w = weight_of(m0.token_weight(t));
    let t0 = m0.total_history();
    let t1 = recorded(t0, h, Some((m0.live_total() + w) as u128));
    let p1 = recorded(ph, h, Some(w as u128));
    lemma_recorded_ordered(t0, h, Some((m0.live_total() + w) as u128), h);
    lemma_recorded_ordered(ph, h, Some(w as u128), h);
    lemma_recorded_value_at(t1, h, Some((m1.live_total() - weight_of(current(p1))) as u128), q);
    lemma_recorded_value_at(t0, h, Some((m0.live_total() + w) as u128), q);
    lemma_recorded_value_at(p1, h, None, q);
    lemma_recorded_value_at(ph, h, Some(w as u128), q);
    if q > h {
        lemma_value_at_above(t0, h, q);
        lemma_value_at_above(ph, h, q);
    }
}

/// Time travel: once a voter registers at height `h`, a query at any height
/// above `h` sees the token's weight as its voting power, and a query at or
/// below `h` sees what it saw before.
pub proof fn lemma_register_visible_above(m0: &VotingModule, m1: &VotingModule, p: Seq<char>, t: Seq<char>, h: u64, q: int)
    requires
        m0.wf(),
        m0.height() <= h,
        m1.registered_from(m0, p, t, h),
    ensures
        q > h ==> m1.power_at(p, q) == weight_of(m0.token_weight(t)),
        q <= h ==> m1.power_at(p, q) == m0.power_at(p, q),
{
    let i = voter_index(m0.voters@, p);
    if i >= 0 {
        assert(heights_at_most(m0.voters@[i].power@, m0.height));
    }
    let w = weight_of(m0.token_weight(t));
    assert(heights_at_most(m0.power_history(p), h));
    lemma_recorded_value_at(m0.power_history(p), h, Some(w as u128), q);
}

} // verus!
