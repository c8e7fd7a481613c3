#![allow(dead_code)]

use dao_voting_sg_community_nft::{
    Action, BlockInfo, ContractError, Expiration, InstantiateMsg, MigrateMsg, NftStakeChangedHookMsg,
    OwnershipError, QueryMsg, QueryResponse, VotingModule, Custody, ExecuteMsg,
};

const CREATOR_ADDR: &str = "creator";
const OWNER: &str = "owner";

/// A stand-in for the token collection: who holds which token.
struct Collection {
    held: Vec<(String, String)>,
}

impl Collection {
    fn new() -> Collection {
        Collection { held: Vec::new() }
    }

    fn mint(&mut self, owner: &str, token_id: &str) -> Result<(), String> {
        if self.held.iter().any(|(t, _)| t == token_id) {
            return Err("token_id already claimed".to_string());
        }
        self.held.push((token_id.to_string(), owner.to_string()));
        Ok(())
    }

    fn burn(&mut self, owner: &str, token_id: &str) -> Result<(), String> {
        match self.held.iter().position(|(t, o)| t == token_id && o == owner) {
            Some(i) => {
                self.held.remove(i);
                Ok(())
            }
            None => Err("not the owner".to_string()),
        }
    }

    fn tokens(&self, owner: &str) -> Vec<String> {
        self.held.iter().filter(|(_, o)| o == owner).map(|(t, _)| t.clone()).collect()
    }

    fn owner_of(&self, token_id: &str) -> Option<String> {
        self.held.iter().find(|(t, _)| t == token_id).map(|(_, o)| o.clone())
    }
}

struct CommonTest {
    block: BlockInfo,
    module: VotingModule,
    nft: Collection,
}

fn setup_test() -> CommonTest {
    let block = BlockInfo { height: 12345, time: 1_571_797_419_879_305_533 };
    let module = VotingModule::instantiate(
        &block,
        &CREATOR_ADDR.to_string(),
        InstantiateMsg { nft_contract: "contract0".to_string(), owner: Some(OWNER.to_string()) },
    );
    CommonTest { block, module, nft: Collection::new() }
}

fn next_block(block: &mut BlockInfo) {
    block.height += 1;
    block.time += 5_000_000_000;
}

fn register(t: &mut CommonTest, sender: &str) -> Result<(), ContractError> {
    let owned = t.nft.tokens(sender);
    t.module.execute_register(&t.block, &sender.to_string(), &owned).map(|_| ())
}

fn unregister(t: &mut CommonTest, sender: &str) -> Result<(), ContractError> {
    t.module.execute_unregister(&t.block, &sender.to_string()).map(|_| ())
}

fn set_voting_power(t: &mut CommonTest, sender: &str, token_id: &str, power: u128) -> Result<(), ContractError> {
    t.module.execute_set_voting_power(&t.block, &sender.to_string(), token_id.to_string(), power)
}

fn sync(t: &mut CommonTest, token_id: &str) {
    let holder = t.nft.owner_of(token_id);
    t.module.execute_sync(&t.block, &token_id.to_string(), &holder);
}

fn mint_and_register_nft(t: &mut CommonTest, voter: &str, token_id: &str) -> Result<(), String> {
    t.nft.mint(voter, token_id)?;
    set_voting_power(t, CREATOR_ADDR, token_id, 1).map_err(|e| e.message().to_string())?;
    register(t, voter).map_err(|e| e.message().to_string())?;
    Ok(())
}

fn query_total_and_voting_power(t: &CommonTest, addr: &str, height: Option<u64>) -> (u128, u128) {
    let total = t.module.query_total_power_at_height(&t.block, height);
    let personal = t.module.query_voting_power_at_height(&t.block, &addr.to_string(), height);
    (total.power, personal.power)
}

#[test]
fn total_equals_sum_of_voters_at_each_height() {
    let mut t = setup_test();
    let h0 = t.block.height;
    mint_and_register_nft(&mut t, "alice", "1").unwrap();
    set_voting_power(&mut t, CREATOR_ADDR, "1", 7).unwrap();
    next_block(&mut t.block);
    mint_and_register_nft(&mut t, "bob", "2").unwrap();
    set_voting_power(&mut t, OWNER, "2", 4).unwrap();
    next_block(&mut t.block);
    unregister(&mut t, "alice").unwrap();
    next_block(&mut t.block);
    let voters = ["alice", "bob"];
    let expected_totals = [0u128, 7, 11, 4, 4];
    for (k, expected) in expected_totals.iter().enumerate() {
        let h = h0 + k as u64;
        let total = t.module.query_total_power_at_height(&t.block, Some(h)).power;
        let sum: u128 = voters
            .iter()
            .map(|v| t.module.query_voting_power_at_height(&t.block, &v.to_string(), Some(h)).power)
            .sum();
        assert_eq!(total, *expected);
        assert_eq!(total, sum);
    }
}

#[test]
fn token_cannot_be_registered_twice() {
    let mut t = setup_test();
    mint_and_register_nft(&mut t, "alice", "1").unwrap();
    // A collection that wrongly reports bob as holding alice's token.
    let err = t
        .module
        .execute_register(&t.block, &"bob".to_string(), &vec!["1".to_string()])
        .unwrap_err();
    assert_eq!(err, ContractError::NftAlreadyRegistered {});
    assert_eq!(t.module.query_registered_nft(&"bob".to_string()).token_id, None);
    assert_eq!(t.module.query_registered_nft(&"alice".to_string()).token_id, Some("1".to_string()));
}

#[test]
fn register_then_unregister_in_one_height_nets_zero() {
    let mut t = setup_test();
    t.module.execute_add_hook(&CREATOR_ADDR.to_string(), "listener".to_string()).unwrap();
    mint_and_register_nft(&mut t, "alice", "7").unwrap();
    next_block(&mut t.block);
    let before = query_total_and_voting_power(&t, "bob", None);
    t.nft.mint("bob", "8").unwrap();
    set_voting_power(&mut t, CREATOR_ADDR, "8", 3).unwrap();
    let owned = t.nft.tokens("bob");
    let staked = t.module.execute_register(&t.block, &"bob".to_string(), &owned).unwrap();
    let unstaked = t.module.execute_unregister(&t.block, &"bob".to_string()).unwrap();
    assert_eq!(staked.len(), 1);
    assert_eq!(unstaked.len(), 1);
    assert_eq!(query_total_and_voting_power(&t, "bob", None), before);
    next_block(&mut t.block);
    assert_eq!(query_total_and_voting_power(&t, "bob", None), before);
    assert_eq!(before, (1, 0));
}

#[test]
fn future_height_sees_registered_weight() {
    let mut t = setup_test();
    t.nft.mint("alice", "1").unwrap();
    set_voting_power(&mut t, CREATOR_ADDR, "1", 9).unwrap();
    register(&mut t, "alice").unwrap();
    let h = t.block.height;
    let ahead = t.module.query_voting_power_at_height(&t.block, &"alice".to_string(), Some(h + 100));
    assert_eq!(ahead.power, 9);
    assert_eq!(ahead.height, h + 100);
    let now = t.module.query_voting_power_at_height(&t.block, &"alice".to_string(), Some(h));
    assert_eq!(now.power, 0);
}

#[test]
fn sync_twice_while_held_changes_nothing() {
    let mut t = setup_test();
    mint_and_register_nft(&mut t, "alice", "1").unwrap();
    next_block(&mut t.block);
    let holder = t.nft.owner_of("1");
    let first = t.module.execute_sync(&t.block, &"1".to_string(), &holder);
    let second = t.module.execute_sync(&t.block, &"1".to_string(), &holder);
    assert_eq!(first.len(), 0);
    assert_eq!(second.len(), 0);
    next_block(&mut t.block);
    assert_eq!(query_total_and_voting_power(&t, "alice", None), (1, 1));
    assert_eq!(t.module.query_registered_nft(&"alice".to_string()).token_id, Some("1".to_string()));
}

#[test]
fn sync_of_unknown_token_changes_nothing() {
    let mut t = setup_test();
    mint_and_register_nft(&mut t, "alice", "1").unwrap();
    let out = t.module.execute_sync(&t.block, &"9".to_string(), &None);
    assert_eq!(out.len(), 0);
    next_block(&mut t.block);
    assert_eq!(query_total_and_voting_power(&t, "alice", None), (1, 1));
}

#[test]
fn weight_then_register_then_unregister_scenario() {
    let mut t = setup_test();
    t.nft.mint("A", "1").unwrap();
    set_voting_power(&mut t, CREATOR_ADDR, "1", 5).unwrap();
    register(&mut t, "A").unwrap();
    next_block(&mut t.block);
    assert_eq!(query_total_and_voting_power(&t, "A", None), (5, 5));
    unregister(&mut t, "A").unwrap();
    next_block(&mut t.block);
    assert_eq!(query_total_and_voting_power(&t, "A", None), (0, 0));
    assert_eq!(unregister(&mut t, "A").unwrap_err(), ContractError::NotRegistered {});
}

#[test]
fn preassigned_weight_counts_from_registration() {
    let mut t = setup_test();
    set_voting_power(&mut t, CREATOR_ADDR, "1", 5).unwrap();
    let set_height = t.block.height;
    next_block(&mut t.block);
    next_block(&mut t.block);
    assert_eq!(query_total_and_voting_power(&t, "A", None), (0, 0));
    t.nft.mint("A", "1").unwrap();
    register(&mut t, "A").unwrap();
    let reg_height = t.block.height;
    next_block(&mut t.block);
    assert_eq!(query_total_and_voting_power(&t, "A", None), (5, 5));
    assert_eq!(query_total_and_voting_power(&t, "A", Some(set_height + 1)), (0, 0));
    assert_eq!(query_total_and_voting_power(&t, "A", Some(reg_height)), (0, 0));
    assert_eq!(query_total_and_voting_power(&t, "A", Some(reg_height + 1)), (5, 5));
}

#[test]
fn registering_needs_exactly_one_token() {
    let mut t = setup_test();
    t.nft.mint("A", "1").unwrap();
    t.nft.mint("A", "2").unwrap();
    assert_eq!(register(&mut t, "A").unwrap_err(), ContractError::TooManyNfts {});
    assert_eq!(register(&mut t, "B").unwrap_err(), ContractError::CannotRegister {});
    assert_eq!(t.module.query_list_voters(None, None).voters.len(), 0);
}

#[test]
fn registering_twice_is_refused() {
    let mut t = setup_test();
    mint_and_register_nft(&mut t, "A", "1").unwrap();
    assert_eq!(register(&mut t, "A").unwrap_err(), ContractError::AlreadyRegistered {});
    assert_eq!(
        register(&mut t, "A").unwrap_err().message(),
        "You are already registered to vote"
    );
}

#[test]
fn raising_weight_past_the_limit_overflows() {
    let mut t = setup_test();
    mint_and_register_nft(&mut t, "A", "1").unwrap();
    mint_and_register_nft(&mut t, "B", "2").unwrap();
    let err = set_voting_power(&mut t, CREATOR_ADDR, "1", u128::MAX).unwrap_err();
    assert_eq!(err, ContractError::Overflow {});
    next_block(&mut t.block);
    assert_eq!(query_total_and_voting_power(&t, "A", None), (2, 1));
    // Lowering still works, and an unheld token may carry any weight.
    set_voting_power(&mut t, CREATOR_ADDR, "1", 0).unwrap();
    set_voting_power(&mut t, CREATOR_ADDR, "3", u128::MAX).unwrap();
    next_block(&mut t.block);
    assert_eq!(query_total_and_voting_power(&t, "A", None), (1, 0));
}

#[test]
fn registering_past_the_limit_overflows() {
    let mut t = setup_test();
    t.nft.mint("A", "1").unwrap();
    set_voting_power(&mut t, CREATOR_ADDR, "1", u128::MAX).unwrap();
    register(&mut t, "A").unwrap();
    mint_and_register_nft(&mut t, "B", "2").unwrap_err();
    assert_eq!(register(&mut t, "B").unwrap_err(), ContractError::Overflow {});
    next_block(&mut t.block);
    assert_eq!(query_total_and_voting_power(&t, "A", None), (u128::MAX, u128::MAX));
}

#[test]
fn lowering_a_held_weight_moves_total() {
    let mut t = setup_test();
    mint_and_register_nft(&mut t, "A", "1").unwrap();
    mint_and_register_nft(&mut t, "B", "2").unwrap();
    set_voting_power(&mut t, OWNER, "1", 40).unwrap();
    next_block(&mut t.block);
    assert_eq!(query_total_and_voting_power(&t, "A", None), (41, 40));
    set_voting_power(&mut t, OWNER, "1", 15).unwrap();
    next_block(&mut t.block);
    assert_eq!(query_total_and_voting_power(&t, "A", None), (16, 15));
    assert_eq!(query_total_and_voting_power(&t, "B", None), (16, 1));
}

#[test]
fn notifications_name_voter_and_token() {
    let mut t = setup_test();
    t.module.execute_add_hook(&OWNER.to_string(), "first".to_string()).unwrap();
    t.module.execute_add_hook(&CREATOR_ADDR.to_string(), "second".to_string()).unwrap();
    t.nft.mint("A", "tok").unwrap();
    let owned = t.nft.tokens("A");
    let msgs = t.module.execute_register(&t.block, &"A".to_string(), &owned).unwrap();
    assert_eq!(msgs.len(), 2);
    assert_eq!(msgs[0].contract_addr, "first");
    assert_eq!(msgs[1].contract_addr, "second");
    match &msgs[0].msg {
        NftStakeChangedHookMsg::Stake { addr, token_id } => {
            assert_eq!(addr, "A");
            assert_eq!(token_id, "tok");
        }
        _ => panic!("expected a stake notification"),
    }
    let msgs = t.module.execute_unregister(&t.block, &"A".to_string()).unwrap();
    assert_eq!(msgs.len(), 2);
    match &msgs[1].msg {
        NftStakeChangedHookMsg::Unstake { addr, token_ids } => {
            assert_eq!(addr, "A");
            assert_eq!(token_ids, &vec!["tok".to_string()]);
        }
        _ => panic!("expected an unstake notification"),
    }
}

#[test]
fn voters_are_listed_in_order_by_page() {
    let mut t = setup_test();
    for (voter, token) in [("carol", "1"), ("alice", "2"), ("dave", "3"), ("bob", "4")] {
        mint_and_register_nft(&mut t, voter, token).unwrap();
    }
    let all = t.module.query_list_voters(None, None).voters;
    assert_eq!(all, vec!["alice", "bob", "carol", "dave"]);
    let page = t.module.query_list_voters(Some("alice".to_string()), Some(2)).voters;
    assert_eq!(page, vec!["bob", "carol"]);
    let page = t.module.query_list_voters(Some("bz".to_string()), None).voters;
    assert_eq!(page, vec!["carol", "dave"]);
    let page = t.module.query_list_voters(None, Some(0)).voters;
    assert_eq!(page.len(), 0);
    let page = t.module.query_list_voters(Some("dave".to_string()), None).voters;
    assert_eq!(page.len(), 0);
}

#[test]
fn ownership_transfer_errors() {
    let mut t = setup_test();
    let err = t
        .module
        .execute_update_owner(&t.block, &"x".to_string(), Action::AcceptOwnership)
        .unwrap_err();
    assert_eq!(err, ContractError::Ownable(OwnershipError::TransferNotFound));
    let expiry = Some(Expiration::AtHeight(t.block.height + 2));
    t.module
        .execute_update_owner(
            &t.block,
            &OWNER.to_string(),
            Action::TransferOwnership { new_owner: "next".to_string(), expiry },
        )
        .unwrap();
    let err = t
        .module
        .execute_update_owner(&t.block, &"other".to_string(), Action::AcceptOwnership)
        .unwrap_err();
    assert_eq!(err, ContractError::Ownable(OwnershipError::NotPendingOwner));
    next_block(&mut t.block);
    next_block(&mut t.block);
    let err = t
        .module
        .execute_update_owner(&t.block, &"next".to_string(), Action::AcceptOwnership)
        .unwrap_err();
    assert_eq!(err, ContractError::Ownable(OwnershipError::TransferExpired));
    assert_eq!(t.module.query_ownership().owner, Some(OWNER.to_string()));
    assert_eq!(t.module.query_ownership().pending_owner, Some("next".to_string()));
}

#[test]
fn expiration_by_height_and_time() {
    let block = BlockInfo { height: 10, time: 1_000 };
    assert!(Expiration::AtHeight(10).is_expired(&block));
    assert!(!Expiration::AtHeight(11).is_expired(&block));
    assert!(Expiration::AtTime(999).is_expired(&block));
    assert!(!Expiration::AtTime(1_001).is_expired(&block));
    assert!(!Expiration::Never {}.is_expired(&block));
}

#[test]
fn migrate_keeps_a_newer_version() {
    let mut t = setup_test();
    t.module.set_contract_version("other".to_string(), "9.0.0".to_string());
    t.module.migrate(MigrateMsg {});
    let info = t.module.query_info().info;
    assert_eq!(info.contract, "other");
    assert_eq!(info.version, "9.0.0");
}

#[test]
fn instantiate_defaults_owner_to_sender() {
    let block = BlockInfo { height: 3, time: 0 };
    let module = VotingModule::instantiate(
        &block,
        &"dao".to_string(),
        InstantiateMsg { nft_contract: "coll".to_string(), owner: None },
    );
    assert_eq!(module.query_ownership().owner, Some("dao".to_string()));
    assert_eq!(module.query_dao(), "dao");
    assert_eq!(module.query_nft_contract(), "coll");
    assert_eq!(module.query_total_power_at_height(&block, None).power, 0);
    assert_eq!(module.query_total_power_at_height(&block, None).height, 3);
    assert_eq!(module.query_hooks().hooks.len(), 0);
}

#[test]
fn calls_and_queries_by_message() {
    let mut t = setup_test();
    let creator = CREATOR_ADDR.to_string();
    let none = Custody { owned_by_sender: vec![], holder: None };
    let out = t
        .module
        .execute(&t.block, &creator, ExecuteMsg::SetVotingPower { token_id: "1".to_string(), power: 4 }, &none)
        .unwrap();
    assert_eq!(out.len(), 0);
    t.module
        .execute(&t.block, &creator, ExecuteMsg::AddHook { addr: "listener".to_string() }, &none)
        .unwrap();
    let held = Custody { owned_by_sender: vec!["1".to_string()], holder: None };
    let out = t.module.execute(&t.block, &"A".to_string(), ExecuteMsg::Register {}, &held).unwrap();
    assert_eq!(out.len(), 1);
    next_block(&mut t.block);
    match t.module.query(&t.block, QueryMsg::TotalPowerAtHeight { height: None }) {
        QueryResponse::TotalPowerAtHeight(r) => {
            assert_eq!(r.power, 4);
            assert_eq!(r.height, t.block.height);
        }
        _ => panic!("expected the total power"),
    }
    match t.module.query(&t.block, QueryMsg::RegisteredNft { address: "A".to_string() }) {
        QueryResponse::RegisteredNft(r) => assert_eq!(r.token_id, Some("1".to_string())),
        _ => panic!("expected the registered token"),
    }
    let gone = Custody { owned_by_sender: vec![], holder: None };
    let out = t
        .module
        .execute(&t.block, &"B".to_string(), ExecuteMsg::Sync { token_id: "1".to_string() }, &gone)
        .unwrap();
    assert_eq!(out.len(), 1);
    next_block(&mut t.block);
    match t.module.query(&t.block, QueryMsg::VotingPowerAtHeight { address: "A".to_string(), height: None }) {
        QueryResponse::VotingPowerAtHeight(r) => assert_eq!(r.power, 0),
        _ => panic!("expected the voting power"),
    }
    let err = t.module.execute(&t.block, &"A".to_string(), ExecuteMsg::Unregister {}, &none).unwrap_err();
    assert_eq!(err, ContractError::NotRegistered {});
    match t.module.query(&t.block, QueryMsg::Dao {}) {
        QueryResponse::Dao(d) => assert_eq!(d, CREATOR_ADDR),
        _ => panic!("expected the governing body"),
    }
}

#[test]
fn exported_state_imports_back() {
    let mut t = setup_test();
    mint_and_register_nft(&mut t, "alice", "1").unwrap();
    next_block(&mut t.block);
    mint_and_register_nft(&mut t, "bob", "2").unwrap();
    set_voting_power(&mut t, OWNER, "2", 6).unwrap();
    t.module.execute_add_hook(&OWNER.to_string(), "listener".to_string()).unwrap();
    next_block(&mut t.block);
    let state = t.module.export();
    let back = VotingModule::import(&state).unwrap();
    assert_eq!(back.export(), state);
    for h in [t.block.height - 2, t.block.height - 1, t.block.height] {
        for who in ["alice", "bob"] {
            assert_eq!(
                back.query_voting_power_at_height(&t.block, &who.to_string(), Some(h)),
                t.module.query_voting_power_at_height(&t.block, &who.to_string(), Some(h))
            );
        }
        assert_eq!(
            back.query_total_power_at_height(&t.block, Some(h)),
            t.module.query_total_power_at_height(&t.block, Some(h))
        );
    }
    assert_eq!(back.query_total_power_at_height(&t.block, None).power, 7);
}

#[test]
fn inconsistent_state_is_refused() {
    let mut t = setup_test();
    mint_and_register_nft(&mut t, "alice", "1").unwrap();
    next_block(&mut t.block);
    let state = t.module.export();

    let mut unbalanced = state.clone();
    unbalanced.total.push((t.block.height, Some(5)));
    assert!(VotingModule::import(&unbalanced).is_none());

    let mut twice = state.clone();
    let again = twice.voters[0].clone();
    twice.voters.push(again);
    assert!(VotingModule::import(&twice).is_none());

    let mut unordered = state.clone();
    unordered.total.insert(0, (t.block.height - 1, Some(1)));
    assert!(VotingModule::import(&unordered).is_none());

    let mut weightless = state.clone();
    weightless.tokens[0].1 = 3;
    assert!(VotingModule::import(&weightless).is_none());

    assert!(VotingModule::import(&state).is_some());
}
