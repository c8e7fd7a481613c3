#![allow(dead_code)]

use dao_voting_sg_community_nft::{
    Action, BlockInfo, ContractError, InstantiateMsg, MigrateMsg, OwnershipError,
    RegisteredNftResponse, VotingModule, CONTRACT_NAME, CONTRACT_VERSION,
};

const CREATOR_ADDR: &str = "creator";
const OWNER: &str = "owner";

/// A stand-in for the token collection: who holds which token.
struct Collection {
    held: Vec<(String, String)>,
}

impl Collection {
    fn new() -> Collection {
        Collection { held: Vec::new() }
    }

    fn mint(&mut self, owner: &str, token_id: &str) -> Result<(), String> {
        if self.held.iter().any(|(t, _)| t == token_id) {
            return Err("token_id already claimed".to_string());
        }
        self.held.push((token_id.to_string(), owner.to_string()));
        Ok(())
    }

    fn burn(&mut self, owner: &str, token_id: &str) -> Result<(), String> {
        match self.held.iter().position(|(t, o)| t == token_id && o == owner) {
            Some(i) => {
                self.held.remove(i);
                Ok(())
            }
            None => Err("not the owner".to_string()),
        }
    }

    fn tokens(&self, owner: &str) -> Vec<String> {
        self.held.iter().filter(|(_, o)| o == owner).map(|(t, _)| t.clone()).collect()
    }

    fn owner_of(&self, token_id: &str) -> Option<String> {
        self.held.iter().find(|(t, _)| t == token_id).map(|(_, o)| o.clone())
    }
}

struct CommonTest {
    block: BlockInfo,
    module: VotingModule,
    nft: Collection,
}

fn setup_test() -> CommonTest {
    let block = BlockInfo { height: 12345, time: 1_571_797_419_879_305_533 };
    let module = VotingModule::instantiate(
        &block,
        &CREATOR_ADDR.to_string(),
        InstantiateMsg { nft_contract: "contract0".to_string(), owner: Some(OWNER.to_string()) },
    );
    CommonTest { block, module, nft: Collection::new() }
}

fn next_block(block: &mut BlockInfo) {
    block.height += 1;
    block.time += 5_000_000_000;
}

fn register(t: &mut CommonTest, sender: &str) -> Result<(), ContractError> {
    let owned = t.nft.tokens(sender);
    t.module.execute_register(&t.block, &sender.to_string(), &owned).map(|_| ())
}

fn unregister(t: &mut CommonTest, sender: &str) -> Result<(), ContractError> {
    t.module.execute_unregister(&t.block, &sender.to_string()).map(|_| ())
}

fn set_voting_power(t: &mut CommonTest, sender: &str, token_id: &str, power: u128) -> Result<(), ContractError> {
    t.module.execute_set_voting_power(&t.block, &sender.to_string(), token_id.to_string(), power)
}

fn sync(t: &mut CommonTest, token_id: &str) {
    let holder = t.nft.owner_of(token_id);
    t.module.execute_sync(&t.block, &token_id.to_string(), &holder);
}

fn mint_and_register_nft(t: &mut CommonTest, voter: &str, token_id: &str) -> Result<(), String> {
    t.nft.mint(voter, token_id)?;
    set_voting_power(t, CREATOR_ADDR, token_id, 1).map_err(|e| e.message().to_string())?;
    register(t, voter).map_err(|e| e.message().to_string())?;
    Ok(())
}

fn query_total_and_voting_power(t: &CommonTest, addr: &str, height: Option<u64>) -> (u128, u128) {
    let total = t.module.query_total_power_at_height(&t.block, height);
    let personal = t.module.query_voting_power_at_height(&t.block, &addr.to_string(), height);
    (total.power, personal.power)
}

// I can register, voting power and total power is updated one block later.
#[test]
fn test_register() {
    let mut t = setup_test();

    let total_power = t.module.query_total_power_at_height(&t.block, None);
    let voting_power = t.module.query_voting_power_at_height(&t.block, &CREATOR_ADDR.to_string(), None);

    assert_eq!(total_power.power, 0);
    assert_eq!(total_power.height, t.block.height);

    assert_eq!(voting_power.power, 0);
    assert_eq!(voting_power.height, t.block.height);

    mint_and_register_nft(&mut t, CREATOR_ADDR, "1").unwrap();
    mint_and_register_nft(&mut t, "other", "2").unwrap();

    // Voting powers are not updated until a block has passed.
    let (total, personal) = query_total_and_voting_power(&t, CREATOR_ADDR, None);
    assert_eq!(total, 0);
    assert_eq!(personal, 0);

    next_block(&mut t.block);

    let (total, personal) = query_total_and_voting_power(&t, CREATOR_ADDR, None);
    assert_eq!(total, 2);
    assert_eq!(personal, 1);
}

// I can unregister. Voting power and total power is updated when I unregister.
#[test]
fn test_unregister() {
    let mut t = setup_test();

    mint_and_register_nft(&mut t, CREATOR_ADDR, "1").unwrap();
    mint_and_register_nft(&mut t, "other", "2").unwrap();

    next_block(&mut t.block);

    let (total, personal) = query_total_and_voting_power(&t, CREATOR_ADDR, None);
    assert_eq!(total, 2);
    assert_eq!(personal, 1);

    unregister(&mut t, CREATOR_ADDR).unwrap();

    // Voting power is updated when I unregister, visible a block later.
    let (total, personal) = query_total_and_voting_power(&t, CREATOR_ADDR, None);
    assert_eq!(total, 2);
    assert_eq!(personal, 1);

    next_block(&mut t.block);

    let (total, personal) = query_total_and_voting_power(&t, CREATOR_ADDR, None);
    assert_eq!(total, 1);
    assert_eq!(personal, 0);

    // I cannot unregister if already unregistered.
    let res = unregister(&mut t, CREATOR_ADDR);
    assert!(res.unwrap_err().message().contains("You have not yet registered to vote"));
}

// I can register a token with no voting power set yet. My voting power is
// updated when the token's voting power is updated. Voting power can be updated
// for a token when it has not yet been registered.
#[test]
fn test_set_voting_power() {
    let mut t = setup_test();

    let (total, personal) = query_total_and_voting_power(&t, CREATOR_ADDR, None);
    assert_eq!(total, 0);
    assert_eq!(personal, 0);

    t.nft.mint(CREATOR_ADDR, "1").unwrap();
    register(&mut t, CREATOR_ADDR).unwrap();
    next_block(&mut t.block);

    // Voting power is still zero since NFT voting power hasn't been set.
    let (total, personal) = query_total_and_voting_power(&t, CREATOR_ADDR, None);
    assert_eq!(total, 0);
    assert_eq!(personal, 0);

    // only owner or creator can set voting power
    let err = set_voting_power(&mut t, "nobody", "1", 5).unwrap_err();
    assert_eq!(err, ContractError::Ownable(OwnershipError::NotOwner));

    // owner and creator can both set voting power
    set_voting_power(&mut t, OWNER, "1", 5).unwrap();
    set_voting_power(&mut t, CREATOR_ADDR, "1", 5).unwrap();
    next_block(&mut t.block);

    let (total, personal) = query_total_and_voting_power(&t, CREATOR_ADDR, None);
    assert_eq!(total, 5);
    assert_eq!(personal, 5);

    // Unregister token.
    unregister(&mut t, CREATOR_ADDR).unwrap();
    next_block(&mut t.block);

    // Voting power should be zero.
    let (total, personal) = query_total_and_voting_power(&t, CREATOR_ADDR, None);
    assert_eq!(total, 0);
    assert_eq!(personal, 0);

    // Set voting power.
    set_voting_power(&mut t, OWNER, "1", 10).unwrap();
    next_block(&mut t.block);

    // Voting power should still be zero.
    let (total, personal) = query_total_and_voting_power(&t, CREATOR_ADDR, None);
    assert_eq!(total, 0);
    assert_eq!(personal, 0);

    // Register token.
    register(&mut t, CREATOR_ADDR).unwrap();
    next_block(&mut t.block);

    // Voting power should now reflect the latest update.
    let (total, personal) = query_total_and_voting_power(&t, CREATOR_ADDR, None);
    assert_eq!(total, 10);
    assert_eq!(personal, 10);

    // Token voting power can be set to 0.
    set_voting_power(&mut t, OWNER, "1", 0).unwrap();
    next_block(&mut t.block);

    // Voting power should now be zero.
    let (total, personal) = query_total_and_voting_power(&t, CREATOR_ADDR, None);
    assert_eq!(total, 0);
    assert_eq!(personal, 0);
}

// I can register. Sync does nothing if registered properly. Once I burn,
// nothing happens without unregistering. Voting power is updated only after
// sync is called if unregister is not called.
#[test]
fn test_sync() {
    let mut t = setup_test();

    let (total, personal) = query_total_and_voting_power(&t, CREATOR_ADDR, None);
    assert_eq!(total, 0);
    assert_eq!(personal, 0);

    mint_and_register_nft(&mut t, CREATOR_ADDR, "1").unwrap();
    mint_and_register_nft(&mut t, "other", "2").unwrap();
    // Voting powers are not updated until a block has passed.
    next_block(&mut t.block);

    let (total, personal) = query_total_and_voting_power(&t, CREATOR_ADDR, None);
    assert_eq!(total, 2);
    assert_eq!(personal, 1);

    // Sync does nothing while the token is still held.
    sync(&mut t, "1");
    next_block(&mut t.block);

    let (total, personal) = query_total_and_voting_power(&t, CREATOR_ADDR, None);
    assert_eq!(total, 2);
    assert_eq!(personal, 1);

    let registered = t.module.query_registered_nft(&CREATOR_ADDR.to_string());
    assert_eq!(registered.token_id, Some("1".to_string()));

    // Burn NFT.
    t.nft.burn(CREATOR_ADDR, "1").unwrap();
    next_block(&mut t.block);

    // Nothing changes.
    let (total, personal) = query_total_and_voting_power(&t, CREATOR_ADDR, None);
    assert_eq!(total, 2);
    assert_eq!(personal, 1);

    let registered = t.module.query_registered_nft(&CREATOR_ADDR.to_string());
    assert_eq!(registered.token_id, Some("1".to_string()));

    // Sync unregisters.
    sync(&mut t, "1");
    next_block(&mut t.block);

    let (total, personal) = query_total_and_voting_power(&t, CREATOR_ADDR, None);
    assert_eq!(total, 1);
    assert_eq!(personal, 0);

    let registered = t.module.query_registered_nft(&CREATOR_ADDR.to_string());
    assert_eq!(registered.token_id, None);
}

// I can list all of the currently registered voters and get their NFTs.
#[test]
fn test_list_voters_and_get_registered_nfts() {
    let mut t = setup_test();

    mint_and_register_nft(&mut t, CREATOR_ADDR, "1").unwrap();

    let deardrie = "deardrie";
    t.nft.mint(deardrie, "2").unwrap();

    let voters = t.module.query_list_voters(None, None).voters;
    assert_eq!(voters.len(), 1);
    assert_eq!(voters[0], CREATOR_ADDR.to_string());

    let creator_registered = t.module.query_registered_nft(&CREATOR_ADDR.to_string());
    assert_eq!(creator_registered.token_id, Some("1".to_string()));

    let deadrie_registered = t.module.query_registered_nft(&deardrie.to_string());
    assert_eq!(deadrie_registered.token_id, None);

    register(&mut t, deardrie).unwrap();

    let deadrie_registered: RegisteredNftResponse = t.module.query_registered_nft(&deardrie.to_string());
    assert_eq!(deadrie_registered.token_id, Some("2".to_string()));

    let voters = t.module.query_list_voters(None, None).voters;
    assert_eq!(voters.len(), 2);
    assert_eq!(voters[0], CREATOR_ADDR.to_string());
    assert_eq!(voters[1], deardrie.to_string());

    unregister(&mut t, CREATOR_ADDR).unwrap();
    unregister(&mut t, deardrie).unwrap();

    let creator_registered = t.module.query_registered_nft(&CREATOR_ADDR.to_string());
    assert_eq!(creator_registered.token_id, None);

    let deadrie_registered = t.module.query_registered_nft(&deardrie.to_string());
    assert_eq!(deadrie_registered.token_id, None);

    let voters = t.module.query_list_voters(None, None).voters;
    assert_eq!(voters.len(), 0);
}

#[test]
fn test_info_query_works() {
    let t = setup_test();
    let info = t.module.query_info();
    assert_eq!(info.info.version, CONTRACT_VERSION.to_string());
}

// The owner may add and remove hooks.
#[test]
fn test_add_remove_hooks() {
    let mut t = setup_test();

    t.module.execute_add_hook(&CREATOR_ADDR.to_string(), "meow".to_string()).unwrap();
    t.module.execute_remove_hook(&CREATOR_ADDR.to_string(), "meow".to_string()).unwrap();

    // Minting NFT works if no hooks
    mint_and_register_nft(&mut t, CREATOR_ADDR, "1").unwrap();

    // Add a hook to a fake contract called "meow"
    t.module.execute_add_hook(&CREATOR_ADDR.to_string(), "meow".to_string()).unwrap();

    let hooks = t.module.query_hooks();
    assert_eq!(hooks.hooks, vec!["meow".to_string()]);

    // Minting the same token again fails.
    mint_and_register_nft(&mut t, CREATOR_ADDR, "1").unwrap_err();

    let res = t.module.execute_add_hook(&CREATOR_ADDR.to_string(), "meow".to_string());
    assert!(res.unwrap_err().message().contains("Given address already registered as a hook"));

    let res = t.module.execute_remove_hook(&CREATOR_ADDR.to_string(), "blue".to_string());
    assert!(res.unwrap_err().message().contains("Given address not registered as a hook"));

    let res = t.module.execute_add_hook(&"ekez".to_string(), "evil".to_string());
    assert!(res.unwrap_err().message().contains("Caller is not the contract's current owner"));
}

fn update_owner(t: &mut CommonTest, sender: &str, action: Action) -> Result<(), ContractError> {
    t.module.execute_update_owner(&t.block, &sender.to_string(), action)
}

// The owner can be transferred by the current owner or the DAO. Renouncing
// ownership actually transfers ownership to the DAO.
#[test]
fn test_update_owner() {
    let mut t = setup_test();

    let ownership = t.module.query_ownership().owner;
    assert_eq!(ownership, Some(OWNER.to_string()));

    // Transfer ownership works.
    let new_owner = "new";
    update_owner(
        &mut t,
        OWNER,
        Action::TransferOwnership { new_owner: new_owner.to_string(), expiry: None },
    )
    .unwrap();
    update_owner(&mut t, new_owner, Action::AcceptOwnership).unwrap();

    let ownership = t.module.query_ownership().owner;
    assert_eq!(ownership, Some(new_owner.to_string()));

    // Only the current owner or DAO can transfer ownership.
    let err = update_owner(
        &mut t,
        OWNER,
        Action::TransferOwnership { new_owner: OWNER.to_string(), expiry: None },
    )
    .unwrap_err();
    assert!(matches!(err, ContractError::Ownable(OwnershipError::NotOwner)));

    let ownership = t.module.query_ownership().owner;
    assert_eq!(ownership, Some(new_owner.to_string()));

    // DAO (module creator) can forcibly transfer ownership.
    update_owner(
        &mut t,
        CREATOR_ADDR,
        Action::TransferOwnership { new_owner: OWNER.to_string(), expiry: None },
    )
    .unwrap();
    update_owner(&mut t, OWNER, Action::AcceptOwnership).unwrap();

    let ownership = t.module.query_ownership().owner;
    assert_eq!(ownership, Some(OWNER.to_string()));

    // Only the owner or DAO (creator) can renounce.
    let err = update_owner(&mut t, "someone_else", Action::RenounceOwnership).unwrap_err();
    assert!(matches!(err, ContractError::Ownable(OwnershipError::NotOwner)));

    // Renouncing ownership actually transfers ownership to the DAO.
    update_owner(&mut t, OWNER, Action::RenounceOwnership).unwrap();

    let ownership = t.module.query_ownership().owner;
    assert_eq!(ownership, Some(CREATOR_ADDR.to_string()));

    // Transfer back to OWNER.
    update_owner(
        &mut t,
        CREATOR_ADDR,
        Action::TransferOwnership { new_owner: OWNER.to_string(), expiry: None },
    )
    .unwrap();
    update_owner(&mut t, OWNER, Action::AcceptOwnership).unwrap();

    let ownership = t.module.query_ownership().owner;
    assert_eq!(ownership, Some(OWNER.to_string()));

    // Forcibly renounce.
    update_owner(&mut t, CREATOR_ADDR, Action::RenounceOwnership).unwrap();

    let ownership = t.module.query_ownership().owner;
    assert_eq!(ownership, Some(CREATOR_ADDR.to_string()));
}

#[test]
pub fn test_migrate_update_version() {
    let mut t = setup_test();
    t.module.set_contract_version("my-contract".to_string(), "1.0.0".to_string());
    t.module.migrate(MigrateMsg {});
    let version = t.module.query_info().info;
    assert_eq!(version.version, CONTRACT_VERSION);
    assert_eq!(version.contract, CONTRACT_NAME);
}
