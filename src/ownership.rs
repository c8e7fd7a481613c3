use vstd::prelude::*;

use crate::error::OwnershipError;

verus! {

/// The block that a call runs in: its height, and its time in nanoseconds.
#[derive(Debug, Clone, Copy, PartialEq, Eq, Structural)]
pub struct BlockInfo {
    pub height: u64,
    pub time: u64,
}

/// When a pending ownership transfer lapses.
#[derive(Debug, Clone, Copy, PartialEq, Eq, Structural)]
pub enum Expiration {
    AtHeight(u64),
    /// A time in nanoseconds.
    AtTime(u64),
    Never {},
}

impl Expiration {
    pub open spec fn spec_is_expired(self, block: BlockInfo) -> bool {
        match self {
            Expiration::AtHeight(h) => block.height >= h,
            Expiration::AtTime(t) => block.time >= t,
            Expiration::Never {} => false,
        }
    }

    pub fn is_expired(&self, block: &BlockInfo) -> (r: bool)
        ensures
            r == self.spec_is_expired(*block),
    {
        match self {
            Expiration::AtHeight(h) => block.height >= *h,
            Expiration::AtTime(t) => block.time >= *t,
            Expiration::Never {} => false,
        }
    }
}

/// What a caller asks of the delegated owner.
#[derive(Debug, Clone, PartialEq, Eq)]
pub enum Action {
    TransferOwnership { new_owner: String, expiry: Option<Expiration> },
    AcceptOwnership,
    RenounceOwnership,
}

/// The delegated owner, and an ownership transfer that waits to be accepted.
#[derive(Debug, Clone, PartialEq, Eq)]
pub struct Ownership {
    pub owner: Option<String>,
    pub pending_owner: Option<String>,
    pub pending_expiry: Option<Expiration>,
}

/// The identities that an `Ownership` holds, as character sequences.
pub struct OwnershipView {
    pub owner: Option<Seq<char>>,
    pub pending_owner: Option<Seq<char>>,
    pub pending_expiry: Option<Expiration>,
}

/// An optional string as an optional character sequence.
pub open spec fn opt_view(o: Option<String>) -> Option<Seq<char>> {
    match o {
        Some(s) => Some(s@),
        None => None,
    }
}

/// A copy of an optional string.
pub fn clone_opt(o: &Option<String>) -> (r: Option<String>)
    ensures
        opt_view(r) == opt_view(*o),
{
    match o {
        Some(s) => Some(s.clone()),
        None => None,
    }
}

impl View for Ownership {
    type V = OwnershipView;

    open spec fn view(&self) -> OwnershipView {
        OwnershipView {
            owner: opt_view(self.owner),
            pending_owner: opt_view(self.pending_owner),
            pending_expiry: self.pending_expiry,
        }
    }
}

/// The owner's check: there is an owner, and the sender is it.
pub open spec fn owner_check(o: OwnershipView, sender: Seq<char>) -> Result<(), OwnershipError> {
    match o.owner {
        None => Err(OwnershipError::NoOwner),
        Some(w) => if w == sender {
            Ok(())
        } else {
            Err(OwnershipError::NotOwner)
        },
    }
}

/// What a transfer, an acceptance or a renunciation makes of the ownership.
pub open spec fn ownership_after(
    o: OwnershipView,
    block: BlockInfo,
    sender: Seq<char>,
    action: ActionView,
) -> Result<OwnershipView, OwnershipError> {
    match action {
        ActionView::Transfer { new_owner, expiry } => match owner_check(o, sender) {
            Err(e) => Err(e),
            Ok(_) => Ok(
                OwnershipView {
                    owner: o.owner,
                    pending_owner: Some(new_owner),
                    pending_expiry: expiry,
                },
            ),
        },
        ActionView::Accept => match o.pending_owner {
            None => Err(OwnershipError::TransferNotFound),
            Some(p) => if p != sender {
                Err(OwnershipError::NotPendingOwner)
            } else if o.pending_expiry matches Some(e) && e.spec_is_expired(block) {
                Err(OwnershipError::TransferExpired)
            } else {
                Ok(OwnershipView { owner: Some(p), pending_owner: None, pending_expiry: None })
            },
        },
        ActionView::Renounce => match owner_check(o, sender) {
            Err(e) => Err(e),
            Ok(_) => Ok(OwnershipView { owner: None, pending_owner: None, pending_expiry: None }),
        },
    }
}

/// An `Action` with its identities as character sequences.
pub enum ActionView {
    Transfer { new_owner: Seq<char>, expiry: Option<Expiration> },
    Accept,
    Renounce,
}

impl View for Action {
    type V = ActionView;

    open spec fn view(&self) -> ActionView {
        match self {
            Action::TransferOwnership { new_owner, expiry } => ActionView::Transfer {
                new_owner: new_owner@,
                expiry: *expiry,
            },
            Action::AcceptOwnership => ActionView::Accept,
            Action::RenounceOwnership => ActionView::Renounce,
        }
    }
}

impl Ownership {
    /// An ownership with the given owner and nothing pending.
    pub fn new(owner: Option<String>) -> (r: Ownership)
        ensures
            r@ == (OwnershipView { owner: opt_view(owner), pending_owner: None, pending_expiry: None }),
    {
        Ownership { owner, pending_owner: None, pending_expiry: None }
    }

    pub fn clone_ownership(&self) -> (r: Ownership)
        ensures
            r@ == self@,
    {
        Ownership {
            owner: clone_opt(&self.owner),
            pending_owner: clone_opt(&self.pending_owner),
            pending_expiry: self.pending_expiry,
        }
    }

    /// Whether `sender` is the current owner.
    pub fn assert_owner(&self, sender: &String) -> (r: Result<(), OwnershipError>)
        ensures
            r == owner_check(self@, sender@),
    {
        match &self.owner {
            None => Err(OwnershipError::NoOwner),
            Some(w) => if *w == *sender {
                Ok(())
            } else {
                Err(OwnershipError::NotOwner)
            },
        }
    }

    /// Applies `action` on behalf of `sender`: the owner proposes a transfer,
    /// the proposed owner accepts it before it lapses, or the owner renounces.
    /// On failure the ownership is left as it was.
    pub fn update_ownership(&mut self, block: &BlockInfo, sender: &String, action: Action) -> (r:
        Result<(), OwnershipError>)
        ensures
            match ownership_after(old(self)@, *block, sender@, action@) {
                Ok(o) => r is Ok && final(self)@ == o,
                Err(e) => r == Err::<(), OwnershipError>(e),
            },
            r is Err ==> *final(self) == *old(self),
    {
        match action {
            Action::TransferOwnership { new_owner, expiry } => {
                match self.assert_owner(sender) {
                    Err(e) => Err(e),
                    Ok(_) => {
                        self.pending_owner = Some(new_owner);
                        self.pending_expiry = expiry;
                        Ok(())
                    },
                }
            },
            Action::AcceptOwnership => {
                let pending = clone_opt(&self.pending_owner);
                match pending {
                    None => Err(OwnershipError::TransferNotFound),
                    Some(p) => {
                        if !(p == *sender) {
                            return Err(OwnershipError::NotPendingOwner);
                        }
                        if let Some(e) = &self.pending_expiry {
                            if e.is_expired(block) {
                                return Err(OwnershipError::TransferExpired);
                            }
                        }
                        self.owner = Some(p);
                        self.pending_owner = None;
                        self.pending_expiry = None;
                        Ok(())
                    },
                }
            },
            Action::RenounceOwnership => {
                match self.assert_owner(sender) {
                    Err(e) => Err(e),
                    Ok(_) => {
                        self.owner = None;
                        self.pending_owner = None;
                        self.pending_expiry = None;
                        Ok(())
                    },
                }
            },
        }
    }
}

} // verus!
