//! Plain value types shared by the whole library: error kinds, emitted
//! events, call origins and the destination of a repatriated reserve.

use vstd::prelude::*;

verus! {

/// Error kinds returned by the ledger and the supply controller.  Every
/// operation reports failure synchronously with one of these; nothing is
/// retried internally and no arithmetic wraps around silently.
#[derive(Clone, Copy, PartialEq, Eq, Structural, Debug)]
pub enum Error {
    /// A supplied or computed price or divisor is zero.
    ZeroPrice,
    /// Issuance arithmetic would exceed the representable range upward.
    SupplyOverflow,
    /// Issuance arithmetic would exceed the representable range downward.
    SupplyUnderflow,
    /// A signed delta's magnitude does not fit in a balance.
    AmountIntoBalanceFailed,
    /// Insufficient free or reserved balance for a requested debit.
    BalanceTooLow,
    /// Supply expansion or contraction was requested for the native asset.
    CannotSerpNativeAsset,
    /// The caller lacks the privilege the operation requires.
    Unauthorized,
}

/// Structured records handed to the event sink after each successful
/// mutating call.
#[derive(Clone, Copy, PartialEq, Eq, Structural, Debug)]
pub enum Event {
    /// Currency transfer success: `(currency_id, from, to, amount)`.
    Transferred(u64, u64, u64, u64),
    /// Balance update success: `(currency_id, who, amount)`.
    BalanceUpdated(u64, u64, i128),
    /// Deposit success: `(currency_id, who, amount)`.
    Deposited(u64, u64, u64),
    /// Withdrawal success: `(currency_id, who, amount)`.
    Withdrawn(u64, u64, u64),
    /// Supply expansion success: `(currency_id, expand_by)`.
    SerpedUpSupply(u64, u64),
    /// Supply contraction success: `(currency_id, contract_by)`.
    SerpedDownSupply(u64, u64),
}

/// The calling identity as the authentication layer resolved it: either the
/// protocol controller ("root") or a signed account.
#[derive(Clone, Copy, PartialEq, Eq, Structural, Debug)]
pub enum Origin {
    /// The privileged protocol-controller origin.
    Root,
    /// A transaction signed by the given account.
    Signed(u64),
}

impl Origin {
    /// Whether this origin carries root privilege.
    pub open spec fn is_root(self) -> bool {
        self is Root
    }

    /// The signing account, where there is one.
    pub open spec fn signer(self) -> Option<u64> {
        match self {
            Origin::Root => None,
            Origin::Signed(a) => Some(a),
        }
    }
}

/// Where `repatriate_reserved` credits the beneficiary: into the free or the
/// reserved balance.
#[derive(Clone, Copy, PartialEq, Eq, Structural, Debug)]
pub enum BalanceStatus {
    /// Credit the beneficiary's free balance.
    Free,
    /// Credit the beneficiary's reserved balance.
    Reserved,
}

/// Resolves a signed origin to its account, as the dispatch layer does
/// before a balance-owner operation.
pub fn ensure_signed(origin: Origin) -> (r: Result<u64, Error>)
    ensures
        r == match origin.signer() {
            Some(a) => Result::<u64, Error>::Ok(a),
            None => Result::<u64, Error>::Err(Error::Unauthorized),
        },
{
    match origin {
        Origin::Signed(a) => Ok(a),
        Origin::Root => Err(Error::Unauthorized),
    }
}

/// Asserts root privilege, as the dispatch layer does before a privileged
/// operation.
pub fn ensure_root(origin: Origin) -> (r: Result<(), Error>)
    ensures
        r is Ok <==> origin.is_root(),
        r is Err ==> r == Result::<(), Error>::Err(Error::Unauthorized),
{
    match origin {
        Origin::Root => Ok(()),
        Origin::Signed(_) => Err(Error::Unauthorized),
    }
}

} // verus!
