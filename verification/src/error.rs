//! The failures that the protocol reports, and the classes they fall into.

use vstd::prelude::*;

verus! {

/// Why an operation was refused. A refused operation changes no state.
#[derive(Clone, Copy, Debug, PartialEq, Eq, Structural, Hash)]
pub enum Error {
    /// The instance has been initialized before.
    AlreadyInitialized,
    /// A basket needs at least one component.
    ZeroComponents,
    /// The list of components and the list of units differ in length.
    ComponentsAmountsLengthMismatch,
    /// A number does not fit the range that its use allows.
    ValueTooLargeOverflow,
    /// The same asset is named twice in one component table.
    DuplicateComponent,
    /// A configured limit of zero.
    ZeroValue,
    /// The caller is not the administrator, or none is set.
    RequiresAdministrator,
    /// The caller is not the manager, or none is set.
    RequiresManager,
    /// No adapter is registered for the exchange.
    RequiresAdapter,
    /// No adapter registry is set, or another one was presented.
    RequiresRegistry,
    /// No factory is set.
    RequiresFactory,
    /// No exchange is set.
    RequiresExchangeRouter,
    /// An amount that has to be positive is zero or negative.
    ZeroOrNegativeAmount,
    /// A holder has less than is to be taken.
    InsufficientBalance,
    /// A spender may draw less than is to be taken.
    InsufficientAllowance,
    /// The input that an assembly needs exceeds what the caller offers.
    AmountsInError,
    /// The asset to be traded away is not in the component table.
    ComponentNotFound,
    /// The exchange cannot settle a swap on the terms asked for.
    SwapError,
    /// A collaborator answered with something that cannot be used.
    ContractInvocationError,
    /// More components than the configured limit allows.
    ExceedsMaxComponents,
}

/// The classes of failure.
#[derive(Clone, Copy, Debug, PartialEq, Eq, Structural, Hash)]
pub enum ErrorKind {
    Initialization,
    Authorization,
    Amount,
    Exchange,
    Capacity,
}

impl Error {
    /// The class of this failure.
    pub open spec fn spec_kind(self) -> ErrorKind {
        match self {
            Error::AlreadyInitialized
            | Error::ZeroComponents
            | Error::ComponentsAmountsLengthMismatch
            | Error::ValueTooLargeOverflow
            | Error::DuplicateComponent
            | Error::ZeroValue => ErrorKind::Initialization,
            Error::RequiresAdministrator
            | Error::RequiresManager
            | Error::RequiresAdapter
            | Error::RequiresRegistry
            | Error::RequiresFactory
            | Error::RequiresExchangeRouter => ErrorKind::Authorization,
            Error::ZeroOrNegativeAmount
            | Error::InsufficientBalance
            | Error::InsufficientAllowance
            | Error::AmountsInError => ErrorKind::Amount,
            Error::ComponentNotFound
            | Error::SwapError
            | Error::ContractInvocationError => ErrorKind::Exchange,
            Error::ExceedsMaxComponents => ErrorKind::Capacity,
        }
    }

    /// The class of this failure.
    #[verifier::when_used_as_spec(spec_kind)]
    pub fn kind(self) -> (kind: ErrorKind)
        ensures
            kind == self.spec_kind(),
    {
        match self {
            Error::AlreadyInitialized
            | Error::ZeroComponents
            | Error::ComponentsAmountsLengthMismatch
            | Error::ValueTooLargeOverflow
            | Error::DuplicateComponent
            | Error::ZeroValue => ErrorKind::Initialization,
            Error::RequiresAdministrator
            | Error::RequiresManager
            | Error::RequiresAdapter
            | Error::RequiresRegistry
            | Error::RequiresFactory
            | Error::RequiresExchangeRouter => ErrorKind::Authorization,
            Error::ZeroOrNegativeAmount
            | Error::InsufficientBalance
            | Error::InsufficientAllowance
            | Error::AmountsInError => ErrorKind::Amount,
            Error::ComponentNotFound
            | Error::SwapError
            | Error::ContractInvocationError => ErrorKind::Exchange,
            Error::ExceedsMaxComponents => ErrorKind::Capacity,
        }
    }
}

} // verus!
