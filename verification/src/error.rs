//! The ways in which an operation is refused.

use vstd::prelude::*;

verus! {

/// Model of a [`ContractError`].
pub enum ErrorView {
    Std(Seq<char>),
    Unauthorized,
    InsufficientFunds,
    NonExistentWill,
    InvalidRecipients,
    NotClaimable,
    InvalidTokenDenom,
}

/// Why an operation was refused. A refused operation changes nothing.
#[derive(Debug, PartialEq, Eq)]
pub enum ContractError {
    /// The host could not resolve an address. It holds the text of the
    /// host's refusal.
    Std(String),
    /// The caller may not do this. No operation of this library gives it.
    Unauthorized {},
    /// A withdrawal asked for more than is tracked under a denomination.
    InsufficientFunds {},
    /// The operation needs a will, and the owner has none.
    NonExistentWill {},
    /// The percentages of a submission do not add up to one hundred.
    InvalidRecipients {},
    /// The renewal interval of the will has not lapsed yet.
    NotClaimable {},
    /// A coin of the reserved denomination was deposited or asked for.
    InvalidTokenDenom {},
}

impl View for ContractError {
    type V = ErrorView;

    open spec fn view(&self) -> ErrorView {
        match *self {
            ContractError::Std(text) => ErrorView::Std(text@),
            ContractError::Unauthorized {  } => ErrorView::Unauthorized,
            ContractError::InsufficientFunds {  } => ErrorView::InsufficientFunds,
            ContractError::NonExistentWill {  } => ErrorView::NonExistentWill,
            ContractError::InvalidRecipients {  } => ErrorView::InvalidRecipients,
            ContractError::NotClaimable {  } => ErrorView::NotClaimable,
            ContractError::InvalidTokenDenom {  } => ErrorView::InvalidTokenDenom,
        }
    }
}

impl ContractError {
    /// The text by which the error is reported.
    pub fn message(&self) -> (res: String)
        ensures
            res@ == match self@ {
                ErrorView::Std(text) => text,
                ErrorView::Unauthorized => "Unauthorized"@,
                ErrorView::InsufficientFunds => "InsufficientFunds"@,
                ErrorView::NonExistentWill => "NonExistentWill"@,
                ErrorView::InvalidRecipients => "InvalidRecipients"@,
                ErrorView::NotClaimable => "NotClaimable"@,
                ErrorView::InvalidTokenDenom => "InvalidTokenDenom"@,
            },
    {
        match self {
            ContractError::Std(text) => text.clone(),
            ContractError::Unauthorized {  } => String::from_str("Unauthorized"),
            ContractError::InsufficientFunds {  } => String::from_str("InsufficientFunds"),
            ContractError::NonExistentWill {  } => String::from_str("NonExistentWill"),
            ContractError::InvalidRecipients {  } => String::from_str("InvalidRecipients"),
            ContractError::NotClaimable {  } => String::from_str("NotClaimable"),
            ContractError::InvalidTokenDenom {  } => String::from_str("InvalidTokenDenom"),
        }
    }
}

} // verus!
