//! The errors that the contract's operations answer with.

use vstd::prelude::*;

verus! {

/// Why an operation was refused.
#[derive(Clone, Copy, Debug, PartialEq, Eq, Structural)]
pub enum ContractError {
    /// A storage entry that the operation reads is missing.
    NotFound,
    /// An amount would go below zero.
    Overflow,
    /// Stored bytes that should be text are not UTF-8.
    FromUtf8,
    InvalidTickSpacing,
    InvalidFee,
    InvalidTickIndex,
    TokensAreSame,
    InvalidPoolKey,
    InvalidOffset,
    InvalidFunds { transfer_amount: u128 },
    Div,
    Cast,
    Add,
    TickLimitReached,
    TickNotFound,
    TickAlreadyExist,
    TickOverBounds,
    TickReInitialize,
    Unauthorized,
    NoFundSent,
    InvalidFund,
    ZapInAssertionFailure { minium_receive: u128, return_amount: u128 },
    ZapOutNotEnoughBalanceToSwap,
    UnrecognizedReplyId { id: u64 },
}

/// The message that the contract reports for an error.
pub open spec fn error_message(e: ContractError) -> Seq<char> {
    match e {
        ContractError::NotFound => "not found"@,
        ContractError::Overflow => "overflow"@,
        ContractError::FromUtf8 => "invalid utf-8"@,
        ContractError::InvalidTickSpacing => "invalid tick spacing"@,
        ContractError::InvalidFee => "invalid fee"@,
        ContractError::InvalidTickIndex => "invalid tick index"@,
        ContractError::TokensAreSame => "tokens are the same"@,
        ContractError::InvalidPoolKey => "invalid pool key"@,
        ContractError::InvalidOffset => "invalid offset"@,
        ContractError::InvalidFunds { .. } => "Assertion failed; require minimum amount"@,
        ContractError::Div => "division overflow or division by zero"@,
        ContractError::Cast => "type failed"@,
        ContractError::Add => "addition overflow"@,
        ContractError::TickLimitReached => "tick limit reached"@,
        ContractError::TickNotFound => "tick not found"@,
        ContractError::TickAlreadyExist => "tick already exist"@,
        ContractError::TickOverBounds => "tick over bounds"@,
        ContractError::TickReInitialize => "tick initialize tick again"@,
        ContractError::Unauthorized => "Unauthorized"@,
        ContractError::NoFundSent => "No fund is sent"@,
        ContractError::InvalidFund => "Invalid fund"@,
        ContractError::ZapInAssertionFailure { .. } => "Assertion failed"@,
        ContractError::UnrecognizedReplyId { .. } => "Invalid Reply ID"@,
        ContractError::ZapOutNotEnoughBalanceToSwap => "Error on zap out: not enough balance to swap"@,
    }
}

impl ContractError {
    /// The message that the contract reports for this error.
    pub fn message(&self) -> (r: String)
        ensures
            r@ == error_message(*self),
    {
        match self {
            ContractError::NotFound => "not found".to_owned(),
            ContractError::Overflow => "overflow".to_owned(),
            ContractError::FromUtf8 => "invalid utf-8".to_owned(),
            ContractError::InvalidTickSpacing => "invalid tick spacing".to_owned(),
            ContractError::InvalidFee => "invalid fee".to_owned(),
            ContractError::InvalidTickIndex => "invalid tick index".to_owned(),
            ContractError::TokensAreSame => "tokens are the same".to_owned(),
            ContractError::InvalidPoolKey => "invalid pool key".to_owned(),
            ContractError::InvalidOffset => "invalid offset".to_owned(),
            ContractError::InvalidFunds { .. } => "Assertion failed; require minimum amount".to_owned(),
            ContractError::Div => "division overflow or division by zero".to_owned(),
            ContractError::Cast => "type failed".to_owned(),
            ContractError::Add => "addition overflow".to_owned(),
            ContractError::TickLimitReached => "tick limit reached".to_owned(),
            ContractError::TickNotFound => "tick not found".to_owned(),
            ContractError::TickAlreadyExist => "tick already exist".to_owned(),
            ContractError::TickOverBounds => "tick over bounds".to_owned(),
            ContractError::TickReInitialize => "tick initialize tick again".to_owned(),
            ContractError::Unauthorized => "Unauthorized".to_owned(),
            ContractError::NoFundSent => "No fund is sent".to_owned(),
            ContractError::InvalidFund => "Invalid fund".to_owned(),
            ContractError::ZapInAssertionFailure { .. } => "Assertion failed".to_owned(),
            ContractError::UnrecognizedReplyId { .. } => "Invalid Reply ID".to_owned(),
            ContractError::ZapOutNotEnoughBalanceToSwap => "Error on zap out: not enough balance to swap".to_owned(),
        }
    }
}

} // verus!
