//! Assets (native coins or cw20 tokens) and the transfers the contract asks
//! the chain to make.

use vstd::prelude::*;

use crate::error::ContractError;

verus! {

/// A native coin, named by its denomination, or a cw20 token, named by its
/// contract address.
#[derive(Clone, Debug, PartialEq, Eq)]
pub enum AssetInfo {
    Token { contract_addr: String },
    NativeToken { denom: String },
}

/// An amount of an asset.
#[derive(Clone, Debug, PartialEq, Eq)]
pub struct Asset {
    pub info: AssetInfo,
    pub amount: u128,
}

/// An amount of a native coin.
#[derive(Clone, Debug, PartialEq, Eq)]
pub struct Coin {
    pub denom: String,
    pub amount: u128,
}

/// Who sent a message, and the coins sent with it.
#[derive(Clone, Debug, PartialEq, Eq)]
pub struct MessageInfo {
    pub sender: String,
    pub funds: Vec<Coin>,
}

/// A key and a value that a response reports.
#[derive(Clone, Debug, PartialEq, Eq)]
pub struct Attribute {
    pub key: String,
    pub value: String,
}

/// A transfer the contract asks the chain to make.
#[derive(Clone, Debug, PartialEq, Eq)]
pub enum TransferMsg {
    /// A cw20 `Transfer` of the contract's own tokens.
    Cw20Transfer { contract_addr: String, recipient: String, amount: u128 },
    /// A cw20 `TransferFrom` of tokens that `owner` allowed the contract to move.
    Cw20TransferFrom { contract_addr: String, owner: String, recipient: String, amount: u128 },
    /// A bank send of native coins.
    BankSend { to_address: String, denom: String, amount: u128 },
    /// A cw20 `IncreaseAllowance` that lets `spender` move more of the
    /// contract's tokens (with no expiry).
    Cw20IncreaseAllowance { contract_addr: String, spender: String, amount: u128 },
}

impl TransferMsg {
    /// A copy of this message.
    pub fn clone_msg(&self) -> (r: TransferMsg)
        ensures
            r == *self,
    {
        match self {
            TransferMsg::Cw20Transfer { contract_addr, recipient, amount } => TransferMsg::Cw20Transfer {
                contract_addr: contract_addr.clone(),
                recipient: recipient.clone(),
                amount: *amount,
            },
            TransferMsg::Cw20TransferFrom { contract_addr, owner, recipient, amount } =>
                TransferMsg::Cw20TransferFrom {
                contract_addr: contract_addr.clone(),
                owner: owner.clone(),
                recipient: recipient.clone(),
                amount: *amount,
            },
            TransferMsg::BankSend { to_address, denom, amount } => TransferMsg::BankSend {
                to_address: to_address.clone(),
                denom: denom.clone(),
                amount: *amount,
            },
            TransferMsg::Cw20IncreaseAllowance { contract_addr, spender, amount } =>
                TransferMsg::Cw20IncreaseAllowance {
                contract_addr: contract_addr.clone(),
                spender: spender.clone(),
                amount: *amount,
            },
        }
    }
}

impl AssetInfo {
    /// The asset named by `denom`: a cw20 token when `denom` is a valid
    /// address (as the chain's address validation says), a native coin
    /// otherwise.
    pub fn from_denom(denom: &String, is_valid_address: bool) -> (r: AssetInfo)
        ensures
            is_valid_address ==> r == (AssetInfo::Token { contract_addr: *denom }),
            !is_valid_address ==> r == (AssetInfo::NativeToken { denom: *denom }),
    {
        if is_valid_address {
            AssetInfo::Token { contract_addr: denom.clone() }
        } else {
            AssetInfo::NativeToken { denom: denom.clone() }
        }
    }

    /// The name of the asset: the token's address or the coin's denomination.
    pub fn denom(&self) -> (r: String)
        ensures
            r == match self {
                AssetInfo::Token { contract_addr } => *contract_addr,
                AssetInfo::NativeToken { denom } => *denom,
            },
    {
        match self {
            AssetInfo::Token { contract_addr } => contract_addr.clone(),
            AssetInfo::NativeToken { denom } => denom.clone(),
        }
    }

    /// A copy of this asset name.
    pub fn duplicate(&self) -> (r: AssetInfo)
        ensures
            r == *self,
    {
        match self {
            AssetInfo::Token { contract_addr } => AssetInfo::Token {
                contract_addr: contract_addr.clone(),
            },
            AssetInfo::NativeToken { denom } => AssetInfo::NativeToken { denom: denom.clone() },
        }
    }

    /// The name of the asset: the token's address or the coin's denomination.
    pub open spec fn name(self) -> String {
        match self {
            AssetInfo::Token { contract_addr } => contract_addr,
            AssetInfo::NativeToken { denom } => denom,
        }
    }

    /// The message that sends `amount` of this asset from the contract to
    /// `recipient`.
    pub fn transfer_msg(&self, recipient: String, amount: u128) -> (r: TransferMsg)
        ensures
            r == send_msg(*self, recipient, amount),
    {
        match self {
            AssetInfo::Token { contract_addr } => TransferMsg::Cw20Transfer {
                contract_addr: contract_addr.clone(),
                recipient,
                amount,
            },
            AssetInfo::NativeToken { denom } => TransferMsg::BankSend {
                to_address: recipient,
                denom: denom.clone(),
                amount,
            },
        }
    }

    /// Adds to `msgs` the transfer of `amount` of this asset from the
    /// contract to `recipient`.
    pub fn transfer(&self, msgs: &mut Vec<TransferMsg>, recipient: String, amount: u128) -> (r:
        Result<(), ContractError>)
        ensures
            r is Ok,
            final(msgs)@ == old(msgs)@.push(send_msg(*self, recipient, amount)),
    {
        msgs.push(self.transfer_msg(recipient, amount));
        Ok(())
    }

    /// Lets `spender` take `amount` of this asset: for a token, adds to `msgs`
    /// an allowance increase; for a native coin, adds the coins to `coins`, to
    /// be sent along with the spender's call.
    pub fn increase_allowance(
        &self,
        coins: &mut Vec<Coin>,
        msgs: &mut Vec<TransferMsg>,
        spender: String,
        amount: u128,
    ) -> (r: Result<(), ContractError>)
        ensures
            r is Ok,
            match *self {
                AssetInfo::Token { contract_addr } => final(msgs)@ == old(msgs)@.push(
                    TransferMsg::Cw20IncreaseAllowance { contract_addr, spender, amount },
                ) && final(coins)@ == old(coins)@,
                AssetInfo::NativeToken { denom } => final(coins)@ == old(coins)@.push(
                    Coin { denom, amount },
                ) && final(msgs)@ == old(msgs)@,
            },
    {
        match self {
            AssetInfo::Token { contract_addr } => {
                msgs.push(
                    TransferMsg::Cw20IncreaseAllowance {
                        contract_addr: contract_addr.clone(),
                        spender,
                        amount,
                    },
                );
            },
            AssetInfo::NativeToken { denom } => {
                coins.push(Coin { denom: denom.clone(), amount });
            },
        }
        Ok(())
    }

    /// Whether two asset names name the same asset: same kind, same text.
    pub open spec fn names_same(self, other: AssetInfo) -> bool {
        match (self, other) {
            (AssetInfo::Token { contract_addr: a }, AssetInfo::Token { contract_addr: b }) => a@
                == b@,
            (AssetInfo::NativeToken { denom: a }, AssetInfo::NativeToken { denom: b }) => a@ == b@,
            _ => false,
        }
    }

    /// Whether two asset names name the same asset.
    pub fn same_as(&self, other: &AssetInfo) -> (r: bool)
        ensures
            r == self.names_same(*other),
    {
        match (self, other) {
            (AssetInfo::Token { contract_addr: a }, AssetInfo::Token { contract_addr: b }) => *a
                == *b,
            (AssetInfo::NativeToken { denom: a }, AssetInfo::NativeToken { denom: b }) => *a == *b,
            _ => false,
        }
    }
}

/// The message that sends `amount` of an asset from the contract to `recipient`.
pub open spec fn send_msg(info: AssetInfo, recipient: String, amount: u128) -> TransferMsg {
    match info {
        AssetInfo::Token { contract_addr } => TransferMsg::Cw20Transfer {
            contract_addr,
            recipient,
            amount,
        },
        AssetInfo::NativeToken { denom } => TransferMsg::BankSend {
            to_address: recipient,
            denom,
            amount,
        },
    }
}

/// The index of the first coin of a denomination, if any.
pub open spec fn find_coin(funds: Seq<Coin>, denom: String) -> Option<int>
    decreases funds.len(),
{
    if funds.len() == 0 {
        None
    } else {
        match find_coin(funds.drop_last(), denom) {
            Some(i) => Some(i),
            None => if funds.last().denom@ == denom@ {
                Some(funds.len() - 1)
            } else {
                None
            },
        }
    }
}

fn find_funds(funds: &Vec<Coin>, denom: &String) -> (r: Option<usize>)
    ensures
        r matches Some(i) ==> find_coin(funds@, *denom) == Some(i as int) && i < funds@.len(),
        r is None ==> find_coin(funds@, *denom) is None,
{
    let mut i: usize = 0;
    while i < funds.len()
        invariant
            i <= funds@.len(),
            find_coin(funds@.subrange(0, i as int), *denom) is None,
        decreases funds@.len() - i,
    {
        assert(funds@.subrange(0, i + 1 as int).drop_last() =~= funds@.subrange(0, i as int));
        if funds[i].denom == *denom {
            proof {
                lemma_find_coin_prefix(funds@, *denom, i + 1, i as int);
            }
            return Some(i);
        }
        i = i + 1;
    }
    assert(funds@.subrange(0, funds@.len() as int) =~= funds@);
    None
}

proof fn lemma_find_coin_prefix(funds: Seq<Coin>, denom: String, n: int, k: int)
    requires
        0 <= n <= funds.len(),
        find_coin(funds.subrange(0, n), denom) == Some(k),
    ensures
        find_coin(funds, denom) == Some(k),
    decreases funds.len() - n,
{
    if n < funds.len() {
        assert(funds.subrange(0, n + 1).drop_last() =~= funds.subrange(0, n));
        lemma_find_coin_prefix(funds, denom, n + 1, k);
    } else {
        assert(funds.subrange(0, n) =~= funds);
    }
}

/// A found coin is one of the funds.
pub proof fn lemma_find_coin_bound(funds: Seq<Coin>, denom: String)
    ensures
        find_coin(funds, denom) matches Some(i) ==> 0 <= i < funds.len() && funds[i].denom@
            == denom@,
    decreases funds.len(),
{
    if funds.len() > 0 {
        lemma_find_coin_bound(funds.drop_last(), denom);
    }
}

impl Asset {
    /// An amount of an asset.
    pub fn new(info: AssetInfo, amount: u128) -> (r: Asset)
        ensures
            r == (Asset { info, amount }),
    {
        Asset { info, amount }
    }

    /// Adds to `msgs` the transfer of this asset from the contract to the
    /// message's sender; nothing for a zero amount.
    pub fn transfer(&self, msgs: &mut Vec<TransferMsg>, info: &MessageInfo) -> (r: Result<
        (),
        ContractError,
    >)
        ensures
            r is Ok,
            self.amount == 0 ==> final(msgs)@ == old(msgs)@,
            self.amount != 0 ==> final(msgs)@ == old(msgs)@.push(
                send_msg(self.info, info.sender, self.amount),
            ),
    {
        if self.amount != 0 {
            match &self.info {
                AssetInfo::Token { contract_addr } => {
                    msgs.push(
                        TransferMsg::Cw20Transfer {
                            contract_addr: contract_addr.clone(),
                            recipient: info.sender.clone(),
                            amount: self.amount,
                        },
                    );
                },
                AssetInfo::NativeToken { denom } => msgs.push(
                    TransferMsg::BankSend {
                        to_address: info.sender.clone(),
                        denom: denom.clone(),
                        amount: self.amount,
                    },
                ),
            }
        }
        Ok(())
    }

    /// Adds to `msgs` what collects this asset from the message's sender for
    /// `recipient`: a cw20 `TransferFrom` for a token; for a native coin, the
    /// coins must have come with the message, and any excess is refunded.
    /// Fails when too few coins came. Nothing happens for a zero amount.
    pub fn transfer_from(
        &self,
        msgs: &mut Vec<TransferMsg>,
        info: &MessageInfo,
        recipient: String,
    ) -> (r: Result<(), ContractError>)
        ensures
            self.amount == 0 ==> r is Ok && final(msgs)@ == old(msgs)@,
            self.amount != 0 ==> match self.info {
                AssetInfo::Token { contract_addr } => r is Ok && final(msgs)@ == old(msgs)@.push(
                    TransferMsg::Cw20TransferFrom {
                        contract_addr,
                        owner: info.sender,
                        recipient,
                        amount: self.amount,
                    },
                ),
                AssetInfo::NativeToken { denom } => match find_coin(info.funds@, denom) {
                    Some(i) if 0 <= i < info.funds@.len() => {
                        let sent = info.funds@[i].amount;
                        if sent >= self.amount {
                            &&& r is Ok
                            &&& sent == self.amount ==> final(msgs)@ == old(msgs)@
                            &&& sent > self.amount ==> final(msgs)@ == old(msgs)@.push(
                                TransferMsg::BankSend {
                                    to_address: info.sender,
                                    denom,
                                    amount: (sent - self.amount) as u128,
                                },
                            )
                        } else {
                            r == Err::<(), ContractError>(
                                ContractError::InvalidFunds { transfer_amount: self.amount },
                            ) && final(msgs)@ == old(msgs)@
                        }
                    },
                    _ => r == Err::<(), ContractError>(
                        ContractError::InvalidFunds { transfer_amount: self.amount },
                    ) && final(msgs)@ == old(msgs)@,
                },
            },
    {
        if self.amount != 0 {
            match &self.info {
                AssetInfo::Token { contract_addr } => {
                    msgs.push(
                        TransferMsg::Cw20TransferFrom {
                            contract_addr: contract_addr.clone(),
                            owner: info.sender.clone(),
                            recipient,
                            amount: self.amount,
                        },
                    );
                },
                AssetInfo::NativeToken { denom } => {
                    proof {
                        lemma_find_coin_bound(info.funds@, *denom);
                    }
                    match find_funds(&info.funds, denom) {
                        Some(i) => {
                            let coin = &info.funds[i];
                            if coin.amount >= self.amount {
                                let refund_amount = coin.amount - self.amount;
                                // refund for user
                                if refund_amount != 0 {
                                    msgs.push(
                                        TransferMsg::BankSend {
                                            to_address: info.sender.clone(),
                                            denom: denom.clone(),
                                            amount: refund_amount,
                                        },
                                    )
                                }
                            } else {
                                return Err(
                                    ContractError::InvalidFunds { transfer_amount: self.amount },
                                );
                            }
                        },
                        None => {
                            return Err(
                                ContractError::InvalidFunds { transfer_amount: self.amount },
                            );
                        },
                    }
                },
            }
        }
        Ok(())
    }
}

} // verus!
