//! The message and response types of the platform ABI. Strings (addresses,
//! denominations, attribute keys and values) are byte strings; hashes are
//! 32-byte digests.

use vstd::prelude::*;
use crate::coins::Coins;

verus! {

/// An account or contract address: an opaque byte string.
pub type Addr = Vec<u8>;

/// A key-value pair attached to a response or an event.
pub struct Attribute {
    pub key: Vec<u8>,
    pub value: Vec<u8>,
}

/// When a submessage's outcome is reported back to its sender.
pub enum ReplyOn {
    Never,
    Success,
    Error,
    Always,
}

/// A message the pipeline dispatches.
pub enum Message {
    StoreCode { wasm_byte_code: Vec<u8> },
    Instantiate {
        code_hash: Vec<u8>,
        msg: Vec<u8>,
        salt: Vec<u8>,
        funds: Coins,
        admin: Option<Addr>,
    },
    Execute { contract: Addr, msg: Vec<u8>, funds: Coins },
    Migrate { contract: Addr, new_code_hash: Vec<u8>, msg: Vec<u8> },
}

/// A nested message a contract asks the host to dispatch after its own
/// entry point returns, with the reply policy and a correlation id.
pub struct SubMsg {
    pub msg: Message,
    pub reply_on: ReplyOn,
    pub id: u64,
}

/// What a contract entry point returns on success.
pub struct Response {
    pub attributes: Vec<Attribute>,
    pub submsgs: Vec<SubMsg>,
    pub data: Option<Vec<u8>>,
}

impl Response {
    pub fn new() -> (r: Response)
        ensures
            r.attributes@.len() == 0,
            r.submsgs@.len() == 0,
            r.data is None,
    {
        Response { attributes: Vec::new(), submsgs: Vec::new(), data: None }
    }

    /// Append one attribute; everything else is unchanged.
    pub fn add_attribute(&mut self, key: Vec<u8>, value: Vec<u8>)
        ensures
            final(self).attributes@ == old(self).attributes@.push(
                Attribute { key, value },
            ),
            final(self).submsgs == old(self).submsgs,
            final(self).data == old(self).data,
    {
        self.attributes.push(Attribute { key, value });
    }
}

/// The outcome of a contract call as the host sees it: the contract's own
/// result, or the failure text it reported.
pub enum GenericResult<T> {
    Success(T),
    Failure(Vec<u8>),
}

/// The result a contract entry point serializes back to the host.
pub type ContractResult = GenericResult<Response>;

/// One account record: which code it runs and who may migrate it.
pub struct Account {
    pub code_hash: Vec<u8>,
    pub admin: Option<Addr>,
}

/// The chain's singleton configuration.
pub struct Config {
    pub owner: Option<Addr>,
    pub bank: Addr,
}

/// The block being processed.
pub struct BlockInfo {
    pub height: u64,
    pub timestamp: u64,
    pub hash: Vec<u8>,
}

/// A record of one state-changing operation.
pub struct Event {
    pub kind: Vec<u8>,
    pub attributes: Vec<Attribute>,
}

/// A query the host serves to contracts and clients.
pub enum QueryRequest {
    Info,
    Codes { start_after: Option<Vec<u8>>, limit: Option<u32> },
    Accounts { start_after: Option<Addr>, limit: Option<u32> },
    Code { hash: Vec<u8> },
    Account { address: Addr },
    WasmRaw { contract: Addr, key: Vec<u8> },
    WasmSmart { contract: Addr, msg: Vec<u8> },
    Balance { address: Addr, denom: Vec<u8> },
    Balances { address: Addr, start_after: Option<Vec<u8>>, limit: Option<u32> },
    Supply { denom: Vec<u8> },
    Supplies { start_after: Option<Vec<u8>>, limit: Option<u32> },
}

/// A lookup served by the bank contract.
pub enum BankQuery {
    Balance { address: Addr, denom: Vec<u8> },
    Balances { address: Addr, start_after: Option<Vec<u8>>, limit: Option<u32> },
    Supply { denom: Vec<u8> },
    Supplies { start_after: Option<Vec<u8>>, limit: Option<u32> },
}

/// The bank's answer; the variant always matches the query's.
pub enum BankQueryResponse {
    Balance(crate::coins::Coin),
    Balances(Coins),
    Supply(crate::coins::Coin),
    Supplies(Coins),
}

/// The order to move funds, addressed to the bank contract.
pub struct TransferMsg {
    pub from: Addr,
    pub to: Addr,
    pub coins: Coins,
}

} // verus!
