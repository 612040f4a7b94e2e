//! The state-transition pipeline over the chain store: storing code,
//! instantiating contracts, and transaction atomicity. A contract call runs
//! in a virtual machine outside this library; the pipeline here does
//! everything up to the call, and picks up the call's result.

use vstd::prelude::*;
use crate::store::{Store, has_key, contains_pair};
use crate::hashing::{sha256_of, spec_derive_addr, hash_bytes, derive_addr};
use crate::bytes_util::copy_bytes;
use crate::types::{Response, ContractResult, GenericResult, Event, Attribute, SubMsg, Message, Config};

verus! {

/// Why the pipeline refused a message.
#[derive(Clone, Copy, Debug, PartialEq, Eq, Structural)]
pub enum AppError {
    CodeExists,
    CodeNotFound,
    AccountExists,
    ChainIdNotSet,
    ContractFailed,
    ConfigAlreadySet,
    ConfigNotSet,
}

/// Key of the stored bytecode with a given hash: the codes namespace is the
/// length-framed name `c`.
pub open spec fn code_key(h: Seq<u8>) -> Seq<u8> {
    seq![0u8, 1u8, 99u8] + h
}

/// Key of the account record of an address: the accounts namespace `a`.
pub open spec fn account_key(a: Seq<u8>) -> Seq<u8> {
    seq![0u8, 1u8, 97u8] + a
}

/// Key of the chain id singleton.
pub open spec fn chain_id_key() -> Seq<u8> {
    seq![99u8, 104u8, 97u8, 105u8, 110u8, 95u8, 105u8, 100u8]
}

fn make_code_key(h: &Vec<u8>) -> (r: Vec<u8>)
    ensures
        r@ == code_key(h@),
{
    let mut r: Vec<u8> = vec![0u8, 1u8, 99u8];
    crate::commit::append_bytes(&mut r, h);
    proof {
        assert(r@ =~= code_key(h@));
    }
    r
}

fn make_account_key(a: &Vec<u8>) -> (r: Vec<u8>)
    ensures
        r@ == account_key(a@),
{
    let mut r: Vec<u8> = vec![0u8, 1u8, 97u8];
    crate::commit::append_bytes(&mut r, a);
    proof {
        assert(r@ =~= account_key(a@));
    }
    r
}

fn make_chain_id_key() -> (r: Vec<u8>)
    ensures
        r@ == chain_id_key(),
{
    // "chain_id"
    let r: Vec<u8> = vec![99u8, 104u8, 97u8, 105u8, 110u8, 95u8, 105u8, 100u8];
    proof {
        assert(r@ =~= chain_id_key());
    }
    r
}

/// Keys of different namespaces never collide, and a namespace key
/// determines the raw key inside it.
pub proof fn lemma_keys_distinct(h: Seq<u8>, a: Seq<u8>)
    ensures
        code_key(h) != account_key(a),
        code_key(h) != chain_id_key(),
        account_key(a) != chain_id_key(),
{
    assert(code_key(h)[2] == 99u8 && account_key(a)[2] == 97u8);
    assert(chain_id_key()[0] == 99u8 && code_key(h)[0] == 0u8 && account_key(a)[0] == 0u8);
}

pub proof fn lemma_code_key_injective(h1: Seq<u8>, h2: Seq<u8>)
    requires
        code_key(h1) == code_key(h2),
    ensures
        h1 == h2,
{
    assert(h1 =~= code_key(h1).subrange(3, code_key(h1).len() as int));
    assert(h2 =~= code_key(h2).subrange(3, code_key(h2).len() as int));
}

pub proof fn lemma_account_key_injective(a1: Seq<u8>, a2: Seq<u8>)
    requires
        account_key(a1) == account_key(a2),
    ensures
        a1 == a2,
{
    assert(a1 =~= account_key(a1).subrange(3, account_key(a1).len() as int));
    assert(a2 =~= account_key(a2).subrange(3, account_key(a2).len() as int));
}

/// Hexadecimal digit of a value below 16.
pub open spec fn hex_digit(x: int) -> u8 {
    if x < 10 {
        (48 + x) as u8
    } else {
        (87 + x) as u8
    }
}

/// Lower-case hexadecimal form of a byte string, two digits per byte.
pub open spec fn hex_of(s: Seq<u8>) -> Seq<u8>
    decreases s.len(),
{
    if s.len() == 0 {
        Seq::empty()
    } else {
        hex_of(s.drop_last()) + seq![
            hex_digit(s.last() as int / 16),
            hex_digit(s.last() as int % 16),
        ]
    }
}

/// Write a byte string in lower-case hexadecimal.
pub fn to_hex(s: &Vec<u8>) -> (r: Vec<u8>)
    ensures
        r@ == hex_of(s@),
{
    let mut r: Vec<u8> = Vec::new();
    let mut i: usize = 0;
    while i < s.len()
        invariant
            i <= s@.len(),
            r@ =~= hex_of(s@.take(i as int)),
        decreases s@.len() - i,
    {
        let b = s[i];
        let hi = b / 16;
        let lo = b % 16;
        r.push(if hi < 10 {
            48 + hi
        } else {
            87 + hi
        });
        r.push(if lo < 10 {
            48 + lo
        } else {
            87 + lo
        });
        proof {
            assert(s@.take(i + 1).drop_last() =~= s@.take(i as int));
            assert(s@.take(i + 1).last() == s@[i as int]);
            assert(r@ =~= hex_of(s@.take(i + 1)));
        }
        i = i + 1;
    }
    proof {
        assert(s@.take(s@.len() as int) =~= s@);
    }
    r
}

// the text `{"code_hash":"`
pub open spec fn s_acct_head() -> Seq<u8> {
    seq![123u8, 34, 99, 111, 100, 101, 95, 104, 97, 115, 104, 34, 58, 34]
}

// the text `","admin":"`
pub open spec fn s_acct_admin() -> Seq<u8> {
    seq![34u8, 44, 34, 97, 100, 109, 105, 110, 34, 58, 34]
}

// the text `"}`
pub open spec fn s_acct_end() -> Seq<u8> {
    seq![34u8, 125]
}

/// The stored form of an account record: a JSON object with the code hash
/// in hexadecimal and, when one is set, the admin address in hexadecimal;
/// an absent admin is omitted.
pub open spec fn enc_account(code_hash: Seq<u8>, admin: Option<Seq<u8>>) -> Seq<u8> {
    match admin {
        Option::None => s_acct_head() + hex_of(code_hash) + s_acct_end(),
        Option::Some(a) => s_acct_head() + hex_of(code_hash) + s_acct_admin() + hex_of(a)
            + s_acct_end(),
    }
}

fn encode_account(code_hash: &Vec<u8>, admin: &Option<Vec<u8>>) -> (r: Vec<u8>)
    ensures
        r@ == enc_account(code_hash@, match admin {
            Option::None => Option::None,
            Option::Some(a) => Option::Some(a@),
        }),
{
    let mut r: Vec<u8> = vec![123u8, 34, 99, 111, 100, 101, 95, 104, 97, 115, 104, 34, 58, 34];
    proof {
        assert(r@ =~= s_acct_head());
    }
    let ch = to_hex(code_hash);
    crate::commit::append_bytes(&mut r, &ch);
    match admin {
        Option::None => {
            r.push(34u8);
            r.push(125u8);
            proof {
                assert(r@ =~= s_acct_head() + hex_of(code_hash@) + s_acct_end());
            }
        },
        Option::Some(a) => {
            let mid: Vec<u8> = vec![34u8, 44, 34, 97, 100, 109, 105, 110, 34, 58, 34];
            proof {
                assert(mid@ =~= s_acct_admin());
            }
            crate::commit::append_bytes(&mut r, &mid);
            let ah = to_hex(a);
            crate::commit::append_bytes(&mut r, &ah);
            r.push(34u8);
            r.push(125u8);
            proof {
                assert(r@ =~= s_acct_head() + hex_of(code_hash@) + s_acct_admin() + hex_of(a@)
                    + s_acct_end());
            }
        },
    }
    r
}

/// The chain state for one block: the working store.
pub struct ChainState {
    pub store: Store,
}

impl ChainState {
    pub open spec fn wf(&self) -> bool {
        self.store.wf()
    }

    pub fn new() -> (r: ChainState)
        ensures
            r.wf(),
            r.store@.len() == 0,
    {
        ChainState { store: Store::new() }
    }

    /// Record the chain id under its singleton key.
    pub fn set_chain_id(&mut self, chain_id: &Vec<u8>)
        requires
            old(self).wf(),
        ensures
            final(self).wf(),
            contains_pair(final(self).store@, chain_id_key(), chain_id@),
            forall|k2: Seq<u8>, v2: Seq<u8>|
                k2 != chain_id_key() ==> (#[trigger] contains_pair(final(self).store@, k2, v2)
                    <==> contains_pair(old(self).store@, k2, v2)),
    {
        let key = make_chain_id_key();
        self.store.write(&key, chain_id);
    }

    /// Store bytecode under the hash of its bytes. Rejects a hash already
    /// present: the same code cannot be uploaded twice.
    pub fn store_code(&mut self, uploader: &Vec<u8>, wasm_byte_code: &Vec<u8>) -> (r: Result<
        (Event, Vec<u8>),
        AppError,
    >)
        requires
            old(self).wf(),
        ensures
            final(self).wf(),
            match r {
                Ok((ev, h)) => {
                    &&& h@ == sha256_of(wasm_byte_code@)
                    &&& !has_key(old(self).store@, code_key(h@))
                    &&& contains_pair(final(self).store@, code_key(h@), wasm_byte_code@)
                    &&& forall|k2: Seq<u8>, v2: Seq<u8>|
                        k2 != code_key(h@) ==> (#[trigger] contains_pair(
                            final(self).store@,
                            k2,
                            v2,
                        ) <==> contains_pair(old(self).store@, k2, v2))
                    &&& ev.kind@ == s_store_code()
                    &&& ev.attributes@.len() == 2
                    &&& ev.attributes@[0].key@ == s_code_hash() && ev.attributes@[0].value@
                        == hex_of(h@)
                    &&& ev.attributes@[1].key@ == s_sender() && ev.attributes@[1].value@
                        == uploader@
                },
                Err(e) => {
                    &&& e == AppError::CodeExists
                    &&& final(self).store@ == old(self).store@
                    &&& has_key(old(self).store@, code_key(sha256_of(wasm_byte_code@)))
                },
            },
    {
        let code_hash = hash_bytes(wasm_byte_code);
        let key = make_code_key(&code_hash);
        if self.store.has(&key) {
            return Err(AppError::CodeExists);
        }
        self.store.write(&key, wasm_byte_code);
        let mut ev = Event { kind: lit_store_code(), attributes: Vec::new() };
        ev.attributes.push(Attribute { key: lit_code_hash(), value: to_hex(&code_hash) });
        ev.attributes.push(Attribute { key: lit_sender(), value: copy_bytes(uploader) });
        Ok((ev, code_hash))
    }

    /// The first half of instantiating a contract: check the chain id is
    /// set, derive the address, refuse an address already taken, record the
    /// account, and hand back the address, the bytecode and the chain id
    /// for the virtual machine call. The caller performs the funds transfer
    /// and the contract call, then reports the outcome to
    /// `instantiate_finish`.
    pub fn instantiate_begin(
        &mut self,
        sender: &Vec<u8>,
        code_hash: &Vec<u8>,
        salt: &Vec<u8>,
        admin: &Option<Vec<u8>>,
    ) -> (r: Result<(Vec<u8>, Vec<u8>, Vec<u8>), AppError>)
        requires
            old(self).wf(),
            sender@.len() <= 0xFFFF,
            code_hash@.len() <= 0xFFFF,
        ensures
            final(self).wf(),
            match r {
                Ok((address, code, chain_id)) => {
                    &&& address@ == spec_derive_addr(sender@, code_hash@, salt@)
                    &&& contains_pair(old(self).store@, chain_id_key(), chain_id@)
                    &&& contains_pair(old(self).store@, code_key(code_hash@), code@)
                    &&& !has_key(old(self).store@, account_key(address@))
                    &&& contains_pair(
                        final(self).store@,
                        account_key(address@),
                        enc_account(code_hash@, match admin {
                            Option::None => Option::None,
                            Option::Some(a) => Option::Some(a@),
                        }),
                    )
                    &&& forall|k2: Seq<u8>, v2: Seq<u8>|
                        k2 != account_key(address@) ==> (#[trigger] contains_pair(
                            final(self).store@,
                            k2,
                            v2,
                        ) <==> contains_pair(old(self).store@, k2, v2))
                },
                Err(e) => {
                    &&& final(self).store@ == old(self).store@
                    &&& (e == AppError::ChainIdNotSet <==> !has_key(
                        old(self).store@,
                        chain_id_key(),
                    ))
                    &&& (e == AppError::CodeNotFound <==> has_key(
                        old(self).store@,
                        chain_id_key(),
                    ) && !has_key(old(self).store@, code_key(code_hash@)))
                    &&& (e == AppError::AccountExists ==> has_key(
                        old(self).store@,
                        account_key(spec_derive_addr(sender@, code_hash@, salt@)),
                    ))
                    &&& (e == AppError::ChainIdNotSet || e == AppError::CodeNotFound || e
                        == AppError::AccountExists)
                },
            },
    {
        let ikey = make_chain_id_key();
        let chain_id = match self.store.read(&ikey) {
            Option::Some(c) => c,
            Option::None => {
                return Err(AppError::ChainIdNotSet);
            },
        };
        let ckey = make_code_key(code_hash);
        let code = match self.store.read(&ckey) {
            Option::Some(c) => c,
            Option::None => {
                return Err(AppError::CodeNotFound);
            },
        };
        let address = derive_addr(sender, code_hash, salt);
        let akey = make_account_key(&address);
        if self.store.has(&akey) {
            return Err(AppError::AccountExists);
        }
        let record = encode_account(code_hash, admin);
        self.store.write(&akey, &record);
        Ok((address, code, chain_id))
    }

    /// The second half of instantiating: fold the contract's own result in.
    /// A successful result yields the instantiate event and the submessages
    /// to dispatch next; a failure aborts the message.
    pub fn instantiate_finish(&self, address: &Vec<u8>, result: ContractResult) -> (r: Result<
        (Event, Vec<SubMsg>),
        AppError,
    >)
        ensures
            match result {
                GenericResult::Success(resp) => (r matches Ok((ev, subs)) && subs
                    == resp.submsgs && ev.kind@ == s_instantiate() && ev.attributes@.len() == 1
                    + resp.attributes@.len() && ev.attributes@[0].key@ == s_address()
                    && ev.attributes@[0].value@ == address@ && (forall|m: int|
                    1 <= m < ev.attributes@.len() ==> #[trigger] ev.attributes@[m]
                        == resp.attributes@[m - 1])),
                GenericResult::Failure(_) => (r matches Err(e) && e == AppError::ContractFailed),
            },
    {
        match result {
            GenericResult::Success(resp) => {
                let mut attributes: Vec<Attribute> = Vec::new();
                attributes.push(Attribute { key: lit_address(), value: copy_bytes(address) });
                let ghost base = attributes@;
                let mut rest = resp.attributes;
                let n = rest.len();
                let ghost restm = rest@;
                let mut i: usize = 0;
                while i < n
                    invariant
                        n == restm.len(),
                        i <= n,
                        rest@ =~= restm.skip(i as int),
                        attributes@ =~= base + restm.take(i as int),
                    decreases n - i,
                {
                    let a = rest.remove(0);
                    attributes.push(a);
                    proof {
                        assert(restm.skip(i as int)[0] == restm[i as int]);
                        assert(restm.skip(i as int).remove(0) =~= restm.skip(i + 1));
                        assert(restm.take(i + 1) =~= restm.take(i as int).push(restm[i as int]));
                    }
                    i = i + 1;
                }
                proof {
                    assert(restm.take(n as int) =~= restm);
                }
                let ev = Event { kind: lit_instantiate(), attributes };
                Ok((ev, resp.submsgs))
            },
            GenericResult::Failure(_) => Err(AppError::ContractFailed),
        }
    }

    /// A point snapshot of the whole state, taken at the start of a
    /// transaction.
    pub fn tx_begin(&self) -> (snap: Store)
        ensures
            snap@ == self.store@,
    {
        self.store.snapshot()
    }

    /// Abandon everything the transaction wrote: the state afterwards is
    /// exactly the snapshot taken at `tx_begin`, for every key.
    pub fn tx_rollback(&mut self, snap: Store)
        ensures
            final(self).store@ == snap@,
    {
        self.store = snap;
    }
}


/// The pure state of a genesis assembly: the chain configuration, set at
/// most once, and the queued messages, with every code upload kept ahead
/// of everything else. Reading bytecode files and writing the genesis file
/// happen outside; this holds the rules.
pub struct GenesisPlan {
    config: Option<Config>,
    code_msgs: Vec<Message>,
    other_msgs: Vec<Message>,
}

impl GenesisPlan {
    pub closed spec fn spec_config(&self) -> Option<Config> {
        self.config
    }

    pub closed spec fn spec_code_msgs(&self) -> Seq<Message> {
        self.code_msgs@
    }

    pub closed spec fn spec_other_msgs(&self) -> Seq<Message> {
        self.other_msgs@
    }

    pub fn new() -> (r: GenesisPlan)
        ensures
            r.spec_config() is None,
            r.spec_code_msgs().len() == 0,
            r.spec_other_msgs().len() == 0,
    {
        GenesisPlan { config: None, code_msgs: Vec::new(), other_msgs: Vec::new() }
    }

    /// Queue a code upload; uploads keep their own order ahead of all
    /// other messages.
    pub fn add_code_msg(&mut self, msg: Message)
        requires
            msg is StoreCode,
        ensures
            final(self).spec_code_msgs() == old(self).spec_code_msgs().push(msg),
            final(self).spec_other_msgs() == old(self).spec_other_msgs(),
            final(self).spec_config() == old(self).spec_config(),
    {
        self.code_msgs.push(msg);
    }

    /// Queue any other message, after every code upload.
    pub fn add_msg(&mut self, msg: Message)
        ensures
            final(self).spec_other_msgs() == old(self).spec_other_msgs().push(msg),
            final(self).spec_code_msgs() == old(self).spec_code_msgs(),
            final(self).spec_config() == old(self).spec_config(),
    {
        self.other_msgs.push(msg);
    }

    /// Record the configuration; refused, changing nothing, when one is
    /// already set.
    pub fn set_config(&mut self, cfg: Config) -> (r: Result<(), AppError>)
        ensures
            old(self).spec_config() is None ==> r is Ok && final(self).spec_config()
                == Some(cfg) && final(self).spec_code_msgs() == old(self).spec_code_msgs()
                && final(self).spec_other_msgs() == old(self).spec_other_msgs(),
            old(self).spec_config() is Some ==> (r matches Err(e) && e
                == AppError::ConfigAlreadySet && *final(self) == *old(self)),
    {
        if self.config.is_some() {
            return Err(AppError::ConfigAlreadySet);
        }
        self.config = Some(cfg);
        Ok(())
    }

    /// Close the plan: the configuration must have been set, and the
    /// messages come out with every code upload first, in queued order.
    pub fn finalize(self) -> (r: Result<(Config, Vec<Message>), AppError>)
        ensures
            self.spec_config() is None ==> (r matches Err(e) && e == AppError::ConfigNotSet),
            self.spec_config() is Some ==> (r matches Ok((cfg, msgs))
                && Some(cfg) == self.spec_config() && msgs@ == self.spec_code_msgs()
                + self.spec_other_msgs()),
    {
        let GenesisPlan { config, code_msgs, other_msgs } = self;
        let cfg = match config {
            Option::Some(c) => c,
            Option::None => {
                return Err(AppError::ConfigNotSet);
            },
        };
        let mut msgs = code_msgs;
        let ghost code_view = msgs@;
        let mut rest = other_msgs;
        let ghost rest_view = rest@;
        let n = rest.len();
        let mut i: usize = 0;
        while i < n
            invariant
                n == rest_view.len(),
                i <= n,
                rest@ =~= rest_view.skip(i as int),
                msgs@ =~= code_view + rest_view.take(i as int),
            decreases n - i,
        {
            let m = rest.remove(0);
            msgs.push(m);
            proof {
                assert(rest_view.skip(i as int)[0] == rest_view[i as int]);
                assert(rest_view.skip(i as int).remove(0) =~= rest_view.skip(i + 1));
                assert(rest_view.take(i + 1) =~= rest_view.take(i as int).push(
                    rest_view[i as int],
                ));
            }
            i = i + 1;
        }
        proof {
            assert(rest_view.take(n as int) =~= rest_view);
        }
        Ok((cfg, msgs))
    }
}

/// The text `store_code`.
pub open spec fn s_store_code() -> Seq<u8> {
    seq![115u8, 116, 111, 114, 101, 95, 99, 111, 100, 101]
}

/// The text `code_hash`.
pub open spec fn s_code_hash() -> Seq<u8> {
    seq![99u8, 111, 100, 101, 95, 104, 97, 115, 104]
}

/// The text `sender`.
pub open spec fn s_sender() -> Seq<u8> {
    seq![115u8, 101, 110, 100, 101, 114]
}

/// The text `address`.
pub open spec fn s_address() -> Seq<u8> {
    seq![97u8, 100, 100, 114, 101, 115, 115]
}

/// The text `instantiate`.
pub open spec fn s_instantiate() -> Seq<u8> {
    seq![105u8, 110, 115, 116, 97, 110, 116, 105, 97, 116, 101]
}

fn lit_store_code() -> (r: Vec<u8>)
    ensures
        r@ == s_store_code(),
{
    let r: Vec<u8> = vec![115u8, 116, 111, 114, 101, 95, 99, 111, 100, 101];
    proof {
        assert(r@ =~= s_store_code());
    }
    r
}

fn lit_code_hash() -> (r: Vec<u8>)
    ensures
        r@ == s_code_hash(),
{
    let r: Vec<u8> = vec![99u8, 111, 100, 101, 95, 104, 97, 115, 104];
    proof {
        assert(r@ =~= s_code_hash());
    }
    r
}

fn lit_sender() -> (r: Vec<u8>)
    ensures
        r@ == s_sender(),
{
    let r: Vec<u8> = vec![115u8, 101, 110, 100, 101, 114];
    proof {
        assert(r@ =~= s_sender());
    }
    r
}

fn lit_address() -> (r: Vec<u8>)
    ensures
        r@ == s_address(),
{
    let r: Vec<u8> = vec![97u8, 100, 100, 114, 101, 115, 115];
    proof {
        assert(r@ =~= s_address());
    }
    r
}

fn lit_instantiate() -> (r: Vec<u8>)
    ensures
        r@ == s_instantiate(),
{
    let r: Vec<u8> = vec![105u8, 110, 115, 116, 97, 110, 116, 105, 97, 116, 101];
    proof {
        assert(r@ =~= s_instantiate());
    }
    r
}

} // verus!
