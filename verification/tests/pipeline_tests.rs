use cw_sdk::execute::{ChainState, AppError, GenesisPlan};
use cw_sdk::hashing::{hash_bytes, derive_addr};
use cw_sdk::types::{ContractResult, GenericResult, Response, Attribute};
use cw_sdk::codec::{encode_bank_query, decode_bank_query, encode_coins, encode_transfer_msg, encode_response, encode_query_request, encode_ok_frame, encode_err_frame, decode_result_frame};
use cw_sdk::types::{BankQuery, Config, Message, QueryRequest, TransferMsg};
use cw_sdk::coins::Coins;

fn wasm() -> Vec<u8> {
    b"pretend-wasm-bytecode".to_vec()
}

#[test]
fn store_code_then_duplicate_fails() {
    let mut state = ChainState::new();
    let (ev, hash) = state.store_code(&b"uploader".to_vec(), &wasm()).expect("first upload");
    assert_eq!(ev.kind, b"store_code".to_vec());
    assert_eq!(hash, hash_bytes(&wasm()));
    // the same bytes a second time are refused, in the same block or later
    assert_eq!(state.store_code(&b"uploader".to_vec(), &wasm()).err(), Some(AppError::CodeExists));
}

#[test]
fn instantiate_derives_a_deterministic_address() {
    let mut state = ChainState::new();
    state.set_chain_id(&b"dev-1".to_vec());
    let (_ev, hash) = state.store_code(&b"uploader".to_vec(), &wasm()).expect("upload");
    let sender = b"sender".to_vec();
    let salt = b"salt-1".to_vec();
    let (addr, code, chain_id) = state
        .instantiate_begin(&sender, &hash, &salt, &None)
        .expect("fresh address");
    assert_eq!(code, wasm());
    assert_eq!(chain_id, b"dev-1".to_vec());
    assert_eq!(addr, derive_addr(&sender, &hash, &salt));
    assert_eq!(addr.len(), 32);
    // the derivation depends only on its inputs
    assert_eq!(derive_addr(&sender, &hash, &salt), derive_addr(&sender, &hash, &salt));
    assert_ne!(derive_addr(&sender, &hash, &salt), derive_addr(&sender, &hash, &b"salt-2".to_vec()));
}

#[test]
fn instantiating_the_same_address_twice_fails() {
    let mut state = ChainState::new();
    state.set_chain_id(&b"dev-1".to_vec());
    let (_ev, hash) = state.store_code(&b"uploader".to_vec(), &wasm()).expect("upload");
    let sender = b"sender".to_vec();
    let salt = b"salt".to_vec();
    state.instantiate_begin(&sender, &hash, &salt, &None).expect("first instantiate");
    assert_eq!(
        state.instantiate_begin(&sender, &hash, &salt, &None).err(),
        Some(AppError::AccountExists)
    );
}

#[test]
fn instantiate_unknown_code_fails() {
    let mut state = ChainState::new();
    // without a chain id nothing can be instantiated
    let missing = hash_bytes(&b"never stored".to_vec());
    assert_eq!(
        state.instantiate_begin(&b"s".to_vec(), &missing, &b"x".to_vec(), &None).err(),
        Some(AppError::ChainIdNotSet)
    );
    state.set_chain_id(&b"dev-1".to_vec());
    assert_eq!(
        state.instantiate_begin(&b"s".to_vec(), &missing, &b"x".to_vec(), &None).err(),
        Some(AppError::CodeNotFound)
    );
}

#[test]
fn failed_tx_rolls_back_to_the_snapshot() {
    let mut state = ChainState::new();
    state.set_chain_id(&b"dev-1".to_vec());
    let snap = state.tx_begin();
    let (_ev, hash) = state.store_code(&b"uploader".to_vec(), &wasm()).expect("upload");
    state
        .instantiate_begin(&b"sender".to_vec(), &hash, &b"salt".to_vec(), &None)
        .expect("instantiate");
    // the dispatch fails later; everything the tx wrote is discarded
    state.tx_rollback(snap);
    assert_eq!(state.store_code(&b"uploader".to_vec(), &wasm()).err(), None);
}

#[test]
fn instantiate_finish_folds_the_contract_result() {
    let state = ChainState::new();
    let mut resp = Response::new();
    resp.add_attribute(b"k".to_vec(), b"v".to_vec());
    let ok: ContractResult = GenericResult::Success(resp);
    let (ev, subs) = state.instantiate_finish(&b"addr".to_vec(), ok).expect("success");
    assert_eq!(ev.kind, b"instantiate".to_vec());
    assert_eq!(ev.attributes.len(), 2);
    assert_eq!(ev.attributes[0].value, b"addr".to_vec());
    assert_eq!(subs.len(), 0);

    let err: ContractResult = GenericResult::Failure(b"boom".to_vec());
    assert_eq!(
        state.instantiate_finish(&b"addr".to_vec(), err).err(),
        Some(AppError::ContractFailed)
    );
}

#[test]
fn json_forms_are_canonical() {
    let q = BankQuery::Balance { address: vec![0xab, 0x01], denom: b"uatom".to_vec() };
    assert_eq!(
        encode_bank_query(&q),
        br#"{"balance":{"address":"ab01","denom":"uatom"}}"#.to_vec()
    );
    let q2 = BankQuery::Supplies { start_after: None, limit: Some(10) };
    assert_eq!(encode_bank_query(&q2), br#"{"supplies":{"limit":10}}"#.to_vec());
    let q3 = BankQuery::Balances {
        address: vec![0x01],
        start_after: Some(b"uatom".to_vec()),
        limit: None,
    };
    assert_eq!(
        encode_bank_query(&q3),
        br#"{"balances":{"address":"01","start_after":"uatom"}}"#.to_vec()
    );

    assert_eq!(encode_coins(&Coins::new_empty()), b"{}".to_vec());
    assert_eq!(encode_coins(&Coins::one(b"uatom".to_vec(), 100)), br#"{"uatom":"100"}"#.to_vec());

    let t = TransferMsg {
        from: vec![0x0a],
        to: vec![0x0b],
        coins: Coins::one(b"uatom".to_vec(), 30),
    };
    assert_eq!(
        encode_transfer_msg(&t),
        br#"{"from":"0a","to":"0b","coins":{"uatom":"30"}}"#.to_vec()
    );

    let mut resp = Response::new();
    resp.add_attribute(b"method".to_vec(), b"send".to_vec());
    assert_eq!(
        encode_response(&resp),
        br#"{"attributes":[{"key":"method","value":"send"}],"submsgs":[]}"#.to_vec()
    );
    let empty = Response::new();
    assert_eq!(encode_response(&empty), br#"{"attributes":[],"submsgs":[]}"#.to_vec());
}

#[test]
fn event_attributes_carry_the_code_hash_in_hex() {
    let mut state = ChainState::new();
    let (ev, hash) = state.store_code(&b"up".to_vec(), &wasm()).expect("upload");
    let expected: String = hash.iter().map(|b| format!("{:02x}", b)).collect();
    assert_eq!(ev.attributes[0].value, expected.into_bytes());
    let _ = Attribute { key: b"k".to_vec(), value: b"v".to_vec() };
}

#[test]
fn bank_query_round_trips_through_json() {
    let queries = vec![
        BankQuery::Balance { address: vec![0xab, 0x01], denom: b"uatom".to_vec() },
        BankQuery::Supply { denom: b"uatom".to_vec() },
        BankQuery::Balances { address: vec![0x01], start_after: None, limit: None },
        BankQuery::Balances {
            address: vec![0x01],
            start_after: Some(b"uatom".to_vec()),
            limit: None,
        },
        BankQuery::Balances { address: vec![0x01], start_after: None, limit: Some(30) },
        BankQuery::Balances {
            address: vec![0x01, 0x02],
            start_after: Some(b"ua".to_vec()),
            limit: Some(7),
        },
        BankQuery::Supplies { start_after: None, limit: None },
        BankQuery::Supplies { start_after: Some(b"uatom".to_vec()), limit: None },
        BankQuery::Supplies { start_after: None, limit: Some(5) },
        BankQuery::Supplies { start_after: Some(b"x".to_vec()), limit: Some(0) },
    ];
    for q in queries {
        let bytes = encode_bank_query(&q);
        let back = decode_bank_query(&bytes).expect("the canonical form parses");
        // the re-encoding is the round trip's witness
        assert_eq!(encode_bank_query(&back), bytes);
    }
}

#[test]
fn decode_bank_query_rejects_junk() {
    assert!(decode_bank_query(&b"".to_vec()).is_none());
    assert!(decode_bank_query(&b"{\"balance\":{}}".to_vec()).is_none());
    assert!(decode_bank_query(&br#"{"supplies":{"limit":007}}"#.to_vec()).is_none());
}

#[test]
fn result_frames_round_trip() {
    let ok = encode_ok_frame(&b"[1,2]".to_vec());
    assert_eq!(ok, br#"{"ok":[1,2]}"#.to_vec());
    match decode_result_frame(&ok) {
        Some(GenericResult::Success(inner)) => assert_eq!(inner, b"[1,2]".to_vec()),
        _ => panic!("a success frame parses as a success"),
    }
    let err = encode_err_frame(&b"boom".to_vec());
    assert_eq!(err, br#"{"err":"boom"}"#.to_vec());
    match decode_result_frame(&err) {
        Some(GenericResult::Failure(msg)) => assert_eq!(msg, b"boom".to_vec()),
        _ => panic!("a failure frame parses as a failure"),
    }
    assert!(decode_result_frame(&b"{}".to_vec()).is_none());
}

#[test]
fn query_request_forms_are_canonical() {
    assert_eq!(encode_query_request(&QueryRequest::Info), br#"{"info":{}}"#.to_vec());
    assert_eq!(
        encode_query_request(&QueryRequest::Code { hash: vec![0xff] }),
        br#"{"code":{"hash":"ff"}}"#.to_vec()
    );
    assert_eq!(
        encode_query_request(&QueryRequest::Codes { start_after: None, limit: Some(2) }),
        br#"{"codes":{"limit":2}}"#.to_vec()
    );
    assert_eq!(
        encode_query_request(&QueryRequest::Accounts { start_after: Some(vec![0x01]), limit: None }),
        br#"{"accounts":{"start_after":"01"}}"#.to_vec()
    );
    assert_eq!(
        encode_query_request(&QueryRequest::WasmSmart { contract: vec![0x02], msg: vec![0x7b] }),
        br#"{"wasm_smart":{"contract":"02","msg":"7b"}}"#.to_vec()
    );
    assert_eq!(
        encode_query_request(&QueryRequest::Balance { address: vec![0x0a], denom: b"uatom".to_vec() }),
        br#"{"balance":{"address":"0a","denom":"uatom"}}"#.to_vec()
    );
}

#[test]
fn genesis_plan_orders_uploads_first_and_sets_config_once() {
    let mut plan = GenesisPlan::new();
    plan.add_msg(Message::Execute {
        contract: vec![1],
        msg: vec![],
        funds: Coins::new_empty(),
    });
    plan.add_code_msg(Message::StoreCode { wasm_byte_code: b"code".to_vec() });
    assert!(plan.set_config(Config { owner: None, bank: vec![9] }).is_ok());
    assert_eq!(
        plan.set_config(Config { owner: None, bank: vec![8] }).err(),
        Some(AppError::ConfigAlreadySet)
    );
    let (cfg, msgs) = plan.finalize().expect("the configuration is set");
    assert_eq!(cfg.bank, vec![9]);
    // the upload comes first although it was queued second
    assert!(matches!(msgs[0], Message::StoreCode { .. }));
    assert!(matches!(msgs[1], Message::Execute { .. }));
    assert_eq!(
        GenesisPlan::new().finalize().err(),
        Some(AppError::ConfigNotSet)
    );
}
