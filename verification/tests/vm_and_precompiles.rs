use execution_core::call_frame::{CallFrame, Stack, OP_JUMPDEST, STACK_LIMIT};
use execution_core::error::{RpcErr, VMError};
use execution_core::precompiles::{
    data_word_size, execute_precompile, identity, identity_dynamic_cost, ripemd_160,
    ripemd_160_dynamic_cost, sha2_256, sha2_256_dynamic_cost, PrecompileError,
    IDENTITY_ADDRESS, REVERT_FOR_CALL, RIPEMD_160_ADDRESS, SHA2_256_ADDRESS, SUCCESS_FOR_CALL,
};
use execution_core::primitives::{Address, U256};
use execution_core::rpc::{BlockIdentifier, LogsRequest};
use execution_core::store::{EngineType, Store};

#[test]
fn stack_push_pop_and_limits() {
    let mut stack = Stack { stack: Vec::new() };
    assert!(stack.is_empty());
    stack.push(U256::from_u64(7)).unwrap();
    stack.push(U256::from_u64(9)).unwrap();
    assert_eq!(stack.len(), 2);
    assert_eq!(stack.get(0), Some(&U256::from_u64(7)));
    assert_eq!(stack.pop().unwrap(), U256::from_u64(9));
    assert_eq!(stack.pop().unwrap(), U256::from_u64(7));
    assert_eq!(stack.pop().unwrap_err(), VMError::StackUnderflow);
}

#[test]
fn stack_overflow_at_limit() {
    let mut stack = Stack { stack: Vec::new() };
    for i in 0..STACK_LIMIT {
        stack.push(U256::from_u64(i as u64)).unwrap();
    }
    assert_eq!(stack.push(U256::zero()).unwrap_err(), VMError::StackOverflow);
}

#[test]
fn stack_swap_exchanges_entries() {
    let mut stack = Stack { stack: Vec::new() };
    stack.push(U256::from_u64(1)).unwrap();
    stack.push(U256::from_u64(2)).unwrap();
    stack.push(U256::from_u64(3)).unwrap();
    stack.swap(0, 2);
    assert_eq!(stack.get(0), Some(&U256::from_u64(3)));
    assert_eq!(stack.get(2), Some(&U256::from_u64(1)));
}

#[test]
fn call_frame_walks_bytecode() {
    let mut frame = CallFrame::new(vec![0x60, 0x01, OP_JUMPDEST]);
    assert_eq!(frame.pc(), 0);
    let op = frame.next_opcode().unwrap();
    assert_eq!(op.code, 0x60);
    assert_eq!(frame.pc(), 1);
    frame.increment_pc_by(2);
    assert_eq!(frame.pc(), 3);
    assert!(frame.next_opcode().is_none());
}

#[test]
fn call_frame_jump_rules() {
    let mut frame = CallFrame::new(vec![0x60, 0x01, OP_JUMPDEST, 0x00]);
    assert!(!frame.jump(U256::from_u64(1)));
    assert_eq!(frame.pc(), 0);
    assert!(frame.jump(U256::from_u64(2)));
    assert_eq!(frame.pc(), 3);
}

#[test]
fn gas_cost_formulas() {
    assert_eq!(data_word_size(0), 0);
    assert_eq!(data_word_size(1), 1);
    assert_eq!(data_word_size(32), 1);
    assert_eq!(data_word_size(33), 2);
    assert_eq!(identity_dynamic_cost(64), 6);
    assert_eq!(sha2_256_dynamic_cost(64), 24);
    assert_eq!(ripemd_160_dynamic_cost(64), 240);
}

#[test]
fn identity_copies_calldata() {
    let data = vec![1u8, 2, 3, 4];
    let mut consumed: u64 = 0;
    let out = identity(&data, 100, &mut consumed).unwrap();
    assert_eq!(out, data);
    assert_eq!(consumed, 15 + 3);
}

#[test]
fn identity_rejects_low_gas() {
    let data = vec![1u8, 2, 3, 4];
    let mut consumed: u64 = 0;
    let err = identity(&data, 10, &mut consumed).unwrap_err();
    assert_eq!(err, PrecompileError::NotEnoughGas);
    assert_eq!(consumed, 0);
}

#[test]
fn sha2_256_of_empty_input() {
    let mut consumed: u64 = 0;
    let out = sha2_256(&Vec::new(), 100, &mut consumed).unwrap();
    assert_eq!(
        out,
        vec![
            0xE3, 0xB0, 0xC4, 0x42, 0x98, 0xFC, 0x1C, 0x14, 0x9A, 0xFB, 0xF4, 0xC8, 0x99, 0x6F,
            0xB9, 0x24, 0x27, 0xAE, 0x41, 0xE4, 0x64, 0x9B, 0x93, 0x4C, 0xA4, 0x95, 0x99, 0x1B,
            0x78, 0x52, 0xB8, 0x55,
        ]
    );
    assert_eq!(consumed, 60);
}

#[test]
fn ripemd_160_of_empty_input() {
    let mut consumed: u64 = 0;
    let out = ripemd_160(&Vec::new(), 1000, &mut consumed).unwrap();
    let mut expected = vec![0u8; 12];
    expected.extend_from_slice(&[
        0x9C, 0x11, 0x85, 0xA5, 0xC5, 0xE9, 0xFC, 0x54, 0x61, 0x28, 0x08, 0x97, 0x7E, 0xE8, 0xF5,
        0x48, 0xB2, 0x25, 0x8D, 0x31,
    ]);
    assert_eq!(out, expected);
    assert_eq!(consumed, 600);
}

#[test]
fn execute_precompile_dispatches_and_reverts() {
    let mut consumed: u64 = 0;
    let (code, out) = execute_precompile(
        Address::from_low_u64_be(IDENTITY_ADDRESS),
        vec![5u8, 6],
        100,
        &mut consumed,
    );
    assert_eq!(code, SUCCESS_FOR_CALL);
    assert_eq!(out, vec![5u8, 6]);
    assert_eq!(consumed, 18);

    let mut consumed2: u64 = 0;
    let (code2, out2) = execute_precompile(
        Address::from_low_u64_be(SHA2_256_ADDRESS),
        vec![5u8, 6],
        10,
        &mut consumed2,
    );
    assert_eq!(code2, REVERT_FOR_CALL);
    assert!(out2.is_empty());
    assert_eq!(consumed2, 10);

    let mut consumed3: u64 = 0;
    let (code3, _out3) = execute_precompile(
        Address::from_low_u64_be(RIPEMD_160_ADDRESS),
        Vec::new(),
        1000,
        &mut consumed3,
    );
    assert_eq!(code3, SUCCESS_FOR_CALL);
    assert_eq!(consumed3, 600);
}

#[test]
fn u256_order_and_narrowing() {
    let a = U256 { w0: 5, w1: 0, w2: 0, w3: 0 };
    let b = U256 { w0: 1, w1: 1, w2: 0, w3: 0 };
    assert!(a.lt(&b));
    assert!(!b.lt(&a));
    assert_eq!(a.as_usize(), 5);
    assert_eq!(Address::from_low_u64_be(0x0102).bytes[19], 0x02);
    assert_eq!(Address::from_low_u64_be(0x0102).bytes[18], 0x01);
    assert_eq!(Address::from_low_u64_be(0x0102).bytes[0], 0);
}

#[test]
fn logs_request_resolves_range() {
    let mut store = Store::new("test", EngineType::InMemory).unwrap();
    store.update_latest_block_number(9).unwrap();
    let request = LogsRequest {
        from: BlockIdentifier::Number(3),
        to: BlockIdentifier::Latest,
        address: None,
        topics: None,
    };
    assert_eq!(request.resolve_range(&store), Ok((3, 9)));

    let empty_store = Store::new("test", EngineType::InMemory).unwrap();
    let request2 = LogsRequest {
        from: BlockIdentifier::Earliest,
        to: BlockIdentifier::Pending,
        address: None,
        topics: None,
    };
    assert_eq!(request2.resolve_range(&empty_store), Err(RpcErr::BadParams));
}
