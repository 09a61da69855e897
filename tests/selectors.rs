use evm_selectors::analysis::selector_values;
use evm_selectors::decoder::{decode, jump_destinations, read_word};
use evm_selectors::encoding::{
    decode_selectors, encode_selectors, function_selectors, selector_bytes, selectors_for_buffer,
    Status,
};

/// PUSH4 c, DUP1, PUSH1 0, CALLDATALOAD, EQ, PUSH1 dest, JUMPI.
fn compare_block(c: [u8; 4], dest: u8) -> Vec<u8> {
    vec![0x63, c[0], c[1], c[2], c[3], 0x80, 0x60, 0x00, 0x35, 0x14, 0x60, dest, 0x57]
}

/// Three compare blocks (13 bytes each), STOP at 39, JUMPDEST STOP at 40.
fn three_way_dispatcher() -> Vec<u8> {
    let mut code = Vec::new();
    code.extend(compare_block([0xAA, 0xBB, 0xCC, 0xDD], 40));
    code.extend(compare_block([0x11, 0x22, 0x33, 0x44], 40));
    code.extend(compare_block([0x55, 0x66, 0x77, 0x88], 40));
    code.extend([0x00, 0x5b, 0x00]);
    code
}

/// The shape a compiler emits: selector = calldataload(0) >> 224, then
/// DUP1 PUSH4 sel EQ PUSH2 dest JUMPI for each entry.
fn compiler_dispatcher() -> Vec<u8> {
    let mut code = vec![0x60, 0x00, 0x35, 0x60, 0xe0, 0x1c];
    for sel in [[0x06, 0xfd, 0xde, 0x03], [0x09, 0x5e, 0xa7, 0xb3], [0x18, 0x16, 0x0d, 0xdd]] {
        code.extend([0x80, 0x63, sel[0], sel[1], sel[2], sel[3], 0x14, 0x61, 0x00, 0x2a, 0x57]);
    }
    // 6 + 3 * 11 = 39: PUSH1 0 DUP1 REVERT, then JUMPDEST at 42
    code.extend([0x60, 0x00, 0x80, 0xfd, 0x5b, 0x00]);
    code
}

#[test]
fn dispatcher_yields_selectors_in_order() {
    let r = function_selectors(&three_way_dispatcher(), 10_000);
    assert_eq!(r, vec![[0xAA, 0xBB, 0xCC, 0xDD], [0x11, 0x22, 0x33, 0x44], [0x55, 0x66, 0x77, 0x88]]);
}

#[test]
fn dispatcher_values() {
    let r = selector_values(&three_way_dispatcher(), 10_000);
    assert_eq!(r, vec![0xAABBCCDD, 0x11223344, 0x55667788]);
}

#[test]
fn compiler_shaped_dispatcher() {
    let r = function_selectors(&compiler_dispatcher(), 1_000);
    assert_eq!(r, vec![[0x06, 0xfd, 0xde, 0x03], [0x09, 0x5e, 0xa7, 0xb3], [0x18, 0x16, 0x0d, 0xdd]]);
}

#[test]
fn xor_in_either_order_is_a_comparison() {
    // PUSH1 0 CALLDATALOAD PUSH3 0x123456 XOR ; PUSH4 c PUSH1 0 CALLDATALOAD XOR ; STOP
    let code = vec![
        0x60, 0x00, 0x35, 0x62, 0x12, 0x34, 0x56, 0x18, 0x63, 0xde, 0xad, 0xbe, 0xef, 0x60, 0x00,
        0x35, 0x18, 0x00,
    ];
    assert_eq!(selector_values(&code, 100), vec![0x00123456, 0xdeadbeef]);
}

#[test]
fn unrelated_comparisons_are_not_selectors() {
    // PUSH4 c CALLVALUE EQ ; PUSH4 c PUSH4 d EQ ; STOP
    let code = vec![
        0x63, 0x01, 0x02, 0x03, 0x04, 0x34, 0x14, 0x63, 0x01, 0x02, 0x03, 0x04, 0x63, 0x05, 0x06,
        0x07, 0x08, 0x14, 0x00,
    ];
    assert_eq!(selector_values(&code, 100), Vec::<u32>::new());
}

#[test]
fn wide_pushes_are_not_selectors() {
    // PUSH5 0x00aabbccdd PUSH1 0 CALLDATALOAD EQ STOP
    let code = vec![0x64, 0x00, 0xaa, 0xbb, 0xcc, 0xdd, 0x60, 0x00, 0x35, 0x14, 0x00];
    assert_eq!(selector_values(&code, 100), Vec::<u32>::new());
}

#[test]
fn duplicates_are_suppressed() {
    let mut code = Vec::new();
    code.extend(compare_block([0xAA, 0xBB, 0xCC, 0xDD], 40));
    code.extend(compare_block([0x11, 0x22, 0x33, 0x44], 40));
    code.extend(compare_block([0xAA, 0xBB, 0xCC, 0xDD], 40));
    code.extend([0x00, 0x5b, 0x00]);
    assert_eq!(selector_values(&code, 10_000), vec![0xAABBCCDD, 0x11223344]);
}

#[test]
fn repeated_calls_agree() {
    let code = compiler_dispatcher();
    for gas in [0u32, 5, 20, 40, 1_000] {
        assert_eq!(function_selectors(&code, gas), function_selectors(&code, gas));
    }
}

#[test]
fn more_gas_never_loses_selectors() {
    let code = three_way_dispatcher();
    let mut previous: Vec<[u8; 4]> = Vec::new();
    for gas in 0u32..120 {
        let r = function_selectors(&code, gas);
        assert!(r.len() >= previous.len());
        assert_eq!(&r[..previous.len()], &previous[..]);
        previous = r;
    }
    assert_eq!(previous.len(), 3);
}

#[test]
fn small_budget_stops_early() {
    // the first comparison is the fifth instruction
    let code = three_way_dispatcher();
    assert_eq!(selector_values(&code, 4), Vec::<u32>::new());
    assert_eq!(selector_values(&code, 5), vec![0xAABBCCDD]);
    // the first fork needs 1 + 10 more gas after six instructions
    assert_eq!(selector_values(&code, 17), vec![0xAABBCCDD]);
}

#[test]
fn zero_gas_yields_nothing() {
    assert_eq!(function_selectors(&three_way_dispatcher(), 0), Vec::<[u8; 4]>::new());
}

#[test]
fn empty_code_yields_nothing() {
    assert_eq!(function_selectors(&[], 0), Vec::<[u8; 4]>::new());
    assert_eq!(function_selectors(&[], u32::MAX), Vec::<[u8; 4]>::new());
}

#[test]
fn truncated_push_ends_the_branch() {
    // PUSH1 0 CALLDATALOAD PUSH4 with only two immediate bytes
    let code = vec![0x60, 0x00, 0x35, 0x63, 0xaa, 0xbb];
    assert_eq!(function_selectors(&code, 100), Vec::<[u8; 4]>::new());
}

#[test]
fn encoding_round_trip() {
    let sels = function_selectors(&three_way_dispatcher(), 10_000);
    let bytes = encode_selectors(&sels);
    assert_eq!(
        bytes,
        vec![0xAA, 0xBB, 0xCC, 0xDD, 0x11, 0x22, 0x33, 0x44, 0x55, 0x66, 0x77, 0x88]
    );
    assert_eq!(decode_selectors(&bytes), sels);
}

#[test]
fn decoding_drops_partial_word() {
    assert_eq!(decode_selectors(&[1, 2, 3, 4, 5, 6]), vec![[1, 2, 3, 4]]);
}

#[test]
fn buffer_too_small_then_sufficient() {
    let code = three_way_dispatcher();
    let first = selectors_for_buffer(&code, 10_000, 11);
    assert_eq!(first.status, Status::BufferTooSmall);
    assert_eq!(first.required_len, 12);
    assert!(first.bytes.is_empty());
    let second = selectors_for_buffer(&code, 10_000, first.required_len);
    assert_eq!(second.status, Status::Success);
    assert_eq!(second.required_len, 12);
    assert_eq!(second.bytes, encode_selectors(&function_selectors(&code, 10_000)));
}

#[test]
fn empty_result_fits_empty_buffer() {
    let r = selectors_for_buffer(&[], 10, 0);
    assert_eq!(r.status, Status::Success);
    assert_eq!(r.required_len, 0);
}

#[test]
fn tight_loop_terminates() {
    // JUMPDEST PUSH1 0 JUMP: the cycle guard ends it
    let code = vec![0x5b, 0x60, 0x00, 0x56];
    assert_eq!(function_selectors(&code, u32::MAX), Vec::<[u8; 4]>::new());
}

#[test]
fn forking_chain_terminates_with_small_budget() {
    // 40 blocks of JUMPDEST PUSH1 0 CALLDATALOAD PUSH1 next JUMPI: every
    // branch forks into two that meet again at the next block
    let mut code = Vec::new();
    for i in 0..40u8 {
        let next = 7 * (i + 1);
        code.extend([0x5b, 0x60, 0x00, 0x35, 0x60, next, 0x57]);
    }
    code.extend([0x5b, 0x00]);
    assert_eq!(function_selectors(&code, 200), Vec::<[u8; 4]>::new());
}

#[test]
fn jump_destinations_skip_immediates() {
    // JUMPDEST, PUSH2 0x5b5b, JUMPDEST, PUSH1 with no immediate
    let code = vec![0x5b, 0x61, 0x5b, 0x5b, 0x5b, 0x60];
    assert_eq!(jump_destinations(&code), vec![true, false, false, false, true, false]);
}

#[test]
fn jump_to_immediate_byte_is_invalid() {
    // PUSH1 0 CALLDATALOAD PUSH1 4 JUMP where offset 4 is inside PUSH2;
    // the comparison after it is never reached
    let code = vec![0x60, 0x00, 0x35, 0x60, 0x07, 0x56, 0x61, 0x5b, 0x00, 0x63, 1, 2, 3, 4, 0x14];
    assert_eq!(selector_values(&code, 100), Vec::<u32>::new());
}

#[test]
fn words_are_big_endian() {
    assert_eq!(read_word(&[0x12, 0x34, 0x56, 0x78, 0x9a], 1, 3), 0x3456_78);
    assert_eq!(read_word(&[0x12], 0, 0), 0);
    assert_eq!(selector_bytes(0x0102_0304), [1, 2, 3, 4]);
}

#[test]
fn decode_lists_whole_instructions() {
    // PUSH2 0x0102, JUMPDEST, PUSH1 with no immediate
    let code = vec![0x61, 0x01, 0x02, 0x5b, 0x60];
    let ins = decode(&code);
    assert_eq!(ins.len(), 2);
    assert_eq!((ins[0].offset, ins[0].opcode, ins[0].immediate.clone()), (0, 0x61, vec![1, 2]));
    assert_eq!((ins[1].offset, ins[1].opcode, ins[1].immediate.clone()), (3, 0x5b, vec![]));
    assert!(decode(&[]).is_empty());
}

#[test]
fn selectors_come_from_push_immediates() {
    let code = compiler_dispatcher();
    for v in selector_values(&code, 1_000) {
        let b = v.to_be_bytes();
        assert!(code.windows(5).any(|w| w[0] == 0x63 && w[1..] == b[..]));
    }
}

#[test]
fn division_and_mask_keep_call_data_origin() {
    // PUSH29 2^224, PUSH1 0, CALLDATALOAD, DIV, PUSH4 ffffffff, AND,
    // DUP1, PUSH4 c, EQ, STOP
    let mut code = vec![0x7c, 0x01];
    code.extend([0u8; 28]);
    code.extend([0x60, 0x00, 0x35, 0x04, 0x63, 0xff, 0xff, 0xff, 0xff, 0x16]);
    code.extend([0x80, 0x63, 0xa9, 0x05, 0x9c, 0xbb, 0x14, 0x00]);
    assert_eq!(selector_values(&code, 100), vec![0xa9059cbb]);
}

#[test]
fn swapped_operands_still_match() {
    // PUSH1 0 CALLDATALOAD PUSH4 c SWAP1 EQ STOP
    let code = vec![0x60, 0x00, 0x35, 0x63, 0x70, 0xa0, 0x82, 0x31, 0x90, 0x14, 0x00];
    assert_eq!(selector_values(&code, 100), vec![0x70a08231]);
}

#[test]
fn jump_to_valid_destination_is_followed() {
    // PUSH1 4 JUMP INVALID JUMPDEST PUSH1 0 CALLDATALOAD PUSH2 c EQ STOP
    let code = vec![0x60, 0x04, 0x56, 0xfe, 0x5b, 0x60, 0x00, 0x35, 0x61, 0x12, 0x34, 0x14, 0x00];
    assert_eq!(selector_values(&code, 100), vec![0x1234]);
}
