use block_sync::chain::Blockchain;
use block_sync::chain::HeadersInMemory;
use block_sync::codec::decode_block_headers;
use block_sync::codec::decode_get_block_headers;
use block_sync::codec::encode_block_headers;
use block_sync::codec::encode_get_block_bodies;
use block_sync::manager::BlockManager;
use block_sync::manager::MAX_HEADERS_PER_REQUEST;
use block_sync::types::Address160;
use block_sync::types::BlockHeader;
use block_sync::types::BlockId;
use block_sync::types::GetBlockHeaders;
use block_sync::types::Hash256;
use block_sync::types::MessageKind;
use block_sync::types::Task;

fn make_header(number: u64) -> BlockHeader {
    BlockHeader {
        parent_hash: Hash256::repeat_byte(0x11),
        ommers_hash: Hash256::repeat_byte(0x22),
        beneficiary_address: Address160::from_vec(vec![0x33; 20]).unwrap(),
        state_root: Hash256::repeat_byte(0x44),
        transactions_root: Hash256::repeat_byte(0x55),
        receipts_root: Hash256::repeat_byte(0x66),
        logs_bloom: vec![0; 256],
        difficulty: 1000 + number,
        number,
        gas_limit: 8_000_000,
        gas_used: 21_000,
        timestamp: 1_600_000_000 + number,
        extra_data: vec![0x65, 0x74, 0x68],
        mix_hash: Hash256::repeat_byte(0x77),
        nonce: 0x1122_3344_5566_7788,
    }
}

#[test]
fn test_import_idempotent() {
    let mut once = HeadersInMemory::new();
    let mut twice = HeadersInMemory::new();
    let header = make_header(7);
    once.import_block_header(&header);
    twice.import_block_header(&header);
    twice.import_block_header(&header);
    assert_eq!(once.block_header(7), twice.block_header(7));
    assert_eq!(once.block_header(7).unwrap(), make_header(7));
    assert_eq!(once.best_block_header(), twice.best_block_header());
    assert_eq!(once.best_block_header(), Some(7));
    assert_eq!(once.block_header(8), None);
    assert_eq!(twice.block_header(8), None);
}

#[test]
fn test_best_block_header_tracks_maximum() {
    let mut chain = HeadersInMemory::new();
    assert_eq!(chain.best_block_header(), None);
    chain.import_block_header(&make_header(5));
    chain.import_block_header(&make_header(12));
    chain.import_block_header(&make_header(9));
    assert_eq!(chain.best_block_header(), Some(12));
}

#[test]
fn test_sync_termination() {
    // The adapter's best height already meets the target.
    let mut chain = HeadersInMemory::new();
    chain.import_block_header(&make_header(1_000));
    let manager = BlockManager::new(chain, 1_000);
    assert!(!manager.is_syncing());
    assert!(manager.next_sync_task().is_none());
    assert!(matches!(manager.sync(Some(42)), Task::NoOp));
}

#[test]
fn test_next_sync_task_while_syncing() {
    let manager = BlockManager::new(HeadersInMemory::new(), 10_000_000);
    assert!(manager.is_syncing());
    let request = manager.next_sync_task().unwrap();
    assert_eq!(request.message, MessageKind::GetBlockHeaders);
    let expected = GetBlockHeaders::new(
        BlockId::Number(10_000_000),
        MAX_HEADERS_PER_REQUEST,
        0,
        false,
    );
    let decoded = decode_get_block_headers(&request.payload).unwrap();
    assert_eq!(decoded, expected);
}

#[test]
fn test_sync_without_peer_is_noop() {
    let manager = BlockManager::new(HeadersInMemory::new(), 100);
    assert!(manager.is_syncing());
    assert!(matches!(manager.sync(None), Task::NoOp));
    match manager.sync(Some(9)) {
        Task::Request { peer, message, payload } => {
            assert_eq!(peer, 9);
            assert_eq!(message, MessageKind::GetBlockHeaders);
            assert!(decode_get_block_headers(&payload).is_ok());
        }
        other => panic!("expected a request task, got {:?}", other),
    }
}

#[test]
fn test_process_block_headers_imports_in_order() {
    let headers = vec![make_header(3), make_header(4), make_header(5)];
    let data = encode_block_headers(&headers);
    let mut manager = BlockManager::new(HeadersInMemory::new(), 5);
    assert!(manager.is_syncing());
    assert!(manager.process_block_headers(&data).is_ok());
    assert_eq!(manager.chain.block_header(3).unwrap(), make_header(3));
    assert_eq!(manager.chain.block_header(4).unwrap(), make_header(4));
    assert_eq!(manager.chain.block_header(5).unwrap(), make_header(5));
    assert_eq!(manager.chain.best_block_header(), Some(5));
    assert!(!manager.is_syncing());
}

#[test]
fn test_process_block_headers_rejects_garbage() {
    let mut manager = BlockManager::new(HeadersInMemory::new(), 5);
    let garbage = vec![0xde, 0xad, 0xbe, 0xef];
    assert!(manager.process_block_headers(&garbage).is_err());
    assert_eq!(manager.chain.best_block_header(), None);
}

#[test]
fn test_process_block_bodies() {
    let mut manager = BlockManager::new(HeadersInMemory::new(), 5);
    assert!(manager.process_block_bodies(&vec![0xc0]).is_ok());
    assert!(manager.process_block_bodies(&vec![0xff]).is_err());
    assert_eq!(manager.chain.best_block_header(), None);
}

#[test]
fn test_api_get_block_headers_forward_with_stride() {
    let mut chain = HeadersInMemory::new();
    for n in 0..10 {
        chain.import_block_header(&make_header(n));
    }
    let manager = BlockManager::new(chain, 10);
    let request = GetBlockHeaders::new(BlockId::Number(2), 3, 1, false);
    let task = manager.api_get_block_headers(77, &request).unwrap();
    match task {
        Task::Respond { peer, message, payload } => {
            assert_eq!(peer, 77);
            assert_eq!(message, MessageKind::BlockHeaders);
            let sent = decode_block_headers(&payload).unwrap();
            let numbers: Vec<u64> = sent.iter().map(|h| h.number).collect();
            assert_eq!(numbers, vec![2, 4, 6]);
        }
        other => panic!("expected a respond task, got {:?}", other),
    }
}

#[test]
fn test_api_get_block_headers_reverse_stops_at_missing() {
    let mut chain = HeadersInMemory::new();
    for n in 4..8 {
        chain.import_block_header(&make_header(n));
    }
    let manager = BlockManager::new(chain, 10);
    // Walk down from 7 with stride 1: 7, 5, then 3 is missing.
    let request = GetBlockHeaders::new(BlockId::Number(7), 10, 1, true);
    let task = manager.api_get_block_headers(1, &request).unwrap();
    match task {
        Task::Respond { payload, .. } => {
            let sent = decode_block_headers(&payload).unwrap();
            let numbers: Vec<u64> = sent.iter().map(|h| h.number).collect();
            assert_eq!(numbers, vec![7, 5]);
        }
        other => panic!("expected a respond task, got {:?}", other),
    }
}

#[test]
fn test_api_get_block_headers_hash_anchor_is_empty() {
    let mut chain = HeadersInMemory::new();
    chain.import_block_header(&make_header(1));
    let manager = BlockManager::new(chain, 10);
    let request = GetBlockHeaders::new(BlockId::Hash(Hash256::repeat_byte(0x99)), 5, 0, false);
    let task = manager.api_get_block_headers(1, &request).unwrap();
    match task {
        Task::Respond { payload, .. } => assert_eq!(payload, vec![0xc0]),
        other => panic!("expected a respond task, got {:?}", other),
    }
}

#[test]
fn test_api_get_block_bodies_answers_empty_list() {
    let manager = BlockManager::new(HeadersInMemory::new(), 10);
    let hashes = vec![Hash256::repeat_byte(0xab)];
    let task = manager.api_get_block_bodies(3, &hashes).unwrap();
    match task {
        Task::Respond { peer, message, payload } => {
            assert_eq!(peer, 3);
            assert_eq!(message, MessageKind::BlockBodies);
            assert_eq!(payload, vec![0xc0]);
        }
        other => panic!("expected a respond task, got {:?}", other),
    }
}

#[test]
fn test_api_new_block_hashes_acknowledges_or_penalizes() {
    let manager = BlockManager::new(HeadersInMemory::new(), 10);
    let valid = encode_get_block_bodies(&vec![Hash256::repeat_byte(0x01)]);
    assert!(matches!(manager.api_new_block_hashes(&valid), Ok(Task::NoOp)));
    let invalid = vec![0x01, 0x02];
    match manager.api_new_block_hashes(&invalid) {
        Err(act) => assert_eq!(act.reason, "unrecognized block-hash announcement"),
        Ok(t) => panic!("expected a penalization, got {:?}", t),
    }
}

#[test]
fn test_api_get_block_headers_stride_edges() {
    let mut chain = HeadersInMemory::new();
    for n in 0..6 {
        chain.import_block_header(&make_header(n));
    }
    let manager = BlockManager::new(chain, 10);
    // A stride past the top of the height range stops after the anchor.
    let request = GetBlockHeaders::new(BlockId::Number(3), 10, u64::MAX, false);
    match manager.api_get_block_headers(1, &request).unwrap() {
        Task::Respond { payload, .. } => {
            let sent = decode_block_headers(&payload).unwrap();
            let numbers: Vec<u64> = sent.iter().map(|h| h.number).collect();
            assert_eq!(numbers, vec![3]);
        }
        other => panic!("expected a respond task, got {:?}", other),
    }
    // Walking down from height zero stops after the anchor.
    let request = GetBlockHeaders::new(BlockId::Number(0), 10, 0, true);
    match manager.api_get_block_headers(1, &request).unwrap() {
        Task::Respond { payload, .. } => {
            let sent = decode_block_headers(&payload).unwrap();
            let numbers: Vec<u64> = sent.iter().map(|h| h.number).collect();
            assert_eq!(numbers, vec![0]);
        }
        other => panic!("expected a respond task, got {:?}", other),
    }
}
