use nexo_core::chain::{durable_len, ChainStore};
use nexo_core::error::CoreError;
use nexo_core::framing::{count_lines, split_frames};
use nexo_core::metrics::render_metrics;
use nexo_core::routes::{
    chain_status, latest_status, ChainQuery, HealthResponse, DEFAULT_CHAIN_LIMIT,
};
use nexo_core::sth::{Policy, STH};
use nexo_core::storage::{AppendPlan, FileStorage, UserRegistration};
use nexo_core::ws::{relay_step, SocketAction, SocketEvent, WSMessage};

fn plain(tree_size: usize, prev_hash: String, timestamp: i64) -> STH {
    STH {
        tree_size,
        root: "cm9vdA==".to_string(),
        prev_hash,
        policy: Policy { t: 2, n: 3 },
        timestamp,
        signatures: vec![],
    }
}

fn sth_file(n: usize) -> (Vec<u8>, Vec<STH>) {
    let mut store = ChainStore::new();
    let mut all = Vec::new();
    for i in 0..n {
        let sth = plain(i + 1, store.head(), 100 + i as i64);
        store.append(sth.clone()).unwrap();
        all.push(sth);
    }
    (store.to_bytes(), all)
}

#[test]
fn lines_are_split_at_newlines() {
    assert_eq!(split_frames(b""), (vec![], vec![]));
    assert_eq!(split_frames(b"a\nbc\n"), (vec![b"a".to_vec(), b"bc".to_vec()], vec![]));
    assert_eq!(split_frames(b"a\nbc"), (vec![b"a".to_vec()], b"bc".to_vec()));
    assert_eq!(split_frames(b"\n\nx"), (vec![vec![], vec![]], b"x".to_vec()));
    assert_eq!(split_frames(b"no newline"), (vec![], b"no newline".to_vec()));
}

#[test]
fn lines_are_counted_as_a_reader_counts_them() {
    assert_eq!(count_lines(b""), 0);
    assert_eq!(count_lines(b"a"), 1);
    assert_eq!(count_lines(b"a\n"), 1);
    assert_eq!(count_lines(b"a\nb"), 2);
    assert_eq!(count_lines(b"a\nb\n"), 2);
    assert_eq!(count_lines(b"\n\n\n"), 3);
}

#[test]
fn registrations_are_appended_as_lines() {
    let mut storage = FileStorage::new(Vec::new(), Vec::new());
    assert_eq!(storage.get_user_count(), 0);
    let user = UserRegistration {
        id: "did:nexo:alice".to_string(),
        public_key: "key \"one\"".to_string(),
        timestamp: 1700000000,
        leaf_hash: "bGVhZg==".to_string(),
    };
    let line = storage.append_user_registration(&user);
    let expected = "{\"id\":\"did:nexo:alice\",\"public_key\":\"key \\\"one\\\"\",\
                    \"timestamp\":1700000000,\"leaf_hash\":\"bGVhZg==\"}\n";
    assert_eq!(String::from_utf8(line.clone()).unwrap(), expected);
    assert_eq!(user.encode(), expected.as_bytes()[..expected.len() - 1].to_vec());
    assert_eq!(storage.users_file, line);
    storage.append_user_registration(&user);
    assert_eq!(storage.get_user_count(), 2);
    assert_eq!(storage.users_file.len(), 2 * line.len());
    assert!(storage.sth_file.is_empty());
    assert_eq!(storage.get_sth_count(), 0);
}

#[test]
fn latest_and_list_read_the_tree_head_file() {
    let empty = FileStorage::new(Vec::new(), Vec::new());
    assert_eq!(empty.get_latest_sth(), Ok(None));
    assert_eq!(empty.list_sth(10), Ok(vec![]));
    assert_eq!(empty.last_sth_timestamp(), Ok(0));

    let (bytes, all) = sth_file(3);
    let storage = FileStorage::new(Vec::new(), bytes.clone());
    assert_eq!(storage.get_sth_count(), 3);
    assert_eq!(storage.get_latest_sth(), Ok(Some(all[2].clone())));
    assert_eq!(storage.list_sth(2), Ok(vec![all[2].clone(), all[1].clone()]));
    assert_eq!(storage.list_sth(10).map(|l| l.len()), Ok(3));
    assert_eq!(storage.last_sth_timestamp(), Ok(102));
    assert_eq!(storage.chain().map(|c| c.len()), Ok(3));

    let torn = FileStorage::new(Vec::new(), bytes[..bytes.len() - 3].to_vec());
    assert_eq!(torn.get_latest_sth(), Ok(Some(all[1].clone())));
    assert_eq!(torn.get_sth_count(), 3);

    let mut corrupt = b"junk\n".to_vec();
    corrupt.extend_from_slice(&bytes);
    let storage = FileStorage::new(Vec::new(), corrupt);
    assert_eq!(storage.get_latest_sth(), Err(CoreError::Integrity));
    assert_eq!(storage.list_sth(10), Err(CoreError::Integrity));
    assert_eq!(storage.last_sth_timestamp(), Err(CoreError::Integrity));
}

#[test]
fn chain_query_defaults_to_ten() {
    assert_eq!(DEFAULT_CHAIN_LIMIT, 10);
    assert_eq!(ChainQuery { limit: None }.limit_or_default(), 10);
    assert_eq!(ChainQuery { limit: Some(3) }.limit_or_default(), 3);
    assert_eq!(ChainQuery { limit: Some(0) }.limit_or_default(), 0);
}

#[test]
fn empty_chain_is_not_found_and_failures_are_server_errors() {
    let sth = plain(1, String::new(), 5);
    assert_eq!(latest_status(&Ok(Some(sth.clone()))), 200);
    assert_eq!(latest_status(&Ok(None)), 404);
    assert_eq!(latest_status(&Err(CoreError::Integrity)), 500);
    assert_eq!(latest_status(&Err(CoreError::Io)), 500);
    assert_eq!(chain_status(&Ok(vec![])), 200);
    assert_eq!(chain_status(&Ok(vec![sth])), 200);
    assert_eq!(chain_status(&Err(CoreError::Io)), 500);
}

#[test]
fn health_report() {
    let report = HealthResponse::healthy(1700000000, 4, 2);
    assert_eq!(
        report,
        HealthResponse { status: "healthy".to_string(), timestamp: 1700000000, users_count: 4, sth_count: 2 }
    );
}

#[test]
fn metrics_page() {
    let page = String::from_utf8(render_metrics(7, 3, 2, 1700000000)).unwrap();
    let expected = format!(
        "# HELP process_up Whether the process is running\n\
         # TYPE process_up gauge\n\
         process_up 1\n\
         \n\
         # HELP users_count Total number of registered users\n\
         # TYPE users_count gauge\n\
         users_count {}\n\
         \n\
         # HELP sth_count Total number of STH entries\n\
         # TYPE sth_count gauge\n\
         sth_count {}\n\
         \n\
         # HELP ws_sessions Number of active WebSocket sessions\n\
         # TYPE ws_sessions gauge\n\
         ws_sessions {}\n\
         \n\
         # HELP last_sth_timestamp Timestamp of the latest STH\n\
         # TYPE last_sth_timestamp gauge\n\
         last_sth_timestamp {}\n",
        7, 3, 2, 1700000000
    );
    assert_eq!(page, expected);
    let zero = String::from_utf8(render_metrics(0, 0, 0, 0)).unwrap();
    assert!(zero.contains("users_count 0\n"));
    assert!(zero.ends_with("last_sth_timestamp 0\n"));
    let negative = String::from_utf8(render_metrics(0, 0, 0, -12)).unwrap();
    assert!(negative.ends_with("last_sth_timestamp -12\n"));
}

#[test]
fn relay_decisions() {
    let message = WSMessage {
        from: "alice".to_string(),
        to: "bob".to_string(),
        payload: "hi \"bob\"".to_string(),
    };
    assert_eq!(
        relay_step(&SocketEvent::Frame(Some(message.clone()))),
        SocketAction::Forward {
            to: "bob".to_string(),
            text: b"{\"from\":\"alice\",\"to\":\"bob\",\"payload\":\"hi \\\"bob\\\"\"}".to_vec(),
        }
    );
    assert_eq!(message.encode(), b"{\"from\":\"alice\",\"to\":\"bob\",\"payload\":\"hi \\\"bob\\\"\"}".to_vec());
    assert_eq!(relay_step(&SocketEvent::Frame(None)), SocketAction::Continue);
    assert_eq!(
        relay_step(&SocketEvent::Relayed("text".to_string())),
        SocketAction::Deliver("text".to_string())
    );
    assert_eq!(relay_step(&SocketEvent::SocketClosed), SocketAction::Close);
    assert_eq!(relay_step(&SocketEvent::ChannelClosed), SocketAction::Close);
    assert_eq!(relay_step(&SocketEvent::DeliveryFailed), SocketAction::Close);
}

#[test]
fn error_names_and_retries() {
    assert_eq!(CoreError::Configuration.name(), "ConfigurationError");
    assert_eq!(CoreError::QuorumUnreachable.name(), "QuorumUnreachableError");
    assert_eq!(CoreError::ConcurrentAppend.name(), "ConcurrentAppendError");
    assert_eq!(CoreError::Io.name(), "IOError");
    assert_eq!(CoreError::Decode.name(), "DecodeError");
    assert_eq!(CoreError::Integrity.name(), "IntegrityError");
    assert!(CoreError::QuorumUnreachable.is_retryable());
    assert!(CoreError::ConcurrentAppend.is_retryable());
    assert!(!CoreError::Configuration.is_retryable());
    assert!(!CoreError::Io.is_retryable());
    assert!(!CoreError::Decode.is_retryable());
    assert!(!CoreError::Integrity.is_retryable());
}

#[test]
fn durable_part_of_a_file() {
    let (bytes, all) = sth_file(2);
    assert_eq!(durable_len(b""), 0);
    assert_eq!(durable_len(&bytes), bytes.len());
    assert_eq!(durable_len(&bytes[..bytes.len() - 1]), all[0].encode_line().len());
    let mut torn = bytes.clone();
    torn.extend_from_slice(b"{\"tree_size\":3,\"ro");
    assert_eq!(durable_len(&torn), bytes.len());
    let mut junk_line = bytes.clone();
    junk_line.extend_from_slice(b"junk\n");
    assert_eq!(durable_len(&junk_line), bytes.len());
    junk_line.extend_from_slice(b"more");
    assert_eq!(durable_len(&junk_line), bytes.len() + 5);
}

#[test]
fn appending_a_tree_head_to_the_file() {
    let (bytes, all) = sth_file(2);
    let store = ChainStore::from_bytes(&bytes).unwrap();
    let next = plain(3, store.head(), 500);

    let mut storage = FileStorage::new(b"users\n".to_vec(), bytes.clone());
    let plan = storage.append_sth(&next).unwrap();
    assert_eq!(plan, AppendPlan { keep: bytes.len(), line: next.encode_line() });
    let mut expected = bytes.clone();
    expected.extend_from_slice(&next.encode_line());
    assert_eq!(storage.sth_file, expected);
    assert_eq!(storage.users_file, b"users\n".to_vec());
    assert_eq!(storage.get_latest_sth(), Ok(Some(next.clone())));
    assert_eq!(storage.list_sth(10).map(|l| l.len()), Ok(3));

    assert_eq!(storage.append_sth(&next), Err(CoreError::ConcurrentAppend));
    assert_eq!(storage.sth_file, expected);
    let shrinking = plain(1, ChainStore::from_bytes(&expected).unwrap().head(), 600);
    assert_eq!(storage.append_sth(&shrinking), Err(CoreError::Integrity));
    assert_eq!(storage.sth_file, expected);
    assert_eq!(all.len(), 2);
}

#[test]
fn appending_drops_what_an_interrupted_write_left() {
    let (bytes, all) = sth_file(2);
    let next = plain(3, ChainStore::from_bytes(&bytes).unwrap().head(), 500);
    let mut expected = bytes.clone();
    expected.extend_from_slice(&next.encode_line());

    let mut torn = bytes.clone();
    torn.extend_from_slice(&next.encode()[..20]);
    let mut storage = FileStorage::new(Vec::new(), torn);
    let plan = storage.append_sth(&next).unwrap();
    assert_eq!(plan.keep, bytes.len());
    assert_eq!(storage.sth_file, expected);

    let mut junk = bytes.clone();
    junk.extend_from_slice(b"junk\n");
    let mut storage = FileStorage::new(Vec::new(), junk);
    assert_eq!(storage.append_sth(&next).map(|p| p.keep), Ok(bytes.len()));
    assert_eq!(storage.sth_file, expected);

    let mut corrupt = b"junk\n".to_vec();
    corrupt.extend_from_slice(&bytes);
    let mut storage = FileStorage::new(Vec::new(), corrupt.clone());
    assert_eq!(storage.append_sth(&next), Err(CoreError::Integrity));
    assert_eq!(storage.sth_file, corrupt);

    let mut first = FileStorage::new(Vec::new(), Vec::new());
    let genesis = plain(0, ChainStore::new().head(), 1);
    assert_eq!(first.append_sth(&genesis).map(|p| p.keep), Ok(0));
    assert_eq!(first.sth_file, genesis.encode_line());
    assert_eq!(all[0].tree_size, 1);
}
