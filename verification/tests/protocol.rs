use bitcask::protocol::execute;
use bitcask::protocol::execute_at;
use bitcask::protocol::on_failure;
use bitcask::protocol::Command;
use bitcask::protocol::DeleteResponse;
use bitcask::protocol::ErrorResponse;
use bitcask::protocol::Failure;
use bitcask::protocol::Response;
use bitcask::protocol::RetrievalResponseItem;
use bitcask::protocol::StoreResponse;
use bitcask::Bitcask;
use bitcask::BitcaskOptions;

fn empty_store() -> Bitcask {
    Bitcask::new("data".to_owned(), BitcaskOptions::default(), Vec::new())
}

fn set(key: &str, data: &[u8]) -> Command {
    store("set", key, data)
}

fn store(name: &str, key: &str, data: &[u8]) -> Command {
    Command::Store {
        command_name: name.to_owned(),
        key: key.to_owned(),
        flags: 0,
        exptime: 0,
        bytes: data.len() as u64,
        data_block: data.to_vec(),
    }
}

fn delete(key: &str) -> Command {
    Command::Delete { key: key.to_owned() }
}

fn gets(keys: &[&str]) -> Command {
    Command::Retrieval { keys: keys.iter().map(|k| k.to_string()).collect() }
}

#[test]
fn test_get() {
    let mut db = empty_store();
    let mut s = Vec::new();
    s.extend(execute(&mut db, set("a", b"k")).to_bytes());
    s.extend(execute(&mut db, set("a", b"k")).to_bytes());
    s.extend(execute(&mut db, set("a", b"k")).to_bytes());
    s.extend(execute(&mut db, delete("b")).to_bytes());
    s.extend(execute(&mut db, delete("kkk")).to_bytes());
    s.extend(execute(&mut db, gets(&["b"])).to_bytes());
    s.extend(execute(&mut db, set("a", b"k")).to_bytes());
    s.extend(execute(&mut db, gets(&["b"])).to_bytes());
    println!("{:?}", String::from_utf8_lossy(&s));
    assert_eq!(
        s,
        b"STORED\r\nSTORED\r\nSTORED\r\nNOT_FOUND\r\nNOT_FOUND\r\nEND\r\nSTORED\r\nEND\r\n".to_vec()
    );
}

#[test]
fn three_sets_a_delete_of_another_key_and_a_retrieval() {
    let mut db = empty_store();
    for _ in 0..3 {
        let response = execute(&mut db, set("a", b"k"));
        assert!(matches!(response, Response::Store(StoreResponse::Stored)));
        assert_eq!(response.to_bytes(), b"STORED\r\n".to_vec());
    }
    let response = execute(&mut db, delete("b"));
    assert!(matches!(response, Response::Delete(DeleteResponse::NotFound)));
    assert_eq!(response.to_bytes(), b"NOT_FOUND\r\n".to_vec());
    let response = execute(&mut db, gets(&["a"]));
    assert_eq!(response.to_bytes(), b"VALUE a 0 1\r\nk\r\nEND\r\n".to_vec());
}

#[test]
fn delete_of_a_key_that_is_there_answers_deleted() {
    let mut db = empty_store();
    execute_at(&mut db, 1, set("a", b"k"));
    let response = execute_at(&mut db, 2, delete("a"));
    assert!(matches!(response, Response::Delete(DeleteResponse::Deleted)));
    assert_eq!(response.to_bytes(), b"DELETED\r\n".to_vec());
    let response = execute_at(&mut db, 3, delete("a"));
    assert!(matches!(response, Response::Delete(DeleteResponse::NotFound)));
    assert_eq!(db.get("a".to_owned()), None);
}

#[test]
fn retrieval_answers_the_keys_that_are_there_in_the_order_asked() {
    let mut db = empty_store();
    execute_at(&mut db, 1, set("a", b"one"));
    execute_at(&mut db, 2, set("c", b""));
    execute_at(&mut db, 3, set("b", b"\r\n\0"));
    let response = execute_at(&mut db, 4, gets(&["c", "x", "a", "b", "a"]));
    match &response {
        Response::Retrieval(items) => {
            assert_eq!(items.len(), 4);
            assert_eq!(items[0].key, "c");
            assert_eq!(items[0].bytes, 0);
            assert_eq!(items[1].key, "a");
            assert_eq!(items[1].flags, 0);
            assert_eq!(items[1].bytes, 3);
            assert_eq!(items[1].cas_unique, None);
            assert_eq!(items[1].data_block, b"one".to_vec());
            assert_eq!(items[2].key, "b");
            assert_eq!(items[3].data_block, b"one".to_vec());
        }
        other => panic!("{:?}", other),
    }
    assert_eq!(
        response.to_bytes(),
        b"VALUE c 0 0\r\n\r\nVALUE a 0 3\r\none\r\nVALUE b 0 3\r\n\r\n\0\r\nVALUE a 0 3\r\none\r\nEND\r\n"
            .to_vec()
    );
}

#[test]
fn retrieval_of_nothing_answers_end() {
    let mut db = empty_store();
    assert_eq!(execute_at(&mut db, 1, gets(&[])).to_bytes(), b"END\r\n".to_vec());
    assert_eq!(execute_at(&mut db, 1, gets(&["a", "b"])).to_bytes(), b"END\r\n".to_vec());
}

#[test]
fn store_commands_other_than_set_store_nothing() {
    let mut db = empty_store();
    for name in ["add", "replace", "append", "prepend", "cas", "SET", ""] {
        let response = execute_at(&mut db, 1, store(name, "a", b"k"));
        assert!(matches!(response, Response::Store(StoreResponse::NotStored)), "{}", name);
        assert_eq!(response.to_bytes(), b"NOT_STORED\r\n".to_vec());
    }
    assert_eq!(db.get("a".to_owned()), None);
    assert_eq!(db.data_file(0).unwrap().len(), 0);
}

#[test]
fn set_of_a_key_that_is_too_long_is_not_stored() {
    let mut db = empty_store();
    let key = "k".repeat(256);
    let response = execute_at(&mut db, 1, set(&key, b"v"));
    assert!(matches!(response, Response::Store(StoreResponse::NotStored)));
    let response = execute_at(&mut db, 1, delete(&key));
    assert!(matches!(response, Response::Delete(DeleteResponse::NotFound)));
    assert_eq!(db.data_file(0).unwrap().len(), 0);
}

#[test]
fn set_stamps_the_record_with_the_given_time() {
    let mut db = empty_store();
    execute_at(&mut db, 0x01020304, set("a", b"k"));
    let data = db.data_file(0).unwrap().contents();
    assert_eq!(&data[2..6], &[4, 3, 2, 1]);
    assert_eq!(db.hint_file(0).unwrap().contents()[..4], [4, 3, 2, 1]);
}

#[test]
fn item_with_flags_and_token_is_written_with_both() {
    let item = RetrievalResponseItem {
        key: "key".to_owned(),
        flags: 65535,
        bytes: 5,
        cas_unique: Some(18446744073709551615),
        data_block: b"hello".to_vec(),
    };
    assert_eq!(item.to_bytes(), b"VALUE key 65535 5 18446744073709551615\r\nhello\r\n".to_vec());
    let item = RetrievalResponseItem {
        key: "山".to_owned(),
        flags: 10,
        bytes: 100,
        cas_unique: Some(0),
        data_block: Vec::new(),
    };
    assert_eq!(item.to_bytes(), "VALUE 山 10 100 0\r\n\r\n".as_bytes().to_vec());
}

#[test]
fn a_lost_connection_is_closed_and_any_other_failure_is_answered() {
    assert!(on_failure(Failure::ConnectionLost).is_none());
    let answer = on_failure(Failure::NotACommand).unwrap();
    assert!(matches!(answer, ErrorResponse::Error));
    assert_eq!(answer.to_bytes(), b"ERROR\r\n".to_vec());
    let answer = on_failure(Failure::Client("wrong size of params".to_owned())).unwrap();
    assert_eq!(answer.to_bytes(), b"CLIENT_ERROR wrong size of params\r\n".to_vec());
    let answer = on_failure(Failure::Server("out of luck".to_owned())).unwrap();
    assert_eq!(answer.to_bytes(), b"SERVER_ERROR out of luck\r\n".to_vec());
}
