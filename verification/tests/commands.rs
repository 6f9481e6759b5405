use mini_redis::commands::{
    checked_command_get, command_del, command_get, command_ping, command_save, command_set,
    handle_request, trash, Outcome,
};
use mini_redis::store::Store;

fn s(x: &str) -> String {
    x.to_string()
}

fn bulk(word: &str) -> (String, Vec<String>) {
    (s("BulkString"), vec![s(word)])
}

fn received(data: &[u8]) -> Vec<u8> {
    let mut buf = vec![0u8; 256];
    buf[..data.len()].copy_from_slice(data);
    buf
}

fn reply(o: Outcome) -> String {
    match o {
        Outcome::Reply(text) => text,
        _ => panic!("expected a reply"),
    }
}

#[test]
fn ping_without_argument_pongs() {
    assert_eq!(command_ping(&vec![bulk("PING")]), "+PONG\r\n");
}

#[test]
fn ping_echoes_its_argument() {
    assert_eq!(command_ping(&vec![bulk("PING"), bulk("hello")]), "$5\r\nhello\r\n");
    assert_eq!(
        command_ping(&vec![bulk("PING"), bulk("a"), bulk("bc")]),
        "*2\r\n$1\r\na\r\n$2\r\nbc\r\n"
    );
}

#[test]
fn set_then_get_gives_value_back() {
    let mut store = Store::new();
    let set = vec![bulk("SET"), bulk("a"), bulk("coucou")];
    assert_eq!(command_set(&set, &mut store), "+OK\r\n");
    assert_eq!(store.get(&s("a")), Some(&vec![bulk("coucou")]));
    assert_eq!(command_get(&vec![bulk("GET"), bulk("a")], &store), "$6\r\ncoucou\r\n");
}

#[test]
fn set_replaces_previous_value() {
    let mut store = Store::new();
    command_set(&vec![bulk("SET"), bulk("k"), bulk("one")], &mut store);
    command_set(&vec![bulk("SET"), bulk("k"), bulk("two")], &mut store);
    assert_eq!(command_get(&vec![bulk("GET"), bulk("k")], &store), "$3\r\ntwo\r\n");
}

#[test]
fn set_of_several_values_stores_an_array() {
    let mut store = Store::new();
    command_set(&vec![bulk("SET"), bulk("k"), bulk("x"), bulk("yz")], &mut store);
    assert_eq!(
        command_get(&vec![bulk("GET"), bulk("k")], &store),
        "*2\r\n$1\r\nx\r\n$2\r\nyz\r\n"
    );
}

#[test]
fn set_error_lines_are_followed_by_ok() {
    let mut store = Store::new();
    assert_eq!(
        command_set(&vec![], &mut store),
        "-Error (Should not be reachable))\r\n+OK\r\n"
    );
    assert_eq!(command_set(&vec![bulk("SET")], &mut store), "-ERROR: No key given\r\n+OK\r\n");
    assert_eq!(
        command_set(&vec![bulk("SET"), bulk("k")], &mut store),
        "-ERROR: Key cannot be NULL\r\n+OK\r\n"
    );
    assert_eq!(store.get(&s("k")), None);
}

#[test]
fn get_of_missing_key_is_null() {
    let store = Store::new();
    assert_eq!(command_get(&vec![bulk("GET"), bulk("nope")], &store), "_\r\n");
}

#[test]
fn get_without_key_is_an_error() {
    let store = Store::new();
    assert_eq!(command_get(&vec![bulk("GET")], &store), "-ERROR: No key given\r\n");
    assert_eq!(command_get(&vec![], &store), "-Error (Should not be reachable))\r\n");
}

#[test]
fn get_of_several_keys_gathers_their_values() {
    let mut store = Store::new();
    command_set(&vec![bulk("SET"), bulk("a"), bulk("1")], &mut store);
    command_set(&vec![bulk("SET"), bulk("c"), bulk("2"), bulk("3")], &mut store);
    assert_eq!(
        command_get(&vec![bulk("GET"), bulk("a"), bulk("b"), bulk("c")], &store),
        "*4\r\n$1\r\n1\r\n_\r\n$1\r\n2\r\n$1\r\n3\r\n"
    );
}

#[test]
fn get_of_several_keys_does_not_look_up_command_word() {
    let mut store = Store::new();
    command_set(&vec![bulk("SET"), bulk("GET"), bulk("x"), bulk("y")], &mut store);
    command_set(&vec![bulk("SET"), bulk("a"), bulk("1")], &mut store);
    assert_eq!(
        command_get(&vec![bulk("GET"), bulk("a"), bulk("b")], &store),
        "*2\r\n$1\r\n1\r\n_\r\n"
    );
}

#[test]
fn dispatch_ignores_ascii_case() {
    let mut one = Store::new();
    let mut two = Store::new();
    let a = reply(handle_request(&mut one, &received(b"*2\r\n$4\r\nPING\r\n$2\r\nhi\r\n")));
    let b = reply(handle_request(&mut two, &received(b"*2\r\n$4\r\npInG\r\n$2\r\nhi\r\n")));
    assert_eq!(a, b);
    assert_eq!(a, "$2\r\nhi\r\n");
}

#[test]
fn get_of_unwritable_stored_value_is_refused() {
    let store = Store::load(&b"{\"k\":[[\"Weird\",[\"x\"]]]}".to_vec());
    assert_eq!(checked_command_get(&vec![bulk("GET"), bulk("k")], &store), None);
}

#[test]
fn del_counts_removed_keys() {
    let mut store = Store::new();
    command_set(&vec![bulk("SET"), bulk("a"), bulk("1")], &mut store);
    command_set(&vec![bulk("SET"), bulk("b"), bulk("2")], &mut store);
    assert_eq!(
        command_del(&vec![bulk("DEL"), bulk("a"), bulk("a"), bulk("c"), bulk("b")], &mut store),
        ":2\r\n"
    );
    assert_eq!(store.get(&s("a")), None);
    assert_eq!(store.get(&s("b")), None);
}

#[test]
fn del_after_set_then_get_is_null() {
    let mut store = Store::new();
    command_set(&vec![bulk("SET"), bulk("a"), bulk("1")], &mut store);
    assert_eq!(command_del(&vec![bulk("DEL"), bulk("a")], &mut store), ":1\r\n");
    assert_eq!(command_get(&vec![bulk("GET"), bulk("a")], &store), "_\r\n");
    assert_eq!(command_del(&vec![bulk("DEL"), bulk("a")], &mut store), ":0\r\n");
}

#[test]
fn del_without_key_is_an_error() {
    let mut store = Store::new();
    assert_eq!(command_del(&vec![bulk("DEL")], &mut store), "-ERROR: No key given\r\n:0\r\n");
    assert_eq!(
        command_del(&vec![], &mut store),
        "-Error (Should not be reachable))\r\n:0\r\n"
    );
}

#[test]
fn save_and_unknown_replies() {
    assert_eq!(command_save(true), "+OK\r\n");
    assert_eq!(command_save(false), "-ERROR: couldn't save!\r\n");
    assert_eq!(trash(), "-ERROR: This command is not handled atm.\r\n");
}

#[test]
fn request_set_then_get() {
    let mut store = Store::new();
    let set = received(b"*3\r\n$3\r\nset\r\n$1\r\na\r\n$6\r\ncoucou\r\n");
    assert_eq!(reply(handle_request(&mut store, &set)), "+OK\r\n");
    let get = received(b"*2\r\n$3\r\nGeT\r\n$1\r\na\r\n");
    assert_eq!(reply(handle_request(&mut store, &get)), "$6\r\ncoucou\r\n");
}

#[test]
fn request_inline_ping() {
    let mut store = Store::new();
    assert_eq!(reply(handle_request(&mut store, &received(b"PING\r\n"))), "+PONG\r\n");
    assert_eq!(reply(handle_request(&mut store, &received(b"ping hi\r\n"))), "+hi\r\n");
}

#[test]
fn request_stop_save_and_unknown() {
    let mut store = Store::new();
    assert!(matches!(handle_request(&mut store, &received(b"STOP\r\n")), Outcome::Disconnect));
    assert!(matches!(
        handle_request(&mut store, &received(b"*1\r\n$4\r\nsave\r\n")),
        Outcome::Save
    ));
    assert_eq!(
        reply(handle_request(&mut store, &received(b"*1\r\n$4\r\nINFO\r\n"))),
        "-ERROR: This command is not handled atm.\r\n"
    );
}

#[test]
fn request_that_cannot_be_read_is_a_fault() {
    let mut store = Store::new();
    assert!(matches!(handle_request(&mut store, &received(b"*1\r\n+OK\rX")), Outcome::Fault));
}

#[test]
fn request_del() {
    let mut store = Store::new();
    handle_request(&mut store, &received(b"*3\r\n$3\r\nSET\r\n$1\r\nk\r\n$1\r\nv\r\n"));
    assert_eq!(
        reply(handle_request(&mut store, &received(b"*2\r\n$3\r\nDEL\r\n$1\r\nk\r\n"))),
        ":1\r\n"
    );
    assert_eq!(store.get(&s("k")), None);
}

#[test]
fn set_keeps_other_keys() {
    let mut store = Store::new();
    command_set(&vec![bulk("SET"), bulk("a"), bulk("1")], &mut store);
    command_set(&vec![bulk("SET"), bulk("b"), bulk("2")], &mut store);
    assert_eq!(command_get(&vec![bulk("GET"), bulk("a")], &store), "$1\r\n1\r\n");
}

#[test]
fn reading_requests_leave_store_unchanged() {
    let mut store = Store::new();
    command_set(&vec![bulk("SET"), bulk("a"), bulk("1")], &mut store);
    handle_request(&mut store, &received(b"*2\r\n$3\r\nGET\r\n$1\r\na\r\n"));
    handle_request(&mut store, &received(b"PING a\r\n"));
    handle_request(&mut store, &received(b"FOO a\r\n"));
    assert_eq!(store.get(&s("a")), Some(&vec![bulk("1")]));
    assert_eq!(store.get(&s("FOO")), None);
}
