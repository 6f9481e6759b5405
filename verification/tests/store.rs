use mini_redis::store::{SaveError, Store};

fn s(x: &str) -> String {
    x.to_string()
}

fn bulk(word: &str) -> (String, Vec<String>) {
    (s("BulkString"), vec![s(word)])
}

#[test]
fn new_store_is_empty() {
    let store = Store::new();
    assert_eq!(store.get(&s("a")), None);
}

#[test]
fn insert_get_remove() {
    let mut store = Store::new();
    store.insert(s("a"), vec![bulk("1")]);
    store.insert(s("b"), vec![bulk("2")]);
    store.insert(s("a"), vec![bulk("3")]);
    assert_eq!(store.get(&s("a")), Some(&vec![bulk("3")]));
    assert_eq!(store.get(&s("b")), Some(&vec![bulk("2")]));
    assert!(store.remove(&s("a")));
    assert!(!store.remove(&s("a")));
    assert_eq!(store.get(&s("a")), None);
    assert_eq!(store.get(&s("b")), Some(&vec![bulk("2")]));
}

#[test]
fn json_text_of_store() {
    let mut store = Store::new();
    store.insert(s("a"), vec![bulk("coucou")]);
    store.insert(s("b"), vec![(s("Null"), vec![s("")])]);
    let text = match store.to_json() {
        Ok(text) => text,
        Err(SaveError::Encoding) => panic!("encoding failed"),
    };
    assert_eq!(
        String::from_utf8(text).unwrap(),
        "{\"a\":[[\"BulkString\",[\"coucou\"]]],\"b\":[[\"Null\",[\"\"]]]}"
    );
}

#[test]
fn empty_store_json_text() {
    let store = Store::new();
    let text = match store.to_json() {
        Ok(text) => text,
        Err(_) => panic!("encoding failed"),
    };
    assert_eq!(text, b"{}".to_vec());
}

#[test]
fn load_reads_json_object() {
    let store = Store::load(&b"{\"k\":[[\"SimpleString\",[\"+x\"]],[\"Bool\",[\"116\"]]]}".to_vec());
    assert_eq!(
        store.get(&s("k")),
        Some(&vec![(s("SimpleString"), vec![s("+x")]), (s("Bool"), vec![s("116")])])
    );
}

#[test]
fn load_of_other_text_is_empty() {
    let store = Store::load(&b"not json".to_vec());
    assert_eq!(store.get(&s("k")), None);
    let store = Store::load(&vec![]);
    assert_eq!(store.get(&s("k")), None);
}

#[test]
fn saved_store_loads_back() {
    let mut store = Store::new();
    store.insert(s("z"), vec![bulk("1"), bulk("2")]);
    store.insert(s("a"), vec![bulk("3")]);
    let text = match store.to_json() {
        Ok(text) => text,
        Err(_) => panic!("encoding failed"),
    };
    let back = Store::load(&text);
    assert_eq!(back.get(&s("z")), Some(&vec![bulk("1"), bulk("2")]));
    assert_eq!(back.get(&s("a")), Some(&vec![bulk("3")]));
}
