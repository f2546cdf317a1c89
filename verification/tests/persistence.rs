use flatkv::codec::{be8, make_index_key};
use flatkv::errs::StoreError;
use flatkv::state::ContractState;
use flatkv::store::FlatStore;

fn populated() -> (ContractState, FlatStore) {
    let mut store = FlatStore::new();
    let mut contract = ContractState::init("persist me".to_string(), 11);
    contract.vector_push(22);
    contract.unordered_map_insert("bob.near".to_string(), "0x1234".to_string());
    contract
        .unordered_map_vec_init(&store, "bob.near".to_string())
        .unwrap();
    contract
        .unordered_map_vec_insert(&store, "bob.near".to_string(), "insert 1".to_string())
        .unwrap();
    contract
        .unordered_map_vec_insert(&store, "bob.near".to_string(), "insert 2".to_string())
        .unwrap();
    contract.flush(&mut store);
    (contract, store)
}

#[test]
fn flush_then_reload_sees_committed_values() {
    let (_, store) = populated();
    let reloaded = ContractState::load(&store).unwrap();
    assert_eq!(reloaded.get_string(), "persist me");
    assert_eq!(reloaded.get_vector_index(&store, 0), Ok(11));
    assert_eq!(reloaded.get_vector_index(&store, 1), Ok(22));
    assert_eq!(
        reloaded.get_vector_index(&store, 2),
        Err(StoreError::IndexOutOfRange)
    );
    assert_eq!(
        reloaded.get_unordered_map_value(&store, &"bob.near".to_string()),
        Ok(Some("0x1234".to_string()))
    );
    assert_eq!(
        reloaded.unordered_map_vec_get_ser(&store, &"bob.near".to_string()),
        Ok("[\"insert 1\",\"insert 2\"]".to_string())
    );
}

#[test]
fn committed_then_appended_values_read_in_order() {
    let (_, mut store) = populated();
    let mut reloaded = ContractState::load(&store).unwrap();
    reloaded
        .unordered_map_vec_insert(&store, "bob.near".to_string(), "insert 3".to_string())
        .unwrap();
    assert_eq!(
        reloaded.unordered_map_vec_get_ser(&store, &"bob.near".to_string()),
        Ok("[\"insert 1\",\"insert 2\",\"insert 3\"]".to_string())
    );
    reloaded.vector_push(33);
    assert_eq!(reloaded.get_vector_index(&store, 2), Ok(33));
    reloaded.flush(&mut store);
    let again = ContractState::load(&store).unwrap();
    assert_eq!(again.get_vector_index(&store, 2), Ok(33));
}

#[test]
fn reload_without_mutation_rewrites_identical_metadata() {
    let (_, mut store) = populated();
    let text_key: Vec<u8> = vec![116];
    let vec_meta_key: Vec<u8> = vec![97];
    let elem0 = make_index_key(&vec![97], 0);
    let text_before = store.get(&text_key);
    let meta_before = store.get(&vec_meta_key);
    let elem_before = store.get(&elem0);
    let mut reloaded = ContractState::load(&store).unwrap();
    reloaded.flush(&mut store);
    assert_eq!(store.get(&text_key), text_before);
    assert_eq!(store.get(&vec_meta_key), meta_before);
    assert_eq!(store.get(&elem0), elem_before);
    assert!(text_before.is_some());
    assert!(meta_before.is_some());
    assert!(elem_before.is_some());
}

#[test]
fn strict_reinit_detects_committed_keys() {
    let (_, store) = populated();
    let mut reloaded = ContractState::load(&store).unwrap();
    assert_eq!(
        reloaded.unordered_map_vec_init(&store, "bob.near".to_string()),
        Err(StoreError::AlreadyInitialized)
    );
}

#[test]
fn load_from_empty_store_is_corrupt() {
    let store = FlatStore::new();
    assert!(matches!(
        ContractState::load(&store),
        Err(StoreError::CorruptState)
    ));
}

#[test]
fn missing_committed_element_is_corrupt() {
    let mut store = FlatStore::new();
    let text: Vec<u8> = "hi".as_bytes().to_vec();
    store.set(&vec![116], &text);
    let one = be8(1);
    store.set(&vec![97], &one);
    let loaded = ContractState::load(&store).unwrap();
    assert_eq!(
        loaded.get_vector_index(&store, 0),
        Err(StoreError::CorruptState)
    );
}
