use flatkv::errs::StoreError;
use flatkv::state::ContractState;
use flatkv::store::FlatStore;

#[test]
fn test_change_string_vec() {
    let store = FlatStore::new();
    let mut contract: ContractState = ContractState::default();
    contract.change_string_vec(String::from("Good morning"), 128);
    assert_eq!(contract.get_string(), "Good morning");
    assert_eq!(contract.get_vector_index(&store, 0), Ok(128));
}

#[test]
fn test_vector_push() {
    let store = FlatStore::new();
    let mut contract: ContractState = ContractState::default();
    contract.vector_push(256);
    assert_eq!(contract.get_vector_index(&store, 0), Ok(256));
    contract.vector_push(512);
    assert_eq!(contract.get_vector_index(&store, 1), Ok(512));
    contract.vector_push(1024);
    assert_eq!(contract.get_vector_index(&store, 2), Ok(1024));
}

#[test]
fn vector_get_out_of_range() {
    let store = FlatStore::new();
    let mut contract: ContractState = ContractState::default();
    assert_eq!(
        contract.get_vector_index(&store, 0),
        Err(StoreError::IndexOutOfRange)
    );
    contract.vector_push(256);
    assert_eq!(contract.get_vector_index(&store, 0), Ok(256));
    assert_eq!(
        contract.get_vector_index(&store, 1),
        Err(StoreError::IndexOutOfRange)
    );
}

#[test]
fn test_unordered_map() {
    let store = FlatStore::new();
    let mut contract: ContractState = ContractState::default();
    contract.unordered_map_insert("bob.near".to_string(), "0x1234".to_string());
    assert_eq!(
        contract.get_unordered_map_value(&store, &"bob.near".to_string()),
        Ok(Some("0x1234".to_string()))
    );
    contract.unordered_map_insert("bob.near".to_string(), "0xABCD".to_string());
    assert_eq!(
        contract.get_unordered_map_value(&store, &"bob.near".to_string()),
        Ok(Some("0xABCD".to_string()))
    );
}

#[test]
fn unordered_map_get_absent_is_none() {
    let store = FlatStore::new();
    let mut contract: ContractState = ContractState::default();
    contract.unordered_map_insert("bob.near".to_string(), "0x1234".to_string());
    assert_eq!(
        contract.get_unordered_map_value(&store, &"alice.near".to_string()),
        Ok(None)
    );
}

#[test]
fn test_map_vec() {
    let store = FlatStore::new();
    let mut contract: ContractState = ContractState::default();
    contract
        .unordered_map_vec_init(&store, "bob.near".to_string())
        .unwrap();
    contract
        .unordered_map_vec_insert(&store, "bob.near".to_string(), "insert 1".to_string())
        .unwrap();
    contract
        .unordered_map_vec_insert(&store, "bob.near".to_string(), "insert 2".to_string())
        .unwrap();
    contract
        .unordered_map_vec_insert(&store, "bob.near".to_string(), "insert 3".to_string())
        .unwrap();
    assert_eq!(
        contract.unordered_map_vec_get_ser(&store, &"bob.near".to_string()),
        Ok("[\"insert 1\",\"insert 2\",\"insert 3\"]".to_string())
    );
}

#[test]
fn test_unordered_map_vec_extend() {
    let store = FlatStore::new();
    let mut contract: ContractState = ContractState::default();
    contract
        .unordered_map_vec_init(&store, "bob.near".to_string())
        .unwrap();
    contract
        .unordered_map_vec_insert(&store, "bob.near".to_string(), "0xFirstValue".to_string())
        .unwrap();
    let vec: Vec<String> = vec![
        "0xSecondValue".to_string(),
        "0xThirdValue".to_string(),
        "0xFourthValue".to_string(),
    ];
    contract
        .unordered_map_vec_extend(&store, "bob.near".to_string(), vec)
        .unwrap();
    assert_eq!(
        contract.unordered_map_vec_get_ser(&store, &"bob.near".to_string()),
        Ok("[\"0xFirstValue\",\"0xSecondValue\",\"0xThirdValue\",\"0xFourthValue\"]".to_string())
    );
}

#[test]
fn strict_reinit_fails() {
    let store = FlatStore::new();
    let mut contract: ContractState = ContractState::default();
    assert_eq!(
        contract.unordered_map_vec_init(&store, "bob.near".to_string()),
        Ok(())
    );
    assert_eq!(
        contract.unordered_map_vec_init(&store, "bob.near".to_string()),
        Err(StoreError::AlreadyInitialized)
    );
}

#[test]
fn nested_access_uninitialized_fails() {
    let store = FlatStore::new();
    let mut contract: ContractState = ContractState::default();
    assert_eq!(
        contract.unordered_map_vec_insert(&store, "bob.near".to_string(), "x".to_string()),
        Err(StoreError::NotInitialized)
    );
    assert_eq!(
        contract.unordered_map_vec_extend(&store, "bob.near".to_string(), vec!["x".to_string()]),
        Err(StoreError::NotInitialized)
    );
    assert_eq!(
        contract.unordered_map_vec_get_ser(&store, &"bob.near".to_string()),
        Err(StoreError::NotInitialized)
    );
}

#[test]
fn nested_map_stub_constructible() {
    let mut contract: ContractState = ContractState::default();
    contract.unordered_map_map_int("bob.near".to_string());
}

#[test]
fn init_seeds_first_value() {
    let store = FlatStore::new();
    let contract = ContractState::init("greetings".to_string(), 7);
    assert_eq!(contract.get_string(), "greetings");
    assert_eq!(contract.get_vector_index(&store, 0), Ok(7));
    assert_eq!(
        contract.get_vector_index(&store, 1),
        Err(StoreError::IndexOutOfRange)
    );
}
