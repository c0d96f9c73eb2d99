use rooch_indexer::keystore::{BaseKeystore, FileBasedKeystore, InMemKeystore, Keystore};

fn base() -> BaseKeystore {
    BaseKeystore {
        addresses: vec!["0x1".to_string(), "0x2".to_string()],
        password_hash: "h0".to_string(),
        is_password_empty: true,
    }
}

#[test]
fn in_memory_keystore_description() {
    let k = Keystore::InMem(InMemKeystore { keystore: base() });
    assert_eq!(k.describe(), "Keystore Type : Rooch InMem\n");
    assert_eq!(k.addresses(), vec!["0x1".to_string(), "0x2".to_string()]);
}

#[test]
fn file_keystore_description_shows_path() {
    let k = Keystore::File(FileBasedKeystore { keystore: base(), path: "/tmp/k.keystore".to_string() });
    assert_eq!(k.describe(), "Keystore Type : Rooch File\nKeystore Path : \"/tmp/k.keystore\"");
}

#[test]
fn password_hash_and_indicator_are_set_together() {
    let mut k = Keystore::File(FileBasedKeystore { keystore: base(), path: "p".to_string() });
    assert!(k.get_if_password_is_empty());
    k.set_password_hash_with_indicator("h1".to_string(), false);
    assert_eq!(k.get_password_hash(), "h1");
    assert!(!k.get_if_password_is_empty());
    assert_eq!(k.addresses().len(), 2);
}
