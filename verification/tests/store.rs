use credstore::crypto::derive_key;
use credstore::store::{CredentialStore, LoadError};

#[test]
fn derive_key_is_256_bits_and_deterministic() {
    let k1 = derive_key("hunter2");
    let k2 = derive_key("hunter2");
    let k3 = derive_key("wrong");
    assert_eq!(k1.len(), 32);
    assert_eq!(k1, k2);
    assert_ne!(k1, k3);
}

#[test]
fn derive_key_is_sha256_of_the_passphrase() {
    let expected: [u8; 32] = [
        0xba, 0x78, 0x16, 0xbf, 0x8f, 0x01, 0xcf, 0xea, 0x41, 0x41, 0x40, 0xde, 0x5d, 0xae, 0x22,
        0x23, 0xb0, 0x03, 0x61, 0xa3, 0x96, 0x17, 0x7a, 0x9c, 0xb4, 0x10, 0xff, 0x61, 0xf2, 0x00,
        0x15, 0xad,
    ];
    assert_eq!(derive_key("abc"), expected.to_vec());
}

#[test]
fn empty_store_bootstrap() {
    let key = derive_key("hunter2");
    let store = CredentialStore::load(&None, &key).expect("no file means an empty store");
    assert!(store.enumerate().is_empty());
    assert!(store.lookup(&"email".to_string()).is_none());
}

#[test]
fn first_upsert_round_trips_through_the_blob() {
    let key = derive_key("hunter2");
    let mut store = CredentialStore::load(&None, &key).unwrap();
    store.upsert("email".to_string(), "s3cr3t".to_string());
    let blob = store.sealed_blob(&key).expect("a small store seals");
    let reloaded = CredentialStore::load(&Some(blob), &key).expect("the blob authenticates");
    assert_eq!(reloaded.lookup(&"email".to_string()), Some("s3cr3t".to_string()));
    assert_eq!(reloaded.enumerate(), vec!["email".to_string()]);
}

#[test]
fn idempotent_overwrite() {
    let mut store = CredentialStore::new();
    store.upsert("svc".to_string(), "a".to_string());
    store.upsert("svc".to_string(), "b".to_string());
    assert_eq!(store.lookup(&"svc".to_string()), Some("b".to_string()));
    let names = store.enumerate();
    assert_eq!(names.iter().filter(|n| n.as_str() == "svc").count(), 1);
    assert_eq!(names.len(), 1);
}

#[test]
fn blob_is_ciphertext_plus_tag() {
    let key = derive_key("hunter2");
    let mut store = CredentialStore::new();
    store.upsert("email".to_string(), "s3cr3t".to_string());
    let blob = store.sealed_blob(&key).unwrap();
    let plaintext = "{\"passwords\":{\"email\":\"s3cr3t\"}}".as_bytes();
    assert_eq!(blob.len(), plaintext.len() + 16);
    assert_ne!(&blob[..plaintext.len()], plaintext);
}

#[test]
fn tamper_detection_every_bit() {
    let key = derive_key("hunter2");
    let mut store = CredentialStore::new();
    store.upsert("e".to_string(), "s".to_string());
    let blob = store.sealed_blob(&key).unwrap();
    for byte in 0..blob.len() {
        for bit in 0..8 {
            let mut bad = blob.clone();
            bad[byte] ^= 1u8 << bit;
            let r = CredentialStore::load(&Some(bad), &key);
            assert!(matches!(r, Err(LoadError::AuthenticationFailure)));
        }
    }
}

#[test]
fn truncated_blob_is_rejected() {
    let key = derive_key("hunter2");
    let mut store = CredentialStore::new();
    store.upsert("e".to_string(), "s".to_string());
    let blob = store.sealed_blob(&key).unwrap();
    let truncated = blob[..blob.len() - 1].to_vec();
    assert!(CredentialStore::load(&Some(truncated), &key).is_err());
    assert!(CredentialStore::load(&Some(Vec::new()), &key).is_err());
}

#[test]
fn wrong_key_rejection() {
    let k1 = derive_key("P1");
    let k2 = derive_key("P2");
    let mut store = CredentialStore::new();
    store.upsert("svc".to_string(), "a".to_string());
    let blob = store.sealed_blob(&k1).unwrap();
    let r = CredentialStore::load(&Some(blob), &k2);
    assert!(matches!(r, Err(LoadError::AuthenticationFailure)));
}

#[test]
fn wrong_passphrase_rejection_scenario() {
    let key = derive_key("hunter2");
    let mut store = CredentialStore::load(&None, &key).unwrap();
    store.upsert("email".to_string(), "s3cr3t".to_string());
    let blob = store.sealed_blob(&key).unwrap();
    assert!(!blob.is_empty());

    let again = CredentialStore::load(&Some(blob.clone()), &derive_key("hunter2")).unwrap();
    assert_eq!(again.lookup(&"email".to_string()), Some("s3cr3t".to_string()));

    let r = CredentialStore::load(&Some(blob), &derive_key("wrong"));
    assert!(matches!(r, Err(LoadError::AuthenticationFailure)));
}

#[test]
fn lenient_fallback_on_undecodable_plaintext() {
    let garbage = CredentialStore::from_plaintext(&b"not the store format".to_vec());
    assert!(garbage.enumerate().is_empty());

    let invalid_utf8 = CredentialStore::from_plaintext(&vec![0xff, 0xfe, 0x20]);
    assert!(invalid_utf8.enumerate().is_empty());

    let wellformed =
        CredentialStore::from_plaintext(&b"{\"passwords\":{\"a\":\"1\"}}".to_vec());
    assert_eq!(wellformed.lookup(&"a".to_string()), Some("1".to_string()));
}

#[test]
fn duplicate_accounts_in_a_plaintext_keep_the_last_secret() {
    let s = CredentialStore::from_plaintext(
        &b"{\"passwords\":{\"a\":\"1\",\"a\":\"2\"}}".to_vec(),
    );
    assert_eq!(s.lookup(&"a".to_string()), Some("2".to_string()));
    assert_eq!(s.enumerate().len(), 1);
}

#[test]
fn enumerate_lists_each_account_once() {
    let mut store = CredentialStore::new();
    store.upsert("a".to_string(), "1".to_string());
    store.upsert("b".to_string(), "2".to_string());
    store.upsert("a".to_string(), "3".to_string());
    let mut names = store.enumerate();
    names.sort();
    assert_eq!(names, vec!["a".to_string(), "b".to_string()]);
}

#[test]
fn empty_account_and_secret_are_accepted() {
    let key = derive_key("hunter2");
    let mut store = CredentialStore::new();
    store.upsert(String::new(), String::new());
    let blob = store.sealed_blob(&key).unwrap();
    let back = CredentialStore::load(&Some(blob), &key).unwrap();
    assert_eq!(back.lookup(&String::new()), Some(String::new()));
}

#[test]
fn several_entries_survive_a_save_and_reload() {
    let key = derive_key("hunter2");
    let mut store = CredentialStore::new();
    store.upsert("mail".to_string(), "one".to_string());
    store.upsert("bank".to_string(), "two".to_string());
    store.upsert("shop".to_string(), "three".to_string());
    store.upsert("bank".to_string(), "four".to_string());
    let blob = store.sealed_blob(&key).unwrap();
    let back = CredentialStore::load(&Some(blob), &key).unwrap();
    assert_eq!(back.lookup(&"mail".to_string()), Some("one".to_string()));
    assert_eq!(back.lookup(&"bank".to_string()), Some("four".to_string()));
    assert_eq!(back.lookup(&"shop".to_string()), Some("three".to_string()));
    assert_eq!(back.enumerate().len(), 3);
}

#[test]
fn non_ascii_accounts_and_secrets_round_trip() {
    let key = derive_key("contraseña");
    let mut store = CredentialStore::new();
    store.upsert("naïve".to_string(), "pässwörd™ 🔑".to_string());
    let blob = store.sealed_blob(&key).unwrap();
    let back = CredentialStore::load(&Some(blob), &key).unwrap();
    assert_eq!(
        back.lookup(&"naïve".to_string()),
        Some("pässwörd™ 🔑".to_string())
    );
}
