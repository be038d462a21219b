//! Trust books and accepted keys.

use goose_roaming::trust::{TrustFile, TrustParts};
use goose_roaming::{AcceptBook, Scope, SecretKey, TrustBook, TrustPolicy};

#[test]
fn bearer_allows_all() {
    let book = TrustBook::new(TrustPolicy::Bearer);
    assert!(book.is_allowed(&SecretKey::generate().public()));
}

#[test]
fn allowlist_gates() {
    let mut book = TrustBook::new(TrustPolicy::Allowlist);
    let key = SecretKey::generate().public();
    assert!(!book.is_allowed(&key));
    book.allow(&key);
    assert!(book.is_allowed(&key));
}

#[test]
fn single_use_redeems_once() {
    let mut book = TrustBook::default();
    assert!(book.redeem_single_use("tok"));
    assert!(!book.redeem_single_use("tok"));
    assert!(book.is_token_revoked("tok"));
}

#[test]
fn revocation() {
    let mut book = TrustBook::default();
    let key = SecretKey::generate().public();
    book.revoke_key(&key);
    assert!(book.is_key_revoked(&key));
}

#[test]
fn persists_pairing_across_reload() {
    let key = SecretKey::generate().public();
    let saved: TrustParts = {
        let mut book = TrustBook::new(TrustPolicy::Allowlist);
        assert!(book.redeem_single_use("tok"));
        book.allow(&key);
        book.parts()
    };
    let file: TrustFile<String> = TrustFile::Book(TrustBook::from_parts(&saved));
    let reloaded = TrustBook::load(file).unwrap();
    // Pinned key survives, and the consumed single-use token stays consumed.
    assert!(reloaded.is_allowed(&key));
    assert!(reloaded.is_token_revoked("tok"));
    assert_eq!(reloaded.allowed_keys(), vec![key.to_text()]);
}

#[test]
fn set_policy_preserves_state() {
    let mut book = TrustBook::new(TrustPolicy::Allowlist);
    let key = SecretKey::generate().public();
    book.allow(&key);
    book.set_policy(TrustPolicy::Bearer);
    // Policy changed, but the pinned key is retained.
    assert_eq!(book.allowed_keys(), vec![key.to_text()]);
}

#[test]
fn key_lists_are_sorted_and_without_repetition() {
    let mut book = TrustBook::default();
    let mut want = Vec::new();
    for seed in [5u8, 1, 9, 5, 3] {
        let key = SecretKey::from_bytes(&[seed; 32]).public();
        book.allow(&key);
        book.revoke_key(&key);
        if !want.contains(&key.to_text()) {
            want.push(key.to_text());
        }
    }
    want.sort();
    assert_eq!(book.allowed_keys(), want);
    assert_eq!(book.revoked_key_list(), want);
}

#[test]
fn texts_are_ordered_as_strings_are() {
    let mut texts: Vec<String> = ["b", "a", "", "ab", "é", "z", "\u{ffff}", "\u{10000}", "aa", "A"]
        .iter()
        .map(|s| s.to_string())
        .collect();
    let book = TrustBook::from_parts(&TrustParts {
        policy: TrustPolicy::Bearer,
        allowed: texts.clone(),
        revoked_keys: vec![],
        revoked_tokens: vec!["t".to_string(), "t".to_string()],
    });
    texts.sort();
    assert_eq!(book.allowed_keys(), texts);
    assert_eq!(book.parts().revoked_tokens, vec!["t"]);
    assert!(book.is_token_revoked("t"));
    assert!(!book.is_token_revoked("T"));
}

#[test]
fn files_that_hold_no_book_give_an_empty_one() {
    for file in [TrustFile::<String>::Unreadable, TrustFile::Missing] {
        let book = TrustBook::load(file).unwrap();
        assert_eq!(book.policy, TrustPolicy::Bearer);
        assert!(book.allowed_keys().is_empty());
        assert!(book.revoked_key_list().is_empty());
    }
    match TrustBook::load(TrustFile::Failed("denied".to_string())) {
        Err(e) => assert_eq!(e, "denied"),
        Ok(_) => panic!("a failure was not reported"),
    }
}

#[test]
fn revoked_tokens_cannot_be_redeemed() {
    let mut book = TrustBook::default();
    book.revoke_token("tok");
    assert!(!book.redeem_single_use("tok"));
    assert!(book.redeem_single_use("other"));
}

#[test]
fn unaccepted_key_is_rejected() {
    let book = AcceptBook::new();
    let key = SecretKey::generate().public();
    assert_eq!(book.authorize(&key), Err("not_allowlisted".to_string()));
}

#[test]
fn accepted_scope_is_honored() {
    let mut book = AcceptBook::default();
    let key = SecretKey::generate().public();
    let other = SecretKey::generate().public();
    book.accept(&key, Scope::Observe);
    assert_eq!(book.authorize(&key), Ok(Scope::Observe));
    assert!(book.authorize(&other).is_err());
    book.accept(&key, Scope::Control);
    assert_eq!(book.authorize(&key), Ok(Scope::Control));
    assert_eq!(book.accepted_keys(), vec![key.to_text()]);
}

#[test]
fn revoked_keys_can_be_accepted_again() {
    let mut book = AcceptBook::new();
    let key = SecretKey::generate().public();
    let kept = SecretKey::generate().public();
    book.accept(&key, Scope::Control);
    book.accept(&kept, Scope::Attach);
    book.revoke(&key);
    assert!(book.authorize(&key).is_err());
    assert_eq!(book.authorize(&kept), Ok(Scope::Attach));
    book.accept(&key, Scope::Attach);
    assert_eq!(book.authorize(&key), Ok(Scope::Attach));
    let mut want = vec![key.to_text(), kept.to_text()];
    want.sort();
    assert_eq!(book.accepted_keys(), want);
}
