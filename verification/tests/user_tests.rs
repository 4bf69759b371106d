use orderbook::auth::{hash_password, signin, signup, verify_password};
use orderbook::user::{User, UserStore};

#[test]
fn test_user_creation() {
    let username = "raunit".to_string();
    let email = "raunit@example.com".to_string();
    let password_hash = "hashed_password_123".to_string();

    let user = User::new(username.clone(), email.clone(), password_hash.clone());
    assert_eq!(user.username, username);
    assert_eq!(user.email, email);
    assert_eq!(user.password_hash, password_hash);

    assert!(user.id != 0);
}

#[test]
fn test_unique_user_ids() {
    let user1 = User::new(
        "vidhi".to_string(),
        "vidhi@example.com".to_string(),
        "vidhi1".to_string(),
    );
    let user2 = User::new(
        "rishi".to_string(),
        "rishi@example.com".to_string(),
        "rishi2".to_string(),
    );

    assert_ne!(user1.id, user2.id);
}

#[test]
fn test_password_hashing() {
    let password = "my_secure_password";
    let hash = hash_password(password).unwrap();
    assert!(verify_password(password, &hash).unwrap());
    assert!(!verify_password("wrong_password", &hash).unwrap());
}

#[test]
fn test_signup_signin_roundtrip() {
    let mut store = UserStore::new();
    let user = signup(&mut store, "sona", "sona@example.com", "raunit45").unwrap();
    assert_eq!(user.username, "sona");
    assert_eq!(user.email, "sona@example.com");

    let back = signin(&store, "sona", "raunit45").unwrap();
    assert_eq!(back.id, user.id);
    assert!(signin(&store, "sona", "wrong_password").is_err());
    assert!(signin(&store, "nobody", "raunit45").is_err());

    let again = signup(&mut store, "sona", "other@example.com", "longenough");
    assert!(again.is_err());
    assert!(signup(&mut store, "", "a@example.com", "longenough").is_err());
    assert!(signup(&mut store, "newuser", "a@example.com", "short").is_err());
}
