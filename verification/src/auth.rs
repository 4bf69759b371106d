use vstd::prelude::*;

use crate::errors::ApiError;
use crate::user::{User, UserStore};

verus! {

use vstd::string::StringSliceAdditionalSpecFns;

/// The claims a bearer token carries: subject (the user id), username, and
/// expiry as a Unix timestamp.
#[derive(Debug, Clone, PartialEq, Eq)]
pub struct Claims {
    pub sub: String,
    pub username: String,
    pub exp: usize,
}

/// Whether bcrypt accepts `password` against `hash`: bcrypt's check
/// re-derives the hash from the password and the salt and cost embedded in
/// `hash`, so the outcome depends on these two strings alone.
pub uninterp spec fn bcrypt_matches(password: Seq<char>, hash: Seq<char>) -> bool;

/// Relies on bcrypt::hash with the crate's default cost: a fresh salted
/// hash of the password, which bcrypt::verify accepts for that same
/// password.
#[verifier::external_body]
pub fn hash_password(password: &str) -> (r: Result<String, String>)
    ensures
        r matches Ok(h) ==> bcrypt_matches(password@, h@),
{
    bcrypt::hash(password, bcrypt::DEFAULT_COST).map_err(
        |e| format!("Failed to hash password: {}", e),
    )
}

/// Relies on bcrypt::verify: deterministic in the password and the hash,
/// failing only on a malformed hash.
#[verifier::external_body]
pub fn verify_password(password: &str, hash: &str) -> (r: Result<bool, String>)
    ensures
        r matches Ok(b) ==> b == bcrypt_matches(password@, hash@),
{
    bcrypt::verify(password, hash).map_err(|e| format!("Failed to verify password: {}", e))
}

/// Register a new account: reject empty fields, short passwords, and taken
/// usernames; otherwise hash the password and store the user. The stored
/// hash verifies against the password that was given.
pub fn signup(store: &mut UserStore, username: &str, email: &str, password: &str) -> (r: Result<
    User,
    ApiError,
>)
    requires
        old(store).wf(),
    ensures
        final(store).wf(),
        username@.len() == 0 || email@.len() == 0 || password@.len() == 0 ==> (r matches Err(
            ApiError::BadRequest(_),
        )) && *final(store) == *old(store),
        r matches Ok(u) ==> {
            &&& u.username@ == username@
            &&& u.email@ == email@
            &&& bcrypt_matches(password@, u.password_hash@)
            &&& !old(store).has_username(username@)
            &&& final(store).users@ == old(store).users@.push(u)
            &&& final(store).has_username(username@)
        },
        old(store).has_username(username@) ==> r is Err && *final(store) == *old(store),
        r is Err ==> *final(store) == *old(store),
        username@.len() > 0 && email@.len() > 0 && password@.len() > 0
            && (password.spec_bytes().len() as usize) < 6 ==> (r matches Err(ApiError::BadRequest(_)))
            && *final(store) == *old(store),
        username@.len() > 0 && email@.len() > 0 && password@.len() > 0
            && (password.spec_bytes().len() as usize) >= 6 && !old(store).has_username(username@) ==> (r is Ok
            || (r matches Err(ApiError::InternalError(_)))),
{
    if username.is_empty() || email.is_empty() || password.is_empty() {
        return Err(
            ApiError::BadRequest("Username, email, and password are required".to_owned()),
        );
    }
    if password.len() < 6 {
        return Err(ApiError::BadRequest("Password must be at least 6 characters".to_owned()));
    }
    let password_hash: String = match hash_password(password) {
        Ok(h) => h,
        Err(e) => {
            return Err(ApiError::InternalError(e));
        },
    };
    let user = User::new(username.to_owned(), email.to_owned(), password_hash);
    let uname: String = username.to_owned();
    if store.find_user(&uname).is_some() {
        return Err(ApiError::BadRequest("Username already exists".to_owned()));
    }
    let result = User {
        id: user.id,
        username: user.username.clone(),
        email: user.email.clone(),
        password_hash: user.password_hash.clone(),
    };
    proof {
        assert(result == user);
    }
    store.insert_user(user);
    Ok(result)
}

/// Authenticate a user: the stored account is returned exactly when the
/// username is registered and bcrypt accepts the password against its
/// stored hash.
pub fn signin(store: &UserStore, username: &str, password: &str) -> (r: Result<User, ApiError>)
    ensures
        username@.len() == 0 || password@.len() == 0 ==> r matches Err(ApiError::BadRequest(_)),
        !store.has_username(username@) && username@.len() > 0 && password@.len() > 0 ==> r matches
            Err(ApiError::Unauthorized(_)),
        r matches Ok(u) ==> store.has_username(username@) && u.username@ == username@
            && bcrypt_matches(password@, u.password_hash@) && exists|i: int|
            0 <= i < store.users@.len() && store.users@[i] == u,
{
    if username.is_empty() || password.is_empty() {
        return Err(ApiError::BadRequest("Username and password are required".to_owned()));
    }
    let uname: String = username.to_owned();
    let user: User = match store.find_user(&uname) {
        Some(u) => User {
            id: u.id,
            username: u.username.clone(),
            email: u.email.clone(),
            password_hash: u.password_hash.clone(),
        },
        None => {
            return Err(ApiError::Unauthorized("Invalid credentials".to_owned()));
        },
    };
    let valid: bool = match verify_password(password, user.password_hash.as_str()) {
        Ok(v) => v,
        Err(e) => {
            return Err(ApiError::InternalError(e));
        },
    };
    if !valid {
        return Err(ApiError::Unauthorized("Invalid credentials".to_owned()));
    }
    Ok(user)
}

} // verus!
