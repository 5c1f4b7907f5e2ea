//! Accounts, sessions and the request and response records around them.
use vstd::prelude::*;

verus! {

#[derive(Clone, Debug)]
pub struct User {
    pub id: String,
    pub email: String,
    pub username: String,
    pub password_hash: String,
    pub created_at: Option<String>,
    pub updated_at: Option<String>,
}

impl User {
    /// A user not yet stored: no timestamps.
    pub fn new(id: String, email: String, username: String, password_hash: String) -> (r: Self)
        ensures
            r.id == id,
            r.email == email,
            r.username == username,
            r.password_hash == password_hash,
            r.created_at.is_none(),
            r.updated_at.is_none(),
    {
        User { id, email, username, password_hash, created_at: None, updated_at: None }
    }
}

/// Token claims: the user id and the expiry time in seconds since the epoch.
#[derive(Clone, Debug)]
pub struct Claims {
    pub sub: String,
    pub exp: usize,
}

#[derive(Clone, Debug)]
pub struct LoginRequest {
    pub email: String,
    pub password: String,
}

#[derive(Clone, Debug)]
pub struct SignupRequest {
    pub email: String,
    pub username: String,
    pub password: String,
}

#[derive(Clone, Debug)]
pub struct UserResponse {
    pub id: String,
    pub email: String,
    pub username: String,
}

#[derive(Clone, Debug)]
pub struct AuthResponse {
    pub user: UserResponse,
    pub token: String,
}

#[derive(Clone, Debug)]
pub struct DbSession {
    pub id: String,
    pub user_id: String,
    pub token: String,
    pub expires_at: String,
    pub created_at: String,
}

/// Query options of the elevation endpoints.
#[derive(Clone, Copy, Debug)]
pub struct WindowSizeQuery {
    pub window_size: Option<u32>,
    pub smoothed: Option<bool>,
}

} // verus!
