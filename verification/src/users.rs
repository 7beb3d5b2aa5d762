//! What users send to sign up and to log in, and what they are told.

use crate::ident::Id;
use vstd::prelude::*;

verus! {

/// A request to sign up.
#[derive(Debug)]
pub struct UserSignup {
    pub name: String,
    pub password: String,
}

/// A request to log in.
#[derive(Debug)]
pub struct UserLogin {
    pub identifier: UserIdentifier,
    pub password: String,
    pub totp: Option<String>,
}

/// How a user names themself when logging in.
#[derive(Debug)]
pub enum UserIdentifier {
    Uuid(Id),
    Name(String),
}

/// What others may know of a user.
#[derive(Debug)]
pub struct UserInfo {
    pub uuid: Id,
    pub name: String,
}

/// A short notice of how a request went.
#[derive(Debug)]
pub struct StatusNotice {
    pub status: String,
}

} // verus!
