//! A registry of email accounts and the services each one is enrolled in.

pub mod keyed;
pub mod account;
pub mod manager;

pub use keyed::KeyedVec;
pub use account::{AccountView, EmailAccount};
pub use manager::EmailManager;
