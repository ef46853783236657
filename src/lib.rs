//! Loading of BKS keystores, the password-keyed and integrity-protected
//! binary containers that hold a hub's device credentials, and the framing
//! of the hub's command protocol.

pub mod bks;
pub mod protocol;
