//! Access-control and address-classification layer for a server directory
//! process: authentication of community-membership tokens (split, hash,
//! constant-time compare) and classification of network endpoints against
//! configured address rules (bans and port-forward-check exemptions).

pub mod addr;
pub mod config;
pub mod token;
