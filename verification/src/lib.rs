//! Peer-to-peer roaming for goose agents.
//!
//! A node has a key whose public half is its endpoint id. It is reached through
//! relays, and it is found by a connection card or a signed invite. What it
//! decides stands here, proved: what an invite is worth, who is admitted, where
//! the messages of a shared session go, how the sessions of several nodes make
//! one list, and what of a host's files may be browsed. The transport, files and
//! terminals stand outside and are asked and told in plain values.
//!
//! * [`identity`], [`card`], [`invite`], [`relay`]: who a node is, how to reach
//!   it, and what it grants.
//! * [`trust`], [`acceptance`], [`access`], [`node`]: who is admitted.
//! * [`broker`], [`shared_session`], [`client`]: sharing and driving a session.
//! * [`federation`], [`supervisor`], [`browse`]: remote sessions and files.
//! * [`web`], [`roam`], [`frame`]: the browser, the command line, the wire.
//! * [`text`], [`text_set`], [`lists`], [`digits`], [`ranking`], [`instant`]:
//!   what the others are built from.

pub mod acceptance;
pub mod access;
pub mod base64url;
pub mod broker;
pub mod browse;
pub mod card;
pub mod client;
pub mod digits;
pub mod error;
pub mod federation;
pub mod frame;
pub mod identity;
pub mod instant;
pub mod invite;
pub mod lists;
pub mod node;
pub mod ranking;
pub mod relay;
pub mod relay_url;
pub mod roam;
pub mod scope;
pub mod sha256;
pub mod shared_session;
pub mod supervisor;
pub mod text;
pub mod text_set;
pub mod trust;
pub mod web;

pub use acceptance::AcceptBook;
pub use access::AccessBooks;
pub use broker::{Refused, Role, Route, Router, SessionBroker, SubscriberId};
pub use card::ConnectionCard;
pub use error::RoamingError;
pub use identity::{parse_endpoint_id, EndpointId, SecretKey, Signature};
pub use invite::{EndpointAddr, InviteClaims, SignedInvite};
pub use node::{ClientHello, HostAck, InviteOptions, RoamingConfig, ROAMING_ACP_ALPN};
pub use relay::{RelayEntry, RelaySettings};
pub use scope::Scope;
pub use trust::{TrustBook, TrustPolicy};
