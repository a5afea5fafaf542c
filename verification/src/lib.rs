//! Loopback HTTP relay for players that cannot attach arbitrary HTTP headers to
//! their own network requests.
//!
//! VLC (and Android external intents) only expose `Referer` / `User-Agent`
//! overrides, so a DASH stream whose segments are authenticated with a signed
//! `Cookie` cannot be handed to VLC directly. To play such a stream the player is
//! given `http://127.0.0.1:<port><path>`, an address of the relay, instead of the
//! original URL.
//!
//! The player fetches the manifest through the relay, then resolves each relative
//! segment URL against the manifest URL, which keeps landing on the relay. Every
//! request is re-issued against the original origin with the required headers
//! attached, and the answer is streamed back byte-for-byte, so seeking and quality
//! selection behave as they would against the origin directly.
//!
//! This library decides and computes; sockets, timeouts and the upstream client are
//! its caller's. For each connection the caller
//!
//! 1. reads up to each line feed and hands what it read to [`HeadReader::feed`], until
//!    that gives a head;
//! 2. hands the head to [`VlcRelay::handle_request`] and does what the [`Decision`] says;
//! 3. writes what [`response_head`] makes of the upstream response;
//! 4. writes each chunk that [`Body::pass`] lets through, while [`Body::wants_more`].

pub mod answers;
pub mod calls;
pub mod head;
pub mod laws;
pub mod meaning;
pub mod origin;
pub mod relay;
pub mod requests;
pub mod response;
pub mod text;

pub use head::{header_value, parse_request_line, HeadReader, MAX_HEAD_BYTES};
pub use origin::{parse_origin, InvalidOrigin, UrlParts};
pub use relay::{start, Decision, UpstreamRequest, VlcRelay};
pub use response::{response_head, simple_response, Body};
