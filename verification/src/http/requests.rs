//! Which requests are let through, and how the others are answered.
//!
//! While the first scan runs there is nothing to serve yet. A podcast app that
//! is told so tries again; one that is told that a feed does not exist may drop
//! it.

use vstd::prelude::*;
use crate::http::{feed_key, feed_key_of, is_same_origin, is_slug, same_origin, valid_feed_id, valid_slug, AppError};
use crate::index::capability::is_feed_id;
use crate::text::opt_str;

verus! {

/// Seconds after which a client is asked to try again while the first scan runs.
pub const RETRY_AFTER_SECS: u32 = 5;

/// Why a request is not let through.
#[derive(Debug, Clone, Copy, PartialEq, Eq, Structural)]
pub enum Refusal {
    /// The first scan is not over. That is no failure, and not counted as one.
    Scanning,
    /// The request fails.
    Failed(AppError),
}

impl Refusal {
    /// The status that the client gets.
    pub fn status(self) -> (r: u16)
        ensures
            r == match self {
                Refusal::Scanning => 503u16,
                Refusal::Failed(AppError::NotFound) => 404u16,
                Refusal::Failed(AppError::Forbidden) => 403u16,
                Refusal::Failed(AppError::Internal) => 500u16,
            },
    {
        match self {
            Refusal::Scanning => 503,
            Refusal::Failed(e) => e.status(),
        }
    }
}

/// Lets a request for audio or a cover through: the first scan is over, and the id can be one.
pub fn capability_request(ready: bool, feed_id: &str) -> (r: Result<(), Refusal>)
    ensures
        r == if !ready {
            Err::<(), Refusal>(Refusal::Scanning)
        } else if !is_feed_id(feed_id@) {
            Err(Refusal::Failed(AppError::NotFound))
        } else {
            Ok(())
        },
{
    if !ready {
        Err(Refusal::Scanning)
    } else if !valid_feed_id(feed_id) {
        Err(Refusal::Failed(AppError::NotFound))
    } else {
        Ok(())
    }
}

/// Lets a request for a feed through, and gives the id in its address.
pub fn feed_request(ready: bool, id_xml: &str) -> (r: Result<String, Refusal>)
    ensures
        match r {
            Ok(id) => ready && feed_key_of(id_xml@) == Some(id@),
            Err(Refusal::Scanning) => !ready,
            Err(Refusal::Failed(e)) => ready && feed_key_of(id_xml@) is None && e == AppError::NotFound,
        },
{
    if !ready {
        return Err(Refusal::Scanning);
    }
    match feed_key(id_xml) {
        Some(id) => Ok(id),
        None => Err(Refusal::Failed(AppError::NotFound)),
    }
}

/// Lets a request that changes the book `slug` through: it comes from the server's own pages, and
/// the slug can be one.
pub fn change_request(
    fetch_site: Option<&str>,
    request_origin: Option<&str>,
    base_url: &str,
    slug: &str,
) -> (r: Result<(), AppError>)
    ensures
        r == if !is_same_origin(opt_str(fetch_site), opt_str(request_origin), base_url@) {
            Err::<(), AppError>(AppError::Forbidden)
        } else if !is_slug(slug@) {
            Err(AppError::NotFound)
        } else {
            Ok(())
        },
{
    if !same_origin(fetch_site, request_origin, base_url) {
        Err(AppError::Forbidden)
    } else if !valid_slug(slug) {
        Err(AppError::NotFound)
    } else {
        Ok(())
    }
}

} // verus!
