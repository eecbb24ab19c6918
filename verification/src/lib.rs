//! Search over local coding-agent conversation histories.
//!
//! The library normalizes the on-disk transcripts of several coding-agent
//! applications into a common record model, keeps them in a relational
//! store paired with an inverted full-text index, and answers fielded
//! queries over both. Filesystem enumeration and environment probing live
//! in the surrounding binary; everything here is pure logic over plain
//! values and is verified.

use vstd::prelude::*;

pub mod connectors;
pub mod index;
pub mod indexer;
pub mod json;
pub mod laws;
pub mod model;
pub mod paths;
pub mod sort;
pub mod store;
pub mod text;
pub mod time;
pub mod watch;

verus! {

/// Relies on dirs::home_dir: the user's home directory, where the
/// platform names one; nothing is promised of the value.
#[verifier::external_body]
pub fn home_dir() -> (r: Option<String>) {
    dirs::home_dir().and_then(|p| p.into_os_string().into_string().ok())
}

/// Relies on dirs::data_dir: the platform data directory, where the
/// platform names one; nothing is promised of the value.
#[verifier::external_body]
pub fn data_dir() -> (r: Option<String>) {
    dirs::data_dir().and_then(|p| p.into_os_string().into_string().ok())
}

/// Relies on directories::ProjectDirs::from, data_dir: this tool's
/// per-user data directory, where the platform names one; nothing is
/// promised of the value.
#[verifier::external_body]
fn platform_data_dir() -> (r: Option<String>) {
    directories::ProjectDirs::from("com", "coding-agent-search", "coding-agent-search").map(
        |d| d.data_dir().to_string_lossy().into_owned(),
    )
}

/// The store file under the platform data directory, or the bare file
/// name where the platform names no such directory: always a path
/// ending in the store's file name.
pub fn default_db_path() -> (r: String)
    ensures
        "agent_search.db"@.is_suffix_of(r@),
{
    proof {
        reveal_strlit("agent_search.db");
    }
    match platform_data_dir() {
        Some(d) => {
            let p = crate::paths::join_path(d.as_str(), "agent_search.db");
            proof {
                assert("agent_search.db"@.is_suffix_of(p@));
            }
            p
        },
        None => "agent_search.db".to_owned(),
    }
}

} // verus!
