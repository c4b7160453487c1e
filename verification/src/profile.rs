//! Saved profiles, and bringing them up to date.
//!
//! Profiles carry an explicit schema version and are migrated forward on load. A profile is
//! a user's tuning work; silently failing to load one after an update is not acceptable.
use crate::graph::{Graph, GraphView};
use crate::text::Text;
use vstd::prelude::*;

verus! {

/// Schema version of profiles written by this build.
pub const CURRENT_SCHEMA: u32 = 1;

/// A saved fan-control profile.
#[derive(Debug)]
pub struct Profile {
    /// Schema version this document was written with.
    pub schema: u32,
    pub name: String,
    pub graph: Graph,
}

/// A profile, as contracts speak of it.
#[verifier::ext_equal]
pub struct ProfileView {
    pub schema: u32,
    pub name: Text,
    pub graph: GraphView,
}

impl View for Profile {
    type V = ProfileView;

    open spec fn view(&self) -> ProfileView {
        ProfileView { schema: self.schema, name: self.name@, graph: self.graph@ }
    }
}

impl Profile {
    /// A profile as this build writes it.
    pub fn new(name: &str, graph: Graph) -> (r: Profile)
        ensures
            r@ == (ProfileView { schema: CURRENT_SCHEMA, name: name@, graph: graph@ }),
    {
        Profile { schema: CURRENT_SCHEMA, name: name.to_owned(), graph }
    }
}

impl Clone for Profile {
    fn clone(&self) -> (r: Profile)
        ensures
            r@ == self@,
    {
        Profile { schema: self.schema, name: self.name.clone(), graph: self.graph.clone() }
    }
}

/// Why a profile could not be loaded.
#[derive(Debug, Clone, PartialEq)]
pub enum ConfigError {
    /// The document is not a profile.
    Malformed(String),
    /// The document was written by a newer build.
    FromTheFuture { found: u32 },
}

/// Brings a profile up to [`CURRENT_SCHEMA`].
///
/// Refuses profiles from a *newer* schema outright. Loading one by ignoring the fields that
/// are not recognised would quietly discard part of a user's configuration, and in this
/// application a discarded field could be a temperature limit.
pub fn migrate(profile: Profile) -> (r: Result<Profile, ConfigError>)
    ensures
        match r {
            Ok(p) => profile.schema <= CURRENT_SCHEMA && p@ == (ProfileView {
                schema: CURRENT_SCHEMA,
                ..profile@
            }),
            Err(e) => profile.schema > CURRENT_SCHEMA && e == (ConfigError::FromTheFuture {
                found: profile.schema,
            }),
        },
{
    if profile.schema > CURRENT_SCHEMA {
        return Err(ConfigError::FromTheFuture { found: profile.schema });
    }
    Ok(Profile { schema: CURRENT_SCHEMA, name: profile.name, graph: profile.graph })
}

} // verus!
