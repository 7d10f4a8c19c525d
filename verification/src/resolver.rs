//! Finding the repository to take templates from, and what has to be done
//! to it before it can be read.

use vstd::prelude::*;
use vstd::string::*;
use crate::context::text_of;
use crate::error::CoreError;
use crate::registry::{Registry, RepositoryRecord};

verus! {

/// A repository whose templates can be read at `local_path`.
pub struct ResolvedRepository {
    pub name: String,
    pub local_path: String,
}

/// What has to be done to a repository before its templates are read.
pub enum Sync {
    /// Nothing: the repository is local and its directory is there.
    Ready,
    /// The remote has to be fetched into the local path.
    Fetch { url: String, auth: Option<String> },
    /// The working copy at the local path has to be refreshed.
    Refresh,
}

/// A repository together with what is still to be done to it.
pub struct Resolution {
    pub repository: ResolvedRepository,
    pub sync: Sync,
}

/// The path of the entry `name` of the directory `directory`.
pub open spec fn path_in(directory: Seq<char>, name: Seq<char>) -> Seq<char> {
    directory + "/"@ + name
}

/// The name that a request for `name` means: `default` where none is given.
pub open spec fn wanted(name: Option<&str>) -> Seq<char> {
    match name {
        Some(n) => n@,
        None => "default"@,
    }
}

/// Whether `resolution` is what resolving the record `record` under the
/// name `name` gives, with repositories kept in `root`, when the
/// repository's directory exists or not.
pub open spec fn resolves(
    resolution: Resolution,
    record: RepositoryRecord,
    name: Seq<char>,
    root: Seq<char>,
    exists: bool,
) -> bool {
    &&& resolution.repository.name@ == name
    &&& resolution.repository.local_path@ == path_in(root, name)
    &&& match record.remote {
        None => resolution.sync is Ready,
        Some(remote) => if exists {
            resolution.sync is Refresh
        } else {
            resolution.sync matches Sync::Fetch { url, auth } && url@ == remote.url@ && text_of(auth)
                == text_of(remote.auth)
        },
    }
}

/// The path of the entry `name` of the directory `directory`.
pub fn join(directory: &str, name: &str) -> (path: String)
    ensures
        path@ == path_in(directory@, name@),
{
    let mut path = String::from_str(directory);
    path.append("/");
    path.append(name);
    path
}

/// Resolves the repository named `name`, or `default` where no name is
/// given. `root` is the directory that holds the repositories, and `exists`
/// says whether the repository's directory in it, `root/name`, is there.
///
/// Fails with `NotFound` where no such repository is registered, which
/// never happens to `default`, and with `LocalPathMissing` where a local
/// repository has no directory. A remote repository is to be fetched where
/// its directory is missing and to be refreshed where it is there.
pub fn resolve(registry: &Registry, name: Option<&str>, root: &str, exists: bool) -> (r: Result<
    Resolution,
    CoreError,
>)
    ensures
        name is None ==> !(r matches Err(CoreError::NotFound)),
        !registry.has(wanted(name)) ==> r matches Err(CoreError::NotFound),
        registry.has(wanted(name)) && registry.record_of(wanted(name)).remote is None && !exists
            ==> r matches Err(CoreError::LocalPathMissing),
        registry.has(wanted(name)) && (registry.record_of(wanted(name)).remote is Some || exists)
            ==> (r matches Ok(resolution) && resolves(
            resolution,
            registry.record_of(wanted(name)),
            wanted(name),
            root@,
            exists,
        )),
{
    let name = match name {
        Some(n) => n,
        None => "default",
    };
    proof {
        registry.lemma_has_default();
    }
    let record = match registry.find(name) {
        Ok(record) => record,
        Err(_) => {
            return Err(CoreError::NotFound);
        },
    };
    let sync = match &record.remote {
        None => {
            if !exists {
                return Err(CoreError::LocalPathMissing);
            }
            Sync::Ready
        },
        Some(remote) => {
            if exists {
                Sync::Refresh
            } else {
                let auth = match &remote.auth {
                    Some(secret) => Some(secret.clone()),
                    None => None,
                };
                Sync::Fetch { url: remote.url.clone(), auth }
            }
        },
    };
    let repository = ResolvedRepository {
        name: String::from_str(name),
        local_path: join(root, name),
    };
    Ok(Resolution { repository, sync })
}

/// The repository once what was to be done to it has been tried: `synced`
/// says whether the fetch or the refresh went well. Fails with `SyncFailed`
/// where it did not; a working copy that could not be refreshed is not used.
pub fn finish(resolution: Resolution, synced: bool) -> (r: Result<ResolvedRepository, CoreError>)
    ensures
        resolution.sync is Ready || synced ==> r == Ok::<ResolvedRepository, CoreError>(
            resolution.repository,
        ),
        !(resolution.sync is Ready) && !synced ==> r == Err::<ResolvedRepository, CoreError>(
            CoreError::SyncFailed,
        ),
{
    match resolution.sync {
        Sync::Ready => Ok(resolution.repository),
        _ => {
            if synced {
                Ok(resolution.repository)
            } else {
                Err(CoreError::SyncFailed)
            }
        },
    }
}

} // verus!
