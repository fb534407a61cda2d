//! What the operating system says about users and groups.
use vstd::prelude::*;

verus! {

/// Looks a user up by name (`users::get_user_by_name`) and gives its UID. The answer depends
/// on the system's user database, so nothing is stated of it.
#[verifier::external_body]
pub(crate) fn uid_of_user(name: &str) -> Option<u32> {
    match users::get_user_by_name(name) {
        Some(user) => Some(user.uid()),
        None => None,
    }
}

/// Looks a group up by name (`users::get_group_by_name`) and gives its GID. The answer depends
/// on the system's group database, so nothing is stated of it.
#[verifier::external_body]
pub(crate) fn gid_of_group(name: &str) -> Option<u32> {
    match users::get_group_by_name(name) {
        Some(group) => Some(group.gid()),
        None => None,
    }
}

/// Looks a user up by UID (`users::get_user_by_uid`) and gives its name. The answer depends on
/// the system's user database, so nothing is stated of it.
#[verifier::external_body]
pub(crate) fn user_name_of(uid: u32) -> Option<String> {
    match users::get_user_by_uid(uid) {
        Some(user) => Some(user.name().to_string_lossy().into_owned()),
        None => None,
    }
}

/// Looks a group up by GID (`users::get_group_by_gid`) and gives its name. The answer depends
/// on the system's group database, so nothing is stated of it.
#[verifier::external_body]
pub(crate) fn group_name_of(gid: u32) -> Option<String> {
    match users::get_group_by_gid(gid) {
        Some(group) => Some(group.name().to_string_lossy().into_owned()),
        None => None,
    }
}

/// The real user ID of the running process (`nix::unistd::getuid`); nothing is stated of it.
#[verifier::external_body]
pub(crate) fn current_uid() -> u32 {
    nix::unistd::getuid().as_raw()
}

/// The real group ID of the running process (`nix::unistd::getgid`); nothing is stated of it.
#[verifier::external_body]
pub(crate) fn current_gid() -> u32 {
    nix::unistd::getgid().as_raw()
}

} // verus!
