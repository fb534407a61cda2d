//! Ownership and permissions of filesystem entries.
use vstd::prelude::*;

use crate::text_util::str_eq;

verus! {

/// UNIX permissions
#[derive(Debug, Clone, Copy, PartialEq, Eq)]
pub struct Mode(pub u16);

/// The default mode for directories (`0o755` or `rwxr-xr-x`)
pub const DEFAULT_DIRECTORY_MODE: u16 = 0o755;

/// The default mode for files (`0o644` or `rw-r--r--`)
pub const DEFAULT_FILE_MODE: u16 = 0o644;

/// The default mode for directories (`0o755` or `rwxr-xr-x`)
pub fn default_directory_mode() -> (r: Mode)
    ensures
        r.0 == DEFAULT_DIRECTORY_MODE,
{
    Mode(DEFAULT_DIRECTORY_MODE)
}

/// The default mode for files (`0o644` or `rw-r--r--`)
pub fn default_file_mode() -> (r: Mode)
    ensures
        r.0 == DEFAULT_FILE_MODE,
{
    Mode(DEFAULT_FILE_MODE)
}

impl Mode {
    /// Wraps the given numeric permissions
    pub fn new(value: u16) -> (r: Mode)
        ensures
            r.0 == value,
    {
        Mode(value)
    }

    /// Returns the inner numeric value of the permissions
    pub fn value(&self) -> (r: u16)
        ensures
            r == self.0,
    {
        self.0
    }

    /// The permissions widened to 32 bits
    pub fn value_u32(&self) -> (r: u32)
        ensures
            r == self.0 as u32,
    {
        self.0 as u32
    }
}

impl From<u16> for Mode {
    fn from(value: u16) -> (r: Mode) {
        Mode(value)
    }
}

impl vstd::std_specs::convert::FromSpecImpl<u16> for Mode {
    open spec fn obeys_from_spec() -> bool {
        true
    }

    open spec fn from_spec(v: u16) -> Mode {
        Mode(v)
    }
}

/// Optional owner, group and UNIX permissions to be set
#[derive(Debug, Clone, PartialEq, Eq, Default)]
pub struct SetAttrs {
    /// An optional owner to set given by name
    pub owner: Option<String>,
    /// An optional group to set given by name
    pub group: Option<String>,
    /// An optional [`Mode`] to set
    pub mode: Option<Mode>,
}

/// Owner, group and UNIX permissions
#[derive(Debug, Clone, PartialEq, Eq)]
pub struct Attrs {
    /// The owner of the file or directory
    pub owner: String,
    /// The group of the file or directory
    pub group: String,
    /// The UNIX permissions of the file or directory
    pub mode: Mode,
}

/// Whether an optional requested value agrees with an existing one
pub open spec fn opt_agrees<T>(requested: Option<T>, existing: T) -> bool {
    match requested {
        None => true,
        Some(v) => v == existing,
    }
}

/// Whether the requested attributes `set` already hold of the existing attributes `attrs`
pub open spec fn set_attrs_match(
    owner: Option<Seq<char>>,
    group: Option<Seq<char>>,
    mode: Option<Mode>,
    attrs: Attrs,
) -> bool {
    &&& opt_agrees(owner, attrs.owner@)
    &&& opt_agrees(group, attrs.group@)
    &&& opt_agrees(mode, attrs.mode)
}

/// The view of an optional string
pub open spec fn opt_view(s: Option<String>) -> Option<Seq<char>> {
    match s {
        None => None,
        Some(s) => Some(s@),
    }
}

impl SetAttrs {
    /// Nothing to be set
    pub fn none() -> (r: SetAttrs)
        ensures
            r.owner is None,
            r.group is None,
            r.mode is None,
    {
        SetAttrs { owner: None, group: None, mode: None }
    }

    /// A copy of these attributes
    pub fn duplicate(&self) -> (r: SetAttrs)
        ensures
            r == *self,
    {
        SetAttrs {
            owner: match &self.owner {
                Some(o) => Some(o.clone()),
                None => None,
            },
            group: match &self.group {
                Some(g) => Some(g.clone()),
                None => None,
            },
            mode: self.mode,
        }
    }

    /// Returns true if this `SetAttrs` matches the given, existing `attrs`
    pub fn matches(&self, attrs: &Attrs) -> (r: bool)
        ensures
            r == set_attrs_match(opt_view(self.owner), opt_view(self.group), self.mode, *attrs),
    {
        let owner_ok = match &self.owner {
            None => true,
            Some(owner) => str_eq(owner.as_str(), attrs.owner.as_str()),
        };
        let group_ok = match &self.group {
            None => true,
            Some(group) => str_eq(group.as_str(), attrs.group.as_str()),
        };
        let mode_ok = match self.mode {
            None => true,
            Some(mode) => mode.0 == attrs.mode.0,
        };
        owner_ok && group_ok && mode_ok
    }
}

} // verus!
