//! Connection settings and the validated creation inputs.

use vstd::prelude::*;

verus! {

/// Longest name, in bytes of UTF-8, that a region, field or team may carry.
pub const MAX_NAME_LEN: usize = 64;

/// Length of `s` as `str::len` reports it: the bytes of its UTF-8 encoding.
pub open spec fn name_len(s: Seq<char>) -> usize {
    vstd::utf8::encode_utf8(s).len() as usize
}

/// Where the storage lives.
#[derive(Clone, Debug, PartialEq, Eq)]
pub struct Config {
    connection_url: String,
}

impl Config {
    /// The connection target.
    pub closed spec fn url(&self) -> Seq<char> {
        self.connection_url@
    }

    pub fn new(connection_url: String) -> (r: Self)
        ensures
            r.url() == connection_url@,
    {
        Config { connection_url }
    }

    pub fn connection_url(&self) -> (r: &str)
        ensures
            r@ == self.url(),
    {
        self.connection_url.as_str()
    }
}

#[derive(Clone, Debug, PartialEq, Eq)]
pub struct CreateRegionInput {
    pub title: String,
}

#[derive(Debug, PartialEq, Eq)]
pub enum RegionValidationError {
    EmptyName,
    NameTooLong { len: usize },
}

impl CreateRegionInput {
    pub fn new(title: String) -> (r: Self)
        ensures
            r.title@ == title@,
    {
        CreateRegionInput { title }
    }

    /// A title must be non-empty and at most `MAX_NAME_LEN` bytes long.
    pub fn validate(&self) -> (r: Result<(), RegionValidationError>)
        ensures
            self.title@.len() == 0 ==> r == Err::<(), _>(RegionValidationError::EmptyName),
            self.title@.len() > 0 && name_len(self.title@) > MAX_NAME_LEN ==> r == Err::<(), _>(
                RegionValidationError::NameTooLong { len: name_len(self.title@) },
            ),
            self.title@.len() > 0 && name_len(self.title@) <= MAX_NAME_LEN ==> r is Ok,
    {
        let title = self.title.as_str();
        let len = title.len();
        if title.is_empty() {
            return Err(RegionValidationError::EmptyName);
        }
        if len > MAX_NAME_LEN {
            return Err(RegionValidationError::NameTooLong { len });
        }
        Ok(())
    }
}

#[derive(Clone, Debug, PartialEq, Eq)]
pub struct CreateFieldInput {
    pub name: String,
    pub region_id: i32,
}

#[derive(Debug, PartialEq, Eq)]
pub enum FieldValidationError {
    EmptyName,
    NameTooLong { len: usize },
}

impl CreateFieldInput {
    pub fn new(name: String, region_id: i32) -> (r: Self)
        ensures
            r.name@ == name@,
            r.region_id == region_id,
    {
        CreateFieldInput { name, region_id }
    }

    /// A name must be non-empty and at most `MAX_NAME_LEN` bytes long.
    pub fn validate(&self) -> (r: Result<(), FieldValidationError>)
        ensures
            self.name@.len() == 0 ==> r == Err::<(), _>(FieldValidationError::EmptyName),
            self.name@.len() > 0 && name_len(self.name@) > MAX_NAME_LEN ==> r == Err::<(), _>(
                FieldValidationError::NameTooLong { len: name_len(self.name@) },
            ),
            self.name@.len() > 0 && name_len(self.name@) <= MAX_NAME_LEN ==> r is Ok,
    {
        let name = self.name.as_str();
        let len = name.len();
        if name.is_empty() {
            return Err(FieldValidationError::EmptyName);
        }
        if len > MAX_NAME_LEN {
            return Err(FieldValidationError::NameTooLong { len });
        }
        Ok(())
    }
}

#[derive(Clone, Debug, PartialEq, Eq)]
pub struct CreateTeamInput {
    pub name: String,
    pub region_id: i32,
    pub tags: Vec<String>,
}

#[derive(Debug, PartialEq, Eq)]
pub enum TeamValidationError {
    EmptyName,
    NameTooLong { len: usize },
}

impl CreateTeamInput {
    pub fn new(name: String, region_id: i32, tags: Vec<String>) -> (r: Self)
        ensures
            r.name@ == name@,
            r.region_id == region_id,
            r.tags@ == tags@,
    {
        CreateTeamInput { name, region_id, tags }
    }

    /// A name must be non-empty and at most `MAX_NAME_LEN` bytes long.
    pub fn validate(&self) -> (r: Result<(), TeamValidationError>)
        ensures
            self.name@.len() == 0 ==> r == Err::<(), _>(TeamValidationError::EmptyName),
            self.name@.len() > 0 && name_len(self.name@) > MAX_NAME_LEN ==> r == Err::<(), _>(
                TeamValidationError::NameTooLong { len: name_len(self.name@) },
            ),
            self.name@.len() > 0 && name_len(self.name@) <= MAX_NAME_LEN ==> r is Ok,
    {
        let name = self.name.as_str();
        let len = name.len();
        if name.is_empty() {
            return Err(TeamValidationError::EmptyName);
        }
        if len > MAX_NAME_LEN {
            return Err(TeamValidationError::NameTooLong { len });
        }
        Ok(())
    }
}

} // verus!
