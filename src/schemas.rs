//! Records of the photo catalog: color tables, storages and users.
use vstd::prelude::*;

verus! {

/// A color lookup table known to the catalog.
#[derive(Debug, Default)]
pub struct Lut {
    pub id: i32,
    pub lut_name: String,
    pub path: String,
    pub comment: String,
}

impl Lut {
    pub fn id(&self) -> (r: &i32)
        ensures
            *r == self.id,
    {
        &self.id
    }

    pub fn lut_name(&self) -> (r: &str)
        ensures
            r@ == self.lut_name@,
    {
        self.lut_name.as_str()
    }

    pub fn path(&self) -> (r: &str)
        ensures
            r@ == self.path@,
    {
        self.path.as_str()
    }

    pub fn comment(&self) -> (r: &str)
        ensures
            r@ == self.comment@,
    {
        self.comment.as_str()
    }
}

/// A new storage location for a user's photos.
#[derive(Debug)]
pub struct StorageInput {
    pub user_id: i32,
    pub storage_name: String,
    pub storage_path: String,
    pub storage_type: String,
    pub storage_url: String,
    pub access_key: String,
    pub secret_key: String,
    pub bucket_name: String,
    pub storage_usage: String,
}

/// A new user and their development defaults.
#[derive(Debug)]
pub struct UserInput {
    pub name: String,
    pub email: String,
    pub password: String,
    pub lut_id: i32,
    pub wb: bool,
    pub half_size: bool,
    pub quality: i32,
}

} // verus!
