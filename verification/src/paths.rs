//! Locations of the files the application keeps under its data root.
//! Paths are Unix paths held as strings.

use vstd::prelude::*;

use crate::ids::{id_text, id_to_string};
use crate::text::{chars_of, extend_str, string_of};

verus! {

/// `Path::join` of a relative name onto a Unix path.
pub open spec fn join_spec(root: Seq<char>, name: Seq<char>) -> Seq<char> {
    if root.len() == 0 {
        name
    } else if root.last() == '/' {
        root + name
    } else {
        root + seq!['/'] + name
    }
}

/// Joins a relative name onto a path.
pub fn join_path(root: &str, name: &str) -> (r: String)
    ensures
        r@ == join_spec(root@, name@),
{
    let mut v = chars_of(root);
    if v.len() > 0 && v[v.len() - 1] != '/' {
        v.push('/');
    }
    extend_str(&mut v, name);
    string_of(v.as_slice())
}

/// The application's files under one data root.
#[derive(Debug)]
pub struct AppPaths {
    pub root: String,
    pub config_file: String,
    pub history_db: String,
    pub cert_der: String,
    pub key_der: String,
    pub inbox_dir: String,
}

impl Clone for AppPaths {
    fn clone(&self) -> (r: Self)
        ensures
            r == *self,
    {
        AppPaths {
            root: self.root.clone(),
            config_file: self.config_file.clone(),
            history_db: self.history_db.clone(),
            cert_der: self.cert_der.clone(),
            key_der: self.key_der.clone(),
            inbox_dir: self.inbox_dir.clone(),
        }
    }
}

impl AppPaths {
    /// The file layout under `root`.
    pub fn from_root(root: String) -> (r: Self)
        ensures
            r.root@ == root@,
            r.config_file@ == join_spec(root@, "config.sealed"@),
            r.history_db@ == join_spec(root@, "history.sqlite3"@),
            r.cert_der@ == join_spec(root@, "device.cert.der"@),
            r.key_der@ == join_spec(root@, "device.key.der"@),
            r.inbox_dir@ == join_spec(root@, "incoming"@),
    {
        AppPaths {
            config_file: join_path(root.as_str(), "config.sealed"),
            history_db: join_path(root.as_str(), "history.sqlite3"),
            cert_der: join_path(root.as_str(), "device.cert.der"),
            key_der: join_path(root.as_str(), "device.key.der"),
            inbox_dir: join_path(root.as_str(), "incoming"),
            root,
        }
    }

    /// Directory that receives the files of one remote item.
    pub fn remote_item_dir(&self, item_id: u128) -> (r: String)
        ensures
            r@ == join_spec(self.inbox_dir@, id_text(item_id)),
    {
        let name = id_to_string(item_id);
        join_path(self.inbox_dir.as_str(), name.as_str())
    }
}

} // verus!
