//! The running configuration: where the snapshot file lives and which port
//! to bind. It is read-only once the server has started.
use vstd::prelude::*;
use crate::frame::write_bytes;

verus! {

/// Settings given at startup, each as the bytes of its text.
#[derive(Debug)]
pub struct Config {
    pub dir: Option<Vec<u8>>,
    pub dbfilename: Option<Vec<u8>>,
    pub port: Option<Vec<u8>>,
}

/// The bytes of an optional setting, empty when it is unset.
pub open spec fn setting(o: Option<Vec<u8>>) -> Seq<u8> {
    match o {
        Some(v) => v@,
        None => Seq::empty(),
    }
}

impl Config {
    /// Whether both the snapshot directory and file name are set.
    pub fn has_rdb(&self) -> (r: bool)
        ensures
            r == (self.dir is Some && self.dbfilename is Some),
    {
        self.dir.is_some() && self.dbfilename.is_some()
    }

    /// The snapshot path `<dir>/<dbfilename>`, when both are set.
    pub fn get_rdb_path(&self) -> (r: Option<Vec<u8>>)
        ensures
            r is Some == (self.dir is Some && self.dbfilename is Some),
            r matches Some(p) ==> p@ == setting(self.dir) + seq![47u8] + setting(self.dbfilename),
    {
        match (&self.dir, &self.dbfilename) {
            (Some(dir), Some(name)) => {
                let mut path: Vec<u8> = Vec::new();
                write_bytes(&mut path, dir.as_slice());
                path.push(47u8);
                write_bytes(&mut path, name.as_slice());
                assert(path@ =~= setting(self.dir) + seq![47u8] + setting(self.dbfilename));
                Some(path)
            },
            _ => None,
        }
    }
}

} // verus!
