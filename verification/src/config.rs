//! The tool's configuration: where scanned pages arrive and where the
//! content store keeps its records. Built once at process start and passed
//! into each command; no component looks configuration up ambiently.
use vstd::prelude::*;

verus! {

/// The two directories the tool works in, as paths in text form.
pub struct Kartka {
    pub scan_dir: String,
    pub index_dir: String,
}

impl Kartka {
    /// A configuration from its two directories.
    pub fn new(scan_dir: String, index_dir: String) -> (r: Kartka)
        ensures
            r.scan_dir@ == scan_dir@,
            r.index_dir@ == index_dir@,
    {
        Kartka { scan_dir, index_dir }
    }

    /// The directory the content store lives in.
    pub fn index(&self) -> (r: &String)
        ensures
            r@ == self.index_dir@,
    {
        &self.index_dir
    }

    /// The directory scanned pages await processing in.
    pub fn scans(&self) -> (r: &String)
        ensures
            r@ == self.scan_dir@,
    {
        &self.scan_dir
    }
}

} // verus!
