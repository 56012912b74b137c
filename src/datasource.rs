//! The configured sources of logs, and the choice of one by name.

use vstd::prelude::*;

verus! {

/// An object-store source: a bucket in a region, and the path expression
/// of its log objects.
#[derive(Debug)]
pub struct S3Source {
    pub name: String,
    pub region: String,
    pub bucket: String,
    pub pathexp: String,
}

/// A filesystem source: the path expression of its log files.
#[derive(Debug)]
pub struct FileSource {
    pub name: String,
    pub pathexp: String,
}

/// The configured sources.
#[derive(Debug)]
pub struct Datasources {
    pub s3: Vec<S3Source>,
    pub file: Vec<FileSource>,
}

/// The source that a name selects.
#[derive(Debug, PartialEq, Eq, Structural)]
pub enum SourceChoice {
    /// The object-store source at this position.
    S3(usize),
    /// The filesystem source at this position.
    File(usize),
    /// No source has the name.
    Unknown,
}

/// Selects a source by name: the object-store sources are looked at first.
pub fn select_source(ds: &Datasources, name: &str) -> (r: SourceChoice)
    ensures
        match r {
            SourceChoice::S3(i) => i < ds.s3@.len() && ds.s3@[i as int].name@ == name@ && forall|j: int|
                0 <= j < i ==> ds.s3@[j].name@ != name@,
            SourceChoice::File(i) => i < ds.file@.len() && ds.file@[i as int].name@ == name@ && (forall|j: int|
                0 <= j < ds.s3@.len() ==> ds.s3@[j].name@ != name@) && forall|j: int|
                0 <= j < i ==> ds.file@[j].name@ != name@,
            SourceChoice::Unknown => (forall|j: int| 0 <= j < ds.s3@.len() ==> ds.s3@[j].name@ != name@) && (
            forall|j: int| 0 <= j < ds.file@.len() ==> ds.file@[j].name@ != name@),
        },
{
    let wanted = String::from_str(name);
    let mut i: usize = 0;
    while i < ds.s3.len()
        invariant
            i <= ds.s3@.len(),
            wanted@ == name@,
            forall|j: int| 0 <= j < i ==> ds.s3@[j].name@ != name@,
        decreases ds.s3.len() - i,
    {
        if ds.s3[i].name == wanted {
            return SourceChoice::S3(i);
        }
        i = i + 1;
    }
    let mut k: usize = 0;
    while k < ds.file.len()
        invariant
            k <= ds.file@.len(),
            wanted@ == name@,
            forall|j: int| 0 <= j < ds.s3@.len() ==> ds.s3@[j].name@ != name@,
            forall|j: int| 0 <= j < k ==> ds.file@[j].name@ != name@,
        decreases ds.file.len() - k,
    {
        if ds.file[k].name == wanted {
            return SourceChoice::File(k);
        }
        k = k + 1;
    }
    SourceChoice::Unknown
}

} // verus!
