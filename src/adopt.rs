//! Adopting a file: moving a real file from beneath an overlay's target
//! into the overlay's tree, and linking it back from where it was.
use vstd::prelude::*;
use crate::mirror::EnsureLink;
use crate::overlay::Overlay;
use crate::paths::{join, join_spec, strip_root, strip_root_spec};

verus! {

/// A file to move from `src` to `dst`.
pub struct MoveFile {
    pub src: String,
    pub dst: String,
}

impl MoveFile {
    pub fn new(src: String, dst: String) -> (r: MoveFile)
        ensures
            r.src == src,
            r.dst == dst,
    {
        MoveFile { src, dst }
    }
}

/// Why a file cannot be adopted.
#[derive(Clone, Copy, Debug, PartialEq, Eq, Structural)]
pub enum AddError {
    /// The file does not lie beneath the overlay's target.
    NotIncluded,
}

/// `file` made absolute against the working directory `cwd`.
pub open spec fn absolute_spec(cwd: Seq<char>, file: Seq<char>) -> Seq<char> {
    if file.len() > 0 && file[0] == '/' {
        file
    } else {
        join_spec(cwd, file)
    }
}

/// `file` made absolute against the working directory `cwd`.
pub fn absolute(cwd: &str, file: &str) -> (r: String)
    ensures
        r@ == absolute_spec(cwd@, file@),
{
    if file.unicode_len() > 0 && file.get_char(0) == '/' {
        file.to_owned()
    } else {
        join(cwd, file)
    }
}

/// The two steps that adopt `file` (an absolute path) into `overlay`, whose
/// target is `target_root`: move the file to the same relative path in the
/// overlay's tree, then link its old path to its new one. A file that does
/// not lie beneath the target cannot be adopted.
pub fn add_file(overlay: &Overlay, target_root: &str, file: &str) -> (r: Result<
    (MoveFile, EnsureLink),
    AddError,
>)
    ensures
        r is Err <==> strip_root_spec(target_root@, file@) is None,
        r matches Ok((m, l)) ==> {
            let rel = strip_root_spec(target_root@, file@).unwrap();
            &&& m.src@ == file@
            &&& m.dst@ == join_spec(overlay.root@, rel)
            &&& l.source@ == m.dst@
            &&& l.target@ == file@
        },
{
    match strip_root(target_root, file) {
        None => Err(AddError::NotIncluded),
        Some(rel) => {
            let dst = join(overlay.root.as_str(), rel.as_str());
            let link = EnsureLink::new(dst.clone(), file.to_owned());
            Ok((MoveFile::new(file.to_owned(), dst), link))
        },
    }
}

} // verus!
