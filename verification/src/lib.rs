use vstd::prelude::*;

pub mod cgroupsv2;
pub mod digits;
pub mod host;
pub mod init;
pub mod json;
pub mod metainfo;
pub mod network;
pub mod overlayfs;
pub mod paths;
pub mod prune;
pub mod rm;
pub mod run;
pub mod start;
pub mod stop;

verus! {

/// A single planned write of `contents` to the file at `path`; the
/// executable shell performs the write exactly as planned.
#[derive(Debug)]
pub struct FileWrite {
    pub path: String,
    pub contents: String,
}

pub struct FileWriteView {
    pub path: Seq<char>,
    pub contents: Seq<char>,
}

impl View for FileWrite {
    type V = FileWriteView;

    open spec fn view(&self) -> FileWriteView {
        FileWriteView { path: self.path@, contents: self.contents@ }
    }
}

} // verus!
