//! What a file is opened for.

use vstd::prelude::*;

verus! {

/// Tells a directory in which context a file is used, so that it can size
/// buffers and limit the rate of writes.
#[derive(PartialEq, Eq, Structural, Clone, Copy)]
pub enum IOContext {
    /// The file belongs to a merge.
    Merge(MergeInfo),
    /// The file is read; `true` when it is read once, from start to end.
    Read(bool),
    /// The file belongs to a flush.
    Flush(FlushInfo),
    /// Nothing is known.
    Default,
}

impl IOContext {
    /// The context of reading at random.
    pub fn read() -> (context: IOContext)
        ensures
            context == IOContext::Read(false),
    {
        IOContext::Read(false)
    }

    /// The context of reading once, from start to end.
    pub fn read_once() -> (context: IOContext)
        ensures
            context == IOContext::Read(true),
    {
        IOContext::Read(true)
    }

    /// Whether the context is that of a merge.
    pub fn is_merge(&self) -> (b: bool)
        ensures
            b == (*self is Merge),
    {
        match self {
            IOContext::Merge(_) => true,
            _ => false,
        }
    }
}

/// What is known of a flush: the number of docs that it writes.
#[derive(PartialEq, Eq, Structural, Hash, Clone, Copy)]
pub struct FlushInfo {
    num_docs: u32,
}

impl FlushInfo {
    /// Number of docs written.
    pub closed spec fn num_docs(&self) -> u32 {
        self.num_docs
    }

    /// The description of a flush of `num_docs` docs.
    pub fn new(num_docs: u32) -> (info: FlushInfo)
        ensures
            info.num_docs() == num_docs,
    {
        FlushInfo { num_docs }
    }
}

/// What is known of a merge.
#[derive(PartialEq, Eq, Structural, Hash, Clone, Copy)]
pub struct MergeInfo {
    total_max_doc: u32,
    estimated_merge_bytes: u64,
    is_external: bool,
    merge_max_num_segments: Option<u32>,
}

impl MergeInfo {
    /// Number of docs in all the segments that are merged.
    pub closed spec fn total_max_doc(&self) -> u32 {
        self.total_max_doc
    }

    /// Estimate of the size of the merged segment, in bytes.
    pub closed spec fn estimated_merge_bytes(&self) -> u64 {
        self.estimated_merge_bytes
    }

    /// Whether the segments come from another index.
    pub closed spec fn is_external(&self) -> bool {
        self.is_external
    }

    /// The number of segments that a forced merge aims at, if it is one.
    pub closed spec fn merge_max_num_segments(&self) -> Option<u32> {
        self.merge_max_num_segments
    }

    /// The description of a merge.
    pub fn new(
        total_max_doc: u32,
        estimated_merge_bytes: u64,
        is_external: bool,
        merge_max_num_segments: Option<u32>,
    ) -> (info: MergeInfo)
        ensures
            info.total_max_doc() == total_max_doc,
            info.estimated_merge_bytes() == estimated_merge_bytes,
            info.is_external() == is_external,
            info.merge_max_num_segments() == merge_max_num_segments,
    {
        MergeInfo { total_max_doc, estimated_merge_bytes, is_external, merge_max_num_segments }
    }
}

} // verus!
