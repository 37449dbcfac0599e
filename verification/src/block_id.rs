//! Block identifiers.

use vstd::prelude::*;

verus! {

/// Identifies the `blknum`-th fixed-size block of a named file, numbered from
/// 0. Pure value carrier; performs no I/O. Callers are expected to use
/// non-negative block numbers.
#[derive(Debug)]
pub struct BlockId {
    pub(crate) filename: String,
    pub(crate) blknum: i32,
}

impl BlockId {
    /// The name of the file the block belongs to.
    pub open(crate) spec fn spec_filename(&self) -> Seq<char> {
        self.filename@
    }

    /// The block's index within the file.
    pub open(crate) spec fn spec_number(&self) -> i32 {
        self.blknum
    }

    /// The identifier of block `blknum` of the file named `filename`.
    pub fn new(filename: &str, blknum: i32) -> (b: BlockId)
        ensures
            b.spec_filename() == filename@,
            b.spec_number() == blknum,
    {
        BlockId { filename: filename.to_owned(), blknum }
    }

    /// A borrowed view of the file name.
    pub fn filename(&self) -> (r: &str)
        ensures
            r@ == self.spec_filename(),
    {
        self.filename.as_str()
    }

    /// The block's index.
    pub fn number(&self) -> (r: i32)
        ensures
            r == self.spec_number(),
    {
        self.blknum
    }
}

} // verus!
