//! The file manager: block-granular transfer between pages and named files.
//!
//! `FileMgr` owns a table of open files, each a byte vector, keyed by file
//! name; the table is populated lazily on first access per name, and opening
//! an absent file creates it empty. All blocks of all files under one manager
//! are `blocksize` bytes, and block `k` of a file occupies the byte range
//! `[k*blocksize, (k+1)*blocksize)` of it. The manager that a program runs
//! against backs each file with the equally named file under its database
//! directory; the directory bootstrap and the byte transfer at block offsets
//! rest on the decision helpers at the bottom of this module, so that what
//! they decide is proved here.

use crate::block_id::BlockId;
use crate::codec::splice;
use crate::page::Page;
use vstd::prelude::*;
use vstd::slice::slice_index_get;
use vstd::utf8::encode_utf8;

verus! {

broadcast use vstd::std_specs::vec::group_vec_axioms;

/// Error from a block read.
#[derive(Debug, PartialEq, Eq, Structural)]
pub enum DiskError {
    /// Fewer than a full block's bytes exist at the block's offset.
    ShortRead,
}

/// The contents of file `name` in a file table; a file that is not in the
/// table reads as empty, since opening creates an empty file.
pub open spec fn file_of(files: Map<Seq<char>, Seq<u8>>, name: Seq<char>) -> Seq<u8> {
    if files.contains_key(name) {
        files[name]
    } else {
        Seq::empty()
    }
}

/// Whether a whole block of `bs` bytes lies at block index `blknum` within a
/// file with contents `file`.
pub open spec fn block_in_file(file: Seq<u8>, blknum: int, bs: int) -> bool {
    0 <= blknum && (blknum + 1) * bs <= file.len()
}

/// The bytes of block `blknum` of a file with contents `file`.
pub open spec fn block_at(file: Seq<u8>, blknum: int, bs: int) -> Seq<u8>
    recommends
        0 <= bs,
        block_in_file(file, blknum, bs),
{
    file.subrange(blknum * bs, blknum * bs + bs)
}

/// What reading block `blknum` of a file with contents `file` yields: the
/// block's bytes, or nothing when the block reaches past end of file.
pub open spec fn read_block(file: Seq<u8>, blknum: int, bs: int) -> Option<Seq<u8>> {
    if block_in_file(file, blknum, bs) {
        Some(block_at(file, blknum, bs))
    } else {
        None
    }
}

/// `file` extended with zero bytes to length at least `n`.
pub open spec fn zero_pad(file: Seq<u8>, n: int) -> Seq<u8> {
    if n <= file.len() {
        file
    } else {
        file + Seq::new((n - file.len()) as nat, |i: int| 0u8)
    }
}

/// The contents of a file after page bytes `p` are written to block `blknum`:
/// the file grows with zero bytes up to the end of that block if it was
/// shorter, and the block's byte range then holds exactly `p`.
pub open spec fn file_after_write(file: Seq<u8>, blknum: int, bs: int, p: Seq<u8>) -> Seq<u8>
    recommends
        0 <= blknum,
        p.len() == bs,
{
    splice(zero_pad(file, blknum * bs + bs), blknum * bs, p)
}

/// The file table that a list of `(name, contents)` entries holds.
spec fn assoc_map(s: Seq<(String, Vec<u8>)>) -> Map<Seq<char>, Seq<u8>>
    decreases s.len(),
{
    if s.len() == 0 {
        Map::empty()
    } else {
        assoc_map(s.drop_last()).insert(s.last().0@, s.last().1@)
    }
}

/// No file name occurs twice among the entries.
spec fn unique_names(s: Seq<(String, Vec<u8>)>) -> bool {
    forall|i: int, j: int| 0 <= i < j < s.len() ==> s[i].0@ != s[j].0@
}

proof fn lemma_assoc_map_index(s: Seq<(String, Vec<u8>)>, i: int)
    requires
        unique_names(s),
        0 <= i < s.len(),
    ensures
        assoc_map(s).contains_key(s[i].0@),
        assoc_map(s)[s[i].0@] == s[i].1@,
    decreases s.len(),
{
    if i < s.len() - 1 {
        assert(s.drop_last()[i] == s[i]);
        lemma_assoc_map_index(s.drop_last(), i);
        assert(s[i].0@ != s.last().0@);
    }
}

proof fn lemma_assoc_map_absent(s: Seq<(String, Vec<u8>)>, k: Seq<char>)
    requires
        forall|i: int| 0 <= i < s.len() ==> s[i].0@ != k,
    ensures
        !assoc_map(s).contains_key(k),
    decreases s.len(),
{
    if s.len() > 0 {
        assert(forall|i: int|
            0 <= i < s.drop_last().len() ==> s.drop_last()[i].0@ != k) by {
            assert(forall|i: int| 0 <= i < s.len() - 1 ==> s.drop_last()[i] == s[i]);
        }
        lemma_assoc_map_absent(s.drop_last(), k);
    }
}

proof fn lemma_assoc_map_push(s: Seq<(String, Vec<u8>)>, e: (String, Vec<u8>))
    ensures
        assoc_map(s.push(e)) == assoc_map(s).insert(e.0@, e.1@),
{
    assert(s.push(e).drop_last() =~= s);
    assert(s.push(e).last() == e);
}

proof fn lemma_assoc_map_update(s: Seq<(String, Vec<u8>)>, i: int, v: Vec<u8>)
    requires
        unique_names(s),
        0 <= i < s.len(),
    ensures
        assoc_map(s.update(i, (s[i].0, v))) =~= assoc_map(s).insert(s[i].0@, v@),
    decreases s.len(),
{
    let s2 = s.update(i, (s[i].0, v));
    if i == s.len() - 1 {
        assert(s2.drop_last() =~= s.drop_last());
        assert(assoc_map(s).insert(s[i].0@, v@) =~= assoc_map(s.drop_last()).insert(s[i].0@, v@));
    } else {
        assert(s2.drop_last() =~= s.drop_last().update(i, (s[i].0, v)));
        assert(s.drop_last()[i] == s[i]);
        lemma_assoc_map_update(s.drop_last(), i, v);
        lemma_assoc_map_index(s, i);
        assert(s[i].0@ != s.last().0@);
    }
}

/// Owns the open file table and moves whole blocks between pages and files.
pub struct FileMgr {
    blocksize: usize,
    is_new: bool,
    open_files: Vec<(String, Vec<u8>)>,
}

impl FileMgr {
    /// Well-formed: a positive blocksize, and no file open under two entries.
    pub closed spec fn wf(&self) -> bool {
        &&& 1 <= self.blocksize
        &&& unique_names(self.open_files@)
    }

    /// The fixed byte size shared by all blocks this manager moves.
    pub closed spec fn spec_blocksize(&self) -> int {
        self.blocksize as int
    }

    /// Whether the database directory was created by this manager.
    pub closed spec fn spec_is_new(&self) -> bool {
        self.is_new
    }

    /// The contents of every open file, by name.
    pub closed spec fn files(&self) -> Map<Seq<char>, Seq<u8>> {
        assoc_map(self.open_files@)
    }

    /// A well-formed manager's blocksize is positive and fits a `usize`.
    pub proof fn lemma_wf_blocksize(&self)
        requires
            self.wf(),
        ensures
            1 <= self.spec_blocksize() <= usize::MAX,
    {
    }

    /// A manager over an empty file table. `dir_existed` says whether the
    /// database directory was already present: a manager over a directory
    /// that did not yet exist records `is_new` and has the directory created.
    pub fn new(blocksize: usize, dir_existed: bool) -> (m: FileMgr)
        requires
            1 <= blocksize,
        ensures
            m.wf(),
            m.spec_blocksize() == blocksize,
            m.spec_is_new() == !dir_existed,
            m.files() == Map::<Seq<char>, Seq<u8>>::empty(),
    {
        FileMgr { blocksize, is_new: !dir_existed, open_files: Vec::new() }
    }

    /// Whether constructing this manager created the database directory.
    pub fn is_new(&self) -> (r: bool)
        ensures
            r == self.spec_is_new(),
    {
        self.is_new
    }

    /// The manager's blocksize.
    pub fn blocksize(&self) -> (r: usize)
        ensures
            r == self.spec_blocksize(),
    {
        self.blocksize
    }

    /// The index of `name`'s entry in the table, opening the file (creating
    /// it empty) on first access.
    fn ensure_open(&mut self, name: &String) -> (i: usize)
        requires
            old(self).wf(),
        ensures
            final(self).wf(),
            final(self).blocksize == old(self).blocksize,
            final(self).is_new == old(self).is_new,
            i < final(self).open_files@.len(),
            final(self).open_files@[i as int].0@ == name@,
            final(self).open_files@[i as int].1@ == file_of(old(self).files(), name@),
            final(self).files() == old(self).files().insert(
                name@,
                file_of(old(self).files(), name@),
            ),
    {
        let n: usize = self.open_files.len();
        let mut i: usize = 0;
        while i < n
            invariant
                old(self).wf(),
                *self == *old(self),
                n == self.open_files@.len(),
                i <= n,
                forall|j: int| 0 <= j < i ==> self.open_files@[j].0@ != name@,
            decreases n - i,
        {
            if self.open_files[i].0 == *name {
                proof {
                    lemma_assoc_map_index(self.open_files@, i as int);
                    assert(self.files().insert(name@, file_of(self.files(), name@))
                        =~= self.files());
                }
                return i;
            }
            i += 1;
        }
        proof {
            lemma_assoc_map_absent(self.open_files@, name@);
        }
        let empty: Vec<u8> = Vec::new();
        self.open_files.push((name.clone(), empty));
        proof {
            lemma_assoc_map_push(old(self).open_files@, self.open_files@[n as int]);
            assert(self.open_files@ =~= old(self).open_files@.push(self.open_files@[n as int]));
            assert(forall|a: int, b: int|
                0 <= a < b < self.open_files@.len() ==> self.open_files@[a].0@
                    != self.open_files@[b].0@) by {
                assert(forall|a: int|
                    0 <= a < old(self).open_files@.len() ==> self.open_files@[a]
                        == old(self).open_files@[a]);
            }
        }
        n
    }

    /// Reads block `blk` into `p`: the block's full byte range, at offset
    /// `number * blocksize` of the file named by `blk`, replaces `p`'s
    /// contents. Fails, leaving `p` unchanged, exactly when the file is too
    /// short to hold the whole block; the file is still opened.
    pub fn read(&mut self, blk: &BlockId, p: &mut Page) -> (r: Result<(), DiskError>)
        requires
            old(self).wf(),
            0 <= blk.spec_number(),
            old(p)@.len() == old(self).spec_blocksize(),
        ensures
            final(self).wf(),
            final(self).spec_blocksize() == old(self).spec_blocksize(),
            final(self).spec_is_new() == old(self).spec_is_new(),
            final(self).files() == old(self).files().insert(
                blk.spec_filename(),
                file_of(old(self).files(), blk.spec_filename()),
            ),
            ({
                let outcome = read_block(
                    file_of(old(self).files(), blk.spec_filename()),
                    blk.spec_number() as int,
                    old(self).spec_blocksize(),
                );
                &&& (r is Ok <==> outcome is Some)
                &&& (r is Ok ==> Some(final(p)@) == outcome)
                &&& (r is Err ==> final(p)@ == old(p)@)
            }),
            final(p)@.len() == old(p)@.len(),
    {
        let bs: usize = self.blocksize;
        let i: usize = self.ensure_open(&blk.filename);
        let ghost s0: FileMgr = *self;
        let ghost f0: Seq<u8> = s0.open_files@[i as int].1@;
        let flen: usize = self.open_files[i].1.len();
        let nu: usize = blk.blknum as usize;
        if nu + 1 <= flen / bs {
            proof {
                assert((nu + 1) * bs <= flen && nu * bs + bs == (nu + 1) * bs) by (nonlinear_arith)
                    requires
                        nu + 1 <= flen / bs,
                        1 <= bs,
                ;
            }
            let off: usize = nu * bs;
            let mut j: usize = 0;
            while j < bs
                invariant
                    *self == s0,
                    1 <= bs,
                    i < self.open_files@.len(),
                    f0 == self.open_files@[i as int].1@,
                    flen == f0.len(),
                    off == nu * bs,
                    off + bs <= flen,
                    j <= bs,
                    p@.len() == bs,
                    forall|k: int| 0 <= k < j ==> p@[k] == f0[off + k],
                    forall|k: int| j <= k < bs ==> p@[k] == old(p)@[k],
                decreases bs - j,
            {
                let b: u8 = self.open_files[i].1[off + j];
                p.put_byte(j, b);
                j += 1;
            }
            proof {
                assert(block_in_file(f0, nu as int, bs as int));
                assert(p@ =~= block_at(f0, nu as int, bs as int));
            }
            Ok(())
        } else {
            proof {
                assert(!((nu + 1) * bs <= flen)) by (nonlinear_arith)
                    requires
                        !(nu + 1 <= flen / bs),
                        1 <= bs,
                ;
            }
            Err(DiskError::ShortRead)
        }
    }

    /// Writes `p`'s full contents to block `blk`, at offset
    /// `number * blocksize` of the file named by `blk`, extending the file
    /// with zero bytes first if it ends before that block does.
    pub fn write(&mut self, blk: &BlockId, p: &Page) -> (r: Result<(), DiskError>)
        requires
            old(self).wf(),
            0 <= blk.spec_number(),
            p@.len() == old(self).spec_blocksize(),
            (blk.spec_number() + 1) * old(self).spec_blocksize() <= usize::MAX,
        ensures
            final(self).wf(),
            final(self).spec_blocksize() == old(self).spec_blocksize(),
            final(self).spec_is_new() == old(self).spec_is_new(),
            r is Ok,
            final(self).files() == old(self).files().insert(
                blk.spec_filename(),
                file_after_write(
                    file_of(old(self).files(), blk.spec_filename()),
                    blk.spec_number() as int,
                    old(self).spec_blocksize(),
                    p@,
                ),
            ),
    {
        let bs: usize = self.blocksize;
        let i: usize = self.ensure_open(&blk.filename);
        let ghost s0: FileMgr = *self;
        let ghost f0: Seq<u8> = s0.open_files@[i as int].1@;
        let nu: usize = blk.blknum as usize;
        proof {
            assert(nu * bs + bs == (nu + 1) * bs && 0 <= nu * bs) by (nonlinear_arith)
                requires
                    0 <= nu,
                    0 <= bs,
            ;
        }
        let off: usize = nu * bs;
        let end: usize = off + bs;
        let file: &mut Vec<u8> = entry_file_mut(&mut self.open_files, i);
        while file.len() < end
            invariant
                f0.len() <= file@.len(),
                file@ == zero_pad(f0, file@.len() as int),
                f0.len() < end ==> file@.len() <= end,
                f0.len() >= end ==> file@ == f0,
            decreases end - file@.len(),
        {
            file.push(0u8);
            proof {
                assert(file@ =~= zero_pad(f0, file@.len() as int));
            }
        }
        proof {
            assert(file@ =~= zero_pad(f0, end as int));
        }
        let ghost padded: Seq<u8> = file@;
        let mut j: usize = 0;
        while j < bs
            invariant
                j <= bs,
                off + bs == end,
                end <= padded.len(),
                padded.len() == file@.len(),
                p@.len() == bs,
                file@ == splice(padded, off as int, p@.subrange(0, j as int)),
            decreases bs - j,
        {
            let b: u8 = p.byte_at(j);
            file[off + j] = b;
            proof {
                assert(file@ =~= splice(padded, off as int, p@.subrange(0, j + 1)));
            }
            j += 1;
        }
        proof {
            assert(p@.subrange(0, p@.len() as int) =~= p@);
            assert(file@ == file_after_write(f0, nu as int, bs as int, p@));
        }
        proof {
            lemma_assoc_map_update(
                s0.open_files@,
                i as int,
                self.open_files@[i as int].1,
            );
            assert(self.open_files@ =~= s0.open_files@.update(
                i as int,
                (s0.open_files@[i as int].0, self.open_files@[i as int].1),
            ));
            assert(unique_names(self.open_files@)) by {
                assert(forall|a: int|
                    0 <= a < self.open_files@.len() ==> self.open_files@[a].0@
                        == s0.open_files@[a].0@);
            }
            assert(final(self).files() =~= old(self).files().insert(
                blk.spec_filename(),
                file_after_write(
                    file_of(old(self).files(), blk.spec_filename()),
                    blk.spec_number() as int,
                    old(self).spec_blocksize(),
                    p@,
                ),
            ));
        }
        Ok(())
    }
}

/// A mutable borrow of the contents of the file table entry at `i`.
fn entry_file_mut(files: &mut Vec<(String, Vec<u8>)>, i: usize) -> (file: &mut Vec<u8>)
    requires
        i < old(files)@.len(),
    ensures
        *file == old(files)@[i as int].1,
        final(files)@ == old(files)@.update(
            i as int,
            (old(files)@[i as int].0, *final(file)),
        ),
{
    &mut files[i].1
}

/// Disk round trip: after page bytes `p` are written to block `blknum` of the
/// file named `name`, reading that block back yields exactly `p`.
pub proof fn lemma_disk_round_trip(
    files: Map<Seq<char>, Seq<u8>>,
    name: Seq<char>,
    blknum: int,
    bs: int,
    p: Seq<u8>,
)
    requires
        0 <= blknum,
        1 <= bs,
        p.len() == bs,
    ensures
        read_block(
            file_of(files.insert(name, file_after_write(file_of(files, name), blknum, bs, p)), name),
            blknum,
            bs,
        ) == Some(p),
{
    let f0 = file_of(files, name);
    let f1 = file_after_write(f0, blknum, bs, p);
    assert(0 <= blknum * bs && blknum * bs + bs == (blknum + 1) * bs) by (nonlinear_arith)
        requires
            0 <= blknum,
            1 <= bs,
    ;
    let padded = zero_pad(f0, blknum * bs + bs);
    crate::codec::lemma_splice_parts(padded, blknum * bs, p);
    assert(block_at(f1, blknum, bs) == p);
}

/// Independent files: a write to one file never changes what any block of a
/// file with a different name reads.
pub proof fn lemma_independent_files(
    files: Map<Seq<char>, Seq<u8>>,
    written: Seq<char>,
    contents: Seq<u8>,
    other: Seq<char>,
    blknum: int,
    bs: int,
)
    requires
        written != other,
    ensures
        read_block(file_of(files.insert(written, contents), other), blknum, bs) == read_block(
            file_of(files, other),
            blknum,
            bs,
        ),
{
}

/// Idempotent re-read: reading a block only opens its file, leaving every
/// file's contents as they were, so reading the same block twice without an
/// intervening write yields the same outcome both times.
pub proof fn lemma_idempotent_reread(
    files: Map<Seq<char>, Seq<u8>>,
    name: Seq<char>,
    blknum: int,
    bs: int,
)
    ensures
        file_of(files.insert(name, file_of(files, name)), name) == file_of(files, name),
        read_block(
            file_of(files.insert(name, file_of(files, name)), name),
            blknum,
            bs,
        ) == read_block(file_of(files, name), blknum, bs),
{
}

/// The byte offset at which block `blknum` starts when blocks are `blocksize`
/// bytes: `blknum * blocksize`. Nothing when the block number is negative or
/// the offset exceeds `u64::MAX`.
pub fn block_offset(blknum: i32, blocksize: usize) -> (r: Option<u64>)
    ensures
        r is Some <==> (0 <= blknum && blknum * blocksize <= u64::MAX),
        r is Some ==> r == Some((blknum * blocksize) as u64),
{
    if blknum < 0 {
        return None;
    }
    (blknum as u64).checked_mul(blocksize as u64)
}

/// Whether a directory entry's name marks a leftover temporary file: its
/// UTF-8 bytes start with the four bytes of `"temp"`.
pub fn is_temp_name(name: &str) -> (r: bool)
    ensures
        r <==> (encode_utf8(name@).len() >= 4 && encode_utf8(name@).subrange(0, 4) == seq![
            0x74u8,
            0x65u8,
            0x6du8,
            0x70u8,
        ]),
{
    let b: &[u8] = name.as_bytes();
    if b.len() < 4 {
        return false;
    }
    proof {
        assert(b@.subrange(0, 4) =~= seq![b@[0], b@[1], b@[2], b@[3]]);
    }
    *slice_index_get(b, 0) == 0x74 && *slice_index_get(b, 1) == 0x65 && *slice_index_get(b, 2)
        == 0x6d && *slice_index_get(b, 3) == 0x70
}

} // verus!
