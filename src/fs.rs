//! Reader for MINIX v3 file systems: super block, inodes, directory entries
//! and the zoned contents of a file (direct, single, double and triple
//! indirect zones).
//!
//! A device is seen here as the bytes it holds; reading past its end yields
//! zero bytes.
use vstd::prelude::*;

verus! {

/// Magic number of a MINIX v3 super block.
pub const MAGIC: u16 = 0x4d5a;

/// Size of a block and of a zone, in bytes.
pub const BLOCK_SIZE: u32 = 1024;

/// Number of zone pointers held by an indirect zone.
pub const NUM_IPTRS: usize = 256;

/// Size of an on-disk inode, in bytes.
pub const INODE_SIZE: u64 = 64;

/// Number of inodes held by one block.
pub const INODES_PER_BLOCK: u64 = 16;

/// Size of a directory entry, in bytes.
pub const DIR_ENTRY_SIZE: u64 = 64;

/// Mode bit of a directory.
pub const S_IFDIR: u16 = 0o040_000;

/// Mode bit of a regular file.
pub const S_IFREG: u16 = 0o100_000;

/// Byte `pos` of a device, zero past its end.
pub open spec fn disk_byte(disk: Seq<u8>, pos: int) -> u8 {
    if 0 <= pos < disk.len() {
        disk[pos]
    } else {
        0
    }
}

/// Little-endian `u16` at `pos`.
pub open spec fn disk_u16(disk: Seq<u8>, pos: int) -> u16 {
    (disk_byte(disk, pos) as int + 256 * disk_byte(disk, pos + 1) as int) as u16
}

/// Little-endian `u32` at `pos`.
pub open spec fn disk_u32(disk: Seq<u8>, pos: int) -> u32 {
    (disk_byte(disk, pos) as int + 256 * disk_byte(disk, pos + 1) as int + 65536 * disk_byte(
        disk,
        pos + 2,
    ) as int + 16777216 * disk_byte(disk, pos + 3) as int) as u32
}

/// The `size` bytes of a device from `offset` on.
pub open spec fn block_bytes(disk: Seq<u8>, offset: int, size: int) -> Seq<u8> {
    Seq::new(size as nat, |k: int| disk_byte(disk, offset + k))
}

/// The zone pointers that zone `z` holds.
pub open spec fn zone_ptrs(disk: Seq<u8>, z: u32) -> Seq<u32> {
    Seq::new(NUM_IPTRS as nat, |i: int| disk_u32(disk, z * 1024 + 4 * i))
}

/// The non-zero entries of `s`, in order.
pub open spec fn nonzero(s: Seq<u32>) -> Seq<u32>
    decreases s.len(),
{
    if s.len() == 0 {
        s
    } else if s.last() == 0 {
        nonzero(s.drop_last())
    } else {
        nonzero(s.drop_last()).push(s.last())
    }
}

/// Data zones reached through a single indirect zone `z` (none where `z` is 0).
pub open spec fn single_zones(disk: Seq<u8>, z: u32) -> Seq<u32> {
    if z == 0 {
        Seq::empty()
    } else {
        nonzero(zone_ptrs(disk, z))
    }
}

/// Data zones reached through each single indirect zone of `s`, in order.
pub open spec fn singles_of(disk: Seq<u8>, s: Seq<u32>) -> Seq<u32>
    decreases s.len(),
{
    if s.len() == 0 {
        Seq::empty()
    } else {
        singles_of(disk, s.drop_last()) + single_zones(disk, s.last())
    }
}

/// Data zones reached through a double indirect zone `z`.
pub open spec fn double_zones(disk: Seq<u8>, z: u32) -> Seq<u32> {
    if z == 0 {
        Seq::empty()
    } else {
        singles_of(disk, zone_ptrs(disk, z))
    }
}

/// Data zones reached through each double indirect zone of `s`, in order.
pub open spec fn doubles_of(disk: Seq<u8>, s: Seq<u32>) -> Seq<u32>
    decreases s.len(),
{
    if s.len() == 0 {
        Seq::empty()
    } else {
        doubles_of(disk, s.drop_last()) + double_zones(disk, s.last())
    }
}

/// Data zones reached through a triple indirect zone `z`.
pub open spec fn triple_zones(disk: Seq<u8>, z: u32) -> Seq<u32> {
    if z == 0 {
        Seq::empty()
    } else {
        doubles_of(disk, zone_ptrs(disk, z))
    }
}

/// The data zones of a file with zone pointers `zones`, in the order of its
/// contents: the non-zero direct zones, then those of the single, double and
/// triple indirect zones.
pub open spec fn file_zones(disk: Seq<u8>, zones: Seq<u32>) -> Seq<u32> {
    nonzero(zones.subrange(0, 7)) + single_zones(disk, zones[7]) + double_zones(disk, zones[8])
        + triple_zones(disk, zones[9])
}

/// Byte `p` of the contents laid out over the data zones `fz`.
pub open spec fn file_byte(disk: Seq<u8>, fz: Seq<u32>, p: int) -> u8 {
    disk_byte(disk, fz[p / 1024] * 1024 + p % 1024)
}

/// What a read of `size` bytes at `offset` returns: the contents from `offset`
/// on, at most `min(size, inode size)` bytes, and none past the last zone.
pub open spec fn read_spec(disk: Seq<u8>, zones: Seq<u32>, isize: u32, size: u32, offset: u32) -> Seq<u8> {
    let fz = file_zones(disk, zones);
    let flen = fz.len() * 1024;
    let n: int = if size > isize { isize as int } else { size as int };
    let cnt: int = if offset >= flen { 0 } else if n < flen - offset { n } else { flen - offset };
    Seq::new(cnt as nat, |k: int| file_byte(disk, fz, offset + k))
}

/// Byte `pos` of the device, zero past its end.
pub fn read_byte(disk: &Vec<u8>, pos: u64) -> (r: u8)
    ensures
        r == disk_byte(disk@, pos as int),
{
    if pos < disk.len() as u64 {
        disk[pos as usize]
    } else {
        0
    }
}

/// Little-endian `u16` of the device at `pos`.
pub fn read_u16(disk: &Vec<u8>, pos: u64) -> (r: u16)
    requires
        pos < u64::MAX,
    ensures
        r == disk_u16(disk@, pos as int),
{
    let b0 = read_byte(disk, pos) as u16;
    let b1 = read_byte(disk, pos + 1) as u16;
    b0 + 256 * b1
}

/// Little-endian `u32` of the device at `pos`.
pub fn read_u32(disk: &Vec<u8>, pos: u64) -> (r: u32)
    requires
        pos < u64::MAX - 3,
    ensures
        r == disk_u32(disk@, pos as int),
{
    let b0 = read_byte(disk, pos) as u32;
    let b1 = read_byte(disk, pos + 1) as u32;
    let b2 = read_byte(disk, pos + 2) as u32;
    let b3 = read_byte(disk, pos + 3) as u32;
    b0 + 256 * b1 + 65536 * b2 + 16777216 * b3
}

/// Reads `size` bytes of the device from `offset` on.
pub fn read_block(disk: &Vec<u8>, offset: u64, size: u64) -> (r: Vec<u8>)
    requires
        offset + size <= u64::MAX,
    ensures
        r@ == block_bytes(disk@, offset as int, size as int),
{
    let mut out: Vec<u8> = Vec::new();
    let mut k: u64 = 0;
    while k < size
        invariant
            k <= size,
            offset + size <= u64::MAX,
            out@ == block_bytes(disk@, offset as int, k as int),
        decreases size - k,
    {
        let b = read_byte(disk, offset + k);
        out.push(b);
        k = k + 1;
        assert(out@ =~= block_bytes(disk@, offset as int, k as int));
    }
    out
}

/// The zone pointers that zone `z` holds.
fn read_ptrs(disk: &Vec<u8>, z: u32) -> (r: Vec<u32>)
    ensures
        r@ == zone_ptrs(disk@, z),
{
    let mut out: Vec<u32> = Vec::new();
    let base: u64 = z as u64 * 1024;
    let mut i: u64 = 0;
    while i < 256
        invariant
            i <= 256,
            base == z * 1024,
            out@ =~= Seq::new(i as nat, |j: int| disk_u32(disk@, z * 1024 + 4 * j)),
        decreases 256 - i,
    {
        let v = read_u32(disk, base + 4 * i);
        out.push(v);
        i = i + 1;
    }
    out
}

/// The non-zero entries of `s`, in order.
fn nonzero_of(s: &Vec<u32>) -> (r: Vec<u32>)
    ensures
        r@ == nonzero(s@),
{
    let mut out: Vec<u32> = Vec::new();
    let mut i: usize = 0;
    while i < s.len()
        invariant
            i <= s.len(),
            out@ == nonzero(s@.subrange(0, i as int)),
        decreases s.len() - i,
    {
        assert(s@.subrange(0, i + 1).drop_last() =~= s@.subrange(0, i as int));
        if s[i] != 0 {
            out.push(s[i]);
        }
        i = i + 1;
    }
    assert(s@.subrange(0, s.len() as int) =~= s@);
    out
}

/// Data zones reached through the single indirect zone `z`.
fn read_single(disk: &Vec<u8>, z: u32) -> (r: Vec<u32>)
    ensures
        r@ == single_zones(disk@, z),
{
    if z == 0 {
        Vec::new()
    } else {
        let p = read_ptrs(disk, z);
        nonzero_of(&p)
    }
}

/// Data zones reached through the double indirect zone `z`.
fn read_double(disk: &Vec<u8>, z: u32) -> (r: Vec<u32>)
    ensures
        r@ == double_zones(disk@, z),
{
    let mut out: Vec<u32> = Vec::new();
    if z == 0 {
        return out;
    }
    let p = read_ptrs(disk, z);
    let mut i: usize = 0;
    while i < p.len()
        invariant
            i <= p.len(),
            z != 0,
            p@ == zone_ptrs(disk@, z),
            out@ == singles_of(disk@, p@.subrange(0, i as int)),
        decreases p.len() - i,
    {
        assert(p@.subrange(0, i + 1).drop_last() =~= p@.subrange(0, i as int));
        let mut s = read_single(disk, p[i]);
        out.append(&mut s);
        i = i + 1;
    }
    assert(p@.subrange(0, p.len() as int) =~= p@);
    out
}

/// Data zones reached through the triple indirect zone `z`.
fn read_triple(disk: &Vec<u8>, z: u32) -> (r: Vec<u32>)
    ensures
        r@ == triple_zones(disk@, z),
{
    let mut out: Vec<u32> = Vec::new();
    if z == 0 {
        return out;
    }
    let p = read_ptrs(disk, z);
    let mut i: usize = 0;
    while i < p.len()
        invariant
            i <= p.len(),
            z != 0,
            p@ == zone_ptrs(disk@, z),
            out@ == doubles_of(disk@, p@.subrange(0, i as int)),
        decreases p.len() - i,
    {
        assert(p@.subrange(0, i + 1).drop_last() =~= p@.subrange(0, i as int));
        let mut s = read_double(disk, p[i]);
        out.append(&mut s);
        i = i + 1;
    }
    assert(p@.subrange(0, p.len() as int) =~= p@);
    out
}

/// The MINIX v3 super block, as far as the reader uses it.
#[derive(Clone, Copy, Debug)]
pub struct SuperBlock {
    pub ninodes: u32,
    pub imap_blocks: u16,
    pub zmap_blocks: u16,
    pub first_data_zone: u16,
    pub log_zone_size: u16,
    pub max_size: u32,
    pub zones: u32,
    pub magic: u16,
    pub block_size: u16,
    pub version: u8,
}

/// Position of the super block on the device: right after the boot block.
pub const SUPER_BLOCK_POS: u64 = 1024;

impl SuperBlock {
    /// Decodes the super block that starts at byte `pos` of the device.
    pub fn parse(disk: &Vec<u8>, pos: u64) -> (r: SuperBlock)
        requires
            pos <= 0xffff_ffff,
        ensures
            r.ninodes == disk_u32(disk@, pos as int),
            r.imap_blocks == disk_u16(disk@, pos + 6),
            r.zmap_blocks == disk_u16(disk@, pos + 8),
            r.first_data_zone == disk_u16(disk@, pos + 10),
            r.log_zone_size == disk_u16(disk@, pos + 12),
            r.max_size == disk_u32(disk@, pos + 16),
            r.zones == disk_u32(disk@, pos + 20),
            r.magic == disk_u16(disk@, pos + 24),
            r.block_size == disk_u16(disk@, pos + 28),
            r.version == disk_byte(disk@, pos + 30),
    {
        SuperBlock {
            ninodes: read_u32(disk, pos),
            imap_blocks: read_u16(disk, pos + 6),
            zmap_blocks: read_u16(disk, pos + 8),
            first_data_zone: read_u16(disk, pos + 10),
            log_zone_size: read_u16(disk, pos + 12),
            max_size: read_u32(disk, pos + 16),
            zones: read_u32(disk, pos + 20),
            magic: read_u16(disk, pos + 24),
            block_size: read_u16(disk, pos + 28),
            version: read_byte(disk, pos + 30),
        }
    }
}

/// An on-disk inode: mode, owner, size, times and ten zone pointers
/// (0 to 6 direct, 7 single, 8 double and 9 triple indirect).
#[derive(Clone, Debug)]
pub struct Inode {
    pub mode: u16,
    pub hard_links: u16,
    pub uid: u16,
    pub gid: u16,
    pub size: u32,
    pub accessed_time: u32,
    pub modified_time: u32,
    pub creation_time: u32,
    pub zones: Vec<u32>,
}

/// The inode stored at byte `pos` of the device.
pub open spec fn inode_matches(r: Inode, disk: Seq<u8>, pos: int) -> bool {
    &&& r.mode == disk_u16(disk, pos)
    &&& r.hard_links == disk_u16(disk, pos + 2)
    &&& r.uid == disk_u16(disk, pos + 4)
    &&& r.gid == disk_u16(disk, pos + 6)
    &&& r.size == disk_u32(disk, pos + 8)
    &&& r.accessed_time == disk_u32(disk, pos + 12)
    &&& r.modified_time == disk_u32(disk, pos + 16)
    &&& r.creation_time == disk_u32(disk, pos + 20)
    &&& r.zones@ == Seq::new(10, |i: int| disk_u32(disk, pos + 24 + 4 * i))
}

impl Inode {
    /// An inode has exactly ten zone pointers.
    pub open spec fn wf(&self) -> bool {
        self.zones@.len() == 10
    }

    /// Whether the inode is a directory.
    pub fn is_dir(&self) -> (r: bool)
        ensures
            r == (self.mode & S_IFDIR != 0),
    {
        self.mode & S_IFDIR != 0
    }

    /// Decodes the inode that starts at byte `pos` of the device.
    pub fn parse(disk: &Vec<u8>, pos: u64) -> (r: Inode)
        requires
            pos <= 0xffff_ffff_ffff,
        ensures
            r.wf(),
            inode_matches(r, disk@, pos as int),
    {
        let mut zones: Vec<u32> = Vec::new();
        let mut i: u64 = 0;
        while i < 10
            invariant
                i <= 10,
                pos <= 0xffff_ffff_ffff,
                zones@ =~= Seq::new(i as nat, |j: int| disk_u32(disk@, pos + 24 + 4 * j)),
            decreases 10 - i,
        {
            let z = read_u32(disk, pos + 24 + 4 * i);
            zones.push(z);
            i = i + 1;
        }
        Inode {
            mode: read_u16(disk, pos),
            hard_links: read_u16(disk, pos + 2),
            uid: read_u16(disk, pos + 4),
            gid: read_u16(disk, pos + 6),
            size: read_u32(disk, pos + 8),
            accessed_time: read_u32(disk, pos + 12),
            modified_time: read_u32(disk, pos + 16),
            creation_time: read_u32(disk, pos + 20),
            zones,
        }
    }
}

/// A directory entry: an inode number and a name of up to 60 bytes, padded
/// with zero bytes.
#[derive(Clone, Debug)]
pub struct DirEntry {
    pub inode: u32,
    pub name: Vec<u8>,
}

impl DirEntry {
    /// Decodes entry `index` of a directory's contents.
    pub fn parse(data: &Vec<u8>, index: u64) -> (r: DirEntry)
        requires
            index < 0x1_0000_0000,
        ensures
            r.inode == disk_u32(data@, index * 64),
            r.name@ == block_bytes(data@, index * 64 + 4, 60),
    {
        let pos = index * DIR_ENTRY_SIZE;
        DirEntry { inode: read_u32(data, pos), name: read_block(data, pos + 4, 60) }
    }
}

/// Byte position of inode `n` for a super block with the given bitmap sizes:
/// after the boot block, the super block and both bitmaps, `IPB` inodes per
/// block, inode numbers starting at 1.
pub open spec fn inode_pos(imap_blocks: u16, zmap_blocks: u16, n: u32) -> int {
    (2 + imap_blocks + zmap_blocks) * 1024 + ((n - 1) / 16) * 1024 + ((n - 1) % 16) * 64
}

/// Whether the device holds a MINIX v3 file system.
pub open spec fn has_magic(disk: Seq<u8>) -> bool {
    disk_u16(disk, 1048) == MAGIC
}

/// Blocks of the inode bitmap, as the super block gives them.
pub open spec fn imap_blocks_of(disk: Seq<u8>) -> u16 {
    disk_u16(disk, 1030)
}

/// Blocks of the zone bitmap, as the super block gives them.
pub open spec fn zmap_blocks_of(disk: Seq<u8>) -> u16 {
    disk_u16(disk, 1032)
}

/// The MINIX v3 file system of a device.
pub struct MinixFileSystem;

impl MinixFileSystem {
    /// Looks inode `inode_num` up: `None` where the device holds no MINIX v3
    /// file system or where the number is 0.
    pub fn get_inode(disk: &Vec<u8>, inode_num: u32) -> (r: Option<Inode>)
        ensures
            r.is_none() <==> (!has_magic(disk@) || inode_num == 0),
            r.is_some() ==> r->0.wf() && inode_matches(
                r->0,
                disk@,
                inode_pos(
                    imap_blocks_of(disk@),
                    zmap_blocks_of(disk@),
                    inode_num,
                ),
            ),
    {
        let sb = SuperBlock::parse(disk, SUPER_BLOCK_POS);
        if sb.magic != MAGIC || inode_num == 0 {
            return None;
        }
        let n = (inode_num - 1) as u64;
        let pos: u64 = (2 + sb.imap_blocks as u64 + sb.zmap_blocks as u64) * 1024 + (n / 16) * 1024
            + (n % 16) * 64;
        Some(Inode::parse(disk, pos))
    }

    /// Reads up to `size` bytes of the file at `offset`; the count of bytes
    /// read is the length of the result.
    pub fn read(disk: &Vec<u8>, inode: &Inode, size: u32, offset: u32) -> (r: Vec<u8>)
        requires
            inode.wf(),
        ensures
            r@ == read_spec(disk@, inode.zones@, inode.size, size, offset),
    {
        let fz = file_zones_of(disk, inode);
        let n: u64 = if size > inode.size {
            inode.size as u64
        } else {
            size as u64
        };
        let mut out: Vec<u8> = Vec::new();
        let mut k: u64 = 0;
        let ghost flen = fz@.len() * 1024;
        while k < n
            invariant
                k <= n,
                n <= 0xffff_ffff,
                fz@ == file_zones(disk@, inode.zones@),
                flen == fz@.len() * 1024,
                k == 0 || offset + k <= flen,
                out@ =~= Seq::new(k as nat, |j: int| file_byte(disk@, fz@, offset + j)),
            ensures
                k <= n,
                k == 0 || offset + k <= flen,
                k == n || offset + k >= flen,
                out@ =~= Seq::new(k as nat, |j: int| file_byte(disk@, fz@, offset + j)),
            decreases n - k,
        {
            let p: u64 = offset as u64 + k;
            let b: u64 = p / 1024;
            if b >= fz.len() as u64 {
                assert(p >= flen) by (nonlinear_arith)
                    requires
                        b == p / 1024,
                        b >= fz@.len(),
                        flen == fz@.len() * 1024,
                ;
                break;
            }
            assert(p < flen) by (nonlinear_arith)
                requires
                    b == p / 1024,
                    b < fz@.len(),
                    flen == fz@.len() * 1024,
            ;
            let z = fz[b as usize];
            let byte = read_byte(disk, z as u64 * 1024 + p % 1024);
            out.push(byte);
            k = k + 1;
        }
        out
    }
}

/// The data zones of a file, in the order of its contents.
pub fn file_zones_of(disk: &Vec<u8>, inode: &Inode) -> (r: Vec<u32>)
    requires
        inode.wf(),
    ensures
        r@ == file_zones(disk@, inode.zones@),
{
    let mut direct: Vec<u32> = Vec::new();
    let mut i: usize = 0;
    while i < 7
        invariant
            i <= 7,
            inode.wf(),
            direct@ =~= inode.zones@.subrange(0, i as int),
        decreases 7 - i,
    {
        direct.push(inode.zones[i]);
        i = i + 1;
    }
    let mut out = nonzero_of(&direct);
    let mut s = read_single(disk, inode.zones[7]);
    out.append(&mut s);
    let mut d = read_double(disk, inode.zones[8]);
    out.append(&mut d);
    let mut t = read_triple(disk, inode.zones[9]);
    out.append(&mut t);
    out
}

/// Reads up to `size` bytes at `offset` of inode `node`; empty where the
/// inode cannot be looked up.
pub fn read_inode(disk: &Vec<u8>, node: u32, size: u32, offset: u32) -> (r: Vec<u8>)
    ensures
        (!has_magic(disk@) || node == 0) ==> r@.len() == 0,
        (has_magic(disk@) && node != 0) ==> exists|i: Inode|
            inode_matches(
                i,
                disk@,
                inode_pos(imap_blocks_of(disk@), zmap_blocks_of(disk@), node),
            ) && r@ == read_spec(disk@, i.zones@, i.size, size, offset),
{
    match MinixFileSystem::get_inode(disk, node) {
        Some(inode) => MinixFileSystem::read(disk, &inode, size, offset),
        None => Vec::new(),
    }
}

} // verus!
