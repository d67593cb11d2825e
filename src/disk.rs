//! Disk access through the BIOS: LBA or CHS addressing, real-mode buffer
//! addresses, and reads split into transfers the BIOS accepts.

use vstd::prelude::*;

use crate::error::{
    ErrorStr, ADDRESS_ERROR, CHS_OVERFLOW_ERROR, GEOMETRY_ERROR, GEOMETRY_UNUSABLE_ERROR, READ_ERROR,
};

verus! {

pub const SECTOR_SIZE: usize = 512;

pub type SectorIndex = u32;

/// Highest linear address (exclusive end of a buffer) a transfer may touch:
/// memory past it is reserved, and everything below it is reachable with a
/// 16-bit segment:offset pair.
pub const REAL_MODE_LIMIT: u32 = 0x80000;

/// When describing disk geometry, each field is a count.
/// When describing a sector's place, each field is 0-based, including sector.
#[derive(Clone, Copy, Debug, PartialEq, Eq, Structural)]
pub struct Chs {
    pub cylinder: u16,
    pub head: u16,
    pub sector: u8,
}

/// A geometry that sector numbers can be divided by.
pub open spec fn geometry_ok(g: Chs) -> bool {
    g.sector > 0 && g.head > 0
}

/// The cylinder that sector `lba` lies on.
pub open spec fn lba_cylinder(lba: int, g: Chs) -> int {
    (lba / g.sector as int) / g.head as int
}

/// The place of sector `lba` under geometry `g`.
pub open spec fn chs_of_lba(lba: u32, g: Chs) -> Chs {
    Chs {
        cylinder: lba_cylinder(lba as int, g) as u16,
        head: ((lba as int / g.sector as int) % g.head as int) as u16,
        sector: (lba as int % g.sector as int) as u8,
    }
}

/// The sector number of place `c` under geometry `g`.
pub open spec fn lba_of_chs(c: Chs, g: Chs) -> int {
    (c.cylinder as int * g.head as int + c.head as int) * g.sector as int + c.sector as int
}

pub fn convert_lba_to_chs(lba: SectorIndex, geometry: &Chs) -> (r: Result<Chs, ErrorStr>)
    requires
        geometry_ok(*geometry),
    ensures
        match r {
            Ok(c) => lba_cylinder(lba as int, *geometry) <= 1023 && c == chs_of_lba(lba, *geometry),
            Err(e) => lba_cylinder(lba as int, *geometry) > 1023 && e.msg == CHS_OVERFLOW_ERROR,
        },
{
    let lba_head = lba / geometry.sector as u32;
    let sector = lba % geometry.sector as u32;
    let cylinder = lba_head / geometry.head as u32;
    let head = lba_head % geometry.head as u32;
    if cylinder > 1023 {
        return Err(ErrorStr::new(CHS_OVERFLOW_ERROR));
    }
    Ok(Chs { cylinder: cylinder as u16, head: head as u16, sector: sector as u8 })
}

/// Converting a sector number to its place and back gives the sector number,
/// for every geometry with nonzero sectors per track and heads, wherever the
/// cylinder stays within 1023.
pub proof fn lemma_chs_round_trip(lba: u32, geometry: Chs)
    requires
        geometry_ok(geometry),
        lba_cylinder(lba as int, geometry) <= 1023,
    ensures
        lba_of_chs(chs_of_lba(lba, geometry), geometry) == lba as int,
{
    let s = geometry.sector as int;
    let h = geometry.head as int;
    let q = lba as int / s;
    let c = q / h;
    let hd = q % h;
    let sec = lba as int % s;
    vstd::arithmetic::div_mod::lemma_fundamental_div_mod(lba as int, s);
    vstd::arithmetic::div_mod::lemma_fundamental_div_mod(q, h);
    vstd::arithmetic::div_mod::lemma_mod_bound(lba as int, s);
    vstd::arithmetic::div_mod::lemma_mod_bound(q, h);
    vstd::arithmetic::div_mod::lemma_div_pos_is_pos(lba as int, s);
    vstd::arithmetic::div_mod::lemma_div_pos_is_pos(q, h);
    let r = chs_of_lba(lba, geometry);
    assert(r.cylinder as int == c);
    assert(r.head as int == hd);
    assert(r.sector as int == sec);
    assert((c * h + hd) * s + sec == lba as int) by (nonlinear_arith)
        requires
            lba as int == s * q + sec,
            q == h * c + hd,
    ;
}

/// The segment:offset pair `(segment << 16) | offset` for a linear address.
pub open spec fn segmented(linear: u32) -> u32 {
    ((linear / 16) * 0x10000 + linear % 16) as u32
}

pub fn addr_linear_to_segmented(linear: u32) -> (r: u32)
    requires
        linear <= REAL_MODE_LIMIT,
    ensures
        r == segmented(linear),
        r / 0x10000 == linear / 16,
        r % 0x10000 == linear % 16,
{
    let offset = linear % 16;
    let segment = linear / 16;
    assert((segment << 16) | offset == segment * 0x10000 + offset) by (bit_vector)
        requires
            segment <= 0x8000,
            offset < 16,
    ;
    (segment << 16) | offset
}

/// Splitting the segment:offset pair of any address up to the real-mode limit
/// into segment and offset, `segment * 16 + offset` is the address again.
pub proof fn lemma_segmented_round_trip(linear: u32)
    requires
        linear <= REAL_MODE_LIMIT,
    ensures
        (segmented(linear) / 0x10000) * 16 + segmented(linear) % 0x10000 == linear,
{
    let seg = linear as int / 16;
    let off = linear as int % 16;
    vstd::arithmetic::div_mod::lemma_fundamental_div_mod(linear as int, 16);
    assert(segmented(linear) == seg * 0x10000 + off);
    vstd::arithmetic::div_mod::lemma_fundamental_div_mod_converse(
        seg * 0x10000 + off,
        0x10000,
        seg,
        off,
    );
}

/// How a disk is addressed: by extended (LBA) calls, or by cylinder, head and
/// sector under the geometry the BIOS reported.
#[derive(Clone, Copy, Debug, PartialEq, Eq, Structural)]
pub enum IoMethod {
    Lba,
    Chs(Chs),
}

#[derive(Clone, Copy, Debug, PartialEq, Eq, Structural)]
pub struct Disk {
    pub bios_number: u8,
    pub io_method: IoMethod,
}

impl Disk {
    /// A CHS geometry has nonzero sectors per track and heads.
    pub open spec fn wf(self) -> bool {
        match self.io_method {
            IoMethod::Lba => true,
            IoMethod::Chs(g) => geometry_ok(g),
        }
    }
}

/// The disk access packet of an extended read, as laid out in memory
/// (16 bytes, little-endian).
#[derive(Clone, Copy, Debug, PartialEq, Eq, Structural)]
pub struct DiskAccessPacket {
    pub size: u8,
    pub reserved1: u8,
    pub count: i8,
    pub reserved2: u8,
    pub buffer: u32,
    pub lba: u32,
    pub lba_high: u32,
}

impl DiskAccessPacket {
    pub fn new(count: i8, buffer: u32, lba: u32) -> (r: DiskAccessPacket)
        ensures
            r == (DiskAccessPacket {
                size: 16,
                reserved1: 0,
                count,
                reserved2: 0,
                buffer,
                lba,
                lba_high: 0,
            }),
    {
        DiskAccessPacket { size: 16, reserved1: 0, count, reserved2: 0, buffer, lba, lba_high: 0 }
    }

    /// The packet's 16 bytes, as the BIOS reads them from memory.
    pub fn to_bytes(&self) -> (r: Vec<u8>)
        ensures
            r@ == seq![self.size, self.reserved1, self.count as u8, self.reserved2] + le32_bytes(
                self.buffer,
            ) + le32_bytes(self.lba) + le32_bytes(self.lba_high),
    {
        let mut r: Vec<u8> = Vec::new();
        r.push(self.size);
        r.push(self.reserved1);
        r.push(#[verifier::truncate] (self.count as u8));
        r.push(self.reserved2);
        push_le32(&mut r, self.buffer);
        push_le32(&mut r, self.lba);
        push_le32(&mut r, self.lba_high);
        r
    }
}

/// The four little-endian bytes of `v`.
pub open spec fn le32_bytes(v: u32) -> Seq<u8> {
    seq![
        (v % 0x100) as u8,
        ((v / 0x100) % 0x100) as u8,
        ((v / 0x10000) % 0x100) as u8,
        (v / 0x1000000) as u8,
    ]
}

fn push_le32(out: &mut Vec<u8>, v: u32)
    ensures
        final(out)@ == old(out)@ + le32_bytes(v),
{
    out.push((v % 0x100) as u8);
    out.push(((v / 0x100) % 0x100) as u8);
    out.push(((v / 0x10000) % 0x100) as u8);
    out.push((v / 0x1000000) as u8);
    assert(out@ =~= old(out)@ + le32_bytes(v));
}

/// One transfer the BIOS was asked for: `count` sectors from `lba`, and
/// whether it reported success.
#[derive(Clone, Copy, Debug, PartialEq, Eq, Structural)]
pub struct Transfer {
    pub lba: u32,
    pub count: u32,
    pub ok: bool,
}

/// The bytes of sectors `lba .. lba + count` of a disk image.
pub open spec fn sector_bytes(image: Seq<u8>, lba: int, count: int) -> Seq<u8> {
    image.subrange(lba * 512, (lba + count) * 512)
}

/// Sectors `lba .. lba + count` all exist in the image.
pub open spec fn sectors_present(image: Seq<u8>, lba: int, count: int) -> bool {
    0 <= lba && 0 <= count && (lba + count) * 512 <= image.len()
}

/// The BIOS services the loader consumes: disk probing and sector transfers.
/// Each call blocks until the BIOS answers. Every transfer asked for is
/// recorded, with its outcome, in `transfers`.
///
/// The spec functions describe the disks and the log. Their default bodies
/// are closed placeholders for implementations built outside verification;
/// verified code reasons only through the contracts below, and an
/// implementation that is verified gives its own model.
pub trait Bios: Sized {
    /// The bytes of the disk with BIOS number `disk`: sector `n` at byte `n * 512`.
    closed spec fn disk_image(&self, disk: u8) -> Seq<u8> {
        Seq::empty()
    }

    /// The geometry (counts) under which the BIOS resolves CHS transfers on `disk`.
    closed spec fn geometry(&self, disk: u8) -> Chs {
        Chs { cylinder: 0, head: 0, sector: 0 }
    }

    /// Every transfer asked for so far, oldest first.
    closed spec fn transfers(&self) -> Seq<Transfer> {
        Seq::empty()
    }

    /// The segment:offset buffer address handed over with each transfer so
    /// far, oldest first.
    closed spec fn buffer_addresses(&self) -> Seq<u32> {
        Seq::empty()
    }

    /// The linear real-mode address at which `buffer` starts.
    fn linear_address(&self, buffer: &[u8]) -> u32;

    /// Whether extended (LBA) access is available on `disk`.
    fn check_for_int13_extensions(&mut self, disk: u8) -> (r: bool)
        ensures
            forall|d: u8| #[trigger] final(self).disk_image(d) == old(self).disk_image(d),
            forall|d: u8| #[trigger] final(self).geometry(d) == old(self).geometry(d),
            final(self).transfers() == old(self).transfers(),
            final(self).buffer_addresses() == old(self).buffer_addresses(),
    ;

    /// The CHS geometry of `disk`, or `None` when the BIOS cannot report it.
    fn get_disk_geometry(&mut self, disk: u8) -> (r: Option<Chs>)
        ensures
            forall|d: u8| #[trigger] final(self).disk_image(d) == old(self).disk_image(d),
            forall|d: u8| #[trigger] final(self).geometry(d) == old(self).geometry(d),
            final(self).transfers() == old(self).transfers(),
            r matches Some(g) ==> g == old(self).geometry(disk),
            final(self).buffer_addresses() == old(self).buffer_addresses(),
    ;

    /// An extended read of `dap.count` sectors from `dap.lba` into `buffer`,
    /// which lies at the address `dap.buffer` names.
    fn read_disk_lba(&mut self, disk: u8, dap: &DiskAccessPacket, buffer: &mut [u8]) -> (ok: bool)
        requires
            dap.size == 16,
            dap.reserved1 == 0,
            dap.reserved2 == 0,
            dap.lba_high == 0,
            1 <= dap.count <= 127,
            old(buffer)@.len() == dap.count as int * 512,
        ensures
            final(self).buffer_addresses() == old(self).buffer_addresses().push(dap.buffer),
            forall|d: u8| #[trigger] final(self).disk_image(d) == old(self).disk_image(d),
            forall|d: u8| #[trigger] final(self).geometry(d) == old(self).geometry(d),
            final(self).transfers() == old(self).transfers().push(
                Transfer { lba: dap.lba, count: dap.count as u32, ok },
            ),
            final(buffer)@.len() == old(buffer)@.len(),
            ok ==> sectors_present(old(self).disk_image(disk), dap.lba as int, dap.count as int),
            ok ==> final(buffer)@ == sector_bytes(
                old(self).disk_image(disk),
                dap.lba as int,
                dap.count as int,
            ),
    ;

    /// A CHS read of `count` sectors starting at place `chs` into `buffer`,
    /// which lies at the segment:offset pair `buffer_address`.
    fn read_disk_chs(
        &mut self,
        disk: u8,
        chs: Chs,
        count: u8,
        buffer_address: u32,
        buffer: &mut [u8],
    ) -> (ok: bool)
        requires
            1 <= count,
            old(buffer)@.len() == count as int * 512,
        ensures
            final(self).buffer_addresses() == old(self).buffer_addresses().push(buffer_address),
            forall|d: u8| #[trigger] final(self).disk_image(d) == old(self).disk_image(d),
            forall|d: u8| #[trigger] final(self).geometry(d) == old(self).geometry(d),
            final(self).transfers() == old(self).transfers().push(
                Transfer {
                    lba: lba_of_chs(chs, old(self).geometry(disk)) as u32,
                    count: count as u32,
                    ok,
                },
            ),
            final(buffer)@.len() == old(buffer)@.len(),
            ok ==> sectors_present(
                old(self).disk_image(disk),
                lba_of_chs(chs, old(self).geometry(disk)),
                count as int,
            ),
            ok ==> final(buffer)@ == sector_bytes(
                old(self).disk_image(disk),
                lba_of_chs(chs, old(self).geometry(disk)),
                count as int,
            ),
    ;
}

/// Two states of the BIOS hold the same disks.
pub open spec fn same_disks<B: Bios>(a: B, b: B) -> bool {
    &&& forall|d: u8| #[trigger] a.disk_image(d) == b.disk_image(d)
    &&& forall|d: u8| #[trigger] a.geometry(d) == b.geometry(d)
}

/// `disk` describes its BIOS disk truthfully: a CHS geometry is the one the
/// BIOS uses.
pub open spec fn disk_matches<B: Bios>(disk: Disk, bios: B) -> bool {
    match disk.io_method {
        IoMethod::Lba => true,
        IoMethod::Chs(g) => g == bios.geometry(disk.bios_number),
    }
}

/// The addressing a disk gets from the BIOS's answers: LBA when extended
/// access is offered, else CHS under the geometry the BIOS reported.
pub fn io_method_from(has_extensions: bool, geometry: Option<Chs>) -> (r: Result<IoMethod, ErrorStr>)
    ensures
        has_extensions ==> r == Ok::<IoMethod, ErrorStr>(IoMethod::Lba),
        !has_extensions ==> match geometry {
            Some(g) => r == Ok::<IoMethod, ErrorStr>(IoMethod::Chs(g)),
            None => r matches Err(e) && e.msg == GEOMETRY_ERROR,
        },
{
    if has_extensions {
        return Ok(IoMethod::Lba);
    }
    match geometry {
        Some(g) => Ok(IoMethod::Chs(g)),
        None => Err(ErrorStr::new(GEOMETRY_ERROR)),
    }
}

/// Probes the disk with BIOS number `bios_disk_number`: the geometry is asked
/// for only when extended access is not offered.
pub fn open_disk<B: Bios>(bios: &mut B, bios_disk_number: u8) -> (r: Result<Disk, ErrorStr>)
    ensures
        same_disks(*final(bios), *old(bios)),
        final(bios).transfers() == old(bios).transfers(),
        match r {
            Ok(d) => d.bios_number == bios_disk_number && disk_matches(d, *old(bios)),
            Err(e) => e.msg == GEOMETRY_ERROR,
        },
{
    let has_int13_extensions = bios.check_for_int13_extensions(bios_disk_number);
    let geometry = if has_int13_extensions {
        None
    } else {
        bios.get_disk_geometry(bios_disk_number)
    };
    match io_method_from(has_int13_extensions, geometry) {
        Ok(io_method) => Ok(Disk { bios_number: bios_disk_number, io_method }),
        Err(e) => Err(e),
    }
}

/// How many sectors the transfer starting at `lba` covers, with `n` still to
/// read: at most 127 by LBA (the packet's count is a signed byte), and by CHS
/// no further than the end of the track.
pub open spec fn step_count(disk: Disk, lba: int, n: int) -> int {
    match disk.io_method {
        IoMethod::Lba => if n < 127 {
            n
        } else {
            127
        },
        IoMethod::Chs(g) => {
            let left = g.sector as int - lba % (g.sector as int);
            if n < left {
                n
            } else {
                left
            }
        },
    }
}

/// The transfers, as (first sector, sector count), that reading `n` sectors
/// from `lba` is split into.
pub open spec fn transfer_plan(disk: Disk, lba: int, n: int) -> Seq<(int, int)>
    decreases n,
{
    if n <= 0 {
        seq![]
    } else {
        let k = step_count(disk, lba, n);
        if k <= 0 || k > n {
            seq![]
        } else {
            seq![(lba, k)] + transfer_plan(disk, lba + k, n - k)
        }
    }
}

/// Every transfer of the plan for reading `n` sectors from `lba` covers at
/// least one sector; by LBA at most 127 of them, and by CHS none that runs past
/// the end of its track.
pub proof fn lemma_plan_limits(disk: Disk, lba: int, n: int)
    requires
        disk.wf(),
        0 <= lba,
    ensures
        forall|i: int|
            0 <= i < transfer_plan(disk, lba, n).len() ==> {
                let t = #[trigger] transfer_plan(disk, lba, n)[i];
                &&& 1 <= t.1
                &&& match disk.io_method {
                    IoMethod::Lba => t.1 <= 127,
                    IoMethod::Chs(g) => t.0 % (g.sector as int) + t.1 <= g.sector,
                }
            },
    decreases n,
{
    if n > 0 {
        let k = step_count(disk, lba, n);
        if let IoMethod::Chs(g) = disk.io_method {
            vstd::arithmetic::div_mod::lemma_mod_bound(lba, g.sector as int);
        }
        if 0 < k <= n {
            let p = transfer_plan(disk, lba, n);
            let rest = transfer_plan(disk, lba + k, n - k);
            assert(p == seq![(lba, k)] + rest);
            lemma_plan_limits(disk, lba + k, n - k);
            assert forall|i: int| 0 <= i < p.len() implies {
                let t = #[trigger] p[i];
                &&& 1 <= t.1
                &&& match disk.io_method {
                    IoMethod::Lba => t.1 <= 127,
                    IoMethod::Chs(g) => t.0 % (g.sector as int) + t.1 <= g.sector,
                }
            } by {
                if i > 0 {
                    assert(p[i] == rest[i - 1]);
                }
            }
        }
    }
}

/// The transfers in `done` asked for the first entries of `plan`, in order.
pub open spec fn follows_plan(done: Seq<Transfer>, plan: Seq<(int, int)>) -> bool {
    &&& done.len() <= plan.len()
    &&& forall|i: int|
        0 <= i < done.len() ==> #[trigger] done[i].lba == plan[i].0 && done[i].count == plan[i].1
}

pub open spec fn all_ok(done: Seq<Transfer>) -> bool {
    forall|i: int| 0 <= i < done.len() ==> #[trigger] done[i].ok
}

/// The transfers made between two states of the BIOS.
pub open spec fn new_transfers<B: Bios>(before: B, after: B) -> Seq<Transfer> {
    after.transfers().subrange(before.transfers().len() as int, after.transfers().len() as int)
}

/// The buffer addresses handed over between two states of the BIOS.
pub open spec fn new_addresses<B: Bios>(before: B, after: B) -> Seq<u32> {
    after.buffer_addresses().subrange(
        before.buffer_addresses().len() as int,
        after.buffer_addresses().len() as int,
    )
}

/// The BIOS log only grew between two states.
pub open spec fn log_extends<B: Bios>(before: B, after: B) -> bool {
    &&& after.transfers().len() >= before.transfers().len()
    &&& after.transfers().subrange(0, before.transfers().len() as int) == before.transfers()
}

/// A buffer of `len` bytes at `linear` can take a transfer: it is 2-byte
/// aligned, and the byte past its end is still within the real-mode limit.
pub open spec fn addressable(linear: int, len: int) -> bool {
    linear % 2 == 0 && linear + len <= REAL_MODE_LIMIT
}

/// One of the errors a sector read ends with.
pub open spec fn disk_failure(e: ErrorStr) -> bool {
    ||| e.msg == READ_ERROR
    ||| e.msg == ADDRESS_ERROR
    ||| e.msg == CHS_OVERFLOW_ERROR
    ||| e.msg == GEOMETRY_UNUSABLE_ERROR
}

/// What reading the sectors from `start` into a buffer of `old_buf.len()`
/// bytes leaves behind, whatever the BIOS answered. On success the buffer
/// holds the sectors, and every planned transfer was made and succeeded. A
/// read error follows a failed transfer, a CHS overflow means the range runs
/// past cylinder 1023 and no transfer was asked for from the group that
/// reaches past it on, and an address error or an unusable geometry comes
/// before any transfer.
pub open spec fn read_outcome<B: Bios>(
    before: B,
    after: B,
    disk: Disk,
    start: int,
    old_buf: Seq<u8>,
    new_buf: Seq<u8>,
    r: Result<(), ErrorStr>,
) -> bool {
    let n = old_buf.len() / 512;
    let plan = transfer_plan(disk, start, n as int);
    let image = before.disk_image(disk.bios_number);
    let done = new_transfers(before, after);
    &&& same_disks(after, before)
    &&& new_buf.len() == old_buf.len()
    &&& log_extends(before, after)
    &&& follows_plan(done, plan)
    &&& match r {
        Ok(()) => {
            &&& done.len() == plan.len()
            &&& all_ok(done)
            &&& sectors_present(image, start, n as int)
            &&& new_buf == sector_bytes(image, start, n as int)
            &&& disk.wf()
            &&& match disk.io_method {
                IoMethod::Chs(g) => lba_cylinder(start + n - 1, g) <= 1023,
                IoMethod::Lba => true,
            }
        },
        Err(e) => {
            ||| (e.msg == ADDRESS_ERROR && done.len() == 0)
            ||| (e.msg == GEOMETRY_UNUSABLE_ERROR && done.len() == 0 && !disk.wf())
            ||| (e.msg == READ_ERROR && done.len() > 0 && !done.last().ok && all_ok(done.drop_last()))
            ||| (e.msg == CHS_OVERFLOW_ERROR && all_ok(done) && done.len() < plan.len() && match disk.io_method {
                IoMethod::Chs(g) => {
                    &&& geometry_ok(g)
                    &&& lba_cylinder(start + n - 1, g) > 1023
                    &&& lba_cylinder(plan[done.len() as int].0, g) > 1023
                },
                IoMethod::Lba => false,
            })
        },
    }
}

/// The sectors of a transfer that stops at its track's end share the
/// cylinder of its first sector.
proof fn lemma_same_track(lba: int, k: int, g: Chs)
    requires
        geometry_ok(g),
        0 <= lba,
        1 <= k,
        lba % (g.sector as int) + k <= g.sector,
    ensures
        lba_cylinder(lba + k - 1, g) == lba_cylinder(lba, g),
{
    let s = g.sector as int;
    vstd::arithmetic::div_mod::lemma_fundamental_div_mod(lba, s);
    vstd::arithmetic::div_mod::lemma_mod_bound(lba, s);
    assert(lba + k - 1 == (lba / s) * s + (lba % s + k - 1)) by (nonlinear_arith)
        requires
            lba == s * (lba / s) + lba % s,
    ;
    vstd::arithmetic::div_mod::lemma_fundamental_div_mod_converse(
        lba + k - 1,
        s,
        lba / s,
        lba % s + k - 1,
    );
}

pub proof fn lemma_cylinder_monotone(a: int, b: int, g: Chs)
    requires
        geometry_ok(g),
        0 <= a <= b,
    ensures
        lba_cylinder(a, g) <= lba_cylinder(b, g),
{
    vstd::arithmetic::div_mod::lemma_div_is_ordered(a, b, g.sector as int);
    vstd::arithmetic::div_mod::lemma_div_pos_is_pos(a, g.sector as int);
    vstd::arithmetic::div_mod::lemma_div_is_ordered(
        a / g.sector as int,
        b / g.sector as int,
        g.head as int,
    );
}

/// Issues the one transfer that starts at `lba` with `remaining` sectors
/// still to read, into `buffer` from byte `offset`, and returns how many
/// sectors it covered.
fn transfer_group<B: Bios>(
    bios: &mut B,
    disk: &Disk,
    lba: SectorIndex,
    remaining: u32,
    buffer: &mut [u8],
    offset: usize,
    linear: u32,
) -> (r: Result<u32, ErrorStr>)
    requires
        disk_matches(*disk, *old(bios)),
        disk.wf(),
        remaining > 0,
        offset + remaining * 512 == old(buffer)@.len(),
        linear + old(buffer)@.len() <= REAL_MODE_LIMIT,
    ensures
        same_disks(*final(bios), *old(bios)),
        final(buffer)@.len() == old(buffer)@.len(),
        r matches Err(e) && e.msg == CHS_OVERFLOW_ERROR ==> final(bios).buffer_addresses() == old(
            bios,
        ).buffer_addresses(),
        !(r matches Err(e) && e.msg == CHS_OVERFLOW_ERROR) ==> final(bios).buffer_addresses() == old(
            bios,
        ).buffer_addresses().push(segmented((linear + offset) as u32)),
        match disk.io_method {
            IoMethod::Chs(g) => lba_cylinder(lba as int, g) > 1023 <==> (r matches Err(e) && e.msg
                == CHS_OVERFLOW_ERROR),
            IoMethod::Lba => true,
        },
        match r {
            Ok(k) => {
                &&& k == step_count(*disk, lba as int, remaining as int)
                &&& match disk.io_method {
                    IoMethod::Chs(g) => lba_cylinder(lba + k - 1, g) <= 1023,
                    IoMethod::Lba => true,
                }
                &&& final(bios).transfers() == old(bios).transfers().push(
                    Transfer { lba, count: k, ok: true },
                )
                &&& sectors_present(old(bios).disk_image(disk.bios_number), lba as int, k as int)
                &&& final(buffer)@ == old(buffer)@.subrange(0, offset as int) + sector_bytes(
                    old(bios).disk_image(disk.bios_number),
                    lba as int,
                    k as int,
                ) + old(buffer)@.subrange(offset + k * 512, old(buffer)@.len() as int)
            },
            Err(e) => {
                ||| (e.msg == READ_ERROR && final(bios).transfers() == old(bios).transfers().push(
                    Transfer {
                        lba,
                        count: step_count(*disk, lba as int, remaining as int) as u32,
                        ok: false,
                    },
                ))
                ||| (e.msg == CHS_OVERFLOW_ERROR && final(bios).transfers() == old(
                    bios,
                ).transfers() && match disk.io_method {
                    IoMethod::Chs(g) => lba_cylinder(lba as int, g) > 1023,
                    IoMethod::Lba => false,
                })
            },
        },
{
    proof {
        crate::error::lemma_error_messages_distinct();
    }
    let ghost buf0 = buffer@;
    let iter_count: u32;
    let ok: bool;
    match disk.io_method {
        IoMethod::Lba => {
            iter_count = if remaining < 127 {
                remaining
            } else {
                127
            };
            let bytes: usize = iter_count as usize * SECTOR_SIZE;
            let dap = DiskAccessPacket::new(
                iter_count as i8,
                addr_linear_to_segmented(linear + offset as u32),
                lba,
            );
            let (lo, rest) = buffer.split_at_mut(offset);
            let (dest, tail) = rest.split_at_mut(bytes);
            ok = bios.read_disk_lba(disk.bios_number, &dap, dest);
        },
        IoMethod::Chs(geometry) => {
            let chs = match convert_lba_to_chs(lba, &geometry) {
                Ok(c) => c,
                Err(e) => {
                    return Err(e);
                },
            };
            let left: u32 = (geometry.sector - chs.sector) as u32;
            iter_count = if remaining < left {
                remaining
            } else {
                left
            };
            let bytes: usize = iter_count as usize * SECTOR_SIZE;
            let address = addr_linear_to_segmented(linear + offset as u32);
            proof {
                lemma_chs_round_trip(lba, geometry);
                lemma_same_track(lba as int, iter_count as int, geometry);
            }
            let (lo, rest) = buffer.split_at_mut(offset);
            let (dest, tail) = rest.split_at_mut(bytes);
            ok = bios.read_disk_chs(disk.bios_number, chs, iter_count as u8, address, dest);
        },
    }
    if !ok {
        return Err(ErrorStr::new(READ_ERROR));
    }
    Ok(iter_count)
}

/// Reads whole sectors from `start_sector` into `buffer`, which lies at the
/// linear address `linear`.
pub fn read_disk_sectors_at<B: Bios>(
    bios: &mut B,
    disk: &Disk,
    start_sector: SectorIndex,
    buffer: &mut [u8],
    linear: u32,
) -> (r: Result<(), ErrorStr>)
    requires
        disk_matches(*disk, *old(bios)),
        old(buffer)@.len() % 512 == 0,
        old(buffer)@.len() > 0,
        start_sector + old(buffer)@.len() / 512 <= u32::MAX,
    ensures
        read_outcome(
            *old(bios),
            *final(bios),
            *disk,
            start_sector as int,
            old(buffer)@,
            final(buffer)@,
            r,
        ),
        r matches Err(e) && e.msg == READ_ERROR ==> crate::reads::some_transfer_failed(
            new_transfers(*old(bios), *final(bios)),
        ),
        !addressable(linear as int, old(buffer)@.len() as int) <==> (r matches Err(e)
            && e.msg == ADDRESS_ERROR),
        r matches Err(e) && e.msg == ADDRESS_ERROR ==> *final(bios) == *old(bios),
        addressable(linear as int, old(buffer)@.len() as int) ==> match disk.io_method {
            IoMethod::Chs(g) => !geometry_ok(g) ==> (r matches Err(e) && e.msg
                == GEOMETRY_UNUSABLE_ERROR && *final(bios) == *old(bios)),
            IoMethod::Lba => true,
        },
        addressable(linear as int, old(buffer)@.len() as int) ==> match disk.io_method {
            IoMethod::Chs(g) => geometry_ok(g) && lba_cylinder(start_sector as int, g) > 1023 ==> (r matches Err(e)
                && e.msg == CHS_OVERFLOW_ERROR && final(bios).transfers() == old(bios).transfers()),
            IoMethod::Lba => true,
        },
        final(bios).buffer_addresses().len() == old(bios).buffer_addresses().len() + new_transfers(
            *old(bios),
            *final(bios),
        ).len(),
        final(bios).buffer_addresses().subrange(0, old(bios).buffer_addresses().len() as int) == old(
            bios,
        ).buffer_addresses(),
        forall|i: int|
            0 <= i < new_transfers(*old(bios), *final(bios)).len()
                ==> #[trigger] final(bios).buffer_addresses()[old(bios).buffer_addresses().len() + i]
                == segmented(
                (linear + (new_transfers(*old(bios), *final(bios))[i].lba - start_sector) * 512) as u32,
            ),
{
    proof {
        crate::error::lemma_error_messages_distinct();
    }
    let ghost alog = bios.buffer_addresses();
    let len = buffer.len();
    if linear % 2 != 0 || linear as u64 + len as u64 > REAL_MODE_LIMIT as u64 {
        proof {
            assert(new_transfers(*old(bios), *bios) =~= seq![]);
            assert(bios.transfers().subrange(0, bios.transfers().len() as int) =~= bios.transfers());
            assert(bios.buffer_addresses().subrange(0, alog.len() as int) =~= alog);
        }
        return Err(ErrorStr::new(ADDRESS_ERROR));
    }
    if let IoMethod::Chs(g) = disk.io_method {
        if g.sector == 0 || g.head == 0 {
            proof {
                assert(new_transfers(*old(bios), *bios) =~= seq![]);
                assert(bios.transfers().subrange(0, bios.transfers().len() as int)
                    =~= bios.transfers());
                assert(bios.buffer_addresses().subrange(0, alog.len() as int) =~= alog);
            }
            return Err(ErrorStr::new(GEOMETRY_UNUSABLE_ERROR));
        }
    }
    let sector_count: u32 = (len / SECTOR_SIZE) as u32;
    let ghost start = start_sector as int;
    let ghost plan = transfer_plan(*disk, start, sector_count as int);
    let ghost log = bios.transfers();
    let ghost image = bios.disk_image(disk.bios_number);
    let mut done: u32 = 0;
    let ghost mut steps: int = 0;
    proof {
        assert(plan.subrange(0, plan.len() as int) =~= plan);
        assert(bios.transfers().subrange(0, log.len() as int) =~= log);
        assert(new_transfers(*old(bios), *bios) =~= seq![]);
        assert(bios.buffer_addresses().subrange(0, alog.len() as int) =~= alog);
    }
    while done < sector_count
        invariant
            disk.wf(),
            alog == old(bios).buffer_addresses(),
            bios.buffer_addresses().len() == alog.len() + steps,
            bios.buffer_addresses().subrange(0, alog.len() as int) == alog,
            forall|i: int|
                0 <= i < steps ==> #[trigger] bios.buffer_addresses()[alog.len() + i] == segmented(
                    (linear + (plan[i].0 - start) * 512) as u32,
                ),
            disk_matches(*disk, *old(bios)),
            same_disks(*bios, *old(bios)),
            image == old(bios).disk_image(disk.bios_number),
            log == old(bios).transfers(),
            plan == transfer_plan(*disk, start, sector_count as int),
            start == start_sector as int,
            len == old(buffer)@.len(),
            buffer@.len() == len,
            len == sector_count as int * 512,
            start_sector + sector_count <= u32::MAX,
            addressable(linear as int, len as int),
            done <= sector_count,
            0 <= steps <= plan.len(),
            steps == 0 <==> done == 0,
            log_extends(*old(bios), *bios),
            new_transfers(*old(bios), *bios).len() == steps,
            follows_plan(new_transfers(*old(bios), *bios), plan),
            all_ok(new_transfers(*old(bios), *bios)),
            transfer_plan(*disk, start + done, sector_count - done) == plan.subrange(
                steps,
                plan.len() as int,
            ),
            done > 0 ==> sectors_present(image, start, done as int),
            done > 0 ==> buffer@.subrange(0, done * 512) == sector_bytes(image, start, done as int),
            done > 0 ==> match disk.io_method {
                IoMethod::Chs(g) => lba_cylinder(start, g) <= 1023 && lba_cylinder(
                    start + done - 1,
                    g,
                ) <= 1023,
                IoMethod::Lba => true,
            },
        decreases sector_count - done,
    {
        let ghost before = *bios;
        let ghost buf_before = buffer@;
        let ghost s = start + done;
        let ghost m = sector_count - done;
        let step = transfer_group(
            bios,
            disk,
            start_sector + done,
            sector_count - done,
            buffer,
            done as usize * SECTOR_SIZE,
            linear,
        );
        proof {
            lemma_plan_step(*disk, plan, steps, s, m);
            if !(step matches Err(e) && e.msg == CHS_OVERFLOW_ERROR) {
                assert(bios.transfers().subrange(0, before.transfers().len() as int)
                    =~= before.transfers());
                lemma_log_push(*old(bios), before, *bios);
                assert(bios.buffer_addresses().subrange(0, alog.len() as int) =~= alog) by {
                    assert(before.buffer_addresses().subrange(0, alog.len() as int) == alog);
                }
                assert forall|i: int| 0 <= i < steps + 1 implies #[trigger] bios.buffer_addresses()[alog.len()
                    + i] == segmented((linear + (plan[i].0 - start) * 512) as u32) by {
                    if i < steps {
                        assert(bios.buffer_addresses()[alog.len() + i] == before.buffer_addresses()[alog.len() + i]);
                    }
                }
            }
        }
        let k = match step {
            Ok(k) => k,
            Err(e) => {
                proof {
                    if e.msg == CHS_OVERFLOW_ERROR {
                        if let IoMethod::Chs(g) = disk.io_method {
                            lemma_cylinder_monotone(s, start + sector_count - 1, g);
                        }
                        if done == 0 {
                            assert(before.transfers() =~= log);
                        }
                        assert(new_transfers(*old(bios), *bios) == new_transfers(*old(bios), before));
                    } else {
                        lemma_failed_step(
                            new_transfers(*old(bios), before),
                            bios.transfers().last(),
                            plan,
                            steps,
                        );
                        assert(e.msg == READ_ERROR);
                    }
                }
                return Err(e);
            },
        };
        proof {
            let d = done as int;
            if d == 0 {
                assert(buffer@.subrange(0, k * 512) =~= sector_bytes(image, start, k as int));
            } else {
                assert(buffer@.subrange(0, (d + k) * 512) =~= buf_before.subrange(0, d * 512)
                    + sector_bytes(image, start + d, k as int));
                assert(sector_bytes(image, start, d) + sector_bytes(image, start + d, k as int)
                    =~= sector_bytes(image, start, d + k));
            }
        }
        done = done + k;
        proof {
            steps = steps + 1;
        }
    }
    proof {
        assert(plan.subrange(steps, plan.len() as int).len() == 0);
        assert(buffer@ =~= buffer@.subrange(0, done * 512));
    }
    Ok(())
}

/// A log that followed the plan for `steps` transfers, all successful, and
/// then asked for the next planned transfer, which failed.
proof fn lemma_failed_step(dp: Seq<Transfer>, t: Transfer, plan: Seq<(int, int)>, steps: int)
    requires
        follows_plan(dp, plan),
        all_ok(dp),
        dp.len() == steps,
        steps < plan.len(),
        t.lba == plan[steps].0,
        t.count == plan[steps].1,
        !t.ok,
    ensures
        follows_plan(dp.push(t), plan),
        all_ok(dp.push(t).drop_last()),
        !dp.push(t).last().ok,
        dp.push(t).len() > 0,
{
    assert(dp.push(t).drop_last() =~= dp);
    assert forall|i: int| 0 <= i < dp.push(t).len() implies #[trigger] dp.push(t)[i].lba == plan[i].0
        && dp.push(t)[i].count == plan[i].1 by {
        if i < dp.len() {
            assert(dp.push(t)[i] == dp[i]);
        }
    }
}

/// One more step of a plan: the plan from `s` with `m` sectors left begins
/// with the transfer `(s, k)` and continues from `s + k`.
proof fn lemma_plan_step(disk: Disk, plan: Seq<(int, int)>, steps: int, s: int, m: int)
    requires
        m > 0,
        0 <= steps <= plan.len(),
        disk.wf(),
        transfer_plan(disk, s, m) == plan.subrange(steps, plan.len() as int),
    ensures
        steps < plan.len(),
        1 <= step_count(disk, s, m) <= m,
        plan[steps] == (s, step_count(disk, s, m)),
        transfer_plan(disk, s + step_count(disk, s, m), m - step_count(disk, s, m))
            == plan.subrange(steps + 1, plan.len() as int),
{
    let k = step_count(disk, s, m);
    if let IoMethod::Chs(g) = disk.io_method {
        vstd::arithmetic::div_mod::lemma_mod_bound(s, g.sector as int);
    }
    assert(transfer_plan(disk, s, m) == seq![(s, k)] + transfer_plan(disk, s + k, m - k));
    assert(plan.subrange(steps, plan.len() as int)[0] == plan[steps]);
    assert(transfer_plan(disk, s + k, m - k) =~= plan.subrange(
        steps,
        plan.len() as int,
    ).drop_first());
    assert(plan.subrange(steps, plan.len() as int).drop_first() =~= plan.subrange(
        steps + 1,
        plan.len() as int,
    ));
}

/// A BIOS state reached by one more transfer keeps the log of the first state
/// as a prefix, and the new transfers grow by that one.
proof fn lemma_log_push<B: Bios>(first: B, before: B, after: B)
    requires
        log_extends(first, before),
        after.transfers().len() == before.transfers().len() + 1,
        after.transfers().subrange(0, before.transfers().len() as int) == before.transfers(),
    ensures
        log_extends(first, after),
        new_transfers(first, after) == new_transfers(first, before).push(after.transfers().last()),
{
    assert(after.transfers().subrange(0, first.transfers().len() as int) =~= before.transfers().subrange(
        0,
        first.transfers().len() as int,
    ));
    assert(new_transfers(first, after) =~= new_transfers(first, before).push(
        after.transfers().last(),
    ));
}

/// Reads whole sectors from `start_sector` into `buffer`, at the address the
/// BIOS reports for it.
pub fn read_disk_sectors<B: Bios>(
    bios: &mut B,
    disk: &Disk,
    start_sector: SectorIndex,
    buffer: &mut [u8],
) -> (r: Result<(), ErrorStr>)
    requires
        disk_matches(*disk, *old(bios)),
        old(buffer)@.len() % 512 == 0,
        old(buffer)@.len() > 0,
        start_sector + old(buffer)@.len() / 512 <= u32::MAX,
    ensures
        read_outcome(
            *old(bios),
            *final(bios),
            *disk,
            start_sector as int,
            old(buffer)@,
            final(buffer)@,
            r,
        ),
        r matches Err(e) && e.msg == READ_ERROR ==> crate::reads::some_transfer_failed(
            new_transfers(*old(bios), *final(bios)),
        ),
{
    let linear = bios.linear_address(buffer);
    read_disk_sectors_at(bios, disk, start_sector, buffer, linear)
}

/// Reads the single sector `sector` into `buffer`, which lies at linear
/// address `linear` and must lie where a zero segment reaches it: wholly
/// below 0xfe00, and 2-byte aligned for an extended read. The packet names
/// the buffer by that offset.
pub fn read_disk_sector_at<B: Bios>(
    bios: &mut B,
    disk: &Disk,
    sector: SectorIndex,
    buffer: &mut [u8],
    linear: u32,
) -> (r: Result<(), ErrorStr>)
    requires
        disk_matches(*disk, *old(bios)),
        old(buffer)@.len() == SECTOR_SIZE,
        sector < u32::MAX,
    ensures
        read_outcome(*old(bios), *final(bios), *disk, sector as int, old(buffer)@, final(buffer)@, r),
        (linear > 0xfdff || (disk.io_method == IoMethod::Lba && linear % 2 != 0)) <==> (r matches Err(
            e,
        ) && e.msg == ADDRESS_ERROR),
        r matches Err(e) && e.msg == ADDRESS_ERROR ==> *final(bios) == *old(bios),
        linear <= 0xfdff ==> match disk.io_method {
            IoMethod::Chs(g) => (!geometry_ok(g) <==> (r matches Err(e) && e.msg
                == GEOMETRY_UNUSABLE_ERROR)) && (geometry_ok(g) && lba_cylinder(sector as int, g)
                > 1023 <==> (r matches Err(e) && e.msg == CHS_OVERFLOW_ERROR)),
            IoMethod::Lba => true,
        },
        r matches Err(e) && e.msg == CHS_OVERFLOW_ERROR ==> final(bios).transfers() == old(
            bios,
        ).transfers(),
        r is Ok || (r matches Err(e) && e.msg == READ_ERROR) ==> final(bios).buffer_addresses()
            == old(bios).buffer_addresses().push(linear),
{
    proof {
        crate::error::lemma_error_messages_distinct();
    }
    let ghost b0 = *bios;
    let ghost plan = transfer_plan(*disk, sector as int, 1);
    proof {
        if disk.wf() {
            if let IoMethod::Chs(g) = disk.io_method {
                vstd::arithmetic::div_mod::lemma_mod_bound(sector as int, g.sector as int);
            }
            assert(transfer_plan(*disk, sector as int + 1, 0) == Seq::<(int, int)>::empty());
            assert(plan == seq![(sector as int, 1int)] + transfer_plan(*disk, sector as int + 1, 0));
            assert(plan =~= seq![(sector as int, 1int)]);
        }
        assert(bios.transfers().subrange(0, bios.transfers().len() as int) =~= bios.transfers());
        assert(new_transfers(b0, *bios) =~= Seq::<Transfer>::empty());
    }
    let buffer_u32 = linear;
    if buffer_u32 > 0xfe00 - 1 {
        return Err(ErrorStr::new(ADDRESS_ERROR));
    }
    let ok = match disk.io_method {
        IoMethod::Lba => {
            if buffer_u32 % 2 != 0 {
                return Err(ErrorStr::new(ADDRESS_ERROR));
            }
            let dap = DiskAccessPacket::new(1, buffer_u32, sector);
            bios.read_disk_lba(disk.bios_number, &dap, buffer)
        },
        IoMethod::Chs(geometry) => {
            if geometry.sector == 0 || geometry.head == 0 {
                return Err(ErrorStr::new(GEOMETRY_UNUSABLE_ERROR));
            }
            let chs = match convert_lba_to_chs(sector, &geometry) {
                Ok(c) => c,
                Err(e) => {
                    return Err(e);
                },
            };
            proof {
                lemma_chs_round_trip(sector, geometry);
            }
            bios.read_disk_chs(disk.bios_number, chs, 1, buffer_u32, buffer)
        },
    };
    proof {
        assert(bios.transfers().subrange(0, b0.transfers().len() as int) =~= b0.transfers());
        assert(new_transfers(b0, *bios) =~= seq![bios.transfers().last()]);
        assert(buffer@.len() == 512);
        if ok {
            assert(buffer@ =~= sector_bytes(b0.disk_image(disk.bios_number), sector as int, 1));
        }
    }
    if !ok {
        return Err(ErrorStr::new(READ_ERROR));
    }
    Ok(())
}

/// Reads the single sector `sector` into `buffer`, at the address the BIOS
/// reports for it.
pub fn read_disk_sector<B: Bios>(
    bios: &mut B,
    disk: &Disk,
    sector: SectorIndex,
    buffer: &mut [u8],
) -> (r: Result<(), ErrorStr>)
    requires
        disk_matches(*disk, *old(bios)),
        old(buffer)@.len() == SECTOR_SIZE,
        sector < u32::MAX,
    ensures
        read_outcome(*old(bios), *final(bios), *disk, sector as int, old(buffer)@, final(buffer)@, r),
{
    let linear = bios.linear_address(buffer);
    read_disk_sector_at(bios, disk, sector, buffer, linear)
}

/// The little-endian 16-bit value at byte `i`.
pub open spec fn le16(b: Seq<u8>, i: int) -> u16 {
    (b[i] as int + b[i + 1] as int * 0x100) as u16
}

/// The little-endian 32-bit value at byte `i`.
pub open spec fn le32(b: Seq<u8>, i: int) -> u32 {
    (b[i] as int + b[i + 1] as int * 0x100 + b[i + 2] as int * 0x10000 + b[i + 3] as int
        * 0x1000000) as u32
}

pub fn get16(buffer: &[u8], offset: usize) -> (r: u16)
    requires
        offset + 2 <= buffer@.len(),
    ensures
        r == le16(buffer@, offset as int),
{
    buffer[offset] as u16 + buffer[offset + 1] as u16 * 0x100
}

pub fn get32(buffer: &[u8], offset: usize) -> (r: u32)
    requires
        offset + 4 <= buffer@.len(),
    ensures
        r == le32(buffer@, offset as int),
{
    buffer[offset] as u32 + buffer[offset + 1] as u32 * 0x100 + buffer[offset + 2] as u32 * 0x10000
        + buffer[offset + 3] as u32 * 0x1000000
}

} // verus!
