//! A disk and a screen simulated in memory, answering the same services as
//! the BIOS.

use vstd::prelude::*;

use crate::console::Console;
use crate::disk::{sector_bytes, Bios, Chs, DiskAccessPacket, Transfer};

verus! {

/// A disk held in memory, answering the BIOS services the loader uses, and
/// recording every transfer asked of it. It serves the same image whatever
/// disk number is asked for.
pub struct MemDisk {
    pub image: Vec<u8>,
    /// Whether extended (LBA) access is offered.
    pub extensions: bool,
    /// The CHS geometry reported, if any.
    pub geometry: Option<Chs>,
    /// The linear address reported for every buffer.
    pub base_address: u32,
    pub log: Vec<Transfer>,
    /// The segment:offset buffer address handed over with each transfer.
    pub addresses: Vec<u32>,
}

/// The geometry a disk reports, or all zeros when it reports none.
pub open spec fn reported_geometry(g: Option<Chs>) -> Chs {
    match g {
        Some(g) => g,
        None => Chs { cylinder: 0, head: 0, sector: 0 },
    }
}

impl MemDisk {
    /// A disk offering LBA access, whose buffers lie at `base_address`.
    pub fn new(image: Vec<u8>, base_address: u32) -> (d: MemDisk)
        ensures
            d.image@ == image@,
            d.extensions,
            d.geometry is None,
            d.base_address == base_address,
            d.log@.len() == 0,
    {
        MemDisk {
            image,
            extensions: true,
            geometry: None,
            base_address,
            log: Vec::new(),
            addresses: Vec::new(),
        }
    }

    /// A disk offering only CHS access under `geometry`.
    pub fn with_chs(image: Vec<u8>, geometry: Chs, base_address: u32) -> (d: MemDisk)
        ensures
            d.image@ == image@,
            !d.extensions,
            d.geometry == Some(geometry),
            d.base_address == base_address,
            d.log@.len() == 0,
    {
        MemDisk {
            image,
            extensions: false,
            geometry: Some(geometry),
            base_address,
            log: Vec::new(),
            addresses: Vec::new(),
        }
    }

    /// Copies sectors `lba .. lba + count` into `buffer`, when they exist.
    fn copy_sectors(&self, lba: u64, count: u64, buffer: &mut [u8]) -> (ok: bool)
        requires
            old(buffer)@.len() == count * 512,
            count <= 255,
            lba <= u32::MAX,
        ensures
            final(buffer)@.len() == old(buffer)@.len(),
            ok == ((lba + count) * 512 <= self.image@.len()),
            ok ==> final(buffer)@ == sector_bytes(self.image@, lba as int, count as int),
    {
        let len = self.image.len();
        if (lba + count) * 512 > len as u64 {
            return false;
        }
        let start: usize = (lba * 512) as usize;
        let n: usize = (count * 512) as usize;
        let mut i: usize = 0;
        while i < n
            invariant
                n == buffer@.len(),
                n == count * 512,
                start == lba * 512,
                len == self.image@.len(),
                start + n <= len,
                i <= n,
                forall|j: int| 0 <= j < i ==> #[trigger] buffer@[j] == self.image@[start + j],
            decreases n - i,
        {
            buffer[i] = self.image[start + i];
            i = i + 1;
        }
        assert(buffer@ =~= sector_bytes(self.image@, lba as int, count as int));
        true
    }
}

impl Bios for MemDisk {
    open spec fn disk_image(&self, disk: u8) -> Seq<u8> {
        self.image@
    }

    open spec fn geometry(&self, disk: u8) -> Chs {
        reported_geometry(self.geometry)
    }

    open spec fn transfers(&self) -> Seq<Transfer> {
        self.log@
    }

    open spec fn buffer_addresses(&self) -> Seq<u32> {
        self.addresses@
    }

    fn linear_address(&self, buffer: &[u8]) -> u32 {
        self.base_address
    }

    fn check_for_int13_extensions(&mut self, disk: u8) -> (r: bool) {
        self.extensions
    }

    fn get_disk_geometry(&mut self, disk: u8) -> (r: Option<Chs>) {
        self.geometry
    }

    fn read_disk_lba(&mut self, disk: u8, dap: &DiskAccessPacket, buffer: &mut [u8]) -> (ok: bool) {
        let ok = self.copy_sectors(dap.lba as u64, dap.count as u64, buffer);
        self.log.push(Transfer { lba: dap.lba, count: dap.count as u32, ok });
        self.addresses.push(dap.buffer);
        ok
    }

    fn read_disk_chs(
        &mut self,
        disk: u8,
        chs: Chs,
        count: u8,
        buffer_address: u32,
        buffer: &mut [u8],
    ) -> (ok: bool) {
        let g = match self.geometry {
            Some(g) => g,
            None => Chs { cylinder: 0, head: 0, sector: 0 },
        };
        proof {
            assert(chs.cylinder as int * g.head as int <= 0xffff * 0xffff) by (nonlinear_arith)
                requires
                    chs.cylinder <= 0xffff,
                    g.head <= 0xffff,
            ;
            assert((chs.cylinder as int * g.head as int + chs.head as int) * g.sector as int <= (
            0xffff * 0xffff + 0xffff) * 0xff) by (nonlinear_arith)
                requires
                    chs.cylinder as int * g.head as int <= 0xffff * 0xffff,
                    chs.head <= 0xffff,
                    g.sector <= 0xff,
            ;
        }
        let lba: u64 = (chs.cylinder as u64 * g.head as u64 + chs.head as u64) * g.sector as u64
            + chs.sector as u64;
        let ok = if lba <= u32::MAX as u64 {
            self.copy_sectors(lba, count as u64, buffer)
        } else {
            false
        };
        self.log.push(Transfer { lba: #[verifier::truncate] (lba as u32), count: count as u32, ok });
        self.addresses.push(buffer_address);
        ok
    }
}

/// A console that keeps what is printed on it.
pub struct ScreenLog {
    pub text: Vec<u8>,
    pub stopped: bool,
}

impl ScreenLog {
    pub fn new() -> (s: ScreenLog)
        ensures
            s.text@.len() == 0,
            !s.stopped,
    {
        ScreenLog { text: Vec::new(), stopped: false }
    }
}

impl Console for ScreenLog {
    open spec fn output(&self) -> Seq<u8> {
        self.text@
    }

    open spec fn halted(&self) -> bool {
        self.stopped
    }

    fn print_char(&mut self, ch: u8) {
        self.text.push(ch);
    }

    fn halt(&mut self) {
        self.stopped = true;
    }
}

} // verus!
