use vstd::prelude::*;

verus! {

/// Byte offset of the capability-length register (8-bit).
pub const EHCI_CAPLENGTH_OFFSET: u64 = 0x00;

/// Byte offset of the interface-version register (16-bit).
pub const EHCI_HCIVERSION_OFFSET: u64 = 0x02;

/// Byte offset of the structural-parameters register (32-bit).
pub const EHCI_HCSPARAMS_OFFSET: u64 = 0x04;

/// Byte offset of the capability-parameters register (32-bit).
pub const EHCI_HCCPARAMS_OFFSET: u64 = 0x08;

/// Byte offset of the command register from the mapped base.
pub const EHCI_USBCMD_OFFSET: u64 = 0x20;

/// The host-controller-reset bit of the command register.
pub const USB_CMD_RESET: u32 = 0x2;

/// One access performed through the register seam: its direction, width,
/// offset, and the value observed or stored.
#[derive(Clone, Copy, PartialEq, Eq, Structural, Debug)]
pub enum MmioAccess {
    Read8 { off: u64, val: u8 },
    Read16 { off: u64, val: u16 },
    Read32 { off: u64, val: u32 },
    Write32 { off: u64, val: u32 },
}

/// Uncached, width-typed access to a mapped device register window, the one
/// seam through which the probe/reset sequence touches hardware.  Every read
/// returns the register file as it stands at the call; the capability
/// registers (offsets below 0x10) are read-only and survive every access,
/// while operational registers may change between calls, as hardware does.
pub trait MmioDevice: Sized {
    /// The byte the window currently holds at `off`.
    spec fn byte_at(self, off: u64) -> u8;

    /// Every access performed through the seam so far, oldest first, which
    /// lets callers state exactly which registers an algorithm touched.
    spec fn log(self) -> Seq<MmioAccess>;

    /// An upper bound on the polls of the command register still needed
    /// before an issued reset reads back clear.  A responsive controller
    /// spends this budget; a controller that never clears the bit cannot
    /// implement this interface honestly and stalls boot indefinitely —
    /// the accepted unbounded-wait limitation, stated on the seam.
    spec fn reset_polls_left(self) -> nat;

    fn read8(&mut self, off: u64) -> (r: u8)
        requires
            off < 4096,
        ensures
            r == old(self).byte_at(off),
            final(self).log() == old(self).log().push(MmioAccess::Read8 { off, val: r }),
            forall|o: u64| o < 0x10 ==> final(self).byte_at(o) == old(self).byte_at(o),
    ;

    fn read16(&mut self, off: u64) -> (r: u16)
        requires
            off + 2 <= 4096,
            off % 2 == 0,
        ensures
            r == (old(self).byte_at(off) as u16) | ((old(self).byte_at((off + 1) as u64) as u16)
                << 8),
            final(self).log() == old(self).log().push(MmioAccess::Read16 { off, val: r }),
            forall|o: u64| o < 0x10 ==> final(self).byte_at(o) == old(self).byte_at(o),
    ;

    fn read32(&mut self, off: u64) -> (r: u32)
        requires
            off + 4 <= 4096,
            off % 4 == 0,
        ensures
            r == (old(self).byte_at(off) as u32) | ((old(self).byte_at((off + 1) as u64) as u32)
                << 8) | ((old(self).byte_at((off + 2) as u64) as u32) << 16) | ((old(
                self,
            ).byte_at((off + 3) as u64) as u32) << 24),
            final(self).log() == old(self).log().push(MmioAccess::Read32 { off, val: r }),
            forall|o: u64| o < 0x10 ==> final(self).byte_at(o) == old(self).byte_at(o),
            (off == EHCI_USBCMD_OFFSET && r & USB_CMD_RESET != 0) ==> final(self).reset_polls_left()
                < old(self).reset_polls_left(),
    ;

    fn write32(&mut self, off: u64, val: u32)
        requires
            0x10 <= off,
            off + 4 <= 4096,
            off % 4 == 0,
        ensures
            final(self).log() == old(self).log().push(MmioAccess::Write32 { off, val }),
            forall|o: u64| o < 0x10 ==> final(self).byte_at(o) == old(self).byte_at(o),
    ;
}

/// The access pattern of a completed reset: one store of exactly the reset
/// bit to the command register, then loads of that register and no other,
/// every load but the last still observing the bit set, and the last — the
/// returned value — observing it clear.
pub open spec fn reset_access_shape(added: Seq<MmioAccess>, last: u32) -> bool {
    &&& added.len() >= 2
    &&& added[0] == (MmioAccess::Write32 { off: EHCI_USBCMD_OFFSET, val: USB_CMD_RESET })
    &&& forall|k: int|
        1 <= k < added.len() ==> ((#[trigger] added[k]) matches MmioAccess::Read32 { off, val }
            && off == EHCI_USBCMD_OFFSET)
    &&& forall|k: int|
        1 <= k < added.len() - 1 ==> ((#[trigger] added[k]) matches MmioAccess::Read32 {
            off,
            val,
        } && val & USB_CMD_RESET != 0)
    &&& added.last() == (MmioAccess::Read32 { off: EHCI_USBCMD_OFFSET, val: last })
    &&& last & USB_CMD_RESET == 0
}

proof fn lemma_access_push(l: Seq<MmioAccess>, e: MmioAccess, n: int)
    requires
        0 <= n <= l.len(),
    ensures
        l.push(e).skip(n) == l.skip(n).push(e),
        l.push(e).subrange(0, n) == l.subrange(0, n),
{
    assert(l.push(e).skip(n) =~= l.skip(n).push(e));
    assert(l.push(e).subrange(0, n) =~= l.subrange(0, n));
}

/// The little-endian 16-bit value at `off`.
pub open spec fn word16<D: MmioDevice>(d: D, off: u64) -> u16 {
    (d.byte_at(off) as u16) | ((d.byte_at((off + 1) as u64) as u16) << 8)
}

/// The little-endian 32-bit value at `off`.
pub open spec fn word32<D: MmioDevice>(d: D, off: u64) -> u32 {
    (d.byte_at(off) as u32) | ((d.byte_at((off + 1) as u64) as u32) << 8) | ((d.byte_at(
        (off + 2) as u64,
    ) as u32) << 16) | ((d.byte_at((off + 3) as u64) as u32) << 24)
}

/// The four capability registers, reported for diagnostics only.
#[derive(Clone, Copy, PartialEq, Eq, Structural, Debug)]
pub struct ProbeReport {
    pub caplength: u8,
    pub hciversion: u16,
    pub hcsparams: u32,
    pub hccparams: u32,
}

/// Reads the four capability registers at their documented offsets with
/// correctly-sized loads.  None of the values alters control flow.
pub fn probe_controller<D: MmioDevice>(dev: &mut D) -> (r: ProbeReport)
    ensures
        r.caplength == old(dev).byte_at(EHCI_CAPLENGTH_OFFSET),
        r.hciversion == word16(*old(dev), EHCI_HCIVERSION_OFFSET),
        r.hcsparams == word32(*old(dev), EHCI_HCSPARAMS_OFFSET),
        r.hccparams == word32(*old(dev), EHCI_HCCPARAMS_OFFSET),
        final(dev).log() == old(dev).log() + seq![
            MmioAccess::Read8 { off: EHCI_CAPLENGTH_OFFSET, val: r.caplength },
            MmioAccess::Read16 { off: EHCI_HCIVERSION_OFFSET, val: r.hciversion },
            MmioAccess::Read32 { off: EHCI_HCSPARAMS_OFFSET, val: r.hcsparams },
            MmioAccess::Read32 { off: EHCI_HCCPARAMS_OFFSET, val: r.hccparams },
        ],
        forall|o: u64| o < 0x10 ==> final(dev).byte_at(o) == old(dev).byte_at(o),
{
    let caplength = dev.read8(EHCI_CAPLENGTH_OFFSET);
    let hciversion = dev.read16(EHCI_HCIVERSION_OFFSET);
    let hcsparams = dev.read32(EHCI_HCSPARAMS_OFFSET);
    let hccparams = dev.read32(EHCI_HCCPARAMS_OFFSET);
    let r = ProbeReport { caplength, hciversion, hcsparams, hccparams };
    proof {
        assert(final(dev).log() =~= old(dev).log() + seq![
            MmioAccess::Read8 { off: EHCI_CAPLENGTH_OFFSET, val: r.caplength },
            MmioAccess::Read16 { off: EHCI_HCIVERSION_OFFSET, val: r.hciversion },
            MmioAccess::Read32 { off: EHCI_HCSPARAMS_OFFSET, val: r.hcsparams },
            MmioAccess::Read32 { off: EHCI_HCCPARAMS_OFFSET, val: r.hccparams },
        ]);
    }
    r
}

/// Writes the reset bit into the command register, then polls the register
/// with uncached loads until the bit reads back clear, and returns the last
/// observed value.
///
/// No timeout is enforced: an unresponsive controller stalls the boot
/// sequence indefinitely.  That is an accepted limitation of this design,
/// not a silent recovery path.
pub fn reset_ehci_controller<D: MmioDevice>(dev: &mut D) -> (r: u32)
    ensures
        r & USB_CMD_RESET == 0,
        old(dev).log().is_prefix_of(final(dev).log()),
        reset_access_shape(final(dev).log().skip(old(dev).log().len() as int), r),
{
    let ghost base = dev.log().len() as int;
    let ghost l_entry = dev.log();
    dev.write32(EHCI_USBCMD_OFFSET, USB_CMD_RESET);
    proof {
        lemma_access_push(l_entry, MmioAccess::Write32 { off: EHCI_USBCMD_OFFSET, val: USB_CMD_RESET }, base);
        assert(l_entry.skip(base) =~= Seq::<MmioAccess>::empty());
    }
    loop
        invariant
            base == old(dev).log().len(),
            dev.log().len() > base,
            dev.log().subrange(0, base) == old(dev).log(),
            dev.log()[base] == (MmioAccess::Write32 { off: EHCI_USBCMD_OFFSET, val: USB_CMD_RESET }),
            forall|k: int|
                base < k < dev.log().len() ==> ((#[trigger] dev.log()[k])
                    matches MmioAccess::Read32 { off, val } && off == EHCI_USBCMD_OFFSET && val
                    & USB_CMD_RESET != 0),
        decreases dev.reset_polls_left(),
    {
        let ghost l0 = dev.log();
        let val = dev.read32(EHCI_USBCMD_OFFSET);
        proof {
            lemma_access_push(l0, MmioAccess::Read32 { off: EHCI_USBCMD_OFFSET, val }, base);
        }
        if val & USB_CMD_RESET == 0 {
            proof {
                let added = dev.log().skip(base);
                assert(added.len() == dev.log().len() - base);
                assert forall|k: int| 0 <= k < added.len() implies #[trigger] added[k] == dev.log()[base + k] by {
                }
                assert(added[0] == dev.log()[base]);
                assert(added.last() == dev.log()[dev.log().len() - 1]);
                assert(added.last() == (MmioAccess::Read32 { off: EHCI_USBCMD_OFFSET, val }));
            }
            return val;
        }
    }
}

/// A deterministic in-memory register window: a byte array behind the
/// `MmioDevice` seam.  After a reset is issued, the command register keeps
/// the reset bit for a configured number of polls and then clears it, so a
/// driving loop can be observed to terminate.
pub struct InMemoryDevice {
    pub regs: Vec<u8>,
    pub polls_until_clear: u32,
    pub accesses: Ghost<Seq<MmioAccess>>,
}

impl InMemoryDevice {
    /// A window over the given bytes; once reset is issued, its command
    /// register clears after `polls_until_clear` polls.
    pub fn new(regs: Vec<u8>, polls_until_clear: u32) -> (r: InMemoryDevice)
        ensures
            r.regs@ == regs@,
            r.polls_until_clear == polls_until_clear,
            r.log() == Seq::<MmioAccess>::empty(),
    {
        InMemoryDevice { regs, polls_until_clear, accesses: Ghost(Seq::empty()) }
    }

    fn byte(&self, off: u64) -> (r: u8)
        ensures
            r == self.byte_at(off),
    {
        if off < self.regs.len() as u64 {
            self.regs[off as usize]
        } else {
            0
        }
    }
}

impl MmioDevice for InMemoryDevice {
    open spec fn byte_at(self, off: u64) -> u8 {
        if off < self.regs@.len() {
            self.regs@[off as int]
        } else {
            0
        }
    }

    open spec fn log(self) -> Seq<MmioAccess> {
        self.accesses@
    }

    open spec fn reset_polls_left(self) -> nat {
        if self.regs@.len() > 0x20 && self.regs@[0x20] & 2 != 0 {
            (self.polls_until_clear + 1) as nat
        } else {
            0nat
        }
    }

    fn read8(&mut self, off: u64) -> (r: u8) {
        let value = self.byte(off);
        self.accesses = Ghost(self.accesses@.push(MmioAccess::Read8 { off, val: value }));
        value
    }

    fn read16(&mut self, off: u64) -> (r: u16) {
        let lo = self.byte(off);
        let hi = self.byte(off + 1);
        let value = (lo as u16) | ((hi as u16) << 8);
        self.accesses = Ghost(self.accesses@.push(MmioAccess::Read16 { off, val: value }));
        value
    }

    fn read32(&mut self, off: u64) -> (r: u32) {
        let b0 = self.byte(off);
        let b1 = self.byte(off + 1);
        let b2 = self.byte(off + 2);
        let b3 = self.byte(off + 3);
        let value = (b0 as u32) | ((b1 as u32) << 8) | ((b2 as u32) << 16) | ((b3 as u32) << 24);
        proof {
            assert(value & 2 == (b0 as u32) & 2) by (bit_vector)
                requires
                    value == (b0 as u32) | ((b1 as u32) << 8) | ((b2 as u32) << 16) | ((b3 as u32)
                        << 24),
            ;
            assert((b0 & 0xFD) & 2 == 0) by (bit_vector);
            assert(b0 & 2 != 0 ==> (b0 as u32) & 2 != 0) by (bit_vector);
            assert(b0 & 2 == 0 ==> (b0 as u32) & 2 == 0) by (bit_vector);
        }
        proof {
            assert(0u8 & 2 == 0) by (bit_vector);
        }
        if off == EHCI_USBCMD_OFFSET && (b0 as u32) & USB_CMD_RESET != 0 && (off as usize)
            < self.regs.len() {
            proof {
                assert(old(self).regs@[0x20] & 2 != 0);
                assert(old(self).reset_polls_left() == old(self).polls_until_clear + 1);
            }
            if self.polls_until_clear > 0 {
                self.polls_until_clear = self.polls_until_clear - 1;
                proof {
                    assert(self.reset_polls_left() <= self.polls_until_clear + 1);
                }
            } else {
                let cleared = b0 & 0xFD;
                self.regs[off as usize] = cleared;
                proof {
                    assert(self.regs@[0x20] == cleared);
                    assert(self.reset_polls_left() == 0);
                }
            }
        } else {
            proof {
                if off == EHCI_USBCMD_OFFSET && value & USB_CMD_RESET != 0 {
                    assert((b0 as u32) & 2 != 0);
                    assert(b0 & 2 != 0);
                    assert(off as usize == 0x20usize);
                    assert((off as usize) < self.regs.len());
                }
            }
        }
        self.accesses = Ghost(self.accesses@.push(MmioAccess::Read32 { off, val: value }));
        value
    }

    fn write32(&mut self, off: u64, val: u32) {
        let b0 = (val & 0xFF) as u8;
        let b1 = ((val >> 8) & 0xFF) as u8;
        let b2 = ((val >> 16) & 0xFF) as u8;
        let b3 = ((val >> 24) & 0xFF) as u8;
        let ghost before = self.regs@;
        if (off as usize) < self.regs.len() {
            self.regs[off as usize] = b0;
        }
        if (off as usize) + 1 < self.regs.len() {
            self.regs[off as usize + 1] = b1;
        }
        if (off as usize) + 2 < self.regs.len() {
            self.regs[off as usize + 2] = b2;
        }
        if (off as usize) + 3 < self.regs.len() {
            self.regs[off as usize + 3] = b3;
        }
        self.accesses = Ghost(self.accesses@.push(MmioAccess::Write32 { off, val }));
    }
}

} // verus!
