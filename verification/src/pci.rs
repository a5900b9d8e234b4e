use vstd::prelude::*;

verus! {

/// Class code reported by serial-bus controllers.
pub const EHCI_CLASS_CODE: u8 = 0x0C;

/// Subclass reported by USB controllers.
pub const EHCI_SUBCLASS_CODE: u8 = 0x03;

/// Programming interface reported by EHCI-compatible host controllers.
pub const EHCI_PROG_IF: u8 = 0x20;

/// A basic PCI device header, as discovered by configuration-space enumeration.
pub struct PciDevice {
    pub bus: u8,
    pub slot: u8,
    pub func: u8,
    pub vendor_id: u16,
    pub device_id: u16,
    pub class_code: u8,
    pub subclass: u8,
    pub prog_if: u8,
    pub bar0: u32,
}

/// Capability to read PCI configuration space, one aligned 32-bit value at a
/// time.  The production backend drives the 0xCF8/0xCFC port pair; a
/// deterministic in-memory space implements the same interface for tests.
/// The `log` tracks every dword read performed, oldest first, which lets
/// callers state which locations an algorithm touches.
pub trait ConfigAccess: Sized {
    /// The 32-bit configuration value at an aligned offset of one location.
    spec fn dword(self, bus: u8, slot: u8, func: u8, offset: u8) -> u32;

    /// All dword reads performed so far, oldest first.
    spec fn log(self) -> Seq<(u8, u8, u8, u8)>;

    fn read_dword(&mut self, bus: u8, slot: u8, func: u8, offset: u8) -> (r: u32)
        requires
            slot < 32,
            func < 8,
            offset & 3 == 0,
        ensures
            r == old(self).dword(bus, slot, func, offset),
            final(self).log() == old(self).log().push((bus, slot, func, offset)),
            forall|b: u8, s: u8, f: u8, o: u8|
                final(self).dword(b, s, f, o) == old(self).dword(b, s, f, o),
    ;
}

/// The 16-bit field that a word read at `offset` extracts from the
/// surrounding aligned dword.
pub open spec fn word_at<A: ConfigAccess>(a: A, bus: u8, slot: u8, func: u8, offset: u8) -> u16 {
    ((a.dword(bus, slot, func, (offset & 0xFC) as u8) >> (((offset & 2) as u32) * 8)) & 0xFFFF) as u16
}

/// The 8-bit field that a byte read at `offset` extracts from the
/// surrounding aligned dword.
pub open spec fn byte_at<A: ConfigAccess>(a: A, bus: u8, slot: u8, func: u8, offset: u8) -> u8 {
    ((a.dword(bus, slot, func, (offset & 0xFC) as u8) >> (((offset & 3) as u32) * 8)) & 0xFF) as u8
}

/// The vendor identifier of a location (offset 0x00).
pub open spec fn vendor_of<A: ConfigAccess>(a: A, bus: u8, slot: u8, func: u8) -> u16 {
    word_at(a, bus, slot, func, 0x00)
}

/// The device identifier of a location (offset 0x02).
pub open spec fn device_of<A: ConfigAccess>(a: A, bus: u8, slot: u8, func: u8) -> u16 {
    word_at(a, bus, slot, func, 0x02)
}

/// The class code of a location (offset 0x0B).
pub open spec fn class_of<A: ConfigAccess>(a: A, bus: u8, slot: u8, func: u8) -> u8 {
    byte_at(a, bus, slot, func, 0x0B)
}

/// The subclass of a location (offset 0x0A).
pub open spec fn subclass_of<A: ConfigAccess>(a: A, bus: u8, slot: u8, func: u8) -> u8 {
    byte_at(a, bus, slot, func, 0x0A)
}

/// The programming interface of a location (offset 0x09).
pub open spec fn prog_if_of<A: ConfigAccess>(a: A, bus: u8, slot: u8, func: u8) -> u8 {
    byte_at(a, bus, slot, func, 0x09)
}

/// The first base-address register of a location (offset 0x10).
pub open spec fn bar0_of<A: ConfigAccess>(a: A, bus: u8, slot: u8, func: u8) -> u32 {
    a.dword(bus, slot, func, 0x10)
}

/// The header-type byte of function 0 of a slot (offset 0x0E).
pub open spec fn header_of<A: ConfigAccess>(a: A, bus: u8, slot: u8) -> u8 {
    byte_at(a, bus, slot, 0, 0x0E)
}

/// A device answers at this location: its vendor id is not the all-ones
/// "no device present" pattern.
pub open spec fn present<A: ConfigAccess>(a: A, bus: u8, slot: u8, func: u8) -> bool {
    vendor_of(a, bus, slot, func) != 0xFFFF
}

/// The location carries the fixed USB2 host-controller signature.
pub open spec fn is_ehci<A: ConfigAccess>(a: A, bus: u8, slot: u8, func: u8) -> bool {
    &&& present(a, bus, slot, func)
    &&& class_of(a, bus, slot, func) == EHCI_CLASS_CODE
    &&& subclass_of(a, bus, slot, func) == EHCI_SUBCLASS_CODE
    &&& prog_if_of(a, bus, slot, func) == EHCI_PROG_IF
}

/// Function 0 of this slot declares the slot multi-function.
pub open spec fn multi_function<A: ConfigAccess>(a: A, bus: u8, slot: u8) -> bool {
    header_of(a, bus, slot) & 0x80 != 0
}

/// The enumeration visits this location.  Function 0 is always visited;
/// functions 1-7 are visited unless function 0 answers and declares the
/// slot single-function (the skip optimization).
pub open spec fn scanned<A: ConfigAccess>(a: A, bus: u8, slot: u8, func: u8) -> bool {
    ||| func == 0
    ||| !present(a, bus, slot, 0)
    ||| multi_function(a, bus, slot)
}

/// A visited location carrying the target signature.
pub open spec fn hit<A: ConfigAccess>(a: A, bus: u8, slot: u8, func: u8) -> bool {
    scanned(a, bus, slot, func) && is_ehci(a, bus, slot, func)
}

/// Lexicographic order of scan positions: `(b, s, f)` comes strictly before
/// `(b2, s2, f2)` in bus-then-slot-then-function order.
pub open spec fn scan_before(b: int, s: int, f: int, b2: int, s2: int, f2: int) -> bool {
    ||| b < b2
    ||| (b == b2 && s < s2)
    ||| (b == b2 && s == s2 && f < f2)
}

/// How many vendor-id reads (aligned offset 0) of location `(b, s, f)` the
/// read log `l` contains.
pub open spec fn vendor_count(l: Seq<(u8, u8, u8, u8)>, b: u8, s: u8, f: u8) -> int
    decreases l.len(),
{
    if l.len() == 0 {
        0
    } else {
        vendor_count(l.drop_last(), b, s, f) + if l.last() == (b, s, f, 0u8) {
            1int
        } else {
            0int
        }
    }
}

/// No location strictly before position `(bc, sc, fc)` is a hit.
pub open spec fn no_hit_before<A: ConfigAccess>(a: A, bc: int, sc: int, fc: int) -> bool {
    forall|b: u8, s: u8, f: u8|
        s < 32 && f < 8 && scan_before(b as int, s as int, f as int, bc, sc, fc)
            ==> !hit(a, b, s, f)
}

/// The reads appended so far are exactly one vendor read for every visited
/// location strictly before position `(bc, sc, fc)`, and none for any other.
pub open spec fn counts_ok<A: ConfigAccess>(
    a: A,
    added: Seq<(u8, u8, u8, u8)>,
    bc: int,
    sc: int,
    fc: int,
) -> bool {
    forall|b: u8, s: u8, f: u8|
        s < 32 && f < 8 ==> #[trigger] vendor_count(added, b, s, f)
            == if scan_before(b as int, s as int, f as int, bc, sc, fc) && scanned(a, b, s, f) {
                1int
            } else {
                0int
            }
}

/// Every appended read touches a visited location of the configuration space.
pub open spec fn shape_ok<A: ConfigAccess>(a: A, added: Seq<(u8, u8, u8, u8)>) -> bool {
    forall|k: int|
        0 <= k < added.len() ==> {
            let e = #[trigger] added[k];
            e.1 < 32 && e.2 < 8 && scanned(a, e.0, e.1, e.2)
        }
}

/// Composes the value written to the configuration address port: enable bit,
/// bus, slot, function and the aligned register offset.
pub fn pci_config_address(bus: u8, slot: u8, func: u8, offset: u8) -> (r: u32)
    ensures
        r == 0x8000_0000u32 | ((bus as u32) << 16) | ((slot as u32) << 11) | ((func as u32) << 8)
            | ((offset & 0xFC) as u32),
{
    let lbus = bus as u32;
    let lslot = slot as u32;
    let lfunc = func as u32;
    let loffset = (offset & 0xFC) as u32;

    0x8000_0000 | (lbus << 16) | (lslot << 11) | (lfunc << 8) | loffset
}

/// Reads the aligned 32-bit configuration value containing `offset`.
pub fn pci_read_config_dword<A: ConfigAccess>(
    access: &mut A,
    bus: u8,
    slot: u8,
    func: u8,
    offset: u8,
) -> (r: u32)
    requires
        slot < 32,
        func < 8,
    ensures
        r == old(access).dword(bus, slot, func, (offset & 0xFC) as u8),
        final(access).log() == old(access).log().push((bus, slot, func, (offset & 0xFC) as u8)),
        forall|b: u8, s: u8, f: u8, o: u8|
            final(access).dword(b, s, f, o) == old(access).dword(b, s, f, o),
{
    let aligned = offset & 0xFC;
    proof {
        assert((offset & 0xFC) & 3 == 0) by (bit_vector);
    }
    access.read_dword(bus, slot, func, aligned)
}

/// Reads a 16-bit configuration field at `offset`.
pub fn pci_read_config_word<A: ConfigAccess>(
    access: &mut A,
    bus: u8,
    slot: u8,
    func: u8,
    offset: u8,
) -> (r: u16)
    requires
        slot < 32,
        func < 8,
    ensures
        r == word_at(*old(access), bus, slot, func, offset),
        final(access).log() == old(access).log().push((bus, slot, func, (offset & 0xFC) as u8)),
        forall|b: u8, s: u8, f: u8, o: u8|
            final(access).dword(b, s, f, o) == old(access).dword(b, s, f, o),
{
    let dword = pci_read_config_dword(access, bus, slot, func, offset & 0xFC);
    proof {
        assert((offset & 0xFC) & 0xFC == offset & 0xFC) by (bit_vector);
        assert((offset & 2) <= 2) by (bit_vector);
    }
    let shift = ((offset & 2) as u32) * 8;
    ((dword >> shift) & 0xFFFF) as u16
}

/// Reads an 8-bit configuration field at `offset`.
pub fn pci_read_config_byte<A: ConfigAccess>(
    access: &mut A,
    bus: u8,
    slot: u8,
    func: u8,
    offset: u8,
) -> (r: u8)
    requires
        slot < 32,
        func < 8,
    ensures
        r == byte_at(*old(access), bus, slot, func, offset),
        final(access).log() == old(access).log().push((bus, slot, func, (offset & 0xFC) as u8)),
        forall|b: u8, s: u8, f: u8, o: u8|
            final(access).dword(b, s, f, o) == old(access).dword(b, s, f, o),
{
    let dword = pci_read_config_dword(access, bus, slot, func, offset & 0xFC);
    proof {
        assert((offset & 0xFC) & 0xFC == offset & 0xFC) by (bit_vector);
        assert((offset & 3) <= 3) by (bit_vector);
    }
    let shift = ((offset & 3) as u32) * 8;
    ((dword >> shift) & 0xFF) as u8
}

proof fn lemma_log_push<T>(l: Seq<T>, e: T, n: int)
    requires
        0 <= n <= l.len(),
    ensures
        l.push(e).skip(n) == l.skip(n).push(e),
        l.push(e).subrange(0, n) == l.subrange(0, n),
{
    assert(l.push(e).skip(n) =~= l.skip(n).push(e));
    assert(l.push(e).subrange(0, n) =~= l.subrange(0, n));
}

proof fn lemma_vendor_count_concat(
    x: Seq<(u8, u8, u8, u8)>,
    y: Seq<(u8, u8, u8, u8)>,
    b: u8,
    s: u8,
    f: u8,
)
    ensures
        vendor_count(x + y, b, s, f) == vendor_count(x, b, s, f) + vendor_count(y, b, s, f),
    decreases y.len(),
{
    if y.len() == 0 {
        assert(x + y =~= x);
    } else {
        assert((x + y).drop_last() =~= x + y.drop_last());
        assert((x + y).last() == y.last());
        lemma_vendor_count_concat(x, y.drop_last(), b, s, f);
    }
}

proof fn lemma_vendor_count_one(t: Seq<(u8, u8, u8, u8)>, b: u8, s: u8, f: u8)
    requires
        t.len() >= 1,
        t[0].3 == 0,
        forall|k: int| 1 <= k < t.len() ==> (#[trigger] t[k]).3 != 0,
    ensures
        vendor_count(t, b, s, f) == if t[0].0 == b && t[0].1 == s && t[0].2 == f {
            1int
        } else {
            0int
        },
    decreases t.len(),
{
    if t.len() == 1 {
        assert(t.drop_last() =~= Seq::<(u8, u8, u8, u8)>::empty());
        assert(vendor_count(t.drop_last(), b, s, f) == 0);
        assert(t.last() == t[0]);
        if t[0].0 == b && t[0].1 == s && t[0].2 == f {
            assert(t[0] == (b, s, f, 0u8));
            assert(vendor_count(t, b, s, f) == 1);
        } else {
            assert(t[0] != (b, s, f, 0u8));
            assert(vendor_count(t, b, s, f) == 0);
        }
    } else {
        assert(t.drop_last()[0] == t[0]);
        assert forall|k: int| 1 <= k < t.drop_last().len() implies (#[trigger] t.drop_last()[k]).3
            != 0 by {
            assert(t.drop_last()[k] == t[k]);
        }
        lemma_vendor_count_one(t.drop_last(), b, s, f);
        assert(t.last() == t[t.len() - 1]);
        assert(t.last().3 != 0);
        assert(t.last() != (b, s, f, 0u8));
    }
}

/// The bookkeeping step for one visited location: appending its reads (one
/// vendor read followed by reads at other offsets) moves the scan frontier
/// from the processed position to the next position.
proof fn lemma_advance<A: ConfigAccess>(
    a: A,
    added: Seq<(u8, u8, u8, u8)>,
    tail: Seq<(u8, u8, u8, u8)>,
    bp: u8,
    sp: u8,
    fp: u8,
    bn: int,
    sn: int,
    fnx: int,
)
    requires
        counts_ok(a, added, bp as int, sp as int, fp as int),
        shape_ok(a, added),
        no_hit_before(a, bp as int, sp as int, fp as int),
        sp < 32,
        fp < 8,
        scanned(a, bp, sp, fp),
        !is_ehci(a, bp, sp, fp),
        tail.len() >= 1,
        tail[0] == (bp, sp, fp, 0u8),
        forall|k: int|
            0 <= k < tail.len() ==> (#[trigger] tail[k]).0 == bp && tail[k].1 == sp
                && tail[k].2 == fp,
        forall|k: int| 1 <= k < tail.len() ==> (#[trigger] tail[k]).3 != 0,
        forall|b: u8, s: u8, f: u8|
            s < 32 && f < 8 && #[trigger] scanned(a, b, s, f) ==> (scan_before(
                b as int,
                s as int,
                f as int,
                bn,
                sn,
                fnx,
            ) <==> (scan_before(b as int, s as int, f as int, bp as int, sp as int, fp as int) || (
            b == bp && s == sp && f == fp))),
    ensures
        counts_ok(a, added + tail, bn, sn, fnx),
        shape_ok(a, added + tail),
        no_hit_before(a, bn, sn, fnx),
{
    assert forall|b: u8, s: u8, f: u8| s < 32 && f < 8 implies #[trigger] vendor_count(
        added + tail,
        b,
        s,
        f,
    ) == if scan_before(b as int, s as int, f as int, bn, sn, fnx) && scanned(a, b, s, f) {
        1int
    } else {
        0int
    } by {
        lemma_vendor_count_concat(added, tail, b, s, f);
        lemma_vendor_count_one(tail, b, s, f);
    }
    assert forall|k: int| 0 <= k < (added + tail).len() implies {
        let e = #[trigger] (added + tail)[k];
        e.1 < 32 && e.2 < 8 && scanned(a, e.0, e.1, e.2)
    } by {
        if k < added.len() {
            assert((added + tail)[k] == added[k]);
        } else {
            assert((added + tail)[k] == tail[k - added.len()]);
        }
    }
    assert forall|b: u8, s: u8, f: u8|
        s < 32 && f < 8 && scan_before(b as int, s as int, f as int, bn, sn, fnx) implies !hit(
        a,
        b,
        s,
        f,
    ) by {
        if scanned(a, b, s, f) {
            if b == bp && s == sp && f == fp {
                assert(!is_ehci(a, b, s, f));
            }
        }
    }
}

/// The dword reads the scan performs at one visited location that is not a
/// hit: the vendor probe; for a present device the three class-triple reads;
/// and, at function 0 of a present non-matching device, the header-type read.
pub open spec fn step_log<A: ConfigAccess>(a: A, b: u8, s: u8, f: u8) -> Seq<(u8, u8, u8, u8)> {
    if !scanned(a, b, s, f) {
        Seq::empty()
    } else if !present(a, b, s, f) {
        seq![(b, s, f, 0u8)]
    } else if f == 0 && !is_ehci(a, b, s, f) {
        seq![(b, s, f, 0u8), (b, s, f, 8u8), (b, s, f, 8u8), (b, s, f, 8u8), (b, s, f, 0x0Cu8)]
    } else {
        seq![(b, s, f, 0u8), (b, s, f, 8u8), (b, s, f, 8u8), (b, s, f, 8u8)]
    }
}

/// The reads for functions 0..`f` of slot `(b, s)`, none of them a hit.
pub open spec fn funcs_log<A: ConfigAccess>(a: A, b: u8, s: u8, f: int) -> Seq<(u8, u8, u8, u8)>
    decreases f,
{
    if f <= 0 {
        Seq::empty()
    } else {
        funcs_log(a, b, s, f - 1) + step_log(a, b, s, (f - 1) as u8)
    }
}

/// The reads for slots 0..`s` of bus `b`, none of their functions a hit.
pub open spec fn slots_log<A: ConfigAccess>(a: A, b: u8, s: int) -> Seq<(u8, u8, u8, u8)>
    decreases s,
{
    if s <= 0 {
        Seq::empty()
    } else {
        slots_log(a, b, s - 1) + funcs_log(a, b, (s - 1) as u8, 8)
    }
}

/// The reads for buses 0..`nb`, none of their locations a hit.
pub open spec fn buses_log<A: ConfigAccess>(a: A, nb: int) -> Seq<(u8, u8, u8, u8)>
    decreases nb,
{
    if nb <= 0 {
        Seq::empty()
    } else {
        buses_log(a, nb - 1) + slots_log(a, (nb - 1) as u8, 32)
    }
}

/// The reads at the winning location: the vendor probe, the class triple,
/// then the device id and the base-address register — and nothing after.
pub open spec fn hit_log(b: u8, s: u8, f: u8) -> Seq<(u8, u8, u8, u8)> {
    seq![(b, s, f, 0u8), (b, s, f, 8u8), (b, s, f, 8u8), (b, s, f, 8u8), (b, s, f, 0u8), (b, s, f, 0x10u8)]
}

/// The reads of a full scan that finds nothing.
pub open spec fn full_scan_log<A: ConfigAccess>(a: A) -> Seq<(u8, u8, u8, u8)> {
    buses_log(a, 256)
}

/// The reads of a scan whose first visited match sits at `(b, s, f)`: the
/// scan stops there, so no later location is ever read.
pub open spec fn found_scan_log<A: ConfigAccess>(a: A, b: u8, s: u8, f: u8) -> Seq<(u8, u8, u8, u8)> {
    buses_log(a, b as int) + slots_log(a, b, s as int) + funcs_log(a, b, s, f as int) + hit_log(
        b,
        s,
        f,
    )
}

proof fn lemma_funcs_log_skip<A: ConfigAccess>(a: A, b: u8, s: u8)
    requires
        present(a, b, s, 0),
        !multi_function(a, b, s),
    ensures
        funcs_log(a, b, s, 8) == funcs_log(a, b, s, 1),
{
    assert forall|f: u8| 1 <= f < 8 implies step_log(a, b, s, f) =~= Seq::<(u8, u8, u8, u8)>::empty() by {
        assert(!scanned(a, b, s, f));
    }
    assert(funcs_log(a, b, s, 2) =~= funcs_log(a, b, s, 1));
    assert(funcs_log(a, b, s, 3) =~= funcs_log(a, b, s, 2));
    assert(funcs_log(a, b, s, 4) =~= funcs_log(a, b, s, 3));
    assert(funcs_log(a, b, s, 5) =~= funcs_log(a, b, s, 4));
    assert(funcs_log(a, b, s, 6) =~= funcs_log(a, b, s, 5));
    assert(funcs_log(a, b, s, 7) =~= funcs_log(a, b, s, 6));
    assert(funcs_log(a, b, s, 8) =~= funcs_log(a, b, s, 7));
}

/// Scans the whole configuration space in bus / slot / function order and
/// returns the first location carrying the USB2 host-controller signature.
///
/// The caller must run this exactly once, single-threaded, before interrupts
/// are live: the underlying address/data port pair has no mutual exclusion.
///
/// The contract pins down the scan completely: the result is the
/// lexicographically first visited matching location (or `None` when no
/// visited location matches), every read performed lands on a visited
/// location, and a full scan reads each visited vendor id exactly once.
#[verifier::rlimit(100)]
pub fn find_ehci_controller<A: ConfigAccess>(access: &mut A) -> (r: Option<PciDevice>)
    ensures
        forall|b: u8, s: u8, f: u8, o: u8|
            final(access).dword(b, s, f, o) == old(access).dword(b, s, f, o),
        old(access).log().is_prefix_of(final(access).log()),
        shape_ok(*old(access), final(access).log().skip(old(access).log().len() as int)),
        r is None ==> counts_ok(
            *old(access),
            final(access).log().skip(old(access).log().len() as int),
            256,
            0,
            0,
        ),
        r is None ==> final(access).log().skip(old(access).log().len() as int)
            == full_scan_log(*old(access)),
        (r is None) <==> no_hit_before(*old(access), 256, 0, 0),
        r matches Some(d) ==> final(access).log().skip(old(access).log().len() as int)
            == found_scan_log(*old(access), d.bus, d.slot, d.func),
        r matches Some(d) ==> {
            &&& d.slot < 32
            &&& d.func < 8
            &&& hit(*old(access), d.bus, d.slot, d.func)
            &&& no_hit_before(*old(access), d.bus as int, d.slot as int, d.func as int)
            &&& d.vendor_id == vendor_of(*old(access), d.bus, d.slot, d.func)
            &&& d.device_id == device_of(*old(access), d.bus, d.slot, d.func)
            &&& d.class_code == EHCI_CLASS_CODE
            &&& d.subclass == EHCI_SUBCLASS_CODE
            &&& d.prog_if == EHCI_PROG_IF
            &&& d.bar0 == bar0_of(*old(access), d.bus, d.slot, d.func)
        },
{
    let ghost a0 = *access;
    let ghost base = a0.log().len() as int;
    let mut bus: u16 = 0;
    proof {
        assert(access.log().skip(base) =~= Seq::<(u8, u8, u8, u8)>::empty());
    }
    while bus < 256
        invariant
            bus <= 256,
            a0 == *old(access),
            base == a0.log().len() as int,
            forall|b: u8, s: u8, f: u8, o: u8|
                access.dword(b, s, f, o) == a0.dword(b, s, f, o),
            access.log().len() >= base,
            access.log().subrange(0, base) == a0.log(),
            counts_ok(a0, access.log().skip(base), bus as int, 0, 0),
            shape_ok(a0, access.log().skip(base)),
            no_hit_before(a0, bus as int, 0, 0),
            access.log().skip(base) == buses_log(a0, bus as int),
        decreases 256 - bus,
    {
        let mut slot: u8 = 0;
        proof {
            assert(access.log().skip(base) =~= buses_log(a0, bus as int) + slots_log(
                a0,
                bus as u8,
                0,
            ));
        }
        while slot < 32
            invariant
                bus < 256,
                slot <= 32,
                a0 == *old(access),
                base == a0.log().len() as int,
                forall|b: u8, s: u8, f: u8, o: u8|
                    access.dword(b, s, f, o) == a0.dword(b, s, f, o),
                access.log().len() >= base,
                access.log().subrange(0, base) == a0.log(),
                counts_ok(a0, access.log().skip(base), bus as int, slot as int, 0),
                shape_ok(a0, access.log().skip(base)),
                no_hit_before(a0, bus as int, slot as int, 0),
                access.log().skip(base) == buses_log(a0, bus as int) + slots_log(
                    a0,
                    bus as u8,
                    slot as int,
                ),
            decreases 32 - slot,
        {
            let mut func: u8 = 0;
            proof {
                assert(access.log().skip(base) =~= buses_log(a0, bus as int) + slots_log(
                    a0,
                    bus as u8,
                    slot as int,
                ) + funcs_log(a0, bus as u8, slot, 0));
            }
            while func < 8
                invariant_except_break
                    bus < 256,
                    slot < 32,
                    func <= 8,
                    a0 == *old(access),
                    base == a0.log().len() as int,
                    forall|b: u8, s: u8, f: u8, o: u8|
                        access.dword(b, s, f, o) == a0.dword(b, s, f, o),
                    access.log().len() >= base,
                    access.log().subrange(0, base) == a0.log(),
                    counts_ok(a0, access.log().skip(base), bus as int, slot as int, func as int),
                    shape_ok(a0, access.log().skip(base)),
                    no_hit_before(a0, bus as int, slot as int, func as int),
                    func > 0 ==> !present(a0, bus as u8, slot, 0) || multi_function(
                        a0,
                        bus as u8,
                        slot,
                    ),
                    access.log().skip(base) == buses_log(a0, bus as int) + slots_log(
                        a0,
                        bus as u8,
                        slot as int,
                    ) + funcs_log(a0, bus as u8, slot, func as int),
                ensures
                    a0 == *old(access),
                    forall|b: u8, s: u8, f: u8, o: u8|
                        access.dword(b, s, f, o) == a0.dword(b, s, f, o),
                    access.log().len() >= base,
                    access.log().subrange(0, base) == a0.log(),
                    counts_ok(a0, access.log().skip(base), bus as int, slot as int + 1, 0),
                    shape_ok(a0, access.log().skip(base)),
                    no_hit_before(a0, bus as int, slot as int + 1, 0),
                    access.log().skip(base) == buses_log(a0, bus as int) + slots_log(
                        a0,
                        bus as u8,
                        slot as int,
                    ) + funcs_log(a0, bus as u8, slot, 8),
                decreases 8 - func,
            {
                let b = bus as u8;
                proof {
                    assert(0x00u8 & 0xFC == 0x00u8 && 0x02u8 & 0xFC == 0x00u8 && 0x09u8 & 0xFC
                        == 0x08u8 && 0x0Au8 & 0xFC == 0x08u8 && 0x0Bu8 & 0xFC == 0x08u8 && 0x0Eu8
                        & 0xFC == 0x0Cu8 && 0x10u8 & 0xFC == 0x10u8) by (bit_vector);
                }
                let ghost added0 = access.log().skip(base);
                let ghost l0 = access.log();
                let vendor = pci_read_config_word(access, b, slot, func, 0x00);
                proof {
                    lemma_log_push(l0, (b, slot, func, 0u8), base);
                }
                if vendor == 0xFFFF {
                    proof {
                        let tail = seq![(b, slot, func, 0u8)];
                        assert(added0.push((b, slot, func, 0u8)) =~= added0 + tail);
                        lemma_advance(
                            a0,
                            added0,
                            tail,
                            b,
                            slot,
                            func,
                            bus as int,
                            slot as int,
                            func as int + 1,
                        );
                        assert(!present(a0, b, slot, func));
                        assert(step_log(a0, b, slot, func) =~= tail);
                        assert(funcs_log(a0, b, slot, func as int + 1) == funcs_log(
                            a0,
                            b,
                            slot,
                            func as int,
                        ) + step_log(a0, b, slot, func));
                        assert(access.log().skip(base) =~= buses_log(a0, bus as int) + slots_log(
                            a0,
                            b,
                            slot as int,
                        ) + funcs_log(a0, b, slot, func as int + 1));
                    }
                    func = func + 1;
                } else {
                    let ghost l1 = access.log();
                    let class = pci_read_config_byte(access, b, slot, func, 0x0B);
                    proof {
                        lemma_log_push(l1, (b, slot, func, 8u8), base);
                    }
                    let ghost l2 = access.log();
                    let subclass = pci_read_config_byte(access, b, slot, func, 0x0A);
                    proof {
                        lemma_log_push(l2, (b, slot, func, 8u8), base);
                    }
                    let ghost l3 = access.log();
                    let prog_if = pci_read_config_byte(access, b, slot, func, 0x09);
                    proof {
                        lemma_log_push(l3, (b, slot, func, 8u8), base);
                    }
                    if class == EHCI_CLASS_CODE && subclass == EHCI_SUBCLASS_CODE && prog_if
                        == EHCI_PROG_IF {
                        let ghost l4 = access.log();
                        let device_id = pci_read_config_word(access, b, slot, func, 0x02);
                        proof {
                            lemma_log_push(l4, (b, slot, func, 0u8), base);
                        }
                        let ghost l5 = access.log();
                        let bar0 = pci_read_config_dword(access, b, slot, func, 0x10);
                        proof {
                            lemma_log_push(l5, (b, slot, func, 0x10u8), base);
                            let tail = seq![
                                (b, slot, func, 0u8),
                                (b, slot, func, 8u8),
                                (b, slot, func, 8u8),
                                (b, slot, func, 8u8),
                                (b, slot, func, 0u8),
                                (b, slot, func, 0x10u8),
                            ];
                            assert(access.log().skip(base) =~= added0 + tail);
                            assert(is_ehci(a0, b, slot, func));
                            assert forall|k: int|
                                0 <= k < (added0 + tail).len() implies {
                                let e = #[trigger] (added0 + tail)[k];
                                e.1 < 32 && e.2 < 8 && scanned(a0, e.0, e.1, e.2)
                            } by {
                                if k < added0.len() {
                                    assert((added0 + tail)[k] == added0[k]);
                                } else {
                                    assert((added0 + tail)[k] == tail[k - added0.len()]);
                                }
                            }
                            assert(scan_before(b as int, slot as int, func as int, 256, 0, 0));
                            assert(hit(a0, b, slot, func));
                            if no_hit_before(a0, 256, 0, 0) {
                                assert(!hit(a0, b, slot, func));
                            }
                            assert(tail =~= hit_log(b, slot, func));
                            assert(access.log().skip(base) =~= found_scan_log(
                                a0,
                                b,
                                slot,
                                func,
                            ));
                        }
                        return Some(
                            PciDevice {
                                bus: b,
                                slot,
                                func,
                                vendor_id: vendor,
                                device_id,
                                class_code: class,
                                subclass,
                                prog_if,
                                bar0,
                            },
                        );
                    }
                    if func == 0 {
                        let ghost l4 = access.log();
                        let header = pci_read_config_byte(access, b, slot, func, 0x0E);
                        proof {
                            lemma_log_push(l4, (b, slot, func, 0x0Cu8), base);
                        }
                        let ghost tail5 = seq![
                            (b, slot, func, 0u8),
                            (b, slot, func, 8u8),
                            (b, slot, func, 8u8),
                            (b, slot, func, 8u8),
                            (b, slot, func, 0x0Cu8),
                        ];
                        proof {
                            assert(access.log().skip(base) =~= added0 + tail5);
                            assert(!is_ehci(a0, b, slot, func));
                        }
                        if header & 0x80 == 0 {
                            proof {
                                assert(!multi_function(a0, b, slot));
                                assert(present(a0, b, slot, 0));
                                lemma_advance(
                                    a0,
                                    added0,
                                    tail5,
                                    b,
                                    slot,
                                    func,
                                    bus as int,
                                    slot as int + 1,
                                    0,
                                );
                                assert(step_log(a0, b, slot, 0) =~= tail5);
                                assert(funcs_log(a0, b, slot, 1) == funcs_log(a0, b, slot, 0)
                                    + step_log(a0, b, slot, 0));
                                lemma_funcs_log_skip(a0, b, slot);
                                assert(access.log().skip(base) =~= buses_log(a0, bus as int)
                                    + slots_log(a0, b, slot as int) + funcs_log(a0, b, slot, 8));
                            }
                            break ;
                        } else {
                            proof {
                                lemma_advance(
                                    a0,
                                    added0,
                                    tail5,
                                    b,
                                    slot,
                                    func,
                                    bus as int,
                                    slot as int,
                                    func as int + 1,
                                );
                                assert(present(a0, b, slot, func));
                                assert(step_log(a0, b, slot, func) =~= tail5);
                                assert(funcs_log(a0, b, slot, func as int + 1) == funcs_log(
                                    a0,
                                    b,
                                    slot,
                                    func as int,
                                ) + step_log(a0, b, slot, func));
                                assert(access.log().skip(base) =~= buses_log(a0, bus as int)
                                    + slots_log(a0, b, slot as int) + funcs_log(
                                    a0,
                                    b,
                                    slot,
                                    func as int + 1,
                                ));
                            }
                            func = func + 1;
                        }
                    } else {
                        proof {
                            let tail = seq![
                                (b, slot, func, 0u8),
                                (b, slot, func, 8u8),
                                (b, slot, func, 8u8),
                                (b, slot, func, 8u8),
                            ];
                            assert(access.log().skip(base) =~= added0 + tail);
                            assert(!is_ehci(a0, b, slot, func));
                            lemma_advance(
                                a0,
                                added0,
                                tail,
                                b,
                                slot,
                                func,
                                bus as int,
                                slot as int,
                                func as int + 1,
                            );
                            assert(present(a0, b, slot, func));
                            assert(step_log(a0, b, slot, func) =~= tail);
                            assert(funcs_log(a0, b, slot, func as int + 1) == funcs_log(
                                a0,
                                b,
                                slot,
                                func as int,
                            ) + step_log(a0, b, slot, func));
                            assert(access.log().skip(base) =~= buses_log(a0, bus as int)
                                + slots_log(a0, b, slot as int) + funcs_log(
                                a0,
                                b,
                                slot,
                                func as int + 1,
                            ));
                        }
                        func = func + 1;
                    }
                }
            }
            proof {
                assert(slots_log(a0, bus as u8, slot as int + 1) == slots_log(
                    a0,
                    bus as u8,
                    slot as int,
                ) + funcs_log(a0, bus as u8, slot, 8));
                assert(access.log().skip(base) =~= buses_log(a0, bus as int) + slots_log(
                    a0,
                    bus as u8,
                    slot as int + 1,
                ));
            }
            slot = slot + 1;
        }
        proof {
            assert(buses_log(a0, bus as int + 1) == buses_log(a0, bus as int) + slots_log(
                a0,
                bus as u8,
                32,
            ));
            assert(access.log().skip(base) =~= buses_log(a0, bus as int + 1));
        }
        bus = bus + 1;
    }
    None
}

/// One synthetic device: the identity a configuration-space location reports.
pub struct SynthDevice {
    pub bus: u8,
    pub slot: u8,
    pub func: u8,
    pub vendor_id: u16,
    pub device_id: u16,
    pub class_code: u8,
    pub subclass: u8,
    pub prog_if: u8,
    pub header_type: u8,
    pub bar0: u32,
}

/// The aligned dwords a synthetic device exposes: identification at 0x00,
/// class triple at 0x08, header type at 0x0C, first base-address register at
/// 0x10; every other register reads as zero.
pub open spec fn device_dword(d: SynthDevice, offset: u8) -> u32 {
    if offset == 0 {
        (d.vendor_id as u32) | ((d.device_id as u32) << 16)
    } else if offset == 8 {
        ((d.prog_if as u32) << 8) | ((d.subclass as u32) << 16) | ((d.class_code as u32) << 24)
    } else if offset == 0x0C {
        (d.header_type as u32) << 16
    } else if offset == 0x10 {
        d.bar0
    } else {
        0
    }
}

/// The value the synthetic space returns at a location: the first table entry
/// with that address answers; an absent device reads as all-ones.
pub open spec fn lookup_dword(devs: Seq<SynthDevice>, bus: u8, slot: u8, func: u8, offset: u8) -> u32
    decreases devs.len(),
{
    if devs.len() == 0 {
        0xFFFF_FFFFu32
    } else if devs[0].bus == bus && devs[0].slot == slot && devs[0].func == func {
        device_dword(devs[0], offset)
    } else {
        lookup_dword(devs.skip(1), bus, slot, func, offset)
    }
}

proof fn lemma_lookup_past_prefix(devs: Seq<SynthDevice>, i: int, bus: u8, slot: u8, func: u8, offset: u8)
    requires
        0 <= i <= devs.len(),
        forall|k: int|
            0 <= k < i ==> !((#[trigger] devs[k]).bus == bus && devs[k].slot == slot
                && devs[k].func == func),
    ensures
        lookup_dword(devs, bus, slot, func, offset) == lookup_dword(
            devs.skip(i),
            bus,
            slot,
            func,
            offset,
        ),
    decreases i,
{
    if i == 0 {
        assert(devs.skip(0) =~= devs);
    } else {
        lemma_lookup_past_prefix(devs, i - 1, bus, slot, func, offset);
        assert(devs.skip(i - 1).len() > 0);
        assert(devs.skip(i - 1)[0] == devs[i - 1]);
        assert(devs.skip(i - 1).skip(1) =~= devs.skip(i));
    }
}

/// A deterministic in-memory configuration space: a device table plus a
/// count of the dword reads performed against it.
pub struct SyntheticConfigSpace {
    pub devices: Vec<SynthDevice>,
    pub reads: u64,
    pub read_log: Ghost<Seq<(u8, u8, u8, u8)>>,
}

impl SyntheticConfigSpace {
    /// An empty log and zero reads around the given device table.
    pub fn new(devices: Vec<SynthDevice>) -> (r: SyntheticConfigSpace)
        ensures
            r.devices@ == devices@,
            r.reads == 0,
            r.log() == Seq::<(u8, u8, u8, u8)>::empty(),
    {
        SyntheticConfigSpace { devices, reads: 0, read_log: Ghost(Seq::empty()) }
    }

    fn device_value(d: &SynthDevice, offset: u8) -> (r: u32)
        ensures
            r == device_dword(*d, offset),
    {
        if offset == 0 {
            (d.vendor_id as u32) | ((d.device_id as u32) << 16)
        } else if offset == 8 {
            ((d.prog_if as u32) << 8) | ((d.subclass as u32) << 16) | ((d.class_code as u32) << 24)
        } else if offset == 0x0C {
            (d.header_type as u32) << 16
        } else if offset == 0x10 {
            d.bar0
        } else {
            0
        }
    }
}

impl ConfigAccess for SyntheticConfigSpace {
    open spec fn dword(self, bus: u8, slot: u8, func: u8, offset: u8) -> u32 {
        lookup_dword(self.devices@, bus, slot, func, offset)
    }

    open spec fn log(self) -> Seq<(u8, u8, u8, u8)> {
        self.read_log@
    }

    fn read_dword(&mut self, bus: u8, slot: u8, func: u8, offset: u8) -> (r: u32) {
        let mut value: u32 = 0xFFFF_FFFF;
        let mut found = false;
        let mut i: usize = 0;
        while i < self.devices.len() && !found
            invariant
                i <= self.devices@.len(),
                *self == *old(self),
                !found ==> value == 0xFFFF_FFFFu32,
                !found ==> forall|k: int|
                    0 <= k < i ==> !((#[trigger] self.devices@[k]).bus == bus
                        && self.devices@[k].slot == slot && self.devices@[k].func == func),
                found ==> lookup_dword(self.devices@, bus, slot, func, offset) == value,
            decreases self.devices@.len() - i,
        {
            let d = &self.devices[i];
            if d.bus == bus && d.slot == slot && d.func == func {
                proof {
                    lemma_lookup_past_prefix(self.devices@, i as int, bus, slot, func, offset);
                    assert(self.devices@.skip(i as int)[0] == self.devices@[i as int]);
                }
                value = Self::device_value(d, offset);
                found = true;
            }
            i = i + 1;
        }
        if !found {
            proof {
                lemma_lookup_past_prefix(
                    self.devices@,
                    self.devices@.len() as int,
                    bus,
                    slot,
                    func,
                    offset,
                );
                assert(self.devices@.skip(self.devices@.len() as int).len() == 0);
            }
        }
        if self.reads < u64::MAX {
            self.reads = self.reads + 1;
        }
        proof {
            assert(lookup_dword(self.devices@, bus, slot, func, offset) == value);
        }
        self.read_log = Ghost(self.read_log@.push((bus, slot, func, offset)));
        value
    }
}

/// Enumeration completeness: a full scan that found no controller has read
/// the vendor id of every visited location exactly once — and when every
/// slot of the space is either empty or multi-function, every location is
/// visited.
pub proof fn lemma_enumeration_completeness<A: ConfigAccess>(a: A, added: Seq<(u8, u8, u8, u8)>)
    requires
        counts_ok(a, added, 256, 0, 0),
        forall|b: u8, s: u8|
            s < 32 ==> !present(a, b, s, 0) || #[trigger] multi_function(a, b, s),
    ensures
        forall|b: u8, s: u8, f: u8|
            s < 32 && f < 8 ==> #[trigger] vendor_count(added, b, s, f) == 1,
{
    assert forall|b: u8, s: u8, f: u8|
        s < 32 && f < 8 implies #[trigger] vendor_count(added, b, s, f) == 1 by {
        assert(scanned(a, b, s, f));
        assert(scan_before(b as int, s as int, f as int, 256, 0, 0));
    }
}

/// The skip optimization, observed on the read log: when function 0 of a
/// slot answers and declares the slot single-function, no read of the scan
/// ever touches functions 1-7 of that slot.
pub proof fn lemma_single_function_slot_never_queried<A: ConfigAccess>(
    a: A,
    added: Seq<(u8, u8, u8, u8)>,
    b: u8,
    s: u8,
)
    requires
        shape_ok(a, added),
        present(a, b, s, 0),
        !multi_function(a, b, s),
    ensures
        forall|k: int|
            0 <= k < added.len() ==> !((#[trigger] added[k]).0 == b && added[k].1 == s
                && added[k].2 != 0),
{
    assert forall|k: int|
        0 <= k < added.len() implies !((#[trigger] added[k]).0 == b && added[k].1 == s
        && added[k].2 != 0) by {
        let e = added[k];
        assert(e.1 < 32 && e.2 < 8 && scanned(a, e.0, e.1, e.2));
    }
}

/// When exactly one location of the space matches the target signature, any
/// descriptor allowed by the enumerator's contract names that location.
pub proof fn lemma_unique_hit<A: ConfigAccess>(a: A, b: u8, s: u8, f: u8, d: PciDevice)
    requires
        s < 32,
        f < 8,
        hit(a, b, s, f),
        forall|b2: u8, s2: u8, f2: u8|
            s2 < 32 && f2 < 8 && #[trigger] hit(a, b2, s2, f2) ==> b2 == b && s2 == s && f2 == f,
        d.slot < 32,
        d.func < 8,
        hit(a, d.bus, d.slot, d.func),
    ensures
        d.bus == b && d.slot == s && d.func == f,
{
}

} // verus!
