//! Typed decoding of property values.

use crate::context::Cells;
use crate::str::Str;
use crate::structure_block::be32;
use vstd::arithmetic::div_mod::{lemma_add_mod_noop, lemma_mul_mod_noop_left};
use vstd::prelude::*;

verus! {

/// Two to the sixty-fourth: accumulated addresses and sizes wrap at it.
pub const CELL_MOD: u128 = 0x1_0000_0000_0000_0000;

/// The property name `#address-cells`.
pub open spec fn spec_name_address_cells() -> Seq<u8> {
    seq![35u8, 97u8, 100u8, 100u8, 114u8, 101u8, 115u8, 115u8, 45u8, 99u8, 101u8, 108u8, 108u8, 115u8]
}

/// The property name `#size-cells`.
pub open spec fn spec_name_size_cells() -> Seq<u8> {
    seq![35u8, 115u8, 105u8, 122u8, 101u8, 45u8, 99u8, 101u8, 108u8, 108u8, 115u8]
}

/// The property name `#interrupt-cells`.
pub open spec fn spec_name_interrupt_cells() -> Seq<u8> {
    seq![35u8, 105u8, 110u8, 116u8, 101u8, 114u8, 114u8, 117u8, 112u8, 116u8, 45u8, 99u8, 101u8, 108u8, 108u8, 115u8]
}

/// The property name `compatible`.
pub open spec fn spec_name_compatible() -> Seq<u8> {
    seq![99u8, 111u8, 109u8, 112u8, 97u8, 116u8, 105u8, 98u8, 108u8, 101u8]
}

/// The property name `model`.
pub open spec fn spec_name_model() -> Seq<u8> {
    seq![109u8, 111u8, 100u8, 101u8, 108u8]
}

/// The property name `phandle`.
pub open spec fn spec_name_phandle() -> Seq<u8> {
    seq![112u8, 104u8, 97u8, 110u8, 100u8, 108u8, 101u8]
}

/// The property name `linux,phandle`.
pub open spec fn spec_name_linux_phandle() -> Seq<u8> {
    seq![108u8, 105u8, 110u8, 117u8, 120u8, 44u8, 112u8, 104u8, 97u8, 110u8, 100u8, 108u8, 101u8]
}

/// The property name `status`.
pub open spec fn spec_name_status() -> Seq<u8> {
    seq![115u8, 116u8, 97u8, 116u8, 117u8, 115u8]
}

/// The property name `virtual-reg`.
pub open spec fn spec_name_virtual_reg() -> Seq<u8> {
    seq![118u8, 105u8, 114u8, 116u8, 117u8, 97u8, 108u8, 45u8, 114u8, 101u8, 103u8]
}

/// The property name `dma-coherent`.
pub open spec fn spec_name_dma_coherent() -> Seq<u8> {
    seq![100u8, 109u8, 97u8, 45u8, 99u8, 111u8, 104u8, 101u8, 114u8, 101u8, 110u8, 116u8]
}

/// Whether `a` holds exactly the bytes of `pat`.
pub(crate) fn bytes_eq_arr<const N: usize>(a: &[u8], pat: &[u8; N]) -> (r: bool)
    ensures
        r == (a@ == pat@),
{
    if a.len() != N {
        proof {
            assert(a@.len() != pat@.len());
        }
        return false;
    }
    let mut i: usize = 0;
    while i < N
        invariant
            0 <= i <= N,
            a@.len() == N,
            pat@.len() == N,
            forall|j: int| 0 <= j < i ==> a@[j] == pat@[j],
        decreases N - i,
    {
        if a[i] != pat[i] {
            return false;
        }
        i += 1;
    }
    proof {
        assert(a@ =~= pat@);
    }
    true
}

/// A node reference: the numeric value other nodes use to point at one.
#[derive(Clone, Copy, Debug, PartialEq, Eq, Structural)]
pub struct PHandle(u32);

impl PHandle {
    /// The numeric value of the handle.
    pub closed spec fn spec_value(&self) -> u32 {
        self.0
    }

    /// The numeric value of the handle.
    pub fn value(&self) -> (r: u32)
        ensures
            r == self.spec_value(),
    {
        self.0
    }
}

/// Index of the first NUL in `b`, or `b.len()` when there is none.
pub open spec fn spec_find_nul(b: Seq<u8>) -> int
    decreases b.len(),
{
    if b.len() == 0 {
        0
    } else if b[0] == 0 {
        0
    } else {
        1 + spec_find_nul(b.skip(1))
    }
}

/// What [`spec_find_nul`] returns: the index of the first NUL, or the
/// length when no byte is NUL.
pub proof fn lemma_find_nul(b: Seq<u8>)
    ensures
        0 <= spec_find_nul(b) <= b.len(),
        spec_find_nul(b) < b.len() ==> b[spec_find_nul(b)] == 0,
        forall|j: int| 0 <= j < spec_find_nul(b) ==> b[j] != 0,
    decreases b.len(),
{
    if b.len() > 0 && b[0] != 0 {
        lemma_find_nul(b.skip(1));
        assert forall|j: int| 0 <= j < spec_find_nul(b) implies b[j] != 0 by {
            if j > 0 {
                assert(b.skip(1)[j - 1] != 0);
            }
        }
    }
}

/// Finds the first NUL in `b`, or returns `b`'s length when there is none.
pub(crate) fn find_nul(b: &[u8]) -> (r: usize)
    ensures
        r == spec_find_nul(b@),
{
    proof {
        lemma_find_nul(b@);
    }
    let mut i: usize = 0;
    while i < b.len()
        invariant
            0 <= i <= b@.len(),
            forall|j: int| 0 <= j < i ==> b@[j] != 0,
        decreases b@.len() - i,
    {
        if b[i] == 0 {
            proof {
                lemma_find_nul(b@);
                if spec_find_nul(b@) < i {
                    assert(b@[spec_find_nul(b@)] != 0);
                }
                if spec_find_nul(b@) > i {
                    assert(b@[i as int] != 0);
                }
            }
            return i;
        }
        i += 1;
    }
    proof {
        lemma_find_nul(b@);
        if spec_find_nul(b@) < b@.len() {
            assert(b@[spec_find_nul(b@)] != 0);
        }
    }
    b.len()
}

/// The strings a NUL-separated list decomposes into, in order: each item
/// is the bytes up to the next NUL. A trailing fragment with no NUL is
/// not an item.
pub open spec fn spec_str_list(b: Seq<u8>) -> Seq<Seq<u8>>
    decreases b.len(),
    via spec_str_list_decreases
{
    if b.len() == 0 {
        seq![]
    } else {
        let i = spec_find_nul(b);
        if i == b.len() {
            seq![]
        } else {
            seq![b.take(i)] + spec_str_list(b.skip(i + 1))
        }
    }
}

#[via_fn]
proof fn spec_str_list_decreases(b: Seq<u8>) {
    lemma_find_nul(b);
}

/// A `<stringlist>` property value: strings separated and terminated by NUL.
#[derive(Clone, Copy, Debug)]
pub struct StrList<'a>(pub(crate) &'a [u8]);

impl<'a> StrList<'a> {
    /// The raw bytes not yet split.
    pub closed spec fn spec_bytes(&self) -> Seq<u8> {
        self.0@
    }

    /// The strings left to yield.
    pub open spec fn spec_items(&self) -> Seq<Seq<u8>> {
        spec_str_list(self.spec_bytes())
    }

    /// Yields the next string of the list.
    ///
    /// `None` means no string is left: the bytes are exhausted, or a
    /// trailing fragment carries no NUL terminator; the list is unchanged
    /// in that case.
    pub fn next(&mut self) -> (r: Option<Str<'a>>)
        ensures
            match r {
                Some(s) => old(self).spec_items().len() > 0 && s@ == old(self).spec_items()[0]
                    && final(self).spec_items() == old(self).spec_items().drop_first(),
                None => old(self).spec_items().len() == 0 && *final(self) == *old(self),
            },
    {
        proof {
            lemma_find_nul(self.0@);
        }
        if self.0.len() == 0 {
            return None;
        }
        let i = find_nul(self.0);
        if i == self.0.len() {
            return None;
        }
        let head = Str(&self.0[0..i]);
        let tail = &self.0[i + 1..self.0.len()];
        proof {
            assert(head@ =~= self.0@.take(i as int));
            assert(tail@ =~= self.0@.skip(i + 1));
            assert(spec_str_list(self.0@) =~~= seq![self.0@.take(i as int)] + spec_str_list(
                self.0@.skip(i + 1),
            ));
        }
        self.0 = tail;
        Some(head)
    }
}

/// How many cells form an address and a size in a `reg` value.
#[derive(Clone, Copy, Debug, PartialEq, Eq, Structural)]
pub struct RegCfg {
    /// Cells per address.
    pub address_cells: u32,
    /// Cells per size.
    pub size_cells: u32,
}

/// The unsigned value big-endian bytes denote, of any length.
pub open spec fn spec_be_nat(b: Seq<u8>) -> nat
    decreases b.len(),
{
    if b.len() == 0 {
        0
    } else {
        (spec_be_nat(b.drop_last()) * 256 + b.last()) as nat
    }
}

/// The ranges a `reg` value decomposes into: each entry consumes
/// `address_cells + size_cells` cells and yields the half-open byte range
/// `[base, base + size)`, both accumulated big-endian and wrapped to 64
/// bits.
pub open spec fn spec_reg_ranges(b: Seq<u8>, cfg: RegCfg) -> Seq<(u64, u64)>
    decreases b.len(),
{
    let entry = (cfg.address_cells + cfg.size_cells) * 4;
    if entry <= 0 || b.len() < entry {
        seq![]
    } else {
        let base = spec_be_nat(b.take(cfg.address_cells * 4)) % (CELL_MOD as nat);
        let size = spec_be_nat(b.subrange(cfg.address_cells * 4, entry)) % (CELL_MOD as nat);
        let end = (base + size) % (CELL_MOD as nat);
        seq![(base as u64, end as u64)] + spec_reg_ranges(b.skip(entry), cfg)
    }
}

/// Accumulates big-endian bytes into a 64-bit value, wrapping on overflow.
fn be_accumulate(b: &[u8]) -> (r: u64)
    ensures
        r == spec_be_nat(b@) % (CELL_MOD as nat),
{
    let mut acc: u64 = 0;
    let mut i: usize = 0;
    while i < b.len()
        invariant
            0 <= i <= b@.len(),
            acc == spec_be_nat(b@.take(i as int)) % (CELL_MOD as nat),
        decreases b@.len() - i,
    {
        let ghost prefix = b@.take(i as int);
        let ghost x = spec_be_nat(prefix) as int;
        let ghost d = b@[i as int] as int;
        let ghost m = CELL_MOD as int;
        acc = acc.wrapping_mul(256).wrapping_add(b[i] as u64);
        proof {
            assert(b@.take(i + 1).drop_last() =~= prefix);
            assert(b@.take(i + 1).last() == d);
            assert(spec_be_nat(b@.take(i + 1)) == x * 256 + d);
            lemma_mul_mod_noop_left(x, 256, m);
            lemma_add_mod_noop((x % m) * 256, d, m);
            lemma_add_mod_noop(x * 256, d, m);
            assert(((x % m) * 256 + d) % m == (x * 256 + d) % m);
            assert(d % m == d);
        }
        i += 1;
    }
    proof {
        assert(b@.take(b@.len() as int) =~= b@);
    }
    acc
}

/// A `reg` property value: a lazily decoded list of address ranges.
#[derive(Clone, Copy, Debug)]
pub struct Reg<'a> {
    buf: &'a [u8],
    cfg: RegCfg,
}

impl<'a> Reg<'a> {
    /// The raw cells not yet decoded.
    pub closed spec fn spec_buf(&self) -> Seq<u8> {
        self.buf@
    }

    /// The cell configuration the value is decoded with.
    pub closed spec fn spec_cfg(&self) -> RegCfg {
        self.cfg
    }

    /// The ranges left to yield.
    pub open spec fn spec_ranges(&self) -> Seq<(u64, u64)> {
        spec_reg_ranges(self.spec_buf(), self.spec_cfg())
    }

    /// Whether the bytes fit the configuration: a positive entry size that
    /// evenly divides them.
    pub open spec fn spec_wf(&self) -> bool {
        let entry = (self.spec_cfg().address_cells + self.spec_cfg().size_cells) * 4;
        entry > 0 && self.spec_buf().len() as int % entry == 0
    }

    /// Wraps a raw `reg` value, refusing bytes that do not fit the
    /// configuration: the entry size must be positive and divide the
    /// value's length evenly.
    pub fn new(buf: &'a [u8], cfg: RegCfg) -> (r: Option<Reg<'a>>)
        ensures
            match r {
                Some(reg) => reg.spec_buf() == buf@ && reg.spec_cfg() == cfg && reg.spec_wf(),
                None => {
                    let entry = (cfg.address_cells + cfg.size_cells) * 4;
                    entry <= 0 || buf@.len() as int % entry != 0
                },
            },
    {
        let entry: u64 = (cfg.address_cells as u64 + cfg.size_cells as u64) * 4;
        if entry == 0 {
            return None;
        }
        if (buf.len() as u64) % entry != 0 {
            return None;
        }
        Some(Reg { buf, cfg })
    }

    /// Yields the next range of the list: `[base, base + size)`, both
    /// values accumulated big-endian from the entry's cells and wrapped to
    /// 64 bits. `None` means the cells are exhausted (or, defensively,
    /// that fewer than one entry's worth of bytes is left).
    pub fn next(&mut self) -> (r: Option<core::ops::Range<u64>>)
        ensures
            final(self).spec_cfg() == old(self).spec_cfg(),
            match r {
                Some(range) => old(self).spec_ranges().len() > 0 && (range.start, range.end) == old(
                    self,
                ).spec_ranges()[0] && final(self).spec_ranges() == old(
                    self,
                ).spec_ranges().drop_first(),
                None => old(self).spec_ranges().len() == 0 && *final(self) == *old(self),
            },
    {
        let a4: u64 = self.cfg.address_cells as u64 * 4;
        let s4: u64 = self.cfg.size_cells as u64 * 4;
        if self.buf.len() == 0 || (self.buf.len() as u64) < a4 + s4 || a4 + s4 == 0 {
            return None;
        }
        let a4: usize = a4 as usize;
        let entry: usize = a4 + s4 as usize;
        let base = be_accumulate(&self.buf[0..a4]);
        let size = be_accumulate(&self.buf[a4..entry]);
        let tail = &self.buf[entry..self.buf.len()];
        proof {
            assert(self.buf@.subrange(0, a4 as int) =~= self.buf@.take(
                self.cfg.address_cells * 4,
            ));
            assert(self.buf@.subrange(a4 as int, entry as int) =~= self.buf@.subrange(
                self.cfg.address_cells * 4,
                (self.cfg.address_cells + self.cfg.size_cells) * 4,
            ));
            assert(tail@ =~= self.buf@.skip(entry as int));
            assert(self.spec_ranges() =~~= seq![
                ((spec_be_nat(self.buf@.take(a4 as int)) % (CELL_MOD as nat)) as u64, ((
                spec_be_nat(self.buf@.take(a4 as int)) % (CELL_MOD as nat) + spec_be_nat(
                    self.buf@.subrange(a4 as int, entry as int),
                ) % (CELL_MOD as nat)) % (CELL_MOD as nat)) as u64),
            ] + spec_reg_ranges(self.buf@.skip(entry as int), self.cfg));
        }
        let end = base_plus(base, size);
        self.buf = tail;
        Some(base..end)
    }
}

/// Adds a size to a base, wrapping to 64 bits.
fn base_plus(base: u64, size: u64) -> (r: u64)
    ensures
        r == (base + size) % (CELL_MOD as int),
{
    base.wrapping_add(size)
}

/// A property, decoded by name where the name and shape are recognized.
pub enum Property<'a> {
    /// `compatible`: a list of NUL-terminated strings.
    Compatible(StrList<'a>),
    /// `model`: one NUL-terminated string.
    Model(Str<'a>),
    /// `phandle` or `linux,phandle`: one cell naming this node.
    PHandle(PHandle),
    /// `status`: one NUL-terminated string.
    Status(Str<'a>),
    /// `reg`: address ranges, shaped by the cell configuration in force.
    Reg(Reg<'a>),
    /// `virtual-reg`: one cell.
    VirtualReg(u32),
    /// `dma-coherent`: a flag with no payload.
    DmaCoherent,
    /// Any other name, or a known name whose bytes do not fit its shape.
    General {
        /// The property's name.
        name: Str<'a>,
        /// The raw value bytes.
        value: &'a [u8],
    },
}

/// Whether a value is one or more NUL-terminated strings: nonempty, with a
/// final NUL.
pub open spec fn spec_terminated(v: Seq<u8>) -> bool {
    v.len() > 0 && v.last() == 0
}

/// Which decoded form `Property::new` gives a name and value, stated as an
/// exact predicate over the result.
impl<'a> Property<'a> {
    /// Decodes a property value by its name.
    ///
    /// Every recognized name has an expected shape; a name that is not
    /// recognized, or whose bytes do not fit the shape, falls back to
    /// `General` rather than failing. `reg` is not handled here: its shape
    /// depends on the cell configuration in force, and the walker decodes
    /// it with [`Reg::new`].
    pub fn new(name: &'a [u8], value: &'a [u8]) -> (r: Property<'a>)
        ensures
            (r matches Property::Compatible(sl) ==> name@ == spec_name_compatible()
                && spec_terminated(value@) && sl.spec_bytes() == value@),
            (name@ == spec_name_compatible() && spec_terminated(value@) ==> r matches
                Property::Compatible(_)),
            (r matches Property::Model(s) ==> name@ == spec_name_model() && spec_terminated(value@)
                && s@ == value@.take(value@.len() - 1)),
            (name@ == spec_name_model() && spec_terminated(value@) ==> r matches Property::Model(
                _,
            )),
            (r matches Property::PHandle(p) ==> (name@ == spec_name_phandle() || name@
                == spec_name_linux_phandle()) && value@.len() == 4 && p.spec_value() == be32(
                value@,
            )),
            ((name@ == spec_name_phandle() || name@ == spec_name_linux_phandle()) && value@.len()
                == 4 ==> r matches Property::PHandle(_)),
            (r matches Property::Status(s) ==> name@ == spec_name_status() && spec_terminated(
                value@,
            ) && s@ == value@.take(value@.len() - 1)),
            (name@ == spec_name_status() && spec_terminated(value@) ==> r matches Property::Status(
                _,
            )),
            (r matches Property::VirtualReg(v) ==> name@ == spec_name_virtual_reg() && value@.len()
                == 4 && v == be32(value@)),
            (name@ == spec_name_virtual_reg() && value@.len() == 4 ==> r matches
                Property::VirtualReg(_)),
            (r is DmaCoherent <==> name@ == spec_name_dma_coherent() && value@.len() == 0),
            !(r is Reg),
            (r matches Property::General { name: n, value: v } ==> n@ == name@ && v@ == value@),
    {
        if bytes_eq_arr(
            name,
            &[99u8, 111u8, 109u8, 112u8, 97u8, 116u8, 105u8, 98u8, 108u8, 101u8],
        ) {
            if value.len() > 0 && value[value.len() - 1] == 0 {
                return Property::Compatible(StrList(value));
            }
            return Property::General { name: Str(name), value };
        }
        if bytes_eq_arr(name, &[109u8, 111u8, 100u8, 101u8, 108u8]) {
            if value.len() > 0 && value[value.len() - 1] == 0 {
                let s = Str(&value[0..value.len() - 1]);
                proof {
                    assert(s@ =~= value@.take(value@.len() - 1));
                }
                return Property::Model(s);
            }
            return Property::General { name: Str(name), value };
        }
        if bytes_eq_arr(name, &[112u8, 104u8, 97u8, 110u8, 100u8, 108u8, 101u8]) || bytes_eq_arr(
            name,
            &[108u8, 105u8, 110u8, 117u8, 120u8, 44u8, 112u8, 104u8, 97u8, 110u8, 100u8, 108u8, 101u8],
        ) {
            if value.len() == 4 {
                return Property::PHandle(PHandle(read_cell(value)));
            }
            return Property::General { name: Str(name), value };
        }
        if bytes_eq_arr(name, &[115u8, 116u8, 97u8, 116u8, 117u8, 115u8]) {
            if value.len() > 0 && value[value.len() - 1] == 0 {
                let s = Str(&value[0..value.len() - 1]);
                proof {
                    assert(s@ =~= value@.take(value@.len() - 1));
                }
                return Property::Status(s);
            }
            return Property::General { name: Str(name), value };
        }
        if bytes_eq_arr(
            name,
            &[118u8, 105u8, 114u8, 116u8, 117u8, 97u8, 108u8, 45u8, 114u8, 101u8, 103u8],
        ) {
            if value.len() == 4 {
                return Property::VirtualReg(read_cell(value));
            }
            return Property::General { name: Str(name), value };
        }
        if bytes_eq_arr(
            name,
            &[100u8, 109u8, 97u8, 45u8, 99u8, 111u8, 104u8, 101u8, 114u8, 101u8, 110u8, 116u8],
        ) {
            if value.len() == 0 {
                return Property::DmaCoherent;
            }
            return Property::General { name: Str(name), value };
        }
        Property::General { name: Str(name), value }
    }
}

/// Reads one cell: four big-endian bytes.
pub(crate) fn read_cell(value: &[u8]) -> (r: u32)
    requires
        value@.len() == 4,
    ensures
        r == be32(value@),
{
    let r = value[0] as u32 * 0x100_0000 + value[1] as u32 * 0x1_0000 + value[2] as u32 * 0x100
        + value[3] as u32;
    proof {
        assert(value@.subrange(0, 4) =~= value@);
    }
    r
}

} // verus!
