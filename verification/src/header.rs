//! The fixed blob header and its validation.

use crate::structure_block::{word_at, StructureBlock, TOKEN_END, TOKEN_NODE_BEGIN};
use core::ops::Range;
use vstd::prelude::*;

verus! {

/// Relies on `core::ops::Range`'s derived `Clone`; nothing is assumed of it.
pub assume_specification<Idx: Clone>[ <Range<Idx> as Clone>::clone ](r: &Range<Idx>) -> Range<Idx>;

/// The value every blob's magic field must hold.
pub const MAGIC: u32 = 0xd00d_feed;

/// The lowest format version this walker understands.
pub const VERSION: u32 = 17;

/// The one last-compatible version this walker accepts.
pub const LAST_COMP_VERSION: u32 = 16;

/// Byte length of the fixed header: ten 32-bit fields.
pub const LEN_HEADER: u32 = 40;

/// How many checks [`FdtHeader::verify`] makes, in order.
pub const CHECK_COUNT: u32 = 13;

/// The ten fields of the fixed header, each decoded from big-endian.
#[derive(Clone, Copy, Debug)]
pub struct FdtHeader {
    /// Identifies the buffer as a devicetree blob.
    pub magic: u32,
    /// Declared byte length of the whole blob.
    pub totalsize: u32,
    /// Byte offset of the structure section.
    pub off_dt_struct: u32,
    /// Byte offset of the strings section.
    pub off_dt_strings: u32,
    /// Byte offset of the reserved-memory block.
    pub off_mem_rsvmap: u32,
    /// Format version.
    pub version: u32,
    /// Lowest version this blob is backward compatible with.
    pub last_comp_version: u32,
    /// Physical id of the boot CPU; not read by this walker.
    pub boot_cpuid_phys: u32,
    /// Byte length of the strings section.
    pub size_dt_strings: u32,
    /// Byte length of the structure section.
    pub size_dt_struct: u32,
}

/// A failed header check, carrying the offending value.
#[derive(Clone, Debug, PartialEq, Eq)]
pub enum HeaderError {
    /// The blob sits at a misaligned address; carries the largest power of
    /// two dividing the address. Only raised by embedders that know the
    /// address; slice-based validation cannot observe it.
    Misaligned(u32),
    /// The magic field is not `MAGIC`.
    Magic(u32),
    /// The version is below `VERSION`.
    Version(u32),
    /// The last compatible version is not `LAST_COMP_VERSION`.
    LastCompVersion(u32),
    /// The declared total size cannot even hold the header.
    TotalSize(u32),
    /// The structure section's offset or size is not word-aligned; carries
    /// the largest power of two dividing the misaligned value.
    StructMisaligned(u32),
    /// The structure section's offset falls outside the acceptable range.
    StructOffset {
        /// The offset the header declares.
        value: u32,
        /// Where it would have been acceptable.
        expected: Range<u32>,
    },
    /// The structure section's size exceeds what remains of the blob.
    StructSize {
        /// The size the header declares.
        value: u32,
        /// The largest acceptable size.
        max: u32,
    },
    /// The structure section does not start with a root node and end with
    /// the terminating token. Carries the word found where a bookend was
    /// demanded and that word's byte offset within the blob; when the
    /// declared size cannot even hold the bookends, it carries that size
    /// at the section's offset instead.
    StructContent {
        /// The offending word, or the declared structure size when the
        /// section cannot hold the bookends.
        value: u32,
        /// Byte offset of the offending word within the blob, or the
        /// structure section's offset; clipped to the field's width.
        offset: u32,
    },
    /// The reserved-memory block's offset is not word-aligned; carries the
    /// largest power of two dividing it.
    MemRsvMisaligned(u32),
    /// The reserved-memory block's offset falls outside the acceptable range.
    MemRsvOffset {
        /// The offset the header declares.
        value: u32,
        /// Where it would have been acceptable.
        expected: Range<u32>,
    },
    /// The strings section's offset falls outside the acceptable range.
    StringsOffset {
        /// The offset the header declares.
        value: u32,
        /// Where it would have been acceptable.
        expected: Range<u32>,
    },
    /// The strings section's size exceeds what remains of the blob.
    StringsSize {
        /// The size the header declares.
        value: u32,
        /// The largest acceptable size.
        max: u32,
    },
}

/// The header encoded at the start of `b`, fields decoded from big-endian.
pub open spec fn spec_parse_header(b: Seq<u8>) -> FdtHeader
    recommends
        b.len() >= LEN_HEADER,
{
    FdtHeader {
        magic: word_at(b, 0),
        totalsize: word_at(b, 4),
        off_dt_struct: word_at(b, 8),
        off_dt_strings: word_at(b, 12),
        off_mem_rsvmap: word_at(b, 16),
        version: word_at(b, 20),
        last_comp_version: word_at(b, 24),
        boot_cpuid_phys: word_at(b, 28),
        size_dt_strings: word_at(b, 32),
        size_dt_struct: word_at(b, 36),
    }
}

/// The largest power of two dividing `v`, for values not divisible by four.
pub open spec fn spec_low_bit(v: u32) -> u32
    recommends
        v % 4 != 0,
{
    if v % 2 == 1 {
        1u32
    } else {
        2u32
    }
}

/// The largest acceptable structure-section size: what remains of the blob
/// after the reserved-memory block's offset, or zero if nothing remains.
pub open spec fn spec_struct_max(h: FdtHeader) -> u32 {
    if h.off_mem_rsvmap <= h.totalsize {
        (h.totalsize - h.off_mem_rsvmap) as u32
    } else {
        0
    }
}

/// Where the structure section ends, clipped to the field width.
pub open spec fn spec_struct_end(h: FdtHeader) -> u32 {
    if h.off_dt_struct + h.size_dt_struct <= u32::MAX {
        (h.off_dt_struct + h.size_dt_struct) as u32
    } else {
        u32::MAX
    }
}

/// The largest acceptable strings-section size: what remains of the blob
/// after the structure section, or zero if nothing remains.
pub open spec fn spec_strings_max(h: FdtHeader) -> u32 {
    if h.off_dt_struct + h.size_dt_struct <= h.totalsize {
        (h.totalsize - h.off_dt_struct - h.size_dt_struct) as u32
    } else {
        0
    }
}

/// Whether the structure section of `blob`, as `h` places it, starts with a
/// root node (an opening token and an empty name) and ends with the
/// terminating token.
pub open spec fn spec_struct_content_ok(h: FdtHeader, blob: Seq<u8>) -> bool {
    let off = h.off_dt_struct as int;
    let words = h.size_dt_struct as int / 4;
    &&& words >= 3
    &&& off + words * 4 <= blob.len()
    &&& word_at(blob, off) == TOKEN_NODE_BEGIN
    &&& word_at(blob, off + 4) == 0
    &&& word_at(blob, off + (words - 1) * 4) == TOKEN_END
}

/// An offset clipped to the width of a header field.
pub open spec fn spec_clip_u32(x: int) -> u32 {
    if x <= u32::MAX {
        x as u32
    } else {
        u32::MAX
    }
}

/// The diagnostic the structure-content check carries when it fails: the
/// first bookend demand not met, with the word found there and its
/// offset, or the declared size at the section's offset when the section
/// cannot hold the bookends at all.
pub open spec fn spec_struct_content_err(h: FdtHeader, blob: Seq<u8>) -> HeaderError {
    let off = h.off_dt_struct as int;
    let words = h.size_dt_struct as int / 4;
    if words < 3 || off + words * 4 > blob.len() {
        HeaderError::StructContent { value: h.size_dt_struct, offset: h.off_dt_struct }
    } else if word_at(blob, off) != TOKEN_NODE_BEGIN {
        HeaderError::StructContent { value: word_at(blob, off), offset: h.off_dt_struct }
    } else if word_at(blob, off + 4) != 0 {
        HeaderError::StructContent { value: word_at(blob, off + 4), offset: spec_clip_u32(off + 4) }
    } else {
        HeaderError::StructContent {
            value: word_at(blob, off + (words - 1) * 4),
            offset: spec_clip_u32(off + (words - 1) * 4),
        }
    }
}

/// The outcome of the `k`-th header check (`0 <= k < CHECK_COUNT`), in the
/// order [`FdtHeader::verify`] makes them: `None` when the check passes,
/// otherwise the error it raises.
pub open spec fn spec_check(h: FdtHeader, blob: Seq<u8>, k: int) -> Option<HeaderError> {
    if k == 0 {
        if h.magic != MAGIC {
            Some(HeaderError::Magic(h.magic))
        } else {
            None
        }
    } else if k == 1 {
        if h.version < VERSION {
            Some(HeaderError::Version(h.version))
        } else {
            None
        }
    } else if k == 2 {
        if h.last_comp_version != LAST_COMP_VERSION {
            Some(HeaderError::LastCompVersion(h.last_comp_version))
        } else {
            None
        }
    } else if k == 3 {
        if h.totalsize < LEN_HEADER {
            Some(HeaderError::TotalSize(h.totalsize))
        } else {
            None
        }
    } else if k == 4 {
        if h.off_mem_rsvmap % 4 != 0 {
            Some(HeaderError::MemRsvMisaligned(spec_low_bit(h.off_mem_rsvmap)))
        } else {
            None
        }
    } else if k == 5 {
        if !(LEN_HEADER <= h.off_mem_rsvmap && h.off_mem_rsvmap < h.totalsize) {
            Some(
                HeaderError::MemRsvOffset {
                    value: h.off_mem_rsvmap,
                    expected: LEN_HEADER..h.totalsize,
                },
            )
        } else {
            None
        }
    } else if k == 6 {
        if h.off_dt_struct % 4 != 0 {
            Some(HeaderError::StructMisaligned(spec_low_bit(h.off_dt_struct)))
        } else {
            None
        }
    } else if k == 7 {
        if !(h.off_mem_rsvmap <= h.off_dt_struct && h.off_dt_struct < h.totalsize) {
            Some(
                HeaderError::StructOffset {
                    value: h.off_dt_struct,
                    expected: h.off_mem_rsvmap..h.totalsize,
                },
            )
        } else {
            None
        }
    } else if k == 8 {
        if h.size_dt_struct % 4 != 0 {
            Some(HeaderError::StructMisaligned(spec_low_bit(h.size_dt_struct)))
        } else {
            None
        }
    } else if k == 9 {
        if h.size_dt_struct > spec_struct_max(h) {
            Some(HeaderError::StructSize { value: h.size_dt_struct, max: spec_struct_max(h) })
        } else {
            None
        }
    } else if k == 10 {
        if !spec_struct_content_ok(h, blob) {
            Some(spec_struct_content_err(h, blob))
        } else {
            None
        }
    } else if k == 11 {
        if !(h.off_dt_struct + h.size_dt_struct <= h.off_dt_strings && h.off_dt_strings
            < h.totalsize) {
            Some(
                HeaderError::StringsOffset {
                    value: h.off_dt_strings,
                    expected: spec_struct_end(h)..h.totalsize,
                },
            )
        } else {
            None
        }
    } else if k == 12 {
        if h.size_dt_strings > spec_strings_max(h) {
            Some(HeaderError::StringsSize { value: h.size_dt_strings, max: spec_strings_max(h) })
        } else {
            None
        }
    } else {
        None
    }
}

/// The errors of the first `k` checks, in check order.
pub open spec fn spec_errors_upto(h: FdtHeader, blob: Seq<u8>, k: int) -> Seq<HeaderError>
    decreases k,
{
    if k <= 0 {
        seq![]
    } else {
        spec_errors_upto(h, blob, k - 1) + match spec_check(h, blob, k - 1) {
            Some(e) => seq![e],
            None => seq![],
        }
    }
}

/// Every header check that fails on `h` over `blob`, in check order.
/// Validation reports the first of these that the caller does not tolerate.
pub open spec fn spec_header_errors(h: FdtHeader, blob: Seq<u8>) -> Seq<HeaderError> {
    spec_errors_upto(h, blob, CHECK_COUNT as int)
}

/// The error list of the first `k1` checks is a prefix of that of the
/// first `k2` checks whenever `k1 <= k2`.
proof fn lemma_errors_upto_prefix(h: FdtHeader, blob: Seq<u8>, k1: int, k2: int)
    requires
        0 <= k1 <= k2,
    ensures
        spec_errors_upto(h, blob, k1).len() <= spec_errors_upto(h, blob, k2).len(),
        forall|i: int|
            0 <= i < spec_errors_upto(h, blob, k1).len() ==> spec_errors_upto(h, blob, k2)[i]
                == spec_errors_upto(h, blob, k1)[i],
    decreases k2 - k1,
{
    if k1 < k2 {
        lemma_errors_upto_prefix(h, blob, k1, k2 - 1);
    }
}

impl FdtHeader {
    /// Decodes the ten header fields from the start of `blob`, or returns
    /// `None` when fewer than `LEN_HEADER` bytes are given.
    pub fn parse(blob: &[u8]) -> (r: Option<FdtHeader>)
        ensures
            match r {
                Some(h) => blob@.len() >= LEN_HEADER && h == spec_parse_header(blob@),
                None => blob@.len() < LEN_HEADER,
            },
    {
        if blob.len() < 40 {
            return None;
        }
        Some(
            FdtHeader {
                magic: StructureBlock::read(blob, 0).into_u32(),
                totalsize: StructureBlock::read(blob, 4).into_u32(),
                off_dt_struct: StructureBlock::read(blob, 8).into_u32(),
                off_dt_strings: StructureBlock::read(blob, 12).into_u32(),
                off_mem_rsvmap: StructureBlock::read(blob, 16).into_u32(),
                version: StructureBlock::read(blob, 20).into_u32(),
                last_comp_version: StructureBlock::read(blob, 24).into_u32(),
                boot_cpuid_phys: StructureBlock::read(blob, 28).into_u32(),
                size_dt_strings: StructureBlock::read(blob, 32).into_u32(),
                size_dt_struct: StructureBlock::read(blob, 36).into_u32(),
            },
        )
    }

    /// Runs the `k`-th check of [`Self::verify`].
    fn run_check(&self, blob: &[u8], k: u32) -> (r: Option<HeaderError>)
        requires
            k < CHECK_COUNT,
        ensures
            r == spec_check(*self, blob@, k as int),
    {
        match k {
            0 => {
                if self.magic != MAGIC {
                    Some(HeaderError::Magic(self.magic))
                } else {
                    None
                }
            },
            1 => {
                if self.version < VERSION {
                    Some(HeaderError::Version(self.version))
                } else {
                    None
                }
            },
            2 => {
                if self.last_comp_version != LAST_COMP_VERSION {
                    Some(HeaderError::LastCompVersion(self.last_comp_version))
                } else {
                    None
                }
            },
            3 => {
                if self.totalsize < LEN_HEADER {
                    Some(HeaderError::TotalSize(self.totalsize))
                } else {
                    None
                }
            },
            4 => {
                if self.off_mem_rsvmap % 4 != 0 {
                    Some(HeaderError::MemRsvMisaligned(low_bit(self.off_mem_rsvmap)))
                } else {
                    None
                }
            },
            5 => {
                if !(LEN_HEADER <= self.off_mem_rsvmap && self.off_mem_rsvmap < self.totalsize) {
                    Some(
                        HeaderError::MemRsvOffset {
                            value: self.off_mem_rsvmap,
                            expected: LEN_HEADER..self.totalsize,
                        },
                    )
                } else {
                    None
                }
            },
            6 => {
                if self.off_dt_struct % 4 != 0 {
                    Some(HeaderError::StructMisaligned(low_bit(self.off_dt_struct)))
                } else {
                    None
                }
            },
            7 => {
                if !(self.off_mem_rsvmap <= self.off_dt_struct && self.off_dt_struct
                    < self.totalsize) {
                    Some(
                        HeaderError::StructOffset {
                            value: self.off_dt_struct,
                            expected: self.off_mem_rsvmap..self.totalsize,
                        },
                    )
                } else {
                    None
                }
            },
            8 => {
                if self.size_dt_struct % 4 != 0 {
                    Some(HeaderError::StructMisaligned(low_bit(self.size_dt_struct)))
                } else {
                    None
                }
            },
            9 => {
                let max_struct: u32 = if self.off_mem_rsvmap <= self.totalsize {
                    self.totalsize - self.off_mem_rsvmap
                } else {
                    0
                };
                if self.size_dt_struct > max_struct {
                    Some(HeaderError::StructSize { value: self.size_dt_struct, max: max_struct })
                } else {
                    None
                }
            },
            10 => self.struct_content_err(blob),
            11 => {
                let struct_end: u64 = self.off_dt_struct as u64 + self.size_dt_struct as u64;
                if !(struct_end <= self.off_dt_strings as u64 && self.off_dt_strings
                    < self.totalsize) {
                    let clipped: u32 = if struct_end <= u32::MAX as u64 {
                        struct_end as u32
                    } else {
                        u32::MAX
                    };
                    Some(
                        HeaderError::StringsOffset {
                            value: self.off_dt_strings,
                            expected: clipped..self.totalsize,
                        },
                    )
                } else {
                    None
                }
            },
            _ => {
                let struct_end: u64 = self.off_dt_struct as u64 + self.size_dt_struct as u64;
                let max_strings: u32 = if struct_end <= self.totalsize as u64 {
                    self.totalsize - struct_end as u32
                } else {
                    0
                };
                if self.size_dt_strings > max_strings {
                    Some(
                        HeaderError::StringsSize { value: self.size_dt_strings, max: max_strings },
                    )
                } else {
                    None
                }
            },
        }
    }

    /// Checks the header against `blob`, the buffer it was read from.
    ///
    /// The checks run in a fixed order; a failed check is passed to
    /// `filter`, which may tolerate it, and the first untolerated failure
    /// is returned. The blob-address alignment check is the embedder's:
    /// a slice cannot observe its own address.
    pub fn verify<F: Fn(&HeaderError) -> bool>(&self, blob: &[u8], filter: F) -> (r: Result<
        (),
        HeaderError,
    >)
        requires
            forall|e: &HeaderError| #[trigger] call_requires(filter, (e,)),
        ensures
            spec_header_errors(*self, blob@).len() == 0 ==> r is Ok,
            r matches Err(e) ==> call_ensures(filter, (&e,), false) && exists|i: int|
                0 <= i < spec_header_errors(*self, blob@).len() && e == spec_header_errors(
                    *self,
                    blob@,
                )[i] && (forall|j: int|
                    0 <= j < i ==> call_ensures(
                        filter,
                        (&spec_header_errors(*self, blob@)[j],),
                        true,
                    )),
            r is Ok ==> forall|i: int|
                0 <= i < spec_header_errors(*self, blob@).len() ==> call_ensures(
                    filter,
                    (&spec_header_errors(*self, blob@)[i],),
                    true,
                ),
    {
        let ghost errs = spec_header_errors(*self, blob@);
        let mut k: u32 = 0;
        while k < CHECK_COUNT
            invariant
                forall|e: &HeaderError| #[trigger] call_requires(filter, (e,)),
                errs == spec_header_errors(*self, blob@),
                0 <= k <= CHECK_COUNT,
                forall|i: int|
                    0 <= i < spec_errors_upto(*self, blob@, k as int).len() ==> call_ensures(
                        filter,
                        (&spec_errors_upto(*self, blob@, k as int)[i],),
                        true,
                    ),
            decreases CHECK_COUNT - k,
        {
            let ghost done = spec_errors_upto(*self, blob@, k as int);
            if let Some(err) = self.run_check(blob, k) {
                proof {
                    assert(spec_errors_upto(*self, blob@, k as int + 1) == done + seq![err]);
                }
                if !filter(&err) {
                    proof {
                        lemma_errors_upto_prefix(*self, blob@, k as int + 1, CHECK_COUNT as int);
                        assert(errs[done.len() as int] == err);
                        assert(forall|j: int|
                            0 <= j < done.len() ==> errs[j] == done[j] && call_ensures(
                                filter,
                                (&done[j],),
                                true,
                            ));
                    }
                    return Err(err);
                }
                proof {
                    let k1 = k as int + 1;
                    assert(forall|i: int|
                        0 <= i < spec_errors_upto(*self, blob@, k1).len() ==> call_ensures(
                            filter,
                            (&spec_errors_upto(*self, blob@, k1)[i],),
                            true,
                        ));
                }
            } else {
                proof {
                    assert(spec_errors_upto(*self, blob@, k as int + 1) == done);
                }
            }
            k += 1;
        }
        Ok(())
    }

    /// Runs the structure-content sanity check of [`Self::verify`]: `None`
    /// when the bookends stand, else the diagnostic of the first failure.
    fn struct_content_err(&self, blob: &[u8]) -> (r: Option<HeaderError>)
        ensures
            r == (if spec_struct_content_ok(*self, blob@) {
                Option::<HeaderError>::None
            } else {
                Some(spec_struct_content_err(*self, blob@))
            }),
    {
        let words: u32 = self.size_dt_struct / 4;
        let small = HeaderError::StructContent {
            value: self.size_dt_struct,
            offset: self.off_dt_struct,
        };
        if words < 3 {
            return Some(small);
        }
        if self.off_dt_struct as u64 + (words as u64) * 4 > blob.len() as u64 {
            return Some(small);
        }
        let off: usize = self.off_dt_struct as usize;
        let first = StructureBlock::read(blob, off).into_u32();
        if first != TOKEN_NODE_BEGIN {
            return Some(HeaderError::StructContent { value: first, offset: self.off_dt_struct });
        }
        let name = StructureBlock::read(blob, off + 4).into_u32();
        if name != 0 {
            return Some(
                HeaderError::StructContent { value: name, offset: clip_u32(off as u64 + 4) },
            );
        }
        let last_at: usize = off + (words as usize - 1) * 4;
        let last = StructureBlock::read(blob, last_at).into_u32();
        if last != TOKEN_END {
            return Some(HeaderError::StructContent { value: last, offset: clip_u32(last_at as u64) });
        }
        None
    }
}

/// Clips an offset to the width of a header field.
fn clip_u32(x: u64) -> (r: u32)
    ensures
        r == spec_clip_u32(x as int),
{
    if x <= u32::MAX as u64 {
        x as u32
    } else {
        u32::MAX
    }
}

/// The largest power of two dividing `v`, reported with misalignment errors.
fn low_bit(v: u32) -> (r: u32)
    requires
        v % 4 != 0,
    ensures
        r == spec_low_bit(v),
{
    if v % 2 == 1 {
        1
    } else {
        2
    }
}

} // verus!
