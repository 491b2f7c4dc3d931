//! Depth-first walker for flattened devicetree blobs.
//!
//! The blob's fixed header is validated field by field, the structure
//! section is tokenized and walked without copying it, and property
//! values are decoded according to the cell configuration in force.

use vstd::prelude::*;

pub mod context;
pub mod header;
pub mod indent;
pub mod model;
pub mod path;
pub mod property;
pub mod str;
pub mod structure_block;
pub mod tree_on_stack;
pub mod walker;

pub use crate::str::Str;
pub use context::{Cells, Context};
pub use header::{FdtHeader, HeaderError};
pub use indent::{indent, Indent};
pub use path::Path;
pub use property::{PHandle, Property, Reg, RegCfg, StrList};
pub use tree_on_stack::Node;
pub use walker::Event;

use context::spec_default_cells;
use model::{
    good_events, is_good, no_stop, replies_complete, replies_wf, spec_scan, stopped_last,
    ScanResult, SpecReply,
};
use structure_block::{word_at, TOKEN_END, TOKEN_NODE_BEGIN};
use walker::frame1;

verus! {

/// The structure and strings sections of a blob, where its header places
/// them, or nothing when they do not fit the buffer or the structure
/// section lacks its bookends: a root node's opening token and empty
/// name first, the terminating token last, with a whole number of words
/// in between.
pub open spec fn spec_sections(blob: Seq<u8>) -> Option<(Seq<u8>, Seq<u8>)> {
    if blob.len() < header::LEN_HEADER {
        None
    } else {
        let h = header::spec_parse_header(blob);
        let off = h.off_dt_struct as int;
        let size = h.size_dt_struct as int;
        let soff = h.off_dt_strings as int;
        let ssize = h.size_dt_strings as int;
        if off + size > blob.len() || size % 4 != 0 || size < 12 || soff + ssize > blob.len() {
            None
        } else {
            let stru = blob.subrange(off, off + size);
            let strs = blob.subrange(soff, soff + ssize);
            if word_at(stru, 0) == TOKEN_NODE_BEGIN && word_at(stru, 4) == 0 && word_at(
                stru,
                size - 4,
            ) == TOKEN_END {
                Some((stru, strs))
            } else {
                None
            }
        }
    }
}

/// A devicetree blob: a borrowed byte buffer holding a header, a
/// reserved-memory block, a structure section and a strings section.
pub struct Dtb<'a>(pub(crate) &'a [u8]);

impl<'a> View for Dtb<'a> {
    type V = Seq<u8>;

    closed spec fn view(&self) -> Seq<u8> {
        self.0@
    }
}

/// Structural corruption found while walking the structure section.
///
/// These are fatal: the token stream disagrees with its own grammar, and
/// the walk stops where the disagreement was found.
#[derive(Clone, Copy, Debug, PartialEq, Eq, Structural)]
pub enum StructureError {
    /// The blob cannot hold the sections where the header places them, or
    /// the structure section lacks its root-node and end-token bookends.
    Layout,
    /// A token, name or value would run past the structure section's end;
    /// carries the byte offset of the token it belongs to.
    Truncated {
        /// Offset of the token whose payload runs out, within the
        /// structure section.
        offset: usize,
    },
    /// A word that is no recognized token where one was expected.
    UnexpectedToken {
        /// Offset of the word within the structure section.
        offset: usize,
        /// The word's value.
        token: u32,
    },
    /// A `#address-cells` or `#size-cells` value that is not exactly one
    /// cell.
    InvalidCellCount {
        /// Offset of the property token within the structure section.
        offset: usize,
        /// The declared byte length of the value.
        length: u32,
    },
    /// A property's name offset points at no NUL-terminated string.
    PropertyName {
        /// The offset into the strings section that failed to resolve.
        nameoff: u32,
    },
}

/// What a visitor asks the walker to do after a node-entry event.
pub enum WalkOperation<T> {
    /// Descend into the child, giving it this metadata; when its subtree
    /// finishes, the metadata is merged back into the parent's.
    Access(T),
    /// Do not descend; skip as the carried kind says.
    Skip(SkipType),
}

/// How much to skip when a visitor declines an event.
#[derive(Clone, Copy, Debug, PartialEq, Eq, Structural)]
pub enum SkipType {
    /// Skip this subtree silently and continue with the next sibling.
    StepOver,
    /// Skip this subtree and the rest of the current node's body silently,
    /// returning to the grandparent.
    StepOut,
    /// Abort the whole traversal.
    Terminate,
}

/// The visitor a traversal is driven by: per-node metadata with hooks.
///
/// The walker calls `visit_node` at each node entry and `visit_prop` at
/// each property, always on the metadata of the node the event belongs
/// to; `merge` folds a finished child's metadata into its parent's. The
/// default hooks skip everything.
pub trait ContextMeta: Sized {
    /// Called with the parent's context when a child node is entered.
    fn visit_node(&mut self, ctx: &Context<'_>, name: Str<'_>) -> WalkOperation<Self> {
        WalkOperation::Skip(SkipType::StepOver)
    }

    /// Called with the owning node's context at each property. Properties
    /// cannot be entered, only skipped over or out, or the walk ended.
    fn visit_prop(&mut self, ctx: &Context<'_>, prop: Property<'_>) -> SkipType {
        SkipType::StepOver
    }

    /// Folds a finished child subtree's metadata into this node's.
    fn merge(&mut self, child: Self) {
    }
}

/// Why a byte slice could not be wrapped as a blob.
#[derive(Clone, Debug, PartialEq, Eq)]
pub enum ConvertError {
    /// A header check failed and was not tolerated.
    Header(HeaderError),
    /// The slice cannot hold the declared total size, or not even a header.
    Truncated,
}

impl<'a> Dtb<'a> {
    /// Wraps `slice` as a blob after validating its header, tolerating the
    /// header anomalies `filter` accepts.
    ///
    /// The slice must hold at least a full header and the declared total
    /// size; the blob is trimmed to that size.
    pub fn from_slice_filtered<F: Fn(&HeaderError) -> bool>(slice: &'a [u8], filter: F) -> (r:
        Result<Self, ConvertError>)
        requires
            forall|e: &HeaderError| #[trigger] call_requires(filter, (e,)),
        ensures
            slice@.len() < header::LEN_HEADER ==> r == Err::<Self, _>(ConvertError::Truncated),
            r matches Ok(d) ==> {
                let h = header::spec_parse_header(slice@);
                &&& slice@.len() >= header::LEN_HEADER
                &&& h.totalsize <= slice@.len()
                &&& d@ == slice@.take(h.totalsize as int)
                &&& forall|i: int|
                    0 <= i < header::spec_header_errors(h, slice@).len() ==> call_ensures(
                        filter,
                        (&header::spec_header_errors(h, slice@)[i],),
                        true,
                    )
            },
            r == Err::<Self, _>(ConvertError::Truncated) && slice@.len() >= header::LEN_HEADER
                ==> {
                let h = header::spec_parse_header(slice@);
                &&& h.totalsize > slice@.len()
                &&& forall|i: int|
                    0 <= i < header::spec_header_errors(h, slice@).len() ==> call_ensures(
                        filter,
                        (&header::spec_header_errors(h, slice@)[i],),
                        true,
                    )
            },
            r matches Err(ConvertError::Header(e)) ==> {
                let h = header::spec_parse_header(slice@);
                &&& slice@.len() >= header::LEN_HEADER
                &&& call_ensures(filter, (&e,), false)
                &&& exists|i: int|
                    0 <= i < header::spec_header_errors(h, slice@).len() && e
                        == header::spec_header_errors(h, slice@)[i] && (forall|j: int|
                        0 <= j < i ==> call_ensures(
                            filter,
                            (&header::spec_header_errors(h, slice@)[j],),
                            true,
                        ))
            },
    {
        let h = match FdtHeader::parse(slice) {
            Some(h) => h,
            None => { return Err(ConvertError::Truncated) },
        };
        match h.verify(slice, filter) {
            Ok(()) => {
                let len = h.totalsize as usize;
                if len <= slice.len() {
                    Ok(Dtb(&slice[0..len]))
                } else {
                    Err(ConvertError::Truncated)
                }
            },
            Err(e) => Err(ConvertError::Header(e)),
        }
    }

    /// Wraps `slice` as a blob after validating its header, tolerating
    /// nothing: the slice is accepted exactly when every header check
    /// passes and the declared total size fits in the slice.
    pub fn from_slice(slice: &'a [u8]) -> (r: Result<Self, ConvertError>)
        ensures
            ({
                let h = header::spec_parse_header(slice@);
                let errs = header::spec_header_errors(h, slice@);
                match r {
                    Ok(d) => slice@.len() >= header::LEN_HEADER && errs.len() == 0 && h.totalsize
                        <= slice@.len() && d@ == slice@.take(h.totalsize as int),
                    Err(ConvertError::Truncated) => slice@.len() < header::LEN_HEADER || (errs.len()
                        == 0 && h.totalsize > slice@.len()),
                    Err(ConvertError::Header(e)) => slice@.len() >= header::LEN_HEADER && errs.len()
                        > 0 && e == errs[0],
                }
            }),
    {
        let reject = |e: &HeaderError| -> (tolerated: bool)
            ensures
                !tolerated,
            { false };
        let r = Self::from_slice_filtered(slice, reject);
        proof {
            let h = header::spec_parse_header(slice@);
            let errs = header::spec_header_errors(h, slice@);
            match &r {
                Ok(d) => {
                    if errs.len() > 0 {
                        assert(call_ensures(reject, (&errs[0],), true));
                        assert(false);
                    }
                },
                Err(ConvertError::Truncated) => {
                    if slice@.len() >= header::LEN_HEADER && errs.len() > 0 {
                        assert(call_ensures(reject, (&errs[0],), true));
                        assert(false);
                    }
                },
                Err(ConvertError::Header(e)) => {
                    let e = *e;
                    let i = choose|i: int|
                        0 <= i < errs.len() && e == errs[i] && (forall|j: int|
                            0 <= j < i ==> call_ensures(reject, (&errs[j],), true));
                    if i > 0 {
                        assert(call_ensures(reject, (&errs[0],), true));
                        assert(false);
                    }
                },
            }
        }
        r
    }

    /// Wraps `slice` as a blob without validating the header: only the
    /// declared total size is read, and the slice must hold it. The caller
    /// asserts correctness, for instance because an earlier stage already
    /// validated the blob; traversal stays safe either way and reports
    /// corruption as it is found.
    pub fn from_slice_unchecked(slice: &'a [u8]) -> (r: Result<Self, ConvertError>)
        ensures
            ({
                let h = header::spec_parse_header(slice@);
                match r {
                    Ok(d) => slice@.len() >= header::LEN_HEADER && h.totalsize <= slice@.len()
                        && d@ == slice@.take(h.totalsize as int),
                    Err(e) => e == ConvertError::Truncated && (slice@.len() < header::LEN_HEADER
                        || h.totalsize > slice@.len()),
                }
            }),
    {
        let h = match FdtHeader::parse(slice) {
            Some(h) => h,
            None => { return Err(ConvertError::Truncated) },
        };
        let len = h.totalsize as usize;
        if len <= slice.len() {
            Ok(Dtb(&slice[0..len]))
        } else {
            Err(ConvertError::Truncated)
        }
    }

    /// The structure and strings sections, or the layout error.
    fn sections(&self) -> (r: Result<(&'a [u8], &'a [u8]), StructureError>)
        ensures
            match spec_sections(self@) {
                Some(p) => r matches Ok(q) && q.0@ == p.0 && q.1@ == p.1 && p.0.len() >= 12,
                None => r matches Err(e) && e == StructureError::Layout,
            },
    {
        let h = match FdtHeader::parse(self.0) {
            Some(h) => h,
            None => { return Err(StructureError::Layout) },
        };
        let n = self.0.len();
        let off = h.off_dt_struct as usize;
        let size = h.size_dt_struct as usize;
        let soff = h.off_dt_strings as usize;
        let ssize = h.size_dt_strings as usize;
        if off as u64 + size as u64 > n as u64 || size % 4 != 0 || size < 12 || soff as u64
            + ssize as u64 > n as u64 {
            return Err(StructureError::Layout);
        }
        let stru = &self.0[off..off + size];
        let strs = &self.0[soff..soff + ssize];
        proof {
            assert(stru@ =~= self@.subrange(off as int, off as int + size as int));
            assert(strs@ =~= self@.subrange(soff as int, soff as int + ssize as int));
        }
        let first = structure_block::StructureBlock::read(stru, 0).into_u32();
        let name = structure_block::StructureBlock::read(stru, 4).into_u32();
        let last = structure_block::StructureBlock::read(stru, size - 4).into_u32();
        if !(first == TOKEN_NODE_BEGIN && name == 0 && last == TOKEN_END) {
            return Err(StructureError::Layout);
        }
        Ok((stru, strs))
    }

    /// Walks the blob depth-first, driving `root_meta`'s hooks at every
    /// node entry and property, and returns the root metadata when the
    /// traversal completes or the visitor terminates it, together with
    /// the ghost record of the visitor's replies in the order the hooks
    /// were asked.
    ///
    /// On a blob whose sections lie where the header says and whose token
    /// stream follows the grammar of [`model::spec_scan`], the walk
    /// succeeds whatever the visitor answers. An error reports the
    /// corruption that stopped the walk; skipping a subtree can bypass
    /// corruption that only a property name's resolution would hit, so an
    /// early termination or a skip may return `Ok` on a blob whose full
    /// scan would not.
    ///
    /// The ghost record lists the visitor's calls: each entry holds the
    /// event a hook was shown, exactly as the scan model yields it, and
    /// the reply it gave. The record witnesses how the visitor steered
    /// the walk:
    /// - every event the scan model yields is accounted for: it was
    ///   handed to a hook as it stands, or lies in a subtree a reply
    ///   declined, in a body a reply stepped out of, or after a
    ///   terminating reply ([`model::replies_complete`]) — so sibling
    ///   traversal continues after a step-over, and traversal resumes at
    ///   the grandparent after a step-out;
    /// - the hooks are asked in document order, a declined subtree
    ///   contributes no reply, and a step-out silences the rest of the
    ///   enclosing body ([`model::replies_wf`]);
    /// - cancellation is immediate: a terminating reply is always the
    ///   record's last entry, so no hook is asked anything after the
    ///   visitor terminates the traversal.
    pub fn walk<M: ContextMeta>(&self, root_meta: M) -> (r: (
        Result<M, StructureError>,
        Ghost<Seq<SpecReply>>,
    ))
        ensures
            spec_sections(self@) is None ==> (r.0 matches Err(e) && e == StructureError::Layout),
            spec_sections(self@) matches Some(p) ==> (is_good(
                spec_scan(p.0, p.1, 8, 0, frame1(spec_default_cells(), spec_default_cells())),
            ) ==> (r.0 is Ok && replies_complete(
                p.0,
                good_events(
                    spec_scan(p.0, p.1, 8, 0, frame1(spec_default_cells(), spec_default_cells())),
                ),
                r.1@,
            ))),
            no_stop(r.1@) || stopped_last(r.1@),
            spec_sections(self@) matches Some(p) ==> replies_wf(p.0, r.1@, 8, p.0.len() as int),
    {
        let (stru, strings) = match self.sections() {
            Ok(p) => p,
            Err(e) => {
                proof {
                    model::lemma_no_stop_empty();
                    if let Some(p) = spec_sections(self@) {
                        model::lemma_replies_wf_empty(p.0, 8, p.0.len() as int);
                    }
                }
                return (Err(e), Ghost(Seq::empty()));
            },
        };
        walker::walk_sections(stru, strings, root_meta)
    }

    /// Collects every traversal event of the blob, in document order,
    /// pre-order, each carrying the level of the node it is reported
    /// against: exactly the event sequence of [`model::spec_scan`] over
    /// the blob's sections, or the first corruption an exhaustive walk
    /// finds.
    pub fn events(&self) -> (r: Result<Vec<Event>, StructureError>)
        ensures
            spec_sections(self@) is None ==> (r matches Err(e) && e == StructureError::Layout),
            spec_sections(self@) matches Some(p) ==> (match spec_scan(
                p.0,
                p.1,
                8,
                0,
                frame1(spec_default_cells(), spec_default_cells()),
            ) {
                ScanResult::Good { events, .. } => r matches Ok(v) && walker::events_model(v@)
                    == events,
                ScanResult::Bad { err } => r matches Err(e) && e == err,
            }),
    {
        let (stru, strings) = match self.sections() {
            Ok(p) => p,
            Err(e) => { return Err(e) },
        };
        walker::collect_events(stru, strings)
    }

    /// The byte length of the wrapped blob.
    pub fn total_size(&self) -> (r: usize)
        ensures
            r == self@.len(),
    {
        self.0.len()
    }
}

} // verus!
