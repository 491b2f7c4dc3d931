//! The grammar of the structure section, as one specification: a scan
//! that yields the traversal's events in document order, pre-order, with
//! each event's level equal to its node's nesting depth.

use crate::context::Cells;
use crate::property::{
    spec_find_nul, spec_name_address_cells, spec_name_interrupt_cells, spec_name_size_cells,
};
use crate::structure_block::{
    spec_tail_zeros, word_at, TOKEN_NODE_BEGIN, TOKEN_NODE_END, TOKEN_NOP, TOKEN_PROP,
};
use crate::StructureError;
use vstd::prelude::*;

verus! {

/// End offset (exclusive) of the word-padded, NUL-terminated name that
/// starts at `pos`: the first word boundary after a word whose last byte
/// is NUL. `None` when the name runs past the section's end.
pub open spec fn spec_name_end(s: Seq<u8>, pos: int) -> Option<int>
    decreases s.len() - pos,
{
    if pos < 0 || pos + 4 > s.len() {
        None
    } else if s[pos + 3] == 0 {
        Some(pos + 4)
    } else {
        spec_name_end(s, pos + 4)
    }
}

/// Bounds of [`spec_name_end`]: the region is at least one word, ends
/// within the section, and spans whole words.
pub proof fn lemma_name_end(s: Seq<u8>, pos: int)
    ensures
        spec_name_end(s, pos) matches Some(ne) ==> pos + 4 <= ne <= s.len() && (ne - pos) % 4 == 0,
    decreases s.len() - pos,
{
    if 0 <= pos && pos + 4 <= s.len() && s[pos + 3] != 0 {
        lemma_name_end(s, pos + 4);
    }
}

/// The name bytes of a node whose padded name region is `[pos, ne)`: the
/// region minus the trailing NULs its last word contributes.
pub open spec fn spec_node_name(s: Seq<u8>, pos: int, ne: int) -> Seq<u8> {
    s.subrange(pos, ne - spec_tail_zeros(s.subrange(ne - 4, ne)))
}

/// `n` rounded up to the next multiple of four.
pub open spec fn spec_pad4(n: int) -> int {
    if n % 4 == 0 {
        n
    } else {
        n + 4 - n % 4
    }
}

/// The property name stored at byte offset `off` of the strings section:
/// the bytes up to the next NUL. `None` when the offset is out of range
/// or no NUL follows it.
pub open spec fn spec_prop_name(strs: Seq<u8>, off: int) -> Option<Seq<u8>> {
    if off < 0 || off > strs.len() {
        None
    } else {
        let rel = spec_find_nul(strs.skip(off));
        if off + rel == strs.len() {
            None
        } else {
            Some(strs.subrange(off, off + rel))
        }
    }
}

/// One frame of the scan's stack of open nodes.
pub struct SpecFrame {
    /// The configuration the node's parent had in force when the node was
    /// entered; the node's own `reg` is decoded with it.
    pub entry: Cells,
    /// The configuration the node has in force, as updated by its
    /// `#address-cells`-family properties; its children inherit it.
    pub force: Cells,
}

/// One traversal event.
pub enum SpecEvent {
    /// A node entry, reported with the parent's level: the root's direct
    /// children are at level zero.
    Node {
        /// Byte offset of the node's opening token within the structure
        /// section.
        at: int,
        /// Nesting depth of the parent node.
        level: int,
        /// The node's name.
        name: Seq<u8>,
    },
    /// A property, reported with its node's level.
    Prop {
        /// Byte offset of the property token within the structure section.
        at: int,
        /// Nesting depth of the owning node.
        level: int,
        /// The property's name, resolved through the strings section.
        name: Seq<u8>,
        /// The raw value bytes.
        value: Seq<u8>,
        /// The configuration a `reg` value is decoded with: the one the
        /// owning node was entered under.
        reg_cells: Cells,
    },
}

/// The offset of the token an event was reported from.
pub open spec fn spec_event_at(e: SpecEvent) -> int {
    match e {
        SpecEvent::Node { at, .. } => at,
        SpecEvent::Prop { at, .. } => at,
    }
}

/// What a scan of one region yields: its events and its end offset, or
/// the corruption that stopped it.
pub enum ScanResult {
    /// The region scanned cleanly.
    Good {
        /// The events of the region, in document order.
        events: Seq<SpecEvent>,
        /// Offset just past the closing token.
        end: int,
    },
    /// The scan hit structural corruption.
    Bad {
        /// What was found.
        err: StructureError,
    },
}

/// Whether a scan result is clean.
pub open spec fn is_good(r: ScanResult) -> bool {
    r is Good
}

/// The end offset of a clean scan result.
pub open spec fn good_end(r: ScanResult) -> int {
    match r {
        ScanResult::Good { end, .. } => end,
        ScanResult::Bad { .. } => 0,
    }
}

/// The events of a clean scan result.
pub open spec fn good_events(r: ScanResult) -> Seq<SpecEvent> {
    match r {
        ScanResult::Good { events, .. } => events,
        ScanResult::Bad { .. } => seq![],
    }
}

/// Prepends already-collected events to a scan result.
pub open spec fn spec_compose(prefix: Seq<SpecEvent>, rest: ScanResult) -> ScanResult {
    match rest {
        ScanResult::Good { events, end } => ScanResult::Good { events: prefix + events, end },
        ScanResult::Bad { err } => ScanResult::Bad { err },
    }
}

/// One reply a visitor gave to a node-entry or property event.
pub enum SpecDecision {
    /// The node was entered.
    Enter,
    /// The subtree or property was stepped over.
    Over,
    /// The rest of the current node's body was stepped out of.
    Out,
    /// The traversal was terminated.
    Stop,
}

/// One entry of the walk's ghost record: the event the visitor was shown
/// and what it answered. The record lists the hooks' calls in order.
pub struct SpecReply {
    /// Byte offset, within the structure section, of the token the event
    /// was reported from.
    pub at: int,
    /// The event handed to the hook, exactly as the scan model yields it.
    pub event: SpecEvent,
    /// The visitor's answer.
    pub reply: SpecDecision,
}

/// Where the subtree of the node whose opening token sits at `at` ends:
/// just past its matching closing token.
#[verifier::opaque]
pub open spec fn spec_subtree_end(s: Seq<u8>, at: int) -> Option<int> {
    match spec_name_end(s, at + 4) {
        Some(ne) => spec_skip(s, ne, 0),
        None => None,
    }
}

/// Where traversal resumes after stepping out at the reply `r`: past the
/// rest of the enclosing node's body. For a node entry the declined
/// subtree is passed first; for a property only its own record.
#[verifier::opaque]
pub open spec fn spec_out_end(s: Seq<u8>, r: SpecReply) -> Option<int> {
    if r.event is Node {
        match spec_subtree_end(s, r.at) {
            Some(q1) => spec_skip(s, q1, 0),
            None => None,
        }
    } else {
        spec_skip(s, r.at + 12 + spec_pad4(word_at(s, r.at + 4) as int), 0)
    }
}

/// Computes [`spec_subtree_end`] from its two scans.
pub proof fn lemma_subtree_end(s: Seq<u8>, at: int, ne: int, q: int)
    requires
        spec_name_end(s, at + 4) == Some(ne),
        spec_skip(s, ne, 0) == Some(q),
    ensures
        spec_subtree_end(s, at) == Some(q),
{
    reveal(spec_subtree_end);
}

/// Computes [`spec_out_end`] for a node-entry reply from its two skips.
pub proof fn lemma_out_end_node(s: Seq<u8>, r: SpecReply, q1: int, q2: int)
    requires
        r.event is Node,
        spec_subtree_end(s, r.at) == Some(q1),
        spec_skip(s, q1, 0) == Some(q2),
    ensures
        spec_out_end(s, r) == Some(q2),
{
    reveal(spec_out_end);
}

/// Computes [`spec_out_end`] for a property reply from the skip past it.
pub proof fn lemma_out_end_prop(s: Seq<u8>, r: SpecReply, q: int)
    requires
        !(r.event is Node),
        spec_skip(s, r.at + 12 + spec_pad4(word_at(s, r.at + 4) as int), 0) == Some(q),
    ensures
        spec_out_end(s, r) == Some(q),
{
    reveal(spec_out_end);
}

/// Whether no reply in `d` terminated the traversal.
#[verifier::opaque]
pub open spec fn no_stop(d: Seq<SpecReply>) -> bool {
    forall|k: int| 0 <= k < d.len() ==> (#[trigger] d[k]).reply != SpecDecision::Stop
}

/// Whether `d` ends with the one terminating reply: nothing was asked
/// after it.
#[verifier::opaque]
pub open spec fn stopped_last(d: Seq<SpecReply>) -> bool {
    &&& d.len() > 0
    &&& d.last().reply == SpecDecision::Stop
    &&& forall|k: int| 0 <= k < d.len() - 1 ==> (#[trigger] d[k]).reply != SpecDecision::Stop
}

/// The discipline the walk's reply record obeys over the region
/// `[lo, hi)` of the structure section:
/// - the hooks are asked in document order: offsets strictly increase;
/// - every reply lies in the region;
/// - a subtree declined with a step-over contributes nothing: every later
///   reply lies at or past the subtree's end;
/// - a step-out silences the rest of the enclosing body: every later
///   reply lies at or past that body's end.
#[verifier::opaque]
pub open spec fn replies_wf(s: Seq<u8>, d: Seq<SpecReply>, lo: int, hi: int) -> bool {
    &&& forall|i: int, j: int| 0 <= i < j < d.len() ==> d[i].at < d[j].at
    &&& forall|k: int| 0 <= k < d.len() ==> lo <= (#[trigger] d[k]).at < hi
    &&& forall|k: int|
        0 <= k < d.len() && (#[trigger] d[k]).event is Node && d[k].reply == SpecDecision::Over
            ==> (spec_subtree_end(s, d[k].at) matches Some(q) && q <= hi && (forall|j: int|
            k < j < d.len() ==> (#[trigger] d[j]).at >= q))
    &&& forall|k: int|
        0 <= k < d.len() && (#[trigger] d[k]).reply == SpecDecision::Out ==> (spec_out_end(
            s,
            d[k],
        ) matches Some(q) && q <= hi && (forall|j: int|
            k < j < d.len() ==> (#[trigger] d[j]).at >= q))
}

/// The empty record obeys the discipline of any region.
pub proof fn lemma_replies_wf_empty(s: Seq<u8>, lo: int, hi: int)
    ensures
        replies_wf(s, Seq::<SpecReply>::empty(), lo, hi),
{
    reveal(replies_wf);
}

/// A record that obeys the discipline of a region obeys it for any
/// enclosing region.
pub proof fn lemma_replies_wf_widen(s: Seq<u8>, d: Seq<SpecReply>, lo: int, hi: int, lo2: int, hi2: int)
    requires
        replies_wf(s, d, lo, hi),
        lo2 <= lo,
        hi <= hi2,
    ensures
        replies_wf(s, d, lo2, hi2),
{
    reveal(replies_wf);
}

/// Appending one reply past a record's region keeps the discipline, as
/// long as the new reply's own skip, if any, ends within the new region.
pub proof fn lemma_replies_wf_push(
    s: Seq<u8>,
    d: Seq<SpecReply>,
    lo: int,
    hi: int,
    r: SpecReply,
    hi2: int,
)
    requires
        replies_wf(s, d, lo, hi),
        lo <= hi <= r.at < hi2,
        r.event is Node && r.reply == SpecDecision::Over ==> (spec_subtree_end(
            s,
            r.at,
        ) matches Some(q) && q <= hi2),
        r.reply == SpecDecision::Out ==> (spec_out_end(s, r) matches Some(q) && q <= hi2),
    ensures
        replies_wf(s, d.push(r), lo, hi2),
{
    reveal(replies_wf);
    let e = d.push(r);
    assert(e[e.len() - 1] == r);
    assert(forall|k: int| 0 <= k < d.len() ==> e[k] == d[k]);
}

/// A record over `[lo, m)` followed by one over `[m, hi)` obeys the
/// discipline over `[lo, hi)`.
pub proof fn lemma_replies_wf_concat(
    s: Seq<u8>,
    a: Seq<SpecReply>,
    b: Seq<SpecReply>,
    lo: int,
    m: int,
    hi: int,
)
    requires
        replies_wf(s, a, lo, m),
        replies_wf(s, b, m, hi),
        lo <= m <= hi,
    ensures
        replies_wf(s, a + b, lo, hi),
{
    reveal(replies_wf);
    let e = a + b;
    assert(forall|k: int| 0 <= k < a.len() ==> e[k] == a[k]);
    assert(forall|k: int| a.len() <= k < e.len() ==> e[k] == b[k - a.len()]);
}

/// The empty record holds no termination.
pub proof fn lemma_no_stop_empty()
    ensures
        no_stop(Seq::<SpecReply>::empty()),
{
    reveal(no_stop);
}

/// Appending a reply that does not terminate keeps the record free of
/// terminations.
pub proof fn lemma_no_stop_push(d: Seq<SpecReply>, r: SpecReply)
    requires
        no_stop(d),
        r.reply != SpecDecision::Stop,
    ensures
        no_stop(d.push(r)),
{
    reveal(no_stop);
    assert(forall|k: int| 0 <= k < d.len() ==> d.push(r)[k] == d[k]);
    assert(d.push(r)[d.len() as int] == r);
}

/// Appending the terminating reply to a record free of terminations makes
/// it one that ends with the one termination.
pub proof fn lemma_stopped_push(d: Seq<SpecReply>, r: SpecReply)
    requires
        no_stop(d),
        r.reply == SpecDecision::Stop,
    ensures
        stopped_last(d.push(r)),
{
    reveal(no_stop);
    reveal(stopped_last);
    assert(forall|k: int| 0 <= k < d.len() ==> d.push(r)[k] == d[k]);
    assert(d.push(r).last() == r);
}

/// Whether the reply `r` silences the offset `x`: a later event at `x`
/// is legitimately absent from the record because `r` declined the
/// subtree holding it, stepped out of the body holding it, or terminated
/// the traversal before it.
pub open spec fn spec_silences(s: Seq<u8>, r: SpecReply, x: int) -> bool {
    ||| (r.reply == SpecDecision::Over && r.event is Node && r.at < x && (spec_subtree_end(
        s,
        r.at,
    ) matches Some(q) && x < q))
    ||| (r.reply == SpecDecision::Out && r.at < x && (spec_out_end(s, r) matches Some(q) && x < q))
    ||| (r.reply == SpecDecision::Stop && r.at < x)
}

/// Whether the record `d` accounts for the event `e`: some reply shows
/// the visitor exactly `e`, or some reply silences `e`'s offset.
pub open spec fn replies_account(s: Seq<u8>, d: Seq<SpecReply>, e: SpecEvent) -> bool {
    exists|k: int|
        0 <= k < d.len() && ((#[trigger] d[k]).event == e || spec_silences(
            s,
            d[k],
            spec_event_at(e),
        ))
}

/// Whether the record `d` accounts for every event of `es`: each one was
/// either handed to a hook as it stands, or lies in a region a reply
/// declined, stepped out of, or terminated before. This is what makes a
/// walk complete: no event of the scan model is passed over silently.
#[verifier::opaque]
pub open spec fn replies_complete(s: Seq<u8>, es: Seq<SpecEvent>, d: Seq<SpecReply>) -> bool {
    forall|i: int| 0 <= i < es.len() ==> replies_account(s, d, #[trigger] es[i])
}

/// No event list is vacuously complete.
pub proof fn lemma_complete_empty(s: Seq<u8>, d: Seq<SpecReply>)
    ensures
        replies_complete(s, Seq::<SpecEvent>::empty(), d),
{
    reveal(replies_complete);
}

/// Completeness of two event lists joins over their concatenation.
pub proof fn lemma_complete_concat(
    s: Seq<u8>,
    es1: Seq<SpecEvent>,
    es2: Seq<SpecEvent>,
    d: Seq<SpecReply>,
)
    requires
        replies_complete(s, es1, d),
        replies_complete(s, es2, d),
    ensures
        replies_complete(s, es1 + es2, d),
{
    reveal(replies_complete);
    assert forall|i: int| 0 <= i < (es1 + es2).len() implies replies_account(
        s,
        d,
        #[trigger] (es1 + es2)[i],
    ) by {
        if i < es1.len() {
            assert(replies_account(s, d, es1[i]));
        } else {
            assert(replies_account(s, d, es2[i - es1.len()]));
        }
    }
}

/// A record that accounts for events keeps accounting for them when more
/// replies are recorded before or after it.
pub proof fn lemma_complete_grow(
    s: Seq<u8>,
    es: Seq<SpecEvent>,
    a: Seq<SpecReply>,
    d: Seq<SpecReply>,
    b: Seq<SpecReply>,
)
    requires
        replies_complete(s, es, d),
    ensures
        replies_complete(s, es, a + d + b),
{
    reveal(replies_complete);
    assert forall|i: int| 0 <= i < es.len() implies replies_account(s, a + d + b, #[trigger] es[i]) by {
        let k = choose|k: int|
            0 <= k < d.len() && ((#[trigger] d[k]).event == es[i] || spec_silences(
                s,
                d[k],
                spec_event_at(es[i]),
            ));
        assert((a + d + b)[a.len() + k] == d[k]);
    }
}

/// One reply whose event is `e` accounts for `e` wherever it stands.
pub proof fn lemma_complete_one(s: Seq<u8>, e: SpecEvent, d: Seq<SpecReply>, k: int)
    requires
        0 <= k < d.len(),
        d[k].event == e,
    ensures
        replies_complete(s, seq![e], d),
{
    reveal(replies_complete);
    assert(replies_account(s, d, e));
}

/// One reply that silences every offset of `es` accounts for all of it.
pub proof fn lemma_complete_silenced(
    s: Seq<u8>,
    es: Seq<SpecEvent>,
    d: Seq<SpecReply>,
    k: int,
)
    requires
        0 <= k < d.len(),
        forall|i: int| 0 <= i < es.len() ==> spec_silences(s, d[k], spec_event_at(#[trigger] es[i])),
    ensures
        replies_complete(s, es, d),
{
    reveal(replies_complete);
    assert forall|i: int| 0 <= i < es.len() implies replies_account(s, d, #[trigger] es[i]) by {
        assert(spec_silences(s, d[k], spec_event_at(es[i])));
    }
}

/// What a record that ends with the one termination gives its reader: it
/// is nonempty and its last reply terminated.
pub proof fn lemma_stopped_props(d: Seq<SpecReply>)
    requires
        stopped_last(d),
    ensures
        d.len() > 0,
        d.last().reply == SpecDecision::Stop,
{
    reveal(stopped_last);
}

/// Replies without a termination, followed by more of the same, still
/// hold no termination.
pub proof fn lemma_no_stop_concat(a: Seq<SpecReply>, b: Seq<SpecReply>)
    requires
        no_stop(a),
        no_stop(b),
    ensures
        no_stop(a + b),
{
    reveal(no_stop);
    assert forall|k: int| 0 <= k < (a + b).len() implies (#[trigger] (a + b)[k]).reply
        != SpecDecision::Stop by {
        if k < a.len() {
            assert(a[k].reply != SpecDecision::Stop);
        } else {
            assert(b[k - a.len()].reply != SpecDecision::Stop);
        }
    }
}

/// Replies without a termination, followed by replies that end with the
/// one termination, end with the one termination.
pub proof fn lemma_stopped_concat(a: Seq<SpecReply>, b: Seq<SpecReply>)
    requires
        no_stop(a),
        stopped_last(b),
    ensures
        stopped_last(a + b),
{
    reveal(no_stop);
    reveal(stopped_last);
    assert((a + b).last() == b.last());
    assert forall|k: int| 0 <= k < (a + b).len() - 1 implies (#[trigger] (a + b)[k]).reply
        != SpecDecision::Stop by {
        if k < a.len() {
            assert(a[k].reply != SpecDecision::Stop);
        } else {
            assert(b[k - a.len()].reply != SpecDecision::Stop);
        }
    }
}

/// Prepending events associates with composing results.
pub proof fn lemma_compose_assoc(a: Seq<SpecEvent>, b: Seq<SpecEvent>, r: ScanResult)
    ensures
        spec_compose(a, spec_compose(b, r)) == spec_compose(a + b, r),
{
    match r {
        ScanResult::Good { events, end } => {
            assert(a + (b + events) =~= (a + b) + events);
        },
        ScanResult::Bad { .. } => {},
    }
}

/// How one scan step unfolds at the tokens that need no names or
/// properties resolved, for a single open frame.
pub proof fn lemma_scan_step(s: Seq<u8>, strs: Seq<u8>, pos: int, lvl: int, stack: Seq<SpecFrame>)
    requires
        stack.len() == 1,
    ensures
        (pos < 0 || pos + 4 > s.len()) ==> !is_good(spec_scan(s, strs, pos, lvl, stack)),
        (0 <= pos && pos + 4 <= s.len()) ==> ({
            let w = word_at(s, pos);
            &&& (w == TOKEN_NODE_END ==> spec_scan(s, strs, pos, lvl, stack) == ScanResult::Good {
                events: seq![],
                end: pos + 4,
            })
            &&& (w == TOKEN_NOP ==> spec_scan(s, strs, pos, lvl, stack) == spec_scan(
                s,
                strs,
                pos + 4,
                lvl,
                stack,
            ))
            &&& (w == TOKEN_NODE_BEGIN && spec_name_end(s, pos + 4) is None ==> !is_good(
                spec_scan(s, strs, pos, lvl, stack),
            ))
            &&& (w != TOKEN_NODE_END && w != TOKEN_NOP && w != TOKEN_NODE_BEGIN && w != TOKEN_PROP
                ==> !is_good(spec_scan(s, strs, pos, lvl, stack)))
        }),
{
    reveal(spec_scan);
}

/// Scans the structure section from `pos` with the given stack of open
/// nodes, whose last frame is the innermost; `lvl` is the nesting depth
/// of that innermost node. The scan ends just after the token that closes
/// the stack's outermost frame.
///
/// Events come in document order: a node's entry precedes everything in
/// its subtree (pre-order), and every event carries the level of the node
/// it is reported against. A `#address-cells`-family property updates the
/// innermost frame and yields no event; a node entered afterwards
/// inherits the updated configuration, while properties seen before the
/// update were reported under the older one — the walk is single-pass and
/// order-dependent by design.
#[verifier::opaque]
pub open spec fn spec_scan(
    s: Seq<u8>,
    strs: Seq<u8>,
    pos: int,
    lvl: int,
    stack: Seq<SpecFrame>,
) -> ScanResult
    recommends
        stack.len() >= 1,
    decreases s.len() - pos,
    via spec_scan_decreases
{
    if pos < 0 || pos + 4 > s.len() {
        ScanResult::Bad { err: StructureError::Truncated { offset: pos as usize } }
    } else {
        let w = word_at(s, pos);
        if w == TOKEN_NODE_END {
            if stack.len() <= 1 {
                ScanResult::Good { events: seq![], end: pos + 4 }
            } else {
                spec_scan(s, strs, pos + 4, lvl - 1, stack.drop_last())
            }
        } else if w == TOKEN_NOP {
            spec_scan(s, strs, pos + 4, lvl, stack)
        } else if w == TOKEN_NODE_BEGIN {
            match spec_name_end(s, pos + 4) {
                None => ScanResult::Bad { err: StructureError::Truncated { offset: pos as usize } },
                Some(ne) => {
                    let name = spec_node_name(s, pos + 4, ne);
                    let fr = stack.last();
                    let rest = spec_scan(
                        s,
                        strs,
                        ne,
                        lvl + 1,
                        stack.push(SpecFrame { entry: fr.force, force: fr.force }),
                    );
                    spec_compose(seq![SpecEvent::Node { at: pos, level: lvl, name }], rest)
                },
            }
        } else if w == TOKEN_PROP {
            if pos + 12 > s.len() {
                ScanResult::Bad { err: StructureError::Truncated { offset: pos as usize } }
            } else {
                let len = word_at(s, pos + 4);
                let nameoff = word_at(s, pos + 8);
                let vend = pos + 12 + spec_pad4(len as int);
                if vend > s.len() {
                    ScanResult::Bad { err: StructureError::Truncated { offset: pos as usize } }
                } else {
                    let value = s.subrange(pos + 12, pos + 12 + len);
                    match spec_prop_name(strs, nameoff as int) {
                        None => ScanResult::Bad { err: StructureError::PropertyName { nameoff } },
                        Some(pname) => {
                            let fr = stack.last();
                            if pname == spec_name_address_cells() {
                                if len == 4 {
                                    spec_scan(
                                        s,
                                        strs,
                                        vend,
                                        lvl,
                                        stack.update(
                                            stack.len() - 1,
                                            SpecFrame {
                                                entry: fr.entry,
                                                force: Cells {
                                                    address: word_at(s, pos + 12),
                                                    ..fr.force
                                                },
                                            },
                                        ),
                                    )
                                } else {
                                    ScanResult::Bad {
                                        err: StructureError::InvalidCellCount {
                                            offset: pos as usize,
                                            length: len,
                                        },
                                    }
                                }
                            } else if pname == spec_name_size_cells() {
                                if len == 4 {
                                    spec_scan(
                                        s,
                                        strs,
                                        vend,
                                        lvl,
                                        stack.update(
                                            stack.len() - 1,
                                            SpecFrame {
                                                entry: fr.entry,
                                                force: Cells {
                                                    size: word_at(s, pos + 12),
                                                    ..fr.force
                                                },
                                            },
                                        ),
                                    )
                                } else {
                                    ScanResult::Bad {
                                        err: StructureError::InvalidCellCount {
                                            offset: pos as usize,
                                            length: len,
                                        },
                                    }
                                }
                            } else if pname == spec_name_interrupt_cells() && len == 4 {
                                spec_scan(
                                    s,
                                    strs,
                                    vend,
                                    lvl,
                                    stack.update(
                                        stack.len() - 1,
                                        SpecFrame {
                                            entry: fr.entry,
                                            force: Cells {
                                                interrupt: word_at(s, pos + 12),
                                                ..fr.force
                                            },
                                        },
                                    ),
                                )
                            } else {
                                let ev = SpecEvent::Prop {
                                    at: pos,
                                    level: lvl,
                                    name: pname,
                                    value,
                                    reg_cells: fr.entry,
                                };
                                spec_compose(seq![ev], spec_scan(s, strs, vend, lvl, stack))
                            }
                        },
                    }
                }
            }
        } else {
            ScanResult::Bad {
                err: StructureError::UnexpectedToken { offset: pos as usize, token: w },
            }
        }
    }
}

#[via_fn]
proof fn spec_scan_decreases(s: Seq<u8>, strs: Seq<u8>, pos: int, lvl: int, stack: Seq<SpecFrame>) {
    lemma_name_end(s, pos + 4);
}

/// The same scan with no interest in names, properties or events: only
/// the token structure, advancing until the `depth + 1`-th unmatched
/// closing token. This is what subtree skipping follows; it reads the
/// strings section not at all.
pub open spec fn spec_skip(s: Seq<u8>, pos: int, depth: int) -> Option<int>
    decreases s.len() - pos,
    via spec_skip_decreases
{
    if pos < 0 || pos + 4 > s.len() {
        None
    } else {
        let w = word_at(s, pos);
        if w == TOKEN_NODE_END {
            if depth <= 0 {
                Some(pos + 4)
            } else {
                spec_skip(s, pos + 4, depth - 1)
            }
        } else if w == TOKEN_NOP {
            spec_skip(s, pos + 4, depth)
        } else if w == TOKEN_NODE_BEGIN {
            match spec_name_end(s, pos + 4) {
                None => None,
                Some(ne) => spec_skip(s, ne, depth + 1),
            }
        } else if w == TOKEN_PROP {
            if pos + 12 > s.len() {
                None
            } else {
                let vend = pos + 12 + spec_pad4(word_at(s, pos + 4) as int);
                if vend > s.len() {
                    None
                } else {
                    spec_skip(s, vend, depth)
                }
            }
        } else {
            None
        }
    }
}

#[via_fn]
proof fn spec_skip_decreases(s: Seq<u8>, pos: int, depth: int) {
    lemma_name_end(s, pos + 4);
}

/// Bounds of [`spec_skip`]: a successful skip moves forward and stays in
/// the section.
pub proof fn lemma_skip_bounds(s: Seq<u8>, pos: int, depth: int)
    ensures
        spec_skip(s, pos, depth) matches Some(e) ==> pos + 4 <= e <= s.len(),
    decreases s.len() - pos,
{
    if 0 <= pos && pos + 4 <= s.len() {
        let w = word_at(s, pos);
        if w == TOKEN_NODE_END {
            if depth > 0 {
                lemma_skip_bounds(s, pos + 4, depth - 1);
            }
        } else if w == TOKEN_NOP {
            lemma_skip_bounds(s, pos + 4, depth);
        } else if w == TOKEN_NODE_BEGIN {
            lemma_name_end(s, pos + 4);
            match spec_name_end(s, pos + 4) {
                None => {},
                Some(ne) => {
                    lemma_skip_bounds(s, ne, depth + 1);
                },
            }
        } else if w == TOKEN_PROP {
            if pos + 12 <= s.len() {
                let vend = pos + 12 + spec_pad4(word_at(s, pos + 4) as int);
                if vend <= s.len() {
                    lemma_skip_bounds(s, vend, depth);
                }
            }
        }
    }
}

/// Bounds of [`spec_scan`]: a clean scan ends past its start and within
/// the section.
pub proof fn lemma_scan_bounds(s: Seq<u8>, strs: Seq<u8>, pos: int, lvl: int, stack: Seq<SpecFrame>)
    ensures
        spec_scan(s, strs, pos, lvl, stack) matches ScanResult::Good { end, .. } ==> pos + 4 <= end
            <= s.len(),
    decreases s.len() - pos,
{
    reveal(spec_scan);
    if 0 <= pos && pos + 4 <= s.len() {
        let w = word_at(s, pos);
        if w == TOKEN_NODE_END {
            if stack.len() > 1 {
                lemma_scan_bounds(s, strs, pos + 4, lvl - 1, stack.drop_last());
            }
        } else if w == TOKEN_NOP {
            lemma_scan_bounds(s, strs, pos + 4, lvl, stack);
        } else if w == TOKEN_NODE_BEGIN {
            lemma_name_end(s, pos + 4);
            match spec_name_end(s, pos + 4) {
                None => {},
                Some(ne) => {
                    let fr = stack.last();
                    lemma_scan_bounds(
                        s,
                        strs,
                        ne,
                        lvl + 1,
                        stack.push(SpecFrame { entry: fr.force, force: fr.force }),
                    );
                },
            }
        } else if w == TOKEN_PROP {
            if pos + 12 <= s.len() {
                let vend = pos + 12 + spec_pad4(word_at(s, pos + 4) as int);
                if vend <= s.len() {
                    let top = stack.last();
                    let cell = word_at(s, pos + 12);
                    lemma_scan_bounds(s, strs, vend, lvl, stack);
                    lemma_scan_bounds(s, strs, vend, lvl, stack.update(stack.len() - 1, SpecFrame {
                        entry: top.entry,
                        force: Cells { address: cell, ..top.force },
                    }));
                    lemma_scan_bounds(s, strs, vend, lvl, stack.update(stack.len() - 1, SpecFrame {
                        entry: top.entry,
                        force: Cells { size: cell, ..top.force },
                    }));
                    lemma_scan_bounds(s, strs, vend, lvl, stack.update(stack.len() - 1, SpecFrame {
                        entry: top.entry,
                        force: Cells { interrupt: cell, ..top.force },
                    }));
                }
            }
        }
    }
}

/// Every event of a clean scan is reported from a token inside the
/// scanned region: at or after its start, a full token before its end.
pub proof fn lemma_scan_event_offsets(
    s: Seq<u8>,
    strs: Seq<u8>,
    pos: int,
    lvl: int,
    stack: Seq<SpecFrame>,
)
    ensures
        spec_scan(s, strs, pos, lvl, stack) matches ScanResult::Good { events, end } ==> forall|
            i: int,
        |
            0 <= i < events.len() ==> pos <= spec_event_at(#[trigger] events[i]) && spec_event_at(
                events[i],
            ) + 4 <= end,
    decreases s.len() - pos,
{
    reveal(spec_scan);
    lemma_scan_bounds(s, strs, pos, lvl, stack);
    if 0 <= pos && pos + 4 <= s.len() {
        let w = word_at(s, pos);
        if w == TOKEN_NODE_END {
            if stack.len() > 1 {
                lemma_scan_event_offsets(s, strs, pos + 4, lvl - 1, stack.drop_last());
            }
        } else if w == TOKEN_NOP {
            lemma_scan_event_offsets(s, strs, pos + 4, lvl, stack);
        } else if w == TOKEN_NODE_BEGIN {
            lemma_name_end(s, pos + 4);
            match spec_name_end(s, pos + 4) {
                None => {},
                Some(ne) => {
                    let fr = stack.last();
                    let pushed = stack.push(SpecFrame { entry: fr.force, force: fr.force });
                    lemma_scan_event_offsets(s, strs, ne, lvl + 1, pushed);
                    lemma_scan_bounds(s, strs, ne, lvl + 1, pushed);
                },
            }
        } else if w == TOKEN_PROP {
            if pos + 12 <= s.len() {
                let vend = pos + 12 + spec_pad4(word_at(s, pos + 4) as int);
                if vend <= s.len() {
                    let top = stack.last();
                    let cell = word_at(s, pos + 12);
                    lemma_scan_event_offsets(s, strs, vend, lvl, stack);
                    lemma_scan_bounds(s, strs, vend, lvl, stack);
                    lemma_scan_event_offsets(s, strs, vend, lvl, stack.update(
                        stack.len() - 1,
                        SpecFrame { entry: top.entry, force: Cells { address: cell, ..top.force } },
                    ));
                    lemma_scan_event_offsets(s, strs, vend, lvl, stack.update(
                        stack.len() - 1,
                        SpecFrame { entry: top.entry, force: Cells { size: cell, ..top.force } },
                    ));
                    lemma_scan_event_offsets(s, strs, vend, lvl, stack.update(
                        stack.len() - 1,
                        SpecFrame { entry: top.entry, force: Cells { interrupt: cell, ..top.force } },
                    ));
                }
            }
        }
    }
}

/// A clean scan of a region can be skipped over: [`spec_skip`] follows
/// the same tokens and ends at the same offset, with the depth the
/// stack's extra frames give it.
pub proof fn lemma_scan_implies_skip(
    s: Seq<u8>,
    strs: Seq<u8>,
    pos: int,
    lvl: int,
    stack: Seq<SpecFrame>,
)
    requires
        stack.len() >= 1,
    ensures
        spec_scan(s, strs, pos, lvl, stack) matches ScanResult::Good { end, .. } ==> spec_skip(
            s,
            pos,
            stack.len() - 1,
        ) == Some(end),
    decreases s.len() - pos,
{
    reveal(spec_scan);
    if 0 <= pos && pos + 4 <= s.len() {
        let w = word_at(s, pos);
        if w == TOKEN_NODE_END {
            if stack.len() > 1 {
                lemma_scan_implies_skip(s, strs, pos + 4, lvl - 1, stack.drop_last());
            }
        } else if w == TOKEN_NOP {
            lemma_scan_implies_skip(s, strs, pos + 4, lvl, stack);
        } else if w == TOKEN_NODE_BEGIN {
            lemma_name_end(s, pos + 4);
            match spec_name_end(s, pos + 4) {
                None => {},
                Some(ne) => {
                    let fr = stack.last();
                    lemma_scan_implies_skip(
                        s,
                        strs,
                        ne,
                        lvl + 1,
                        stack.push(SpecFrame { entry: fr.force, force: fr.force }),
                    );
                },
            }
        } else if w == TOKEN_PROP {
            if pos + 12 <= s.len() {
                let vend = pos + 12 + spec_pad4(word_at(s, pos + 4) as int);
                if vend <= s.len() {
                    let top = stack.last();
                    let cell = word_at(s, pos + 12);
                    lemma_scan_implies_skip(s, strs, vend, lvl, stack);
                    lemma_scan_implies_skip(s, strs, vend, lvl, stack.update(
                        stack.len() - 1,
                        SpecFrame { entry: top.entry, force: Cells { address: cell, ..top.force } },
                    ));
                    lemma_scan_implies_skip(s, strs, vend, lvl, stack.update(
                        stack.len() - 1,
                        SpecFrame { entry: top.entry, force: Cells { size: cell, ..top.force } },
                    ));
                    lemma_scan_implies_skip(s, strs, vend, lvl, stack.update(
                        stack.len() - 1,
                        SpecFrame { entry: top.entry, force: Cells { interrupt: cell, ..top.force } },
                    ));
                }
            }
        }
    }
}

/// Scanning with a deeper stack decomposes: the innermost frame's region
/// is scanned on its own, and the scan of the remaining stack picks up at
/// its end. The walker's recursion follows exactly this shape.
#[verifier::rlimit(100)]
#[verifier::spinoff_prover]
pub proof fn lemma_scan_pop(s: Seq<u8>, strs: Seq<u8>, pos: int, lvl: int, stack: Seq<SpecFrame>)
    requires
        stack.len() >= 2,
    ensures
        spec_scan(s, strs, pos, lvl, stack) == (match spec_scan(
            s,
            strs,
            pos,
            lvl,
            seq![stack.last()],
        ) {
            ScanResult::Good { events, end } => spec_compose(
                events,
                spec_scan(s, strs, end, lvl - 1, stack.drop_last()),
            ),
            ScanResult::Bad { err } => ScanResult::Bad { err },
        }),
    decreases s.len() - pos,
{
    reveal(spec_scan);
    if pos < 0 || pos + 4 > s.len() {
    } else {
        let w = word_at(s, pos);
        if w == TOKEN_NODE_END {
            assert(spec_scan(s, strs, pos, lvl, seq![stack.last()]) == ScanResult::Good {
                events: seq![],
                end: pos + 4,
            });
            assert(spec_scan(s, strs, pos, lvl, stack) == spec_scan(
                s,
                strs,
                pos + 4,
                lvl - 1,
                stack.drop_last(),
            ));
            let rest = spec_scan(s, strs, pos + 4, lvl - 1, stack.drop_last());
            assert(spec_compose(seq![], rest) == rest) by {
                match rest {
                    ScanResult::Good { events, end } => {
                        assert(seq![] + events =~= events);
                    },
                    ScanResult::Bad { .. } => {},
                }
            }
        } else if w == TOKEN_NOP {
            lemma_scan_pop(s, strs, pos + 4, lvl, stack);
        } else if w == TOKEN_NODE_BEGIN {
            lemma_name_end(s, pos + 4);
            match spec_name_end(s, pos + 4) {
                None => {},
                Some(ne) => {
                    let name = spec_node_name(s, pos + 4, ne);
                    let head = seq![SpecEvent::Node { at: pos, level: lvl, name }];
                    let fr = stack.last();
                    let child = SpecFrame { entry: fr.force, force: fr.force };
                    assert(stack.push(child).last() == child);
                    assert(stack.push(child).drop_last() =~= stack);
                    assert(seq![stack.last()].push(child).last() == child);
                    assert(seq![stack.last()].push(child).drop_last() =~= seq![stack.last()]);
                    lemma_scan_pop(s, strs, ne, lvl + 1, stack.push(child));
                    lemma_scan_pop(s, strs, ne, lvl + 1, seq![stack.last()].push(child));
                    match spec_scan(s, strs, ne, lvl + 1, seq![child]) {
                        ScanResult::Bad { .. } => {},
                        ScanResult::Good { events: ev1, end: end1 } => {
                            lemma_scan_bounds(s, strs, ne, lvl + 1, seq![child]);
                            lemma_scan_pop(s, strs, end1, lvl, stack);
                            match spec_scan(s, strs, end1, lvl, seq![stack.last()]) {
                                ScanResult::Bad { .. } => {},
                                ScanResult::Good { events: ev2, end: end2 } => {
                                    match spec_scan(s, strs, end2, lvl - 1, stack.drop_last()) {
                                        ScanResult::Bad { .. } => {},
                                        ScanResult::Good { events: ev3, end: end3 } => {
                                            assert(head + (ev1 + (ev2 + ev3)) =~= (head + (ev1
                                                + ev2)) + ev3);
                                        },
                                    }
                                },
                            }
                        },
                    }
                },
            }
        } else if w == TOKEN_PROP {
            if pos + 12 <= s.len() {
                let len = word_at(s, pos + 4);
                let vend = pos + 12 + spec_pad4(len as int);
                if vend <= s.len() {
                    match spec_prop_name(strs, word_at(s, pos + 8) as int) {
                        None => {},
                        Some(pname) => {
                            if pname == spec_name_address_cells() || pname == spec_name_size_cells()
                                || (pname == spec_name_interrupt_cells() && len == 4) {
                                if len == 4 {
                                    let top = stack.last();
                                    assert forall|fr2: SpecFrame| true implies #[trigger] stack.update(
                                        stack.len() - 1,
                                        fr2,
                                    ).last() == fr2 && stack.update(stack.len() - 1, fr2).len()
                                        == stack.len() && stack.update(
                                        stack.len() - 1,
                                        fr2,
                                    ).drop_last() =~= stack.drop_last() && seq![stack.last()].update(
                                        0,
                                        fr2,
                                    ) =~= seq![fr2] by {}
                                    let fr_a = SpecFrame {
                                        entry: top.entry,
                                        force: Cells { address: word_at(s, pos + 12), ..top.force },
                                    };
                                    let fr_s = SpecFrame {
                                        entry: top.entry,
                                        force: Cells { size: word_at(s, pos + 12), ..top.force },
                                    };
                                    let fr_i = SpecFrame {
                                        entry: top.entry,
                                        force: Cells {
                                            interrupt: word_at(s, pos + 12),
                                            ..top.force
                                        },
                                    };
                                    lemma_scan_pop(
                                        s,
                                        strs,
                                        vend,
                                        lvl,
                                        stack.update(stack.len() - 1, fr_a),
                                    );
                                    lemma_scan_pop(
                                        s,
                                        strs,
                                        vend,
                                        lvl,
                                        stack.update(stack.len() - 1, fr_s),
                                    );
                                    lemma_scan_pop(
                                        s,
                                        strs,
                                        vend,
                                        lvl,
                                        stack.update(stack.len() - 1, fr_i),
                                    );
                                }
                            } else {
                                lemma_scan_pop(s, strs, vend, lvl, stack);
                                let value = s.subrange(pos + 12, pos + 12 + len);
                                let head = seq![
                                    SpecEvent::Prop {
                                        at: pos,
                                        level: lvl,
                                        name: pname,
                                        value,
                                        reg_cells: stack.last().entry,
                                    },
                                ];
                                match spec_scan(s, strs, vend, lvl, seq![stack.last()]) {
                                    ScanResult::Bad { .. } => {},
                                    ScanResult::Good { events: ev1, end: end1 } => {
                                        match spec_scan(s, strs, end1, lvl - 1, stack.drop_last()) {
                                            ScanResult::Bad { .. } => {},
                                            ScanResult::Good { events: ev2, end: end2 } => {
                                                assert((head + ev1) + ev2 =~= head + (ev1 + ev2));
                                            },
                                        }
                                    },
                                }
                            }
                        },
                    }
                }
            }
        }
    }
}

} // verus!
