//! The depth-first engine that consumes the token stream.

use crate::context::{spec_default_cells, Cells, Context};
use crate::model::{
    good_end, good_events, is_good, lemma_complete_concat, lemma_complete_empty,
    lemma_complete_grow, lemma_complete_one, lemma_complete_silenced, lemma_compose_assoc,
    lemma_no_stop_concat, lemma_no_stop_empty, lemma_no_stop_push, lemma_out_end_node,
    lemma_out_end_prop, lemma_replies_wf_concat, lemma_replies_wf_empty, lemma_replies_wf_push,
    lemma_replies_wf_widen, lemma_scan_bounds, lemma_scan_event_offsets, lemma_scan_implies_skip,
    lemma_scan_pop, lemma_scan_step, lemma_skip_bounds, lemma_stopped_concat, lemma_stopped_push,
    lemma_stopped_props, lemma_subtree_end, no_stop, replies_complete, replies_wf, spec_compose,
    spec_event_at,
    spec_name_end, spec_node_name, spec_pad4, spec_prop_name, spec_scan, spec_silences, spec_skip,
    stopped_last, ScanResult, SpecDecision, SpecEvent, SpecFrame, SpecReply,
};
use crate::property::{bytes_eq_arr, find_nul, read_cell, Property, Reg, RegCfg};
use crate::str::Str;
use crate::structure_block::{
    word_at, StructureBlock, TOKEN_NODE_BEGIN, TOKEN_NODE_END, TOKEN_NOP, TOKEN_PROP,
};
use crate::{ContextMeta, SkipType, StructureError, WalkOperation};
use vstd::prelude::*;

verus! {

/// The scan stack a single open node contributes.
pub open spec fn frame1(entry: Cells, force: Cells) -> Seq<SpecFrame> {
    seq![SpecFrame { entry, force }]
}

/// Rounds a declared value length up to whole words.
fn pad4(n: u32) -> (r: u64)
    ensures
        r == spec_pad4(n as int),
{
    if n % 4 == 0 {
        n as u64
    } else {
        n as u64 + 4 - (n % 4) as u64
    }
}

/// Finds the end of the word-padded name starting at `start`, per
/// [`spec_name_end`].
fn find_name_end(stru: &[u8], start: usize) -> (r: Option<usize>)
    requires
        start <= stru@.len(),
    ensures
        match r {
            Some(ne) => spec_name_end(stru@, start as int) == Some(ne as int) && start + 4 <= ne
                <= stru@.len() && (ne - start) % 4 == 0,
            None => spec_name_end(stru@, start as int) is None,
        },
{
    let n = stru.len();
    let mut cur = start;
    loop
        invariant
            n == stru@.len(),
            start <= cur <= stru@.len(),
            (cur - start) % 4 == 0,
            spec_name_end(stru@, cur as int) == spec_name_end(stru@, start as int),
        decreases stru@.len() - cur,
    {
        if n - cur < 4 {
            return None;
        }
        let w = StructureBlock::read(stru, cur);
        if w.is_end_of_str() {
            proof {
                assert(stru@[cur + 3] == w.spec_bytes()[3]);
            }
            return Some(cur + 4);
        }
        proof {
            assert(stru@[cur + 3] == w.spec_bytes()[3]);
        }
        cur = cur + 4;
    }
}

/// Resolves a property name offset through the strings section, per
/// [`spec_prop_name`].
fn prop_name<'s>(strings: &'s [u8], nameoff: u32) -> (r: Option<&'s [u8]>)
    ensures
        match r {
            Some(nm) => spec_prop_name(strings@, nameoff as int) == Some(nm@),
            None => spec_prop_name(strings@, nameoff as int) is None,
        },
{
    let off = nameoff as usize;
    if off > strings.len() {
        return None;
    }
    let tail = &strings[off..strings.len()];
    proof {
        assert(tail@ =~= strings@.skip(off as int));
    }
    let rel = find_nul(tail);
    proof {
        crate::property::lemma_find_nul(tail@);
    }
    if off + rel == strings.len() {
        return None;
    }
    let nm = &strings[off..off + rel];
    proof {
        assert(nm@ =~= strings@.subrange(off as int, off as int + rel as int));
    }
    Some(nm)
}

/// Skips one region of the token stream, following [`spec_skip`] from
/// `pos` at depth zero: everything up to and including the closing token
/// of the current body. No visitor is involved and the strings section is
/// never read.
fn skip_body(stru: &[u8], pos: usize) -> (r: Result<usize, StructureError>)
    requires
        pos <= stru@.len(),
    ensures
        match spec_skip(stru@, pos as int, 0) {
            Some(e) => r matches Ok(q) && q == e,
            None => r is Err,
        },
        r matches Ok(q) ==> pos < q <= stru@.len(),
{
    let n = stru.len();
    let mut cur = pos;
    let mut depth: usize = 0;
    loop
        invariant
            n == stru@.len(),
            pos <= cur <= stru@.len(),
            8 * depth <= cur + 8,
            spec_skip(stru@, cur as int, depth as int) == spec_skip(stru@, pos as int, 0),
            depth > 0 ==> cur > pos,
        decreases stru@.len() - cur,
    {
        proof {
            lemma_skip_bounds(stru@, cur as int, depth as int);
        }
        if n - cur < 4 {
            return Err(StructureError::Truncated { offset: cur });
        }
        let w = StructureBlock::read(stru, cur).into_u32();
        if w == TOKEN_NODE_END {
            if depth == 0 {
                return Ok(cur + 4);
            }
            depth = depth - 1;
            cur = cur + 4;
        } else if w == TOKEN_NOP {
            cur = cur + 4;
        } else if w == TOKEN_NODE_BEGIN {
            match find_name_end(stru, cur + 4) {
                Some(ne) => {
                    depth = depth + 1;
                    cur = ne;
                },
                None => {
                    return Err(StructureError::Truncated { offset: cur });
                },
            }
        } else if w == TOKEN_PROP {
            if n - cur < 12 {
                return Err(StructureError::Truncated { offset: cur });
            }
            let len = StructureBlock::read(stru, cur + 4).into_u32();
            let vend: u128 = cur as u128 + 12 + pad4(len) as u128;
            if vend > n as u128 {
                return Err(StructureError::Truncated { offset: cur });
            }
            cur = vend as usize;
        } else {
            return Err(StructureError::UnexpectedToken { offset: cur, token: w });
        }
    }
}


/// What one node-entry token implies for a clean scan: the child's own
/// region scans cleanly and yields the events between the entry event and
/// those of the rest of the body; skipping the child lands at its end,
/// where the body's scan picks up with the same overall end; skipping
/// again from there lands at the body's own end.
#[verifier::rlimit(100)]
#[verifier::spinoff_prover]
proof fn lemma_begin_step(
    s: Seq<u8>,
    strs: Seq<u8>,
    cur: int,
    lvl: int,
    entry: Cells,
    force: Cells,
    ne: int,
)
    requires
        0 <= cur,
        cur + 4 <= s.len(),
        word_at(s, cur) == TOKEN_NODE_BEGIN,
        spec_name_end(s, cur + 4) == Some(ne),
    ensures
        is_good(spec_scan(s, strs, cur, lvl, frame1(entry, force))) ==> ({
            let scan_now = spec_scan(s, strs, cur, lvl, frame1(entry, force));
            let scan_child = spec_scan(s, strs, ne, lvl + 1, frame1(force, force));
            let q1 = good_end(scan_child);
            let scan_cont = spec_scan(s, strs, q1, lvl, frame1(entry, force));
            let nodeev = SpecEvent::Node { at: cur, level: lvl, name: spec_node_name(s, cur + 4, ne) };
            &&& is_good(scan_child)
            &&& ne < q1 <= s.len()
            &&& spec_skip(s, ne, 0) == Some(q1)
            &&& is_good(scan_cont)
            &&& good_end(scan_cont) == good_end(scan_now)
            &&& q1 + 4 <= good_end(scan_now)
            &&& spec_skip(s, q1, 0) == Some(good_end(scan_now))
            &&& good_events(scan_now) == seq![nodeev] + good_events(scan_child) + good_events(
                scan_cont,
            )
            &&& forall|i: int|
                0 <= i < good_events(scan_child).len() ==> ne <= spec_event_at(
                    #[trigger] good_events(scan_child)[i],
                ) && spec_event_at(good_events(scan_child)[i]) + 4 <= q1
            &&& forall|i: int|
                0 <= i < good_events(scan_cont).len() ==> q1 <= spec_event_at(
                    #[trigger] good_events(scan_cont)[i],
                ) && spec_event_at(good_events(scan_cont)[i]) + 4 <= good_end(scan_now)
        }),
{
    reveal(spec_scan);
    let scan_now = spec_scan(s, strs, cur, lvl, frame1(entry, force));
    if is_good(scan_now) {
        let child = SpecFrame { entry: force, force };
        let stack2 = frame1(entry, force).push(child);
        assert(stack2.last() == child);
        assert(stack2.drop_last() =~= frame1(entry, force));
        assert(seq![child] =~= frame1(force, force));
        lemma_scan_pop(s, strs, ne, lvl + 1, stack2);
        lemma_scan_bounds(s, strs, ne, lvl + 1, seq![child]);
        lemma_scan_implies_skip(s, strs, ne, lvl + 1, seq![child]);
        lemma_scan_event_offsets(s, strs, ne, lvl + 1, seq![child]);
        let q1 = good_end(spec_scan(s, strs, ne, lvl + 1, seq![child]));
        lemma_scan_implies_skip(s, strs, q1, lvl, frame1(entry, force));
        lemma_scan_bounds(s, strs, q1, lvl, frame1(entry, force));
        lemma_scan_event_offsets(s, strs, q1, lvl, frame1(entry, force));
        let nodeev = SpecEvent::Node { at: cur, level: lvl, name: spec_node_name(s, cur + 4, ne) };
        let scan_child = spec_scan(s, strs, ne, lvl + 1, frame1(force, force));
        let scan_cont = spec_scan(s, strs, q1, lvl, frame1(entry, force));
        assert(good_events(scan_now) =~= seq![nodeev] + good_events(scan_child) + good_events(
            scan_cont,
        ));
    }
}

/// What handling one property token asks the enclosing walk to do next.
enum PropStep {
    /// Keep scanning the body at this offset.
    Next(usize),
    /// Return from the body: the offset just past what was consumed, and
    /// whether the walk goes on.
    Finish(usize, bool),
}

/// Handles one property token of the body of the node `ctx` stands for:
/// updates the configuration in force, or decodes the value and asks the
/// visitor. `force` is the configuration in force before the token; the
/// updated one is returned beside the step, with the reply record of the
/// visitor call, if one was made, and the scan events the step consumed.
#[verifier::rlimit(100)]
#[verifier::spinoff_prover]
fn walk_prop<'a, M: ContextMeta>(
    stru: &'a [u8],
    strings: &'a [u8],
    cur: usize,
    ctx: &'a Context<'a>,
    force: Cells,
    meta: &mut M,
) -> (r: Result<(PropStep, Cells, Ghost<Seq<SpecReply>>, Ghost<Seq<SpecEvent>>), StructureError>)
    requires
        cur + 4 <= stru@.len(),
        word_at(stru@, cur as int) == TOKEN_PROP,
    ensures
        r is Err ==> !is_good(
            spec_scan(
                stru@,
                strings@,
                cur as int,
                ctx.spec_level(),
                frame1(ctx.spec_cells(), force),
            ),
        ),
        r matches Ok(p) ==> {
            let scan_cur = spec_scan(
                stru@,
                strings@,
                cur as int,
                ctx.spec_level(),
                frame1(ctx.spec_cells(), force),
            );
            let scan_next = |next: int|
                spec_scan(
                    stru@,
                    strings@,
                    next,
                    ctx.spec_level(),
                    frame1(ctx.spec_cells(), p.1),
                );
            match p.0 {
                PropStep::Next(next) => {
                    &&& cur < next <= stru@.len()
                    &&& no_stop(p.2@)
                    &&& replies_wf(stru@, p.2@, cur as int, next as int)
                    &&& (is_good(scan_cur) ==> is_good(scan_next(next as int)) && good_end(
                        scan_next(next as int),
                    ) == good_end(scan_cur) && good_events(scan_cur) == p.3@ + good_events(
                        scan_next(next as int),
                    ) && replies_complete(stru@, p.3@, p.2@))
                },
                PropStep::Finish(end, cont) => {
                    &&& cur <= end <= stru@.len()
                    &&& (cont ==> cur < end)
                    &&& (cont ==> (is_good(scan_cur) ==> end == good_end(scan_cur)))
                    &&& (if cont {
                        no_stop(p.2@) && replies_wf(stru@, p.2@, cur as int, end as int)
                    } else {
                        stopped_last(p.2@) && replies_wf(
                            stru@,
                            p.2@,
                            cur as int,
                            stru@.len() as int,
                        )
                    })
                    &&& (!cont && is_good(scan_cur) ==> replies_wf(
                        stru@,
                        p.2@,
                        cur as int,
                        good_end(scan_cur),
                    ))
                    &&& (is_good(scan_cur) ==> replies_complete(
                        stru@,
                        good_events(scan_cur),
                        p.2@,
                    ))
                },
            }
        },
{
    proof {
        reveal(spec_scan);
    }
    let n = stru.len();
    let ghost lvl = ctx.spec_level();
    let ghost entry = ctx.spec_cells();
    let ghost scan_cur = spec_scan(stru@, strings@, cur as int, lvl, frame1(entry, force));
    let ghost mut delta: Seq<SpecReply> = seq![];
    proof {
        assert(delta =~= Seq::<SpecReply>::empty());
        lemma_no_stop_empty();
    }
    if n - cur < 12 {
        return Err(StructureError::Truncated { offset: cur });
    }
    let len = StructureBlock::read(stru, cur + 4).into_u32();
    let nameoff = StructureBlock::read(stru, cur + 8).into_u32();
    proof {
        assert(word_at(stru@, cur + 4) == len);
        assert(word_at(stru@, cur + 8) == nameoff);
    }
    let vend128: u128 = cur as u128 + 12 + pad4(len) as u128;
    if vend128 > n as u128 {
        return Err(StructureError::Truncated { offset: cur });
    }
    let vend = vend128 as usize;
    let value = &stru[cur + 12..cur + 12 + len as usize];
    proof {
        assert(value@ =~= stru@.subrange(cur + 12, cur + 12 + len as int));
    }
    let pname = match prop_name(strings, nameoff) {
        Some(nm) => nm,
        None => {
            return Err(StructureError::PropertyName { nameoff });
        },
    };
    if bytes_eq_arr(
        pname,
        &[35u8, 97u8, 100u8, 100u8, 114u8, 101u8, 115u8, 115u8, 45u8, 99u8, 101u8, 108u8, 108u8, 115u8],
    ) {
        if len != 4 {
            return Err(StructureError::InvalidCellCount { offset: cur, length: len });
        }
        let cell = read_cell(value);
        proof {
            assert(cell == word_at(stru@, cur + 12)) by {
                assert(value@.subrange(0, 4) =~= stru@.subrange(cur + 12, cur + 16));
            }
            assert(frame1(entry, force).update(
                0,
                SpecFrame { entry, force: Cells { address: word_at(stru@, cur + 12), ..force } },
            ) =~= frame1(entry, Cells { address: word_at(stru@, cur + 12), ..force }));
            assert(scan_cur == spec_scan(
                stru@,
                strings@,
                vend as int,
                lvl,
                frame1(entry, Cells { address: word_at(stru@, cur + 12), ..force }),
            ));
            lemma_replies_wf_empty(stru@, cur as int, vend as int);
            lemma_complete_empty(stru@, delta);
            assert(Seq::<SpecEvent>::empty() + good_events(scan_cur) =~= good_events(scan_cur));
        }
        return Ok(
            (
                PropStep::Next(vend),
                Cells { address: cell, ..force },
                Ghost(delta),
                Ghost(Seq::empty()),
            ),
        );
    }
    if bytes_eq_arr(
        pname,
        &[35u8, 115u8, 105u8, 122u8, 101u8, 45u8, 99u8, 101u8, 108u8, 108u8, 115u8],
    ) {
        if len != 4 {
            return Err(StructureError::InvalidCellCount { offset: cur, length: len });
        }
        let cell = read_cell(value);
        proof {
            assert(cell == word_at(stru@, cur + 12)) by {
                assert(value@.subrange(0, 4) =~= stru@.subrange(cur + 12, cur + 16));
            }
            assert(frame1(entry, force).update(
                0,
                SpecFrame { entry, force: Cells { size: word_at(stru@, cur + 12), ..force } },
            ) =~= frame1(entry, Cells { size: word_at(stru@, cur + 12), ..force }));
            assert(scan_cur == spec_scan(
                stru@,
                strings@,
                vend as int,
                lvl,
                frame1(entry, Cells { size: word_at(stru@, cur + 12), ..force }),
            ));
            lemma_replies_wf_empty(stru@, cur as int, vend as int);
            lemma_complete_empty(stru@, delta);
            assert(Seq::<SpecEvent>::empty() + good_events(scan_cur) =~= good_events(scan_cur));
        }
        return Ok(
            (
                PropStep::Next(vend),
                Cells { size: cell, ..force },
                Ghost(delta),
                Ghost(Seq::empty()),
            ),
        );
    }
    if bytes_eq_arr(
        pname,
        &[35u8, 105u8, 110u8, 116u8, 101u8, 114u8, 114u8, 117u8, 112u8, 116u8, 45u8, 99u8, 101u8, 108u8, 108u8, 115u8],
    ) && len == 4 {
        let cell = read_cell(value);
        proof {
            assert(cell == word_at(stru@, cur + 12)) by {
                assert(value@.subrange(0, 4) =~= stru@.subrange(cur + 12, cur + 16));
            }
            assert(frame1(entry, force).update(
                0,
                SpecFrame { entry, force: Cells { interrupt: word_at(stru@, cur + 12), ..force } },
            ) =~= frame1(entry, Cells { interrupt: word_at(stru@, cur + 12), ..force }));
            assert(scan_cur == spec_scan(
                stru@,
                strings@,
                vend as int,
                lvl,
                frame1(entry, Cells { interrupt: word_at(stru@, cur + 12), ..force }),
            ));
            lemma_replies_wf_empty(stru@, cur as int, vend as int);
            lemma_complete_empty(stru@, delta);
            assert(Seq::<SpecEvent>::empty() + good_events(scan_cur) =~= good_events(scan_cur));
        }
        return Ok(
            (
                PropStep::Next(vend),
                Cells { interrupt: cell, ..force },
                Ghost(delta),
                Ghost(Seq::empty()),
            ),
        );
    }
    let ghost ev = SpecEvent::Prop {
        at: cur as int,
        level: lvl,
        name: pname@,
        value: value@,
        reg_cells: entry,
    };
    let ghost scan_rest = spec_scan(stru@, strings@, vend as int, lvl, frame1(entry, force));
    proof {
        assert(scan_cur == spec_compose(seq![ev], scan_rest));
        if is_good(scan_cur) {
            lemma_scan_event_offsets(stru@, strings@, vend as int, lvl, frame1(entry, force));
            lemma_scan_bounds(stru@, strings@, vend as int, lvl, frame1(entry, force));
        }
    }
    let c = ctx.cells();
    let prop = if bytes_eq_arr(pname, &[114u8, 101u8, 103u8]) {
        match Reg::new(value, RegCfg { address_cells: c.address, size_cells: c.size }) {
            Some(rg) => Property::Reg(rg),
            None => Property::new(pname, value),
        }
    } else {
        Property::new(pname, value)
    };
    match meta.visit_prop(ctx, prop) {
        SkipType::StepOver => {
            let ghost mine = SpecReply { at: cur as int, event: ev, reply: SpecDecision::Over };
            proof {
                lemma_no_stop_push(delta, mine);
                lemma_replies_wf_empty(stru@, cur as int, cur as int);
                lemma_replies_wf_push(stru@, delta, cur as int, cur as int, mine, vend as int);
                delta = delta.push(mine);
                if is_good(scan_cur) {
                    lemma_complete_one(stru@, ev, delta, 0);
                    assert(good_events(scan_cur) =~= seq![ev] + good_events(scan_rest));
                }
            }
            let ghost consumed: Seq<SpecEvent> = seq![ev];
            Ok((PropStep::Next(vend), force, Ghost(delta), Ghost(consumed)))
        },
        SkipType::StepOut => {
            proof {
                if is_good(scan_cur) {
                    lemma_scan_implies_skip(stru@, strings@, vend as int, lvl, frame1(entry, force));
                }
            }
            let q = match skip_body(stru, vend) {
                Ok(q) => q,
                Err(e) => {
                    return Err(e);
                },
            };
            let ghost mine = SpecReply { at: cur as int, event: ev, reply: SpecDecision::Out };
            proof {
                if is_good(scan_cur) {
                    assert(q == good_end(scan_cur));
                }
                lemma_out_end_prop(stru@, mine, q as int);
                lemma_no_stop_push(delta, mine);
                lemma_replies_wf_empty(stru@, cur as int, cur as int);
                lemma_replies_wf_push(stru@, delta, cur as int, cur as int, mine, q as int);
                delta = delta.push(mine);
                if is_good(scan_cur) {
                    lemma_complete_one(stru@, ev, delta, 0);
                    lemma_complete_silenced(stru@, good_events(scan_rest), delta, 0);
                    lemma_complete_concat(stru@, seq![ev], good_events(scan_rest), delta);
                    assert(good_events(scan_cur) =~= seq![ev] + good_events(scan_rest));
                }
            }
            Ok((PropStep::Finish(q, true), force, Ghost(delta), Ghost(good_events(scan_cur))))
        },
        SkipType::Terminate => {
            let ghost mine = SpecReply { at: cur as int, event: ev, reply: SpecDecision::Stop };
            proof {
                lemma_stopped_push(delta, mine);
                lemma_replies_wf_empty(stru@, cur as int, cur as int);
                lemma_replies_wf_push(
                    stru@,
                    delta,
                    cur as int,
                    cur as int,
                    mine,
                    stru@.len() as int,
                );
                delta = delta.push(mine);
                if is_good(scan_cur) {
                    lemma_replies_wf_empty(stru@, cur as int, cur as int);
                    lemma_replies_wf_push(
                        stru@,
                        Seq::<SpecReply>::empty(),
                        cur as int,
                        cur as int,
                        mine,
                        good_end(scan_cur),
                    );
                    assert(Seq::<SpecReply>::empty().push(mine) =~= delta);
                    lemma_complete_one(stru@, ev, delta, 0);
                    lemma_complete_silenced(stru@, good_events(scan_rest), delta, 0);
                    lemma_complete_concat(stru@, seq![ev], good_events(scan_rest), delta);
                    assert(good_events(scan_cur) =~= seq![ev] + good_events(scan_rest));
                }
            }
            Ok((PropStep::Finish(cur, false), force, Ghost(delta), Ghost(good_events(scan_cur))))
        },
    }
}

/// Walks the body of one open node, whose frame is `ctx`, starting at
/// `pos`: its properties, its children as the visitor directs, and its
/// closing token.
///
/// Returns the offset just past the consumed region, whether the walk
/// goes on (`false` after the visitor terminated it), and the ghost
/// record of the visitor's replies in the order the hooks were asked. On
/// a region the scan model accepts, the walk cannot fail, whatever the
/// visitor does, and ends exactly where the model says; the record then
/// accounts for every event the model yields — each one was handed to a
/// hook as it stands, or lies in a region a reply declined, stepped out
/// of, or terminated before. A terminating reply is always the record's
/// last: cancellation is immediate, and no hook is asked after it.
#[verifier::rlimit(100)]
#[verifier::spinoff_prover]
fn walk_inner<'a, M: ContextMeta>(
    stru: &'a [u8],
    strings: &'a [u8],
    pos: usize,
    ctx: &'a Context<'a>,
    meta: &mut M,
) -> (r: Result<(usize, bool, Ghost<Seq<SpecReply>>), StructureError>)
    requires
        pos <= stru@.len(),
        8 * ctx.spec_level() <= pos as int,
    ensures
        r matches Ok(p) ==> pos <= p.0 <= stru@.len(),
        r matches Ok(p) ==> (if p.1 {
            no_stop(p.2@) && replies_wf(stru@, p.2@, pos as int, p.0 as int)
        } else {
            stopped_last(p.2@) && replies_wf(stru@, p.2@, pos as int, stru@.len() as int)
        }),
        is_good(
            spec_scan(
                stru@,
                strings@,
                pos as int,
                ctx.spec_level(),
                frame1(ctx.spec_cells(), ctx.spec_cells()),
            ),
        ) ==> ({
            let scan = spec_scan(
                stru@,
                strings@,
                pos as int,
                ctx.spec_level(),
                frame1(ctx.spec_cells(), ctx.spec_cells()),
            );
            &&& r matches Ok(p)
            &&& (r matches Ok(p) ==> {
                &&& (p.1 ==> p.0 == good_end(scan))
                &&& replies_complete(stru@, good_events(scan), p.2@)
                &&& (!p.1 ==> replies_wf(stru@, p.2@, pos as int, good_end(scan)))
            })
        }),
    decreases stru@.len() - pos,
{
    let n = stru.len();
    let ghost lvl = ctx.spec_level();
    let ghost entry = ctx.spec_cells();
    let ghost scan0 = spec_scan(stru@, strings@, pos as int, lvl, frame1(entry, entry));
    let mut cur = pos;
    let mut force = ctx.cells();
    let ghost mut replies: Seq<SpecReply> = seq![];
    let ghost mut processed: Seq<SpecEvent> = seq![];
    proof {
        lemma_replies_wf_empty(stru@, pos as int, pos as int);
        lemma_no_stop_empty();
        lemma_complete_empty(stru@, replies);
        if is_good(scan0) {
            assert(good_events(scan0) =~= processed + good_events(scan0));
        }
    }
    loop
        invariant
            no_stop(replies),
            replies_wf(stru@, replies, pos as int, cur as int),
            n == stru@.len(),
            pos <= cur <= stru@.len(),
            8 * ctx.spec_level() <= cur as int,
            lvl == ctx.spec_level(),
            entry == ctx.spec_cells(),
            scan0 == spec_scan(stru@, strings@, pos as int, lvl, frame1(entry, entry)),
            is_good(scan0) ==> is_good(
                spec_scan(stru@, strings@, cur as int, lvl, frame1(entry, force)),
            ) && good_end(spec_scan(stru@, strings@, cur as int, lvl, frame1(entry, force)))
                == good_end(scan0),
            is_good(scan0) ==> good_events(scan0) == processed + good_events(
                spec_scan(stru@, strings@, cur as int, lvl, frame1(entry, force)),
            ),
            is_good(scan0) ==> replies_complete(stru@, processed, replies),
        decreases stru@.len() - cur,
    {
        let ghost scan_now = spec_scan(stru@, strings@, cur as int, lvl, frame1(entry, force));
        proof {
            lemma_scan_step(stru@, strings@, cur as int, lvl, frame1(entry, force));
        }
        if n - cur < 4 {
            return Err(StructureError::Truncated { offset: cur });
        }
        let w = StructureBlock::read(stru, cur).into_u32();
        proof {
            assert(word_at(stru@, cur as int) == w);
        }
        if w == TOKEN_NODE_END {
            proof {
                lemma_replies_wf_widen(stru@, replies, pos as int, cur as int, pos as int, cur + 4);
                if is_good(scan0) {
                    assert(good_events(scan0) =~= processed);
                }
            }
            return Ok((cur + 4, true, Ghost(replies)));
        } else if w == TOKEN_NOP {
            proof {
                lemma_replies_wf_widen(stru@, replies, pos as int, cur as int, pos as int, cur + 4);
            }
            cur = cur + 4;
        } else if w == TOKEN_NODE_BEGIN {
            let ne = match find_name_end(stru, cur + 4) {
                Some(ne) => ne,
                None => {
                    return Err(StructureError::Truncated { offset: cur });
                },
            };
            let last_w = StructureBlock::read(stru, ne - 4);
            let tz = last_w.str_tail_zero();
            proof {
                assert(last_w.spec_bytes() == stru@.subrange(ne - 4, ne as int));
                assert(1 <= tz <= 4);
            }
            let name = Str(&stru[cur + 4..ne - tz]);
            let ghost nodeev = SpecEvent::Node { at: cur as int, level: lvl, name: name@ };
            let ghost scan_child = spec_scan(
                stru@,
                strings@,
                ne as int,
                lvl + 1,
                frame1(force, force),
            );
            let ghost q1 = good_end(scan_child);
            let ghost scan_cont = spec_scan(stru@, strings@, q1, lvl, frame1(entry, force));
            proof {
                assert(name@ =~= spec_node_name(stru@, cur + 4, ne as int));
                lemma_begin_step(stru@, strings@, cur as int, lvl, entry, force, ne as int);
            }
            match meta.visit_node(ctx, name) {
                WalkOperation::Access(mut child_meta) => {
                    proof {
                        assert(8 * (ctx.spec_level() + 1) <= ne as int);
                    }
                    let child_ctx = ctx.grow(name, force);
                    let rr = walk_inner(stru, strings, ne, &child_ctx, &mut child_meta);
                    match rr {
                        Ok((ce, cont, child_replies)) => {
                            meta.merge(child_meta);
                            let ghost mine = SpecReply {
                                at: cur as int,
                                event: nodeev,
                                reply: SpecDecision::Enter,
                            };
                            proof {
                                lemma_no_stop_push(replies, mine);
                                lemma_replies_wf_push(
                                    stru@,
                                    replies,
                                    pos as int,
                                    cur as int,
                                    mine,
                                    ne as int,
                                );
                                if cont {
                                    lemma_no_stop_concat(replies.push(mine), child_replies@);
                                    lemma_replies_wf_concat(
                                        stru@,
                                        replies.push(mine),
                                        child_replies@,
                                        pos as int,
                                        ne as int,
                                        ce as int,
                                    );
                                } else {
                                    lemma_stopped_concat(replies.push(mine), child_replies@);
                                    lemma_replies_wf_concat(
                                        stru@,
                                        replies.push(mine),
                                        child_replies@,
                                        pos as int,
                                        ne as int,
                                        stru@.len() as int,
                                    );
                                }
                                if is_good(scan0) {
                                    if cont {
                                        assert(ce == q1);
                                    }
                                    let combined = replies.push(mine) + child_replies@;
                                    lemma_complete_grow(
                                        stru@,
                                        processed,
                                        Seq::<SpecReply>::empty(),
                                        replies,
                                        seq![mine] + child_replies@,
                                    );
                                    assert(Seq::<SpecReply>::empty() + replies + (seq![mine]
                                        + child_replies@) =~= combined);
                                    assert(combined[replies.len() as int] == mine);
                                    lemma_complete_one(stru@, nodeev, combined, replies.len() as int);
                                    lemma_complete_grow(
                                        stru@,
                                        good_events(scan_child),
                                        replies.push(mine),
                                        child_replies@,
                                        Seq::<SpecReply>::empty(),
                                    );
                                    assert(replies.push(mine) + child_replies@
                                        + Seq::<SpecReply>::empty() =~= combined);
                                    lemma_complete_concat(
                                        stru@,
                                        seq![nodeev],
                                        good_events(scan_child),
                                        combined,
                                    );
                                    lemma_complete_concat(
                                        stru@,
                                        processed,
                                        seq![nodeev] + good_events(scan_child),
                                        combined,
                                    );
                                    if cont {
                                        processed = processed + (seq![nodeev] + good_events(
                                            scan_child,
                                        ));
                                        assert(good_events(scan0) =~= processed + good_events(
                                            scan_cont,
                                        ));
                                    } else {
                                        lemma_stopped_props(child_replies@);
                                        let k = replies.len() + 1 + child_replies@.len() - 1;
                                        assert(combined[k] == child_replies@.last());
                                        assert(child_replies@.last().at < q1) by {
                                            reveal(replies_wf);
                                        }
                                        assert forall|i: int|
                                            0 <= i < good_events(scan_cont).len() implies spec_silences(
                                            stru@,
                                            combined[k],
                                            spec_event_at(#[trigger] good_events(scan_cont)[i]),
                                        ) by {}
                                        lemma_complete_silenced(
                                            stru@,
                                            good_events(scan_cont),
                                            combined,
                                            k,
                                        );
                                        lemma_complete_concat(
                                            stru@,
                                            processed + (seq![nodeev] + good_events(scan_child)),
                                            good_events(scan_cont),
                                            combined,
                                        );
                                        assert(good_events(scan0) =~= processed + (seq![nodeev]
                                            + good_events(scan_child)) + good_events(scan_cont));
                                        lemma_replies_wf_widen(
                                            stru@,
                                            child_replies@,
                                            ne as int,
                                            q1,
                                            ne as int,
                                            good_end(scan0),
                                        );
                                        lemma_replies_wf_concat(
                                            stru@,
                                            replies.push(mine),
                                            child_replies@,
                                            pos as int,
                                            ne as int,
                                            good_end(scan0),
                                        );
                                    }
                                }
                                replies = replies.push(mine) + child_replies@;
                            }
                            if !cont {
                                return Ok((ce, false, Ghost(replies)));
                            }
                            cur = ce;
                        },
                        Err(e) => {
                            return Err(e);
                        },
                    }
                },
                WalkOperation::Skip(SkipType::StepOver) => {
                    match skip_body(stru, ne) {
                        Ok(q) => {
                            let ghost mine = SpecReply {
                                at: cur as int,
                                event: nodeev,
                                reply: SpecDecision::Over,
                            };
                            proof {
                                lemma_subtree_end(stru@, cur as int, ne as int, q as int);
                                lemma_no_stop_push(replies, mine);
                                lemma_replies_wf_push(
                                    stru@,
                                    replies,
                                    pos as int,
                                    cur as int,
                                    mine,
                                    q as int,
                                );
                                if is_good(scan0) {
                                    assert(q == q1);
                                    lemma_complete_grow(
                                        stru@,
                                        processed,
                                        Seq::<SpecReply>::empty(),
                                        replies,
                                        seq![mine],
                                    );
                                    assert(Seq::<SpecReply>::empty() + replies + seq![mine]
                                        =~= replies.push(mine));
                                    assert(replies.push(mine)[replies.len() as int] == mine);
                                    lemma_complete_one(
                                        stru@,
                                        nodeev,
                                        replies.push(mine),
                                        replies.len() as int,
                                    );
                                    assert forall|i: int|
                                        0 <= i < good_events(scan_child).len() implies spec_silences(
                                        stru@,
                                        mine,
                                        spec_event_at(#[trigger] good_events(scan_child)[i]),
                                    ) by {}
                                    lemma_complete_silenced(
                                        stru@,
                                        good_events(scan_child),
                                        replies.push(mine),
                                        replies.len() as int,
                                    );
                                    lemma_complete_concat(
                                        stru@,
                                        seq![nodeev],
                                        good_events(scan_child),
                                        replies.push(mine),
                                    );
                                    lemma_complete_concat(
                                        stru@,
                                        processed,
                                        seq![nodeev] + good_events(scan_child),
                                        replies.push(mine),
                                    );
                                    processed = processed + (seq![nodeev] + good_events(
                                        scan_child,
                                    ));
                                    assert(good_events(scan0) =~= processed + good_events(
                                        scan_cont,
                                    ));
                                }
                                replies = replies.push(mine);
                            }
                            cur = q;
                        },
                        Err(e) => {
                            return Err(e);
                        },
                    }
                },
                WalkOperation::Skip(SkipType::StepOut) => {
                    let q1e = match skip_body(stru, ne) {
                        Ok(q) => q,
                        Err(e) => {
                            return Err(e);
                        },
                    };
                    proof {
                        if is_good(scan0) {
                            assert(q1e == q1);
                        }
                    }
                    let q2 = match skip_body(stru, q1e) {
                        Ok(q) => q,
                        Err(e) => {
                            return Err(e);
                        },
                    };
                    let ghost mine = SpecReply {
                        at: cur as int,
                        event: nodeev,
                        reply: SpecDecision::Out,
                    };
                    proof {
                        lemma_subtree_end(stru@, cur as int, ne as int, q1e as int);
                        lemma_out_end_node(stru@, mine, q1e as int, q2 as int);
                        lemma_no_stop_push(replies, mine);
                        lemma_replies_wf_push(
                            stru@,
                            replies,
                            pos as int,
                            cur as int,
                            mine,
                            q2 as int,
                        );
                        if is_good(scan0) {
                            assert(q2 == good_end(scan0));
                            lemma_complete_grow(
                                stru@,
                                processed,
                                Seq::<SpecReply>::empty(),
                                replies,
                                seq![mine],
                            );
                            assert(Seq::<SpecReply>::empty() + replies + seq![mine]
                                =~= replies.push(mine));
                            assert(replies.push(mine)[replies.len() as int] == mine);
                            lemma_complete_one(
                                stru@,
                                nodeev,
                                replies.push(mine),
                                replies.len() as int,
                            );
                            assert forall|i: int|
                                0 <= i < (good_events(scan_child) + good_events(
                                    scan_cont,
                                )).len() implies spec_silences(
                                stru@,
                                mine,
                                spec_event_at(
                                    #[trigger] (good_events(scan_child) + good_events(
                                        scan_cont,
                                    ))[i],
                                ),
                            ) by {
                                let both = good_events(scan_child) + good_events(scan_cont);
                                if i < good_events(scan_child).len() {
                                    assert(both[i] == good_events(scan_child)[i]);
                                } else {
                                    assert(both[i] == good_events(scan_cont)[i - good_events(
                                        scan_child,
                                    ).len()]);
                                }
                            }
                            lemma_complete_silenced(
                                stru@,
                                good_events(scan_child) + good_events(scan_cont),
                                replies.push(mine),
                                replies.len() as int,
                            );
                            lemma_complete_concat(
                                stru@,
                                seq![nodeev],
                                good_events(scan_child) + good_events(scan_cont),
                                replies.push(mine),
                            );
                            lemma_complete_concat(
                                stru@,
                                processed,
                                seq![nodeev] + (good_events(scan_child) + good_events(scan_cont)),
                                replies.push(mine),
                            );
                            assert(good_events(scan0) =~= processed + (seq![nodeev] + (good_events(
                                scan_child,
                            ) + good_events(scan_cont))));
                        }
                        replies = replies.push(mine);
                    }
                    return Ok((q2, true, Ghost(replies)));
                },
                WalkOperation::Skip(SkipType::Terminate) => {
                    let ghost mine = SpecReply {
                        at: cur as int,
                        event: nodeev,
                        reply: SpecDecision::Stop,
                    };
                    proof {
                        lemma_stopped_push(replies, mine);
                        lemma_replies_wf_push(
                            stru@,
                            replies,
                            pos as int,
                            cur as int,
                            mine,
                            stru@.len() as int,
                        );
                        if is_good(scan0) {
                            lemma_replies_wf_push(
                                stru@,
                                replies,
                                pos as int,
                                cur as int,
                                mine,
                                good_end(scan0),
                            );
                            lemma_complete_grow(
                                stru@,
                                processed,
                                Seq::<SpecReply>::empty(),
                                replies,
                                seq![mine],
                            );
                            assert(Seq::<SpecReply>::empty() + replies + seq![mine]
                                =~= replies.push(mine));
                            assert(replies.push(mine)[replies.len() as int] == mine);
                            lemma_complete_one(
                                stru@,
                                nodeev,
                                replies.push(mine),
                                replies.len() as int,
                            );
                            assert forall|i: int|
                                0 <= i < (good_events(scan_child) + good_events(
                                    scan_cont,
                                )).len() implies spec_silences(
                                stru@,
                                mine,
                                spec_event_at(
                                    #[trigger] (good_events(scan_child) + good_events(
                                        scan_cont,
                                    ))[i],
                                ),
                            ) by {
                                let both = good_events(scan_child) + good_events(scan_cont);
                                if i < good_events(scan_child).len() {
                                    assert(both[i] == good_events(scan_child)[i]);
                                } else {
                                    assert(both[i] == good_events(scan_cont)[i - good_events(
                                        scan_child,
                                    ).len()]);
                                }
                            }
                            lemma_complete_silenced(
                                stru@,
                                good_events(scan_child) + good_events(scan_cont),
                                replies.push(mine),
                                replies.len() as int,
                            );
                            lemma_complete_concat(
                                stru@,
                                seq![nodeev],
                                good_events(scan_child) + good_events(scan_cont),
                                replies.push(mine),
                            );
                            lemma_complete_concat(
                                stru@,
                                processed,
                                seq![nodeev] + (good_events(scan_child) + good_events(scan_cont)),
                                replies.push(mine),
                            );
                            assert(good_events(scan0) =~= processed + (seq![nodeev] + (good_events(
                                scan_child,
                            ) + good_events(scan_cont))));
                        }
                        replies = replies.push(mine);
                    }
                    return Ok((cur, false, Ghost(replies)));
                },
            }
        } else if w == TOKEN_PROP {
            match walk_prop(stru, strings, cur, ctx, force, meta) {
                Ok((PropStep::Next(next), f2, delta, devents)) => {
                    proof {
                        lemma_no_stop_concat(replies, delta@);
                        lemma_replies_wf_concat(
                            stru@,
                            replies,
                            delta@,
                            pos as int,
                            cur as int,
                            next as int,
                        );
                        if is_good(scan0) {
                            lemma_complete_grow(
                                stru@,
                                processed,
                                Seq::<SpecReply>::empty(),
                                replies,
                                delta@,
                            );
                            assert(Seq::<SpecReply>::empty() + replies + delta@ =~= replies
                                + delta@);
                            lemma_complete_grow(
                                stru@,
                                devents@,
                                replies,
                                delta@,
                                Seq::<SpecReply>::empty(),
                            );
                            assert(replies + delta@ + Seq::<SpecReply>::empty() =~= replies
                                + delta@);
                            lemma_complete_concat(stru@, processed, devents@, replies + delta@);
                            processed = processed + devents@;
                            assert(good_events(scan0) =~= processed + good_events(
                                spec_scan(stru@, strings@, next as int, lvl, frame1(entry, f2)),
                            ));
                        }
                        replies = replies + delta@;
                    }
                    force = f2;
                    cur = next;
                },
                Ok((PropStep::Finish(end, cont), _, delta, _)) => {
                    proof {
                        if cont {
                            lemma_no_stop_concat(replies, delta@);
                            lemma_replies_wf_concat(
                                stru@,
                                replies,
                                delta@,
                                pos as int,
                                cur as int,
                                end as int,
                            );
                        } else {
                            lemma_stopped_concat(replies, delta@);
                            lemma_replies_wf_concat(
                                stru@,
                                replies,
                                delta@,
                                pos as int,
                                cur as int,
                                stru@.len() as int,
                            );
                        }
                        if is_good(scan0) {
                            lemma_complete_grow(
                                stru@,
                                processed,
                                Seq::<SpecReply>::empty(),
                                replies,
                                delta@,
                            );
                            assert(Seq::<SpecReply>::empty() + replies + delta@ =~= replies
                                + delta@);
                            lemma_complete_grow(
                                stru@,
                                good_events(scan_now),
                                replies,
                                delta@,
                                Seq::<SpecReply>::empty(),
                            );
                            assert(replies + delta@ + Seq::<SpecReply>::empty() =~= replies
                                + delta@);
                            lemma_complete_concat(
                                stru@,
                                processed,
                                good_events(scan_now),
                                replies + delta@,
                            );
                            if !cont {
                                lemma_scan_bounds(
                                    stru@,
                                    strings@,
                                    cur as int,
                                    lvl,
                                    frame1(entry, force),
                                );
                                lemma_replies_wf_concat(
                                    stru@,
                                    replies,
                                    delta@,
                                    pos as int,
                                    cur as int,
                                    good_end(scan0),
                                );
                            }
                        }
                        replies = replies + delta@;
                    }
                    return Ok((end, cont, Ghost(replies)));
                },
                Err(e) => {
                    return Err(e);
                },
            }
        } else {
            return Err(StructureError::UnexpectedToken { offset: cur, token: w });
        }
    }
}



/// One traversal event as owned data; views as a [`SpecEvent`].
#[derive(Clone, Debug, PartialEq, Eq)]
pub enum Event {
    /// A node entry, reported with the parent's level.
    Node {
        /// Byte offset of the node's opening token within the structure
        /// section.
        offset: usize,
        /// Nesting depth of the parent node.
        level: usize,
        /// The node's name.
        name: Vec<u8>,
    },
    /// A property, reported with its node's level.
    Prop {
        /// Byte offset of the property token within the structure section.
        offset: usize,
        /// Nesting depth of the owning node.
        level: usize,
        /// The property's name.
        name: Vec<u8>,
        /// The raw value bytes.
        value: Vec<u8>,
        /// The configuration the owning node's `reg` is decoded with.
        reg_cells: Cells,
    },
}

impl View for Event {
    type V = SpecEvent;

    open spec fn view(&self) -> SpecEvent {
        match self {
            Event::Node { offset, level, name } => SpecEvent::Node {
                at: *offset as int,
                level: *level as int,
                name: name@,
            },
            Event::Prop { offset, level, name, value, reg_cells } => SpecEvent::Prop {
                at: *offset as int,
                level: *level as int,
                name: name@,
                value: value@,
                reg_cells: *reg_cells,
            },
        }
    }
}

/// The scan stack an open-node stack of entry and in-force cells denotes.
pub open spec fn stack_model(v: Seq<(Cells, Cells)>) -> Seq<SpecFrame> {
    v.map_values(|p: (Cells, Cells)| SpecFrame { entry: p.0, force: p.1 })
}

/// The views of collected events.
pub open spec fn events_model(v: Seq<Event>) -> Seq<SpecEvent> {
    v.map_values(|e: Event| e@)
}

/// Collects every traversal event of a blob's sections, in document
/// order; see [`crate::Dtb::events`].
#[verifier::rlimit(100)]
#[verifier::spinoff_prover]
pub(crate) fn collect_events(stru: &[u8], strings: &[u8]) -> (r: Result<Vec<Event>, StructureError>)
    requires
        8 <= stru@.len(),
    ensures
        ({
            let scan = spec_scan(
                stru@,
                strings@,
                8,
                0,
                frame1(spec_default_cells(), spec_default_cells()),
            );
            match scan {
                ScanResult::Good { events, .. } => r matches Ok(v) && events_model(v@) == events,
                ScanResult::Bad { err } => r == Err::<Vec<Event>, _>(err),
            }
        }),
{
    proof {
        reveal(spec_scan);
    }
    let n = stru.len();
    let ghost scan0 = spec_scan(
        stru@,
        strings@,
        8,
        0,
        frame1(spec_default_cells(), spec_default_cells()),
    );
    let mut events: Vec<Event> = Vec::new();
    let mut stack: Vec<(Cells, Cells)> = Vec::new();
    let dc = Cells { address: 2, size: 1, interrupt: 1 };
    stack.push((dc, dc));
    let mut cur: usize = 8;
    proof {
        assert(stack_model(stack@) =~= frame1(spec_default_cells(), spec_default_cells()));
        assert(events_model(events@) =~= Seq::<SpecEvent>::empty());
        assert(spec_compose(
            events_model(events@),
            spec_scan(stru@, strings@, cur as int, stack@.len() - 1, stack_model(stack@)),
        ) == scan0) by {
            match scan0 {
                ScanResult::Good { events: e, .. } => {
                    assert(Seq::<SpecEvent>::empty() + e =~= e);
                },
                ScanResult::Bad { .. } => {},
            }
        }
    }
    loop
        invariant
            n == stru@.len(),
            8 <= cur <= stru@.len(),
            stack@.len() >= 1,
            8 * (stack@.len() - 1) <= cur + 8,
            scan0 == spec_scan(
                stru@,
                strings@,
                8,
                0,
                frame1(spec_default_cells(), spec_default_cells()),
            ),
            spec_compose(
                events_model(events@),
                spec_scan(stru@, strings@, cur as int, stack@.len() - 1, stack_model(stack@)),
            ) == scan0,
        decreases stru@.len() - cur,
    {
        proof {
            reveal(spec_scan);
        }
        let ghost lvl = stack@.len() - 1;
        let ghost smodel = stack_model(stack@);
        let ghost scan_now = spec_scan(stru@, strings@, cur as int, lvl, smodel);
        if n - cur < 4 {
            return Err(StructureError::Truncated { offset: cur });
        }
        let w = StructureBlock::read(stru, cur).into_u32();
        proof {
            assert(word_at(stru@, cur as int) == w);
        }
        if w == TOKEN_NODE_END {
            if stack.len() == 1 {
                proof {
                    assert(scan_now == ScanResult::Good { events: seq![], end: cur + 4 });
                    assert(events_model(events@) + seq![] =~= events_model(events@));
                }
                return Ok(events);
            }
            let _ = stack.pop();
            proof {
                assert(stack_model(stack@) =~= smodel.drop_last());
            }
            cur = cur + 4;
        } else if w == TOKEN_NOP {
            cur = cur + 4;
        } else if w == TOKEN_NODE_BEGIN {
            let ne = match find_name_end(stru, cur + 4) {
                Some(ne) => ne,
                None => {
                    return Err(StructureError::Truncated { offset: cur });
                },
            };
            let last_w = StructureBlock::read(stru, ne - 4);
            let tz = last_w.str_tail_zero();
            proof {
                assert(last_w.spec_bytes() == stru@.subrange(ne - 4, ne as int));
                assert(1 <= tz <= 4);
            }
            let name = vstd::slice::slice_to_vec(&stru[cur + 4..ne - tz]);
            proof {
                assert(name@ =~= spec_node_name(stru@, cur + 4, ne as int));
            }
            let top = stack[stack.len() - 1];
            let level = stack.len() - 1;
            let ghost ev = SpecEvent::Node { at: cur as int, level: lvl, name: name@ };
            let ghost old_events = events@;
            events.push(Event::Node { offset: cur, level, name });
            stack.push((top.1, top.1));
            proof {
                assert(smodel.last() == SpecFrame { entry: top.0, force: top.1 });
                assert(stack_model(stack@) =~= smodel.push(
                    SpecFrame { entry: top.1, force: top.1 },
                ));
                assert(events_model(events@) =~= events_model(old_events) + seq![ev]);
                assert(scan_now == spec_compose(
                    seq![ev],
                    spec_scan(stru@, strings@, ne as int, lvl + 1, stack_model(stack@)),
                ));
                lemma_compose_assoc(
                    events_model(old_events),
                    seq![ev],
                    spec_scan(stru@, strings@, ne as int, lvl + 1, stack_model(stack@)),
                );
            }
            cur = ne;
        } else if w == TOKEN_PROP {
            if n - cur < 12 {
                return Err(StructureError::Truncated { offset: cur });
            }
            let len = StructureBlock::read(stru, cur + 4).into_u32();
            let nameoff = StructureBlock::read(stru, cur + 8).into_u32();
            proof {
                assert(word_at(stru@, cur + 4) == len);
                assert(word_at(stru@, cur + 8) == nameoff);
            }
            let vend128: u128 = cur as u128 + 12 + pad4(len) as u128;
            if vend128 > n as u128 {
                return Err(StructureError::Truncated { offset: cur });
            }
            let vend = vend128 as usize;
            let value = &stru[cur + 12..cur + 12 + len as usize];
            proof {
                assert(value@ =~= stru@.subrange(cur + 12, cur + 12 + len as int));
            }
            let pname = match prop_name(strings, nameoff) {
                Some(nm) => nm,
                None => {
                    return Err(StructureError::PropertyName { nameoff });
                },
            };
            let k = stack.len() - 1;
            let top = stack[k];
            if bytes_eq_arr(
                pname,
                &[35u8, 97u8, 100u8, 100u8, 114u8, 101u8, 115u8, 115u8, 45u8, 99u8, 101u8, 108u8, 108u8, 115u8],
            ) {
                if len != 4 {
                    return Err(StructureError::InvalidCellCount { offset: cur, length: len });
                }
                let cell = read_cell(value);
                proof {
                    assert(cell == word_at(stru@, cur + 12)) by {
                        assert(value@.subrange(0, 4) =~= stru@.subrange(cur + 12, cur + 16));
                    }
                }
                stack[k] = (top.0, Cells { address: cell, ..top.1 });
                proof {
                    assert(stack_model(stack@) =~= smodel.update(
                        smodel.len() - 1,
                        SpecFrame {
                            entry: top.0,
                            force: Cells { address: word_at(stru@, cur + 12), ..top.1 },
                        },
                    ));
                }
                cur = vend;
            } else if bytes_eq_arr(
                pname,
                &[35u8, 115u8, 105u8, 122u8, 101u8, 45u8, 99u8, 101u8, 108u8, 108u8, 115u8],
            ) {
                if len != 4 {
                    return Err(StructureError::InvalidCellCount { offset: cur, length: len });
                }
                let cell = read_cell(value);
                proof {
                    assert(cell == word_at(stru@, cur + 12)) by {
                        assert(value@.subrange(0, 4) =~= stru@.subrange(cur + 12, cur + 16));
                    }
                }
                stack[k] = (top.0, Cells { size: cell, ..top.1 });
                proof {
                    assert(stack_model(stack@) =~= smodel.update(
                        smodel.len() - 1,
                        SpecFrame {
                            entry: top.0,
                            force: Cells { size: word_at(stru@, cur + 12), ..top.1 },
                        },
                    ));
                }
                cur = vend;
            } else if bytes_eq_arr(
                pname,
                &[35u8, 105u8, 110u8, 116u8, 101u8, 114u8, 114u8, 117u8, 112u8, 116u8, 45u8, 99u8, 101u8, 108u8, 108u8, 115u8],
            ) && len == 4 {
                let cell = read_cell(value);
                proof {
                    assert(cell == word_at(stru@, cur + 12)) by {
                        assert(value@.subrange(0, 4) =~= stru@.subrange(cur + 12, cur + 16));
                    }
                }
                stack[k] = (top.0, Cells { interrupt: cell, ..top.1 });
                proof {
                    assert(stack_model(stack@) =~= smodel.update(
                        smodel.len() - 1,
                        SpecFrame {
                            entry: top.0,
                            force: Cells { interrupt: word_at(stru@, cur + 12), ..top.1 },
                        },
                    ));
                }
                cur = vend;
            } else {
                let ghost ev = SpecEvent::Prop {
                    at: cur as int,
                    level: lvl,
                    name: pname@,
                    value: value@,
                    reg_cells: top.0,
                };
                let ghost old_events = events@;
                proof {
                    assert(smodel.last() == SpecFrame { entry: top.0, force: top.1 });
                    assert(scan_now == spec_compose(
                        seq![ev],
                        spec_scan(stru@, strings@, vend as int, lvl, smodel),
                    ));
                    lemma_compose_assoc(
                        events_model(old_events),
                        seq![ev],
                        spec_scan(stru@, strings@, vend as int, lvl, smodel),
                    );
                }
                events.push(
                    Event::Prop {
                        offset: cur,
                        level: k,
                        name: vstd::slice::slice_to_vec(pname),
                        value: vstd::slice::slice_to_vec(value),
                        reg_cells: top.0,
                    },
                );
                proof {
                    assert(events_model(events@) =~= events_model(old_events) + seq![ev]);
                }
                cur = vend;
            }
        } else {
            return Err(StructureError::UnexpectedToken { offset: cur, token: w });
        }
    }
}

/// Drives one traversal of a blob's sections; see [`crate::Dtb::walk`].
pub(crate) fn walk_sections<M: ContextMeta>(stru: &[u8], strings: &[u8], root_meta: M) -> (r: (
    Result<M, StructureError>,
    Ghost<Seq<SpecReply>>,
))
    requires
        stru@.len() >= 8,
    ensures
        is_good(
            spec_scan(stru@, strings@, 8, 0, frame1(spec_default_cells(), spec_default_cells())),
        ) ==> r.0 is Ok,
        no_stop(r.1@) || stopped_last(r.1@),
        replies_wf(stru@, r.1@, 8, stru@.len() as int),
        is_good(
            spec_scan(stru@, strings@, 8, 0, frame1(spec_default_cells(), spec_default_cells())),
        ) ==> replies_complete(
            stru@,
            good_events(
                spec_scan(
                    stru@,
                    strings@,
                    8,
                    0,
                    frame1(spec_default_cells(), spec_default_cells()),
                ),
            ),
            r.1@,
        ),
{
    let root = Context::root();
    let mut meta = root_meta;
    match walk_inner(stru, strings, 8, &root, &mut meta) {
        Ok((end, cont, replies)) => {
            proof {
                if cont {
                    lemma_replies_wf_widen(
                        stru@,
                        replies@,
                        8,
                        end as int,
                        8,
                        stru@.len() as int,
                    );
                }
            }
            (Ok(meta), replies)
        },
        Err(e) => {
            proof {
                lemma_replies_wf_empty(stru@, 8, stru@.len() as int);
                lemma_no_stop_empty();
            }
            (Err(e), Ghost(Seq::empty()))
        },
    }
}

} // verus!
