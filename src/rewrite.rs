//! Rewrites the tool-change blocks of a text, one line at a time.
use vstd::prelude::*;
use crate::markers::{
    change_command,
    change_command_bytes,
    end_marker,
    end_marker_bytes,
    start_marker,
    start_marker_bytes,
    unload_marker,
    unload_marker_bytes,
    wipe_marker,
    wipe_marker_bytes,
};
use crate::text::{has_prefix, join_lines, lemma_join_push, lines_of, push_line, split_lines, starts_with, views, LF};

verus! {

/// One line of the rewrite without a wipe tower: from whether the line lies inside a block,
/// the new such flag and the lines written for it. A block opener is dropped, a block
/// closer becomes the change command, and the lines between are dropped.
pub open spec fn toolchange_step(skip: bool, line: Seq<u8>) -> (bool, Seq<Seq<u8>>) {
    if has_prefix(line, start_marker()) {
        (true, seq![])
    } else if has_prefix(line, end_marker()) {
        (false, seq![change_command()])
    } else if skip {
        (true, seq![])
    } else {
        (false, seq![line])
    }
}

/// The rewrite without a wipe tower over `lines`: the flag at the end, and the lines written.
pub open spec fn toolchanges_run(lines: Seq<Seq<u8>>) -> (bool, Seq<Seq<u8>>)
    decreases lines.len(),
{
    if lines.len() == 0 {
        (false, seq![])
    } else {
        let (skip, out) = toolchanges_run(lines.drop_last());
        let (next, written) = toolchange_step(skip, lines.last());
        (next, out + written)
    }
}

/// The text that the rewrite without a wipe tower makes of `input`.
pub open spec fn toolchanges_text(input: Seq<u8>) -> Seq<u8> {
    join_lines(toolchanges_run(lines_of(input)).1)
}

/// The state of the rewrite with a wipe tower: whether lines are being dropped, how many
/// blocks have opened, and the lines written.
pub struct UnloadState {
    /// Whether the current line lies in a part being dropped.
    pub skip: bool,
    /// How many block openers have been read.
    pub seen: nat,
    /// The lines written so far.
    pub out: Seq<Seq<u8>>,
}

/// One line of the rewrite with a wipe tower, where `total` blocks are real tool changes.
/// An unload marker starts dropping lines, and a wipe marker becomes the change command and
/// ends it. A block beyond the first `total` is dropped whole, its opener and closer
/// included; the openers and closers of the others are kept.
pub open spec fn unload_step(s: UnloadState, total: nat, line: Seq<u8>) -> UnloadState {
    if has_prefix(line, unload_marker()) {
        UnloadState { skip: true, ..s }
    } else if has_prefix(line, wipe_marker()) {
        UnloadState { skip: false, out: s.out.push(change_command()), ..s }
    } else if has_prefix(line, start_marker()) && s.seen + 1 > total {
        UnloadState { skip: true, seen: s.seen + 1, ..s }
    } else if has_prefix(line, end_marker()) && s.seen > total {
        UnloadState { skip: false, ..s }
    } else {
        UnloadState {
            seen: if has_prefix(line, start_marker()) {
                s.seen + 1
            } else {
                s.seen
            },
            out: if s.skip {
                s.out
            } else {
                s.out.push(line)
            },
            ..s
        }
    }
}

/// The rewrite with a wipe tower over `lines`, where `total` blocks are real tool changes.
pub open spec fn unloads_run(lines: Seq<Seq<u8>>, total: nat) -> UnloadState
    decreases lines.len(),
{
    if lines.len() == 0 {
        UnloadState { skip: false, seen: 0, out: seq![] }
    } else {
        unload_step(unloads_run(lines.drop_last(), total), total, lines.last())
    }
}

/// The text that the rewrite with a wipe tower makes of `input`.
pub open spec fn unloads_text(input: Seq<u8>, total: nat) -> Seq<u8> {
    join_lines(unloads_run(lines_of(input), total).out)
}

/// Replaces each tool-change block of `input` by the change command, keeping the other
/// lines, and appends the result to `output`, each line ended by a line feed.
pub fn replace_toolchanges(input: &[u8], output: &mut Vec<u8>)
    ensures
        final(output)@ == old(output)@ + toolchanges_text(input@),
{
    let lines = split_lines(input);
    let ghost all = views(lines@);
    let start = start_marker_bytes();
    let end = end_marker_bytes();
    let command = change_command_bytes();
    let mut skip = false;
    let mut k: usize = 0;
    while k < lines.len()
        invariant
            k <= lines@.len(),
            all == views(lines@),
            start@ == start_marker(),
            end@ == end_marker(),
            command@ == change_command(),
            skip == toolchanges_run(all.subrange(0, k as int)).0,
            output@ == old(output)@ + join_lines(toolchanges_run(all.subrange(0, k as int)).1),
        decreases lines@.len() - k,
    {
        let ghost before = toolchanges_run(all.subrange(0, k as int)).1;
        let ghost base = output@;
        let line = lines[k].as_slice();
        assert(all.subrange(0, k + 1).drop_last() =~= all.subrange(0, k as int));
        assert(all.subrange(0, k + 1).last() == line@);
        if starts_with(line, start) {
            skip = true;
            assert(before + seq![] =~= before);
        } else if starts_with(line, end) {
            push_line(output, command);
            skip = false;
            proof {
                lemma_join_push(before, change_command());
                assert(before + seq![change_command()] =~= before.push(change_command()));
            }
            assert(output@ =~= old(output)@ + join_lines(before.push(change_command())));
        } else if !skip {
            push_line(output, line);
            proof {
                lemma_join_push(before, line@);
                assert(before + seq![line@] =~= before.push(line@));
            }
            assert(output@ =~= old(output)@ + join_lines(before.push(line@)));
        } else {
            assert(before + seq![] =~= before);
        }
        k = k + 1;
    }
    assert(all.subrange(0, k as int) =~= all);
}

/// Replaces the unload part of each of the first `total_toolchanges` blocks of `input` by the
/// change command, keeping the rest of those blocks; drops every later block whole; keeps
/// the lines outside blocks. Appends the result to `output`, each line ended by a line feed.
pub fn replace_unloads(input: &[u8], output: &mut Vec<u8>, total_toolchanges: u32)
    ensures
        final(output)@ == old(output)@ + unloads_text(input@, total_toolchanges as nat),
{
    let lines = split_lines(input);
    let ghost all = views(lines@);
    let ghost total = total_toolchanges as nat;
    let unload = unload_marker_bytes();
    let wipe = wipe_marker_bytes();
    let start = start_marker_bytes();
    let end = end_marker_bytes();
    let command = change_command_bytes();
    let limit = total_toolchanges as usize;
    let mut skip = false;
    let mut seen: usize = 0;
    let mut k: usize = 0;
    while k < lines.len()
        invariant
            k <= lines@.len(),
            all == views(lines@),
            total == total_toolchanges as nat,
            limit == total_toolchanges,
            unload@ == unload_marker(),
            wipe@ == wipe_marker(),
            start@ == start_marker(),
            end@ == end_marker(),
            command@ == change_command(),
            seen <= k,
            skip == unloads_run(all.subrange(0, k as int), total).skip,
            seen == unloads_run(all.subrange(0, k as int), total).seen,
            output@ == old(output)@ + join_lines(unloads_run(all.subrange(0, k as int), total).out),
        decreases lines@.len() - k,
    {
        let ghost before = unloads_run(all.subrange(0, k as int), total).out;
        let line = lines[k].as_slice();
        assert(all.subrange(0, k + 1).drop_last() =~= all.subrange(0, k as int));
        assert(all.subrange(0, k + 1).last() == line@);
        let mut write = true;
        if starts_with(line, unload) {
            skip = true;
            write = false;
        } else if starts_with(line, wipe) {
            push_line(output, command);
            proof {
                lemma_join_push(before, change_command());
            }
            skip = false;
            write = false;
        } else {
            if starts_with(line, start) {
                seen = seen + 1;
                if seen > limit {
                    skip = true;
                    write = false;
                }
            } else if starts_with(line, end) {
                if seen > limit {
                    skip = false;
                    write = false;
                }
            }
        }
        if write && !skip {
            push_line(output, line);
            proof {
                lemma_join_push(before, line@);
            }
        }
        k = k + 1;
    }
    assert(all.subrange(0, k as int) =~= all);
}

} // verus!
