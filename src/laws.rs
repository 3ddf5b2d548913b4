//! What holds of the rewrites across all inputs.
use vstd::prelude::*;
use crate::markers::{
    change_command,
    end_marker,
    is_marker,
    lemma_markers_distinct,
    lemma_one_marker,
    start_marker,
    unload_marker,
    wipe_marker,
};
use crate::rewrite::{
    toolchange_step,
    toolchanges_run,
    toolchanges_text,
    unload_step,
    unloads_run,
    UnloadState,
};
use crate::text::{
    has_prefix,
    lemma_join_plain,
    lemma_lines_no_lf,
    lemma_lines_round_trip,
    lines_of,
    no_crlf,
    no_lf,
    strip_cr,
    LF,
};

verus! {

/// Follows the blocks of `lines`: `Some(inside)` while every opener stands outside a block,
/// every closer inside one, and no other marker and no change command stands outside one;
/// `None` from the first line that breaks this.
pub open spec fn block_scan(lines: Seq<Seq<u8>>) -> Option<bool>
    decreases lines.len(),
{
    if lines.len() == 0 {
        Some(false)
    } else {
        match block_scan(lines.drop_last()) {
            None => None,
            Some(inside) => {
                let line = lines.last();
                if has_prefix(line, start_marker()) {
                    if inside {
                        None
                    } else {
                        Some(true)
                    }
                } else if has_prefix(line, end_marker()) {
                    if inside {
                        Some(false)
                    } else {
                        None
                    }
                } else if inside {
                    Some(true)
                } else if is_marker(line) || line == change_command() {
                    None
                } else {
                    Some(false)
                }
            },
        }
    }
}

/// How many of `lines` begin with `prefix`.
pub open spec fn count_prefixed(lines: Seq<Seq<u8>>, prefix: Seq<u8>) -> nat
    decreases lines.len(),
{
    if lines.len() == 0 {
        0
    } else {
        count_prefixed(lines.drop_last(), prefix) + if has_prefix(lines.last(), prefix) {
            1nat
        } else {
            0nat
        }
    }
}

/// How many of `lines` are `line`.
pub open spec fn count_equal(lines: Seq<Seq<u8>>, line: Seq<u8>) -> nat
    decreases lines.len(),
{
    if lines.len() == 0 {
        0
    } else {
        count_equal(lines.drop_last(), line) + if lines.last() == line {
            1nat
        } else {
            0nat
        }
    }
}

proof fn lemma_count_equal_push(lines: Seq<Seq<u8>>, extra: Seq<Seq<u8>>, line: Seq<u8>)
    requires
        extra.len() <= 1,
    ensures
        count_equal(lines + extra, line) == count_equal(lines, line) + if extra.len() == 1
            && extra[0] == line {
            1nat
        } else {
            0nat
        },
{
    if extra.len() == 1 {
        assert((lines + extra).drop_last() =~= lines);
    } else {
        assert(lines + extra =~= lines);
    }
}

proof fn lemma_toolchanges_blocks(lines: Seq<Seq<u8>>)
    requires
        block_scan(lines) is Some,
    ensures
        toolchanges_run(lines).0 == block_scan(lines)->0,
        count_equal(toolchanges_run(lines).1, change_command()) + (if block_scan(lines)->0 {
            1nat
        } else {
            0nat
        }) == count_prefixed(lines, start_marker()),
        forall|k: int|
            0 <= k < toolchanges_run(lines).1.len() ==> !is_marker(
                #[trigger] toolchanges_run(lines).1[k],
            ),
    decreases lines.len(),
{
    if lines.len() > 0 {
        let rest = lines.drop_last();
        let line = lines.last();
        lemma_toolchanges_blocks(rest);
        lemma_one_marker(line);
        lemma_markers_distinct();
        let (skip, out) = toolchanges_run(rest);
        let (next, written) = toolchange_step(skip, line);
        lemma_count_equal_push(out, written, change_command());
        assert forall|k: int| 0 <= k < (out + written).len() implies !is_marker(
            #[trigger] (out + written)[k],
        ) by {
            if k < out.len() {
                assert((out + written)[k] == out[k]);
            } else {
                assert((out + written)[k] == written[k - out.len()]);
            }
        }
    }
}

/// Without a wipe tower, on lines whose blocks are closed, not nested, and hold every
/// marker, and with no change command outside them, the rewrite writes one change command
/// per block opener and no marker.
pub proof fn lemma_toolchanges_count(input: Seq<u8>)
    requires
        block_scan(lines_of(input)) == Some(false),
    ensures
        count_equal(toolchanges_run(lines_of(input)).1, change_command()) == count_prefixed(
            lines_of(input),
            start_marker(),
        ),
        forall|k: int|
            0 <= k < toolchanges_run(lines_of(input)).1.len() ==> !is_marker(
                #[trigger] toolchanges_run(lines_of(input)).1[k],
            ),
{
    lemma_toolchanges_blocks(lines_of(input));
}

proof fn lemma_toolchanges_plain(lines: Seq<Seq<u8>>)
    requires
        forall|k: int| 0 <= k < lines.len() ==> !is_marker(#[trigger] lines[k]),
    ensures
        toolchanges_run(lines) == (false, lines),
    decreases lines.len(),
{
    if lines.len() > 0 {
        let rest = lines.drop_last();
        assert forall|k: int| 0 <= k < rest.len() implies !is_marker(#[trigger] rest[k]) by {
            assert(rest[k] == lines[k]);
        }
        lemma_toolchanges_plain(rest);
        assert(!is_marker(lines[lines.len() - 1]));
        assert(rest + seq![lines.last()] =~= lines);
    }
}

/// Without a wipe tower, a text with no marker line, ended by a line feed (or empty), and
/// with no line feed after a carriage return comes out unchanged.
pub proof fn lemma_toolchanges_identity(input: Seq<u8>)
    requires
        forall|k: int| 0 <= k < lines_of(input).len() ==> !is_marker(#[trigger] lines_of(input)[k]),
        input.len() == 0 || input.last() == LF,
        no_crlf(input),
    ensures
        toolchanges_text(input) == input,
{
    lemma_toolchanges_plain(lines_of(input));
    lemma_lines_round_trip(input);
}

proof fn lemma_toolchanges_no_lf(lines: Seq<Seq<u8>>)
    requires
        forall|k: int| 0 <= k < lines.len() ==> no_lf(#[trigger] lines[k]),
    ensures
        forall|k: int|
            0 <= k < toolchanges_run(lines).1.len() ==> no_lf(#[trigger] toolchanges_run(lines).1[k]),
    decreases lines.len(),
{
    if lines.len() > 0 {
        let rest = lines.drop_last();
        assert forall|k: int| 0 <= k < rest.len() implies no_lf(#[trigger] rest[k]) by {
            assert(rest[k] == lines[k]);
        }
        lemma_toolchanges_no_lf(rest);
        lemma_markers_distinct();
        assert(no_lf(lines[lines.len() - 1]));
        assert(no_lf(change_command()));
        let (skip, out) = toolchanges_run(rest);
        let (next, written) = toolchange_step(skip, lines.last());
        assert forall|k: int| 0 <= k < (out + written).len() implies no_lf(
            #[trigger] (out + written)[k],
        ) by {
            if k < out.len() {
                assert((out + written)[k] == out[k]);
            } else {
                assert((out + written)[k] == written[k - out.len()]);
            }
        }
    }
}

/// Without a wipe tower, rewriting a rewritten text that holds no marker line gives it back,
/// provided no line written the first time ends with a carriage return.
pub proof fn lemma_toolchanges_idempotent(input: Seq<u8>)
    requires
        forall|k: int|
            0 <= k < lines_of(toolchanges_text(input)).len() ==> !is_marker(
                #[trigger] lines_of(toolchanges_text(input))[k],
            ),
        forall|k: int|
            0 <= k < toolchanges_run(lines_of(input)).1.len() ==> strip_cr(
                #[trigger] toolchanges_run(lines_of(input)).1[k],
            ) == toolchanges_run(lines_of(input)).1[k],
    ensures
        toolchanges_text(toolchanges_text(input)) == toolchanges_text(input),
{
    lemma_lines_no_lf(input);
    lemma_toolchanges_no_lf(lines_of(input));
    lemma_join_plain(toolchanges_run(lines_of(input)).1);
    lemma_toolchanges_identity(toolchanges_text(input));
}

/// The rewrite with a wipe tower over `lines`, from state `s`.
pub open spec fn unloads_from(s: UnloadState, total: nat, lines: Seq<Seq<u8>>) -> UnloadState
    decreases lines.len(),
{
    if lines.len() == 0 {
        s
    } else {
        unload_step(unloads_from(s, total, lines.drop_last()), total, lines.last())
    }
}

proof fn lemma_unloads_append(pre: Seq<Seq<u8>>, rest: Seq<Seq<u8>>, total: nat)
    ensures
        unloads_run(pre + rest, total) == unloads_from(unloads_run(pre, total), total, rest),
    decreases rest.len(),
{
    if rest.len() == 0 {
        assert(pre + rest =~= pre);
    } else {
        assert((pre + rest).drop_last() =~= pre + rest.drop_last());
        lemma_unloads_append(pre, rest.drop_last(), total);
    }
}

proof fn lemma_unloads_concat(s: UnloadState, total: nat, a: Seq<Seq<u8>>, b: Seq<Seq<u8>>)
    ensures
        unloads_from(s, total, a + b) == unloads_from(unloads_from(s, total, a), total, b),
    decreases b.len(),
{
    if b.len() == 0 {
        assert(a + b =~= a);
    } else {
        assert((a + b).drop_last() =~= a + b.drop_last());
        lemma_unloads_concat(s, total, a, b.drop_last());
    }
}

proof fn lemma_unloads_one(s: UnloadState, total: nat, line: Seq<u8>)
    ensures
        unloads_from(s, total, seq![line]) == unload_step(s, total, line),
{
    assert(seq![line].drop_last() =~= Seq::<Seq<u8>>::empty());
    assert(unloads_from(s, total, Seq::<Seq<u8>>::empty()) == s);
    assert(seq![line].last() == line);
}

proof fn lemma_unloads_plain(s: UnloadState, total: nat, lines: Seq<Seq<u8>>)
    requires
        forall|k: int| 0 <= k < lines.len() ==> !is_marker(#[trigger] lines[k]),
    ensures
        unloads_from(s, total, lines) == (UnloadState {
            out: if s.skip {
                s.out
            } else {
                s.out + lines
            },
            ..s
        }),
    decreases lines.len(),
{
    if lines.len() == 0 {
        assert(s.out + lines =~= s.out);
    } else {
        let rest = lines.drop_last();
        assert forall|k: int| 0 <= k < rest.len() implies !is_marker(#[trigger] rest[k]) by {
            assert(rest[k] == lines[k]);
        }
        lemma_unloads_plain(s, total, rest);
        assert(!is_marker(lines[lines.len() - 1]));
        assert((s.out + rest).push(lines.last()) =~= s.out + lines);
    }
}

proof fn lemma_unloads_dropped(s: UnloadState, total: nat, lines: Seq<Seq<u8>>)
    requires
        s.skip,
        s.seen > total,
        forall|k: int|
            0 <= k < lines.len() ==> !has_prefix(#[trigger] lines[k], start_marker())
                && !has_prefix(lines[k], end_marker()) && !has_prefix(lines[k], wipe_marker()),
    ensures
        unloads_from(s, total, lines) == s,
    decreases lines.len(),
{
    if lines.len() > 0 {
        let rest = lines.drop_last();
        assert forall|k: int| 0 <= k < rest.len() implies !has_prefix(
            #[trigger] rest[k],
            start_marker(),
        ) && !has_prefix(rest[k], end_marker()) && !has_prefix(rest[k], wipe_marker()) by {
            assert(rest[k] == lines[k]);
        }
        lemma_unloads_dropped(s, total, rest);
        assert(lines[lines.len() - 1] == lines.last());
    }
}

/// With a wipe tower, a block among the first `total` (fewer than `total` blocks opened before
/// it, outside any dropped part) keeps its opener, its closer and the lines around its unload
/// part, and its unload part, from the unload marker to the wipe marker, becomes one change
/// command.
pub proof fn lemma_unloads_counted_block(
    pre: Seq<Seq<u8>>,
    total: nat,
    open_line: Seq<u8>,
    head: Seq<Seq<u8>>,
    unload_line: Seq<u8>,
    inner: Seq<Seq<u8>>,
    wipe_line: Seq<u8>,
    tail: Seq<Seq<u8>>,
    close_line: Seq<u8>,
)
    requires
        !unloads_run(pre, total).skip,
        unloads_run(pre, total).seen < total,
        has_prefix(open_line, start_marker()),
        has_prefix(unload_line, unload_marker()),
        has_prefix(wipe_line, wipe_marker()),
        has_prefix(close_line, end_marker()),
        forall|k: int| 0 <= k < head.len() ==> !is_marker(#[trigger] head[k]),
        forall|k: int| 0 <= k < inner.len() ==> !is_marker(#[trigger] inner[k]),
        forall|k: int| 0 <= k < tail.len() ==> !is_marker(#[trigger] tail[k]),
    ensures
        unloads_run(
            pre + (seq![open_line] + head + seq![unload_line] + inner + seq![wipe_line] + tail
                + seq![close_line]),
            total,
        ).out == unloads_run(pre, total).out + (seq![open_line] + head + seq![change_command()]
            + tail + seq![close_line]),
        !unloads_run(
            pre + (seq![open_line] + head + seq![unload_line] + inner + seq![wipe_line] + tail
                + seq![close_line]),
            total,
        ).skip,
        unloads_run(
            pre + (seq![open_line] + head + seq![unload_line] + inner + seq![wipe_line] + tail
                + seq![close_line]),
            total,
        ).seen == unloads_run(pre, total).seen + 1,
{
    let p1 = seq![open_line];
    let p2 = p1 + head;
    let p3 = p2 + seq![unload_line];
    let p4 = p3 + inner;
    let p5 = p4 + seq![wipe_line];
    let p6 = p5 + tail;
    let block = p6 + seq![close_line];
    let s0 = unloads_run(pre, total);
    lemma_one_marker(open_line);
    lemma_one_marker(unload_line);
    lemma_one_marker(wipe_line);
    lemma_one_marker(close_line);
    lemma_unloads_append(pre, block, total);
    lemma_unloads_concat(s0, total, p6, seq![close_line]);
    lemma_unloads_concat(s0, total, p5, tail);
    lemma_unloads_concat(s0, total, p4, seq![wipe_line]);
    lemma_unloads_concat(s0, total, p3, inner);
    lemma_unloads_concat(s0, total, p2, seq![unload_line]);
    lemma_unloads_concat(s0, total, p1, head);
    lemma_unloads_one(s0, total, open_line);
    let s1 = unloads_from(s0, total, p1);
    assert(s1 == UnloadState { seen: s0.seen + 1, out: s0.out.push(open_line), ..s0 });
    lemma_unloads_plain(s1, total, head);
    let s2 = unloads_from(s1, total, head);
    lemma_unloads_one(s2, total, unload_line);
    let s3 = unload_step(s2, total, unload_line);
    lemma_unloads_plain(s3, total, inner);
    lemma_unloads_one(s3, total, wipe_line);
    let s5 = unload_step(s3, total, wipe_line);
    lemma_unloads_plain(s5, total, tail);
    let s6 = unloads_from(s5, total, tail);
    lemma_unloads_one(s6, total, close_line);
    assert(s0.out.push(open_line) + head + seq![change_command()] + tail + seq![close_line]
        =~= s0.out + (seq![open_line] + head + seq![change_command()] + tail + seq![close_line]));
    assert(s0.out.push(open_line) + head + seq![change_command()] =~= (s0.out.push(open_line)
        + head).push(change_command()));
    assert(s0.out.push(open_line) + head + seq![change_command()] + tail + seq![close_line]
        =~= (s0.out.push(open_line) + head + seq![change_command()] + tail).push(close_line));
}

/// With a wipe tower, a block opened after `total` blocks have opened (and outside any dropped
/// part) is dropped whole, opener and closer included, when no wipe marker stands in it.
pub proof fn lemma_unloads_later_block(
    pre: Seq<Seq<u8>>,
    total: nat,
    open_line: Seq<u8>,
    body: Seq<Seq<u8>>,
    close_line: Seq<u8>,
)
    requires
        !unloads_run(pre, total).skip,
        unloads_run(pre, total).seen >= total,
        has_prefix(open_line, start_marker()),
        has_prefix(close_line, end_marker()),
        forall|k: int|
            0 <= k < body.len() ==> !has_prefix(#[trigger] body[k], start_marker())
                && !has_prefix(body[k], end_marker()) && !has_prefix(body[k], wipe_marker()),
    ensures
        unloads_run(pre + (seq![open_line] + body + seq![close_line]), total).out == unloads_run(
            pre,
            total,
        ).out,
        !unloads_run(pre + (seq![open_line] + body + seq![close_line]), total).skip,
        unloads_run(pre + (seq![open_line] + body + seq![close_line]), total).seen == unloads_run(
            pre,
            total,
        ).seen + 1,
{
    let s0 = unloads_run(pre, total);
    let p1 = seq![open_line];
    let p2 = p1 + body;
    lemma_one_marker(open_line);
    lemma_one_marker(close_line);
    lemma_unloads_append(pre, p2 + seq![close_line], total);
    lemma_unloads_concat(s0, total, p2, seq![close_line]);
    lemma_unloads_concat(s0, total, p1, body);
    lemma_unloads_one(s0, total, open_line);
    let s1 = unloads_from(s0, total, p1);
    lemma_unloads_dropped(s1, total, body);
    lemma_unloads_one(s1, total, close_line);
}

} // verus!
