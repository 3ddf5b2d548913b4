//! The line model of a text: how bytes split into lines and how lines are written back.
use vstd::prelude::*;

verus! {

/// Line feed, the byte that ends a line.
pub const LF: u8 = 10;

/// Carriage return, dropped when it stands right before a line feed.
pub const CR: u8 = 13;

/// True when `line` begins with the bytes of `prefix`.
pub open spec fn has_prefix(line: Seq<u8>, prefix: Seq<u8>) -> bool {
    prefix.len() <= line.len() && line.subrange(0, prefix.len() as int) == prefix
}

/// A line without the carriage return that ended it, if it had one.
pub open spec fn strip_cr(line: Seq<u8>) -> Seq<u8> {
    if line.len() > 0 && line.last() == CR {
        line.drop_last()
    } else {
        line
    }
}

/// Reads `s` from the left: the lines ended so far, and the bytes of the line still open.
pub open spec fn split(s: Seq<u8>) -> (Seq<Seq<u8>>, Seq<u8>)
    decreases s.len(),
{
    if s.len() == 0 {
        (seq![], seq![])
    } else {
        let (done, open) = split(s.drop_last());
        if s.last() == LF {
            (done.push(strip_cr(open)), seq![])
        } else {
            (done, open.push(s.last()))
        }
    }
}

/// The lines of `s`: each line feed ends one (a CR before it is dropped), and a last line
/// without a line feed counts when it is not empty.
pub open spec fn lines_of(s: Seq<u8>) -> Seq<Seq<u8>> {
    let (done, open) = split(s);
    if open.len() == 0 {
        done
    } else {
        done.push(open)
    }
}

/// The text that writes each line followed by a line feed.
pub open spec fn join_lines(lines: Seq<Seq<u8>>) -> Seq<u8>
    decreases lines.len(),
{
    if lines.len() == 0 {
        seq![]
    } else {
        join_lines(lines.drop_last()) + lines.last() + seq![LF]
    }
}

/// The contents of a sequence of byte vectors.
pub open spec fn views(v: Seq<Vec<u8>>) -> Seq<Seq<u8>> {
    v.map_values(|l: Vec<u8>| l@)
}

/// No line feed stands right after a carriage return.
pub open spec fn no_crlf(s: Seq<u8>) -> bool {
    forall|i: int| 0 < i < s.len() && #[trigger] s[i] == LF ==> s[i - 1] != CR
}

/// Writing one more line appends it and a line feed.
pub proof fn lemma_join_push(lines: Seq<Seq<u8>>, line: Seq<u8>)
    ensures
        join_lines(lines.push(line)) == join_lines(lines) + line + seq![LF],
{
    assert(lines.push(line).drop_last() =~= lines);
}

/// `line` holds no line feed.
pub open spec fn no_lf(line: Seq<u8>) -> bool {
    forall|i: int| 0 <= i < line.len() ==> #[trigger] line[i] != LF
}

/// While no line feed follows a carriage return, the lines ended so far, written back,
/// followed by the open line, give the text.
proof fn lemma_split_parts(s: Seq<u8>)
    requires
        no_crlf(s),
    ensures
        join_lines(split(s).0) + split(s).1 == s,
        split(s).1.len() == 0 <==> (s.len() == 0 || s.last() == LF),
    decreases s.len(),
{
    if s.len() > 0 {
        let p = s.drop_last();
        assert(no_crlf(p)) by {
            assert forall|i: int| 0 < i < p.len() && #[trigger] p[i] == LF implies p[i - 1] != CR by {
                assert(s[i] == LF);
            }
        }
        lemma_split_parts(p);
        let (done, open) = split(p);
        if s.last() == LF {
            if open.len() > 0 {
                assert(p[p.len() - 1] == open.last());
                assert(s[s.len() - 1] == LF);
                assert(open.last() != CR);
            }
            assert(strip_cr(open) == open);
            lemma_join_push(done, open);
            assert(join_lines(done.push(open)) + seq![] =~= s);
        } else {
            assert(s =~= p.push(s.last()));
            assert(join_lines(done) + open.push(s.last()) =~= (join_lines(done) + open).push(
                s.last(),
            ));
        }
    }
}

/// A text that is empty or ends with a line feed, and in which no line feed follows a
/// carriage return, is its lines written back.
pub proof fn lemma_lines_round_trip(s: Seq<u8>)
    requires
        no_crlf(s),
        s.len() == 0 || s.last() == LF,
    ensures
        join_lines(lines_of(s)) == s,
{
    lemma_split_parts(s);
    assert(split(s).1 =~= seq![]);
    assert(join_lines(split(s).0) + seq![] =~= join_lines(split(s).0));
}

/// No line of a text holds a line feed.
pub proof fn lemma_lines_no_lf(s: Seq<u8>)
    ensures
        forall|k: int| 0 <= k < lines_of(s).len() ==> no_lf(#[trigger] lines_of(s)[k]),
{
    lemma_split_no_lf(s);
    let (done, open) = split(s);
    if open.len() > 0 {
        assert forall|k: int| 0 <= k < done.push(open).len() implies no_lf(
            #[trigger] done.push(open)[k],
        ) by {
            if k < done.len() {
                assert(done.push(open)[k] == done[k]);
            }
        }
    }
}

proof fn lemma_split_no_lf(s: Seq<u8>)
    ensures
        no_lf(split(s).1),
        forall|k: int| 0 <= k < split(s).0.len() ==> no_lf(#[trigger] split(s).0[k]),
    decreases s.len(),
{
    if s.len() > 0 {
        lemma_split_no_lf(s.drop_last());
        let (done, open) = split(s.drop_last());
        if s.last() == LF {
            assert(no_lf(strip_cr(open))) by {
                assert forall|i: int| 0 <= i < strip_cr(open).len() implies #[trigger] strip_cr(
                    open,
                )[i] != LF by {
                    assert(strip_cr(open)[i] == open[i]);
                }
            }
            assert forall|k: int| 0 <= k < done.push(strip_cr(open)).len() implies no_lf(
                #[trigger] done.push(strip_cr(open))[k],
            ) by {
                if k < done.len() {
                    assert(done.push(strip_cr(open))[k] == done[k]);
                }
            }
        } else {
            assert forall|i: int| 0 <= i < open.push(s.last()).len() implies #[trigger] open.push(
                s.last(),
            )[i] != LF by {
                if i < open.len() {
                    assert(open.push(s.last())[i] == open[i]);
                }
            }
        }
    }
}

/// Lines that hold no line feed and do not end with a carriage return are written back as a
/// text that ends with a line feed (or is empty) and has no line feed after a carriage
/// return.
pub proof fn lemma_join_plain(lines: Seq<Seq<u8>>)
    requires
        forall|k: int| 0 <= k < lines.len() ==> no_lf(#[trigger] lines[k]),
        forall|k: int| 0 <= k < lines.len() ==> strip_cr(#[trigger] lines[k]) == lines[k],
    ensures
        no_crlf(join_lines(lines)),
        join_lines(lines).len() == 0 || join_lines(lines).last() == LF,
    decreases lines.len(),
{
    if lines.len() > 0 {
        let rest = lines.drop_last();
        let line = lines.last();
        assert forall|k: int| 0 <= k < rest.len() implies no_lf(#[trigger] rest[k]) && strip_cr(
            rest[k],
        ) == rest[k] by {
            assert(rest[k] == lines[k]);
        }
        lemma_join_plain(rest);
        let j = join_lines(rest);
        let t = join_lines(lines);
        assert(no_lf(lines[lines.len() - 1]));
        assert(t == j + line + seq![LF]);
        assert forall|i: int| 0 < i < t.len() && #[trigger] t[i] == LF implies t[i - 1] != CR by {
            if i < j.len() {
                assert(t[i] == j[i] && t[i - 1] == j[i - 1]);
            } else if i < j.len() + line.len() {
                assert(t[i] == line[i - j.len()]);
            } else if line.len() > 0 {
                assert(t[i - 1] == line.last());
                assert(strip_cr(lines[lines.len() - 1]) == line);
            } else {
                assert(t[i - 1] == j.last());
            }
        }
    }
}

/// Tests whether `line` begins with `prefix`.
pub fn starts_with(line: &[u8], prefix: &[u8]) -> (r: bool)
    ensures
        r == has_prefix(line@, prefix@),
{
    if prefix.len() > line.len() {
        return false;
    }
    let mut i: usize = 0;
    while i < prefix.len()
        invariant
            prefix@.len() <= line@.len(),
            i <= prefix@.len(),
            forall|k: int| 0 <= k < i ==> line@[k] == prefix@[k],
        decreases prefix@.len() - i,
    {
        if line[i] != prefix[i] {
            assert(line@.subrange(0, prefix@.len() as int)[i as int] != prefix@[i as int]);
            return false;
        }
        i = i + 1;
    }
    assert(line@.subrange(0, prefix@.len() as int) =~= prefix@);
    true
}

/// Splits `input` into its lines.
pub fn split_lines(input: &[u8]) -> (r: Vec<Vec<u8>>)
    ensures
        views(r@) == lines_of(input@),
{
    let mut done: Vec<Vec<u8>> = Vec::new();
    let mut open: Vec<u8> = Vec::new();
    let mut i: usize = 0;
    while i < input.len()
        invariant
            i <= input@.len(),
            split(input@.subrange(0, i as int)) == (views(done@), open@),
        decreases input@.len() - i,
    {
        let b = input[i];
        assert(input@.subrange(0, i + 1).drop_last() =~= input@.subrange(0, i as int));
        if b == LF {
            if open.len() > 0 && open[open.len() - 1] == CR {
                open.pop();
            }
            let ghost before = done@;
            done.push(open);
            assert(views(done@) =~= views(before).push(done@.last()@));
            open = Vec::new();
            assert(open@ =~= seq![]);
        } else {
            open.push(b);
        }
        i = i + 1;
    }
    assert(input@.subrange(0, input@.len() as int) =~= input@);
    if open.len() > 0 {
        let ghost before = done@;
        done.push(open);
        assert(views(done@) =~= views(before).push(done@.last()@));
    }
    done
}

/// Appends `line` and a line feed to `out`.
pub fn push_line(out: &mut Vec<u8>, line: &[u8])
    ensures
        final(out)@ == old(out)@ + line@ + seq![LF],
{
    let mut i: usize = 0;
    while i < line.len()
        invariant
            i <= line@.len(),
            out@ == old(out)@ + line@.subrange(0, i as int),
        decreases line@.len() - i,
    {
        out.push(line[i]);
        assert(line@.subrange(0, i + 1) =~= line@.subrange(0, i as int).push(line@[i as int]));
        i = i + 1;
    }
    assert(line@.subrange(0, line@.len() as int) =~= line@);
    out.push(LF);
}

} // verus!
