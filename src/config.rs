//! The two settings read from the comments that a slicer appends to its output.
use vstd::prelude::*;
use vstd::string::StringSliceAdditionalSpecFns;
use crate::text::{has_prefix, lines_of, split_lines, starts_with, views};

verus! {

/// The settings of a print job that decide how tool changes are rewritten.
#[derive(Clone, Copy, Debug, PartialEq, Eq)]
pub struct SlicerConfig {
    /// Whether the job prints a wipe tower.
    pub wipe_tower: bool,
    /// How many tool changes the job really makes.
    pub total_toolchanges: u32,
}

/// Opens the comment that gives the number of tool changes.
pub open spec fn total_prefix() -> Seq<u8> {
    "; total toolchanges = ".spec_bytes()
}

/// Opens the comment that says whether a wipe tower is printed.
pub open spec fn wipe_tower_prefix() -> Seq<u8> {
    "; wipe_tower = ".spec_bytes()
}

/// True when every byte of `s` is an ASCII decimal digit.
pub open spec fn all_digits(s: Seq<u8>) -> bool {
    forall|i: int| 0 <= i < s.len() ==> 48 <= #[trigger] s[i] <= 57
}

/// The number that the decimal digits `s` write.
pub open spec fn decimal_value(s: Seq<u8>) -> nat
    decreases s.len(),
{
    if s.len() == 0 {
        0
    } else {
        decimal_value(s.drop_last()) * 10 + (s.last() - 48) as nat
    }
}

/// Reads `s` as a `u32` written in decimal, with an optional leading `+`: `None` when it is
/// empty, holds another byte, or writes a number above `u32::MAX`.
pub open spec fn parse_u32(s: Seq<u8>) -> Option<u32> {
    let d = if s.len() > 0 && s[0] == 43 {
        s.drop_first()
    } else {
        s
    };
    if d.len() > 0 && all_digits(d) && decimal_value(d) <= u32::MAX {
        Some(decimal_value(d) as u32)
    } else {
        None
    }
}

/// The settings before any line has been read.
pub open spec fn default_config() -> SlicerConfig {
    SlicerConfig { wipe_tower: false, total_toolchanges: 0 }
}

/// The settings after reading `line`: a parsable count of tool changes replaces the count,
/// and a wipe-tower value of exactly `1` or `0` replaces the flag; anything else leaves
/// them as they were.
pub open spec fn config_after(c: SlicerConfig, line: Seq<u8>) -> SlicerConfig {
    let count = line.subrange(total_prefix().len() as int, line.len() as int);
    let flag = line.subrange(wipe_tower_prefix().len() as int, line.len() as int);
    if has_prefix(line, total_prefix()) && parse_u32(count) is Some {
        SlicerConfig { total_toolchanges: parse_u32(count)->0, ..c }
    } else if has_prefix(line, wipe_tower_prefix()) && flag == seq![49u8] {
        SlicerConfig { wipe_tower: true, ..c }
    } else if has_prefix(line, wipe_tower_prefix()) && flag == seq![48u8] {
        SlicerConfig { wipe_tower: false, ..c }
    } else {
        c
    }
}

/// The settings after reading `lines` in order, from the defaults.
pub open spec fn scan_config(lines: Seq<Seq<u8>>) -> SlicerConfig
    decreases lines.len(),
{
    if lines.len() == 0 {
        default_config()
    } else {
        config_after(scan_config(lines.drop_last()), lines.last())
    }
}

/// Extending a string of digits never lowers its value.
proof fn lemma_decimal_prefix(d: Seq<u8>, k: int)
    requires
        all_digits(d),
        0 <= k <= d.len(),
    ensures
        decimal_value(d.subrange(0, k)) <= decimal_value(d),
    decreases d.len(),
{
    if k < d.len() {
        assert(d.drop_last().subrange(0, k) =~= d.subrange(0, k));
        assert(all_digits(d.drop_last()));
        lemma_decimal_prefix(d.drop_last(), k);
    } else {
        assert(d.subrange(0, k) =~= d);
    }
}

/// Parses a decimal `u32`, as `parse_u32` states.
pub fn parse_decimal_u32(s: &[u8]) -> (r: Option<u32>)
    ensures
        r == parse_u32(s@),
{
    let start: usize = if s.len() > 0 && s[0] == 43 {
        1
    } else {
        0
    };
    let ghost d = s@.subrange(start as int, s@.len() as int);
    assert(d =~= if s@.len() > 0 && s@[0] == 43 {
        s@.drop_first()
    } else {
        s@
    });
    if start >= s.len() {
        return None;
    }
    let mut acc: u64 = 0;
    let mut i: usize = start;
    while i < s.len()
        invariant
            start <= i <= s@.len(),
            d == s@.subrange(start as int, s@.len() as int),
            d == (if s@.len() > 0 && s@[0] == 43 {
                s@.drop_first()
            } else {
                s@
            }),
            acc == decimal_value(s@.subrange(start as int, i as int)),
            acc <= u32::MAX,
            all_digits(s@.subrange(start as int, i as int)),
        decreases s@.len() - i,
    {
        let b = s[i];
        let ghost next = s@.subrange(start as int, i + 1);
        assert(next.drop_last() =~= s@.subrange(start as int, i as int));
        assert(next =~= d.subrange(0, i + 1 - start));
        if b < 48 || b > 57 {
            assert(d[i - start] == b);
            return None;
        }
        acc = acc * 10 + (b - 48) as u64;
        if acc > u32::MAX as u64 {
            proof {
                if all_digits(d) {
                    lemma_decimal_prefix(d, i + 1 - start);
                }
            }
            return None;
        }
        i = i + 1;
    }
    assert(s@.subrange(start as int, i as int) =~= d);
    Some(acc as u32)
}

impl SlicerConfig {
    /// Reads the settings from the lines of `input`; a line that matches neither setting,
    /// or holds a value that cannot be read, changes nothing, and the last line that
    /// sets a value decides it.
    pub fn read(input: &[u8]) -> (r: SlicerConfig)
        ensures
            r == scan_config(lines_of(input@)),
    {
        let lines = split_lines(input);
        let mut config = SlicerConfig { wipe_tower: false, total_toolchanges: 0 };
        let mut k: usize = 0;
        while k < lines.len()
            invariant
                k <= lines@.len(),
                config == scan_config(views(lines@).subrange(0, k as int)),
            decreases lines@.len() - k,
        {
            assert(views(lines@).subrange(0, k + 1).drop_last() =~= views(lines@).subrange(
                0,
                k as int,
            ));
            config.update_from_line(lines[k].as_slice());
            k = k + 1;
        }
        assert(views(lines@).subrange(0, k as int) =~= views(lines@));
        config
    }

    /// Applies one line to the settings, as `config_after` states.
    pub fn update_from_line(&mut self, line: &[u8])
        ensures
            *final(self) == config_after(*old(self), line@),
    {
        let total = "; total toolchanges = ".as_bytes();
        if starts_with(line, total) {
            let count = vstd::slice::slice_subrange(line, total.len(), line.len());
            if let Some(n) = parse_decimal_u32(count) {
                self.total_toolchanges = n;
                return;
            }
        }
        let wipe = "; wipe_tower = ".as_bytes();
        if starts_with(line, wipe) {
            let flag = vstd::slice::slice_subrange(line, wipe.len(), line.len());
            if flag.len() == 1 && flag[0] == 49 {
                assert(flag@ =~= seq![49u8]);
                self.wipe_tower = true;
            } else if flag.len() == 1 && flag[0] == 48 {
                assert(flag@ =~= seq![48u8]);
                self.wipe_tower = false;
            }
        }
    }
}

} // verus!
