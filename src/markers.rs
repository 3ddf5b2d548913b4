//! The sentinel comment lines that a slicer writes around a tool change, and the command
//! that replaces them.
use vstd::prelude::*;
use vstd::string::StringSliceAdditionalSpecFns;
use vstd::utf8::{is_ascii_chars, is_ascii_chars_encode_utf8};
use crate::text::has_prefix;

verus! {

/// Opens the part of a tool change that unloads the filament.
pub open spec fn unload_marker() -> Seq<u8> {
    "; CP TOOLCHANGE UNLOAD".spec_bytes()
}

/// Closes the unload part with the wipe.
pub open spec fn wipe_marker() -> Seq<u8> {
    "; CP TOOLCHANGE WIPE".spec_bytes()
}

/// Opens a tool-change block.
pub open spec fn start_marker() -> Seq<u8> {
    "; CP TOOLCHANGE START".spec_bytes()
}

/// Closes a tool-change block.
pub open spec fn end_marker() -> Seq<u8> {
    "; CP TOOLCHANGE END".spec_bytes()
}

/// The filament-change command written in place of a tool change.
pub open spec fn change_command() -> Seq<u8> {
    "M600".spec_bytes()
}

/// True when `line` begins with one of the four sentinel markers.
pub open spec fn is_marker(line: Seq<u8>) -> bool {
    has_prefix(line, unload_marker()) || has_prefix(line, wipe_marker()) || has_prefix(
        line,
        start_marker(),
    ) || has_prefix(line, end_marker())
}

/// The bytes of the unload marker.
pub fn unload_marker_bytes() -> (r: &'static [u8])
    ensures
        r@ == unload_marker(),
{
    "; CP TOOLCHANGE UNLOAD".as_bytes()
}

/// The bytes of the wipe marker.
pub fn wipe_marker_bytes() -> (r: &'static [u8])
    ensures
        r@ == wipe_marker(),
{
    "; CP TOOLCHANGE WIPE".as_bytes()
}

/// The bytes of the block opener.
pub fn start_marker_bytes() -> (r: &'static [u8])
    ensures
        r@ == start_marker(),
{
    "; CP TOOLCHANGE START".as_bytes()
}

/// The bytes of the block closer.
pub fn end_marker_bytes() -> (r: &'static [u8])
    ensures
        r@ == end_marker(),
{
    "; CP TOOLCHANGE END".as_bytes()
}

/// The bytes of the change command.
pub fn change_command_bytes() -> (r: &'static [u8])
    ensures
        r@ == change_command(),
{
    "M600".as_bytes()
}

/// The four markers differ at their seventeenth byte, so no line begins with two of them;
/// and the change command is too short to begin with any of them.
pub proof fn lemma_markers_distinct()
    ensures
        unload_marker().len() == 22 && unload_marker()[16] == 85,
        wipe_marker().len() == 20 && wipe_marker()[16] == 87,
        start_marker().len() == 21 && start_marker()[16] == 83,
        end_marker().len() == 19 && end_marker()[16] == 69,
        change_command() == seq![77u8, 54u8, 48u8, 48u8],
        !is_marker(change_command()),
{
    reveal_strlit("; CP TOOLCHANGE UNLOAD");
    reveal_strlit("; CP TOOLCHANGE WIPE");
    reveal_strlit("; CP TOOLCHANGE START");
    reveal_strlit("; CP TOOLCHANGE END");
    reveal_strlit("M600");
    assert(is_ascii_chars("; CP TOOLCHANGE UNLOAD"@));
    assert(is_ascii_chars("; CP TOOLCHANGE WIPE"@));
    assert(is_ascii_chars("; CP TOOLCHANGE START"@));
    assert(is_ascii_chars("; CP TOOLCHANGE END"@));
    assert(is_ascii_chars("M600"@));
    is_ascii_chars_encode_utf8("; CP TOOLCHANGE UNLOAD"@);
    is_ascii_chars_encode_utf8("; CP TOOLCHANGE WIPE"@);
    is_ascii_chars_encode_utf8("; CP TOOLCHANGE START"@);
    is_ascii_chars_encode_utf8("; CP TOOLCHANGE END"@);
    is_ascii_chars_encode_utf8("M600"@);
    assert(change_command() =~= seq![77u8, 54u8, 48u8, 48u8]);
}

/// A line cannot begin with two different markers.
pub proof fn lemma_one_marker(line: Seq<u8>)
    ensures
        has_prefix(line, unload_marker()) ==> !has_prefix(line, wipe_marker())
            && !has_prefix(line, start_marker()) && !has_prefix(line, end_marker()),
        has_prefix(line, wipe_marker()) ==> !has_prefix(line, start_marker())
            && !has_prefix(line, end_marker()),
        has_prefix(line, start_marker()) ==> !has_prefix(line, end_marker()),
{
    lemma_markers_distinct();
    if has_prefix(line, unload_marker()) {
        assert(line.subrange(0, 22)[16] == line[16]);
    }
    if has_prefix(line, wipe_marker()) {
        assert(line.subrange(0, 20)[16] == line[16]);
    }
    if has_prefix(line, start_marker()) {
        assert(line.subrange(0, 21)[16] == line[16]);
    }
    if has_prefix(line, end_marker()) {
        assert(line.subrange(0, 19)[16] == line[16]);
    }
}

} // verus!
