use single_nozzle::{replace_toolchanges, replace_unloads};

fn toolchanges(input: &str) -> String {
    let mut output = Vec::new();
    replace_toolchanges(input.as_bytes(), &mut output);
    String::from_utf8(output).unwrap()
}

fn unloads(input: &str, total: u32) -> String {
    let mut output = Vec::new();
    replace_unloads(input.as_bytes(), &mut output, total);
    String::from_utf8(output).unwrap()
}

#[test]
fn test_replace_toolchanges() {
    let input = "\
G1 X149.27 Y134.713 E.46499
M204 P2500
;--------------------
; CP TOOLCHANGE START
; toolchange #1
; material : PETG -> PETG
;--------------------
M220 B
M220 S100
; CP TOOLCHANGE UNLOAD
;WIDTH:1
;WIDTH:0.5
G4 S0
M486 S-1
; ...
G1 X103.329
; CP TOOLCHANGE WIPE
; ...
G92 E0
; CP TOOLCHANGE END
;------------------

G1 X102.279 Y135.586 F7200
; ...
;--------------------
; CP TOOLCHANGE START
; toolchange #2
; material : PETG -> PETG
;--------------------
M220 B
M220 S100
; CP TOOLCHANGE UNLOAD
;WIDTH:1
;WIDTH:0.5
G4 S0
M486 S-1
; ...
G1 X106.954
; CP TOOLCHANGE WIPE
; ...
G92 E0
; CP TOOLCHANGE END
;------------------
";
    let expected = "\
G1 X149.27 Y134.713 E.46499
M204 P2500
;--------------------
M600
;------------------

G1 X102.279 Y135.586 F7200
; ...
;--------------------
M600
;------------------
";

    let mut output = Vec::new();
    replace_toolchanges(input.as_bytes(), &mut output);
    let result = String::from_utf8(output).unwrap();
    assert_eq!(result, expected);
}

#[test]
fn test_replace_unloads() {
    let input = "\
M204 P2500
;--------------------
; CP TOOLCHANGE START
; toolchange #1
;--------------------
M220 S100
; CP TOOLCHANGE UNLOAD
G4 S0
; ...
G1 X103.329
; CP TOOLCHANGE WIPE
G92 E0
; CP TOOLCHANGE END
;------------------
G1 X198.749 Y158.4 E.03097
M204 P2500
M486 S-1
;HEIGHT:0.15
;TYPE:Wipe tower
;WIDTH:0.5
;--------------------
; CP TOOLCHANGE START
M220 S100
; CP TOOLCHANGE UNLOAD
G4 S0
M220 R
G1 X102.529 Y135.836 F18000
G4 S0
G92 E0
; CP TOOLCHANGE END
;------------------
G1 E-.8 F2100
";
    let expected = "\
M204 P2500
;--------------------
; CP TOOLCHANGE START
; toolchange #1
;--------------------
M220 S100
M600
G92 E0
; CP TOOLCHANGE END
;------------------
G1 X198.749 Y158.4 E.03097
M204 P2500
M486 S-1
;HEIGHT:0.15
;TYPE:Wipe tower
;WIDTH:0.5
;--------------------
;------------------
G1 E-.8 F2100
";

    let mut output = Vec::new();
    replace_unloads(input.as_bytes(), &mut output, 1);
    let result = String::from_utf8(output).unwrap();
    assert_eq!(result, expected);
}

#[test]
fn test_no_toolchanges() {
    let input = "G1 X10\nG1 Y10\n";
    let mut output = Vec::new();
    replace_toolchanges(input.as_bytes(), &mut output);
    assert_eq!(String::from_utf8(output).unwrap(), input);
}

#[test]
fn toolchanges_one_command_per_block() {
    let input = "A\n; CP TOOLCHANGE START\nx\n; CP TOOLCHANGE END\nB\n; CP TOOLCHANGE START\n; CP TOOLCHANGE END\nC\n; CP TOOLCHANGE START\ny\nz\n; CP TOOLCHANGE END\n";
    let out = toolchanges(input);
    assert_eq!(out, "A\nM600\nB\nM600\nC\nM600\n");
    assert_eq!(out.lines().filter(|l| *l == "M600").count(), 3);
    assert!(!out.contains("; CP TOOLCHANGE"));
}

#[test]
fn toolchanges_rewrite_is_idempotent() {
    let input = "G28\n; CP TOOLCHANGE START\nT1\n; CP TOOLCHANGE END\nG1 X1\n";
    let once = toolchanges(input);
    assert_eq!(once, "G28\nM600\nG1 X1\n");
    assert_eq!(toolchanges(&once), once);
}

#[test]
fn toolchanges_empty_input() {
    assert_eq!(toolchanges(""), "");
    assert_eq!(unloads("", 3), "");
}

#[test]
fn toolchanges_appends_to_output() {
    let mut output = b"kept\n".to_vec();
    replace_toolchanges(b"G1\n", &mut output);
    assert_eq!(output, b"kept\nG1\n".to_vec());
}

#[test]
fn line_endings_are_normalized() {
    assert_eq!(toolchanges("G1 X1\r\nG1 Y2"), "G1 X1\nG1 Y2\n");
    assert_eq!(toolchanges("\n\nA\n"), "\n\nA\n");
    assert_eq!(toolchanges("A\r\r\n"), "A\r\n");
}

#[test]
fn toolchanges_unterminated_block_swallows_rest() {
    assert_eq!(toolchanges("A\n; CP TOOLCHANGE START\nB\nC\n"), "A\n");
}

#[test]
fn toolchanges_markers_match_by_prefix() {
    assert_eq!(
        toolchanges("; CP TOOLCHANGE START extra\nB\n; CP TOOLCHANGE END here\nG1 ; CP TOOLCHANGE START\n"),
        "M600\nG1 ; CP TOOLCHANGE START\n"
    );
}

#[test]
fn toolchanges_ignores_unload_and_wipe() {
    assert_eq!(toolchanges("; CP TOOLCHANGE UNLOAD\nA\n; CP TOOLCHANGE WIPE\n"), "; CP TOOLCHANGE UNLOAD\nA\n; CP TOOLCHANGE WIPE\n");
}

#[test]
fn unloads_counted_blocks_keep_framing() {
    let block = "; CP TOOLCHANGE START\nh\n; CP TOOLCHANGE UNLOAD\nu\n; CP TOOLCHANGE WIPE\nt\n; CP TOOLCHANGE END\n";
    let input = format!("a\n{}b\n{}c\n{}d\n", block, block, block);
    let kept = "; CP TOOLCHANGE START\nh\nM600\nt\n; CP TOOLCHANGE END\n";
    assert_eq!(unloads(&input, 3), format!("a\n{}b\n{}c\n{}d\n", kept, kept, kept));
    // a wipe marker in a dropped block still writes the command and ends the dropping
    assert_eq!(unloads(&input, 2), format!("a\n{}b\n{}c\nM600\nt\nd\n", kept, kept));
    assert_eq!(unloads(&input, 0), "a\nM600\nt\nb\nM600\nt\nc\nM600\nt\nd\n");
}

#[test]
fn unloads_later_block_without_wipe_is_dropped() {
    let input = "a\n; CP TOOLCHANGE START\nh\n; CP TOOLCHANGE UNLOAD\nu\n; CP TOOLCHANGE END\nb\n";
    assert_eq!(unloads(input, 0), "a\nb\n");
    assert_eq!(unloads(input, 1), "a\n; CP TOOLCHANGE START\nh\n");
}

#[test]
fn unloads_wipe_always_writes_command() {
    let input = "; CP TOOLCHANGE START\n; CP TOOLCHANGE UNLOAD\nx\n; CP TOOLCHANGE WIPE\ny\n; CP TOOLCHANGE END\n";
    assert_eq!(unloads(input, 0), "M600\ny\n");
}

#[test]
fn unloads_without_markers_keeps_lines() {
    assert_eq!(unloads("G1 X1\nG1 Y1", 1), "G1 X1\nG1 Y1\n");
}
