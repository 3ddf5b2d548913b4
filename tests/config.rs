use single_nozzle::SlicerConfig;

fn read(text: &str) -> SlicerConfig {
    SlicerConfig::read(text.as_bytes())
}

#[test]
fn test_config_read() {
    let config_data = "\
; CP TOOLCHANGE START
; toolchange #1
; ...
; CP TOOLCHANGE START
; toolchange #2
; ...
; CP TOOLCHANGE START
; toolchange #3
; ...
; CP TOOLCHANGE START
; toolchange #4
; ...
; total toolchanges = 4
; estimated first layer printing time (normal mode) = 6m 47s
; estimated first layer printing time (silent mode) = 6m 51s

; prusaslicer_config = begin
; arc_fitting = emit_center
; ...
; wipe_tower = 1
; prusaslicer_config = end
";

    let config = SlicerConfig::read(config_data.as_bytes());
    assert_eq!(config.wipe_tower, true);
    assert_eq!(config.total_toolchanges, 4);
}

#[test]
fn config_defaults() {
    let config = read("G1 X1\n");
    assert_eq!(config, SlicerConfig { wipe_tower: false, total_toolchanges: 0 });
    assert_eq!(read(""), SlicerConfig { wipe_tower: false, total_toolchanges: 0 });
}

#[test]
fn config_unparsable_count_is_ignored() {
    assert_eq!(read("; total toolchanges = abc\n").total_toolchanges, 0);
    assert_eq!(read("; total toolchanges = 7\n; total toolchanges = abc\n").total_toolchanges, 7);
    assert_eq!(read("; total toolchanges = \n").total_toolchanges, 0);
    assert_eq!(read("; total toolchanges = -3\n").total_toolchanges, 0);
    assert_eq!(read("; total toolchanges = +\n").total_toolchanges, 0);
    assert_eq!(read("; total toolchanges = 4294967296\n").total_toolchanges, 0);
    assert_eq!(read("; total toolchanges = 5 \n").total_toolchanges, 0);
}

#[test]
fn config_count_forms() {
    assert_eq!(read("; total toolchanges = 4294967295\n").total_toolchanges, 4294967295);
    assert_eq!(read("; total toolchanges = +12\n").total_toolchanges, 12);
    assert_eq!(read("; total toolchanges = 007").total_toolchanges, 7);
    assert_eq!(read("; total toolchanges = 9\r\n").total_toolchanges, 9);
}

#[test]
fn config_last_line_wins() {
    let config = read("; total toolchanges = 3\n; wipe_tower = 1\n; total toolchanges = 5\n; wipe_tower = 0\n");
    assert_eq!(config, SlicerConfig { wipe_tower: false, total_toolchanges: 5 });
}

#[test]
fn config_wipe_tower_needs_exact_value() {
    assert!(!read("; wipe_tower = 2\n").wipe_tower);
    assert!(read("; wipe_tower = 1\n; wipe_tower = yes\n").wipe_tower);
    assert!(!read("; wipe_tower = 1 \n").wipe_tower);
    assert!(!read(";wipe_tower = 1\n").wipe_tower);
}

#[test]
fn update_from_line_applies_one_line() {
    let mut config = SlicerConfig { wipe_tower: false, total_toolchanges: 2 };
    config.update_from_line(b"; total toolchanges = 11");
    assert_eq!(config.total_toolchanges, 11);
    config.update_from_line(b"; wipe_tower = 1");
    assert!(config.wipe_tower);
    config.update_from_line(b"; total toolchanges = x");
    assert_eq!(config, SlicerConfig { wipe_tower: true, total_toolchanges: 11 });
}
