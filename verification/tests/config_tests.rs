use hyprparser::parse_config;
use hyprparser::ConfigError;
use hyprparser::HyprlandConfig;

const SAMPLE: &str = "# main config\n\ngeneral {\n    gaps_in = 5\n    gaps_out = 20\n}\n\ndecoration {\n    rounding = 10\n    blur {\n        enabled = true\n        size = 3\n    }\n}\n\nexec = waybar\n";

#[test]
fn round_trip_unedited() {
    let config = parse_config(SAMPLE);
    assert_eq!(config.to_string(), SAMPLE);
}

#[test]
fn round_trip_no_trailing_newline() {
    let text = "general {\n    gaps_in = 5\n}";
    let config = parse_config(text);
    assert_eq!(config.to_string(), text);
}

#[test]
fn round_trip_empty() {
    let config = parse_config("");
    assert_eq!(config.to_string(), "");
}

#[test]
fn round_trip_weird_whitespace() {
    let text = "  general   {\n\tgaps_in =  5  \n }  \n\n# tail comment";
    let config = parse_config(text);
    assert_eq!(config.to_string(), text);
}

#[test]
fn upsert_replace() {
    let mut config = parse_config("general {\n    gaps_in = 5\n}");
    config.add_entry("general", "gaps_in = 10").unwrap();
    let out = config.to_string();
    assert_eq!(out, "general {\n    gaps_in = 10\n}");
    assert_eq!(out.matches("gaps_in").count(), 1);
    assert_eq!(config.get("general", "gaps_in"), "10");
}

#[test]
fn upsert_insert_new_key() {
    let mut config = parse_config("general {\n    gaps_in = 5\n}\n");
    config.add_entry("general", "gaps_out = 20").unwrap();
    assert_eq!(config.to_string(), "general {\n    gaps_in = 5\n    gaps_out = 20\n}\n");
}

#[test]
fn upsert_create_nested() {
    let mut config = parse_config("");
    config.add_entry("decoration.blur", "size = 5").unwrap();
    let out = config.to_string();
    assert_eq!(out, "decoration {\n    blur {\n        size = 5\n    }\n}\n");
    assert_eq!(config.get("decoration.blur", "size"), "5");
}

#[test]
fn upsert_create_inside_existing() {
    let mut config = parse_config("decoration {\n    rounding = 10\n}\n");
    config.add_entry("decoration.blur", "size = 5").unwrap();
    assert_eq!(
        config.to_string(),
        "decoration {\n    rounding = 10\n    blur {\n        size = 5\n    }\n}\n"
    );
}

#[test]
fn idempotent_add_entry() {
    let mut config = parse_config(SAMPLE);
    config.add_entry("general", "border_size = 2").unwrap();
    let once = config.to_string();
    config.add_entry("general", "border_size = 2").unwrap();
    let twice = config.to_string();
    assert_eq!(once, twice);
}

#[test]
fn idempotent_nested_create() {
    let mut config = parse_config("");
    config.add_entry("misc.vfr", "enabled = true").unwrap();
    let once = config.to_string();
    config.add_entry("misc.vfr", "enabled = true").unwrap();
    assert_eq!(once, config.to_string());
}

#[test]
fn bare_key_entry() {
    let mut config = parse_config("general {\n}\n");
    config.add_entry("general", "no_value_key").unwrap();
    assert_eq!(config.to_string(), "general {\n    no_value_key\n}\n");
    // A bare key reads back as the empty value, and repeating the call
    // changes nothing.
    assert_eq!(config.get("general", "no_value_key"), "");
    config.add_entry("general", "no_value_key").unwrap();
    assert_eq!(config.to_string(), "general {\n    no_value_key\n}\n");
}

#[test]
fn invalid_path_empty() {
    let mut config = parse_config(SAMPLE);
    let before = config.to_string();
    assert_eq!(config.add_entry("", "a = b"), Err(ConfigError::InvalidPath));
    assert_eq!(config.add_entry("general..blur", "a = b"), Err(ConfigError::InvalidPath));
    assert_eq!(config.add_entry("general.", "a = b"), Err(ConfigError::InvalidPath));
    assert_eq!(config.add_entry(".general", "a = b"), Err(ConfigError::InvalidPath));
    assert_eq!(config.add_entry("#comment", "a = b"), Err(ConfigError::InvalidPath));
    assert_eq!(config.to_string(), before);
}

#[test]
fn range_invariant_after_edits() {
    let mut config = parse_config(SAMPLE);
    config.add_entry("general", "gaps_in = 1").unwrap();
    config.add_entry("decoration.blur", "passes = 2").unwrap();
    config.add_entry("animations", "enabled = false").unwrap();
    config.add_entry("input.touchpad", "natural_scroll = true").unwrap();
    for section in &config.sections {
        let start_line = config.content[section.start].trim();
        let end_line = config.content[section.end].trim();
        assert!(start_line.ends_with('{'), "bad start line: {:?}", start_line);
        assert_eq!(end_line, "}", "bad end line: {:?}", end_line);
    }
}

#[test]
fn get_plain_and_qualified() {
    let config = parse_config(SAMPLE);
    assert_eq!(config.get("general", "gaps_out"), "20");
    assert_eq!(config.get("decoration", "rounding"), "10");
    assert_eq!(config.get("decoration", "blur.size"), "3");
    assert_eq!(config.get("decoration.blur", "enabled"), "true");
    assert_eq!(config.get("general", "missing"), "");
    assert_eq!(config.get("nosuch", "key"), "");
}

#[test]
fn get_value_containing_equals() {
    let config = parse_config("general {\n    env = QT_STYLE=kvantum\n}\n");
    assert_eq!(config.get("general", "env"), "QT_STYLE=kvantum");
}

#[test]
fn source_paths_recorded() {
    let config = parse_config("source = ~/extra.conf\ngeneral {\n}\nsource = ~/more.conf\n");
    assert_eq!(config.source_paths, vec!["~/extra.conf".to_string(), "~/more.conf".to_string()]);
}

#[test]
fn sourced_fallback() {
    let mut config = parse_config("general {\n    gaps_in = 5\n}\nsource = ~/extra.conf\n");
    config.add_source("~/extra.conf", "general {\n    border_size = 4\n}\n");
    // Absent from the primary document, present in the sourced one.
    assert_eq!(config.get("general", "border_size"), "4");
    // The primary document wins when it holds the entry.
    assert_eq!(config.get("general", "gaps_in"), "5");
    // Absent everywhere stays empty.
    assert_eq!(config.get("general", "nothing"), "");
}

#[test]
fn sourced_registration_order() {
    let mut config = parse_config("general {\n}\n");
    config.add_source("first.conf", "general {\n    k = first\n}\n");
    config.add_source("second.conf", "general {\n    k = second\n}\n");
    assert_eq!(config.get("general", "k"), "first");
}

#[test]
fn sourced_documents_not_mutated() {
    let mut config = parse_config("general {\n}\nsource = extra.conf\n");
    config.add_source("extra.conf", "misc {\n    vrr = 1\n}\n");
    config.add_entry("misc", "vrr = 2").unwrap();
    // The edit lands in the primary document; the sourced copy keeps its
    // value but is shadowed from now on.
    assert_eq!(config.get("misc", "vrr"), "2");
    assert_eq!(config.sourced[0].content.join("\n"), "misc {\n    vrr = 1\n}\n");
}

#[test]
fn add_exec_and_bind_append() {
    let mut config = parse_config("general {\n    gaps_in = 5\n}\n");
    config.add_exec("waybar".to_string());
    config.add_bind("SUPER, Q, killactive".to_string());
    assert_eq!(
        config.to_string(),
        "general {\n    gaps_in = 5\n}\nexec = waybar\nbind = SUPER, Q, killactive\n"
    );
}

#[test]
fn add_exec_repeats_accumulate() {
    let mut config = HyprlandConfig::new();
    config.parse("");
    config.add_exec("waybar".to_string());
    config.add_exec("waybar".to_string());
    assert_eq!(config.to_string(), "exec = waybar\nexec = waybar\n");
}

#[test]
fn insert_general_creates_section() {
    let mut config = parse_config("");
    config.insert_general("layout".to_string(), "dwindle".to_string());
    assert_eq!(config.to_string(), "general {\n    layout = dwindle\n}\n");
    assert_eq!(config.get("general", "layout"), "dwindle");
}

#[test]
fn insert_general_replaces() {
    let mut config = parse_config("general {\n    layout = master\n}\n");
    config.insert_general("layout".to_string(), "dwindle".to_string());
    assert_eq!(config.to_string(), "general {\n    layout = dwindle\n}\n");
}

#[test]
fn comments_and_unknown_lines_preserved() {
    let text = "# keep me\nrandom garbage line\ngeneral {\n    gaps_in = 5\n}\n";
    let mut config = parse_config(text);
    config.add_entry("general", "gaps_in = 7").unwrap();
    assert_eq!(config.to_string(), "# keep me\nrandom garbage line\ngeneral {\n    gaps_in = 7\n}\n");
}

#[test]
fn parse_resets_state() {
    let mut config = parse_config("general {\n    gaps_in = 5\n}\n");
    config.parse("misc {\n    vrr = 1\n}\n");
    assert_eq!(config.to_string(), "misc {\n    vrr = 1\n}\n");
    assert_eq!(config.get("general", "gaps_in"), "");
    assert_eq!(config.get("misc", "vrr"), "1");
}

#[test]
fn key_is_not_matched_by_prefix() {
    let config = parse_config("general {\n    gaps_in_workspaces = 3\n    gaps_in = 5\n}\n");
    assert_eq!(config.get("general", "gaps_in"), "5");
    let mut config2 = parse_config("general {\n    gaps_in_workspaces = 3\n}\n");
    config2.add_entry("general", "gaps_in = 5").unwrap();
    assert_eq!(
        config2.to_string(),
        "general {\n    gaps_in_workspaces = 3\n    gaps_in = 5\n}\n"
    );
}

#[test]
fn upsert_three_levels_deep() {
    let mut config = parse_config("");
    config.add_entry("input.touchpad.scroll", "factor = 2").unwrap();
    assert_eq!(
        config.to_string(),
        "input {\n    touchpad {\n        scroll {\n            factor = 2\n        }\n    }\n}\n"
    );
    assert_eq!(config.get("input.touchpad.scroll", "factor"), "2");
    assert_eq!(config.get("input", "touchpad.scroll.factor"), "2");
}

#[test]
fn trim_str_behaviour() {
    assert_eq!(hyprparser::trim_str("  gaps_in = 5\t"), "gaps_in = 5");
    assert_eq!(hyprparser::trim_str("\t \r\n"), "");
    assert_eq!(hyprparser::trim_str("x"), "x");
}

#[test]
fn mixed_edit_sequence() {
    let mut config = parse_config(SAMPLE);
    config.add_entry("general", "gaps_in = 8").unwrap();
    config.add_exec("swaybg".to_string());
    config.add_entry("decoration.blur", "size = 9").unwrap();
    config.add_bind("SUPER, T, togglefloating".to_string());
    let out = config.to_string();
    assert!(out.contains("    gaps_in = 8\n"));
    assert!(out.contains("        size = 9\n"));
    assert!(out.ends_with("exec = swaybg\nbind = SUPER, T, togglefloating\n"));
    assert_eq!(config.get("general", "gaps_in"), "8");
    assert_eq!(config.get("decoration", "blur.size"), "9");
}

#[test]
fn same_named_nested_sections_distinct() {
    let text = "input {\n    touchpad {\n        natural_scroll = true\n    }\n}\ntablet {\n    touchpad {\n        natural_scroll = false\n    }\n}\n";
    let config = parse_config(text);
    assert_eq!(config.get("input", "touchpad.natural_scroll"), "true");
    assert_eq!(config.get("tablet", "touchpad.natural_scroll"), "false");
}
