use crolk::presets::{
    alarm_text, hour_choice_index, lap_list, next_preset_key, preset_from_entry, preset_key,
    preset_line, remove_preset, timer_seconds, to_24_hour, toggle_meridiem,
};

#[test]
fn twelve_hour_choices_map_to_the_day() {
    assert_eq!(to_24_hour("1", "AM"), Some(1));
    assert_eq!(to_24_hour("1", "PM"), Some(13));
    assert_eq!(to_24_hour("11", "PM"), Some(23));
    assert_eq!(to_24_hour("12", "AM"), Some(0));
    assert_eq!(to_24_hour("12", "PM"), Some(12));
    assert_eq!(to_24_hour("9", "AM"), Some(9));
}

#[test]
fn other_choices_are_refused() {
    assert_eq!(to_24_hour("0", "AM"), None);
    assert_eq!(to_24_hour("13", "PM"), None);
    assert_eq!(to_24_hour("01", "AM"), None);
    assert_eq!(to_24_hour("+1", "AM"), None);
    assert_eq!(to_24_hour("1", "am"), None);
    assert_eq!(to_24_hour("1", "AMX"), None);
    assert_eq!(to_24_hour("", "PM"), None);
}

#[test]
fn every_choice_is_a_distinct_hour() {
    let mut seen = Vec::new();
    for h in 1..=12u32 {
        for m in ["AM", "PM"] {
            let r = to_24_hour(&h.to_string(), m).unwrap();
            assert!(r < 24);
            assert!(!seen.contains(&r));
            seen.push(r);
        }
    }
    assert_eq!(seen.len(), 24);
}

#[test]
fn choice_index_places_saved_hours() {
    assert_eq!(hour_choice_index(0, false), 11);
    assert_eq!(hour_choice_index(1, false), 0);
    assert_eq!(hour_choice_index(11, false), 10);
    assert_eq!(hour_choice_index(13, true), 0);
    assert_eq!(hour_choice_index(23, true), 10);
}

#[test]
fn saved_hours_round_trip_through_the_choices() {
    for hour in 0..24u32 {
        if hour == 12 {
            continue;
        }
        let is_pm = hour > 11;
        let idx = hour_choice_index(hour, is_pm);
        let text = (idx + 1).to_string();
        let meridiem = if is_pm { "PM" } else { "AM" };
        assert_eq!(to_24_hour(&text, meridiem), Some(hour));
    }
}

#[test]
fn entries_become_presets() {
    let p = preset_from_entry(14, 30);
    assert_eq!((p.hour, p.minute, p.is_pm), (14, 30, true));
    let p = preset_from_entry(11, 5);
    assert_eq!((p.hour, p.minute, p.is_pm), (11, 5, false));
    let p = preset_from_entry(-1, 4294967296 + 7);
    assert_eq!((p.hour, p.minute, p.is_pm), (u32::MAX, 7, false));
}

#[test]
fn timer_seconds_from_choices() {
    assert_eq!(timer_seconds("0", "0", "0"), Some(0));
    assert_eq!(timer_seconds("1", "2", "3"), Some(3723));
    assert_eq!(timer_seconds("60", "60", "60"), Some(60 * 3600 + 3600 + 60));
    assert_eq!(timer_seconds("+1", "0", "0"), Some(3600));
    assert_eq!(timer_seconds("x", "0", "0"), None);
    assert_eq!(timer_seconds("1", "-1", "0"), None);
    assert_eq!(timer_seconds("5124095576030432", "0", "0"), None);
    assert_eq!(timer_seconds("0", "0", "18446744073709551615"), Some(u64::MAX));
    assert_eq!(timer_seconds("0", "1", "18446744073709551615"), None);
}

#[test]
fn alarm_text_joins_hour_and_minute() {
    assert_eq!(alarm_text(13, "5"), "13 5");
    assert_eq!(alarm_text(0, "0"), "0 0");
}

#[test]
fn preset_keys() {
    assert_eq!(preset_key("0"), Some(0));
    assert_eq!(preset_key("17"), Some(17));
    assert_eq!(preset_key("+3"), Some(3));
    assert_eq!(preset_key("-3"), None);
    assert_eq!(preset_key("4294967296"), None);
    assert_eq!(preset_key(""), None);
}

#[test]
fn preset_lines() {
    assert_eq!(preset_line(3, 14, "30"), "\n3 = {hour = 14, min = 30}");
}

#[test]
fn next_key_follows_the_last_line() {
    assert_eq!(next_preset_key(""), Some(1));
    assert_eq!(next_preset_key("\n1 = {hour = 3, min = 4}"), Some(2));
    assert_eq!(next_preset_key("\n1 = {hour = 3, min = 4}\n7 = {hour = 1, min = 0}"), Some(8));
    assert_eq!(next_preset_key("4 = x\r\n"), Some(5));
    assert_eq!(next_preset_key("nospace"), None);
    assert_eq!(next_preset_key("x = 1"), None);
    assert_eq!(next_preset_key("4294967295 = y"), None);
    assert_eq!(next_preset_key("\n"), None);
}

#[test]
fn saved_key_reads_back() {
    let mut file = String::from("\n1 = {hour = 3, min = 4}");
    file.push_str(&preset_line(2, 5, "6"));
    assert_eq!(next_preset_key(&file), Some(3));
}

#[test]
fn removing_a_preset_drops_its_lines() {
    let file = "\n1 = {hour = 3, min = 4}\n2 = {hour = 5, min = 6}\n  1 = {hour = 7, min = 8}  ";
    assert_eq!(remove_preset(file, 1), "\n2 = {hour = 5, min = 6}");
    assert_eq!(remove_preset(file, 2), "\n1 = {hour = 3, min = 4}\n  1 = {hour = 7, min = 8}  ");
    assert_eq!(remove_preset(file, 9), file);
    assert_eq!(remove_preset("", 1), "");
    assert_eq!(remove_preset("a\r\nb\n", 1), "a\nb");
    assert_eq!(remove_preset("01 = x\n1=y\n x", 1), "01 = x\n x");
}

#[test]
fn lap_list_grows_by_a_line() {
    assert_eq!(lap_list("", 1, "0.5.20"), "\n1: 0.5.20");
    assert_eq!(lap_list("\n1: 0.5.20", 2, "0.9.0"), "\n1: 0.5.20\n2: 0.9.0");
}

#[test]
fn meridiem_toggles() {
    assert_eq!(toggle_meridiem("AM"), "PM");
    assert_eq!(toggle_meridiem("PM"), "AM");
    assert_eq!(toggle_meridiem("x"), "AM");
}

fn shown(v: &[(String, crolk::presets::AlarmPreset)]) -> Vec<(String, u32, u32, bool)> {
    v.iter().map(|(k, p)| (k.clone(), p.hour, p.minute, p.is_pm)).collect()
}

#[test]
fn presets_are_read_from_the_file() {
    let text = "\n1 = {hour = 3, min = 4}\n2 = {hour = 15, min = 30}";
    let got = crolk::presets::load_presets(text).unwrap();
    assert_eq!(
        shown(&got),
        vec![("1".to_string(), 3, 4, false), ("2".to_string(), 15, 30, true)]
    );
}

#[test]
fn entries_without_both_integers_are_not_shown() {
    let text = "a = {hour = 1}\nb = {hour = \"x\", min = 2}\nc = {hour = 23, min = 0}\nd = 5";
    let got = crolk::presets::load_presets(text).unwrap();
    assert_eq!(shown(&got), vec![("c".to_string(), 23, 0, true)]);
}

#[test]
fn an_empty_file_shows_nothing() {
    assert_eq!(shown(&crolk::presets::load_presets("").unwrap()), vec![]);
}

#[test]
fn a_broken_file_is_refused() {
    assert!(crolk::presets::load_presets("1 = {hour = ").is_none());
    assert!(crolk::presets::load_presets("= = =").is_none());
}

#[test]
fn shown_presets_keep_order_and_cast() {
    let entries = vec![
        crolk::presets::PresetEntry { key: "9".to_string(), hour: Some(-1), minute: Some(4294967296 + 7) },
        crolk::presets::PresetEntry { key: "3".to_string(), hour: None, minute: Some(1) },
        crolk::presets::PresetEntry { key: "4".to_string(), hour: Some(12), minute: Some(0) },
    ];
    assert_eq!(
        shown(&crolk::presets::presets_to_show(&entries)),
        vec![("9".to_string(), u32::MAX, 7, false), ("4".to_string(), 12, 0, true)]
    );
}

#[test]
fn keys_rise_under_saves_and_deletions() {
    let mut file = String::new();
    let keys_in = |file: &String| -> Vec<u32> {
        crolk::presets::load_presets(file)
            .unwrap()
            .iter()
            .map(|(k, _)| k.parse::<u32>().unwrap())
            .collect()
    };
    for step in 0..6u32 {
        let key = next_preset_key(&file).unwrap();
        file.push_str(&preset_line(key, step, "0"));
        if step == 2 || step == 4 {
            file = remove_preset(&file, key - 1);
        }
    }
    let keys = keys_in(&file);
    assert_eq!(keys, vec![1, 3, 5, 6]);
    file = remove_preset(&file, 6);
    file = remove_preset(&file, 5);
    let key = next_preset_key(&file).unwrap();
    assert_eq!(key, 4);
    file.push_str(&preset_line(key, 1, "1"));
    assert_eq!(keys_in(&file), vec![1, 3, 4]);
}
