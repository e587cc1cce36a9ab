//! The small pieces of logic behind the alarm and timer controls: reading
//! the 12-hour choices, placing a saved alarm in the choices, the timer's
//! duration, and the lines of the alarm preset file.

use vstd::prelude::*;
use vstd::string::*;
use crate::scan::{
    is_white, lemma_skip_white_is, trim_end, skip_white, chars_of, find_char, find_char_at, lemma_char_code_injective, lemma_decimal_digits,
    lemma_find_char, lemma_skip_white, lemma_trim_end, lines, lines_from, join_lines, opt_u64,
    parse_unsigned, parse_unsigned_at, skip_white_at, strip_cr, trim, trim_end_at,
};
use crate::text::{decimal, push_char, push_decimal};
use crate::scan::{all_digits, digits_value, is_digit};

verus! {

/// The number `1..=12` whose decimal text is `t`, if there is one.
pub open spec fn twelve_hour_value(t: Seq<char>) -> Option<nat> {
    if exists|n: nat| 1 <= n <= 12 && decimal(n) == t {
        Some(choose|n: nat| 1 <= n <= 12 && decimal(n) == t)
    } else {
        None
    }
}

/// The hour of the day for the hour choice `t` (`"1"` to `"12"`) and the
/// half of the day `meridiem` (`"AM"` or `"PM"`): twelve o'clock is 0 in the
/// morning and 12 in the afternoon; any other choice is `None`.
pub open spec fn hour_of_day(t: Seq<char>, meridiem: Seq<char>) -> Option<nat> {
    match twelve_hour_value(t) {
        None => None,
        Some(n) => if meridiem == "PM"@ {
            Some(if n == 12 {
                12
            } else {
                n + 12
            })
        } else if meridiem == "AM"@ {
            Some(if n == 12 {
                0
            } else {
                n
            })
        } else {
            None
        },
    }
}

/// The position among the hour choices `1..=12` that shows `hour`.
pub open spec fn choice_index(hour: nat, is_pm: bool) -> int {
    if is_pm {
        (hour % 12) - 1
    } else if hour == 0 {
        11
    } else {
        hour - 1
    }
}

/// Different numbers have different decimal texts.
pub proof fn lemma_decimal_injective(a: nat, b: nat)
    requires
        decimal(a) == decimal(b),
    ensures
        a == b,
{
    lemma_decimal_digits(a);
    lemma_decimal_digits(b);
}

/// The hour of the day for an hour choice and a half of the day; `None` for
/// any text that is no choice.
pub fn to_24_hour(hour_text: &str, meridiem: &str) -> (r: Option<u32>)
    ensures
        r is Some == hour_of_day(hour_text@, meridiem@) is Some,
        r is Some ==> r->0 == hour_of_day(hour_text@, meridiem@)->0,
{
    let h = chars_of(hour_text);
    let value: u32 = if h.len() == 1 && 49 <= (h[0] as u32) && (h[0] as u32) <= 57 {
        (h[0] as u32) - 48
    } else if h.len() == 2 && h[0] == '1' && 48 <= (h[1] as u32) && (h[1] as u32) <= 50 {
        (h[1] as u32) - 38
    } else {
        0
    };
    proof {
        if value > 0 {
            let d = crate::text::digit_char((value % 10) as nat);
            assert(d as u32 == 48 + value % 10);
            assert(decimal(value as nat) =~= h@) by {
                if value >= 10 {
                    assert(decimal(1) =~= seq!['1']);
                    assert(d as u32 == h@[1] as u32);
                    lemma_char_code_injective(d, h@[1]);
                } else {
                    assert(d as u32 == h@[0] as u32);
                    lemma_char_code_injective(d, h@[0]);
                }
            }
        } else {
            if exists|n: nat| 1 <= n <= 12 && decimal(n) == h@ {
                let n = choose|n: nat| 1 <= n <= 12 && decimal(n) == h@;
                assert(decimal(1) =~= seq!['1']);
                if n >= 10 {
                    assert(decimal(n) == decimal(1).push(crate::text::digit_char((n % 10) as nat)));
                }
                assert(false);
            }
        }
        if value > 0 {
            if decimal(value as nat) == h@ {
                let n = choose|n: nat| 1 <= n <= 12 && decimal(n) == h@;
                lemma_decimal_injective(n, value as nat);
            }
        }
    }
    if value == 0 {
        return None;
    }
    let m = chars_of(meridiem);
    proof {
        reveal_strlit("AM");
        reveal_strlit("PM");
    }
    if m.len() == 2 && m[0] == 'P' && m[1] == 'M' {
        assert(m@ =~= "PM"@);
        Some(if value == 12 {
            12
        } else {
            value + 12
        })
    } else if m.len() == 2 && m[0] == 'A' && m[1] == 'M' {
        assert(m@ =~= "AM"@);
        Some(if value == 12 {
            0
        } else {
            value
        })
    } else {
        assert(m@ != "PM"@ && m@ != "AM"@);
        None
    }
}

/// The position among the hour choices `1..=12` that shows `hour` in the
/// half of the day `is_pm` tells.
pub fn hour_choice_index(hour: u32, is_pm: bool) -> (r: u32)
    requires
        !(is_pm && hour % 12 == 0),
    ensures
        r == choice_index(hour as nat, is_pm),
{
    if is_pm {
        (hour % 12) - 1
    } else if hour == 0 {
        11
    } else {
        hour - 1
    }
}

/// A saved hour of the day, shown in the choices as the hour at its index
/// and the half of the day, reads back as the same hour; twelve noon is the
/// one hour that has no place.
pub proof fn law_hour_choice_round_trip(hour: nat)
    requires
        hour < 24,
        hour != 12,
    ensures
        hour_of_day(
            decimal((choice_index(hour, hour > 11) + 1) as nat),
            if hour > 11 {
                "PM"@
            } else {
                "AM"@
            },
        ) == Some(hour),
{
    reveal_strlit("AM");
    reveal_strlit("PM");
    assert("AM"@ != "PM"@) by {
        assert("AM"@[0] != "PM"@[0]);
    }
    let n = (choice_index(hour, hour > 11) + 1) as nat;
    assert(1 <= n <= 12 && decimal(n) == decimal(n));
    let c = choose|k: nat| 1 <= k <= 12 && decimal(k) == decimal(n);
    lemma_decimal_injective(c, n);
}

/// Every choice names an hour of the day, and different choices name
/// different hours.
pub proof fn law_hour_of_day_is_exact(t1: Seq<char>, m1: Seq<char>, t2: Seq<char>, m2: Seq<char>)
    requires
        hour_of_day(t1, m1) is Some,
    ensures
        hour_of_day(t1, m1)->0 < 24,
        hour_of_day(t1, m1) == hour_of_day(t2, m2) ==> t1 == t2 && m1 == m2,
{
    reveal_strlit("AM");
    reveal_strlit("PM");
    assert("AM"@ != "PM"@) by {
        assert("AM"@[0] != "PM"@[0]);
    }
    if hour_of_day(t1, m1) == hour_of_day(t2, m2) {
        let a = twelve_hour_value(t1)->0;
        let b = twelve_hour_value(t2)->0;
        assert(a == b);
    }
}

/// The alarm text for the hour of the day `hour` and the minute choice
/// `minute`: `"<hour> <minute>"`.
pub fn alarm_text(hour: u32, minute: &str) -> (r: String)
    ensures
        r@ == decimal(hour as nat) + seq![' '] + minute@,
{
    let mut s = String::new();
    push_decimal(&mut s, hour as u128);
    push_char(&mut s, ' ');
    s.append(minute);
    s
}

/// The key of a saved preset, read from its text as `u32::from_str` does.
pub fn preset_key(text: &str) -> (r: Option<u32>)
    ensures
        r is Some == parse_unsigned(text@, u32::MAX as int) is Some,
        r is Some ==> r->0 == parse_unsigned(text@, u32::MAX as int)->0,
{
    let v = chars_of(text);
    assert(v@.subrange(0, v@.len() as int) =~= v@);
    match parse_unsigned_at(&v, 0, v.len(), 4294967295) {
        Some(k) => Some(k as u32),
        None => None,
    }
}

/// A saved alarm as the controls show it.
pub struct AlarmPreset {
    pub hour: u32,
    pub minute: u32,
    pub is_pm: bool,
}

/// The preset for a saved entry with the integers `hour` and `minute`: both
/// taken as `u32` (`as`), and in the afternoon when the hour is past 11.
pub fn preset_from_entry(hour: i64, minute: i64) -> (p: AlarmPreset)
    ensures
        p.hour == hour as u32,
        p.minute == minute as u32,
        p.is_pm == (hour > 11),
{
    AlarmPreset { hour: hour as u32, minute: minute as u32, is_pm: hour > 11 }
}

/// One entry of the preset file's table: its key, and its `hour` and `min`
/// values where they are integers.
pub struct PresetEntry {
    pub key: String,
    pub hour: Option<i64>,
    pub minute: Option<i64>,
}

/// A preset file entry as plain values.
pub open spec fn entry_view(e: PresetEntry) -> (Seq<char>, Option<i64>, Option<i64>) {
    (e.key@, e.hour, e.minute)
}

/// The entries of the table that `toml` reads from the preset file `text`,
/// in the table's order, each with its key and its integer `hour` and `min`
/// values; `None` where the text is no TOML document.
pub uninterp spec fn toml_preset_entries(text: Seq<char>) -> Option<
    Seq<(Seq<char>, Option<i64>, Option<i64>)>,
>;

/// `toml::from_str` into a `toml::Value`, the entries of its table taken
/// apart with `Value::as_table`, `Map::iter`, `Value::get` and
/// `Value::as_integer`. The result is named by `toml_preset_entries`: a
/// function of the text alone; what it is on a given text is not stated.
#[verifier::external_body]
fn parse_preset_file(text: &str) -> (r: Option<Vec<PresetEntry>>)
    ensures
        r is Some == toml_preset_entries(text@) is Some,
        r is Some ==> r->0@.map_values(|e: PresetEntry| entry_view(e)) == toml_preset_entries(
            text@,
        )->0,
{
    let value: toml::Value = match toml::from_str(text) {
        Ok(v) => v,
        Err(_) => return None,
    };
    let mut out = Vec::new();
    if let Some(table) = value.as_table() {
        for (key, entry) in table.iter() {
            let hour = entry.get("hour").and_then(toml::Value::as_integer);
            let minute = entry.get("min").and_then(toml::Value::as_integer);
            out.push(PresetEntry { key: key.clone(), hour, minute });
        }
    }
    Some(out)
}

/// The presets shown for the file entries `es`, in order: the entries whose
/// `hour` and `min` are both integers, as `preset_from_entry` makes them.
pub open spec fn shown_presets(es: Seq<(Seq<char>, Option<i64>, Option<i64>)>) -> Seq<
    (Seq<char>, AlarmPreset),
>
    decreases es.len(),
{
    if es.len() == 0 {
        Seq::empty()
    } else {
        let rest = shown_presets(es.drop_last());
        let e = es.last();
        match (e.1, e.2) {
            (Some(h), Some(m)) => rest.push(
                (e.0, AlarmPreset { hour: h as u32, minute: m as u32, is_pm: h > 11 }),
            ),
            _ => rest,
        }
    }
}

/// A shown preset as plain values.
pub open spec fn shown_view(p: (String, AlarmPreset)) -> (Seq<char>, AlarmPreset) {
    (p.0@, p.1)
}

/// The presets to show for the file entries `entries`.
pub fn presets_to_show(entries: &Vec<PresetEntry>) -> (r: Vec<(String, AlarmPreset)>)
    ensures
        r@.map_values(|p: (String, AlarmPreset)| shown_view(p)) == shown_presets(
            entries@.map_values(|e: PresetEntry| entry_view(e)),
        ),
{
    let ghost es = entries@.map_values(|e: PresetEntry| entry_view(e));
    let mut out: Vec<(String, AlarmPreset)> = Vec::new();
    let mut i: usize = 0;
    while i < entries.len()
        invariant
            i <= entries@.len(),
            es == entries@.map_values(|e: PresetEntry| entry_view(e)),
            out@.map_values(|p: (String, AlarmPreset)| shown_view(p)) == shown_presets(
                es.take(i as int),
            ),
        decreases entries@.len() - i,
    {
        let e = &entries[i];
        let ghost before = out@.map_values(|p: (String, AlarmPreset)| shown_view(p));
        assert(es.take(i + 1).drop_last() =~= es.take(i as int));
        assert(es.take(i + 1).last() == entry_view(*e));
        match (e.hour, e.minute) {
            (Some(h), Some(m)) => {
                let p = preset_from_entry(h, m);
                out.push((e.key.clone(), p));
                assert(out@.map_values(|p: (String, AlarmPreset)| shown_view(p)) =~= before.push(
                    (e.key@, p),
                ));
            },
            _ => {},
        }
        i = i + 1;
    }
    assert(es.take(i as int) =~= es);
    out
}

/// The presets to show for the preset file `text`; `None` where the text is
/// no TOML document.
pub fn load_presets(text: &str) -> (r: Option<Vec<(String, AlarmPreset)>>)
    ensures
        r is Some == toml_preset_entries(text@) is Some,
        r is Some ==> r->0@.map_values(|p: (String, AlarmPreset)| shown_view(p)) == shown_presets(
            toml_preset_entries(text@)->0,
        ),
{
    match parse_preset_file(text) {
        Some(entries) => Some(presets_to_show(&entries)),
        None => None,
    }
}

/// The seconds of a timer set to the hour, minute and second texts `h`, `m`
/// and `s`, each read as `u64::from_str` does and combined in `u64`
/// arithmetic as `3600 * h + 60 * m + s`; `None` where a text is no `u64` or
/// the arithmetic leaves the `u64` range.
pub open spec fn timer_duration(h: Seq<char>, m: Seq<char>, s: Seq<char>) -> Option<int> {
    let max = u64::MAX as int;
    match (parse_unsigned(h, max), parse_unsigned(m, max), parse_unsigned(s, max)) {
        (Some(a), Some(b), Some(c)) => if a * 3600 <= max && b * 60 <= max && a * 3600 + b * 60
            <= max && a * 3600 + b * 60 + c <= max {
            Some(a * 3600 + b * 60 + c)
        } else {
            None
        },
        _ => None,
    }
}

/// A timer set to texts that read as `a` hours, `b` minutes and `c` seconds
/// runs for `3600 * a + 60 * b + c` seconds, whichever of them are zero; it
/// is refused exactly when that sum leaves the `u64` range.
pub proof fn law_timer_duration_is_the_sum(h: Seq<char>, m: Seq<char>, s: Seq<char>)
    requires
        parse_unsigned(h, u64::MAX as int) is Some,
        parse_unsigned(m, u64::MAX as int) is Some,
        parse_unsigned(s, u64::MAX as int) is Some,
    ensures
        ({
            let a = parse_unsigned(h, u64::MAX as int)->0;
            let b = parse_unsigned(m, u64::MAX as int)->0;
            let c = parse_unsigned(s, u64::MAX as int)->0;
            let total = 3600 * a + 60 * b + c;
            &&& a >= 0 && b >= 0 && c >= 0
            &&& timer_duration(h, m, s) == if total <= u64::MAX {
                Some(total)
            } else {
                None::<int>
            }
        }),
{
    let max = u64::MAX as int;
    let body = |t: Seq<char>| if t[0] == '+' {
        t.drop_first()
    } else {
        t
    };
    crate::scan::lemma_digits_value_nonneg(body(h));
    crate::scan::lemma_digits_value_nonneg(body(m));
    crate::scan::lemma_digits_value_nonneg(body(s));
}

/// `u64::from_str` and the like read a decimal rendering back as its number.
pub proof fn lemma_parse_unsigned_decimal(n: nat, max: int)
    requires
        n <= max,
    ensures
        parse_unsigned(decimal(n), max) == Some(n as int),
{
    lemma_decimal_digits(n);
    assert(is_digit(decimal(n)[0]));
    assert('+' as u32 == 43);
}

/// With the choices the timer offers (decimal texts), one more minute makes
/// the timer run 60 seconds longer, and one more hour 3600 seconds longer.
pub proof fn law_timer_choice_steps(a: nat, b: nat, c: nat)
    requires
        3600 * (a + 1) + 60 * (b + 1) + c <= u64::MAX,
    ensures
        timer_duration(decimal(a), decimal(b + 1), decimal(c)) == Some(
            timer_duration(decimal(a), decimal(b), decimal(c))->0 + 60,
        ),
        timer_duration(decimal(a + 1), decimal(b), decimal(c)) == Some(
            timer_duration(decimal(a), decimal(b), decimal(c))->0 + 3600,
        ),
        timer_duration(decimal(a), decimal(b), decimal(c)) == Some((3600 * a + 60 * b + c) as int),
{
    let max = u64::MAX as int;
    lemma_parse_unsigned_decimal(a, max);
    lemma_parse_unsigned_decimal(a + 1, max);
    lemma_parse_unsigned_decimal(b, max);
    lemma_parse_unsigned_decimal(b + 1, max);
    lemma_parse_unsigned_decimal(c, max);
    law_timer_duration_is_the_sum(decimal(a), decimal(b), decimal(c));
    law_timer_duration_is_the_sum(decimal(a), decimal(b + 1), decimal(c));
    law_timer_duration_is_the_sum(decimal(a + 1), decimal(b), decimal(c));
}

/// Reads the whole text `t` as `u64::from_str` does.
fn parse_u64(t: &str) -> (r: Option<u64>)
    ensures
        opt_u64(r) == parse_unsigned(t@, u64::MAX as int),
{
    let v = chars_of(t);
    assert(v@.subrange(0, v@.len() as int) =~= v@);
    parse_unsigned_at(&v, 0, v.len(), u64::MAX)
}

/// The seconds of a timer set to the given hour, minute and second texts.
pub fn timer_seconds(hours: &str, minutes: &str, seconds: &str) -> (r: Option<u64>)
    ensures
        opt_u64(r) == timer_duration(hours@, minutes@, seconds@),
{
    let a = match parse_u64(hours) {
        Some(a) => a as u128,
        None => {
            return None;
        },
    };
    let b = match parse_u64(minutes) {
        Some(b) => b as u128,
        None => {
            return None;
        },
    };
    let c = match parse_u64(seconds) {
        Some(c) => c as u128,
        None => {
            return None;
        },
    };
    let max = u64::MAX as u128;
    if a * 3600 > max || b * 60 > max || a * 3600 + b * 60 > max || a * 3600 + b * 60 + c > max {
        return None;
    }
    Some((a * 3600 + b * 60 + c) as u64)
}

/// The line appended to the preset file for the key `key`, the hour of the
/// day `hour` and the minute text `minute`:
/// `"\n<key> = {hour = <hour>, min = <minute>}"`.
pub open spec fn preset_line_text(key: nat, hour: nat, minute: Seq<char>) -> Seq<char> {
    "\n"@ + decimal(key) + " = {hour = "@ + decimal(hour) + ", min = "@ + minute + "}"@
}

/// The line appended to the preset file for a saved alarm.
pub fn preset_line(key: u32, hour: u32, minute: &str) -> (r: String)
    ensures
        r@ == preset_line_text(key as nat, hour as nat, minute@),
{
    let mut s = String::new();
    s.append("\n");
    push_decimal(&mut s, key as u128);
    s.append(" = {hour = ");
    push_decimal(&mut s, hour as u128);
    s.append(", min = ");
    s.append(minute);
    s.append("}");
    s
}

/// The lap list after a lap: the earlier list, a line feed, the lap's number,
/// a colon and the lap's time.
pub open spec fn lap_list_text(previous: Seq<char>, lap: nat, time: Seq<char>) -> Seq<char> {
    previous + "\n"@ + decimal(lap) + ": "@ + time
}

/// The lap list after lap `lap` is the earlier list, a line feed, digits that
/// read back as `lap` in full, `": "` and the lap's time.
pub proof fn law_lap_line_reads_back(previous: Seq<char>, lap: nat, time: Seq<char>)
    ensures
        ({
            let r = lap_list_text(previous, lap, time);
            let p = previous.len() as int;
            exists|k: int|
                #![trigger r.subrange(p + 1, k)]
                {
                    &&& p + 1 < k && k + 2 <= r.len()
                    &&& r.take(p) == previous
                    &&& r[p] == '\n'
                    &&& all_digits(r.subrange(p + 1, k))
                    &&& digits_value(r.subrange(p + 1, k)) == lap
                    &&& r.subrange(k, k + 2) == seq![':', ' ']
                    &&& r.skip(k + 2) == time
                }
        }),
{
    reveal_strlit("\n");
    reveal_strlit(": ");
    lemma_decimal_digits(lap);
    let r = lap_list_text(previous, lap, time);
    let p = previous.len() as int;
    let d = decimal(lap);
    let k = p + 1 + d.len();
    assert(r =~= previous + seq!['\n'] + d + seq![':', ' '] + time);
    assert(r.take(p) =~= previous);
    assert(r.subrange(p + 1, k) =~= d);
    assert(r.subrange(k, k + 2) =~= seq![':', ' ']);
    assert(r.skip(k + 2) =~= time);
}

/// The lap list after a lap.
pub fn lap_list(previous: &str, lap: u8, time: &str) -> (r: String)
    ensures
        r@ == lap_list_text(previous@, lap as nat, time@),
{
    let mut s = String::new();
    s.append(previous);
    s.append("\n");
    push_decimal(&mut s, lap as u128);
    s.append(": ");
    s.append(time);
    s
}

/// The other half of the day: `"PM"` after `"AM"`, else `"AM"`.
pub fn toggle_meridiem(label: &str) -> (r: &'static str)
    ensures
        r@ == (if label@ == "AM"@ {
            "PM"@
        } else {
            "AM"@
        }),
{
    let v = chars_of(label);
    proof {
        reveal_strlit("AM");
    }
    if v.len() == 2 && v[0] == 'A' && v[1] == 'M' {
        assert(v@ =~= "AM"@);
        "PM"
    } else {
        assert(label@ != "AM"@);
        "AM"
    }
}

/// The last line of the preset file `s`, or `"0 "` for a file without lines.
pub open spec fn last_line(s: Seq<char>) -> Seq<char> {
    if lines(s).len() == 0 {
        "0 "@
    } else {
        lines(s).last()
    }
}

/// The key of a preset line: the text before its first space read as
/// `u32::from_str` does; `None` without a space or where it is no `u32`.
pub open spec fn line_key(l: Seq<char>) -> Option<int> {
    let p = find_char(l, ' ', 0);
    if p < l.len() {
        parse_unsigned(l.take(p), u32::MAX as int)
    } else {
        None
    }
}

/// The key the next saved preset of the file `s` gets: one more than the key
/// of its last line; `None` where that key cannot be read or is `u32::MAX`.
pub open spec fn next_key(s: Seq<char>) -> Option<int> {
    match line_key(last_line(s)) {
        Some(k) => if k < u32::MAX {
            Some(k + 1)
        } else {
            None
        },
        None => None,
    }
}

/// Whether the preset line `line` is the one of `key`: trimmed, it holds an
/// `=`, and the text before the first `=`, trimmed, is the decimal key.
pub open spec fn carries_key(line: Seq<char>, key: nat) -> bool {
    let t = trim(line);
    let p = find_char(t, '=', 0);
    p < t.len() && trim(t.take(p)) == decimal(key)
}

/// The lines of `ls` that are not the one of `key`, in order.
pub open spec fn kept_lines(ls: Seq<Seq<char>>, key: nat) -> Seq<Seq<char>>
    decreases ls.len(),
{
    if ls.len() == 0 {
        Seq::empty()
    } else {
        let rest = kept_lines(ls.drop_last(), key);
        if carries_key(ls.last(), key) {
            rest
        } else {
            rest.push(ls.last())
        }
    }
}

/// The characters `v[b..e]`.
fn sub_chars(v: &Vec<char>, b: usize, e: usize) -> (r: Vec<char>)
    requires
        b <= e <= v@.len(),
    ensures
        r@ == v@.subrange(b as int, e as int),
{
    let mut r: Vec<char> = Vec::new();
    let mut k = b;
    while k < e
        invariant
            b <= k <= e <= v@.len(),
            r@ == v@.subrange(b as int, k as int),
        decreases e - k,
    {
        r.push(v[k]);
        k = k + 1;
        assert(r@ =~= v@.subrange(b as int, k as int));
    }
    r
}

/// Appends the characters `v` to `s`.
fn push_chars(s: &mut String, v: &Vec<char>)
    ensures
        final(s)@ == old(s)@ + v@,
{
    let mut k: usize = 0;
    while k < v.len()
        invariant
            k <= v@.len(),
            s@ == old(s)@ + v@.take(k as int),
        decreases v@.len() - k,
    {
        push_char(s, v[k]);
        k = k + 1;
        assert(s@ =~= old(s)@ + v@.take(k as int));
    }
    assert(v@.take(v@.len() as int) =~= v@);
}

/// Whether `a` and `b` hold the same characters.
fn same_chars(a: &Vec<char>, b: &Vec<char>) -> (r: bool)
    ensures
        r == (a@ == b@),
{
    if a.len() != b.len() {
        return false;
    }
    let mut k: usize = 0;
    while k < a.len()
        invariant
            a@.len() == b@.len(),
            k <= a@.len(),
            forall|i: int| 0 <= i < k ==> a@[i] == b@[i],
        decreases a@.len() - k,
    {
        if a[k] != b[k] {
            return false;
        }
        k = k + 1;
    }
    assert(a@ =~= b@);
    true
}

/// `v` without its leading and trailing whitespace.
fn trimmed(v: &Vec<char>) -> (r: Vec<char>)
    ensures
        r@ == trim(v@),
{
    let b = skip_white_at(v, 0);
    proof {
        lemma_skip_white(v@, 0);
    }
    if b >= v.len() {
        return Vec::new();
    }
    let e = trim_end_at(v, v.len());
    proof {
        lemma_trim_end(v@, v@.len() as int);
        if e <= b {
            assert(!crate::scan::is_white(v@[b as int]));
            assert(false);
        }
    }
    sub_chars(v, b, e)
}

/// Where the line that starts at `i` ends, and where the next one starts.
proof fn lemma_line_step(s: Seq<char>, i: int)
    requires
        0 <= i < s.len(),
    ensures
        ({
            let e = find_char(s, '\n', i);
            let raw = s.subrange(i, e);
            let line = if e < s.len() {
                strip_cr(raw)
            } else {
                raw
            };
            &&& i <= e <= s.len()
            &&& lines_from(s, i) == seq![line] + lines_from(s, e + 1)
        }),
{
    lemma_find_char(s, '\n', i);
}

/// The next line of `v` from `i`: its start and end (a carriage return just
/// before a line feed left out) and where the following line starts.
fn next_line(v: &Vec<char>, i: usize) -> (r: (usize, usize))
    requires
        i < v@.len(),
    ensures
        ({
            let e = find_char(v@, '\n', i as int);
            let raw = v@.subrange(i as int, e);
            let line = if e < v@.len() {
                strip_cr(raw)
            } else {
                raw
            };
            &&& r.0 == e
            &&& i <= r.1 <= e <= v@.len()
            &&& v@.subrange(i as int, r.1 as int) == line
        }),
{
    let e = find_char_at(v, '\n', i);
    proof {
        lemma_find_char(v@, '\n', i as int);
    }
    let end = if e < v.len() && e > i && v[e - 1] == '\r' {
        e - 1
    } else {
        e
    };
    assert(v@.subrange(i as int, end as int) =~= (if e < v@.len() {
        strip_cr(v@.subrange(i as int, e as int))
    } else {
        v@.subrange(i as int, e as int)
    }));
    (e, end)
}

/// The key the next saved preset of the file `contents` gets.
pub fn next_preset_key(contents: &str) -> (r: Option<u32>)
    ensures
        r is Some == next_key(contents@) is Some,
        r is Some ==> r->0 == next_key(contents@)->0,
{
    let v = chars_of(contents);
    let n = v.len();
    let mut i: usize = 0;
    let mut last: Vec<char> = Vec::new();
    let mut any = false;
    let ghost mut done: Seq<Seq<char>> = Seq::empty();
    assert(lines(v@) == done + lines_from(v@, 0));
    while i < n
        invariant
            i <= n == v@.len(),
            lines(v@) == done + lines_from(v@, i as int),
            any == (done.len() > 0),
            any ==> done.last() == last@,
        decreases n - i,
    {
        let (e, end) = next_line(&v, i);
        proof {
            lemma_line_step(v@, i as int);
            let line = v@.subrange(i as int, end as int);
            assert(done + lines_from(v@, i as int) =~= done.push(line) + lines_from(
                v@,
                e + 1,
            ));
            done = done.push(line);
        }
        last = sub_chars(&v, i, end);
        any = true;
        i = if e < n {
            e + 1
        } else {
            n
        };
    }
    assert(lines_from(v@, i as int) =~= Seq::<Seq<char>>::empty());
    assert(lines(v@) =~= done);
    let line = if any {
        last
    } else {
        proof {
            reveal_strlit("0 ");
        }
        let mut d: Vec<char> = Vec::new();
        d.push('0');
        d.push(' ');
        assert(d@ =~= "0 "@);
        d
    };
    assert(line@ == last_line(v@));
    let p = find_char_at(&line, ' ', 0);
    if p >= line.len() {
        return None;
    }
    assert(line@.subrange(0, p as int) =~= line@.take(p as int));
    let key = match parse_unsigned_at(&line, 0, p, 4294967295) {
        Some(k) => k,
        None => {
            return None;
        },
    };
    if key >= 4294967295 {
        return None;
    }
    Some((key + 1) as u32)
}

/// Whether the line `l` is the one whose key is the text `key`.
fn line_has_key(l: &Vec<char>, key: &Vec<char>, k: Ghost<nat>) -> (r: bool)
    requires
        key@ == decimal(k@),
    ensures
        r == carries_key(l@, k@),
{
    let t = trimmed(l);
    let p = find_char_at(&t, '=', 0);
    if p >= t.len() {
        return false;
    }
    let before = sub_chars(&t, 0, p);
    assert(before@ =~= t@.take(p as int));
    let tb = trimmed(&before);
    same_chars(&tb, key)
}

/// The preset file `contents` without the lines of `key`, the other lines
/// joined with line feeds.
pub fn remove_preset(contents: &str, key: u32) -> (r: String)
    ensures
        r@ == join_lines(kept_lines(lines(contents@), key as nat)),
{
    let v = chars_of(contents);
    let n = v.len();
    let mut key_text = String::new();
    push_decimal(&mut key_text, key as u128);
    let kv = chars_of(key_text.as_str());
    let mut out = String::new();
    let mut any_kept = false;
    let mut i: usize = 0;
    let ghost mut done: Seq<Seq<char>> = Seq::empty();
    assert(lines(v@) == done + lines_from(v@, 0));
    while i < n
        invariant
            i <= n == v@.len(),
            kv@ == decimal(key as nat),
            any_kept == (kept_lines(done, key as nat).len() > 0),
            lines(v@) == done + lines_from(v@, i as int),
            out@ == join_lines(kept_lines(done, key as nat)),
        decreases n - i,
    {
        let (e, end) = next_line(&v, i);
        let line = sub_chars(&v, i, end);
        let drop = line_has_key(&line, &kv, Ghost(key as nat));
        proof {
            lemma_line_step(v@, i as int);
            assert(done + lines_from(v@, i as int) =~= done.push(line@) + lines_from(
                v@,
                e + 1,
            ));
            assert(done.push(line@).drop_last() =~= done);
        }
        if !drop {
            let ghost before = kept_lines(done, key as nat);
            if any_kept {
                push_char(&mut out, '\n');
            }
            push_chars(&mut out, &line);
            any_kept = true;
            proof {
                let after = before.push(line@);
                assert(after.drop_last() =~= before);
                if before.len() == 0 {
                    assert(join_lines(after) == after[0]);
                    assert(out@ =~= join_lines(after));
                } else {
                    assert(join_lines(after) == join_lines(before) + seq!['\n'] + line@);
                    assert(out@ =~= join_lines(after));
                }
            }
        }
        proof {
            done = done.push(line@);
        }
        i = if e < n {
            e + 1
        } else {
            n
        };
    }
    assert(lines_from(v@, i as int) =~= Seq::<Seq<char>>::empty());
    assert(lines(v@) =~= done);
    out
}

/// The last line of a text whose last line feed stands just before `q` is
/// the text from `q` on.
proof fn lemma_last_line_is(s: Seq<char>, q: int, i: int)
    requires
        1 <= q < s.len(),
        s[q - 1] == '\n',
        forall|k: int| q <= k < s.len() ==> #[trigger] s[k] != '\n',
        0 <= i <= q,
    ensures
        lines_from(s, i).len() > 0,
        lines_from(s, i).last() == s.subrange(q, s.len() as int),
    decreases q - i,
{
    lemma_line_step(s, i);
    lemma_find_char(s, '\n', i);
    let e = find_char(s, '\n', i);
    if i == q {
        assert(e == s.len());
        assert(lines_from(s, e + 1) =~= Seq::<Seq<char>>::empty());
    } else {
        assert(e <= q - 1);
        lemma_last_line_is(s, q, e + 1);
    }
}

/// Saving a preset with `key` makes `key + 1` the key of the next one: the
/// saved line is the file's last line and its key reads back.
pub proof fn law_saved_key_reads_back(contents: Seq<char>, key: nat, hour: nat, minute: Seq<char>)
    requires
        key < u32::MAX,
        forall|k: int| 0 <= k < minute.len() ==> #[trigger] minute[k] != '\n',
    ensures
        next_key(contents + preset_line_text(key, hour, minute)) == Some(key + 1int),
{
    reveal_strlit("\n");
    reveal_strlit(" = {hour = ");
    reveal_strlit(", min = ");
    reveal_strlit("}");
    let dk = decimal(key);
    let dh = decimal(hour);
    lemma_decimal_digits(key);
    lemma_decimal_digits(hour);
    let l = dk + " = {hour = "@ + dh + ", min = "@ + minute + "}"@;
    assert(preset_line_text(key, hour, minute) =~= seq!['\n'] + l);
    let s = contents + preset_line_text(key, hour, minute);
    let q = contents.len() + 1;
    assert(s =~= contents + seq!['\n'] + l);
    assert(s.subrange(q as int, s.len() as int) =~= l);
    assert forall|k: int| q <= k < s.len() implies #[trigger] s[k] != '\n' by {
        let j = k - q;
        assert(s[k] == l[j]);
        if j < dk.len() {
            assert(crate::scan::is_digit(dk[j]));
        } else if dk.len() + " = {hour = "@.len() <= j < dk.len() + " = {hour = "@.len() + dh.len() {
            assert(crate::scan::is_digit(dh[j - dk.len() - " = {hour = "@.len()]));
        } else if dk.len() + " = {hour = "@.len() + dh.len() + ", min = "@.len() <= j < l.len() - 1 {
            assert(l[j] == minute[j - (dk.len() + " = {hour = "@.len() + dh.len()
                + ", min = "@.len())]);
        }
    }
    lemma_last_line_is(s, q as int, 0);
    assert(last_line(s) == l);
    lemma_find_char(l, ' ', 0);
    assert(l[dk.len() as int] == ' ');
    let p = find_char(l, ' ', 0);
    if p < dk.len() {
        assert(crate::scan::is_digit(dk[p]));
        assert(l[p] == dk[p]);
    }
    assert(p == dk.len());
    assert(l.take(p) =~= dk);
    assert(crate::scan::is_digit(dk[0]));
}

/// No line left after removing a key is the line of that key, and a key
/// that no line carries leaves every line in place.
pub proof fn law_removed_key_is_gone(ls: Seq<Seq<char>>, key: nat)
    ensures
        forall|i: int|
            0 <= i < kept_lines(ls, key).len() ==> !carries_key(
                #[trigger] kept_lines(ls, key)[i],
                key,
            ),
        (forall|i: int| 0 <= i < ls.len() ==> !carries_key(#[trigger] ls[i], key)) ==> kept_lines(
            ls,
            key,
        ) == ls,
    decreases ls.len(),
{
    if ls.len() > 0 {
        law_removed_key_is_gone(ls.drop_last(), key);
        let rest = kept_lines(ls.drop_last(), key);
        if !carries_key(ls.last(), key) {
            assert forall|i: int|
                0 <= i < rest.push(ls.last()).len() implies !carries_key(
                #[trigger] rest.push(ls.last())[i],
                key,
            ) by {
                if i < rest.len() {
                    assert(rest.push(ls.last())[i] == rest[i]);
                }
            }
        }
        if forall|i: int| 0 <= i < ls.len() ==> !carries_key(#[trigger] ls[i], key) {
            assert forall|i: int|
                0 <= i < ls.drop_last().len() implies !carries_key(
                #[trigger] ls.drop_last()[i],
                key,
            ) by {
                assert(ls.drop_last()[i] == ls[i]);
            }
            assert(!carries_key(ls[ls.len() - 1], key));
            assert(ls.drop_last().push(ls.last()) =~= ls);
        }
    } else {
        assert(ls =~= Seq::<Seq<char>>::empty());
    }
}

/// `find_char` from `i` is `j` when `s[i..j]` holds no `c` and `j` is the end
/// of `s` or holds `c`.
proof fn lemma_find_char_is(s: Seq<char>, c: char, i: int, j: int)
    requires
        0 <= i <= j <= s.len(),
        forall|k: int| i <= k < j ==> #[trigger] s[k] != c,
        j == s.len() || s[j] == c,
    ensures
        find_char(s, c, i) == j,
    decreases j - i,
{
    if i < j {
        lemma_find_char_is(s, c, i + 1, j);
    }
}

/// After a line feed, the lines of a text go on as the lines of what follows
/// the line feed.
proof fn lemma_lines_split(q: Seq<char>, t: Seq<char>, i: int)
    requires
        q.len() >= 1,
        q.last() == '\n',
        0 <= i <= q.len(),
    ensures
        lines_from(q + t, i) == lines_from(q, i) + lines_from(q + t, q.len() as int),
    decreases q.len() - i,
{
    let s = q + t;
    if i == q.len() {
        assert(lines_from(q, i) =~= Seq::<Seq<char>>::empty());
        assert(lines_from(q, i) + lines_from(s, i) =~= lines_from(s, i));
    } else {
        lemma_find_char(q, '\n', i);
        let e = find_char(q, '\n', i);
        assert(e < q.len()) by {
            if e >= q.len() {
                assert(q[q.len() - 1] != '\n');
            }
        }
        assert forall|k: int| i <= k < e implies #[trigger] s[k] != '\n' by {
            assert(s[k] == q[k]);
        }
        assert(s[e] == q[e]);
        lemma_find_char_is(s, '\n', i, e);
        lemma_line_step(s, i);
        lemma_line_step(q, i);
        assert(s.subrange(i, e) =~= q.subrange(i, e));
        lemma_lines_split(q, t, e + 1);
        assert(lines_from(s, i) =~= lines_from(q, i) + lines_from(s, q.len() as int));
    }
}

/// The text after `q` is one line `b` (without line feed) when nothing
/// follows, or when one line feed follows and `b` does not end in a carriage
/// return.
proof fn lemma_last_piece(q: Seq<char>, b: Seq<char>, nl: bool)
    requires
        forall|k: int| 0 <= k < b.len() ==> #[trigger] b[k] != '\n',
        nl ==> b.len() == 0 || b.last() != '\r',
        !nl ==> b.len() > 0,
    ensures
        lines_from(q + b + (if nl {
            seq!['\n']
        } else {
            Seq::empty()
        }), q.len() as int) == seq![b],
{
    let tail: Seq<char> = if nl {
        seq!['\n']
    } else {
        Seq::empty()
    };
    let s = q + b + tail;
    let i = q.len() as int;
    let e = i + b.len();
    assert forall|k: int| i <= k < e implies #[trigger] s[k] != '\n' by {
        assert(s[k] == b[k - i]);
    }
    if nl {
        assert(s[e] == '\n');
    } else {
        assert(e == s.len());
    }
    lemma_find_char_is(s, '\n', i, e);
    lemma_line_step(s, i);
    assert(s.subrange(i, e) =~= b);
    assert(lines_from(s, e + 1) =~= Seq::<Seq<char>>::empty());
    assert(lines_from(s, i) =~= seq![b]);
}

/// The entry line of a saved preset, without its leading line feed.
pub open spec fn entry_line(key: nat, hour: nat, minute: Seq<char>) -> Seq<char> {
    decimal(key) + " = {hour = "@ + decimal(hour) + ", min = "@ + minute + "}"@
}

/// A preset file that saves and deletions have written, holding the entries
/// `es` (key, hour of the day, minute text) in order.
pub open spec fn preset_file(es: Seq<(nat, nat, Seq<char>)>) -> Seq<char>
    decreases es.len(),
{
    if es.len() == 0 {
        Seq::empty()
    } else {
        preset_file(es.drop_last()) + preset_line_text(es.last().0, es.last().1, es.last().2)
    }
}

/// The entry lines of `es`.
pub open spec fn entry_lines(es: Seq<(nat, nat, Seq<char>)>) -> Seq<Seq<char>> {
    es.map_values(|e: (nat, nat, Seq<char>)| entry_line(e.0, e.1, e.2))
}

/// Whether no minute text of `es` holds a line feed.
pub open spec fn single_line_minutes(es: Seq<(nat, nat, Seq<char>)>) -> bool {
    forall|i: int, k: int| 0 <= i < es.len() && 0 <= k < es[i].2.len() ==> #[trigger] es[i].2[k] != '\n'
}

/// Whether the keys of `es` rise strictly from first to last.
pub open spec fn keys_increasing(es: Seq<(nat, nat, Seq<char>)>) -> bool {
    forall|i: int, j: int| 0 <= i < j < es.len() ==> #[trigger] es[i].0 < #[trigger] es[j].0
}

/// The entries of `es` whose key is not `key`, in order.
pub open spec fn without_key(es: Seq<(nat, nat, Seq<char>)>, key: nat) -> Seq<(nat, nat, Seq<char>)>
    decreases es.len(),
{
    if es.len() == 0 {
        Seq::empty()
    } else {
        let rest = without_key(es.drop_last(), key);
        if es.last().0 == key {
            rest
        } else {
            rest.push(es.last())
        }
    }
}

/// An entry line starts with a digit, ends with `}` and holds no line feed;
/// its saved line is a line feed and then the entry line.
proof fn lemma_entry_line_shape(key: nat, hour: nat, minute: Seq<char>)
    requires
        forall|k: int| 0 <= k < minute.len() ==> #[trigger] minute[k] != '\n',
    ensures
        preset_line_text(key, hour, minute) == seq!['\n'] + entry_line(key, hour, minute),
        entry_line(key, hour, minute).len() > 0,
        forall|k: int|
            0 <= k < entry_line(key, hour, minute).len() ==> #[trigger] entry_line(
                key,
                hour,
                minute,
            )[k] != '\n',
        entry_line(key, hour, minute).last() == '}',
        crate::scan::is_digit(entry_line(key, hour, minute)[0]),
{
    reveal_strlit("\n");
    reveal_strlit(" = {hour = ");
    reveal_strlit(", min = ");
    reveal_strlit("}");
    let dk = decimal(key);
    let dh = decimal(hour);
    lemma_decimal_digits(key);
    lemma_decimal_digits(hour);
    let l = entry_line(key, hour, minute);
    assert(preset_line_text(key, hour, minute) =~= seq!['\n'] + l);
    let a = dk.len() + " = {hour = "@.len();
    let b = a + dh.len() + ", min = "@.len();
    assert forall|k: int| 0 <= k < l.len() implies #[trigger] l[k] != '\n' by {
        if k < dk.len() {
            assert(l[k] == dk[k]);
            assert(crate::scan::is_digit(dk[k]));
        } else if a <= k < a + dh.len() {
            assert(l[k] == dh[k - a]);
            assert(crate::scan::is_digit(dh[k - a]));
        } else if b <= k < b + minute.len() {
            assert(l[k] == minute[k - b]);
        }
    }
    assert(l[0] == dk[0]);
    assert(crate::scan::is_digit(dk[0]));
}

/// The lines of a preset file, and of a preset file and a line feed.
proof fn lemma_preset_file_lines(es: Seq<(nat, nat, Seq<char>)>)
    requires
        single_line_minutes(es),
    ensures
        lines(preset_file(es) + seq!['\n']) == seq![Seq::<char>::empty()] + entry_lines(es),
        es.len() > 0 ==> lines(preset_file(es)) == seq![Seq::<char>::empty()] + entry_lines(es),
        es.len() == 0 ==> preset_file(es) == Seq::<char>::empty(),
    decreases es.len(),
{
    if es.len() == 0 {
        let s = seq!['\n'];
        assert(preset_file(es) + s =~= s);
        lemma_find_char_is(s, '\n', 0, 0);
        lemma_line_step(s, 0);
        assert(lines_from(s, 1) =~= Seq::<Seq<char>>::empty());
        assert(s.subrange(0, 0) =~= Seq::<char>::empty());
        assert(lines(s) =~= seq![Seq::<char>::empty()] + entry_lines(es));
    } else {
        let p = es.drop_last();
        let e = es.last();
        assert(single_line_minutes(p)) by {
            assert forall|i: int, k: int| 0 <= i < p.len() && 0 <= k < p[i].2.len() implies #[trigger] p[i].2[k] != '\n' by {
                assert(p[i] == es[i]);
            }
        }
        assert forall|k: int| 0 <= k < e.2.len() implies #[trigger] e.2[k] != '\n' by {
            assert(es[es.len() - 1] == e);
        }
        lemma_preset_file_lines(p);
        lemma_entry_line_shape(e.0, e.1, e.2);
        let b = entry_line(e.0, e.1, e.2);
        let q = preset_file(p) + seq!['\n'];
        assert(preset_file(es) =~= q + b);
        assert(entry_lines(es) =~= entry_lines(p).push(b));
        lemma_lines_split(q, b, 0);
        lemma_last_piece(q, b, false);
        assert(q + b + Seq::<char>::empty() =~= q + b);
        assert(lines(preset_file(es)) =~= seq![Seq::<char>::empty()] + entry_lines(es));
        lemma_lines_split(q, b + seq!['\n'], 0);
        lemma_last_piece(q, b, true);
        assert(q + b + seq!['\n'] =~= q + (b + seq!['\n']));
        assert(preset_file(es) + seq!['\n'] =~= q + (b + seq!['\n']));
        assert(lines(preset_file(es) + seq!['\n']) =~= seq![Seq::<char>::empty()] + entry_lines(
            es,
        ));
    }
}

/// An entry line is the line of its own key and of no other.
proof fn lemma_entry_line_key(k: nat, hour: nat, minute: Seq<char>, key: nat)
    ensures
        carries_key(entry_line(k, hour, minute), key) <==> k == key,
{
    reveal_strlit(" = {hour = ");
    reveal_strlit(", min = ");
    reveal_strlit("}");
    let dk = decimal(k);
    lemma_decimal_digits(k);
    let l = entry_line(k, hour, minute);
    let n = l.len() as int;
    assert(l[0] == dk[0]);
    assert(crate::scan::is_digit(dk[0]));
    assert(l[n - 1] == '}');
    lemma_skip_white_is(l, 0, 0);
    assert(trim_end(l, n) == n);
    assert(trim(l) =~= l);
    let p = dk.len() + 1int;
    assert(l[p - 1] == ' ');
    assert(l[p] == '=');
    assert forall|j: int| 0 <= j < p implies #[trigger] l[j] != '=' by {
        if j < dk.len() {
            assert(l[j] == dk[j]);
            assert(crate::scan::is_digit(dk[j]));
        }
    }
    lemma_find_char_is(l, '=', 0, p);
    let t = l.take(p);
    assert(t[0] == dk[0]);
    lemma_skip_white_is(t, 0, 0);
    assert(t[p - 1] == ' ');
    assert(t[p - 2] == dk[p - 2]);
    assert(crate::scan::is_digit(dk[p - 2]));
    assert(trim_end(t, p - 1) == p - 1);
    assert(trim_end(t, p) == p - 1);
    assert(trim(t) =~= dk);
    if dk == decimal(key) {
        lemma_decimal_injective(k, key);
    }
}

/// Every entry kept without a key is an entry of the whole, under another
/// key; and keys that rose stay rising.
proof fn lemma_without_key(es: Seq<(nat, nat, Seq<char>)>, key: nat)
    ensures
        forall|i: int|
            0 <= i < without_key(es, key).len() ==> without_key(es, key)[i].0 != key && exists|
                j: int,
            |
                0 <= j < es.len() && #[trigger] without_key(es, key)[i] == es[j],
        keys_increasing(es) ==> keys_increasing(without_key(es, key)),
    decreases es.len(),
{
    if es.len() > 0 {
        let p = es.drop_last();
        let e = es.last();
        let r = without_key(p, key);
        lemma_without_key(p, key);
        assert forall|i: int| 0 <= i < r.len() implies exists|j: int|
            0 <= j < es.len() && #[trigger] r[i] == es[j] by {
            let j = choose|j: int| 0 <= j < p.len() && r[i] == p[j];
            assert(p[j] == es[j]);
        }
        if e.0 != key {
            let w = r.push(e);
            assert forall|i: int| 0 <= i < w.len() implies w[i].0 != key && exists|j: int|
                0 <= j < es.len() && #[trigger] w[i] == es[j] by {
                if i < r.len() {
                    assert(w[i] == r[i]);
                } else {
                    assert(w[i] == es[es.len() - 1]);
                }
            }
            if keys_increasing(es) {
                assert(keys_increasing(p)) by {
                    assert forall|i: int, j: int| 0 <= i < j < p.len() implies #[trigger] p[i].0
                        < #[trigger] p[j].0 by {
                        assert(p[i] == es[i]);
                        assert(p[j] == es[j]);
                    }
                }
                assert forall|i: int, j: int| 0 <= i < j < w.len() implies #[trigger] w[i].0
                    < #[trigger] w[j].0 by {
                    if j < r.len() {
                        assert(w[i] == r[i]);
                        assert(w[j] == r[j]);
                    } else {
                        assert(w[i] == r[i]);
                        let a = choose|a: int| 0 <= a < p.len() && r[i] == p[a];
                        assert(p[a] == es[a]);
                        assert(es[a].0 < es[es.len() - 1].0);
                    }
                }
            }
        } else if keys_increasing(es) {
            assert forall|i: int, j: int| 0 <= i < j < p.len() implies #[trigger] p[i].0
                < #[trigger] p[j].0 by {
                assert(p[i] == es[i]);
                assert(p[j] == es[j]);
            }
        }
    }
}

/// Dropping the lines of a key from the lines of a preset file leaves the
/// empty first line and the entry lines of the other keys.
proof fn lemma_kept_entry_lines(es: Seq<(nat, nat, Seq<char>)>, key: nat)
    ensures
        kept_lines(seq![Seq::<char>::empty()] + entry_lines(es), key) == seq![Seq::<char>::empty()]
            + entry_lines(without_key(es, key)),
    decreases es.len(),
{
    let first = seq![Seq::<char>::empty()];
    if es.len() == 0 {
        assert(first + entry_lines(es) =~= first);
        assert(first.drop_last() =~= Seq::<Seq<char>>::empty());
        assert(trim(Seq::<char>::empty()) =~= Seq::<char>::empty());
        assert(find_char(Seq::<char>::empty(), '=', 0) == 0);
        assert(!carries_key(Seq::<char>::empty(), key));
        assert(first.last() == Seq::<char>::empty());
        assert(kept_lines(Seq::<Seq<char>>::empty(), key) =~= Seq::<Seq<char>>::empty());
        assert(kept_lines(first, key) =~= first);
        assert(first + entry_lines(without_key(es, key)) =~= first);
    } else {
        let p = es.drop_last();
        let e = es.last();
        let b = entry_line(e.0, e.1, e.2);
        lemma_kept_entry_lines(p, key);
        lemma_entry_line_key(e.0, e.1, e.2, key);
        assert(first + entry_lines(es) =~= (first + entry_lines(p)).push(b));
        assert((first + entry_lines(p)).push(b).drop_last() =~= first + entry_lines(p));
        if e.0 == key {
            assert(kept_lines(first + entry_lines(es), key) == kept_lines(first + entry_lines(p), key));
        } else {
            assert(entry_lines(without_key(p, key).push(e)) =~= entry_lines(without_key(p, key)).push(
                b,
            ));
            assert(first + entry_lines(without_key(es, key)) =~= (first + entry_lines(
                without_key(p, key),
            )).push(b));
        }
    }
}

/// The empty first line and the entry lines of `es`, joined with line feeds,
/// are the preset file of `es`.
proof fn lemma_join_entry_lines(es: Seq<(nat, nat, Seq<char>)>)
    requires
        single_line_minutes(es),
    ensures
        join_lines(seq![Seq::<char>::empty()] + entry_lines(es)) == preset_file(es),
    decreases es.len(),
{
    let first = seq![Seq::<char>::empty()];
    if es.len() == 0 {
        assert(first + entry_lines(es) =~= first);
    } else {
        let p = es.drop_last();
        let e = es.last();
        assert(single_line_minutes(p)) by {
            assert forall|i: int, k: int| 0 <= i < p.len() && 0 <= k < p[i].2.len() implies #[trigger] p[i].2[k] != '\n' by {
                assert(p[i] == es[i]);
            }
        }
        assert forall|k: int| 0 <= k < e.2.len() implies #[trigger] e.2[k] != '\n' by {
            assert(es[es.len() - 1] == e);
        }
        lemma_join_entry_lines(p);
        lemma_entry_line_shape(e.0, e.1, e.2);
        let b = entry_line(e.0, e.1, e.2);
        let ls = first + entry_lines(p);
        assert(first + entry_lines(es) =~= ls.push(b));
        assert(ls.push(b).drop_last() =~= ls);
        assert(join_lines(ls.push(b)) == join_lines(ls) + seq!['\n'] + b);
        assert(preset_file(es) =~= preset_file(p) + seq!['\n'] + b);
    }
}

/// Deleting the presets of `key` from a preset file of entries with rising
/// keys leaves the file of the other entries: no line of `key` is left, and
/// the keys still rise.
pub proof fn law_delete_keeps_keys_increasing(es: Seq<(nat, nat, Seq<char>)>, key: nat)
    requires
        keys_increasing(es),
        single_line_minutes(es),
    ensures
        join_lines(kept_lines(lines(preset_file(es)), key)) == preset_file(without_key(es, key)),
        keys_increasing(without_key(es, key)),
        forall|i: int| 0 <= i < without_key(es, key).len() ==> #[trigger] without_key(es, key)[i].0 != key,
{
    lemma_without_key(es, key);
    let w = without_key(es, key);
    assert(single_line_minutes(w)) by {
        assert forall|i: int, k: int| 0 <= i < w.len() && 0 <= k < w[i].2.len() implies #[trigger] w[i].2[k] != '\n' by {
            let j = choose|j: int| 0 <= j < es.len() && w[i] == es[j];
            assert(es[j].2[k] != '\n');
        }
    }
    lemma_preset_file_lines(es);
    if es.len() == 0 {
        assert(lines(preset_file(es)) =~= Seq::<Seq<char>>::empty());
        assert(w =~= Seq::<(nat, nat, Seq<char>)>::empty());
    } else {
        lemma_kept_entry_lines(es, key);
        lemma_join_entry_lines(w);
    }
}

/// Saving a preset on a preset file of entries with rising keys appends the
/// entry with the next key, 1 for an empty file and one more than the last
/// key otherwise; the keys still rise, so a new key never equals a kept one.
pub proof fn law_save_keeps_keys_increasing(
    es: Seq<(nat, nat, Seq<char>)>,
    hour: nat,
    minute: Seq<char>,
)
    requires
        keys_increasing(es),
        single_line_minutes(es),
        forall|k: int| 0 <= k < minute.len() ==> #[trigger] minute[k] != '\n',
        es.len() == 0 || es.last().0 < u32::MAX,
    ensures
        ({
            let k: nat = if es.len() == 0 {
                1
            } else {
                es.last().0 + 1
            };
            &&& next_key(preset_file(es)) == Some(k as int)
            &&& preset_file(es) + preset_line_text(k, hour, minute) == preset_file(
                es.push((k, hour, minute)),
            )
            &&& keys_increasing(es.push((k, hour, minute)))
        }),
{
    let k: nat = if es.len() == 0 {
        1
    } else {
        es.last().0 + 1
    };
    let x = (k, hour, minute);
    assert(es.push(x).drop_last() =~= es);
    if es.len() == 0 {
        reveal_strlit("0 ");
        let s = preset_file(es);
        assert(s =~= Seq::<char>::empty());
        assert(lines(s) =~= Seq::<Seq<char>>::empty());
        let l = "0 "@;
        lemma_find_char_is(l, ' ', 0, 1);
        assert(l.take(1) =~= seq!['0']);
        assert(seq!['0'].drop_last() =~= Seq::<char>::empty());
        assert(crate::scan::is_digit('0'));
        assert(seq!['0'].last() == '0');
        assert('0' as u32 == 48);
        assert(crate::scan::digits_value(Seq::<char>::empty()) == 0);
        assert(crate::scan::digits_value(seq!['0']) == 0);
    } else {
        let p = es.drop_last();
        let e = es.last();
        assert forall|j: int| 0 <= j < e.2.len() implies #[trigger] e.2[j] != '\n' by {
            assert(es[es.len() - 1] == e);
        }
        assert(preset_file(es) == preset_file(p) + preset_line_text(e.0, e.1, e.2));
        law_saved_key_reads_back(preset_file(p), e.0, e.1, e.2);
    }
    let w = es.push(x);
    assert forall|i: int, j: int| 0 <= i < j < w.len() implies #[trigger] w[i].0 < #[trigger] w[j].0 by {
        if j < es.len() {
            assert(w[i] == es[i]);
            assert(w[j] == es[j]);
        } else {
            assert(w[i] == es[i]);
            if i < es.len() - 1 {
                assert(es[i].0 < es[es.len() - 1].0);
            }
        }
    }
}

} // verus!
