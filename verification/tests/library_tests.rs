use wayvol::monitor::{
    Debouncer, MonitorAction, MonitorEvent, MonitorInput, Phase, PwDumpWatch, COOLDOWN_MS,
    REFRESH_DELAY_MS,
};
use wayvol::text::{chars_of, parse_u32_of, split_lines, string_from_chars};
use wayvol::volume::Volume;
use wayvol::window::{
    apply_volume_info, available_devices, default_device_index, mute_icon, percent_label,
    plan_stream_refresh, same_ids, stream_change_announcement, stream_ids, stream_subtitle,
    streams_description, volume_label,
};
use wayvol::wpctl::pactl::availability_args;
use wayvol::wpctl::{
    app_name_or_stream_name, command_output, enrich_device_availability, get_app_name, get_status, get_volume,
    mute_description, parse_app_name, parse_devices, parse_stream_line, parse_streams,
    parse_volume, set_default, slider_description, stream_description, toggle_mute, Device,
    DeviceType, Stream, StreamType, VolumeInfo, WpctlError,
};

fn parse_level(s: &str) -> Option<Volume> {
    Volume::read(&chars_of(s))
}

fn stream(id: u32, name: &str, micros: i64, muted: bool) -> Stream {
    Stream {
        id,
        name: name.to_string(),
        stream_type: StreamType::Playback,
        volume: Volume::Level(micros),
        muted,
    }
}

fn device(id: u32, name: &str, is_default: bool, available: Option<bool>) -> Device {
    Device {
        id,
        name: name.to_string(),
        is_default,
        available,
    }
}

// --- volume numbers -------------------------------------------------------

#[test]
fn volume_numbers_in_the_forms_wpctl_prints() {
    assert_eq!(parse_level("0.75"), Some(Volume::Level(750_000)));
    assert_eq!(parse_level("1.50"), Some(Volume::Level(1_500_000)));
    assert_eq!(parse_level("0"), Some(Volume::Level(0)));
    assert_eq!(parse_level("+.5"), Some(Volume::Level(500_000)));
    assert_eq!(parse_level("2."), Some(Volume::Level(2_000_000)));
}

#[test]
fn volume_numbers_keep_six_fraction_digits() {
    assert_eq!(parse_level("0.1234567"), Some(Volume::Level(123_456)));
}

#[test]
fn volume_numbers_that_are_refused() {
    assert_eq!(parse_level(""), None);
    assert_eq!(parse_level("."), None);
    assert_eq!(parse_level("abc"), None);
    assert_eq!(parse_level("1.2.3"), None);
    assert_eq!(parse_level("1e"), None);
    assert_eq!(parse_level("1e+"), None);
    assert_eq!(parse_level("e5"), None);
    assert_eq!(parse_level("+-1"), None);
    assert_eq!(parse_level("infin"), None);
    assert_eq!(parse_level("1e2e3"), None);
}

#[test]
fn volume_numbers_with_exponents() {
    assert_eq!(parse_level("1e0"), Some(Volume::Level(1_000_000)));
    assert_eq!(parse_level("1.5E-1"), Some(Volume::Level(150_000)));
    assert_eq!(parse_level("75e-2"), Some(Volume::Level(750_000)));
    assert_eq!(parse_level(".5e+1"), Some(Volume::Level(5_000_000)));
    assert_eq!(parse_level("1e-400"), Some(Volume::Level(0)));
    assert_eq!(
        parse_level("0e99999999999999999999999999"),
        Some(Volume::Level(0))
    );
}

#[test]
fn negative_infinite_and_nan_levels_are_read() {
    assert_eq!(parse_level("-0"), Some(Volume::Level(0)));
    assert_eq!(parse_level("-0.0e5"), Some(Volume::Level(0)));
    assert_eq!(parse_level("-1"), Some(Volume::Level(-1_000_000)));
    assert_eq!(parse_level("-0.5"), Some(Volume::Level(-500_000)));
    assert_eq!(parse_level("-0.1234567"), Some(Volume::Level(-123_456)));
    assert_eq!(parse_level("inf"), Some(Volume::Saturated { negative: false }));
    assert_eq!(parse_level("-Infinity"), Some(Volume::Saturated { negative: true }));
    assert_eq!(parse_level("NaN"), Some(Volume::NotANumber));
    assert_eq!(parse_level("-nan"), Some(Volume::NotANumber));
    assert_eq!(parse_level("1e400"), Some(Volume::Saturated { negative: false }));
    assert_eq!(
        parse_level("-1e99999999999999999999999999"),
        Some(Volume::Saturated { negative: true })
    );
    assert_eq!(parse_level("99999999999999999999"), Some(Volume::Saturated { negative: false }));
    assert_eq!(parse_level("9223372036854.775807"), Some(Volume::Level(i64::MAX)));
    assert_eq!(parse_level("9223372036854.775808"), Some(Volume::Saturated { negative: false }));
}

#[test]
fn every_float_token_is_read() {
    for tok in [
        "0.75", "1e0", "2.5E1", "+3", "-0", "0.001", "1.50", "7.", "-1", "-2.5e-1", "inf",
        "-inf", "NaN", "INFINITY", "1e400",
    ] {
        let f: f64 = tok.parse().unwrap();
        let v = parse_level(tok).unwrap();
        match v {
            Volume::Level(m) => assert_eq!(m, (f * 1_000_000.0).round() as i64, "for {}", tok),
            Volume::Saturated { negative } => {
                assert!(f.is_infinite() && (f < 0.0) == negative, "for {}", tok)
            }
            Volume::NotANumber => assert!(f.is_nan(), "for {}", tok),
        }
    }
}

#[test]
fn percent_rounds_halves_away_from_zero() {
    assert_eq!(Volume::Level(5_000).percent(), 1);
    assert_eq!(Volume::Level(4_999).percent(), 0);
    assert_eq!(Volume::Level(333_000).percent(), 33);
    assert_eq!(Volume::Level(1_000_000).percent(), 100);
    assert_eq!(Volume::Level(-5_000).percent(), -1);
    assert_eq!(Volume::Level(-4_999).percent(), 0);
    assert_eq!(Volume::Level(-1_000_000).percent(), -100);
    assert_eq!(Volume::Level(i64::MAX).percent(), i32::MAX);
    assert_eq!(Volume::Level(i64::MIN).percent(), i32::MIN);
    assert_eq!(Volume::Saturated { negative: false }.percent(), i32::MAX);
    assert_eq!(Volume::Saturated { negative: true }.percent(), i32::MIN);
    assert_eq!(Volume::NotANumber.percent(), 0);
}

#[test]
fn percent_is_monotone_on_examples() {
    let levels = [-1_000_000i64, -5_000, -4_999, 0, 4_999, 5_000, 994_999, 995_000, 1_000_000, 1_500_000];
    for w in levels.windows(2) {
        assert!(Volume::Level(w[0]).percent() <= Volume::Level(w[1]).percent());
    }
}

// --- get-volume output ------------------------------------------------------

#[test]
fn parse_volume_error_messages() {
    match parse_volume("Something else") {
        Err(WpctlError::ParseError(m)) => {
            assert_eq!(m, "unexpected volume format: Something else")
        }
        other => panic!("unexpected {:?}", other),
    }
    match parse_volume("Volume: notanumber") {
        Err(WpctlError::ParseError(m)) => {
            assert_eq!(m, "invalid volume number 'notanumber': invalid float literal")
        }
        other => panic!("unexpected {:?}", other),
    }
}

#[test]
fn parse_volume_reads_every_float() {
    let info = parse_volume("Volume: 1e0").unwrap();
    assert_eq!(info.volume, Volume::Level(1_000_000));
    let info = parse_volume("Volume: -1").unwrap();
    assert_eq!(info.volume, Volume::Level(-1_000_000));
    assert!(!info.muted);
    let info = parse_volume("Volume: inf [MUTED]").unwrap();
    assert_eq!(info.volume, Volume::Saturated { negative: false });
    assert!(info.muted);
    let info = parse_volume("Volume: NaN").unwrap();
    assert_eq!(info.volume, Volume::NotANumber);
}

#[test]
fn parse_volume_trims_and_reads_muted() {
    let info = parse_volume("  Volume: 0.40 [MUTED]\n").unwrap();
    assert_eq!(
        info,
        VolumeInfo {
            volume: Volume::Level(400_000),
            muted: true
        }
    );
}

// --- commands ---------------------------------------------------------------

#[test]
fn requests_carry_the_wpctl_arguments() {
    assert_eq!(get_status().args, vec!["status"]);
    assert_eq!(get_volume(47).args, vec!["get-volume", "47"]);
    assert_eq!(toggle_mute(48).args, vec!["set-mute", "48", "toggle"]);
    assert_eq!(set_default(0).args, vec!["set-default", "0"]);
    assert_eq!(get_app_name(4294967295).args, vec!["inspect", "4294967295"]);
    assert_eq!(availability_args(DeviceType::Sink), vec!["list", "sinks"]);
    assert_eq!(availability_args(DeviceType::Source), vec!["list", "sources"]);
}

#[test]
fn ids_written_into_requests_parse_back() {
    for id in [0u32, 7, 47, 1000, u32::MAX] {
        let arg = &get_volume(id).args[1];
        assert_eq!(parse_u32_of(&chars_of(arg)), Some(id));
    }
}

#[test]
fn parse_u32_follows_str_parse() {
    assert_eq!(parse_u32_of(&chars_of("+12")), Some(12));
    assert_eq!(parse_u32_of(&chars_of("+")), None);
    assert_eq!(parse_u32_of(&chars_of("-1")), None);
    assert_eq!(parse_u32_of(&chars_of("4294967296")), None);
    assert_eq!(parse_u32_of(&chars_of("12a")), None);
    assert_eq!(parse_u32_of(&chars_of("")), None);
}

#[test]
fn command_output_success_and_failure() {
    let req = toggle_mute(47);
    match command_output(&req, true, "done\n".to_string(), "") {
        Ok(out) => assert_eq!(out, "done\n"),
        Err(e) => panic!("unexpected {:?}", e),
    }
    match command_output(&req, false, String::new(), "no such object") {
        Err(WpctlError::CommandFailed(m)) => {
            assert_eq!(m, "wpctl set-mute 47 toggle failed: no such object")
        }
        other => panic!("unexpected {:?}", other),
    }
}

// --- inspect output -------------------------------------------------------

#[test]
fn app_name_from_inspect_output() {
    let out = "id 87, type PipeWire:Interface:Node\n    application.name = \"Firefox\"\n    media.class = \"Stream/Output/Audio\"\n";
    assert_eq!(parse_app_name(out), Some("Firefox".to_string()));
}

#[test]
fn app_name_skips_empty_values_and_stops_without_equals() {
    let out = "application.name = \"\"\napplication.name = mpv\n";
    assert_eq!(parse_app_name(out), Some("mpv".to_string()));
    let out = "application.name\napplication.name = mpv\n";
    assert_eq!(parse_app_name(out), None);
    assert_eq!(parse_app_name("media.class = x\n"), None);
}

#[test]
fn app_name_falls_back_to_stream_name() {
    assert_eq!(
        app_name_or_stream_name(Some("application.name = \"Firefox\"\n"), "Stream 1"),
        "Firefox"
    );
    assert_eq!(app_name_or_stream_name(None, "RHVoice"), "RHVoice");
    assert_eq!(app_name_or_stream_name(Some("media.class = x\n"), "mpv"), "mpv");
}

// --- status output ----------------------------------------------------------

#[test]
fn stream_line_without_volume_is_full_and_unmuted() {
    let s = parse_stream_line("87. RHVoice", StreamType::Playback).unwrap();
    assert_eq!(s.id, 87);
    assert_eq!(s.name, "RHVoice");
    assert_eq!(s.volume, Volume::Level(1_000_000));
    assert!(!s.muted);
}

#[test]
fn stream_line_keeps_negative_and_infinite_volumes() {
    let s = parse_stream_line("│  7. Odd   [vol: -0.25]", StreamType::Playback).unwrap();
    assert_eq!(s.volume, Volume::Level(-250_000));
    let s = parse_stream_line("│  8. Odd   [vol: inf MUTED]", StreamType::Playback).unwrap();
    assert_eq!(s.volume, Volume::Saturated { negative: false });
    assert!(s.muted);
    let s = parse_stream_line("│  9. Odd   [vol: nan]", StreamType::Playback).unwrap();
    assert_eq!(s.volume, Volume::NotANumber);
}

#[test]
fn stream_line_with_unreadable_volume_defaults_to_full() {
    let s = parse_stream_line("│  5. X   [vol: loud MUTED]", StreamType::Capture).unwrap();
    assert_eq!(s.volume, Volume::Level(1_000_000));
    assert!(s.muted);
    assert!(parse_stream_line("│  6. Y   [vol:", StreamType::Capture).is_none());
    let s = parse_stream_line("│  6. Y   [vol:]", StreamType::Capture).unwrap();
    assert_eq!(s.name, "Y");
    assert_eq!(s.volume, Volume::Level(1_000_000));
}

#[test]
fn stream_line_without_id_or_name() {
    assert!(parse_stream_line("│  Firefox", StreamType::Playback).is_none());
    assert!(parse_stream_line("│  x1. Firefox", StreamType::Playback).is_none());
    assert!(parse_stream_line("│  12.   [vol: 0.50]", StreamType::Playback).is_none());
}

#[test]
fn streams_with_crlf_line_endings() {
    let status = "Audio\r\n ├─ Sink Inputs:\r\n │      47. Firefox   [vol: 0.75]\r\n";
    let streams = parse_streams(status);
    assert_eq!(streams.len(), 1);
    assert_eq!(streams[0].name, "Firefox");
}

#[test]
fn routing_lines_in_streams_section_are_skipped() {
    let status = "Audio\n └─ Streams:\n        87. RHVoice\n             88. output_FL > Headphones:playback_FL\n";
    let streams = parse_streams(status);
    assert_eq!(streams.len(), 1);
    assert_eq!(streams[0].id, 87);
}

#[test]
fn streams_section_outside_audio_lists_nothing() {
    let status = "Video\n └─ Streams:\n        99. OBS Virtual Camera\nSettings\n └─ Streams:\n        98. Other\n";
    assert!(parse_streams(status).is_empty());
}

#[test]
fn other_headers_close_stream_sections() {
    let status = "Audio\n ├─ Sink Inputs:\n │      47. Firefox   [vol: 0.75]\n ├─ Sources:\n │  *   49. Mic   [vol: 1.00]\n";
    let streams = parse_streams(status);
    assert_eq!(streams.len(), 1);
    assert_eq!(streams[0].id, 47);
}

#[test]
fn every_parsed_stream_and_device_is_named() {
    let status = "Audio\n ├─ Sinks:\n │  *   46. Speakers [vol: 0.60]\n │  *   47.  [vol: 0.60]\n\n ├─ Sink Inputs:\n │  48.  [vol: 0.75]\n │  49. Mpv\n";
    let streams = parse_streams(status);
    assert_eq!(streams.len(), 1);
    assert!(streams.iter().all(|s| !s.name.is_empty()));
    let devices = parse_devices(status, DeviceType::Sink);
    assert_eq!(devices.len(), 1);
    assert!(devices.iter().all(|d| !d.name.is_empty() && d.available.is_none()));
}

#[test]
fn device_section_ends_at_blank_line() {
    let status = " ├─ Sinks:\n │  *   46. Speakers [vol: 0.60]\n\n │      55. Later [vol: 1.00]\n";
    let devices = parse_devices(status, DeviceType::Sink);
    assert_eq!(devices.len(), 1);
    assert_eq!(devices[0].name, "Speakers");
}

#[test]
fn split_lines_follows_str_lines() {
    for text in ["", "a", "a\n", "a\nb", "a\r\nb\r\n", "\n\n", "a\rb", "x\r"] {
        let expected: Vec<String> = text.lines().map(|l| l.to_string()).collect();
        let got: Vec<String> = split_lines(&chars_of(text))
            .into_iter()
            .map(string_from_chars)
            .collect();
        assert_eq!(got, expected, "for {:?}", text);
    }
}

// --- pactl availability --------------------------------------------------

const PACTL_SINKS: &str = "Sink #46
\tState: RUNNING
\tName: alsa_output.pci-0000_00_1f.3.analog-stereo
\tPorts:
\t\t[Out] Headphones: Headphones (type: Headphones, priority: 200, availability group: Legacy 2, available)
\tActive Port: [Out] Headphones
Sink #55
\tPorts:
\t\t[Out] HDMI3: HDMI / DisplayPort 3 (type: HDMI, priority: 5900, not available)
\tFormats:
\t\tpcm
";

#[test]
fn availability_from_pactl_ports() {
    let mut devices = vec![
        device(46, "Built-in Audio Analog Stereo", true, None),
        device(55, "HDMI Output", false, None),
        device(60, "USB", false, None),
    ];
    enrich_device_availability(&mut devices, PACTL_SINKS);
    assert_eq!(devices[0].available, Some(true));
    assert_eq!(devices[1].available, Some(false));
    assert_eq!(devices[2].available, None);
    // Nothing but availability changes.
    assert_eq!(devices[0].name, "Built-in Audio Analog Stereo");
    assert!(devices[0].is_default);
    assert_eq!(
        devices.iter().map(|d| d.id).collect::<Vec<_>>(),
        vec![46, 55, 60]
    );
}

#[test]
fn unplugged_devices_are_not_offered() {
    let mut devices = vec![
        device(46, "Built-in Audio Analog Stereo", true, None),
        device(55, "HDMI Output", false, None),
    ];
    enrich_device_availability(&mut devices, PACTL_SINKS);
    let offered = available_devices(devices);
    assert_eq!(offered.len(), 1);
    assert_eq!(offered[0].id, 46);
}

#[test]
fn default_index_is_last_default_or_zero() {
    let ds = vec![
        device(1, "a", false, None),
        device(2, "b", true, None),
        device(3, "c", true, None),
        device(4, "d", false, None),
    ];
    assert_eq!(default_device_index(&ds), 2);
    let none = vec![device(1, "a", false, None), device(2, "b", false, None)];
    assert_eq!(default_device_index(&none), 0);
    assert_eq!(default_device_index(&Vec::new()), 0);
}

// --- the stream list ------------------------------------------------------

#[test]
fn refresh_is_skipped_when_ids_are_unchanged() {
    let streams = vec![stream(47, "Firefox", 750_000, false)];
    assert!(plan_stream_refresh(&vec![47], &streams).is_none());
    assert!(same_ids(&stream_ids(&streams), &vec![47]));
}

#[test]
fn refresh_is_skipped_when_the_same_streams_are_reordered() {
    let streams = vec![
        stream(48, "mpv", 1_000_000, false),
        stream(47, "Firefox", 750_000, false),
    ];
    assert!(plan_stream_refresh(&vec![47, 48], &streams).is_none());
    assert!(same_ids(&vec![1, 2, 2], &vec![2, 1, 2]));
    assert!(same_ids(&vec![1, 2, 2], &vec![2, 1, 1]));
    assert!(same_ids(&vec![1, 2], &vec![1, 2, 2]));
    assert!(!same_ids(&vec![1, 2], &vec![1, 3]));
    assert!(!same_ids(&vec![1, 2], &vec![1]));
    let one = vec![stream(1, "mpv", 1_000_000, false)];
    assert!(plan_stream_refresh(&vec![1, 1], &one).is_none());
}

#[test]
fn refresh_plan_when_streams_appear() {
    let streams = vec![
        stream(47, "Firefox", 750_000, false),
        stream(48, "mpv", 1_000_000, false),
        stream(49, "Discord", 800_000, true),
    ];
    let plan = plan_stream_refresh(&vec![47], &streams).unwrap();
    assert_eq!(plan.ids, vec![47, 48, 49]);
    assert_eq!(plan.description, "3 active audio streams");
    assert_eq!(
        plan.announcement.as_deref(),
        Some("2 new audio streams appeared")
    );
    let first = plan_stream_refresh(&Vec::new(), &streams).unwrap();
    assert_eq!(first.ids, vec![47, 48, 49]);
    assert_eq!(first.announcement, None);
}

#[test]
fn descriptions_and_announcements() {
    assert_eq!(streams_description(0), "No active audio streams");
    assert_eq!(streams_description(1), "1 active audio stream");
    assert_eq!(streams_description(12), "12 active audio streams");
    assert_eq!(
        stream_change_announcement(&vec![1], &vec![1, 2]).as_deref(),
        Some("New audio stream appeared")
    );
    assert_eq!(
        stream_change_announcement(&vec![4], &vec![]).as_deref(),
        Some("Audio stream removed")
    );
    assert_eq!(stream_change_announcement(&vec![], &vec![4]), None);
    assert_eq!(
        stream_change_announcement(&vec![1, 2, 3], &vec![1, 3]).as_deref(),
        Some("Audio stream removed")
    );
    assert_eq!(
        stream_change_announcement(&vec![1, 2, 3, 4, 5], &vec![1, 2]).as_deref(),
        Some("3 audio streams removed")
    );
    assert_eq!(
        stream_change_announcement(&vec![1, 2], &vec![1, 3]).as_deref(),
        Some("New audio stream appeared. Audio stream removed")
    );
    assert_eq!(stream_change_announcement(&vec![1, 2], &vec![2, 1]), None);
    assert_eq!(stream_change_announcement(&vec![], &vec![]), None);
}

#[test]
fn row_texts() {
    let mut s = stream(47, "Firefox", 750_000, false);
    assert_eq!(stream_subtitle(&s), "Playback");
    assert_eq!(volume_label(&s), "75%");
    apply_volume_info(
        &mut s,
        VolumeInfo {
            volume: Volume::Level(1_500_000),
            muted: true,
        },
    );
    assert_eq!(stream_subtitle(&s), "Playback · Muted");
    assert_eq!(volume_label(&s), "150%");
    assert_eq!(mute_icon(true), "audio-volume-muted-symbolic");
    assert_eq!(mute_icon(false), "audio-volume-high-symbolic");
    assert_eq!(percent_label(-5), "-5%");
}

#[test]
fn description_helpers() {
    assert_eq!(
        stream_description("Discord", "Capture", 50, true),
        "Discord Capture stream, 50%, muted"
    );
    assert_eq!(slider_description("Test", 33), "Test volume, 33%");
    assert_eq!(mute_description("Firefox", false), "Mute Firefox");
    assert_eq!(mute_description("Firefox", true), "Unmute Firefox");
}

// --- monitor --------------------------------------------------------------

#[test]
fn pw_dump_dump_over_several_lines() {
    let mut w = PwDumpWatch::new();
    assert!(!w.feed_line("["));
    assert!(!w.feed_line("  { \"id\": 30, \"info\": { \"props\": [] } },"));
    assert!(w.feed_line("]"));
    assert_eq!(w.depth, 0);
    assert!(w.feed_line("[ { \"id\": 31 } ]"));
    assert!(!w.feed_line("no brackets"));
}

#[test]
fn pw_dump_line_breaks_do_not_matter() {
    let text = "[ { \"a\": [1, 2] },\n { \"b\": [] } ]";
    let mut split = PwDumpWatch::new();
    let mut changed = false;
    for line in text.lines() {
        changed = split.feed_line(line);
    }
    let mut whole = PwDumpWatch::new();
    let whole_changed = whole.feed_line(&text.replace('\n', ""));
    assert_eq!(split.depth, whole.depth);
    assert!(changed && whole_changed);
}

#[test]
fn watch_tells_whether_a_line_fits() {
    let w = PwDumpWatch { depth: i32::MAX };
    assert!(!w.can_feed("["));
    assert!(w.can_feed("]["));
    assert!(PwDumpWatch::new().can_feed("[[]]"));
}

#[test]
fn debouncer_coalesces_bursts() {
    let mut d = Debouncer::new();
    let mut scheduled = 0;
    for t in 0..5u64 {
        if let MonitorAction::ScheduleRefresh(delay) =
            d.step(MonitorInput::Event(MonitorEvent::StreamsChanged), t * 10)
        {
            assert_eq!(delay, REFRESH_DELAY_MS);
            scheduled += 1;
        }
    }
    assert_eq!(scheduled, 1);
    assert!(d.refresh_scheduled());
    // A timer that comes too early does nothing.
    assert!(matches!(d.step(MonitorInput::RefreshDue, 499), MonitorAction::Nothing));
    assert!(matches!(
        d.step(MonitorInput::RefreshDue, 500),
        MonitorAction::RefreshAndCooldown(c) if c == COOLDOWN_MS
    ));
    assert!(matches!(
        d.step(MonitorInput::Event(MonitorEvent::StreamsChanged), 600),
        MonitorAction::Nothing
    ));
    assert!(matches!(d.step(MonitorInput::CooldownOver, 999), MonitorAction::Nothing));
    assert_eq!(d.phase, Phase::Cooling { since: 500 });
    assert!(matches!(d.step(MonitorInput::CooldownOver, 1000), MonitorAction::Nothing));
    assert_eq!(d.phase, Phase::Idle);
    assert!(matches!(
        d.step(MonitorInput::Event(MonitorEvent::StreamsChanged), 1000),
        MonitorAction::ScheduleRefresh(_)
    ));
    assert!(matches!(d.step(MonitorInput::RefreshDue, 1499), MonitorAction::Nothing));
    // The second refresh comes a second after the first.
    assert!(matches!(
        d.step(MonitorInput::RefreshDue, 1500),
        MonitorAction::RefreshAndCooldown(_)
    ));
}

#[test]
fn debouncer_announces_errors() {
    let mut d = Debouncer::new();
    match d.step(
        MonitorInput::Event(MonitorEvent::Error("pipe closed".to_string())),
        0,
    ) {
        MonitorAction::Announce(m) => assert_eq!(m, "Audio monitor error: pipe closed"),
        other => panic!("unexpected {:?}", other),
    }
    assert!(!d.refresh_scheduled());
}
