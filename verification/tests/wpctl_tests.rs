use wayvol::volume::Volume;
use wayvol::wpctl::{
    accessible_label, mute_button_label, parse_device_line, parse_devices, parse_stream_line,
    parse_streams, parse_volume, slider_accessible_label, DeviceType, Stream, StreamType,
};

fn level(v: Volume) -> f64 {
    match v {
        Volume::Level(m) => m as f64 / 1_000_000.0,
        Volume::Saturated { negative: true } => f64::NEG_INFINITY,
        Volume::Saturated { negative: false } => f64::INFINITY,
        Volume::NotANumber => f64::NAN,
    }
}

fn volume_of(level: f64) -> Volume {
    Volume::Level((level * 1_000_000.0).round() as i64)
}

#[test]
fn test_parse_volume_normal() {
    let info = parse_volume("Volume: 0.75").unwrap();
    assert!((level(info.volume) - 0.75).abs() < f64::EPSILON);
    assert!(!info.muted);
}

#[test]
fn test_parse_volume_muted() {
    let info = parse_volume("Volume: 0.50 [MUTED]").unwrap();
    assert!((level(info.volume) - 0.50).abs() < f64::EPSILON);
    assert!(info.muted);
}

#[test]
fn test_parse_volume_full() {
    let info = parse_volume("Volume: 1.00").unwrap();
    assert!((level(info.volume) - 1.0).abs() < f64::EPSILON);
    assert!(!info.muted);
}

#[test]
fn test_parse_volume_boost() {
    let info = parse_volume("Volume: 1.50").unwrap();
    assert!((level(info.volume) - 1.50).abs() < f64::EPSILON);
}

#[test]
fn test_parse_volume_zero() {
    let info = parse_volume("Volume: 0.00 [MUTED]").unwrap();
    assert!((level(info.volume) - 0.0).abs() < f64::EPSILON);
    assert!(info.muted);
}

#[test]
fn test_parse_volume_invalid() {
    assert!(parse_volume("Something else").is_err());
    assert!(parse_volume("Volume: notanumber").is_err());
}

#[test]
fn test_parse_stream_line_playback() {
    let stream =
        parse_stream_line("│  *   47. Firefox                 [vol: 0.75]", StreamType::Playback)
            .unwrap();
    assert_eq!(stream.id, 47);
    assert_eq!(stream.name, "Firefox");
    assert!((level(stream.volume) - 0.75).abs() < f64::EPSILON);
    assert!(!stream.muted);
    assert_eq!(stream.stream_type, StreamType::Playback);
}

#[test]
fn test_parse_stream_line_muted() {
    let stream = parse_stream_line(
        "│      48. Discord          [vol: 1.00 MUTED]",
        StreamType::Playback,
    )
    .unwrap();
    assert_eq!(stream.id, 48);
    assert_eq!(stream.name, "Discord");
    assert!(stream.muted);
}

#[test]
fn test_parse_stream_line_capture() {
    let stream = parse_stream_line(
        "│      52. OBS Studio       [vol: 0.80]",
        StreamType::Capture,
    )
    .unwrap();
    assert_eq!(stream.id, 52);
    assert_eq!(stream.stream_type, StreamType::Capture);
}

#[test]
fn test_parse_stream_line_empty() {
    assert!(parse_stream_line("│", StreamType::Playback).is_none());
    assert!(parse_stream_line("", StreamType::Playback).is_none());
}

#[test]
fn test_parse_stream_line_section_header() {
    assert!(parse_stream_line("│  Sink Inputs:", StreamType::Playback).is_none());
}

#[test]
fn test_parse_streams_full() {
    let status = r#"
Audio
 ├─ Devices:
 │      40. Built-in Audio
 │
 ├─ Sinks:
 │  *   46. Built-in Audio Analog Stereo           [vol: 0.60]
 │
 ├─ Sink Inputs:
 │  *   47. Firefox                                 [vol: 0.75]
 │      48. mpv Media Player                        [vol: 1.00]
 │
 ├─ Sources:
 │  *   49. Built-in Audio Analog Stereo            [vol: 1.00]
 │
 ├─ Source Outputs:
 │      50. Discord                                 [vol: 0.80]
 │
 └─ Filters:
"#;
    let streams = parse_streams(status);
    assert_eq!(streams.len(), 3);
    assert_eq!(streams[0].name, "Firefox");
    assert_eq!(streams[0].stream_type, StreamType::Playback);
    assert_eq!(streams[1].name, "mpv Media Player");
    assert_eq!(streams[2].name, "Discord");
    assert_eq!(streams[2].stream_type, StreamType::Capture);
}

#[test]
fn test_parse_streams_empty() {
    let status = "Audio\n ├─ Sink Inputs:\n │\n";
    let streams = parse_streams(status);
    assert!(streams.is_empty());
}

#[test]
fn test_parse_streams_new_format() {
    // PipeWire 1.4+ format: "Streams:" section with channel routing lines
    let status = r#"
Audio
 ├─ Devices:
 │      43. Blue Snowball                       [alsa]
 │
 ├─ Sinks:
 │  *   57. Headphones                          [vol: 0.32]
 │
 ├─ Sources:
 │  *   58. Stereo Microphone                   [vol: 0.41]
 │
 ├─ Filters:
 │
 └─ Streams:
        87. RHVoice
             88. output_FL       > Headphones:playback_FL	[active]
             89. output_FR       > Headphones:playback_FR	[active]
        93. speech-dispatcher-dummy
             96. output_FR       > Headphones:playback_FR	[paused]
             97. output_FL       > Headphones:playback_FL	[paused]

Video
 ├─ Devices:
 │      52. HP Wide Vision HD Camera            [v4l2]
 │
 └─ Streams:

Settings
"#;
    let streams = parse_streams(status);
    assert_eq!(streams.len(), 2);
    assert_eq!(streams[0].id, 87);
    assert_eq!(streams[0].name, "RHVoice");
    assert_eq!(streams[0].stream_type, StreamType::Playback);
    assert_eq!(streams[1].id, 93);
    assert_eq!(streams[1].name, "speech-dispatcher-dummy");
    assert_eq!(streams[1].stream_type, StreamType::Playback);
}

#[test]
fn test_parse_streams_new_format_no_video_leak() {
    // Ensure Video Streams section doesn't leak into audio results
    let status = r#"
Audio
 └─ Streams:
        87. Firefox

Video
 └─ Streams:
        99. OBS Virtual Camera

Settings
"#;
    let streams = parse_streams(status);
    assert_eq!(streams.len(), 1);
    assert_eq!(streams[0].name, "Firefox");
}

#[test]
fn test_parse_devices_sinks() {
    let status = r#"
Audio
 ├─ Sinks:
 │  *   46. Built-in Audio Analog Stereo           [vol: 0.60]
 │      55. HDMI Output                            [vol: 1.00]
 │
 ├─ Sink Inputs:
"#;
    let devices = parse_devices(status, DeviceType::Sink);
    assert_eq!(devices.len(), 2);
    assert_eq!(devices[0].id, 46);
    assert!(devices[0].is_default);
    assert_eq!(devices[1].id, 55);
    assert!(!devices[1].is_default);
}

#[test]
fn test_parse_devices_sources() {
    let status = r#"
 ├─ Sources:
 │  *   49. Built-in Audio Analog Stereo            [vol: 1.00]
 │
 ├─ Source Outputs:
"#;
    let devices = parse_devices(status, DeviceType::Source);
    assert_eq!(devices.len(), 1);
    assert_eq!(devices[0].id, 49);
    assert!(devices[0].is_default);
}

#[test]
fn test_parse_device_line_default() {
    let device = parse_device_line("│  *   46. Built-in Audio Analog Stereo  [vol: 0.60]").unwrap();
    assert_eq!(device.id, 46);
    assert_eq!(device.name, "Built-in Audio Analog Stereo");
    assert!(device.is_default);
}

#[test]
fn test_parse_device_line_not_default() {
    let device = parse_device_line("│      55. HDMI Output  [vol: 1.00]").unwrap();
    assert_eq!(device.id, 55);
    assert!(!device.is_default);
}

#[test]
fn test_stream_type_as_str() {
    assert_eq!(StreamType::Playback.as_str(), "Playback");
    assert_eq!(StreamType::Capture.as_str(), "Capture");
}

#[test]
fn test_stream_type_icon() {
    assert_eq!(StreamType::Playback.icon(), "audio-volume-high-symbolic");
    assert_eq!(StreamType::Capture.icon(), "audio-input-microphone-symbolic");
}

#[test]
fn test_accessible_label() {
    let stream = Stream {
        id: 47,
        name: "Firefox".to_string(),
        stream_type: StreamType::Playback,
        volume: volume_of(0.75),
        muted: false,
    };
    assert_eq!(accessible_label(&stream), "Firefox Playback stream, 75%");
}

#[test]
fn test_accessible_label_muted() {
    let stream = Stream {
        id: 48,
        name: "Discord".to_string(),
        stream_type: StreamType::Capture,
        volume: volume_of(0.50),
        muted: true,
    };
    assert_eq!(
        accessible_label(&stream),
        "Discord Capture stream, 50%, muted"
    );
}

#[test]
fn test_slider_accessible_label() {
    let stream = Stream {
        id: 47,
        name: "Firefox".to_string(),
        stream_type: StreamType::Playback,
        volume: volume_of(0.75),
        muted: false,
    };
    assert_eq!(slider_accessible_label(&stream), "Firefox volume, 75%");
}

#[test]
fn test_mute_button_label() {
    let stream = Stream {
        id: 47,
        name: "Firefox".to_string(),
        stream_type: StreamType::Playback,
        volume: volume_of(0.75),
        muted: false,
    };
    assert_eq!(mute_button_label(&stream), "Mute Firefox");

    let muted_stream = Stream {
        muted: true,
        ..stream
    };
    assert_eq!(mute_button_label(&muted_stream), "Unmute Firefox");
}

#[test]
fn test_volume_percentage_rounding() {
    let stream = Stream {
        id: 1,
        name: "Test".to_string(),
        stream_type: StreamType::Playback,
        volume: volume_of(0.333),
        muted: false,
    };
    assert_eq!(slider_accessible_label(&stream), "Test volume, 33%");
}

#[test]
fn test_volume_boost_label() {
    let stream = Stream {
        id: 1,
        name: "Boost".to_string(),
        stream_type: StreamType::Playback,
        volume: volume_of(1.5),
        muted: false,
    };
    assert_eq!(slider_accessible_label(&stream), "Boost volume, 150%");
}
