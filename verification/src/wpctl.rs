//! The interface to WirePlumber's `wpctl`: the streams and devices it
//! reports, the commands the mixer runs, and how their output is read.
use vstd::prelude::*;

use crate::text::{
    chars_of, contains, contains_str, decimal, decimal_of, first_word, first_word_of, i32_decimal,
    int_decimal, join, line_views, lines, push_all, push_joined, push_str, second_field,
    second_field_of, split_lines, starts_with, starts_with_str, string_from_chars, string_views,
    strip_prefix, strip_prefix_str, trim, trim_class, trim_of, trim_ws, CharClass,
};
use crate::volume::{percent_of, read_number, Volume};

pub mod pactl;
pub mod status;

pub use pactl::enrich_device_availability;
pub use status::{parse_device_line, parse_devices, parse_stream_line, parse_streams};

verus! {

/// Errors of wpctl operations.
#[derive(Debug)]
pub enum WpctlError {
    /// wpctl ran and reported failure.
    CommandFailed(String),
    /// wpctl's output was not in the expected form.
    ParseError(String),
}

/// Whether a stream is playback (sink input) or capture (source output).
#[derive(Debug, Clone, Copy, PartialEq, Eq, Structural)]
pub enum StreamType {
    Playback,
    Capture,
}

pub open spec fn type_label(t: StreamType) -> Seq<char> {
    match t {
        StreamType::Playback => "Playback"@,
        StreamType::Capture => "Capture"@,
    }
}

pub open spec fn stream_type_icon(t: StreamType) -> Seq<char> {
    match t {
        StreamType::Playback => "audio-volume-high-symbolic"@,
        StreamType::Capture => "audio-input-microphone-symbolic"@,
    }
}

impl StreamType {
    pub fn as_str(&self) -> (s: &'static str)
        ensures
            s@ == type_label(*self),
    {
        match self {
            StreamType::Playback => "Playback",
            StreamType::Capture => "Capture",
        }
    }

    /// The symbolic icon that stands for streams of this type.
    pub fn icon(&self) -> (s: &'static str)
        ensures
            s@ == stream_type_icon(*self),
    {
        match self {
            StreamType::Playback => "audio-volume-high-symbolic",
            StreamType::Capture => "audio-input-microphone-symbolic",
        }
    }
}

/// A PipeWire audio stream (sink input or source output).
#[derive(Debug, Clone, PartialEq)]
pub struct Stream {
    pub id: u32,
    pub name: String,
    pub stream_type: StreamType,
    pub volume: Volume,
    pub muted: bool,
}

/// What a `Stream` holds, with its name as a sequence of characters.
pub struct StreamModel {
    pub id: u32,
    pub name: Seq<char>,
    pub stream_type: StreamType,
    pub volume: Volume,
    pub muted: bool,
}

impl View for Stream {
    type V = StreamModel;

    open spec fn view(&self) -> StreamModel {
        StreamModel {
            id: self.id,
            name: self.name@,
            stream_type: self.stream_type,
            volume: self.volume,
            muted: self.muted,
        }
    }
}

/// A PipeWire device (sink or source).
#[derive(Debug, Clone, PartialEq)]
pub struct Device {
    pub id: u32,
    pub name: String,
    pub is_default: bool,
    /// Whether the device port is available (plugged in).
    /// None means availability is unknown (assume available).
    pub available: Option<bool>,
}

/// What a `Device` holds, with its name as a sequence of characters.
pub struct DeviceModel {
    pub id: u32,
    pub name: Seq<char>,
    pub is_default: bool,
    pub available: Option<bool>,
}

impl View for Device {
    type V = DeviceModel;

    open spec fn view(&self) -> DeviceModel {
        DeviceModel {
            id: self.id,
            name: self.name@,
            is_default: self.is_default,
            available: self.available,
        }
    }
}

/// The type of device section being read.
#[derive(Debug, Clone, Copy, PartialEq, Eq, Structural)]
pub enum DeviceType {
    Sink,
    Source,
}

/// Volume info returned by `wpctl get-volume`.
#[derive(Debug, Clone, Copy, PartialEq, Eq, Structural)]
pub struct VolumeInfo {
    pub volume: Volume,
    pub muted: bool,
}

pub open spec fn stream_views(s: Seq<Stream>) -> Seq<StreamModel> {
    s.map_values(|x: Stream| x@)
}

pub open spec fn device_views(s: Seq<Device>) -> Seq<DeviceModel> {
    s.map_values(|x: Device| x@)
}

// ---------------------------------------------------------------------------
// Commands.
// ---------------------------------------------------------------------------

/// A wpctl invocation: the arguments to run `wpctl` with.
#[derive(Debug, Clone)]
pub struct WpctlRequest {
    pub args: Vec<String>,
}

impl View for WpctlRequest {
    type V = Seq<Seq<char>>;

    open spec fn view(&self) -> Seq<Seq<char>> {
        string_views(self.args@)
    }
}

fn request_of(args: Vec<Vec<char>>) -> (r: WpctlRequest)
    ensures
        r@ == line_views(args@),
{
    let mut out: Vec<String> = Vec::new();
    let mut i: usize = 0;
    while i < args.len()
        invariant
            i <= args.len(),
            string_views(out@) == line_views(args@).take(i as int),
        decreases args.len() - i,
    {
        let a = slice_all(&args[i]);
        let st = string_from_chars(a);
        let ghost prev = string_views(out@);
        out.push(st);
        assert(string_views(out@) =~= prev.push(st@));
        assert(line_views(args@).take(i + 1) =~= line_views(args@).take(i as int).push(
            args@[i as int]@,
        ));
        i += 1;
    }
    assert(line_views(args@).take(args.len() as int) =~= line_views(args@));
    WpctlRequest { args: out }
}

fn slice_all(v: &Vec<char>) -> (r: Vec<char>)
    ensures
        r@ == v@,
{
    let mut r: Vec<char> = Vec::new();
    push_all(&mut r, v);
    r
}

/// Fetch current wpctl status output: `wpctl status`.
pub fn get_status() -> (r: WpctlRequest)
    ensures
        r@ == seq!["status"@],
{
    let mut a: Vec<Vec<char>> = Vec::new();
    a.push(chars_of("status"));
    let r = request_of(a);
    assert(r@ =~= seq!["status"@]);
    r
}

/// Get volume info for a stream by ID: `wpctl get-volume <id>`.
pub fn get_volume(id: u32) -> (r: WpctlRequest)
    ensures
        r@ == seq!["get-volume"@, decimal(id as nat)],
{
    let mut a: Vec<Vec<char>> = Vec::new();
    a.push(chars_of("get-volume"));
    a.push(decimal_of(id as u64));
    let r = request_of(a);
    assert(r@ =~= seq!["get-volume"@, decimal(id as nat)]);
    r
}

/// Toggle mute for a stream: `wpctl set-mute <id> toggle`.
pub fn toggle_mute(id: u32) -> (r: WpctlRequest)
    ensures
        r@ == seq!["set-mute"@, decimal(id as nat), "toggle"@],
{
    let mut a: Vec<Vec<char>> = Vec::new();
    a.push(chars_of("set-mute"));
    a.push(decimal_of(id as u64));
    a.push(chars_of("toggle"));
    let r = request_of(a);
    assert(r@ =~= seq!["set-mute"@, decimal(id as nat), "toggle"@]);
    r
}

/// Set a device as the default sink or source: `wpctl set-default <id>`.
pub fn set_default(id: u32) -> (r: WpctlRequest)
    ensures
        r@ == seq!["set-default"@, decimal(id as nat)],
{
    let mut a: Vec<Vec<char>> = Vec::new();
    a.push(chars_of("set-default"));
    a.push(decimal_of(id as u64));
    let r = request_of(a);
    assert(r@ =~= seq!["set-default"@, decimal(id as nat)]);
    r
}

/// Inspect a stream, whose output names its application:
/// `wpctl inspect <id>` (read by `parse_app_name`).
pub fn get_app_name(id: u32) -> (r: WpctlRequest)
    ensures
        r@ == seq!["inspect"@, decimal(id as nat)],
{
    let mut a: Vec<Vec<char>> = Vec::new();
    a.push(chars_of("inspect"));
    a.push(decimal_of(id as u64));
    let r = request_of(a);
    assert(r@ =~= seq!["inspect"@, decimal(id as nat)]);
    r
}

/// The message of a failed wpctl run: the command, then what wpctl wrote
/// to standard error.
pub open spec fn failure_message(args: Seq<Seq<char>>, stderr: Seq<char>) -> Seq<char> {
    "wpctl "@ + join(args, " "@) + " failed: "@ + stderr
}

/// The result of a wpctl run: its standard output when it exited
/// successfully, and `CommandFailed` with `failure_message` otherwise.
pub fn command_output(request: &WpctlRequest, success: bool, stdout: String, stderr: &str) -> (r:
    Result<String, WpctlError>)
    ensures
        match r {
            Ok(out) => success && out@ == stdout@,
            Err(WpctlError::CommandFailed(m)) => !success && m@ == failure_message(
                request@,
                stderr@,
            ),
            Err(_) => false,
        },
{
    if success {
        Ok(stdout)
    } else {
        let mut m: Vec<char> = Vec::new();
        push_str(&mut m, "wpctl ");
        push_joined(&mut m, &request.args, " ");
        push_str(&mut m, " failed: ");
        push_str(&mut m, stderr);
        Err(WpctlError::CommandFailed(string_from_chars(m)))
    }
}

// ---------------------------------------------------------------------------
// `wpctl get-volume` output.
// ---------------------------------------------------------------------------

/// What `wpctl get-volume` output says.
pub enum VolumeReadout {
    /// The volume and mute state.
    Read(VolumeInfo),
    /// The output is not in the expected form; the message says why.
    Malformed(Seq<char>),
}

/// What `wpctl get-volume` output says, such as `Volume: 0.75` or
/// `Volume: 0.50 [MUTED]`: the first word after `Volume: ` is the volume,
/// read as `str::parse::<f64>` reads it (see `read_number`), and `[MUTED]`
/// anywhere after it marks the stream muted.
pub open spec fn read_volume(output: Seq<char>) -> VolumeReadout {
    let line = trim(output);
    match strip_prefix(line, "Volume: "@) {
        None => VolumeReadout::Malformed("unexpected volume format: "@ + line),
        Some(rest) => match first_word(rest) {
            None => VolumeReadout::Malformed("no volume value in: "@ + line),
            Some(w) => match read_number(w) {
                None => VolumeReadout::Malformed(
                    "invalid volume number '"@ + w + "': invalid float literal"@,
                ),
                Some(v) => VolumeReadout::Read(
                    VolumeInfo { volume: v, muted: contains(rest, "[MUTED]"@) },
                ),
            },
        },
    }
}

/// Parse `wpctl get-volume <id>` output (see `read_volume`).
/// Format: "Volume: 0.75" or "Volume: 0.75 [MUTED]"
pub fn parse_volume(output: &str) -> (r: Result<VolumeInfo, WpctlError>)
    ensures
        match r {
            Ok(info) => read_volume(output@) == VolumeReadout::Read(info),
            Err(WpctlError::ParseError(m)) => read_volume(output@) == VolumeReadout::Malformed(m@),
            Err(WpctlError::CommandFailed(_)) => false,
        },
{
    let text = chars_of(output);
    let line = trim_ws(&text);
    let rest = match strip_prefix_str(&line, "Volume: ") {
        Some(r) => r,
        None => {
            let mut m: Vec<char> = Vec::new();
            push_str(&mut m, "unexpected volume format: ");
            push_all(&mut m, &line);
            return Err(WpctlError::ParseError(string_from_chars(m)));
        },
    };
    let word = match first_word_of(&rest) {
        Some(w) => w,
        None => {
            let mut m: Vec<char> = Vec::new();
            push_str(&mut m, "no volume value in: ");
            push_all(&mut m, &line);
            return Err(WpctlError::ParseError(string_from_chars(m)));
        },
    };
    match Volume::read(&word) {
        Some(v) => Ok(VolumeInfo { volume: v, muted: contains_str(&rest, "[MUTED]") }),
        None => {
            let mut m: Vec<char> = Vec::new();
            push_str(&mut m, "invalid volume number '");
            push_all(&mut m, &word);
            push_str(&mut m, "': invalid float literal");
            Err(WpctlError::ParseError(string_from_chars(m)))
        },
    }
}

// ---------------------------------------------------------------------------
// `wpctl inspect` output.
// ---------------------------------------------------------------------------

/// The application name that `wpctl inspect` output lines give: the first
/// line starting with `application.name` whose value (between the first and
/// any second `=`, without surrounding blanks and quotes) is not empty. A
/// line starting with `application.name` without any `=` ends the search with
/// no name.
pub open spec fn app_name_in(ls: Seq<Seq<char>>) -> Option<Seq<char>>
    decreases ls.len(),
{
    if ls.len() == 0 {
        None
    } else {
        let t = trim(ls[0]);
        if starts_with(t, "application.name"@) {
            match second_field(t) {
                None => None,
                Some(f) => {
                    let val = trim_class(trim(f), CharClass::Exactly('"'));
                    if val.len() > 0 {
                        Some(val)
                    } else {
                        app_name_in(ls.drop_first())
                    }
                },
            }
        } else {
            app_name_in(ls.drop_first())
        }
    }
}

/// The application name in `wpctl inspect` output (see `app_name_in`).
pub fn parse_app_name(output: &str) -> (r: Option<String>)
    ensures
        match r {
            Some(n) => app_name_in(lines(output@)) == Some(n@),
            None => app_name_in(lines(output@)) is None,
        },
{
    let text = chars_of(output);
    let ls = split_lines(&text);
    let ghost all = lines(text@);
    let mut i: usize = 0;
    assert(all.skip(0) =~= all);
    while i < ls.len()
        invariant
            i <= ls.len(),
            text@ == output@,
            all == lines(text@),
            line_views(ls@) == all,
            app_name_in(all.skip(i as int)) == app_name_in(all),
        decreases ls.len() - i,
    {
        let ghost rest = all.skip(i as int);
        assert(rest[0] == ls@[i as int]@);
        assert(rest.drop_first() =~= all.skip(i + 1));
        let t = trim_ws(&ls[i]);
        if starts_with_str(&t, "application.name") {
            match second_field_of(&t) {
                None => {
                    return None;
                },
                Some(f) => {
                    let val = trim_of(&trim_ws(&f), CharClass::Exactly('"'));
                    if val.len() > 0 {
                        return Some(string_from_chars(val));
                    }
                },
            }
        }
        i += 1;
    }
    assert(all.skip(i as int) =~= Seq::<Seq<char>>::empty());
    None
}

/// The name to show for a stream's application: the one that `wpctl
/// inspect` output names, or the stream's own name when inspect failed
/// (`None`) or its output names no application.
pub open spec fn app_name_or(inspect_output: Option<Seq<char>>, stream_name: Seq<char>) -> Seq<char> {
    match inspect_output {
        Some(out) => match app_name_in(lines(out)) {
            Some(n) => n,
            None => stream_name,
        },
        None => stream_name,
    }
}

/// The application name of a stream, falling back to the stream's name
/// (see `app_name_or`).
pub fn app_name_or_stream_name(inspect_output: Option<&str>, stream_name: &str) -> (r: String)
    ensures
        r@ == app_name_or(
            match inspect_output {
                Some(o) => Some(o@),
                None => None,
            },
            stream_name@,
        ),
{
    match inspect_output {
        Some(out) => match parse_app_name(out) {
            Some(n) => n,
            None => string_from_chars(chars_of(stream_name)),
        },
        None => string_from_chars(chars_of(stream_name)),
    }
}

// ---------------------------------------------------------------------------
// Accessible labels.
// ---------------------------------------------------------------------------

/// The accessible description of a stream: `"<name> <type> stream, <pct>%"`,
/// followed by `", muted"` when muted.
pub open spec fn description_text(name: Seq<char>, kind_name: Seq<char>, pct: int, muted: bool) -> Seq<
    char,
> {
    name + " "@ + kind_name + " stream, "@ + int_decimal(pct) + "%"@ + (if muted {
        ", muted"@
    } else {
        ""@
    })
}

/// The accessible label of a volume slider: `"<name> volume, <pct>%"`.
pub open spec fn slider_text(name: Seq<char>, pct: int) -> Seq<char> {
    name + " volume, "@ + int_decimal(pct) + "%"@
}

/// The label of a mute button: `"Unmute <name>"` when muted, else
/// `"Mute <name>"`.
pub open spec fn mute_text(name: Seq<char>, muted: bool) -> Seq<char> {
    (if muted {
        "Unmute "@
    } else {
        "Mute "@
    }) + name
}

/// `description_text` as a string.
pub fn stream_description(name: &str, kind_name: &str, pct: i32, muted: bool) -> (r: String)
    ensures
        r@ == description_text(name@, kind_name@, pct as int, muted),
{
    let mut m: Vec<char> = Vec::new();
    push_str(&mut m, name);
    push_str(&mut m, " ");
    push_str(&mut m, kind_name);
    push_str(&mut m, " stream, ");
    let d = i32_decimal(pct);
    push_all(&mut m, &d);
    push_str(&mut m, "%");
    if muted {
        push_str(&mut m, ", muted");
    } else {
        push_str(&mut m, "");
    }
    string_from_chars(m)
}

/// `slider_text` as a string.
pub fn slider_description(name: &str, pct: i32) -> (r: String)
    ensures
        r@ == slider_text(name@, pct as int),
{
    let mut m: Vec<char> = Vec::new();
    push_str(&mut m, name);
    push_str(&mut m, " volume, ");
    let d = i32_decimal(pct);
    push_all(&mut m, &d);
    push_str(&mut m, "%");
    string_from_chars(m)
}

/// `mute_text` as a string.
pub fn mute_description(name: &str, muted: bool) -> (r: String)
    ensures
        r@ == mute_text(name@, muted),
{
    let mut m: Vec<char> = Vec::new();
    if muted {
        push_str(&mut m, "Unmute ");
    } else {
        push_str(&mut m, "Mute ");
    }
    push_str(&mut m, name);
    string_from_chars(m)
}

/// Generate an accessible label for a stream, e.g.
/// `"Firefox Playback stream, 75%"`.
pub fn accessible_label(stream: &Stream) -> (r: String)
    ensures
        r@ == description_text(
            stream.name@,
            type_label(stream.stream_type),
            percent_of(stream.volume) as int,
            stream.muted,
        ),
{
    stream_description(stream.name.as_str(), stream.stream_type.as_str(), stream.volume.percent(), stream.muted)
}

/// Generate an accessible label for a volume slider, e.g.
/// `"Firefox volume, 75%"`.
pub fn slider_accessible_label(stream: &Stream) -> (r: String)
    ensures
        r@ == slider_text(stream.name@, percent_of(stream.volume) as int),
{
    slider_description(stream.name.as_str(), stream.volume.percent())
}

/// Generate an accessible label for a mute button, e.g. `"Mute Firefox"`.
pub fn mute_button_label(stream: &Stream) -> (r: String)
    ensures
        r@ == mute_text(stream.name@, stream.muted),
{
    mute_description(stream.name.as_str(), stream.muted)
}

} // verus!
