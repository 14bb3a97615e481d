//! Reading `wpctl status`: the streams and the devices it lists.
use vstd::prelude::*;

use crate::text::{
    chars_of, contains, contains_str, equals_str, ends_with_char, find, find_char, find_seq,
    first_word, first_word_of, has_char, has_char_exec, index_of, lemma_find, lemma_index_of,
    line_views, lines, parse_u32, parse_u32_of, remove_tree, remove_tree_chars, slice,
    split_lines, starts_with_char, string_from_chars, trim, trim_start_char, trim_start_of, trim_ws,
    CharClass,
};
use crate::volume::{full_scale, read_number, Volume};
use crate::wpctl::{
    device_views, stream_views, Device, DeviceModel, DeviceType, Stream, StreamModel, StreamType,
};

verus! {

/// The name, volume and mute state that the rest of a stream line gives:
/// the text before `[vol:` is the name, and the bracket holds the volume
/// (1.0 when it is missing or not a float) and perhaps `MUTED`. A line
/// without `[vol:` is all name, at full volume and not muted. The volume is
/// read as `str::parse::<f64>` reads it (see `read_number`).
pub open spec fn volume_part(rest: Seq<char>) -> (Seq<char>, Volume, bool) {
    match find(rest, "[vol:"@) {
        Some(vs) => {
            let sec = rest.skip(vs);
            let end = match index_of(sec, ']') {
                Some(e) => e,
                None => sec.len() as int,
            };
            let inner = trim(sec.subrange(5, end));
            let volume = match first_word(inner) {
                Some(w) => match read_number(w) {
                    Some(v) => v,
                    None => full_scale(),
                },
                None => full_scale(),
            };
            (trim(rest.take(vs)), volume, contains(inner, "MUTED"@))
        },
        None => (rest, full_scale(), false),
    }
}

/// The stream that a line of `wpctl status` describes, such as
/// `│  *   47. Firefox    [vol: 0.75]`: box-drawing characters and the
/// default marker `*` are dropped, the number before the first `.` is the id,
/// and what follows is read by `volume_part`. Empty lines, section headers
/// (ending in `:`), lines without an id and lines without a name give none.
pub open spec fn stream_line(line: Seq<char>, ty: StreamType) -> Option<StreamModel> {
    let c1 = trim(remove_tree_chars(line));
    if c1.len() == 0 || c1.last() == ':' {
        None
    } else {
        let c = trim(trim_start_char(c1, '*'));
        match index_of(c, '.') {
            None => None,
            Some(dot) => match parse_u32(trim(c.take(dot))) {
                None => None,
                Some(id) => {
                    let (name, volume, muted) = volume_part(trim(c.skip(dot + 1)));
                    if name.len() == 0 {
                        None
                    } else {
                        Some(StreamModel { id, name, stream_type: ty, volume, muted })
                    }
                },
            },
        }
    }
}

/// The part of `wpctl status` that a stream scan is in.
#[derive(Debug, Clone, Copy, PartialEq, Eq, Structural)]
pub struct StreamScan {
    /// The stream section being read, with the type of its streams.
    pub section: Option<StreamType>,
    /// Whether that section is a `Streams:` section (PipeWire 1.4+).
    pub in_streams_section: bool,
    /// Whether the scan is under the top-level `Audio` heading.
    pub in_audio: bool,
}

pub open spec fn scan_start() -> StreamScan {
    StreamScan { section: None, in_streams_section: false, in_audio: false }
}

/// A trimmed line without the tree-drawing characters that lead it.
pub open spec fn header_text(t: Seq<char>) -> Seq<char> {
    trim(trim_start_char(trim_start_char(trim_start_char(trim_start_char(t, '│'), '├'), '└'), '─'))
}

/// How one line of `wpctl status` moves the scan, and the stream it yields.
///
/// `Audio` starts the audio part; `Video` and `Settings` end it and any
/// section. `Sink Inputs:` and `Source Outputs:` open playback and capture
/// sections; `Streams:` opens a playback section when under `Audio`. Any
/// other header (ending in `:`, without `.`) closes the section. Inside a
/// section each line is read by `stream_line`, except that in a `Streams:`
/// section lines holding `>` (channel routing) are skipped.
#[verifier::opaque]
pub open spec fn scan_line(st: StreamScan, line: Seq<char>) -> (StreamScan, Option<StreamModel>) {
    let t = trim(line);
    if t == "Audio"@ {
        (StreamScan { in_audio: true, ..st }, None)
    } else if t == "Video"@ || t == "Settings"@ {
        (scan_start(), None)
    } else if contains(t, "Sink Inputs:"@) {
        (
            StreamScan {
                section: Some(StreamType::Playback),
                in_streams_section: false,
                in_audio: st.in_audio,
            },
            None,
        )
    } else if contains(t, "Source Outputs:"@) {
        (
            StreamScan {
                section: Some(StreamType::Capture),
                in_streams_section: false,
                in_audio: st.in_audio,
            },
            None,
        )
    } else {
        let h = header_text(t);
        if h == "Streams:"@ {
            if st.in_audio {
                (
                    StreamScan {
                        section: Some(StreamType::Playback),
                        in_streams_section: true,
                        in_audio: true,
                    },
                    None,
                )
            } else {
                (st, None)
            }
        } else if ends_with_char(h, ':') && !has_char(h, '.') && h != "Sink Inputs:"@ && h
            != "Source Outputs:"@ {
            (StreamScan { section: None, in_streams_section: false, in_audio: st.in_audio }, None)
        } else {
            match st.section {
                None => (st, None),
                Some(ty) => if st.in_streams_section && has_char(line, '>') {
                    (st, None)
                } else {
                    (st, stream_line(t, ty))
                },
            }
        }
    }
}

pub open spec fn opt_seq<A>(o: Option<A>) -> Seq<A> {
    match o {
        Some(x) => seq![x],
        None => Seq::empty(),
    }
}

/// The streams that the lines `ls` yield, from scan state `st` on.
pub open spec fn scan_lines(st: StreamScan, ls: Seq<Seq<char>>) -> Seq<StreamModel>
    decreases ls.len(),
{
    if ls.len() == 0 {
        Seq::empty()
    } else {
        let (next, found) = scan_line(st, ls[0]);
        opt_seq(found) + scan_lines(next, ls.drop_first())
    }
}

/// The streams that `wpctl status` output lists, in order.
pub open spec fn status_streams(s: Seq<char>) -> Seq<StreamModel> {
    scan_lines(scan_start(), lines(s))
}

/// `volume_part` on a vector.
fn volume_part_of(rest: &Vec<char>) -> (r: (Vec<char>, Volume, bool))
    ensures
        (r.0@, r.1, r.2) == volume_part(rest@),
{
    let pat = chars_of("[vol:");
    proof {
        lemma_find(rest@, pat@);
    }
    match find_seq(rest, &pat) {
        Some(vs) => {
            let sec = slice(rest, vs, rest.len());
            assert(sec@ =~= rest@.skip(vs as int));
            proof {
                reveal_strlit("[vol:");
                lemma_index_of(sec@, ']');
                assert(sec@.subrange(0, 5) =~= rest@.subrange(vs as int, vs + 5));
                assert(sec@[0] == '[' && sec@[1] == 'v' && sec@[2] == 'o' && sec@[3] == 'l'
                    && sec@[4] == ':');
            }
            let end = match find_char(&sec, ']') {
                Some(e) => e,
                None => sec.len(),
            };
            let inner_raw = slice(&sec, 5, end);
            let inner = trim_ws(&inner_raw);
            let volume = match first_word_of(&inner) {
                Some(w) => match Volume::read(&w) {
                    Some(v) => v,
                    None => Volume::Level(1_000_000),
                },
                None => Volume::Level(1_000_000),
            };
            let muted = contains_str(&inner, "MUTED");
            let before = slice(rest, 0, vs);
            assert(before@ =~= rest@.take(vs as int));
            (trim_ws(&before), volume, muted)
        },
        None => {
            let all = slice(rest, 0, rest.len());
            assert(all@ =~= rest@);
            (all, Volume::Level(1_000_000), false)
        },
    }
}

/// `stream_line` on a vector.
pub fn stream_line_of(line: &Vec<char>, ty: StreamType) -> (r: Option<Stream>)
    ensures
        match r {
            Some(s) => stream_line(line@, ty) == Some(s@),
            None => stream_line(line@, ty) is None,
        },
{
    let c1 = trim_ws(&remove_tree(line));
    if c1.len() == 0 || c1[c1.len() - 1] == ':' {
        return None;
    }
    let c = trim_ws(&trim_start_of(&c1, CharClass::Exactly('*')));
    proof {
        lemma_index_of(c@, '.');
    }
    let dot = match find_char(&c, '.') {
        Some(d) => d,
        None => {
            return None;
        },
    };
    let id_text = slice(&c, 0, dot);
    assert(id_text@ =~= c@.take(dot as int));
    let id = match parse_u32_of(&trim_ws(&id_text)) {
        Some(x) => x,
        None => {
            return None;
        },
    };
    let after = slice(&c, dot + 1, c.len());
    assert(after@ =~= c@.skip(dot + 1));
    let (name, volume, muted) = volume_part_of(&trim_ws(&after));
    if name.len() == 0 {
        return None;
    }
    Some(Stream { id, name: string_from_chars(name), stream_type: ty, volume, muted })
}

/// Parse a single stream line from wpctl status (see `stream_line`).
/// Format examples:
///  │  *   47. Firefox                          [vol: 0.75]
///  │      48. Discord                          [vol: 1.00 MUTED]
pub fn parse_stream_line(line: &str, stream_type: StreamType) -> (r: Option<Stream>)
    ensures
        match r {
            Some(s) => stream_line(line@, stream_type) == Some(s@),
            None => stream_line(line@, stream_type) is None,
        },
{
    let v = chars_of(line);
    stream_line_of(&v, stream_type)
}

/// `scan_line` on a vector.
fn scan_line_of(st: StreamScan, line: &Vec<char>) -> (r: (StreamScan, Option<Stream>))
    ensures
        r.0 == scan_line(st, line@).0,
        match r.1 {
            Some(s) => scan_line(st, line@).1 == Some(s@),
            None => scan_line(st, line@).1 is None,
        },
{
    reveal(scan_line);
    let t = trim_ws(line);
    if equals_str(&t, "Audio") {
        return (StreamScan { in_audio: true, ..st }, None);
    }
    if equals_str(&t, "Video") || equals_str(&t, "Settings") {
        return (StreamScan { section: None, in_streams_section: false, in_audio: false }, None);
    }
    if contains_str(&t, "Sink Inputs:") {
        return (
            StreamScan {
                section: Some(StreamType::Playback),
                in_streams_section: false,
                in_audio: st.in_audio,
            },
            None,
        );
    }
    if contains_str(&t, "Source Outputs:") {
        return (
            StreamScan {
                section: Some(StreamType::Capture),
                in_streams_section: false,
                in_audio: st.in_audio,
            },
            None,
        );
    }
    let h = trim_ws(
        &trim_start_of(
            &trim_start_of(
                &trim_start_of(&trim_start_of(&t, CharClass::Exactly('│')), CharClass::Exactly('├')),
                CharClass::Exactly('└'),
            ),
            CharClass::Exactly('─'),
        ),
    );
    if equals_str(&h, "Streams:") {
        if st.in_audio {
            return (
                StreamScan {
                    section: Some(StreamType::Playback),
                    in_streams_section: true,
                    in_audio: true,
                },
                None,
            );
        }
        return (st, None);
    }
    if h.len() > 0 && h[h.len() - 1] == ':' && !has_char_exec(&h, '.') && !equals_str(
        &h,
        "Sink Inputs:",
    ) && !equals_str(&h, "Source Outputs:") {
        return (StreamScan { section: None, in_streams_section: false, in_audio: st.in_audio }, None);
    }
    match st.section {
        None => (st, None),
        Some(ty) => {
            if st.in_streams_section && has_char_exec(line, '>') {
                (st, None)
            } else {
                (st, stream_line_of(&t, ty))
            }
        },
    }
}

proof fn lemma_stream_views_push(v: Seq<Stream>, s: Stream)
    ensures
        stream_views(v.push(s)) == stream_views(v).push(s@),
{
    assert(stream_views(v.push(s)) =~= stream_views(v).push(s@));
}

/// Parse the `wpctl status` output to extract streams (see `status_streams`).
///
/// Handles two wpctl output formats:
/// - separate "Sink Inputs:" and "Source Outputs:" sections with
///   `[vol: X.XX]` on each line;
/// - PipeWire 1.4+: a single "Streams:" section under Audio, with parent
///   entries (`87. RHVoice`) and child channel-routing lines
///   (`88. output_FL > Headphones:playback_FL [active]`). Only parent
///   entries are streams; child lines (containing ">") are skipped, and
///   volume is not inline.
pub fn parse_streams(status_output: &str) -> (r: Vec<Stream>)
    ensures
        stream_views(r@) == status_streams(status_output@),
{
    let text = chars_of(status_output);
    let ls = split_lines(&text);
    let ghost all = lines(text@);
    let mut out: Vec<Stream> = Vec::new();
    let mut st = StreamScan { section: None, in_streams_section: false, in_audio: false };
    let mut i: usize = 0;
    assert(all.skip(0) =~= all);
    assert(stream_views(out@) =~= Seq::<StreamModel>::empty());
    while i < ls.len()
        invariant
            i <= ls.len(),
            all == lines(text@),
            line_views(ls@) == all,
            stream_views(out@) + scan_lines(st, all.skip(i as int)) == scan_lines(scan_start(), all),
        decreases ls.len() - i,
    {
        let ghost before = stream_views(out@);
        let ghost rest = all.skip(i as int);
        assert(rest[0] == ls@[i as int]@);
        assert(rest.drop_first() =~= all.skip(i + 1));
        let (next, found) = scan_line_of(st, &ls[i]);
        match found {
            Some(s) => {
                proof {
                    lemma_stream_views_push(out@, s);
                }
                out.push(s);
                assert(stream_views(out@) + scan_lines(next, all.skip(i + 1)) =~= before
                    + scan_lines(st, rest));
            },
            None => {
                assert(stream_views(out@) + scan_lines(next, all.skip(i + 1)) =~= before
                    + scan_lines(st, rest));
            },
        }
        st = next;
        i += 1;
    }
    assert(all.skip(i as int) =~= Seq::<Seq<char>>::empty());
    assert(stream_views(out@) + scan_lines(st, all.skip(i as int)) =~= stream_views(out@));
    out
}

/// The device that a line of a `Sinks:` or `Sources:` section describes, such
/// as `│  *   46. Built-in Audio Analog Stereo [vol: 0.60]`: box-drawing
/// characters are dropped, a `*` marks the default device, the number before
/// the first `.` is the id, and the name is what follows, up to any `[`.
/// Its availability is not known from this line.
pub open spec fn device_line(line: Seq<char>) -> Option<DeviceModel> {
    let c1 = trim(remove_tree_chars(line));
    if c1.len() == 0 || c1.last() == ':' {
        None
    } else {
        let c = trim(trim_start_char(c1, '*'));
        match index_of(c, '.') {
            None => None,
            Some(dot) => match parse_u32(trim(c.take(dot))) {
                None => None,
                Some(id) => {
                    let rest = trim(c.skip(dot + 1));
                    let name = match index_of(rest, '[') {
                        Some(b) => trim(rest.take(b)),
                        None => rest,
                    };
                    if name.len() == 0 {
                        None
                    } else {
                        Some(
                            DeviceModel {
                                id,
                                name,
                                is_default: has_char(c1, '*'),
                                available: None,
                            },
                        )
                    }
                },
            },
        }
    }
}

/// The header of the `wpctl status` section that lists devices of a type.
pub open spec fn device_header(t: DeviceType) -> Seq<char> {
    match t {
        DeviceType::Sink => "Sinks:"@,
        DeviceType::Source => "Sources:"@,
    }
}

/// The devices that the lines `ls` list, from a point inside
/// (`in_section`) or outside the device section on. A line holding the header
/// opens the section; inside it, an empty line or another header (ending in
/// `:`, not starting with `│`, without `.`) ends the scan.
pub open spec fn scan_devices(in_section: bool, ls: Seq<Seq<char>>, header: Seq<char>) -> Seq<
    DeviceModel,
>
    decreases ls.len(),
{
    if ls.len() == 0 {
        Seq::empty()
    } else {
        let t = trim(ls[0]);
        if contains(t, header) {
            scan_devices(true, ls.drop_first(), header)
        } else if in_section && t.len() == 0 {
            Seq::empty()
        } else if in_section && ends_with_char(t, ':') && !starts_with_char(t, '│') && !has_char(
            t,
            '.',
        ) {
            Seq::empty()
        } else if in_section {
            opt_seq(device_line(t)) + scan_devices(true, ls.drop_first(), header)
        } else {
            scan_devices(false, ls.drop_first(), header)
        }
    }
}

/// The devices of a type that `wpctl status` output lists, in order.
pub open spec fn status_devices(s: Seq<char>, t: DeviceType) -> Seq<DeviceModel> {
    scan_devices(false, lines(s), device_header(t))
}

/// `device_line` on a vector.
pub fn device_line_of(line: &Vec<char>) -> (r: Option<Device>)
    ensures
        match r {
            Some(d) => device_line(line@) == Some(d@),
            None => device_line(line@) is None,
        },
{
    let c1 = trim_ws(&remove_tree(line));
    if c1.len() == 0 || c1[c1.len() - 1] == ':' {
        return None;
    }
    let is_default = has_char_exec(&c1, '*');
    let c = trim_ws(&trim_start_of(&c1, CharClass::Exactly('*')));
    proof {
        lemma_index_of(c@, '.');
    }
    let dot = match find_char(&c, '.') {
        Some(d) => d,
        None => {
            return None;
        },
    };
    let id_text = slice(&c, 0, dot);
    assert(id_text@ =~= c@.take(dot as int));
    let id = match parse_u32_of(&trim_ws(&id_text)) {
        Some(x) => x,
        None => {
            return None;
        },
    };
    let after = slice(&c, dot + 1, c.len());
    assert(after@ =~= c@.skip(dot + 1));
    let rest = trim_ws(&after);
    proof {
        lemma_index_of(rest@, '[');
    }
    let name = match find_char(&rest, '[') {
        Some(b) => {
            let before = slice(&rest, 0, b);
            assert(before@ =~= rest@.take(b as int));
            trim_ws(&before)
        },
        None => rest,
    };
    if name.len() == 0 {
        return None;
    }
    Some(Device { id, name: string_from_chars(name), is_default, available: None })
}

/// Parse a device line from wpctl status (see `device_line`).
/// Format:  │  *   46. Built-in Audio Analog Stereo [vol: 0.60]
pub fn parse_device_line(line: &str) -> (r: Option<Device>)
    ensures
        match r {
            Some(d) => device_line(line@) == Some(d@),
            None => device_line(line@) is None,
        },
{
    let v = chars_of(line);
    device_line_of(&v)
}

proof fn lemma_device_views_push(v: Seq<Device>, d: Device)
    ensures
        device_views(v.push(d)) == device_views(v).push(d@),
{
    assert(device_views(v.push(d)) =~= device_views(v).push(d@));
}

/// Parse `wpctl status` output for devices of a type (see `status_devices`).
pub fn parse_devices(status_output: &str, device_type: DeviceType) -> (r: Vec<Device>)
    ensures
        device_views(r@) == status_devices(status_output@, device_type),
{
    let text = chars_of(status_output);
    let ls = split_lines(&text);
    let ghost all = lines(text@);
    let ghost header = device_header(device_type);
    let section_header = match device_type {
        DeviceType::Sink => "Sinks:",
        DeviceType::Source => "Sources:",
    };
    let mut out: Vec<Device> = Vec::new();
    let mut in_section = false;
    let mut i: usize = 0;
    assert(all.skip(0) =~= all);
    assert(device_views(out@) =~= Seq::<DeviceModel>::empty());
    while i < ls.len()
        invariant
            i <= ls.len(),
            text@ == status_output@,
            all == lines(text@),
            line_views(ls@) == all,
            header == device_header(device_type),
            section_header@ == header,
            device_views(out@) + scan_devices(in_section, all.skip(i as int), header)
                == scan_devices(false, all, header),
        decreases ls.len() - i,
    {
        let ghost before = device_views(out@);
        let ghost rest = all.skip(i as int);
        assert(rest[0] == ls@[i as int]@);
        assert(rest.drop_first() =~= all.skip(i + 1));
        let trimmed = trim_ws(&ls[i]);
        if contains_str(&trimmed, section_header) {
            in_section = true;
            i += 1;
            continue;
        }
        if in_section && trimmed.len() == 0 {
            assert(before + scan_devices(in_section, rest, header) =~= device_views(out@));
            return out;
        }
        if in_section && trimmed.len() > 0 && trimmed[trimmed.len() - 1] == ':' && !(trimmed[0]
            == '│') && !has_char_exec(&trimmed, '.') {
            assert(before + scan_devices(in_section, rest, header) =~= device_views(out@));
            return out;
        }
        if in_section {
            match device_line_of(&trimmed) {
                Some(d) => {
                    proof {
                        lemma_device_views_push(out@, d);
                    }
                    out.push(d);
                    assert(device_views(out@) + scan_devices(true, all.skip(i + 1), header)
                        =~= before + scan_devices(in_section, rest, header));
                },
                None => {
                    assert(device_views(out@) + scan_devices(true, all.skip(i + 1), header)
                        =~= before + scan_devices(in_section, rest, header));
                },
            }
        }
        i += 1;
    }
    assert(all.skip(i as int) =~= Seq::<Seq<char>>::empty());
    assert(device_views(out@) + scan_devices(in_section, all.skip(i as int), header)
        =~= device_views(out@));
    out
}

// ---------------------------------------------------------------------------
// Laws.
// ---------------------------------------------------------------------------

/// In a `Streams:` section, a line that shows channel routing (holding `>`)
/// is never taken for a stream.
pub proof fn law_routing_lines_are_not_streams(st: StreamScan, line: Seq<char>)
    requires
        st.in_streams_section,
        has_char(line, '>'),
    ensures
        scan_line(st, line).1 is None,
{
    reveal(scan_line);
}

/// Outside the `Audio` part of `wpctl status` (before it, or after `Video`
/// or `Settings`), no stream is listed until a line names `Audio`,
/// `Sink Inputs:` or `Source Outputs:`; in particular the streams of a
/// `Video` part's `Streams:` section are not taken for audio streams.
pub proof fn law_no_streams_outside_audio(st: StreamScan, ls: Seq<Seq<char>>)
    requires
        !st.in_audio,
        st.section is None,
        forall|i: int|
            0 <= i < ls.len() ==> {
                let t = trim(#[trigger] ls[i]);
                &&& t != "Audio"@
                &&& !contains(t, "Sink Inputs:"@)
                &&& !contains(t, "Source Outputs:"@)
            },
    ensures
        scan_lines(st, ls) == Seq::<StreamModel>::empty(),
    decreases ls.len(),
{
    reveal(scan_line);
    if ls.len() > 0 {
        let (next, found) = scan_line(st, ls[0]);
        assert(!next.in_audio && next.section is None && found is None);
        assert forall|i: int| 0 <= i < ls.drop_first().len() implies {
            let t = trim(#[trigger] ls.drop_first()[i]);
            &&& t != "Audio"@
            &&& !contains(t, "Sink Inputs:"@)
            &&& !contains(t, "Source Outputs:"@)
        } by {
            assert(ls.drop_first()[i] == ls[i + 1]);
        }
        law_no_streams_outside_audio(next, ls.drop_first());
        assert(scan_lines(st, ls) =~= Seq::<StreamModel>::empty());
    }
}

/// Every stream that `wpctl status` output lists has a non-empty name.
pub proof fn law_streams_are_named(s: Seq<char>)
    ensures
        forall|i: int|
            0 <= i < status_streams(s).len() ==> #[trigger] status_streams(s)[i].name.len() > 0,
{
    lemma_scan_named(scan_start(), lines(s));
}

proof fn lemma_scan_named(st: StreamScan, ls: Seq<Seq<char>>)
    ensures
        forall|i: int|
            0 <= i < scan_lines(st, ls).len() ==> #[trigger] scan_lines(st, ls)[i].name.len() > 0,
    decreases ls.len(),
{
    reveal(scan_line);
    if ls.len() > 0 {
        let (next, found) = scan_line(st, ls[0]);
        lemma_scan_named(next, ls.drop_first());
        let rest = scan_lines(next, ls.drop_first());
        assert forall|i: int|
            0 <= i < scan_lines(st, ls).len() implies #[trigger] scan_lines(st, ls)[i].name.len()
            > 0 by {
            if found is Some && i == 0 {
            } else if found is Some {
                assert(scan_lines(st, ls)[i] == rest[i - 1]);
            } else {
                assert(scan_lines(st, ls)[i] == rest[i]);
            }
        }
    }
}

/// Every device that `wpctl status` output lists has a non-empty name, and
/// its availability is unknown until `pactl` says otherwise.
pub proof fn law_devices_are_named_and_unchecked(s: Seq<char>, t: DeviceType)
    ensures
        forall|i: int|
            0 <= i < status_devices(s, t).len() ==> {
                &&& (#[trigger] status_devices(s, t)[i]).name.len() > 0
                &&& status_devices(s, t)[i].available is None
            },
{
    lemma_scan_devices_named(false, lines(s), device_header(t));
}

proof fn lemma_scan_devices_named(in_section: bool, ls: Seq<Seq<char>>, header: Seq<char>)
    ensures
        forall|i: int|
            0 <= i < scan_devices(in_section, ls, header).len() ==> {
                &&& (#[trigger] scan_devices(in_section, ls, header)[i]).name.len() > 0
                &&& scan_devices(in_section, ls, header)[i].available is None
            },
    decreases ls.len(),
{
    if ls.len() > 0 {
        lemma_scan_devices_named(true, ls.drop_first(), header);
        lemma_scan_devices_named(false, ls.drop_first(), header);
        let t = trim(ls[0]);
        let all = scan_devices(in_section, ls, header);
        if !contains(t, header) && in_section && !(t.len() == 0) && !(ends_with_char(t, ':')
            && !starts_with_char(t, '│') && !has_char(t, '.')) {
            let found = device_line(t);
            let rest = scan_devices(true, ls.drop_first(), header);
            assert(all == opt_seq(found) + rest);
            assert forall|i: int| 0 <= i < all.len() implies {
                &&& (#[trigger] all[i]).name.len() > 0
                &&& all[i].available is None
            } by {
                if found is Some && i == 0 {
                } else if found is Some {
                    assert(all[i] == rest[i - 1]);
                } else {
                    assert(all[i] == rest[i]);
                }
            }
        }
    }
}

/// A line that closes the device section whose header is `header`: once
/// trimmed, it does not name the header and is blank, or is another header
/// (ends in `:`, does not start with `│`, holds no `.`).
pub open spec fn closes_device_section(line: Seq<char>, header: Seq<char>) -> bool {
    let t = trim(line);
    &&& !contains(t, header)
    &&& (t.len() == 0 || (ends_with_char(t, ':') && !starts_with_char(t, '│') && !has_char(t, '.')))
}

proof fn lemma_scan_from_header(ls: Seq<Seq<char>>, header: Seq<char>, k: int)
    requires
        0 <= k < ls.len(),
        contains(trim(ls[k]), header),
        forall|i: int| 0 <= i < k ==> !contains(trim(#[trigger] ls[i]), header),
    ensures
        scan_devices(false, ls, header) == scan_devices(true, ls.skip(k + 1), header),
    decreases k,
{
    if k == 0 {
        assert(ls.drop_first() =~= ls.skip(1));
    } else {
        assert(!contains(trim(ls[0]), header));
        let rest = ls.drop_first();
        assert forall|i: int| 0 <= i < k - 1 implies !contains(trim(#[trigger] rest[i]), header) by {
            assert(rest[i] == ls[i + 1]);
        }
        assert(rest[k - 1] == ls[k]);
        lemma_scan_from_header(rest, header, k - 1);
        assert(rest.skip(k) =~= ls.skip(k + 1));
    }
}

proof fn lemma_section_devices_before_close(ls: Seq<Seq<char>>, header: Seq<char>, e: int)
    requires
        0 <= e <= ls.len(),
        e < ls.len() ==> closes_device_section(ls[e], header),
    ensures
        forall|i: int|
            0 <= i < scan_devices(true, ls, header).len() ==> exists|j: int|
                0 <= j < e && device_line(trim(ls[j])) == Some(
                    #[trigger] scan_devices(true, ls, header)[i],
                ),
    decreases ls.len(),
{
    let r = scan_devices(true, ls, header);
    if ls.len() > 0 {
        let t = trim(ls[0]);
        let rest = ls.drop_first();
        if e == 0 {
            assert(closes_device_section(ls[0], header));
            assert(r.len() == 0);
        } else {
            assert(e - 1 < rest.len() ==> rest[e - 1] == ls[e]);
            lemma_section_devices_before_close(rest, header, e - 1);
            let rr = scan_devices(true, rest, header);
            if contains(t, header) {
                assert forall|i: int| 0 <= i < r.len() implies exists|j: int|
                    0 <= j < e && device_line(trim(ls[j])) == Some(#[trigger] r[i]) by {
                    let j = choose|j: int|
                        0 <= j < e - 1 && device_line(trim(rest[j])) == Some(#[trigger] rr[i]);
                    assert(rest[j] == ls[j + 1]);
                }
            } else if t.len() == 0 || (ends_with_char(t, ':') && !starts_with_char(t, '│')
                && !has_char(t, '.')) {
                assert(r.len() == 0);
            } else {
                let found = device_line(t);
                assert(r == opt_seq(found) + rr);
                assert forall|i: int| 0 <= i < r.len() implies exists|j: int|
                    0 <= j < e && device_line(trim(ls[j])) == Some(#[trigger] r[i]) by {
                    if found is Some && i == 0 {
                        assert(device_line(trim(ls[0])) == Some(r[0]));
                    } else {
                        let o = if found is Some {
                            1int
                        } else {
                            0int
                        };
                        assert(r[i] == rr[i - o]);
                        let j = choose|j: int|
                            0 <= j < e - 1 && device_line(trim(rest[j])) == Some(
                                #[trigger] rr[i - o],
                            );
                        assert(rest[j] == ls[j + 1]);
                    }
                }
            }
        }
    }
}

proof fn lemma_section_device_is_listed(ls: Seq<Seq<char>>, header: Seq<char>, j: int)
    requires
        0 <= j < ls.len(),
        forall|m: int| 0 <= m <= j ==> !closes_device_section(#[trigger] ls[m], header),
        !contains(trim(ls[j]), header),
        device_line(trim(ls[j])) is Some,
    ensures
        scan_devices(true, ls, header).contains(device_line(trim(ls[j]))->0),
    decreases j,
{
    let r = scan_devices(true, ls, header);
    let t = trim(ls[0]);
    let rest = ls.drop_first();
    assert(!closes_device_section(ls[0], header));
    if j == 0 {
        assert(r == opt_seq(device_line(t)) + scan_devices(true, rest, header));
        assert(r[0] == device_line(t)->0);
    } else {
        assert forall|m: int| 0 <= m <= j - 1 implies !closes_device_section(
            #[trigger] rest[m],
            header,
        ) by {
            assert(rest[m] == ls[m + 1]);
        }
        assert(rest[j - 1] == ls[j]);
        lemma_section_device_is_listed(rest, header, j - 1);
        let rr = scan_devices(true, rest, header);
        let d = device_line(trim(ls[j]))->0;
        let i = choose|i: int| 0 <= i < rr.len() && rr[i] == d;
        if !contains(t, header) {
            let found = device_line(t);
            assert(r == opt_seq(found) + rr);
            if found is Some {
                assert(r[i + 1] == d);
            } else {
                assert(r[i] == d);
            }
        }
    }
}

/// The device that a line of a device section gives: none for a line that
/// names the header again, else what `device_line` reads from it.
pub open spec fn section_line_device(header: Seq<char>) -> spec_fn(Seq<char>) -> Option<DeviceModel> {
    |l: Seq<char>|
        if contains(trim(l), header) {
            None
        } else {
            device_line(trim(l))
        }
}

proof fn lemma_filter_map_prepend<A, B>(x: A, s: Seq<A>, f: spec_fn(A) -> Option<B>)
    ensures
        (seq![x] + s).filter_map(f) == opt_seq(f(x)) + s.filter_map(f),
    decreases s.len(),
{
    let u = seq![x] + s;
    if s.len() == 0 {
        assert(u =~= seq![x]);
        assert(u.drop_last() =~= Seq::<A>::empty());
        assert(u.last() == x);
        assert(s.filter_map(f) =~= Seq::<B>::empty());
        assert(u.drop_last().filter_map(f) =~= Seq::<B>::empty());
        assert(u.filter_map(f) =~= opt_seq(f(x)) + s.filter_map(f));
    } else {
        assert(u.drop_last() =~= seq![x] + s.drop_last());
        assert(u.last() == s.last());
        lemma_filter_map_prepend(x, s.drop_last(), f);
        assert(u.filter_map(f) =~= opt_seq(f(x)) + s.filter_map(f));
    }
}

proof fn lemma_section_exact(ls: Seq<Seq<char>>, header: Seq<char>, e: int)
    requires
        0 <= e <= ls.len(),
        forall|m: int| 0 <= m < e ==> !closes_device_section(#[trigger] ls[m], header),
        e < ls.len() ==> closes_device_section(ls[e], header),
    ensures
        scan_devices(true, ls, header) == ls.take(e).filter_map(section_line_device(header)),
    decreases ls.len(),
{
    let f = section_line_device(header);
    if e == 0 {
        assert(ls.take(0) =~= Seq::<Seq<char>>::empty());
        if ls.len() > 0 {
            assert(closes_device_section(ls[0], header));
        }
    } else {
        let rest = ls.drop_first();
        assert(!closes_device_section(ls[0], header));
        assert forall|m: int| 0 <= m < e - 1 implies !closes_device_section(#[trigger] rest[m], header)
            by {
            assert(rest[m] == ls[m + 1]);
        }
        assert(e - 1 < rest.len() ==> rest[e - 1] == ls[e]);
        lemma_section_exact(rest, header, e - 1);
        assert(ls.take(e) =~= seq![ls[0]] + rest.take(e - 1));
        lemma_filter_map_prepend(ls[0], rest.take(e - 1), f);
    }
}

/// `wpctl status` lists a type's devices in one section: the one opened by
/// the first line that names its header (`Sinks:` or `Sources:`, line `k`).
/// The section is closed by the first later line that is blank or is
/// another header (see `closes_device_section`), and no device is taken
/// from that line on, even where the header comes again later: every device
/// listed is what a line strictly between `k` and any closing line `e`
/// describes. Conversely, a line after `k` and before the first closing line
/// that describes a device (and does not name the header) gives that device.
/// When `e` is the first closing line (or the end), the devices are exactly
/// those of the lines between `k` and `e`, in order.
pub proof fn law_devices_come_from_their_section(s: Seq<char>, t: DeviceType, k: int, e: int)
    requires
        0 <= k < e <= lines(s).len(),
        contains(trim(lines(s)[k]), device_header(t)),
        forall|i: int| 0 <= i < k ==> !contains(trim(#[trigger] lines(s)[i]), device_header(t)),
        e < lines(s).len() ==> closes_device_section(lines(s)[e], device_header(t)),
    ensures
        forall|i: int|
            0 <= i < status_devices(s, t).len() ==> exists|j: int|
                k < j < e && device_line(trim(lines(s)[j])) == Some(
                    #[trigger] status_devices(s, t)[i],
                ),
        forall|j: int|
            k < j < lines(s).len() && !contains(trim(#[trigger] lines(s)[j]), device_header(t))
                && device_line(trim(lines(s)[j])) is Some && (forall|m: int|
                k < m <= j ==> !closes_device_section(#[trigger] lines(s)[m], device_header(t)))
                ==> status_devices(s, t).contains(device_line(trim(lines(s)[j]))->0),
        (forall|m: int| k < m < e ==> !closes_device_section(#[trigger] lines(s)[m], device_header(t)))
            ==> status_devices(s, t) == lines(s).subrange(k + 1, e).filter_map(
            section_line_device(device_header(t)),
        ),
{
    let ls = lines(s);
    let h = device_header(t);
    let inner = ls.skip(k + 1);
    lemma_scan_from_header(ls, h, k);
    assert(e - k - 1 < inner.len() ==> inner[e - k - 1] == ls[e]);
    lemma_section_devices_before_close(inner, h, e - k - 1);
    let r = status_devices(s, t);
    assert(r == scan_devices(true, inner, h));
    assert forall|i: int| 0 <= i < r.len() implies exists|j: int|
        k < j < e && device_line(trim(ls[j])) == Some(#[trigger] r[i]) by {
        let j = choose|j: int|
            0 <= j < e - k - 1 && device_line(trim(inner[j])) == Some(#[trigger] r[i]);
        assert(inner[j] == ls[j + k + 1]);
    }
    assert forall|j: int|
        k < j < ls.len() && !contains(trim(#[trigger] ls[j]), h) && device_line(trim(ls[j]))
            is Some && (forall|m: int| k < m <= j ==> !closes_device_section(#[trigger] ls[m], h))
        implies r.contains(device_line(trim(ls[j]))->0) by {
        assert forall|m: int| 0 <= m <= j - k - 1 implies !closes_device_section(
            #[trigger] inner[m],
            h,
        ) by {
            assert(inner[m] == ls[m + k + 1]);
        }
        assert(inner[j - k - 1] == ls[j]);
        lemma_section_device_is_listed(inner, h, j - k - 1);
    }
    if forall|m: int| k < m < e ==> !closes_device_section(#[trigger] ls[m], h) {
        assert forall|m: int| 0 <= m < e - k - 1 implies !closes_device_section(
            #[trigger] inner[m],
            h,
        ) by {
            assert(inner[m] == ls[m + k + 1]);
        }
        lemma_section_exact(inner, h, e - k - 1);
        assert(inner.take(e - k - 1) =~= ls.subrange(k + 1, e));
    }
}

/// Without a line that names its header, `wpctl status` lists no device of
/// the type.
pub proof fn law_no_devices_without_their_header(s: Seq<char>, t: DeviceType)
    requires
        forall|i: int| 0 <= i < lines(s).len() ==> !contains(trim(#[trigger] lines(s)[i]), device_header(t)),
    ensures
        status_devices(s, t).len() == 0,
{
    lemma_scan_without_header(lines(s), device_header(t));
}

proof fn lemma_scan_without_header(ls: Seq<Seq<char>>, header: Seq<char>)
    requires
        forall|i: int| 0 <= i < ls.len() ==> !contains(trim(#[trigger] ls[i]), header),
    ensures
        scan_devices(false, ls, header).len() == 0,
    decreases ls.len(),
{
    if ls.len() > 0 {
        assert(!contains(trim(ls[0]), header));
        let rest = ls.drop_first();
        assert forall|i: int| 0 <= i < rest.len() implies !contains(trim(#[trigger] rest[i]), header) by {
            assert(rest[i] == ls[i + 1]);
        }
        lemma_scan_without_header(rest, header);
    }
}

} // verus!
