//! Port availability from `pactl list sinks` / `pactl list sources`.
//!
//! `wpctl status` does not say whether a device's port is plugged in;
//! `pactl` does, with port lines such as
//! `[Out] HDMI3: HDMI / DisplayPort 3 (type: HDMI, priority: 5900, not available)`.
use vstd::prelude::*;

use crate::text::{
    chars_of, contains, contains_str, equals_str, line_views, lines, parse_u32, parse_u32_of,
    split_lines, starts_with_char, string_from_chars, strip_prefix, strip_prefix_str, trim,
    trim_ws,
};
use crate::wpctl::{device_views, Device, DeviceModel, DeviceType};

verus! {

/// Where a scan of `pactl list` output is.
#[derive(Debug, Clone, Copy, PartialEq, Eq, Structural)]
pub struct PortScan {
    /// The id of the sink or source whose block is being read, if readable.
    pub current_id: Option<u32>,
    /// Whether the scan is in that block's list of ports.
    pub in_ports: bool,
}

pub open spec fn port_scan_start() -> PortScan {
    PortScan { current_id: None, in_ports: false }
}

/// The number after `Sink #` or `Source #` on a line that starts a block.
pub open spec fn block_number(t: Seq<char>) -> Option<Seq<char>> {
    match strip_prefix(t, "Sink #"@) {
        Some(r) => Some(r),
        None => strip_prefix(t, "Source #"@),
    }
}

/// What a port line says of availability: `not available`, `available`,
/// or nothing.
pub open spec fn port_state(t: Seq<char>) -> Option<bool> {
    if contains(t, "not available"@) {
        Some(false)
    } else if contains(t, "available"@) {
        Some(true)
    } else {
        None
    }
}

/// The index of the first device with the id.
pub open spec fn first_with_id(devs: Seq<DeviceModel>, id: u32) -> Option<int> {
    if exists|k: int| 0 <= k < devs.len() && devs[k].id == id {
        Some(
            choose|k: int|
                0 <= k < devs.len() && devs[k].id == id && forall|j: int|
                    0 <= j < k ==> devs[j].id != id,
        )
    } else {
        None
    }
}

/// `devs` with the availability of the first device with the id set to `a`.
pub open spec fn mark_available(devs: Seq<DeviceModel>, id: u32, a: bool) -> Seq<DeviceModel> {
    match first_with_id(devs, id) {
        Some(k) => devs.update(k, DeviceModel { available: Some(a), ..devs[k] }),
        None => devs,
    }
}

/// How one line of `pactl list` output moves the scan.
pub open spec fn port_scan_next(st: PortScan, line: Seq<char>) -> PortScan {
    let t = trim(line);
    match block_number(t) {
        Some(r) => PortScan { current_id: parse_u32(trim(r)), in_ports: false },
        None => if t == "Ports:"@ {
            PortScan { in_ports: true, ..st }
        } else {
            PortScan { in_ports: st.in_ports && starts_with_char(t, '['), ..st }
        },
    }
}

/// What one line of `pactl list` output does to the devices: a port line
/// of the current block that states availability marks the block's device.
pub open spec fn port_line_effect(st: PortScan, line: Seq<char>, devs: Seq<DeviceModel>) -> Seq<
    DeviceModel,
> {
    let t = trim(line);
    let next = port_scan_next(st, line);
    if block_number(t) is None && t != "Ports:"@ && next.in_ports {
        match (st.current_id, port_state(t)) {
            (Some(id), Some(a)) => mark_available(devs, id, a),
            _ => devs,
        }
    } else {
        devs
    }
}

/// The devices after the lines `ls` of `pactl list` output, read from scan
/// state `st` on, have marked their availability.
pub open spec fn scan_ports(devs: Seq<DeviceModel>, st: PortScan, ls: Seq<Seq<char>>) -> Seq<
    DeviceModel,
>
    decreases ls.len(),
{
    if ls.len() == 0 {
        devs
    } else {
        scan_ports(
            port_line_effect(st, ls[0], devs),
            port_scan_next(st, ls[0]),
            ls.drop_first(),
        )
    }
}

/// The devices with the availability that `pactl list` output reports.
pub open spec fn with_availability(devs: Seq<DeviceModel>, pactl_output: Seq<char>) -> Seq<
    DeviceModel,
> {
    scan_ports(devs, port_scan_start(), lines(pactl_output))
}

/// The `pactl` arguments that list the devices of a type with their ports.
pub open spec fn availability_query(t: DeviceType) -> Seq<Seq<char>> {
    match t {
        DeviceType::Sink => seq!["list"@, "sinks"@],
        DeviceType::Source => seq!["list"@, "sources"@],
    }
}

/// The arguments of the `pactl` command whose output
/// `enrich_device_availability` reads.
pub fn availability_args(device_type: DeviceType) -> (r: Vec<String>)
    ensures
        r@.map_values(|a: String| a@) == availability_query(device_type),
{
    let mut r: Vec<String> = Vec::new();
    r.push(string_from_chars(chars_of("list")));
    match device_type {
        DeviceType::Sink => r.push(string_from_chars(chars_of("sinks"))),
        DeviceType::Source => r.push(string_from_chars(chars_of("sources"))),
    }
    assert(r@.map_values(|a: String| a@) =~= availability_query(device_type));
    r
}

/// Sets the availability of the first device with the id.
fn mark_available_in(devices: &mut Vec<Device>, id: u32, a: bool)
    ensures
        device_views(final(devices)@) == mark_available(device_views(old(devices)@), id, a),
{
    let ghost before = device_views(devices@);
    let mut k: usize = 0;
    while k < devices.len()
        invariant
            k <= devices.len(),
            before == device_views(devices@),
            before == device_views(old(devices)@),
            forall|j: int| 0 <= j < k ==> devices@[j].id != id,
        decreases devices.len() - k,
    {
        if devices[k].id == id {
            proof {
                assert(before[k as int].id == id);
                let m = first_with_id(before, id)->0;
                assert(0 <= m < before.len() && before[m].id == id);
                if m < k {
                    assert(before[m].id == devices@[m].id);
                }
                if m > k {
                    assert(before[k as int].id != id);
                }
                assert(first_with_id(before, id) == Some(k as int));
            }
            let mut d = devices.remove(k);
            d.available = Some(a);
            devices.insert(k, d);
            assert(device_views(devices@) =~= before.update(
                k as int,
                DeviceModel { available: Some(a), ..before[k as int] },
            ));
            return;
        }
        k += 1;
    }
    assert(!exists|j: int| 0 <= j < before.len() && before[j].id == id) by {
        assert forall|j: int| 0 <= j < before.len() implies before[j].id != id by {
            assert(before[j].id == devices@[j].id);
        }
    }
}

/// `port_scan_next` and `port_line_effect` on a line.
fn port_line_of(st: PortScan, line: &Vec<char>, devices: &mut Vec<Device>) -> (r: PortScan)
    ensures
        r == port_scan_next(st, line@),
        device_views(final(devices)@) == port_line_effect(st, line@, device_views(old(devices)@)),
{
    let t = trim_ws(line);
    let number = match strip_prefix_str(&t, "Sink #") {
        Some(r) => Some(r),
        None => strip_prefix_str(&t, "Source #"),
    };
    match number {
        Some(r) => {
            return PortScan { current_id: parse_u32_of(&trim_ws(&r)), in_ports: false };
        },
        None => {},
    }
    if equals_str(&t, "Ports:") {
        return PortScan { in_ports: true, ..st };
    }
    let in_ports = st.in_ports && t.len() > 0 && t[0] == '[';
    if in_ports {
        match st.current_id {
            Some(id) => {
                if contains_str(&t, "not available") {
                    mark_available_in(devices, id, false);
                } else if contains_str(&t, "available") {
                    mark_available_in(devices, id, true);
                }
            },
            None => {},
        }
    }
    PortScan { in_ports, ..st }
}

/// Marks the availability of devices from `pactl list sinks` (or `sources`)
/// output: each port line of a device's block that says `not available`
/// or `available` sets the device's `available` (see `with_availability`).
/// Nothing else of the devices changes.
pub fn enrich_device_availability(devices: &mut Vec<Device>, pactl_output: &str)
    ensures
        device_views(final(devices)@) == with_availability(
            device_views(old(devices)@),
            pactl_output@,
        ),
{
    let text = chars_of(pactl_output);
    let ls = split_lines(&text);
    let ghost all = lines(text@);
    let ghost start = device_views(devices@);
    let mut st = PortScan { current_id: None, in_ports: false };
    let mut i: usize = 0;
    assert(all.skip(0) =~= all);
    while i < ls.len()
        invariant
            i <= ls.len(),
            all == lines(text@),
            line_views(ls@) == all,
            scan_ports(device_views(devices@), st, all.skip(i as int)) == scan_ports(
                start,
                port_scan_start(),
                all,
            ),
        decreases ls.len() - i,
    {
        let ghost rest = all.skip(i as int);
        assert(rest[0] == ls@[i as int]@);
        assert(rest.drop_first() =~= all.skip(i + 1));
        st = port_line_of(st, &ls[i], devices);
        i += 1;
    }
    assert(all.skip(i as int) =~= Seq::<Seq<char>>::empty());
}

// ---------------------------------------------------------------------------
// Laws.
// ---------------------------------------------------------------------------

/// Two device lists that differ at most in availability.
pub open spec fn same_but_availability(a: Seq<DeviceModel>, b: Seq<DeviceModel>) -> bool {
    &&& a.len() == b.len()
    &&& forall|i: int|
        0 <= i < a.len() ==> {
            &&& (#[trigger] a[i]).id == b[i].id
            &&& a[i].name == b[i].name
            &&& a[i].is_default == b[i].is_default
        }
}

proof fn lemma_mark_keeps(devs: Seq<DeviceModel>, id: u32, a: bool)
    ensures
        same_but_availability(mark_available(devs, id, a), devs),
{
    if exists|k: int| 0 <= k < devs.len() && devs[k].id == id {
        let k = choose|k: int| 0 <= k < devs.len() && devs[k].id == id;
        lemma_first_with_id(devs, id, k);
    }
}

proof fn lemma_first_with_id(devs: Seq<DeviceModel>, id: u32, k: int)
    requires
        0 <= k < devs.len(),
        devs[k].id == id,
    ensures
        exists|m: int|
            0 <= m < devs.len() && devs[m].id == id && forall|j: int|
                0 <= j < m ==> devs[j].id != id,
    decreases k,
{
    if exists|j: int| 0 <= j < k && devs[j].id == id {
        let j = choose|j: int| 0 <= j < k && devs[j].id == id;
        lemma_first_with_id(devs, id, j);
    }
}

proof fn lemma_scan_ports_keeps(devs: Seq<DeviceModel>, st: PortScan, ls: Seq<Seq<char>>)
    ensures
        same_but_availability(scan_ports(devs, st, ls), devs),
    decreases ls.len(),
{
    if ls.len() > 0 {
        let d2 = port_line_effect(st, ls[0], devs);
        if let (Some(id), Some(a)) = (st.current_id, port_state(trim(ls[0]))) {
            lemma_mark_keeps(devs, id, a);
        }
        assert(same_but_availability(d2, devs));
        lemma_scan_ports_keeps(d2, port_scan_next(st, ls[0]), ls.drop_first());
    }
}

/// Reading availability from `pactl` changes nothing of the devices but
/// their availability: the same devices, in the same order, with the same
/// ids, names and default marks.
pub proof fn law_availability_changes_only_availability(
    devs: Seq<DeviceModel>,
    pactl_output: Seq<char>,
)
    ensures
        same_but_availability(with_availability(devs, pactl_output), devs),
{
    lemma_scan_ports_keeps(devs, port_scan_start(), lines(pactl_output));
}

/// A line of `pactl list` output that starts a sink's or source's block:
/// once trimmed, it begins with `Sink #` or `Source #`.
pub open spec fn starts_pactl_block(line: Seq<char>) -> bool {
    strip_prefix(trim(line), "Sink #"@) is Some || strip_prefix(trim(line), "Source #"@) is Some
}

/// A line of `pactl list` output that neither starts a block, nor opens a
/// port list, nor is a port line.
pub open spec fn quiet_pactl_line(line: Seq<char>) -> bool {
    &&& !starts_pactl_block(line)
    &&& trim(line) != "Ports:"@
    &&& !starts_with_char(trim(line), '[')
}

/// `k` is the first device with the id.
pub open spec fn first_device_with_id(devs: Seq<DeviceModel>, id: u32, k: int) -> bool {
    &&& 0 <= k < devs.len()
    &&& devs[k].id == id
    &&& forall|j: int| 0 <= j < k ==> devs[j].id != id
}

proof fn lemma_first_kept(a: Seq<DeviceModel>, b: Seq<DeviceModel>, id: u32, k: int)
    requires
        same_but_availability(a, b),
        first_device_with_id(b, id, k),
    ensures
        first_device_with_id(a, id, k),
{
    assert forall|j: int| 0 <= j < k implies a[j].id != id by {
        assert(a[j].id == b[j].id);
    }
}

proof fn lemma_same_trans(a: Seq<DeviceModel>, b: Seq<DeviceModel>, c: Seq<DeviceModel>)
    requires
        same_but_availability(a, b),
        same_but_availability(b, c),
    ensures
        same_but_availability(a, c),
{
    assert forall|i: int| 0 <= i < a.len() implies {
        &&& (#[trigger] a[i]).id == c[i].id
        &&& a[i].name == c[i].name
        &&& a[i].is_default == c[i].is_default
    } by {
        assert(a[i].id == b[i].id && b[i].id == c[i].id);
    }
}

proof fn lemma_mark_first(devs: Seq<DeviceModel>, id: u32, a: bool, k: int)
    requires
        first_device_with_id(devs, id, k),
    ensures
        mark_available(devs, id, a)[k].available == Some(a),
        mark_available(devs, id, a).len() == devs.len(),
{
    lemma_first_with_id(devs, id, k);
    let m = first_with_id(devs, id)->0;
    assert(0 <= m < devs.len() && devs[m].id == id);
    if m < k {
        assert(devs[m].id != id);
    }
    if m > k {
        assert(devs[k].id != id);
    }
    assert(m == k);
}

proof fn lemma_effect_keeps(st: PortScan, line: Seq<char>, devs: Seq<DeviceModel>)
    ensures
        same_but_availability(port_line_effect(st, line, devs), devs),
{
    if let (Some(id), Some(a)) = (st.current_id, port_state(trim(line))) {
        lemma_mark_keeps(devs, id, a);
    }
}

proof fn lemma_block_start(line: Seq<char>)
    ensures
        starts_pactl_block(line) <==> block_number(trim(line)) is Some,
        strip_prefix(trim(line), "Source #"@) is Some ==> block_number(trim(line)) == strip_prefix(
            trim(line),
            "Source #"@,
        ),
        strip_prefix(trim(line), "Sink #"@) is Some ==> block_number(trim(line)) == strip_prefix(
            trim(line),
            "Sink #"@,
        ),
        starts_with_char(trim(line), '[') ==> !starts_pactl_block(line) && trim(line) != "Ports:"@,
        trim(line) == "Ports:"@ ==> !starts_pactl_block(line),
{
    reveal_strlit("Sink #");
    reveal_strlit("Source #");
    reveal_strlit("Ports:");
    let t = trim(line);
    if strip_prefix(t, "Source #"@) is Some {
        assert(t[1] == t.take(8)[1]);
        assert(strip_prefix(t, "Sink #"@) is None) by {
            if strip_prefix(t, "Sink #"@) is Some {
                assert(t[1] == t.take(6)[1]);
            }
        }
    }
    if starts_with_char(t, '[') {
        if strip_prefix(t, "Sink #"@) is Some {
            assert(t[0] == t.take(6)[0]);
        }
        if strip_prefix(t, "Source #"@) is Some {
            assert(t[0] == t.take(8)[0]);
        }
        assert(t[0] != "Ports:"@[0]);
    }
    if t == "Ports:"@ {
        assert(t.len() == 6);
        if strip_prefix(t, "Sink #"@) is Some {
            assert(t[0] == t.take(6)[0]);
        }
        assert(strip_prefix(t, "Source #"@) is None);
    }
}

proof fn lemma_prefix_keeps(devs: Seq<DeviceModel>, st: PortScan, ls: Seq<Seq<char>>, b: int) -> (r:
    (Seq<DeviceModel>, PortScan))
    requires
        0 <= b <= ls.len(),
    ensures
        same_but_availability(r.0, devs),
        scan_ports(devs, st, ls) == scan_ports(r.0, r.1, ls.skip(b)),
    decreases b,
{
    if b == 0 {
        assert(ls.skip(0) =~= ls);
        (devs, st)
    } else {
        let d1 = port_line_effect(st, ls[0], devs);
        lemma_effect_keeps(st, ls[0], devs);
        let r = lemma_prefix_keeps(d1, port_scan_next(st, ls[0]), ls.drop_first(), b - 1);
        assert(ls.drop_first().skip(b - 1) =~= ls.skip(b));
        lemma_same_trans(r.0, d1, devs);
        r
    }
}

proof fn lemma_quiet_tail(devs: Seq<DeviceModel>, st: PortScan, ls: Seq<Seq<char>>)
    requires
        forall|m: int| 0 <= m < ls.len() ==> quiet_pactl_line(#[trigger] ls[m]),
    ensures
        scan_ports(devs, st, ls) == devs,
    decreases ls.len(),
{
    if ls.len() > 0 {
        assert(quiet_pactl_line(ls[0]));
        lemma_block_start(ls[0]);
        let rest = ls.drop_first();
        assert forall|m: int| 0 <= m < rest.len() implies quiet_pactl_line(#[trigger] rest[m]) by {
            assert(rest[m] == ls[m + 1]);
        }
        lemma_quiet_tail(devs, port_scan_next(st, ls[0]), rest);
    }
}

proof fn lemma_port_lines(
    devs: Seq<DeviceModel>,
    n: u32,
    k: int,
    ls: Seq<Seq<char>>,
    q: int,
    a: bool,
)
    requires
        0 <= q < ls.len(),
        first_device_with_id(devs, n, k),
        forall|m: int| 0 <= m <= q ==> starts_with_char(trim(#[trigger] ls[m]), '['),
        port_state(trim(ls[q])) == Some(a),
        forall|m: int| q < m < ls.len() ==> quiet_pactl_line(#[trigger] ls[m]),
    ensures
        scan_ports(devs, PortScan { current_id: Some(n), in_ports: true }, ls).len() == devs.len(),
        scan_ports(devs, PortScan { current_id: Some(n), in_ports: true }, ls)[k].available == Some(
            a,
        ),
    decreases q,
{
    let st = PortScan { current_id: Some(n), in_ports: true };
    assert(starts_with_char(trim(ls[0]), '['));
    lemma_block_start(ls[0]);
    assert(port_scan_next(st, ls[0]) == st);
    let d1 = port_line_effect(st, ls[0], devs);
    let rest = ls.drop_first();
    if q == 0 {
        assert(d1 == mark_available(devs, n, a));
        lemma_mark_first(devs, n, a, k);
        assert forall|m: int| 0 <= m < rest.len() implies quiet_pactl_line(#[trigger] rest[m]) by {
            assert(rest[m] == ls[m + 1]);
        }
        lemma_quiet_tail(d1, st, rest);
    } else {
        lemma_effect_keeps(st, ls[0], devs);
        lemma_first_kept(d1, devs, n, k);
        assert forall|m: int| 0 <= m <= q - 1 implies starts_with_char(trim(#[trigger] rest[m]), '[')
            by {
            assert(rest[m] == ls[m + 1]);
        }
        assert forall|m: int| q - 1 < m < rest.len() implies quiet_pactl_line(#[trigger] rest[m]) by {
            assert(rest[m] == ls[m + 1]);
        }
        assert(rest[q - 1] == ls[q]);
        lemma_port_lines(d1, n, k, rest, q - 1, a);
    }
}

proof fn lemma_block_body(
    devs: Seq<DeviceModel>,
    n: u32,
    k: int,
    in_ports: bool,
    ls: Seq<Seq<char>>,
    p: int,
    q: int,
    a: bool,
)
    requires
        0 <= p < q < ls.len(),
        first_device_with_id(devs, n, k),
        forall|m: int| 0 <= m < p ==> !starts_pactl_block(#[trigger] ls[m]),
        trim(ls[p]) == "Ports:"@,
        forall|m: int| p < m <= q ==> starts_with_char(trim(#[trigger] ls[m]), '['),
        port_state(trim(ls[q])) == Some(a),
        forall|m: int| q < m < ls.len() ==> quiet_pactl_line(#[trigger] ls[m]),
    ensures
        scan_ports(devs, PortScan { current_id: Some(n), in_ports }, ls).len() == devs.len(),
        scan_ports(devs, PortScan { current_id: Some(n), in_ports }, ls)[k].available == Some(a),
    decreases p,
{
    let st = PortScan { current_id: Some(n), in_ports };
    lemma_block_start(ls[0]);
    let d1 = port_line_effect(st, ls[0], devs);
    let next = port_scan_next(st, ls[0]);
    let rest = ls.drop_first();
    lemma_effect_keeps(st, ls[0], devs);
    lemma_first_kept(d1, devs, n, k);
    assert forall|m: int| q - 1 < m < rest.len() implies quiet_pactl_line(#[trigger] rest[m]) by {
        assert(rest[m] == ls[m + 1]);
    }
    assert forall|m: int| p - 1 < m <= q - 1 implies starts_with_char(trim(#[trigger] rest[m]), '[')
        by {
        assert(rest[m] == ls[m + 1]);
    }
    assert(rest[q - 1] == ls[q]);
    if p == 0 {
        assert(next == PortScan { current_id: Some(n), in_ports: true });
        lemma_port_lines(d1, n, k, rest, q - 1, a);
    } else {
        assert(!starts_pactl_block(ls[0]));
        assert(next.current_id == Some(n));
        assert forall|m: int| 0 <= m < p - 1 implies !starts_pactl_block(#[trigger] rest[m]) by {
            assert(rest[m] == ls[m + 1]);
        }
        assert(rest[p - 1] == ls[p]);
        lemma_block_body(d1, n, k, next.in_ports, rest, p - 1, q - 1, a);
    }
}

/// How `pactl list` output marks a device. Take a block started by line `b`
/// (`Sink #<r>` or `Source #<r>`, where `<r>` reads as the id `n`: a
/// source's block is read as a sink's is), its `Ports:` line `p` with no
/// other block started in between, and port lines (starting with `[`) from
/// there to line `q`, after which no line starts a block, opens a port list
/// or is a port line. Then the first device with id `n` ends up unavailable
/// when line `q` says `not available`, and available when it says
/// `available` but not `not available`; the list keeps its length.
pub proof fn law_port_lines_mark_their_device(
    devs: Seq<DeviceModel>,
    out: Seq<char>,
    b: int,
    p: int,
    q: int,
    r: Seq<char>,
    n: u32,
    k: int,
)
    requires
        0 <= b < p < q < lines(out).len(),
        strip_prefix(trim(lines(out)[b]), "Sink #"@) == Some(r) || strip_prefix(
            trim(lines(out)[b]),
            "Source #"@,
        ) == Some(r),
        parse_u32(trim(r)) == Some(n),
        forall|m: int| b < m < p ==> !starts_pactl_block(#[trigger] lines(out)[m]),
        trim(lines(out)[p]) == "Ports:"@,
        forall|m: int| p < m <= q ==> starts_with_char(trim(#[trigger] lines(out)[m]), '['),
        forall|m: int| q < m < lines(out).len() ==> quiet_pactl_line(#[trigger] lines(out)[m]),
        first_device_with_id(devs, n, k),
    ensures
        with_availability(devs, out).len() == devs.len(),
        contains(trim(lines(out)[q]), "not available"@) ==> with_availability(devs, out)[k].available
            == Some(false),
        !contains(trim(lines(out)[q]), "not available"@) && contains(
            trim(lines(out)[q]),
            "available"@,
        ) ==> with_availability(devs, out)[k].available == Some(true),
{
    let ls = lines(out);
    let pr = lemma_prefix_keeps(devs, port_scan_start(), ls, b);
    let (d0, st0) = pr;
    lemma_first_kept(d0, devs, n, k);
    let tail = ls.skip(b);
    assert(tail[0] == ls[b]);
    lemma_block_start(ls[b]);
    assert(block_number(trim(tail[0])) == Some(r));
    let st1 = port_scan_next(st0, tail[0]);
    assert(st1 == PortScan { current_id: Some(n), in_ports: false });
    assert(port_line_effect(st0, tail[0], d0) == d0);
    let body = tail.drop_first();
    assert(body =~= ls.skip(b + 1));
    assert forall|m: int| 0 <= m < p - b - 1 implies !starts_pactl_block(#[trigger] body[m]) by {
        assert(body[m] == ls[m + b + 1]);
    }
    assert forall|m: int| p - b - 1 < m <= q - b - 1 implies starts_with_char(
        trim(#[trigger] body[m]),
        '[',
    ) by {
        assert(body[m] == ls[m + b + 1]);
    }
    assert forall|m: int| q - b - 1 < m < body.len() implies quiet_pactl_line(#[trigger] body[m]) by {
        assert(body[m] == ls[m + b + 1]);
    }
    assert(body[p - b - 1] == ls[p]);
    assert(body[q - b - 1] == ls[q]);
    let t = trim(ls[q]);
    if contains(t, "not available"@) {
        lemma_block_body(d0, n, k, false, body, p - b - 1, q - b - 1, false);
    } else if contains(t, "available"@) {
        lemma_block_body(d0, n, k, false, body, p - b - 1, q - b - 1, true);
    }
    lemma_scan_ports_keeps(devs, port_scan_start(), ls);
}

proof fn lemma_no_port_lines(devs: Seq<DeviceModel>, st: PortScan, ls: Seq<Seq<char>>)
    requires
        forall|m: int| 0 <= m < ls.len() ==> !starts_with_char(trim(#[trigger] ls[m]), '['),
    ensures
        scan_ports(devs, st, ls) == devs,
    decreases ls.len(),
{
    if ls.len() > 0 {
        assert(!starts_with_char(trim(ls[0]), '['));
        let rest = ls.drop_first();
        assert forall|m: int| 0 <= m < rest.len() implies !starts_with_char(
            trim(#[trigger] rest[m]),
            '[',
        ) by {
            assert(rest[m] == ls[m + 1]);
        }
        lemma_no_port_lines(devs, port_scan_next(st, ls[0]), rest);
    }
}

/// Only port lines (starting with `[` once trimmed) mark devices: `pactl`
/// output without any leaves the devices as they were, whatever else its
/// lines say of availability.
pub proof fn law_only_port_lines_mark_devices(devs: Seq<DeviceModel>, out: Seq<char>)
    requires
        forall|m: int| 0 <= m < lines(out).len() ==> !starts_with_char(trim(#[trigger] lines(out)[m]), '['),
    ensures
        with_availability(devs, out) == devs,
{
    lemma_no_port_lines(devs, port_scan_start(), lines(out));
}

} // verus!
