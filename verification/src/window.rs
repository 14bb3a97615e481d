//! The decisions of the mixer's window: which devices its dropdowns offer
//! and select, when its stream list is rebuilt, and what it says about it.
use vstd::prelude::*;

use crate::text::{decimal, decimal_of, i32_decimal, int_decimal, push_all, push_str, string_from_chars};
use crate::volume::percent_of;
use crate::wpctl::{
    device_views, type_label, stream_views, Device, DeviceModel, Stream, StreamModel,
    VolumeInfo,
};

verus! {

// ---------------------------------------------------------------------------
// Device dropdowns.
// ---------------------------------------------------------------------------

/// A device is offered unless its port is known to be unplugged.
pub open spec fn offered(d: DeviceModel) -> bool {
    d.available != Some(false)
}

/// The devices that are offered, in order.
pub open spec fn offered_devices(ds: Seq<DeviceModel>) -> Seq<DeviceModel>
    decreases ds.len(),
{
    if ds.len() == 0 {
        ds
    } else {
        let r = offered_devices(ds.drop_last());
        if offered(ds.last()) {
            r.push(ds.last())
        } else {
            r
        }
    }
}

/// Keeps the devices whose port is not known to be unplugged
/// (`retain(|d| d.available != Some(false))`).
pub fn available_devices(devices: Vec<Device>) -> (r: Vec<Device>)
    ensures
        device_views(r@) == offered_devices(device_views(devices@)),
{
    let ghost all = device_views(devices@);
    let mut rest = devices;
    let mut kept: Vec<Device> = Vec::new();
    let ghost mut taken: int = 0;
    assert(device_views(kept@) =~= offered_devices(all.take(0)));
    assert(all.skip(0) =~= all);
    while rest.len() > 0
        invariant
            0 <= taken <= all.len(),
            device_views(rest@) == all.skip(taken),
            device_views(kept@) == offered_devices(all.take(taken)),
        decreases rest.len(),
    {
        let ghost rb = device_views(rest@);
        assert(rb.len() == rest@.len());
        assert(taken < all.len());
        assert(rb[0] == rest@[0]@);
        let ghost ro = rest@;
        let d = rest.remove(0);
        let ghost dv = d@;
        assert(dv == all[taken]);
        assert forall|j: int| 0 <= j < rest@.len() implies #[trigger] device_views(rest@)[j]
            == all.skip(taken + 1)[j] by {
            assert(rest@[j] == ro[j + 1]);
            assert(rb[j + 1] == ro[j + 1]@);
        }
        assert(device_views(rest@) =~= all.skip(taken + 1));
        assert(all.take(taken + 1).drop_last() =~= all.take(taken));
        let ghost before = device_views(kept@);
        if d.available != Some(false) {
            kept.push(d);
            assert(device_views(kept@) =~= before.push(dv));
        }
        proof {
            taken = taken + 1;
        }
    }
    assert(all.take(taken) =~= all);
    kept
}

/// The index of the last default device, or 0 when none is the default,
/// as the dropdown's `u32` position.
pub open spec fn default_position(ds: Seq<DeviceModel>) -> u32
    decreases ds.len(),
{
    if ds.len() == 0 {
        0
    } else if ds.last().is_default {
        (ds.len() - 1) as u32
    } else {
        default_position(ds.drop_last())
    }
}

/// The dropdown position to select: that of the last default device, else 0.
pub fn default_device_index(devices: &Vec<Device>) -> (r: u32)
    ensures
        r == default_position(device_views(devices@)),
{
    let ghost all = device_views(devices@);
    let mut idx: u32 = 0;
    let mut i: usize = 0;
    while i < devices.len()
        invariant
            i <= devices.len(),
            all == device_views(devices@),
            idx == default_position(all.take(i as int)),
        decreases devices.len() - i,
    {
        assert(all.take(i + 1).drop_last() =~= all.take(i as int));
        assert(all.take(i + 1).last() == devices@[i as int]@);
        if devices[i].is_default {
            idx = i as u32;
        }
        i += 1;
    }
    assert(all.take(devices.len() as int) =~= all);
    idx
}

// ---------------------------------------------------------------------------
// The stream list.
// ---------------------------------------------------------------------------

/// The ids of streams, in order.
pub open spec fn ids_of(ss: Seq<StreamModel>) -> Seq<u32> {
    ss.map_values(|s: StreamModel| s.id)
}

/// The ids of the streams, in order.
pub fn stream_ids(streams: &Vec<Stream>) -> (r: Vec<u32>)
    ensures
        r@ == ids_of(stream_views(streams@)),
{
    let mut r: Vec<u32> = Vec::new();
    let mut i: usize = 0;
    while i < streams.len()
        invariant
            i <= streams.len(),
            r@ == ids_of(stream_views(streams@)).take(i as int),
        decreases streams.len() - i,
    {
        r.push(streams[i].id);
        i += 1;
        assert(r@ =~= ids_of(stream_views(streams@)).take(i as int));
    }
    assert(ids_of(stream_views(streams@)).take(streams.len() as int) =~= ids_of(
        stream_views(streams@),
    ));
    r
}

/// Two id lists hold the same streams: the same set of ids, in whatever
/// order and however often each is listed.
pub open spec fn same_streams(a: Seq<u32>, b: Seq<u32>) -> bool {
    forall|x: u32| #[trigger] a.contains(x) == b.contains(x)
}

/// Whether two id lists hold the same streams (see `same_streams`).
pub fn same_ids(a: &Vec<u32>, b: &Vec<u32>) -> (r: bool)
    ensures
        r == same_streams(a@, b@),
{
    let mut i: usize = 0;
    while i < a.len()
        invariant
            i <= a.len(),
            forall|k: int| 0 <= k < i ==> b@.contains(#[trigger] a@[k]),
        decreases a.len() - i,
    {
        if !holds(b, a[i]) {
            assert(a@.contains(a@[i as int]));
            return false;
        }
        i += 1;
    }
    let mut j: usize = 0;
    while j < b.len()
        invariant
            j <= b.len(),
            forall|k: int| 0 <= k < a.len() ==> b@.contains(#[trigger] a@[k]),
            forall|k: int| 0 <= k < j ==> a@.contains(#[trigger] b@[k]),
        decreases b.len() - j,
    {
        if !holds(a, b[j]) {
            assert(b@.contains(b@[j as int]));
            return false;
        }
        j += 1;
    }
    assert forall|x: u32| #[trigger] a@.contains(x) == b@.contains(x) by {
        if a@.contains(x) {
            let k = choose|k: int| 0 <= k < a@.len() && a@[k] == x;
            assert(b@.contains(a@[k]));
        }
        if b@.contains(x) {
            let k = choose|k: int| 0 <= k < b@.len() && b@[k] == x;
            assert(a@.contains(b@[k]));
        }
    }
    true
}

/// How many entries of `a` are ids that `b` does not hold.
pub open spec fn missing_from(a: Seq<u32>, b: Seq<u32>) -> nat
    decreases a.len(),
{
    if a.len() == 0 {
        0
    } else {
        missing_from(a.drop_last(), b) + (if b.contains(a.last()) {
            0nat
        } else {
            1nat
        })
    }
}

fn holds(v: &Vec<u32>, x: u32) -> (r: bool)
    ensures
        r == v@.contains(x),
{
    let mut i: usize = 0;
    while i < v.len()
        invariant
            i <= v.len(),
            forall|k: int| 0 <= k < i ==> v@[k] != x,
        decreases v.len() - i,
    {
        if v[i] == x {
            assert(v@[i as int] == x);
            return true;
        }
        i += 1;
    }
    false
}

fn missing_count(a: &Vec<u32>, b: &Vec<u32>) -> (r: usize)
    ensures
        r == missing_from(a@, b@),
{
    let mut n: usize = 0;
    let mut i: usize = 0;
    while i < a.len()
        invariant
            i <= a.len(),
            n == missing_from(a@.take(i as int), b@),
            n <= i,
        decreases a.len() - i,
    {
        assert(a@.take(i + 1).drop_last() =~= a@.take(i as int));
        if !holds(b, a[i]) {
            n += 1;
        }
        i += 1;
    }
    assert(a@.take(a.len() as int) =~= a@);
    n
}

/// The description of the stream list: `"No active audio streams"`, or
/// `"<n> active audio stream"` with an `s` unless there is exactly one.
pub open spec fn description_of(count: u32) -> Seq<char> {
    if count == 0 {
        "No active audio streams"@
    } else {
        decimal(count as nat) + " active audio stream"@ + (if count == 1 {
            ""@
        } else {
            "s"@
        })
    }
}

/// `description_of` as a string.
pub fn streams_description(count: u32) -> (r: String)
    ensures
        r@ == description_of(count),
{
    let mut m: Vec<char> = Vec::new();
    if count == 0 {
        push_str(&mut m, "No active audio streams");
    } else {
        let d = decimal_of(count as u64);
        push_all(&mut m, &d);
        push_str(&mut m, " active audio stream");
        if count == 1 {
            push_str(&mut m, "");
        } else {
            push_str(&mut m, "s");
        }
    }
    string_from_chars(m)
}

/// The words for `n` streams that came.
pub open spec fn appeared_text(n: nat) -> Seq<char> {
    if n == 1 {
        "New audio stream appeared"@
    } else {
        decimal(n) + " new audio streams appeared"@
    }
}

/// The words for `n` streams that went.
pub open spec fn removed_text(n: nat) -> Seq<char> {
    if n == 1 {
        "Audio stream removed"@
    } else {
        decimal(n) + " audio streams removed"@
    }
}

/// What to announce when the list of stream ids goes from `old` to `new`:
/// nothing when the list was empty (the first streams to show, at startup
/// or after all streams had gone); otherwise the streams that appeared (ids
/// of `new` not in `old`) and those that disappeared (ids of `old` not in
/// `new`), each when there are some.
pub open spec fn announcement_of(old: Seq<u32>, new: Seq<u32>) -> Option<Seq<char>> {
    let added = missing_from(new, old);
    let removed = missing_from(old, new);
    if old.len() == 0 {
        None
    } else if added > 0 && removed > 0 {
        Some(appeared_text(added) + ". "@ + removed_text(removed))
    } else if added > 0 {
        Some(appeared_text(added))
    } else if removed > 0 {
        Some(removed_text(removed))
    } else {
        None
    }
}

fn push_appeared(m: &mut Vec<char>, n: usize)
    requires
        n > 0,
    ensures
        final(m)@ == old(m)@ + appeared_text(n as nat),
{
    if n == 1 {
        push_str(m, "New audio stream appeared");
    } else {
        let d = decimal_of(n as u64);
        push_all(m, &d);
        push_str(m, " new audio streams appeared");
    }
}

fn push_removed(m: &mut Vec<char>, n: usize)
    requires
        n > 0,
    ensures
        final(m)@ == old(m)@ + removed_text(n as nat),
{
    if n == 1 {
        push_str(m, "Audio stream removed");
    } else {
        let d = decimal_of(n as u64);
        push_all(m, &d);
        push_str(m, " audio streams removed");
    }
}

/// `announcement_of` as a string.
pub fn stream_change_announcement(old_ids: &Vec<u32>, new_ids: &Vec<u32>) -> (r: Option<String>)
    ensures
        match r {
            Some(m) => announcement_of(old_ids@, new_ids@) == Some(m@),
            None => announcement_of(old_ids@, new_ids@) is None,
        },
{
    if old_ids.len() == 0 {
        return None;
    }
    let added = missing_count(new_ids, old_ids);
    let removed = missing_count(old_ids, new_ids);
    if added == 0 && removed == 0 {
        return None;
    }
    let mut m: Vec<char> = Vec::new();
    if added > 0 {
        push_appeared(&mut m, added);
        if removed > 0 {
            push_str(&mut m, ". ");
            push_removed(&mut m, removed);
        }
    } else {
        push_removed(&mut m, removed);
    }
    assert(Seq::<char>::empty() + appeared_text(added as nat) =~= appeared_text(added as nat));
    assert(Seq::<char>::empty() + removed_text(removed as nat) =~= removed_text(removed as nat));
    Some(string_from_chars(m))
}

/// How the window's stream list is to be rebuilt.
#[derive(Debug)]
pub struct StreamRefresh {
    /// The ids to remember for the next comparison.
    pub ids: Vec<u32>,
    /// The new description of the list.
    pub description: String,
    /// What to announce, if anything.
    pub announcement: Option<String>,
}

/// What a refresh of the stream list does when the list held the streams
/// `current_ids` and `wpctl status` now lists `streams`: nothing (`None`)
/// when the same streams are listed, in whatever order; otherwise rebuild
/// the rows with the new ids, description and announcement. The count is
/// taken as `u32`, as the list widget does.
pub fn plan_stream_refresh(current_ids: &Vec<u32>, streams: &Vec<Stream>) -> (r: Option<
    StreamRefresh,
>)
    ensures
        match r {
            None => same_streams(current_ids@, ids_of(stream_views(streams@))),
            Some(p) => {
                &&& !same_streams(current_ids@, ids_of(stream_views(streams@)))
                &&& p.ids@ == ids_of(stream_views(streams@))
                &&& p.description@ == description_of(streams@.len() as u32)
                &&& match p.announcement {
                    Some(m) => announcement_of(current_ids@, ids_of(stream_views(streams@)))
                        == Some(m@),
                    None => announcement_of(current_ids@, ids_of(stream_views(streams@))) is None,
                }
            },
        },
{
    let new_ids = stream_ids(streams);
    if same_ids(current_ids, &new_ids) {
        return None;
    }
    let new_count = streams.len() as u32;
    let announcement = stream_change_announcement(current_ids, &new_ids);
    Some(
        StreamRefresh {
            ids: new_ids,
            description: streams_description(new_count),
            announcement,
        },
    )
}

/// The stream with the volume and mute state that `wpctl get-volume` read.
pub fn apply_volume_info(stream: &mut Stream, info: VolumeInfo)
    ensures
        final(stream)@ == (StreamModel { volume: info.volume, muted: info.muted, ..old(stream)@ }),
{
    stream.volume = info.volume;
    stream.muted = info.muted;
}

// ---------------------------------------------------------------------------
// A stream's row.
// ---------------------------------------------------------------------------

/// The subtitle of a stream's row: its type, then `" · Muted"` when muted.
pub open spec fn subtitle_of(s: StreamModel) -> Seq<char> {
    type_label(s.stream_type) + (if s.muted {
        " · Muted"@
    } else {
        ""@
    })
}

/// `subtitle_of` as a string.
pub fn stream_subtitle(stream: &Stream) -> (r: String)
    ensures
        r@ == subtitle_of(stream@),
{
    let mut m: Vec<char> = Vec::new();
    push_str(&mut m, stream.stream_type.as_str());
    if stream.muted {
        push_str(&mut m, " · Muted");
    } else {
        push_str(&mut m, "");
    }
    string_from_chars(m)
}

/// The icon of a mute button.
pub open spec fn mute_icon_of(muted: bool) -> Seq<char> {
    if muted {
        "audio-volume-muted-symbolic"@
    } else {
        "audio-volume-high-symbolic"@
    }
}

/// `mute_icon_of` as a string.
pub fn mute_icon(muted: bool) -> (r: &'static str)
    ensures
        r@ == mute_icon_of(muted),
{
    if muted {
        "audio-volume-muted-symbolic"
    } else {
        "audio-volume-high-symbolic"
    }
}

/// The text of a percentage label: `"<pct>%"`.
pub fn percent_label(pct: i32) -> (r: String)
    ensures
        r@ == int_decimal(pct as int) + "%"@,
{
    let mut m = i32_decimal(pct);
    push_str(&mut m, "%");
    string_from_chars(m)
}

/// The text of a stream's volume label: its percentage.
pub fn volume_label(stream: &Stream) -> (r: String)
    ensures
        r@ == int_decimal(percent_of(stream.volume) as int) + "%"@,
{
    percent_label(stream.volume.percent())
}

// ---------------------------------------------------------------------------
// Laws.
// ---------------------------------------------------------------------------

/// The dropdowns never offer a device whose port is known to be unplugged,
/// and they offer every other device.
pub proof fn law_unplugged_devices_are_not_offered(ds: Seq<DeviceModel>)
    ensures
        forall|i: int|
            0 <= i < offered_devices(ds).len() ==> (#[trigger] offered_devices(ds)[i]).available
                != Some(false),
        forall|i: int|
            0 <= i < ds.len() && ds[i].available != Some(false) ==> offered_devices(ds).contains(
                ds[i],
            ),
    decreases ds.len(),
{
    if ds.len() > 0 {
        let r = offered_devices(ds.drop_last());
        law_unplugged_devices_are_not_offered(ds.drop_last());
        assert forall|i: int| 0 <= i < ds.len() && offered(ds[i]) implies offered_devices(
            ds,
        ).contains(ds[i]) by {
            if i < ds.len() - 1 {
                assert(ds.drop_last()[i] == ds[i]);
                let k = choose|k: int| 0 <= k < r.len() && r[k] == ds[i];
                if offered(ds.last()) {
                    assert(r.push(ds.last())[k] == ds[i]);
                }
            } else {
                assert(offered_devices(ds) == r.push(ds.last()));
                assert(offered_devices(ds)[r.len() as int] == ds[i]);
            }
        }
        assert forall|i: int| 0 <= i < offered_devices(ds).len() implies offered(
            #[trigger] offered_devices(ds)[i],
        ) by {
            if offered(ds.last()) && i == r.len() {
            } else {
                assert(offered_devices(ds)[i] == r[i]);
            }
        }
    }
}

/// The dropdown selects a default device when there is one (the last one,
/// when several are marked), and the first entry when there is none.
pub proof fn law_default_device_is_selected(ds: Seq<DeviceModel>)
    requires
        ds.len() <= u32::MAX + 1,
    ensures
        (exists|i: int| 0 <= i < ds.len() && ds[i].is_default) ==> {
            &&& default_position(ds) < ds.len()
            &&& ds[default_position(ds) as int].is_default
            &&& forall|j: int|
                default_position(ds) < j < ds.len() ==> !#[trigger] ds[j].is_default
        },
        !(exists|i: int| 0 <= i < ds.len() && ds[i].is_default) ==> default_position(ds) == 0,
    decreases ds.len(),
{
    if ds.len() > 0 {
        let init = ds.drop_last();
        law_default_device_is_selected(init);
        if !ds.last().is_default {
            if exists|i: int| 0 <= i < ds.len() && ds[i].is_default {
                let i = choose|i: int| 0 <= i < ds.len() && ds[i].is_default;
                assert(init[i] == ds[i]);
                let p = default_position(init) as int;
                assert(init[p] == ds[p]);
                assert forall|j: int| p < j < ds.len() implies !#[trigger] ds[j].is_default by {
                    if j < ds.len() - 1 {
                        assert(init[j] == ds[j]);
                    }
                }
            } else {
                assert forall|i: int| 0 <= i < init.len() implies !init[i].is_default by {
                    assert(init[i] == ds[i]);
                }
            }
        }
    }
}

proof fn lemma_missing(a: Seq<u32>, b: Seq<u32>)
    ensures
        missing_from(a, b) > 0 <==> exists|i: int| 0 <= i < a.len() && !b.contains(#[trigger] a[i]),
    decreases a.len(),
{
    if a.len() > 0 {
        lemma_missing(a.drop_last(), b);
        if exists|i: int| 0 <= i < a.len() - 1 && !b.contains(#[trigger] a.drop_last()[i]) {
            let i = choose|i: int| 0 <= i < a.len() - 1 && !b.contains(#[trigger] a.drop_last()[i]);
            assert(a[i] == a.drop_last()[i]);
        }
        if exists|i: int| 0 <= i < a.len() && !b.contains(#[trigger] a[i]) {
            let i = choose|i: int| 0 <= i < a.len() && !b.contains(#[trigger] a[i]);
            if i < a.len() - 1 {
                assert(a.drop_last()[i] == a[i]);
            }
        }
    }
}

/// Once the list holds streams, streams that appear or disappear are
/// announced, and nothing is announced when the same streams are listed:
/// the announcement is there exactly when the old list is not empty and an
/// id is in one list and not in the other. The first streams to show are
/// not announced.
pub proof fn law_announcements_follow_changes(old: Seq<u32>, new: Seq<u32>)
    ensures
        announcement_of(old, new) is Some <==> old.len() > 0 && ((exists|i: int|
            0 <= i < new.len() && !old.contains(#[trigger] new[i])) || (exists|i: int|
            0 <= i < old.len() && !new.contains(#[trigger] old[i]))),
        same_streams(old, new) ==> announcement_of(old, new) is None,
{
    lemma_missing(new, old);
    lemma_missing(old, new);
    if same_streams(old, new) {
        assert forall|i: int| 0 <= i < new.len() implies old.contains(#[trigger] new[i]) by {
            assert(new.contains(new[i]));
        }
        assert forall|i: int| 0 <= i < old.len() implies new.contains(#[trigger] old[i]) by {
            assert(old.contains(old[i]));
        }
    }
}

/// The dropdowns offer exactly the devices that are not known to be
/// unplugged, in their order: those whose availability is unknown (`None`,
/// `pactl` reported no port) and those reported available. In particular a
/// device of unknown availability is always offered.
pub proof fn law_offered_devices_are_those_not_unplugged(ds: Seq<DeviceModel>)
    ensures
        offered_devices(ds) == ds.filter(|d: DeviceModel| d.available != Some(false)),
        forall|i: int|
            0 <= i < ds.len() && ds[i].available is None ==> offered_devices(ds).contains(
                #[trigger] ds[i],
            ),
    decreases ds.len(),
{
    reveal(Seq::filter);
    law_unplugged_devices_are_not_offered(ds);
    if ds.len() > 0 {
        law_offered_devices_are_those_not_unplugged(ds.drop_last());
    }
}

proof fn lemma_missing_counts(a: Seq<u32>, b: Seq<u32>)
    ensures
        missing_from(a, b) == a.filter(|x: u32| !b.contains(x)).len(),
    decreases a.len(),
{
    reveal(Seq::filter);
    if a.len() > 0 {
        lemma_missing_counts(a.drop_last(), b);
    }
}

/// What a change of the stream list is announced as. With `came` the number
/// of entries of the new id list that the old one lacks, and `went` the
/// number of entries of the old list that the new one lacks: nothing when
/// the old list was empty or neither count is positive; otherwise the
/// streams that came (`"New audio stream appeared"`, or `"<came> new audio
/// streams appeared"`), then, joined by `". "`, those that went (`"Audio
/// stream removed"`, or `"<went> audio streams removed"`), each only when
/// its count is positive.
pub proof fn law_announcement_counts_the_streams(old: Seq<u32>, new: Seq<u32>)
    ensures
        ({
            let came = new.filter(|x: u32| !old.contains(x)).len();
            let went = old.filter(|x: u32| !new.contains(x)).len();
            let appeared = if came == 1 {
                "New audio stream appeared"@
            } else {
                decimal(came) + " new audio streams appeared"@
            };
            let removed = if went == 1 {
                "Audio stream removed"@
            } else {
                decimal(went) + " audio streams removed"@
            };
            &&& old.len() == 0 ==> announcement_of(old, new) is None
            &&& came == 0 && went == 0 ==> announcement_of(old, new) is None
            &&& old.len() > 0 && came > 0 && went > 0 ==> announcement_of(old, new) == Some(
                appeared + ". "@ + removed,
            )
            &&& old.len() > 0 && came > 0 && went == 0 ==> announcement_of(old, new) == Some(
                appeared,
            )
            &&& old.len() > 0 && came == 0 && went > 0 ==> announcement_of(old, new) == Some(
                removed,
            )
        }),
{
    lemma_missing_counts(new, old);
    lemma_missing_counts(old, new);
}

} // verus!
