use vstd::prelude::*;

use crate::models::OutputDeviceRef;
use crate::text::{owned, same_text};

verus! {

/// An output device as the system lists it.
#[derive(Debug, PartialEq, Eq)]
pub struct DeviceInfo {
    pub id: String,
    pub label: String,
}

impl Clone for DeviceInfo {
    fn clone(&self) -> (r: Self)
        ensures
            r == *self,
    {
        DeviceInfo { id: self.id.clone(), label: self.label.clone() }
    }
}

/// How the device to open was found.
#[derive(Debug, Clone, Copy, PartialEq, Eq, Structural)]
pub enum ResolutionKind {
    ById,
    ByLabel,
    FellBackToDefault,
}

/// Index of the first device at or after `j` that passes `pred`; -1 when none does.
pub open spec fn first_device_from(s: Seq<DeviceInfo>, pred: spec_fn(DeviceInfo) -> bool, j: int) -> int
    decreases s.len() - j,
{
    if j < 0 || j >= s.len() {
        -1
    } else if pred(s[j]) {
        j
    } else {
        first_device_from(s, pred, j + 1)
    }
}

pub open spec fn id_is(id: Seq<char>) -> spec_fn(DeviceInfo) -> bool {
    |d: DeviceInfo| d.id@ == id
}

pub open spec fn label_is(label: Seq<char>) -> spec_fn(DeviceInfo) -> bool {
    |d: DeviceInfo| d.label@ == label
}

/// Which device `resolve_device` picks, and how: the first with the wanted id;
/// else the first with the wanted label; else the first with the default id,
/// or the first device of all.
pub open spec fn resolution(s: Seq<DeviceInfo>, wanted_id: Seq<char>, wanted_label: Seq<char>, default_id: Seq<char>) -> (int, ResolutionKind) {
    let by_id = first_device_from(s, id_is(wanted_id), 0);
    let by_label = first_device_from(s, label_is(wanted_label), 0);
    let by_default = first_device_from(s, id_is(default_id), 0);
    if by_id >= 0 {
        (by_id, ResolutionKind::ById)
    } else if by_label >= 0 {
        (by_label, ResolutionKind::ByLabel)
    } else if by_default >= 0 {
        (by_default, ResolutionKind::FellBackToDefault)
    } else {
        (0, ResolutionKind::FellBackToDefault)
    }
}

proof fn lemma_first_device_from(s: Seq<DeviceInfo>, pred: spec_fn(DeviceInfo) -> bool, j: int)
    requires
        0 <= j,
    ensures
        first_device_from(s, pred, j) == -1 || (j <= first_device_from(s, pred, j) < s.len() && pred(
            s[first_device_from(s, pred, j)],
        )),
    decreases s.len() - j,
{
    if 0 <= j < s.len() && !pred(s[j]) {
        lemma_first_device_from(s, pred, j + 1);
    }
}

fn find_device(available: &[DeviceInfo], wanted: &String, by_label: bool) -> (r: Option<usize>)
    ensures
        match r {
            Some(i) => i as int == first_device_from(available@, if by_label { label_is(wanted@) } else { id_is(wanted@) }, 0),
            None => first_device_from(available@, if by_label { label_is(wanted@) } else { id_is(wanted@) }, 0) == -1,
        },
        r matches Some(i) ==> i < available@.len(),
{
    let ghost pred = if by_label { label_is(wanted@) } else { id_is(wanted@) };
    proof {
        lemma_first_device_from(available@, pred, 0);
    }
    let mut j: usize = 0;
    while j < available.len()
        invariant
            j <= available@.len(),
            pred == (if by_label { label_is(wanted@) } else { id_is(wanted@) }),
            first_device_from(available@, pred, 0) == first_device_from(available@, pred, j as int),
        decreases available@.len() - j,
    {
        let d = &available[j];
        let hit = if by_label { same_text(&d.label, wanted) } else { same_text(&d.id, wanted) };
        if hit {
            return Some(j);
        }
        j = j + 1;
    }
    None
}

/// Decides which device to open: by id, then by label, then the default one
/// (or the first available). Touches no device.
pub fn resolve_device<'a>(available: &'a [DeviceInfo], wanted_id: &str, wanted_label: &str, default_id: &str) -> (r: (
    &'a DeviceInfo,
    ResolutionKind,
))
    requires
        available@.len() > 0,
    ensures
        ({
            let (i, kind) = resolution(available@, wanted_id@, wanted_label@, default_id@);
            *r.0 == available@[i] && r.1 == kind
        }),
        r.1 == ResolutionKind::ById ==> r.0.id@ == wanted_id@,
        r.1 == ResolutionKind::ByLabel ==> r.0.label@ == wanted_label@ && forall|k: int|
            0 <= k < available@.len() ==> #[trigger] available@[k].id@ != wanted_id@,
        r.1 == ResolutionKind::FellBackToDefault ==> forall|k: int|
            0 <= k < available@.len() ==> #[trigger] available@[k].id@ != wanted_id@ && available@[k].label@
                != wanted_label@,
{
    proof {
        lemma_device_resolution(available@, wanted_id@, wanted_label@, default_id@);
    }
    let wid = owned(wanted_id);
    let wlabel = owned(wanted_label);
    let did = owned(default_id);
    if let Some(i) = find_device(available, &wid, false) {
        return (&available[i], ResolutionKind::ById);
    }
    if let Some(i) = find_device(available, &wlabel, true) {
        return (&available[i], ResolutionKind::ByLabel);
    }
    match find_device(available, &did, false) {
        Some(i) => (&available[i], ResolutionKind::FellBackToDefault),
        None => (&available[0], ResolutionKind::FellBackToDefault),
    }
}

/// The search from the start finds the first device that passes `pred`, or
/// none exactly when no device passes it.
proof fn lemma_first_device(s: Seq<DeviceInfo>, pred: spec_fn(DeviceInfo) -> bool)
    ensures
        first_device_from(s, pred, 0) < 0 <==> forall|k: int| 0 <= k < s.len() ==> !pred(#[trigger] s[k]),
        first_device_from(s, pred, 0) >= 0 ==> first_device_from(s, pred, 0) < s.len() && pred(
            s[first_device_from(s, pred, 0)],
        ) && forall|k: int| 0 <= k < first_device_from(s, pred, 0) ==> !pred(#[trigger] s[k]),
{
    lemma_first_device_none(s, pred, 0);
    lemma_first_device_from(s, pred, 0);
    lemma_first_device_prefix(s, pred, 0);
}

proof fn lemma_first_device_prefix(s: Seq<DeviceInfo>, pred: spec_fn(DeviceInfo) -> bool, j: int)
    requires
        0 <= j,
    ensures
        forall|k: int| j <= k < first_device_from(s, pred, j) ==> !pred(#[trigger] s[k]),
    decreases s.len() - j,
{
    if j < s.len() && !pred(s[j]) {
        lemma_first_device_prefix(s, pred, j + 1);
    }
}

/// How the output device is chosen: by id when some device has the wanted id
/// (the first such); else by label when some device has the wanted label (the
/// first such); else the default device when one has the default id (the
/// first such); else the first device. The chosen device is always one of
/// those available.
pub proof fn lemma_device_resolution(
    s: Seq<DeviceInfo>,
    wanted_id: Seq<char>,
    wanted_label: Seq<char>,
    default_id: Seq<char>,
)
    requires
        s.len() > 0,
    ensures
        ({
            let (i, kind) = resolution(s, wanted_id, wanted_label, default_id);
            let has_id = exists|k: int| 0 <= k < s.len() && #[trigger] s[k].id@ == wanted_id;
            let has_label = exists|k: int| 0 <= k < s.len() && #[trigger] s[k].label@ == wanted_label;
            let has_default = exists|k: int| 0 <= k < s.len() && #[trigger] s[k].id@ == default_id;
            &&& 0 <= i < s.len()
            &&& (kind == ResolutionKind::ById) == has_id
            &&& (kind == ResolutionKind::ByLabel) == (!has_id && has_label)
            &&& (kind == ResolutionKind::FellBackToDefault) == (!has_id && !has_label)
            &&& kind == ResolutionKind::ById ==> s[i].id@ == wanted_id && forall|k: int|
                0 <= k < i ==> #[trigger] s[k].id@ != wanted_id
            &&& kind == ResolutionKind::ByLabel ==> s[i].label@ == wanted_label && forall|k: int|
                0 <= k < i ==> #[trigger] s[k].label@ != wanted_label
            &&& (kind == ResolutionKind::FellBackToDefault && has_default) ==> s[i].id@ == default_id && forall|k: int|
                0 <= k < i ==> #[trigger] s[k].id@ != default_id
            &&& (kind == ResolutionKind::FellBackToDefault && !has_default) ==> i == 0
        }),
{
    lemma_first_device(s, id_is(wanted_id));
    lemma_first_device(s, label_is(wanted_label));
    lemma_first_device(s, id_is(default_id));
    let has_id = exists|k: int| 0 <= k < s.len() && #[trigger] s[k].id@ == wanted_id;
    let has_label = exists|k: int| 0 <= k < s.len() && #[trigger] s[k].label@ == wanted_label;
    let has_default = exists|k: int| 0 <= k < s.len() && #[trigger] s[k].id@ == default_id;
    if has_id {
        let k = choose|k: int| 0 <= k < s.len() && #[trigger] s[k].id@ == wanted_id;
        assert((id_is(wanted_id))(s[k]));
    }
    if has_label {
        let k = choose|k: int| 0 <= k < s.len() && #[trigger] s[k].label@ == wanted_label;
        assert((label_is(wanted_label))(s[k]));
    }
    if has_default {
        let k = choose|k: int| 0 <= k < s.len() && #[trigger] s[k].id@ == default_id;
        assert((id_is(default_id))(s[k]));
    }
    assert forall|k: int| 0 <= k < first_device_from(s, id_is(wanted_id), 0) implies #[trigger] s[k].id@ != wanted_id by {
        assert(!(id_is(wanted_id))(s[k]));
    }
    assert forall|k: int| 0 <= k < first_device_from(s, label_is(wanted_label), 0) implies #[trigger] s[k].label@
        != wanted_label by {
        assert(!(label_is(wanted_label))(s[k]));
    }
    assert forall|k: int| 0 <= k < first_device_from(s, id_is(default_id), 0) implies #[trigger] s[k].id@ != default_id by {
        assert(!(id_is(default_id))(s[k]));
    }
    if first_device_from(s, id_is(wanted_id), 0) < 0 {
        assert forall|k: int| 0 <= k < s.len() implies #[trigger] s[k].id@ != wanted_id by {
            assert(!(id_is(wanted_id))(s[k]));
        }
    }
    if first_device_from(s, label_is(wanted_label), 0) < 0 {
        assert forall|k: int| 0 <= k < s.len() implies #[trigger] s[k].label@ != wanted_label by {
            assert(!(label_is(wanted_label))(s[k]));
        }
    }
    if first_device_from(s, id_is(default_id), 0) < 0 {
        assert forall|k: int| 0 <= k < s.len() implies #[trigger] s[k].id@ != default_id by {
            assert(!(id_is(default_id))(s[k]));
        }
    }
}

/// The reference stored for a device id names exactly that id, with the
/// label of the first available device that has it; there is none exactly
/// when no available device has the id.
pub proof fn lemma_device_ref(s: Seq<DeviceInfo>, id: Seq<char>)
    ensures
        device_ref_spec(s, id) is None <==> forall|k: int| 0 <= k < s.len() ==> #[trigger] s[k].id@ != id,
        device_ref_spec(s, id) matches Some((d, l)) ==> d == id && exists|k: int|
            0 <= k < s.len() && #[trigger] s[k].id@ == id && s[k].label@ == l && forall|k2: int|
                0 <= k2 < k ==> (#[trigger] s[k2]).id@ != id,
{
    lemma_first_device(s, id_is(id));
    let i = first_device_from(s, id_is(id), 0);
    if i < 0 {
        assert forall|k: int| 0 <= k < s.len() implies #[trigger] s[k].id@ != id by {
            assert(!(id_is(id))(s[k]));
        }
    } else {
        assert(s[i].id@ == id);
        assert forall|k2: int| 0 <= k2 < i implies (#[trigger] s[k2]).id@ != id by {
            assert(!(id_is(id))(s[k2]));
        }
    }
}

/// The reference to store for the device with id `id` among `available`.
pub open spec fn device_ref_spec(s: Seq<DeviceInfo>, id: Seq<char>) -> Option<(Seq<char>, Seq<char>)> {
    let i = first_device_from(s, id_is(id), 0);
    if i < 0 {
        None
    } else {
        Some((s[i].id@, s[i].label@))
    }
}

/// The id and label of the device with id `id`, to store in the
/// configuration; `None` when no available device has that id.
pub fn device_ref_by_id(available: &[DeviceInfo], id: &str) -> (r: Option<OutputDeviceRef>)
    ensures
        match r {
            Some(d) => device_ref_spec(available@, id@) == Some((d.device_id@, d.label@)),
            None => device_ref_spec(available@, id@) is None,
        },
        r matches Some(d) ==> d.device_id@ == id@,
        r is None <==> forall|k: int| 0 <= k < available@.len() ==> #[trigger] available@[k].id@ != id@,
{
    proof {
        lemma_device_ref(available@, id@);
    }
    let wanted = owned(id);
    match find_device(available, &wanted, false) {
        Some(i) => Some(OutputDeviceRef { device_id: available[i].id.clone(), label: available[i].label.clone() }),
        None => None,
    }
}

/// The configured device is lost: it names a device, and no available device has its id.
pub open spec fn device_lost_spec(current: OutputDeviceRef, s: Seq<DeviceInfo>) -> bool {
    current.device_id@.len() > 0 && first_device_from(s, id_is(current.device_id@), 0) < 0
}

/// No device at or after `j` passes `pred` exactly when the search from `j` finds none.
proof fn lemma_first_device_none(s: Seq<DeviceInfo>, pred: spec_fn(DeviceInfo) -> bool, j: int)
    requires
        0 <= j,
    ensures
        first_device_from(s, pred, j) < 0 <==> forall|k: int| j <= k < s.len() ==> !pred(#[trigger] s[k]),
    decreases s.len() - j,
{
    lemma_first_device_from(s, pred, j);
    if j < s.len() && !pred(s[j]) {
        lemma_first_device_none(s, pred, j + 1);
    }
}

/// The configured device is lost exactly when it names a device and no
/// available device, at any position of the list, has its id: a connected
/// device is never reported lost, wherever it is listed.
pub proof fn lemma_device_lost_iff_absent(current: OutputDeviceRef, available: Seq<DeviceInfo>)
    ensures
        device_lost_spec(current, available) <==> (current.device_id@.len() > 0 && forall|i: int|
            0 <= i < available.len() ==> #[trigger] available[i].id@ != current.device_id@),
{
    lemma_first_device_none(available, id_is(current.device_id@), 0);
    assert forall|i: int| 0 <= i < available.len() implies (!(id_is(current.device_id@))(#[trigger] available[i])
        <==> available[i].id@ != current.device_id@) by {}
}

/// Whether the configured output device has disappeared, so that the player
/// must fall back to the default device. An empty id (no device chosen yet)
/// is never lost.
pub fn device_lost(current: &OutputDeviceRef, available: &[DeviceInfo]) -> (lost: bool)
    ensures
        lost == device_lost_spec(*current, available@),
        lost <==> (current.device_id@.len() > 0 && forall|i: int|
            0 <= i < available@.len() ==> #[trigger] available@[i].id@ != current.device_id@),
{
    proof {
        lemma_device_lost_iff_absent(*current, available@);
    }
    if current.device_id.as_str().unicode_len() == 0 {
        return false;
    }
    find_device(available, &current.device_id, false).is_none()
}

/// A range of stream configurations that a device supports.
#[derive(Debug, Clone, Copy)]
pub struct SupportedRange {
    pub min_sample_rate: u32,
    pub max_sample_rate: u32,
    pub min_buffer_frames: u32,
    pub max_buffer_frames: u32,
}

#[derive(Debug, Clone, Copy, PartialEq, Eq, Structural)]
pub struct ConfigChoice {
    pub sample_rate: u32,
    pub buffer_frames: u32,
    pub matches_target: bool,
}

pub open spec fn covers_rate(r: SupportedRange, rate: u32) -> bool {
    r.min_sample_rate <= rate <= r.max_sample_rate
}

/// Index of the first range at or after `j` that covers `rate`; -1 when none does.
pub open spec fn first_covering_from(s: Seq<SupportedRange>, rate: u32, j: int) -> int
    decreases s.len() - j,
{
    if j < 0 || j >= s.len() {
        -1
    } else if covers_rate(s[j], rate) {
        j
    } else {
        first_covering_from(s, rate, j + 1)
    }
}

/// The range that `negotiate_config` works in: the first that covers the
/// target rate, else the first of all.
pub open spec fn chosen_range(s: Seq<SupportedRange>, rate: u32) -> SupportedRange {
    let i = first_covering_from(s, rate, 0);
    if i >= 0 { s[i] } else { s[0] }
}

pub open spec fn clamp_u32(x: u32, lo: u32, hi: u32) -> u32 {
    if x < lo { lo } else if x > hi { hi } else { x }
}

/// What `negotiate_config` chooses.
pub open spec fn negotiated(s: Seq<SupportedRange>, rate: u32, frames: u32) -> ConfigChoice {
    let r = chosen_range(s, rate);
    let sample_rate = clamp_u32(rate, r.min_sample_rate, r.max_sample_rate);
    let buffer_frames = clamp_u32(frames, r.min_buffer_frames, r.max_buffer_frames);
    ConfigChoice { sample_rate, buffer_frames, matches_target: sample_rate == rate && buffer_frames == frames }
}

/// The ranges on which `negotiate_config` clamps without panicking: there is
/// a range, and the one it picks has its minimums at or below its maximums.
pub open spec fn negotiable(s: Seq<SupportedRange>, rate: u32) -> bool {
    s.len() > 0 && chosen_range(s, rate).min_sample_rate <= chosen_range(s, rate).max_sample_rate
        && chosen_range(s, rate).min_buffer_frames <= chosen_range(s, rate).max_buffer_frames
}

proof fn lemma_first_covering_from(s: Seq<SupportedRange>, rate: u32, j: int)
    requires
        0 <= j,
    ensures
        first_covering_from(s, rate, j) == -1 || (j <= first_covering_from(s, rate, j) < s.len()),
    decreases s.len() - j,
{
    if 0 <= j < s.len() && !covers_rate(s[j], rate) {
        lemma_first_covering_from(s, rate, j + 1);
    }
}

fn first_covering(ranges: &[SupportedRange], rate: u32) -> (r: Option<usize>)
    ensures
        match r {
            Some(i) => i as int == first_covering_from(ranges@, rate, 0) && i < ranges@.len(),
            None => first_covering_from(ranges@, rate, 0) == -1,
        },
{
    proof {
        lemma_first_covering_from(ranges@, rate, 0);
    }
    let mut j: usize = 0;
    while j < ranges.len()
        invariant
            j <= ranges@.len(),
            first_covering_from(ranges@, rate, 0) == first_covering_from(ranges@, rate, j as int),
        decreases ranges@.len() - j,
    {
        let r = ranges[j];
        if rate >= r.min_sample_rate && rate <= r.max_sample_rate {
            return Some(j);
        }
        j = j + 1;
    }
    None
}

/// Whether `negotiate_config` can work on these ranges: tells a caller
/// outside the library when the ranges a device reports are unusable.
pub fn can_negotiate(ranges: &[SupportedRange], rate: u32) -> (ok: bool)
    ensures
        ok == negotiable(ranges@, rate),
{
    if ranges.len() == 0 {
        return false;
    }
    let range = match first_covering(ranges, rate) {
        Some(i) => ranges[i],
        None => ranges[0],
    };
    range.min_sample_rate <= range.max_sample_rate && range.min_buffer_frames <= range.max_buffer_frames
}

/// Picks the configuration closest to the target sample rate and buffer
/// size among the supported ranges, clamping each into the chosen range.
pub fn negotiate_config(ranges: &[SupportedRange], target_sample_rate: u32, target_buffer_frames: u32) -> (choice: ConfigChoice)
    requires
        negotiable(ranges@, target_sample_rate),
    ensures
        choice == negotiated(ranges@, target_sample_rate, target_buffer_frames),
{
    let found = first_covering(ranges, target_sample_rate);
    let range = match found {
        Some(i) => ranges[i],
        None => ranges[0],
    };
    assert(range == chosen_range(ranges@, target_sample_rate));
    let sample_rate = if target_sample_rate < range.min_sample_rate {
        range.min_sample_rate
    } else if target_sample_rate > range.max_sample_rate {
        range.max_sample_rate
    } else {
        target_sample_rate
    };
    let buffer_frames = if target_buffer_frames < range.min_buffer_frames {
        range.min_buffer_frames
    } else if target_buffer_frames > range.max_buffer_frames {
        range.max_buffer_frames
    } else {
        target_buffer_frames
    };
    ConfigChoice {
        sample_rate,
        buffer_frames,
        matches_target: sample_rate == target_sample_rate && buffer_frames == target_buffer_frames,
    }
}

} // verus!
