//! Speaker resolution and fleet command planning: the decisions behind
//! one-device transport commands, the volume fan-out, and the group
//! topology operations.
//!
//! Discovery and the per-device control calls are asynchronous network
//! work that the caller performs; it hands this module the discovered
//! devices as plain values and carries out the actions the plans
//! dictate, in order, stopping at the first failure.

use vstd::prelude::*;

use crate::errors::Error;
use crate::text::text_is;

verus! {

/// What the decision core reads of one discovered device: its
/// human-readable name and its network locator. The locator uniquely
/// distinguishes devices and is stable for the handle's lifetime; the
/// name need not be unique across the fleet.
#[derive(Debug)]
pub struct Speaker {
    pub name: String,
    pub locator: String,
}

/// One control action for the caller to perform against a device.
#[derive(Debug)]
pub enum Action {
    /// The device at `locator` joins the group of the named
    /// coordinator.
    Join { locator: String, coordinator: String },
    /// The device at `locator` leaves its group and becomes its own
    /// coordinator; a no-op for a device already alone.
    Leave { locator: String },
    /// The device at `locator` has its volume set.
    SetVolume { locator: String, volume: u16 },
}

/// What a track query reports of the playing track: a title, always
/// present when a track exists, and the artist when known. The absence
/// of a playing track is a valid state, not an error.
#[derive(Debug)]
pub struct TrackMetadata {
    pub title: String,
    pub creator: Option<String>,
}

/// The line the track command reports: nothing playing, the title
/// alone, or the title with its artist.
pub fn track_report(track: Option<TrackMetadata>) -> (r: String)
    ensures
        r@ == match track {
            None => "No track playing"@,
            Some(t) => match t.creator {
                None => "Playing "@ + t.title@,
                Some(c) => "Playing "@ + t.title@ + " by "@ + c@,
            },
        },
{
    match track {
        None => "No track playing".to_owned(),
        Some(t) => {
            let mut r = "Playing ".to_owned();
            r.append(t.title.as_str());
            match &t.creator {
                None => {},
                Some(c) => {
                    r.append(" by ");
                    r.append(c.as_str());
                },
            }
            r
        },
    }
}

/// A requested volume, clamped into the closed range a device accepts.
pub open spec fn clamped(v: u16) -> u16 {
    if v > 100 {
        100
    } else {
        v
    }
}

/// Clamp a requested volume into the closed range zero to one hundred;
/// out-of-range requests are clamped, never rejected.
pub fn clamped_volume(v: u16) -> (r: u16)
    ensures
        r == clamped(v),
        r as int == vstd::math::min(100, vstd::math::max(0, v as int)),
{
    if v > 100 {
        100
    } else {
        v
    }
}

/// Choose the effective speaker name: a requested name takes
/// precedence over the configured default; with neither, the command
/// cannot proceed.
pub fn resolve_name(requested: Option<String>, default: Option<String>) -> (r: Result<
    String,
    Error,
>)
    ensures
        match requested {
            Some(n) => r matches Ok(m) && m == n,
            None => match default {
                Some(d) => r matches Ok(m) && m == d,
                None => r matches Err(e) && e == Error::NoDefaultSpeaker,
            },
        },
{
    match requested {
        Some(n) => Ok(n),
        None => match default {
            Some(d) => Ok(d),
            None => Err(Error::NoDefaultSpeaker),
        },
    }
}

/// Accept the directory's answer to a single-name lookup: the device
/// when one was found within the timeout, else the not-found error
/// carrying the queried name unchanged.
pub fn resolve_speaker(name: String, found: Option<Speaker>) -> (r: Result<Speaker, Error>)
    ensures
        match found {
            Some(s) => r matches Ok(d) && d == s,
            None => r matches Err(e) && (e matches Error::SpeakerNotFound(m) && m@ == name@),
        },
{
    match found {
        Some(s) => Ok(s),
        None => Err(Error::SpeakerNotFound(name)),
    }
}

/// The fan-out plan for one volume command: every discovered device,
/// in discovery order, has its volume set to the clamped level.
pub fn volume_plan(fleet: &Vec<Speaker>, volume: u16) -> (r: Vec<Action>)
    ensures
        r@.len() == fleet@.len(),
        forall|i: int|
            0 <= i < fleet@.len() ==> ((#[trigger] r@[i]) matches Action::SetVolume {
                locator,
                volume: w,
            } && locator@ == fleet@[i].locator@ && w == clamped(volume)),
{
    let w = clamped_volume(volume);
    let mut r: Vec<Action> = Vec::new();
    let mut i: usize = 0;
    while i < fleet.len()
        invariant
            i <= fleet@.len(),
            r@.len() == i,
            w == clamped(volume),
            forall|k: int|
                0 <= k < i ==> ((#[trigger] r@[k]) matches Action::SetVolume {
                    locator,
                    volume: w2,
                } && locator@ == fleet@[k].locator@ && w2 == clamped(volume)),
        decreases fleet@.len() - i,
    {
        let loc = fleet[i].locator.clone();
        r.push(Action::SetVolume { locator: loc, volume: w });
        i += 1;
    }
    r
}

/// The dissolve plan: every discovered device, including one already
/// alone in its own group, is told to leave — exactly one leave per
/// device, in discovery order.
pub fn ungroup_plan(fleet: &Vec<Speaker>) -> (r: Vec<Action>)
    ensures
        r@.len() == fleet@.len(),
        forall|i: int|
            0 <= i < fleet@.len() ==> ((#[trigger] r@[i]) matches Action::Leave { locator }
                && locator@ == fleet@[i].locator@),
{
    let mut r: Vec<Action> = Vec::new();
    let mut i: usize = 0;
    while i < fleet.len()
        invariant
            i <= fleet@.len(),
            r@.len() == i,
            forall|k: int|
                0 <= k < i ==> ((#[trigger] r@[k]) matches Action::Leave { locator } && locator@
                    == fleet@[k].locator@),
        decreases fleet@.len() - i,
    {
        let loc = fleet[i].locator.clone();
        r.push(Action::Leave { locator: loc });
        i += 1;
    }
    r
}

/// The locators owed a join when grouping to a coordinator with
/// locator `coord`: the fleet's locators, in order, with every
/// occurrence of the coordinator's own locator left out.
pub open spec fn join_targets(fleet: Seq<Speaker>, coord: Seq<char>) -> Seq<Seq<char>>
    decreases fleet.len(),
{
    if fleet.len() == 0 {
        Seq::empty()
    } else {
        let rest = join_targets(fleet.drop_last(), coord);
        if fleet.last().locator@ == coord {
            rest
        } else {
            rest.push(fleet.last().locator@)
        }
    }
}

/// Law: the join plan reaches exactly the non-coordinator members of
/// the fleet — never the device whose locator is the coordinator's,
/// and once per other device, in fleet order, whatever order discovery
/// produced.
pub proof fn lemma_join_exclusion(fleet: Seq<Speaker>, coord: Seq<char>)
    ensures
        join_targets(fleet, coord) == fleet.map_values(|s: Speaker| s.locator@).filter(
            |l: Seq<char>| l != coord,
        ),
        forall|i: int|
            0 <= i < join_targets(fleet, coord).len() ==> #[trigger] join_targets(fleet, coord)[i]
                != coord,
        forall|i: int|
            0 <= i < fleet.len() && fleet[i].locator@ != coord ==> join_targets(
                fleet,
                coord,
            ).contains(#[trigger] fleet[i].locator@),
    decreases fleet.len(),
{
    reveal(Seq::filter);
    let m = fleet.map_values(|s: Speaker| s.locator@);
    let pred = |l: Seq<char>| l != coord;
    if fleet.len() == 0 {
        assert(m =~= Seq::<Seq<char>>::empty());
        assert(join_targets(fleet, coord) =~= m.filter(pred));
    } else {
        let head = fleet.drop_last();
        lemma_join_exclusion(head, coord);
        assert(head.map_values(|s: Speaker| s.locator@) =~= m.drop_last());
        assert(m.last() == fleet.last().locator@);
        assert(join_targets(fleet, coord) == m.filter(pred));
        assert forall|i: int|
            0 <= i < fleet.len() && fleet[i].locator@ != coord implies join_targets(
            fleet,
            coord,
        ).contains(#[trigger] fleet[i].locator@) by {
            let jt = join_targets(fleet, coord);
            let jh = join_targets(head, coord);
            if i < fleet.len() - 1 {
                assert(head[i] == fleet[i]);
                assert(jh.contains(fleet[i].locator@));
                let w = choose|k: int| 0 <= k < jh.len() && jh[k] == fleet[i].locator@;
                assert(jt[w] == fleet[i].locator@);
            } else {
                assert(jt.last() == fleet[i].locator@);
            }
        }
    }
}

/// The grouping plan for a resolved coordinator: every fleet member
/// whose locator differs from the coordinator's is told to join the
/// coordinator's group, by the coordinator's name, in discovery order;
/// the coordinator itself is never addressed.
pub fn group_plan(coordinator: &Speaker, fleet: &Vec<Speaker>) -> (r: Vec<Action>)
    ensures
        r@.len() == join_targets(fleet@, coordinator.locator@).len(),
        forall|i: int|
            0 <= i < r@.len() ==> ((#[trigger] r@[i]) matches Action::Join {
                locator,
                coordinator: c,
            } && locator@ == join_targets(fleet@, coordinator.locator@)[i] && c@
                == coordinator.name@),
{
    let ghost coord = coordinator.locator@;
    let mut r: Vec<Action> = Vec::new();
    let mut i: usize = 0;
    while i < fleet.len()
        invariant
            i <= fleet@.len(),
            coord == coordinator.locator@,
            r@.len() == join_targets(fleet@.take(i as int), coord).len(),
            forall|k: int|
                0 <= k < r@.len() ==> ((#[trigger] r@[k]) matches Action::Join {
                    locator,
                    coordinator: c,
                } && locator@ == join_targets(fleet@.take(i as int), coord)[k] && c@
                    == coordinator.name@),
        decreases fleet@.len() - i,
    {
        let same = text_is(fleet[i].locator.as_str(), coordinator.locator.as_str());
        proof {
            assert(fleet@.take(i + 1).drop_last() =~= fleet@.take(i as int));
            assert(fleet@.take(i + 1).last() == fleet@[i as int]);
        }
        if !same {
            let loc = fleet[i].locator.clone();
            let cname = coordinator.name.clone();
            r.push(Action::Join { locator: loc, coordinator: cname });
        }
        i += 1;
    }
    proof {
        assert(fleet@.take(fleet@.len() as int) =~= fleet@);
    }
    r
}

} // verus!
