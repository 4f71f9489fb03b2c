use sonos_cli::errors::Error;
use sonos_cli::fleet::{
    clamped_volume, group_plan, resolve_name, resolve_speaker, track_report, ungroup_plan,
    volume_plan, Action, Speaker, TrackMetadata,
};

fn speaker(name: &str, locator: &str) -> Speaker {
    Speaker { name: name.to_string(), locator: locator.to_string() }
}

#[test]
fn clamp_is_min_max() {
    assert_eq!(clamped_volume(0), 0);
    assert_eq!(clamped_volume(100), 100);
    assert_eq!(clamped_volume(101), 100);
    assert_eq!(clamped_volume(150), 100);
    assert_eq!(clamped_volume(55), 55);
    assert_eq!(clamped_volume(u16::MAX), 100);
}

#[test]
fn resolve_requested_takes_precedence() {
    let r = resolve_name(Some("A".to_string()), Some("B".to_string()));
    assert_eq!(r.unwrap(), "A");
}

#[test]
fn resolve_falls_back_to_default() {
    let r = resolve_name(None, Some("B".to_string()));
    assert_eq!(r.unwrap(), "B");
}

#[test]
fn resolve_without_any_name_fails() {
    let r = resolve_name(None, None);
    assert!(matches!(r, Err(Error::NoDefaultSpeaker)));
}

#[test]
fn lookup_miss_reports_queried_name_unchanged() {
    let r = resolve_speaker("Kitchen".to_string(), None);
    match r {
        Err(Error::SpeakerNotFound(n)) => assert_eq!(n, "Kitchen"),
        _ => panic!("expected SpeakerNotFound"),
    }
}

#[test]
fn lookup_hit_hands_back_the_device() {
    let r = resolve_speaker("Kitchen".to_string(), Some(speaker("Kitchen", "http://k")));
    let s = r.unwrap();
    assert_eq!(s.name, "Kitchen");
    assert_eq!(s.locator, "http://k");
}

#[test]
fn volume_fanout_applies_clamped_level_to_every_device() {
    let fleet = vec![speaker("A", "http://a"), speaker("B", "http://b")];
    let plan = volume_plan(&fleet, 150);
    assert_eq!(plan.len(), 2);
    for (i, action) in plan.iter().enumerate() {
        match action {
            Action::SetVolume { locator, volume } => {
                assert_eq!(*volume, 100);
                assert_eq!(locator, &fleet[i].locator);
            },
            _ => panic!("expected SetVolume"),
        }
    }
}

#[test]
fn group_joins_exactly_the_non_coordinator_devices() {
    let coordinator = speaker("C", "http://c");
    let fleet = vec![speaker("C", "http://c"), speaker("X", "http://x"), speaker("Y", "http://y")];
    let plan = group_plan(&coordinator, &fleet);
    assert_eq!(plan.len(), 2);
    let mut locators = Vec::new();
    for action in &plan {
        match action {
            Action::Join { locator, coordinator: cname } => {
                assert_eq!(cname, "C");
                assert_ne!(locator, "http://c");
                locators.push(locator.clone());
            },
            _ => panic!("expected Join"),
        }
    }
    assert_eq!(locators, vec!["http://x".to_string(), "http://y".to_string()]);
}

#[test]
fn group_excludes_coordinator_in_any_enumeration_order() {
    let coordinator = speaker("C", "http://c");
    let fleet = vec![speaker("X", "http://x"), speaker("C", "http://c"), speaker("Y", "http://y")];
    let plan = group_plan(&coordinator, &fleet);
    assert_eq!(plan.len(), 2);
    for action in &plan {
        match action {
            Action::Join { locator, .. } => assert_ne!(locator, "http://c"),
            _ => panic!("expected Join"),
        }
    }
}

#[test]
fn ungroup_issues_one_leave_per_device_including_solo() {
    let fleet = vec![speaker("A", "http://a"), speaker("Solo", "http://solo"), speaker("B", "http://b")];
    let plan = ungroup_plan(&fleet);
    assert_eq!(plan.len(), 3);
    for (i, action) in plan.iter().enumerate() {
        match action {
            Action::Leave { locator } => assert_eq!(locator, &fleet[i].locator),
            _ => panic!("expected Leave"),
        }
    }
}

#[test]
fn track_report_covers_all_three_states() {
    assert_eq!(track_report(None), "No track playing");
    assert_eq!(
        track_report(Some(TrackMetadata { title: "Song".to_string(), creator: None })),
        "Playing Song"
    );
    assert_eq!(
        track_report(Some(TrackMetadata {
            title: "Song".to_string(),
            creator: Some("Band".to_string()),
        })),
        "Playing Song by Band"
    );
}

#[test]
fn error_messages_are_human_readable() {
    assert_eq!(Error::NoDefaultSpeaker.message(), "No default speaker set");
    assert_eq!(
        Error::SpeakerNotFound("Den".to_string()).message(),
        "Speaker not found: Den"
    );
    assert_eq!(Error::NoConfigDirectory.message(), "No config directory");
    assert_eq!(Error::InvalidConfig.message(), "Invalid config");
    assert_eq!(Error::JsonSyntax.message(), "Invalid JSON value");
}
