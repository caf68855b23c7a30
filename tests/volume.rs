use ephyr_restreamer::v1;
use ephyr_restreamer::{Delay, Volume, VolumeLevel};

fn spec_volume(level: u16, muted: bool) -> v1::Volume {
    v1::Volume { level: VolumeLevel::new(level).unwrap(), muted }
}

#[test]
fn displays_as_fraction() {
    for (input, expected) in &[
        (spec_volume(1, false), "0.01"),
        (spec_volume(10, false), "0.10"),
        (spec_volume(200, false), "2.00"),
        (spec_volume(107, false), "1.07"),
        (spec_volume(170, false), "1.70"),
        (spec_volume(1000, false), "10.00"),
        (spec_volume(0, false), "0.00"),
        (spec_volume(200, true), "0.00"),
    ] {
        let actual = Volume::new(input).display_as_fraction();
        assert_eq!(&actual, *expected);
    }
}

#[test]
fn volume_level_bounds() {
    assert!(VolumeLevel::new(1000).is_some());
    assert!(VolumeLevel::new(1001).is_none());
    assert_eq!(VolumeLevel::new(0).unwrap().level(), 0);
    assert_eq!(VolumeLevel::origin().level(), 100);
}

#[test]
fn volume_origin() {
    assert!(Volume::origin().is_origin());
    assert!(!Volume { level: VolumeLevel::new(100).unwrap(), muted: true }.is_origin());
    assert!(!Volume { level: VolumeLevel::new(50).unwrap(), muted: false }.is_origin());
    assert!(v1::Volume::default().is_origin());
    assert_eq!(Volume::origin().display_as_fraction(), "1.00");
}

#[test]
fn delays() {
    assert!(Delay::from_millis(-1).is_none());
    let d = Delay::from_millis(3500).unwrap();
    assert_eq!(d.as_millis(), 3500);
    assert!(!d.is_zero());
    assert!(Delay::from_millis(0).unwrap().is_zero());
}
