use rdaw::project::audible_tracks;

#[test]
fn solo_and_mute_decide_which_tracks_sound() {
    // no solo: every unmuted track sounds
    assert_eq!(audible_tracks(&[(false, false), (true, false)]), vec![true, false]);
    // a solo silences the others
    assert_eq!(audible_tracks(&[(false, false), (false, true)]), vec![false, true]);
    // mute wins over solo, and the other track is still silenced by that solo
    assert_eq!(audible_tracks(&[(true, true), (false, false)]), vec![false, false]);
    assert_eq!(audible_tracks(&[]), Vec::<bool>::new());
}
