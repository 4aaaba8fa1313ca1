use rdaw::project::{Source, Time};
use rdaw::tempo::{MusicalTime, TimeSignature, TICKS_PER_BEAT};

#[test]
fn musical_positions_count_exact_ticks() {
    let four_four = TimeSignature::new(4, 4);
    assert_eq!(MusicalTime::bars(0).to_ticks(four_four), 0);
    assert_eq!(MusicalTime::bars(1).to_ticks(four_four), 4 * 960);
    assert_eq!(MusicalTime::bar_beat(2, 2).to_ticks(four_four), 10 * 960);
    let half = MusicalTime::new(0, 0, TICKS_PER_BEAT / 2);
    assert_eq!(half.to_ticks(four_four), 480);
}

#[test]
fn the_meter_sets_how_many_beats_a_bar_unrolls_to() {
    let six_eight = TimeSignature::new(6, 8);
    assert_eq!(MusicalTime::bars(1).to_ticks(six_eight), 6 * 960);
    assert_eq!(MusicalTime::new(1, 2, 3).to_ticks(six_eight), (6 + 2) * 960 + 3);
}

#[test]
fn the_largest_position_does_not_overflow() {
    let sig = TimeSignature::new(u32::MAX, 4);
    let t = MusicalTime::new(u32::MAX, u32::MAX, u32::MAX);
    let expected = ((u32::MAX as u128) * (u32::MAX as u128) + u32::MAX as u128) * 960 + u32::MAX as u128;
    assert_eq!(t.to_ticks(sig), expected);
}

#[test]
fn constructors_place_their_fields() {
    assert_eq!(TimeSignature::default(), TimeSignature::new(4, 4));
    assert_eq!(MusicalTime::default(), MusicalTime::new(0, 0, 0));
    assert_eq!(
        MusicalTime::new(1, 7, 2000),
        MusicalTime {
            bar: 1,
            beat: 7,
            tick: 2000
        }
    );
    assert_eq!(
        MusicalTime::bar_beat(3, 1),
        MusicalTime {
            bar: 3,
            beat: 1,
            tick: 0
        }
    );
    assert_eq!(Source::new("a.wav".to_string()).path, "a.wav");
    assert_eq!(Time::from(44_100u64), Time::Frames(44_100));
    assert_eq!(
        Time::from(MusicalTime::bars(2)),
        Time::Musical(MusicalTime::new(2, 0, 0))
    );
}
