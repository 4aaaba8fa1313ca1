use rdaw::automation::{Envelope, Interp, Reading};

/// The host's evaluation of an `f32` envelope: hold, or ramp linearly.
fn value_at(env: &Envelope<f32>, frame: u64) -> Option<f32> {
    env.reading_at(frame).map(|r| match r {
        Reading::Hold(v) => v,
        Reading::Ramp {
            from_frame,
            from,
            to_frame,
            to,
        } => {
            let t = (frame - from_frame) as f32 / (to_frame - from_frame) as f32;
            from + (to - from) * t
        }
    })
}

#[test]
fn empty_envelope_yields_nothing() {
    let env: Envelope<f32> = Envelope::new(Interp::Linear);
    assert!(env.is_empty());
    assert_eq!(value_at(&env, 0), None);
}

#[test]
fn linear_envelope_interpolates_and_holds_at_the_ends() {
    let env = Envelope::from_points(Interp::Linear, vec![(0, 0.0f32), (4, 1.0)]);
    assert_eq!(value_at(&env, 0), Some(0.0));
    assert_eq!(value_at(&env, 2), Some(0.5));
    assert_eq!(value_at(&env, 4), Some(1.0));
    assert_eq!(value_at(&env, 9), Some(1.0));
}

#[test]
fn before_the_first_point_holds_the_first_value() {
    let env = Envelope::from_points(Interp::Linear, vec![(10, 0.5f32), (20, 1.0)]);
    assert_eq!(value_at(&env, 0), Some(0.5));
    assert_eq!(value_at(&env, 15), Some(0.75));
}

#[test]
fn step_envelope_holds_until_the_next_point() {
    let env = Envelope::from_points(Interp::Step, vec![(0, 0.2f32), (4, 0.8)]);
    assert_eq!(value_at(&env, 0), Some(0.2));
    assert_eq!(value_at(&env, 3), Some(0.2));
    assert_eq!(value_at(&env, 4), Some(0.8));
}

#[test]
fn adding_a_point_at_an_existing_frame_overwrites_it() {
    let env = Envelope::new(Interp::Step).with_point(5, 0.1f32).with_point(5, 0.9);
    assert_eq!(value_at(&env, 5), Some(0.9));
}

#[test]
fn reading_between_points_names_the_bracketing_breakpoints() {
    let env = Envelope::from_points(Interp::Linear, vec![(10u64, 3i32), (20, 7), (30, 1)]);
    assert_eq!(
        env.reading_at(25),
        Some(Reading::Ramp {
            from_frame: 20,
            from: 7,
            to_frame: 30,
            to: 1
        })
    );
    assert_eq!(env.reading_at(20), Some(Reading::Hold(7)));
    assert_eq!(env.reading_at(5), Some(Reading::Hold(3)));
    assert_eq!(env.reading_at(31), Some(Reading::Hold(1)));
}

#[test]
fn points_given_out_of_order_read_the_same_as_sorted_ones() {
    let shuffled = Envelope::from_points(Interp::Step, vec![(30u64, 'c'), (10, 'a'), (20, 'b')]);
    let sorted = Envelope::from_points(Interp::Step, vec![(10u64, 'a'), (20, 'b'), (30, 'c')]);
    for frame in 0..40 {
        assert_eq!(shuffled.reading_at(frame), sorted.reading_at(frame));
    }
    assert_eq!(shuffled.reading_at(25), Some(Reading::Hold('b')));
}

#[test]
fn an_added_point_reads_back_at_its_frame() {
    let mut env = Envelope::from_points(Interp::Linear, vec![(0u64, 1u8), (100, 2)]);
    env.add_point(50, 9);
    assert_eq!(env.reading_at(50), Some(Reading::Hold(9)));
    assert_eq!(
        env.reading_at(75),
        Some(Reading::Ramp {
            from_frame: 50,
            from: 9,
            to_frame: 100,
            to: 2
        })
    );
}

#[test]
fn default_envelope_is_empty_and_linear() {
    let env: Envelope<f32> = Envelope::default();
    assert!(env.is_empty());
    assert_eq!(Interp::default(), Interp::Linear);
    assert_eq!(env.reading_at(3), None);
}

#[test]
fn any_order_of_pairs_at_distinct_frames_builds_the_same_envelope() {
    let orders = [
        vec![(5u64, 50u8), (1, 10), (9, 90), (3, 30)],
        vec![(9u64, 90u8), (3, 30), (5, 50), (1, 10)],
        vec![(1u64, 10u8), (3, 30), (5, 50), (9, 90)],
    ];
    let first = Envelope::from_points(Interp::Linear, orders[0].clone());
    for pts in orders.iter() {
        let env = Envelope::from_points(Interp::Linear, pts.clone());
        for frame in 0..12 {
            assert_eq!(env.reading_at(frame), first.reading_at(frame));
        }
    }
    assert_eq!(
        first.reading_at(4),
        Some(Reading::Ramp {
            from_frame: 3,
            from: 30,
            to_frame: 5,
            to: 50
        })
    );
}
