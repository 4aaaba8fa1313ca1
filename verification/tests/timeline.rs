use rdaw::timeline::{source_channel, ClipSpan, FadeCurve, FadeProgress};
use rdaw::transport::{LoopRegion, Segment, Transport, TransportCommand};

#[test]
fn transport_splits_a_block_at_the_loop_boundary() {
    let mut transport = Transport::new();
    transport.playing = true;
    transport.set_loop(Some(LoopRegion::new(0, 2)));

    let segments: Vec<(u64, usize, usize)> = transport
        .render_block(5)
        .iter()
        .map(|s| (s.sample_pos, s.offset, s.len))
        .collect();

    assert_eq!(segments, vec![(0, 0, 2), (0, 2, 2), (0, 4, 1)]);
    assert_eq!(transport.position(), 1);
}

#[test]
fn loop_starting_partway_plays_into_it_then_bounces() {
    let mut t = Transport::new();
    t.set_loop(Some(LoopRegion::new(1, 3)));
    let segs = t.render_block(6);
    assert_eq!(
        segs,
        vec![
            Segment { sample_pos: 0, offset: 0, len: 3 },
            Segment { sample_pos: 1, offset: 3, len: 2 },
            Segment { sample_pos: 1, offset: 5, len: 1 },
        ]
    );
    assert_eq!(t.position(), 2);
}

#[test]
fn loop_wrap_lands_the_same_whatever_the_block_size() {
    let mut whole = Transport::new();
    whole.set_loop(Some(LoopRegion::new(0, 2)));
    whole.render_block(6);

    let mut chunked = Transport::new();
    chunked.set_loop(Some(LoopRegion::new(0, 2)));
    chunked.render_block(4);
    chunked.render_block(2);

    assert_eq!(whole.position(), chunked.position());
    assert_eq!(whole.position(), 0);
}

#[test]
fn without_a_loop_the_block_is_one_run() {
    let mut t = Transport::new();
    t.set_position(100);
    assert_eq!(
        t.render_block(64),
        vec![Segment { sample_pos: 100, offset: 0, len: 64 }]
    );
    assert_eq!(t.position(), 164);
}

#[test]
fn a_play_head_past_the_loop_end_plays_on_linearly() {
    let mut t = Transport::new();
    t.set_loop(Some(LoopRegion::new(0, 4)));
    t.set_position(10);
    assert_eq!(t.render_block(3), vec![Segment { sample_pos: 10, offset: 0, len: 3 }]);
    assert_eq!(t.position(), 13);
}

#[test]
fn an_empty_loop_region_clears_the_loop() {
    let mut t = Transport::new();
    t.set_loop(Some(LoopRegion::new(0, 2)));
    assert_eq!(t.loop_region(), Some(LoopRegion::new(0, 2)));
    t.apply(TransportCommand::SetLoop { start: 5, end: 5 });
    assert_eq!(t.loop_region(), None);
    t.apply(TransportCommand::SetLoop { start: 6, end: 2 });
    assert_eq!(t.loop_region(), None);
    assert!(!LoopRegion::new(3, 3).is_valid());
    assert!(LoopRegion::new(3, 4).is_valid());
}

#[test]
fn stop_rewinds_but_pause_holds_the_play_head() {
    let mut t = Transport::default();
    t.apply(TransportCommand::Play);
    assert!(t.playing);
    t.apply(TransportCommand::Seek { frame: 500 });
    t.apply(TransportCommand::Pause);
    assert!(!t.playing);
    assert_eq!(t.position(), 500);
    t.apply(TransportCommand::Play);
    t.apply(TransportCommand::Stop);
    assert!(!t.playing);
    assert_eq!(t.position(), 0);
    t.apply(TransportCommand::SetLoop { start: 1, end: 9 });
    t.apply(TransportCommand::ClearLoop);
    assert_eq!(t.loop_region(), None);
}

#[test]
fn a_clip_window_is_its_overlap_with_the_block() {
    let span = ClipSpan::new(2, 4, 0, 0);
    assert_eq!(span.end(), 6);
    assert_eq!(span.overlap(0, 8), Some((2, 6)));
    assert_eq!(span.overlap(0, 3), Some((2, 3)));
    assert_eq!(span.overlap(3, 3), Some((3, 6)));
    assert_eq!(span.overlap(6, 10), None);
    assert_eq!(span.overlap(0, 2), None);
}

#[test]
fn clip_windows_of_split_blocks_tile_the_whole_block() {
    let span = ClipSpan::new(2, 4, 0, 0);
    // blocks [0,3) and [3,8) together cover what [0,8) covers
    assert_eq!(span.overlap(0, 3), Some((2, 3)));
    assert_eq!(span.overlap(3, 5), Some((3, 6)));
    assert_eq!(span.overlap(0, 8), Some((2, 6)));
}

#[test]
fn fade_in_progress_runs_from_silence_to_full() {
    let span = ClipSpan::new(0, 8, 4, 0);
    let ins: Vec<Option<(u64, u64)>> = (0..6).map(|l| span.fade(l).fade_in).collect();
    assert_eq!(
        ins,
        vec![Some((0, 4)), Some((1, 4)), Some((2, 4)), Some((3, 4)), None, None]
    );
}

#[test]
fn fade_out_counts_the_frames_remaining() {
    let span = ClipSpan::new(0, 4, 0, 4);
    let outs: Vec<Option<(u64, u64)>> = (0..4).map(|l| span.fade(l).fade_out).collect();
    assert_eq!(outs, vec![Some((4, 4)), Some((3, 4)), Some((2, 4)), Some((1, 4))]);
}

#[test]
fn no_fade_means_full_level() {
    let span = ClipSpan::new(0, 4, 0, 0);
    for l in 0..4 {
        assert_eq!(
            span.fade(l),
            FadeProgress {
                fade_in: None,
                fade_out: None
            }
        );
    }
    assert_eq!(FadeCurve::default(), FadeCurve::Linear);
}

#[test]
fn a_mono_source_feeds_every_output_channel() {
    assert_eq!(source_channel(0, 1), 0);
    assert_eq!(source_channel(1, 1), 0);
    assert_eq!(source_channel(1, 2), 1);
    assert_eq!(source_channel(5, 2), 1);
}

#[test]
fn block_offsets_place_a_frame_in_the_block_and_the_clip() {
    let span = ClipSpan::new(100, 50, 0, 0);
    assert_eq!(span.block_offsets(96, 16, 104), (8, 4));
    assert_eq!(span.block_offsets(128, 64, 149), (21, 49));
}

#[test]
fn crossfade_progress_fractions_sum_to_one() {
    // the outgoing clip covers [0, 100) and fades out over its last 10 frames;
    // the incoming clip starts at 90 and fades in over 10 frames
    let out = ClipSpan::new(0, 100, 0, 10);
    let inn = ClipSpan::new(90, 50, 10, 0);
    for t in 90u64..100 {
        let (a, n) = out.fade(t - out.start).fade_out.unwrap();
        let (b, m) = inn.fade(t - inn.start).fade_in.unwrap();
        assert_eq!(n, 10);
        assert_eq!(m, 10);
        assert_eq!(a + b, 10);
    }
    assert_eq!(out.fade(90).fade_out, Some((10, 10)));
    assert_eq!(inn.fade(0).fade_in, Some((0, 10)));
}
