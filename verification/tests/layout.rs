use rdaw::layout::{deinterleave, interleave};

#[test]
fn deinterleave_splits_channels() {
    let inter = [1, 10, 2, 20, 3, 30];
    assert_eq!(deinterleave(2, &inter), vec![1, 2, 3, 10, 20, 30]);
}

#[test]
fn deinterleave_drops_a_trailing_partial_frame() {
    let inter = [1, 10, 2, 20, 3];
    assert_eq!(deinterleave(2, &inter), vec![1, 2, 10, 20]);
    assert_eq!(deinterleave(3, &[1, 2]), Vec::<i32>::new());
}

#[test]
fn interleave_reads_the_first_frames_of_each_channel() {
    // two channels of capacity 4, only 2 frames wanted
    let planar = [1, 2, 3, 4, 10, 20, 30, 40];
    assert_eq!(interleave(&planar, 2, 4, 2), vec![1, 10, 2, 20]);
    assert_eq!(interleave(&planar, 2, 4, 0), Vec::<i32>::new());
}

#[test]
fn interleave_undoes_deinterleave() {
    let inter: Vec<u32> = (0..12).collect();
    for channels in [1usize, 2, 3, 4, 6] {
        let frames = inter.len() / channels;
        let planar = deinterleave(channels, &inter);
        assert_eq!(interleave(&planar, channels, frames, frames), inter);
    }
}
