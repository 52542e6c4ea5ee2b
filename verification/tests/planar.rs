use audioverse_core::planar::{deinterleave, interleave, interleave_into, planar_check, PlanarCheck};

#[test]
fn checks_channel_shapes() {
    assert_eq!(planar_check(&vec![], 64), PlanarCheck::NoChannels);
    assert_eq!(planar_check(&vec![64, 32], 64), PlanarCheck::Mismatched);
    assert_eq!(planar_check(&vec![32, 32], 32), PlanarCheck::Ready);
    assert_eq!(planar_check(&vec![0, 0], 0), PlanarCheck::Ready);
}

#[test]
fn interleaves_frame_by_frame() {
    let l = [1.0f32, 2.0, 3.0];
    let r = [10.0f32, 20.0, 30.0];
    let chans: Vec<&[f32]> = vec![&l, &r];
    assert_eq!(interleave(&chans, 3), vec![1.0, 10.0, 2.0, 20.0, 3.0, 30.0]);
}

#[test]
fn deinterleave_undoes_interleave() {
    let a = [1i16, 2, 3, 4];
    let b = [5i16, 6, 7, 8];
    let c = [9i16, 10, 11, 12];
    let chans: Vec<&[i16]> = vec![&a, &b, &c];
    let inter = interleave(&chans, 4);
    let planes = deinterleave(&inter, 3, 4);
    assert_eq!(planes, vec![a.to_vec(), b.to_vec(), c.to_vec()]);
}

#[test]
fn scratch_grows_only_when_short() {
    let l = [1.0f32; 64];
    let r = [2.0f32; 64];
    let chans: Vec<&[f32]> = vec![&l, &r];
    let mut scratch: Vec<f32> = Vec::new();
    interleave_into(&chans, 64, &mut scratch, 0.0);
    assert_eq!(scratch.len(), 128);
    assert_eq!(&scratch[..4], &[1.0, 2.0, 1.0, 2.0]);
    let mut big = vec![7.0f32; 200];
    interleave_into(&chans, 64, &mut big, 0.0);
    assert_eq!(big.len(), 200);
    assert_eq!(big[127], 2.0);
    assert_eq!(big[128], 7.0);
}

#[test]
fn scratch_reused_for_smaller_input() {
    let l = [3i16; 128];
    let chans: Vec<&[i16]> = vec![&l];
    let mut scratch = vec![0i16; 10];
    interleave_into(&chans, 128, &mut scratch, 0);
    assert_eq!(scratch.len(), 128);
    let short = [4i16; 16];
    let chans2: Vec<&[i16]> = vec![&short];
    interleave_into(&chans2, 16, &mut scratch, 0);
    assert_eq!(scratch.len(), 128);
    assert_eq!(scratch[15], 4);
    assert_eq!(scratch[16], 3);
}
