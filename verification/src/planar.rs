//! Conversion between planar audio (one buffer per channel) and interleaved
//! audio (frame after frame, each frame one sample per channel), as the
//! spatial renderer takes and gives its buffers.
use vstd::prelude::*;

verus! {

/// What a set of planar channel buffers allows.
#[derive(Debug, Clone, Copy, PartialEq, Eq, Structural)]
pub enum PlanarCheck {
    /// There are no channels; there is nothing to do.
    NoChannels,
    /// Some channel does not have the expected number of frames.
    Mismatched,
    /// Every channel has the expected number of frames.
    Ready,
}

/// Every channel length equals `num_frames`.
pub open spec fn uniform(lengths: Seq<usize>, num_frames: usize) -> bool {
    forall|c: int| 0 <= c < lengths.len() ==> #[trigger] lengths[c] == num_frames
}

/// The lengths of the channels.
pub open spec fn channel_lengths<T>(channels: Seq<&[T]>) -> Seq<usize> {
    channels.map_values(|ch: &[T]| ch@.len() as usize)
}

/// `v` holds `channels` interleaved: frame `f` of channel `c` is at
/// `f * channels.len() + c`.
pub open spec fn is_interleaving<T>(v: Seq<T>, channels: Seq<&[T]>, num_frames: nat) -> bool {
    let nc = channels.len();
    &&& v.len() == num_frames * nc
    &&& forall|f: int, c: int|
        0 <= f < num_frames && 0 <= c < nc ==> #[trigger] v[f * nc + c] == #[trigger] channels[c]@[f]
}

/// Decide what to do with channels of the given lengths when each should
/// have `num_frames` frames.
pub fn planar_check(lengths: &Vec<usize>, num_frames: usize) -> (r: PlanarCheck)
    ensures
        r == PlanarCheck::NoChannels <==> lengths@.len() == 0,
        r == PlanarCheck::Ready <==> lengths@.len() > 0 && uniform(lengths@, num_frames),
        r == PlanarCheck::Mismatched <==> lengths@.len() > 0 && !uniform(lengths@, num_frames),
{
    if lengths.len() == 0 {
        return PlanarCheck::NoChannels;
    }
    let mut c: usize = 0;
    while c < lengths.len()
        invariant
            c <= lengths@.len(),
            forall|k: int| 0 <= k < c ==> #[trigger] lengths@[k] == num_frames,
        decreases lengths@.len() - c,
    {
        if lengths[c] != num_frames {
            return PlanarCheck::Mismatched;
        }
        c = c + 1;
    }
    PlanarCheck::Ready
}

proof fn lemma_slot_before(f: int, c: int, f2: int, nc: int)
    requires
        0 <= f < f2,
        0 <= c < nc,
    ensures
        f * nc + c < f2 * nc,
        0 <= f * nc + c,
{
    assert(f * nc + c < f2 * nc) by (nonlinear_arith)
        requires
            0 <= f < f2,
            0 <= c < nc,
    ;
    assert(0 <= f * nc) by (nonlinear_arith)
        requires
            0 <= f,
            0 <= nc,
    ;
}

proof fn lemma_next_row(f: int, nc: int)
    ensures
        f * nc + nc == (f + 1) * nc,
{
    assert(f * nc + nc == (f + 1) * nc) by (nonlinear_arith);
}

/// Interleave the channels, each of `num_frames` samples.
pub fn interleave<T: Copy>(channels: &[&[T]], num_frames: usize) -> (v: Vec<T>)
    requires
        uniform(channel_lengths(channels@), num_frames),
        channels@.len() * num_frames <= usize::MAX,
    ensures
        is_interleaving(v@, channels@, num_frames as nat),
{
    let nc = channels.len();
    let ghost chs = channels@;
    let mut v: Vec<T> = Vec::new();
    let mut f: usize = 0;
    while f < num_frames
        invariant
            chs == channels@,
            nc == chs.len(),
            uniform(channel_lengths(chs), num_frames),
            f <= num_frames,
            v@.len() == f * nc,
            forall|f2: int, c2: int|
                0 <= f2 < f && 0 <= c2 < nc ==> #[trigger] v@[f2 * nc + c2] == #[trigger] chs[c2]@[f2],
        decreases num_frames - f,
    {
        let mut c: usize = 0;
        while c < nc
            invariant
                chs == channels@,
                nc == chs.len(),
                uniform(channel_lengths(chs), num_frames),
                f < num_frames,
                c <= nc,
                v@.len() == f * nc + c,
                forall|f2: int, c2: int|
                    0 <= f2 < f && 0 <= c2 < nc ==> #[trigger] v@[f2 * nc + c2] == #[trigger] chs[c2]@[f2],
                forall|c2: int| 0 <= c2 < c ==> #[trigger] v@[f * nc + c2] == chs[c2]@[f as int],
            decreases nc - c,
        {
            assert(channel_lengths(chs)[c as int] == num_frames);
            let x = channels[c][f];
            let ghost before = v@;
            v.push(x);
            assert forall|f2: int, c2: int|
                0 <= f2 < f && 0 <= c2 < nc implies #[trigger] v@[f2 * nc + c2] == #[trigger] chs[c2]@[f2] by {
                lemma_slot_before(f2, c2, f as int, nc as int);
                assert(v@[f2 * nc + c2] == before[f2 * nc + c2]);
            }
            assert forall|c2: int| 0 <= c2 < c + 1 implies #[trigger] v@[f * nc + c2] == chs[c2]@[f as int] by {
                if c2 < c {
                    assert(v@[f * nc + c2] == before[f * nc + c2]);
                }
            }
            c = c + 1;
        }
        proof {
            lemma_next_row(f as int, nc as int);
        }
        f = f + 1;
    }
    v
}

/// Interleave the channels into the front of `scratch`, growing it with
/// `fill` only when it is too short; the rest of `scratch` is untouched.
pub fn interleave_into<T: Copy>(channels: &[&[T]], num_frames: usize, scratch: &mut Vec<T>, fill: T)
    requires
        uniform(channel_lengths(channels@), num_frames),
        channels@.len() * num_frames <= usize::MAX,
    ensures
        ({
            let needed = channels@.len() * num_frames;
            &&& final(scratch)@.len() == if old(scratch)@.len() < needed {
                needed
            } else {
                old(scratch)@.len() as int
            }
            &&& is_interleaving(final(scratch)@.take(needed), channels@, num_frames as nat)
            &&& old(scratch)@.len() >= needed ==> final(scratch)@.skip(needed) == old(scratch)@.skip(needed)
        }),
{
    let nc = channels.len();
    let needed = nc * num_frames;
    proof {
        assert(nc * num_frames == num_frames * nc) by (nonlinear_arith);
    }
    while scratch.len() < needed
        invariant
            scratch@.len() <= needed || scratch@.len() == old(scratch)@.len(),
            scratch@.len() >= old(scratch)@.len(),
            forall|k: int| 0 <= k < old(scratch)@.len() ==> #[trigger] scratch@[k] == old(scratch)@[k],
        decreases needed - scratch@.len(),
    {
        scratch.push(fill);
    }
    let ghost grown = scratch@;
    let v = interleave(channels, num_frames);
    let mut k: usize = 0;
    while k < needed
        invariant
            v@.len() == needed,
            scratch@.len() == grown.len(),
            grown.len() >= needed,
            k <= needed,
            forall|j: int| 0 <= j < k ==> #[trigger] scratch@[j] == v@[j],
            forall|j: int| k <= j < grown.len() ==> #[trigger] scratch@[j] == grown[j],
        decreases needed - k,
    {
        scratch.set(k, v[k]);
        k = k + 1;
    }
    assert(scratch@.take(needed as int) =~= v@);
    assert(old(scratch)@.len() >= needed ==> scratch@.skip(needed as int) =~= old(scratch)@.skip(needed as int)) by {
        if old(scratch)@.len() >= needed {
            assert(grown =~= old(scratch)@);
        }
        assert forall|j: int| 0 <= j < scratch@.len() - needed implies #[trigger] scratch@.skip(needed as int)[j]
            == old(scratch)@.skip(needed as int)[j] by {
            assert(scratch@[needed + j] == grown[needed + j]);
        }
    }
}

/// Split an interleaved buffer of `num_frames` frames of `num_channels`
/// samples into one buffer per channel.
pub fn deinterleave<T: Copy>(interleaved: &[T], num_channels: usize, num_frames: usize) -> (out: Vec<Vec<T>>)
    requires
        interleaved@.len() == num_channels * num_frames,
    ensures
        out@.len() == num_channels,
        forall|c: int| 0 <= c < num_channels ==> (#[trigger] out@[c])@.len() == num_frames,
        forall|c: int, f: int|
            0 <= c < num_channels && 0 <= f < num_frames ==> #[trigger] out@[c]@[f] == interleaved@[f * num_channels
                + c],
{
    let total = interleaved.len();
    let mut out: Vec<Vec<T>> = Vec::new();
    let mut c: usize = 0;
    while c < num_channels
        invariant
            interleaved@.len() == num_channels * num_frames,
            total == interleaved@.len(),
            c <= num_channels,
            out@.len() == c,
            forall|c2: int| 0 <= c2 < c ==> (#[trigger] out@[c2])@.len() == num_frames,
            forall|c2: int, f: int|
                0 <= c2 < c && 0 <= f < num_frames ==> #[trigger] out@[c2]@[f] == interleaved@[f * num_channels
                    + c2],
        decreases num_channels - c,
    {
        let mut plane: Vec<T> = Vec::new();
        let mut f: usize = 0;
        while f < num_frames
            invariant
                interleaved@.len() == num_channels * num_frames,
                total == interleaved@.len(),
                c < num_channels,
                f <= num_frames,
                plane@.len() == f,
                forall|f2: int| 0 <= f2 < f ==> #[trigger] plane@[f2] == interleaved@[f2 * num_channels + c],
            decreases num_frames - f,
        {
            proof {
                lemma_slot_before(f as int, c as int, num_frames as int, num_channels as int);
                assert(num_frames * num_channels == num_channels * num_frames) by (nonlinear_arith);
            }
            let x = interleaved[f * num_channels + c];
            plane.push(x);
            f = f + 1;
        }
        let ghost before = out@;
        let ghost pl = plane@;
        out.push(plane);
        assert(out@[c as int]@ == pl);
        assert forall|c2: int, f2: int|
            0 <= c2 < c + 1 && 0 <= f2 < num_frames implies #[trigger] out@[c2]@[f2] == interleaved@[f2
                * num_channels + c2] by {
            if c2 < c {
                assert(out@[c2] == before[c2]);
            }
        }
        c = c + 1;
    }
    out
}


/// Splitting an interleaving gives the channels back: for any channels of
/// equal length, deinterleaving what `interleave` produced yields each
/// channel's samples in order.
pub proof fn lemma_deinterleave_inverts<T>(channels: Seq<&[T]>, num_frames: nat, v: Seq<T>, out: Seq<Seq<T>>)
    requires
        forall|c: int| 0 <= c < channels.len() ==> (#[trigger] channels[c])@.len() == num_frames,
        is_interleaving(v, channels, num_frames),
        out.len() == channels.len(),
        forall|c: int| 0 <= c < channels.len() ==> (#[trigger] out[c]).len() == num_frames,
        forall|c: int, f: int|
            0 <= c < channels.len() && 0 <= f < num_frames ==> #[trigger] out[c][f] == v[f * channels.len() + c],
    ensures
        forall|c: int| 0 <= c < channels.len() ==> #[trigger] out[c] == channels[c]@,
{
    assert forall|c: int| 0 <= c < channels.len() implies #[trigger] out[c] == channels[c]@ by {
        assert forall|f: int| 0 <= f < num_frames implies #[trigger] out[c][f] == channels[c]@[f] by {
            assert(out[c][f] == v[f * channels.len() + c]);
        }
        assert(out[c] =~= channels[c]@);
    }
}

} // verus!
