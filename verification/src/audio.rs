//! PCM channel conversions for calls (16-bit samples). Resampling and the
//! codec are outside the library.

use vstd::prelude::*;

verus! {

/// Sample rate of call audio.
pub const SAMPLE_RATE: u32 = 48000;

/// Channels on the wire.
pub const CHANNELS: usize = 2;

/// Mono samples per 20 ms frame.
pub const FRAME_MONO: usize = 960;

/// Integer division rounding toward zero, as Rust's `/` does.
pub open spec fn div_toward_zero(a: int, b: int) -> int {
    if a >= 0 {
        a / b
    } else {
        -((-a) / b)
    }
}

/// The sum of `s[from..to]`.
pub open spec fn sum_range(s: Seq<i16>, from: int, to: int) -> int
    decreases to - from,
{
    if to <= from {
        0
    } else {
        sum_range(s, from, to - 1) + s[to - 1] as int
    }
}

/// Frame `k` of an interleaved stream of `channels` channels, averaged (the
/// last frame may be short; it is still divided by `channels`).
pub open spec fn frame_mean(s: Seq<i16>, channels: int, k: int) -> int {
    let from = k * channels;
    let to = if from + channels <= s.len() {
        from + channels
    } else {
        s.len() as int
    };
    div_toward_zero(sum_range(s, from, to), channels)
}

fn div_i32(a: i32, b: i32) -> (q: i32)
    requires
        b >= 2,
    ensures
        q == div_toward_zero(a as int, b as int),
{
    if a >= 0 {
        let pos = (a as i64) / (b as i64);
        pos as i32
    } else {
        let na: i64 = -(a as i64);
        let pos = na / (b as i64);
        assert(pos <= 0x4000_0000) by (nonlinear_arith)
            requires
                pos == (na as int) / (b as int),
                b >= 2,
                na <= 0x8000_0000,
                na > 0,
        ;
        -(pos as i32)
    }
}

proof fn lemma_sum_bound(s: Seq<i16>, from: int, to: int)
    requires
        0 <= from <= to <= s.len(),
    ensures
        (to - from) * (-32768) <= sum_range(s, from, to) <= (to - from) * 32767,
    decreases to - from,
{
    if to > from {
        lemma_sum_bound(s, from, to - 1);
    }
}

/// Averages each frame of `channels` interleaved samples into one sample.
pub fn to_mono(samples: &[i16], channels: usize) -> (r: Vec<i16>)
    requires
        channels <= 65536,
    ensures
        channels <= 1 ==> r@ == samples@,
        channels > 1 ==> r@.len() == (samples@.len() + channels - 1) / (channels as int),
        channels > 1 ==> forall|k: int|
            0 <= k < r@.len() ==> #[trigger] r@[k] as int == frame_mean(samples@, channels as int, k),
{
    if channels <= 1 {
        let mut out: Vec<i16> = Vec::new();
        let mut i: usize = 0;
        while i < samples.len()
            invariant
                i <= samples@.len(),
                out@ == samples@.take(i as int),
            decreases samples@.len() - i,
        {
            out.push(samples[i]);
            i = i + 1;
            assert(out@ =~= samples@.take(i as int));
        }
        assert(samples@.take(i as int) =~= samples@);
        return out;
    }
    let mut out: Vec<i16> = Vec::new();
    let n = samples.len();
    assert(n / channels < n || n == 0) by (nonlinear_arith)
        requires
            channels > 1,
    ;
    let frames = n / channels + if n % channels != 0 {
        1
    } else {
        0
    };
    proof {
        assert(frames == (n + channels - 1) / (channels as int)) by (nonlinear_arith)
            requires
                channels > 1,
                frames == n / channels + if n % channels != 0 {
                    1int
                } else {
                    0int
                },
        ;
    }
    let mut k: usize = 0;
    while k < frames
        invariant
            channels > 1,
            channels <= 65536,
            n == samples@.len(),
            frames == (n + channels - 1) / (channels as int),
            k <= frames,
            out@.len() == k,
            forall|j: int|
                0 <= j < k ==> #[trigger] out@[j] as int == frame_mean(samples@, channels as int, j),
        decreases frames - k,
    {
        proof {
            assert(k * channels < n) by (nonlinear_arith)
                requires
                    k < frames,
                    frames == (n + channels - 1) / (channels as int),
                    channels > 1,
            ;
        }
        let from = k * channels;
        let to = if n - from >= channels {
            from + channels
        } else {
            n
        };
        let mut sum: i32 = 0;
        let mut i = from;
        while i < to
            invariant
                from <= i <= to <= n,
                to - from <= channels <= 65536,
                n == samples@.len(),
                sum == sum_range(samples@, from as int, i as int),
            decreases to - i,
        {
            proof {
                lemma_sum_bound(samples@, from as int, i as int);
                assert((i - from) * (-32768) >= -32768 * 65536) by (nonlinear_arith)
                    requires
                        i - from <= 65536,
                        i >= from,
                ;
                assert((i - from) * 32767 <= 32767 * 65536) by (nonlinear_arith)
                    requires
                        i - from <= 65536,
                        i >= from,
                ;
            }
            sum = sum + samples[i] as i32;
            i = i + 1;
        }
        proof {
            lemma_sum_bound(samples@, from as int, to as int);
            assert(-32768 * channels <= sum <= 32767 * channels) by (nonlinear_arith)
                requires
                    (to - from) * (-32768) <= sum <= (to - from) * 32767,
                    to - from <= channels,
                    to >= from,
            ;
        }
        let q = div_i32(sum, channels as i32);
        proof {
            assert(-32768 <= q <= 32767) by (nonlinear_arith)
                requires
                    q == div_toward_zero(sum as int, channels as int),
                    -32768 * channels <= sum <= 32767 * channels,
                    channels > 0,
            ;
        }
        out.push(q as i16);
        proof {
            assert(out@[k as int] as int == frame_mean(samples@, channels as int, k as int));
        }
        k = k + 1;
    }
    out
}

/// Each mono sample twice, as left and right.
pub fn upmix_stereo(mono: &[i16]) -> (r: Vec<i16>)
    requires
        mono@.len() * 2 <= usize::MAX,
    ensures
        r@ == upmixed(mono@),
{
    let mut out: Vec<i16> = Vec::new();
    let mut i: usize = 0;
    while i < mono.len()
        invariant
            i <= mono@.len(),
            out@.len() == 2 * i,
            forall|j: int| 0 <= j < i ==> #[trigger] out@[2 * j] == mono@[j] && out@[2 * j + 1] == mono@[j],
        decreases mono@.len() - i,
    {
        out.push(mono[i]);
        out.push(mono[i]);
        assert(out@[2 * (i as int)] == mono@[i as int] && out@[2 * (i as int) + 1] == mono@[i as int]);
        i = i + 1;
    }
    assert forall|k: int| 0 <= k < out@.len() implies out@[k] == upmixed(mono@)[k] by {
        let j = k / 2;
        assert(out@[2 * j] == mono@[j] && out@[2 * j + 1] == mono@[j]);
        assert(k == 2 * j || k == 2 * j + 1);
    }
    assert(out@ =~= upmixed(mono@));
    out
}

/// Each sample twice, as left and right.
pub open spec fn upmixed(mono: Seq<i16>) -> Seq<i16> {
    Seq::new(2 * mono.len(), |i: int| mono[i / 2])
}

/// The mean of each left/right pair (a final lone sample kept as it is).
pub open spec fn pair_mean(s: Seq<i16>, k: int) -> int {
    if 2 * k + 1 < s.len() {
        div_toward_zero(s[2 * k] as int + s[2 * k + 1] as int, 2)
    } else {
        s[2 * k] as int
    }
}

pub open spec fn downmixed(s: Seq<i16>) -> Seq<i16> {
    Seq::new(((s.len() + 1) / 2) as nat, |k: int| pair_mean(s, k) as i16)
}

/// Averages each left/right pair into one sample.
pub fn downmix_stereo(interleaved: &[i16]) -> (r: Vec<i16>)
    ensures
        r@ == downmixed(interleaved@),
{
    let n = interleaved.len();
    let mut out: Vec<i16> = Vec::new();
    let mut i: usize = 0;
    while i < n
        invariant
            n == interleaved@.len(),
            i % 2 == 0,
            i <= n,
            out@.len() == i / 2,
            forall|k: int| 0 <= k < out@.len() ==> #[trigger] out@[k] == pair_mean(interleaved@, k) as i16,
        decreases n - i,
    {
        if n - i >= 2 {
            let sum = interleaved[i] as i32 + interleaved[i + 1] as i32;
            let q = div_i32(sum, 2);
            out.push(q as i16);
            assert(out@[(i / 2) as int] == pair_mean(interleaved@, (i / 2) as int) as i16);
            i = i + 2;
        } else {
            out.push(interleaved[i]);
            assert(out@[(i / 2) as int] == pair_mean(interleaved@, (i / 2) as int) as i16);
            assert(out@.len() == (n + 1) / 2);
            assert(out@ =~= downmixed(interleaved@));
            return out;
        }
    }
    assert(out@ =~= downmixed(interleaved@));
    out
}

/// Downmixing what was upmixed gives back the mono signal.
pub proof fn law_downmix_upmix(mono: Seq<i16>)
    ensures
        downmixed(upmixed(mono)) == mono,
{
    let st = upmixed(mono);
    let back = downmixed(st);
    assert forall|k: int| 0 <= k < back.len() implies back[k] == mono[k] by {
        assert(st[2 * k] == mono[k]);
        assert(st[2 * k + 1] == mono[(2 * k + 1) / 2]);
        assert((2 * k + 1) / 2 == k);
    }
    assert(back =~= mono);
}

// ---------------------------------------------------------------------------
// Sample queues between the device and the codec
// ---------------------------------------------------------------------------

/// Most samples a capture or playback queue holds: one second of mono.
pub const CAPTURE_CAP: usize = 48000;

/// The last [`CAPTURE_CAP`] samples of `s`.
pub open spec fn keep_last(s: Seq<i16>) -> Seq<i16> {
    if s.len() > CAPTURE_CAP {
        s.skip(s.len() - CAPTURE_CAP)
    } else {
        s
    }
}

/// `s` cut or padded with silence to exactly `n` samples.
pub open spec fn fitted(s: Seq<i16>, n: nat) -> Seq<i16> {
    Seq::new(n, |i: int| if i < s.len() { s[i] } else { 0i16 })
}

/// A decoded frame cut or padded to [`FRAME_MONO`] samples.
pub fn fit_frame(mono: &[i16]) -> (r: Vec<i16>)
    ensures
        r@ == fitted(mono@, FRAME_MONO as nat),
{
    let mut out: Vec<i16> = Vec::new();
    let mut i: usize = 0;
    while i < FRAME_MONO
        invariant
            i <= FRAME_MONO,
            out@ == fitted(mono@, FRAME_MONO as nat).take(i as int),
        decreases FRAME_MONO - i,
    {
        if i < mono.len() {
            out.push(mono[i]);
        } else {
            out.push(0);
        }
        i = i + 1;
        assert(out@ =~= fitted(mono@, FRAME_MONO as nat).take(i as int));
    }
    assert(out@ =~= fitted(mono@, FRAME_MONO as nat));
    out
}

fn copy_samples(s: &[i16], from: usize, to: usize, out: &mut Vec<i16>)
    requires
        from <= to <= s@.len(),
    ensures
        final(out)@ == old(out)@ + s@.subrange(from as int, to as int),
{
    let mut i = from;
    while i < to
        invariant
            from <= i <= to <= s@.len(),
            out@ == old(out)@ + s@.subrange(from as int, i as int),
        decreases to - i,
    {
        out.push(s[i]);
        i = i + 1;
        assert(out@ =~= old(out)@ + s@.subrange(from as int, i as int));
    }
}

/// A bounded queue of mono samples: new samples go to the back, the
/// oldest drop out beyond [`CAPTURE_CAP`].
pub struct SampleQueue {
    samples: Vec<i16>,
}

impl View for SampleQueue {
    type V = Seq<i16>;

    closed spec fn view(&self) -> Seq<i16> {
        self.samples@
    }
}

impl SampleQueue {
    pub closed spec fn wf(self) -> bool {
        self.samples@.len() <= CAPTURE_CAP
    }

    pub fn new() -> (q: SampleQueue)
        ensures
            q.wf(),
            q@ == Seq::<i16>::empty(),
    {
        SampleQueue { samples: Vec::new() }
    }

    pub fn len(&self) -> (n: usize)
        ensures
            n == self@.len(),
    {
        self.samples.len()
    }

    /// Appends `s`, keeping the newest [`CAPTURE_CAP`] samples.
    pub fn push(&mut self, s: &[i16])
        requires
            old(self).wf(),
        ensures
            final(self).wf(),
            final(self)@ == keep_last(old(self)@ + s@),
    {
        let ghost all = self.samples@ + s@;
        let n = self.samples.len();
        let m = s.len();
        let mut out: Vec<i16> = Vec::new();
        if m >= CAPTURE_CAP {
            copy_samples(s, m - CAPTURE_CAP, m, &mut out);
            assert(out@ =~= keep_last(all));
        } else {
            let keep_old = CAPTURE_CAP - m;
            let start = if n > keep_old { n - keep_old } else { 0 };
            copy_samples(self.samples.as_slice(), start, n, &mut out);
            copy_samples(s, 0, m, &mut out);
            assert(out@ =~= keep_last(all));
        }
        self.samples = out;
    }

    /// Takes up to `max` of the oldest samples.
    pub fn pull(&mut self, max: usize) -> (r: Vec<i16>)
        requires
            old(self).wf(),
        ensures
            final(self).wf(),
            r@ == old(self)@.take(if max < old(self)@.len() { max as int } else { old(self)@.len() as int }),
            final(self)@ == old(self)@.skip(if max < old(self)@.len() { max as int } else { old(self)@.len() as int }),
    {
        let n = self.samples.len();
        let k = if max < n { max } else { n };
        let mut head: Vec<i16> = Vec::new();
        copy_samples(self.samples.as_slice(), 0, k, &mut head);
        let mut rest: Vec<i16> = Vec::new();
        copy_samples(self.samples.as_slice(), k, n, &mut rest);
        assert(head@ =~= old(self)@.take(k as int));
        assert(rest@ =~= old(self)@.skip(k as int));
        self.samples = rest;
        head
    }

    /// One frame of [`FRAME_MONO`] samples from the front, padded with
    /// silence when the queue runs short.
    pub fn take_frame(&mut self) -> (r: Vec<i16>)
        requires
            old(self).wf(),
        ensures
            final(self).wf(),
            r@ == fitted(old(self)@, FRAME_MONO as nat),
            final(self)@ == old(self)@.skip(if FRAME_MONO < old(self)@.len() { FRAME_MONO as int } else { old(self)@.len() as int }),
    {
        let got = self.pull(FRAME_MONO);
        let r = fit_frame(got.as_slice());
        assert(r@ =~= fitted(old(self)@, FRAME_MONO as nat));
        r
    }
}

/// A queue never holds more than [`CAPTURE_CAP`] samples, and pushing keeps
/// the newest ones in order.
pub proof fn law_queue_keeps_newest(before: Seq<i16>, s: Seq<i16>)
    ensures
        keep_last(before + s).len() <= CAPTURE_CAP,
        s.len() <= CAPTURE_CAP ==> keep_last(before + s).skip(keep_last(before + s).len() - s.len()) == s,
{
    let all = before + s;
    if s.len() <= CAPTURE_CAP {
        let k = keep_last(all);
        assert(k.skip(k.len() - s.len()) =~= s);
    }
}


/// Downmixing gives one sample per left/right pair: the mean of the two,
/// rounded toward zero (twice the result is the pair's sum, or one off it
/// toward zero); a lone last sample is kept as it is.
pub proof fn law_downmix_mean(s: Seq<i16>, k: int)
    requires
        0 <= k < (s.len() + 1) / 2,
    ensures
        downmixed(s).len() == (s.len() + 1) / 2,
        2 * k + 1 < s.len() && s[2 * k] + s[2 * k + 1] >= 0 ==> 2 * (downmixed(s)[k] as int) <= s[2 * k]
            + s[2 * k + 1] <= 2 * (downmixed(s)[k] as int) + 1,
        2 * k + 1 < s.len() && s[2 * k] + s[2 * k + 1] < 0 ==> 2 * (downmixed(s)[k] as int) - 1 <= s[2
            * k] + s[2 * k + 1] <= 2 * (downmixed(s)[k] as int),
        2 * k + 1 == s.len() ==> downmixed(s)[k] == s[2 * k],
{
    if 2 * k + 1 < s.len() {
        let a = s[2 * k] as int + s[2 * k + 1] as int;
        let m = div_toward_zero(a, 2);
        assert(-32768 <= m <= 32767);
        assert(m as i16 == m);
    }
}

} // verus!
