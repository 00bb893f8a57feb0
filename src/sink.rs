use vstd::arithmetic::div_mod::{lemma_fundamental_div_mod, lemma_mod_multiples_basic};
use vstd::prelude::*;

verus! {

/// How many zero samples complete the last frame of `count` samples over `channels`.
pub open spec fn padding_for(count: nat, channels: nat) -> nat
    recommends
        channels > 0,
{
    if count % channels == 0 {
        0
    } else {
        (channels - count % channels) as nat
    }
}

/// The block a recording writes for the first `count` samples of `data` (all of them
/// when there are fewer): those samples, then `silence` up to a whole frame.
pub open spec fn aligned_block_spec<T>(data: Seq<T>, count: nat, channels: nat, silence: T) -> Seq<T> {
    let n = if count <= data.len() { count } else { data.len() };
    data.take(n as int) + Seq::new(padding_for(n, channels), |i: int| silence)
}

proof fn lemma_padding_completes(count: int, ch: int)
    requires
        ch > 0,
        count >= 0,
        count % ch != 0,
    ensures
        (count + (ch - count % ch)) % ch == 0,
{
    let q = count / ch;
    lemma_fundamental_div_mod(count, ch);
    assert(count + (ch - count % ch) == (q + 1) * ch) by (nonlinear_arith)
        requires
            count == ch * q + count % ch,
    ;
    lemma_mod_multiples_basic(q + 1, ch);
}

/// How many zero samples complete the last frame of `count` samples over `channels`.
pub fn frame_padding(count: usize, channels: u16) -> (r: usize)
    requires
        channels > 0,
    ensures
        r == padding_for(count as nat, channels as nat),
        r < channels,
        (count + r) % (channels as int) == 0,
{
    let rem = count % (channels as usize);
    if rem == 0 {
        0
    } else {
        let r = channels as usize - rem;
        proof {
            lemma_padding_completes(count as int, channels as int);
        }
        r
    }
}

/// The samples a recording writes for a block: the first `count` of `data`, padded
/// with `silence` to a whole number of frames, so that the file can be finalized.
pub fn aligned_block<T: Copy>(data: &[T], count: usize, channels: u16, silence: T) -> (r: Vec<T>)
    requires
        channels > 0,
        data@.len() + channels as nat <= usize::MAX,
    ensures
        r@ == aligned_block_spec(data@, count as nat, channels as nat, silence),
        r@.len() as int % (channels as int) == 0,
{
    let n: usize = if count <= data.len() { count } else { data.len() };
    let pad = frame_padding(n, channels);
    let mut r: Vec<T> = Vec::new();
    let mut i: usize = 0;
    while i < n
        invariant
            n <= data@.len(),
            i <= n,
            r@ == data@.take(i as int),
        decreases n - i,
    {
        r.push(data[i]);
        assert(r@ =~= data@.take(i + 1));
        i = i + 1;
    }
    let mut j: usize = 0;
    while j < pad
        invariant
            n <= data@.len(),
            pad < channels,
            n + pad <= usize::MAX,
            j <= pad,
            r@ == data@.take(n as int) + Seq::new(j as nat, |k: int| silence),
        decreases pad - j,
    {
        r.push(silence);
        assert(r@ =~= data@.take(n as int) + Seq::new((j + 1) as nat, |k: int| silence));
        j = j + 1;
    }
    r
}

/// The layout of a recording: 16-bit signed PCM with the originating stream's channel
/// count and sample rate.
#[derive(Clone, Copy, Debug, PartialEq, Eq, Structural)]
pub struct WavFormat {
    pub channels: u16,
    pub sample_rate: u32,
}

/// Why a recording refused a request.
#[derive(Clone, Copy, Debug, PartialEq, Eq, Structural)]
pub enum SinkError {
    /// The recording was already finalized.
    Closed,
}

/// A recording to a WAV file: blocks are framed while it is open, and it is finalized
/// exactly once.
#[derive(Clone, Copy, Debug, PartialEq, Eq, Structural)]
pub struct FileSink {
    pub format: WavFormat,
    pub open: bool,
}

impl FileSink {
    /// An open recording in `format`.
    pub fn new(format: WavFormat) -> (r: Self)
        ensures
            r.format == format,
            r.open,
    {
        FileSink { format, open: true }
    }

    /// The samples to write for the first `count` of `data`, framed to whole frames;
    /// refused once the recording is finalized.
    pub fn save_to_wav<T: Copy>(&self, data: &[T], count: usize, silence: T) -> (r: Result<Vec<T>, SinkError>)
        requires
            self.format.channels > 0,
            data@.len() + self.format.channels as nat <= usize::MAX,
        ensures
            !self.open ==> r == Err::<Vec<T>, SinkError>(SinkError::Closed),
            self.open ==> r is Ok && r->Ok_0@ == aligned_block_spec(
                data@,
                count as nat,
                self.format.channels as nat,
                silence,
            ),
    {
        if !self.open {
            return Err(SinkError::Closed);
        }
        Ok(aligned_block(data, count, self.format.channels, silence))
    }

    /// Finalizes the recording; a second finalize is refused.
    pub fn close_file(&mut self) -> (r: Result<(), SinkError>)
        ensures
            old(self).open ==> r is Ok,
            !old(self).open ==> r == Err::<(), SinkError>(SinkError::Closed),
            !final(self).open,
            final(self).format == old(self).format,
    {
        if !self.open {
            return Err(SinkError::Closed);
        }
        self.open = false;
        Ok(())
    }
}

} // verus!
