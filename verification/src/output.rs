//! Playback state of the audio output: its configuration, and the cursor
//! that decides, each time the device asks for samples, how many of the
//! loaded samples it gets and where they start.
use vstd::prelude::*;

verus! {

/// Configuration for audio output.
#[derive(Debug, Clone, Copy, PartialEq, Eq, Structural)]
pub struct OutputConfig {
    pub sample_rate: u32,
    pub channels: u16,
    pub buffer_size: usize,
}

impl Default for OutputConfig {
    /// 44.1 kHz stereo with a buffer of 4096 frames.
    fn default() -> (c: Self)
        ensures
            c.sample_rate == 44100,
            c.channels == 2,
            c.buffer_size == 4096,
    {
        OutputConfig { sample_rate: 44100, channels: 2, buffer_size: 4096 }
    }
}

/// Where playback stands in the loaded samples, and whether it runs.
pub struct PlaybackCursor {
    len: usize,
    position: usize,
    playing: bool,
}

/// What a request of the device is answered with: `count` loaded samples
/// from `start` on, then silence for the rest of the request.
#[derive(Debug, Clone, Copy, PartialEq, Eq, Structural)]
pub struct Fill {
    pub start: usize,
    pub count: usize,
}

impl PlaybackCursor {
    #[verifier::type_invariant]
    spec fn inv(self) -> bool {
        self.position <= self.len
    }

    /// The number of loaded samples.
    pub closed spec fn loaded(self) -> nat {
        self.len as nat
    }

    /// The index of the next sample to play.
    pub closed spec fn at(self) -> nat {
        self.position as nat
    }

    /// Whether playback runs.
    pub closed spec fn runs(self) -> bool {
        self.playing
    }

    /// A cursor over nothing, stopped.
    pub fn new() -> (c: Self)
        ensures
            c.loaded() == 0,
            c.at() == 0,
            !c.runs(),
    {
        PlaybackCursor { len: 0, position: 0, playing: false }
    }

    /// Load `len` samples and go back to their start; whether playback runs
    /// is left as it was.
    pub fn load(&mut self, len: usize)
        ensures
            final(self).loaded() == len,
            final(self).at() == 0,
            final(self).runs() == old(self).runs(),
    {
        *self = PlaybackCursor { len, position: 0, playing: self.playing };
    }

    /// Start playback.
    pub fn play(&mut self)
        ensures
            final(self).loaded() == old(self).loaded(),
            final(self).at() == old(self).at(),
            final(self).runs(),
    {
        proof {
            use_type_invariant(&*self);
        }
        self.playing = true;
    }

    /// Pause playback, keeping the position.
    pub fn pause(&mut self)
        ensures
            final(self).loaded() == old(self).loaded(),
            final(self).at() == old(self).at(),
            !final(self).runs(),
    {
        proof {
            use_type_invariant(&*self);
        }
        self.playing = false;
    }

    /// Stop playback and go back to the start.
    pub fn stop(&mut self)
        ensures
            final(self).loaded() == old(self).loaded(),
            final(self).at() == 0,
            !final(self).runs(),
    {
        proof {
            use_type_invariant(&*self);
        }
        self.playing = false;
        self.position = 0;
    }

    /// The index of the next sample to play.
    pub fn position(&self) -> (p: usize)
        ensures
            p == self.at(),
            p <= self.loaded(),
    {
        proof {
            use_type_invariant(self);
        }
        self.position
    }

    /// Playback has finished: it does not run and no sample is left.
    pub fn is_finished(&self) -> (b: bool)
        ensures
            b <==> (!self.runs() && self.at() >= self.loaded()),
    {
        !self.playing && self.position >= self.len
    }

    /// Answer a request of the device for `request` samples: while playback
    /// runs, the next loaded samples, as many as are left up to `request`;
    /// silence otherwise. The position moves past the samples handed out.
    pub fn fill(&mut self, request: usize) -> (r: Fill)
        ensures
            r.start == old(self).at(),
            r.count == if old(self).runs() {
                if request < old(self).loaded() - old(self).at() {
                    request as int
                } else {
                    old(self).loaded() - old(self).at()
                }
            } else {
                0
            },
            final(self).at() == old(self).at() + r.count,
            final(self).at() <= final(self).loaded(),
            final(self).loaded() == old(self).loaded(),
            final(self).runs() == old(self).runs(),
    {
        proof {
            use_type_invariant(&*self);
        }
        let start = self.position;
        let count = if self.playing {
            let left = self.len - self.position;
            if request < left {
                request
            } else {
                left
            }
        } else {
            0
        };
        self.position = self.position + count;
        Fill { start, count }
    }
}

} // verus!
