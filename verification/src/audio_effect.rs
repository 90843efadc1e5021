//! Sound that starts with an intro: which of two sources fills a buffer.
//!
//! The intro is played once, then the music takes over for good. The
//! sources themselves belong to the shell; here is only the decision
//! between them.

use vstd::prelude::*;

verus! {

/// An intro and the music that follows it.
pub struct WithIntro<T, S> {
    /// Whether the intro is still playing.
    pub in_intro: bool,
    /// The source of the intro.
    pub intro: T,
    /// The source of the music.
    pub music: S,
}

impl<T, S> WithIntro<T, S> {
    /// The two sources, with the intro about to play.
    pub fn new(intro: T, music: S) -> (this: Self)
        ensures
            this.in_intro,
            this.intro == intro,
            this.music == music,
    {
        Self { in_intro: true, intro, music }
    }

    /// Whether the next samples come from the intro.
    pub fn from_intro(&self) -> (intro: bool)
        ensures
            intro == self.in_intro,
    {
        self.in_intro
    }

    /// Takes note that the intro has filled a buffer of `wanted` samples
    /// up to `filled`. Where it fell short, the intro is over: the result
    /// is true, and the rest of the buffer, as all samples from then on,
    /// comes from the music.
    pub fn intro_wrote(&mut self, filled: usize, wanted: usize) -> (over: bool)
        ensures
            over == (old(self).in_intro && filled < wanted),
            final(self).in_intro == (old(self).in_intro && !over),
            final(self).intro == old(self).intro,
            final(self).music == old(self).music,
    {
        if self.in_intro && filled < wanted {
            self.in_intro = false;
            true
        } else {
            false
        }
    }
}

} // verus!
