//! Noticing that no progress is made.

use vstd::prelude::*;

verus! {

/// The quality from which a subtask counts as progress.
pub const MIN_QUALITY: u32 = 70;

/// Watches the quality of the last completions.
#[derive(Debug)]
pub struct StallDetector {
    threshold: usize,
    recent_scores: Vec<u32>,
}

/// The last `n` of the scores.
pub open spec fn last_scores(s: Seq<u32>, n: nat) -> Seq<u32> {
    if s.len() <= n {
        s
    } else {
        s.skip(s.len() - n)
    }
}

/// Whether all scores are below the bar.
pub open spec fn all_low(s: Seq<u32>) -> bool {
    forall|i: int| 0 <= i < s.len() ==> #[trigger] s[i] < MIN_QUALITY
}

/// Whether every score is better than the one before it.
pub open spec fn improving(s: Seq<u32>) -> bool {
    forall|i: int, j: int| 0 <= i && j == i + 1 && j < s.len() ==> #[trigger] s[i] < #[trigger] s[j]
}

impl StallDetector {
    /// How many completions in a row make a stall.
    pub closed spec fn window(&self) -> nat {
        self.threshold as nat
    }

    /// The scores of the last completions.
    pub closed spec fn scores(&self) -> Seq<u32> {
        self.recent_scores@
    }

    /// There is a window, and no more scores than fit in it.
    pub open spec fn wf(&self) -> bool {
        1 <= self.window() && self.scores().len() <= self.window()
    }

    /// A detector that reports a stall after `threshold` completions without
    /// progress, and after one where `threshold` is 0.
    pub fn new(threshold: usize) -> (r: Self)
        ensures
            r.wf(),
            r.window() == (if threshold == 0 {
                1
            } else {
                threshold as nat
            }),
            r.scores() == Seq::<u32>::empty(),
    {
        StallDetector {
            threshold: if threshold == 0 {
                1
            } else {
                threshold
            },
            recent_scores: Vec::new(),
        }
    }

    /// Records the quality of a completion.
    pub fn record(&mut self, quality: u32)
        requires
            old(self).wf(),
        ensures
            final(self).wf(),
            final(self).window() == old(self).window(),
            final(self).scores() == last_scores(
                old(self).scores().push(quality),
                old(self).window(),
            ),
    {
        let ghost before = self.scores();
        self.recent_scores.push(quality);
        if self.recent_scores.len() > self.threshold {
            let _ = self.recent_scores.remove(0);
            assert(self.recent_scores@ =~= before.push(quality).skip(1));
        }
    }

    /// Whether the last completions make a stall: the window is full, all of
    /// them are below the bar, and they do not keep getting better.
    pub fn is_stalled(&self) -> (b: bool)
        ensures
            b == (self.scores().len() >= self.window() && all_low(self.scores()) && !improving(
                self.scores(),
            )),
    {
        let n: usize = self.recent_scores.len();
        if n < self.threshold {
            return false;
        }
        let ghost s = self.scores();
        let mut better = true;
        for i in 0..n
            invariant
                n == self.recent_scores@.len(),
                s == self.recent_scores@,
                s == self.scores(),
                forall|k: int| 0 <= k < i ==> #[trigger] s[k] < MIN_QUALITY,
                better == (forall|k: int, j: int|
                    0 <= k && j == k + 1 && j < i ==> #[trigger] s[k] < #[trigger] s[j]),
        {
            if self.recent_scores[i] >= MIN_QUALITY {
                assert(!(s[i as int] < MIN_QUALITY));
                return false;
            }
            if i > 0 && self.recent_scores[i - 1] >= self.recent_scores[i] {
                assert(!(s[i - 1] < s[i as int]));
                better = false;
            }
        }
        !better
    }

    /// How many completions are in the window.
    pub fn stalled_rounds(&self) -> (r: usize)
        ensures
            r == self.scores().len(),
    {
        self.recent_scores.len()
    }

    /// Forgets the completions.
    pub fn reset(&mut self)
        requires
            old(self).wf(),
        ensures
            final(self).wf(),
            final(self).window() == old(self).window(),
            final(self).scores() == Seq::<u32>::empty(),
    {
        self.recent_scores.clear();
    }
}

/// A score at the bar or above it rules out a stall as long as it is in the
/// window, and so do scores that keep getting better.
pub proof fn law_progress_is_no_stall(s: Seq<u32>, quality: u32, window: nat)
    requires
        window >= 1,
        quality >= MIN_QUALITY,
    ensures
        !all_low(last_scores(s.push(quality), window)),
{
    let t = last_scores(s.push(quality), window);
    assert(t[t.len() - 1] == quality);
}

/// The scores that count are the newest: as many as the window holds, in the order in
/// which they came, and the one that was just recorded is the last of them.
pub proof fn law_newest_scores_count(s: Seq<u32>, quality: u32, window: nat)
    requires
        window >= 1,
    ensures
        ({
            let r = last_scores(s.push(quality), window);
            &&& r.len() <= window
            &&& r.last() == quality
            &&& s.len() < window ==> r == s.push(quality)
            &&& s.len() >= window ==> r.len() == window
            &&& forall|i: int|
                0 <= i < r.len() ==> #[trigger] r[i] == s.push(quality)[s.len() + 1 - r.len() + i]
        }),
{
}

/// Scores are improving unless one of them is no better than the one before it.
pub proof fn law_one_setback_is_no_improvement(s: Seq<u32>, i: int)
    requires
        0 <= i,
        i + 1 < s.len(),
    ensures
        s[i + 1] <= s[i] ==> !improving(s),
{
    let j = i + 1;
    if improving(s) {
        assert(s[i] < s[j]);
    }
}

} // verus!
