//! Looping realtime playback state.
//!
//! [`SamplePlayer`] holds the state the audio callback consumes: a single-slot
//! inbox for freshly stitched buffers (last write wins), the buffer adopted
//! last, its rate-converted copy, and the loop position. [`SamplePlayer::play`]
//! performs one callback's work: adopt a pending buffer, react to a rate
//! change, resample when the cached conversion was invalidated, and fill the
//! interleaved output by looping the cached buffer, fanning the mono source
//! out identically to every channel. When no audio is available it writes
//! silence.
//!
//! The embedding program owns the locking: it holds its lock around each call
//! into this state, so the verified logic itself is single-threaded.

use vstd::prelude::*;

verus! {

use crate::NATIVE_SAMPLE_RATE;
use crate::resample::{MAX_SAMPLE_RATE, resample, resampled};
use crate::samples::MAX_BUFFER_LEN;
use vstd::arithmetic::div_mod::{
    lemma_add_mod_noop, lemma_fundamental_div_mod, lemma_fundamental_div_mod_converse,
    lemma_mod_bound, lemma_mod_twice, lemma_small_mod,
};
use vstd::arithmetic::mul::lemma_mul_inequality;

/// Playback state owned by the audio domain, created lazily on the first
/// callback.
struct PlaybackState {
    current_sample_rate: u32,
    play_pos: usize,
    raw_samples: Option<Vec<i64>>,
    resampled_samples: Option<Vec<i64>>,
}

/// The mathematical content of a [`PlaybackState`].
pub ghost struct StateModel {
    pub rate: u32,
    pub pos: int,
    pub raw: Option<Seq<i64>>,
    pub resampled: Option<Seq<i64>>,
}

/// The mathematical content of a [`SamplePlayer`].
pub ghost struct PlayerModel {
    pub incoming: Option<Seq<i64>>,
    pub state: Option<StateModel>,
}

/// Looping playback buffer: single-slot inbox plus lazily created state.
pub struct SamplePlayer {
    incoming: Option<Vec<i64>>,
    state: Option<PlaybackState>,
}

impl View for SamplePlayer {
    type V = PlayerModel;

    closed spec fn view(&self) -> PlayerModel {
        PlayerModel {
            incoming: match self.incoming {
                Some(v) => Some(v@),
                None => None,
            },
            state: match self.state {
                Some(st) => Some(
                    StateModel {
                        rate: st.current_sample_rate,
                        pos: st.play_pos as int,
                        raw: match st.raw_samples {
                            Some(v) => Some(v@),
                            None => None,
                        },
                        resampled: match st.resampled_samples {
                            Some(v) => Some(v@),
                            None => None,
                        },
                    },
                ),
                None => None,
            },
        }
    }
}

/// Buffers the player holds are nonempty, short enough to resample, and the
/// loop position stays inside the cached buffer.
pub open spec fn player_inv(m: PlayerModel) -> bool {
    &&& (m.incoming matches Some(s) ==> 1 <= s.len() <= MAX_BUFFER_LEN)
    &&& (m.state matches Some(st) ==> {
        &&& (st.raw matches Some(rw) ==> 1 <= rw.len() <= MAX_BUFFER_LEN)
        &&& (st.resampled matches Some(rs) ==> if rs.len() >= 1 {
            0 <= st.pos < rs.len()
        } else {
            st.pos == 0
        })
        &&& (st.resampled is None ==> st.pos == 0)
    })
}

/// The raw buffer the callback works from: a pending inbox buffer wins over
/// the one adopted earlier.
pub open spec fn raw_after(m: PlayerModel) -> Option<Seq<i64>> {
    if m.incoming is Some {
        m.incoming
    } else if m.state is Some {
        m.state->0.raw
    } else {
        None
    }
}

/// Whether this callback must rebuild the rate-converted buffer: a new raw
/// buffer arrived, there is no state yet, the device rate changed, or the
/// cached conversion was already invalid.
pub open spec fn rebuild_needed(m: PlayerModel, rate: u32) -> bool {
    ||| m.incoming is Some
    ||| m.state is None
    ||| m.state->0.rate != rate
    ||| m.state->0.resampled is None
}

/// The rate-converted buffer the fill phase reads, if any.
pub open spec fn resampled_after(m: PlayerModel, rate: u32) -> Option<Seq<i64>> {
    if rebuild_needed(m, rate) {
        match raw_after(m) {
            Some(raw) => Some(resampled(raw, NATIVE_SAMPLE_RATE as int, rate as int)),
            None => None,
        }
    } else {
        m.state->0.resampled
    }
}

/// The loop position the fill phase starts from: 0 after a rebuild, else
/// wherever the previous callback stopped.
pub open spec fn start_pos(m: PlayerModel, rate: u32) -> int {
    if rebuild_needed(m, rate) {
        0
    } else {
        m.state->0.pos
    }
}

/// Looping playback law. Consider a player that keeps looping one cached
/// buffer of length `M`: nothing pending in the inbox and no rate change, so
/// no rebuild happens, and suppose `p` frames have been played since the
/// buffer was adopted, so that `play_pos == p % M` (which `play` establishes
/// with `p = frames` after a rebuild and maintains from call to call). Then
/// the next callback reads the same cached buffer, and `play`'s contract —
/// frame `f` gets `buffer[(play_pos + f) % M]`, every channel alike, and
/// `play_pos` advances by the frame count modulo `M` — writes global frame
/// position `p + f` as `buffer[(p + f) % M]` and leaves
/// `play_pos == (p + frames) % M`: by induction over callbacks, the sample at
/// any global frame position `g` is `buffer[g % M]`.
pub proof fn lemma_looping_playback(m: PlayerModel, rate: u32, p: int, f: int)
    requires
        player_inv(m),
        m.state is Some,
        !rebuild_needed(m, rate),
        m.state->0.resampled->0.len() >= 1,
        p >= 0,
        m.state->0.pos == p % (m.state->0.resampled->0.len() as int),
    ensures
        resampled_after(m, rate) == m.state->0.resampled,
        (start_pos(m, rate) + f) % (m.state->0.resampled->0.len() as int)
            == (p + f) % (m.state->0.resampled->0.len() as int),
{
    let len = m.state->0.resampled->0.len() as int;
    lemma_mod_twice(p, len);
    lemma_add_mod_noop(p % len, f, len);
    lemma_add_mod_noop(p, f, len);
}

impl SamplePlayer {
    /// A player with nothing pending and no playback state yet.
    pub fn new() -> (r: SamplePlayer)
        ensures
            r@.incoming is None,
            r@.state is None,
            player_inv(r@),
    {
        SamplePlayer { incoming: None, state: None }
    }

    /// Put a freshly stitched buffer in the single-slot inbox. A buffer the
    /// callback has not yet consumed is superseded and discarded.
    pub fn update_samples(&mut self, samples: Vec<i64>)
        requires
            player_inv(old(self)@),
            1 <= samples@.len() <= MAX_BUFFER_LEN,
        ensures
            player_inv(final(self)@),
            final(self)@.incoming == Some(samples@),
            final(self)@.state == old(self)@.state,
    {
        self.incoming = Some(samples);
    }

    /// One audio callback: adopt a pending buffer, react to a rate change,
    /// rebuild the rate-converted buffer if it was invalidated, then fill the
    /// interleaved output by looping the cached buffer — the same sample in
    /// every channel of a frame — or with silence when no audio is available.
    pub fn play(&mut self, sample_rate: u32, channels: usize, out_samples: &mut Vec<i64>)
        requires
            player_inv(old(self)@),
            1 <= sample_rate <= MAX_SAMPLE_RATE,
            channels >= 1,
            old(out_samples)@.len() as int % (channels as int) == 0,
        ensures
            player_inv(final(self)@),
            final(self)@.incoming is None,
            final(self)@.state is Some,
            final(out_samples)@.len() == old(out_samples)@.len(),
            ({
                let st = final(self)@.state->0;
                let buf = resampled_after(old(self)@, sample_rate);
                let pos0 = start_pos(old(self)@, sample_rate);
                let frames = old(out_samples)@.len() as int / (channels as int);
                &&& st.rate == sample_rate
                &&& st.raw == raw_after(old(self)@)
                &&& st.resampled == buf
                &&& (buf is Some && buf->0.len() >= 1 ==> {
                    &&& (forall|k: int| 0 <= k < old(out_samples)@.len() ==>
                        #[trigger] final(out_samples)@[k]
                            == buf->0[(pos0 + k / (channels as int)) % (buf->0.len() as int)])
                    &&& st.pos == (pos0 + frames) % (buf->0.len() as int)
                })
                &&& (!(buf is Some && buf->0.len() >= 1) ==> {
                    &&& (forall|k: int| 0 <= k < old(out_samples)@.len() ==>
                        #[trigger] final(out_samples)@[k] == 0i64)
                    &&& st.pos == 0
                })
            }),
    {
        let ghost m0 = self@;
        let mut st = match self.state.take() {
            Some(s) => s,
            None => PlaybackState {
                current_sample_rate: 0,
                play_pos: 0,
                raw_samples: None,
                resampled_samples: None,
            },
        };
        if let Some(fresh) = self.incoming.take() {
            st.raw_samples = Some(fresh);
            st.resampled_samples = None;
            st.play_pos = 0;
        }
        if st.current_sample_rate != sample_rate {
            st.resampled_samples = None;
            st.play_pos = 0;
            st.current_sample_rate = sample_rate;
        }
        if st.resampled_samples.is_none() {
            st.play_pos = 0;
            st.resampled_samples = match &st.raw_samples {
                Some(raw) => {
                    proof {
                        assert(raw@.len() * sample_rate
                            <= MAX_BUFFER_LEN * (MAX_SAMPLE_RATE as int)) by (nonlinear_arith)
                            requires
                                0 <= raw@.len() <= MAX_BUFFER_LEN
                                    && 0 <= sample_rate <= MAX_SAMPLE_RATE;
                        vstd::arithmetic::div_mod::lemma_div_is_ordered(
                            raw@.len() * sample_rate,
                            MAX_BUFFER_LEN * (MAX_SAMPLE_RATE as int),
                            NATIVE_SAMPLE_RATE as int,
                        );
                    }
                    Some(resample(raw, NATIVE_SAMPLE_RATE, sample_rate))
                },
                None => None,
            };
        }
        proof {
            assert(match st.resampled_samples {
                Some(b) => Some(b@),
                None => None,
            } == resampled_after(m0, sample_rate));
        }
        let total = out_samples.len();
        let frames = total / channels;
        let ghost pos0 = start_pos(m0, sample_rate);
        let has_audio = match &st.resampled_samples {
            Some(b) => b.len() >= 1,
            None => false,
        };
        if has_audio {
            let buf = match &st.resampled_samples {
                Some(b) => b,
                None => unreached(),
            };
            let m = buf.len();
            let mut cur = st.play_pos;
            proof {
                lemma_small_mod(cur as nat, m as nat);
            }
            let mut f: usize = 0;
            while f < frames
                invariant
                    m == buf@.len(),
                    1 <= m,
                    channels >= 1,
                    total == out_samples@.len(),
                    total as int % (channels as int) == 0,
                    frames == total as int / (channels as int),
                    f <= frames,
                    0 <= cur < m,
                    cur == (pos0 + f) % (m as int),
                    pos0 >= 0,
                    forall|k: int| 0 <= k < f * channels ==>
                        #[trigger] out_samples@[k] == buf@[(pos0 + k / (channels as int)) % (m as int)],
                decreases frames - f,
            {
                proof {
                    lemma_fundamental_div_mod(total as int, channels as int);
                    lemma_mul_inequality(f as int + 1, frames as int, channels as int);
                    assert((f + 1) * channels == f * channels + channels) by (nonlinear_arith);
                }
                let value = buf[cur];
                let base = f * channels;
                let mut c: usize = 0;
                while c < channels
                    invariant
                        m == buf@.len(),
                        1 <= m,
                        channels >= 1,
                        total == out_samples@.len(),
                        base == f * channels,
                        base + channels <= total,
                        c <= channels,
                        0 <= cur < m,
                        cur == (pos0 + f) % (m as int),
                        pos0 >= 0,
                        value == buf@[cur as int],
                        forall|k: int| 0 <= k < f * channels ==>
                            #[trigger] out_samples@[k]
                                == buf@[(pos0 + k / (channels as int)) % (m as int)],
                        forall|k: int| base <= k < base + c ==>
                            #[trigger] out_samples@[k]
                                == buf@[(pos0 + k / (channels as int)) % (m as int)],
                    decreases channels - c,
                {
                    out_samples.set(base + c, value);
                    proof {
                        lemma_fundamental_div_mod_converse(
                            base + c,
                            channels as int,
                            f as int,
                            c as int,
                        );
                    }
                    c = c + 1;
                }
                let ghost oldcur = cur as int;
                cur = cur + 1;
                if cur == m {
                    cur = 0;
                }
                f = f + 1;
                proof {
                    let mi = m as int;
                    lemma_add_mod_noop(pos0 + f - 1, 1, mi);
                    if mi == 1 {
                        lemma_mod_bound(pos0 + f, 1);
                    } else {
                        lemma_small_mod(1nat, m as nat);
                        if oldcur + 1 == mi {
                            vstd::arithmetic::div_mod::lemma_mod_self_0(mi);
                        } else {
                            lemma_small_mod((oldcur + 1) as nat, m as nat);
                        }
                    }
                    assert(cur == (pos0 + f) % mi);
                    assert(forall|k: int| 0 <= k < f * channels ==>
                        #[trigger] out_samples@[k]
                            == buf@[(pos0 + k / (channels as int)) % (m as int)]);
                }
            }
            proof {
                lemma_fundamental_div_mod(total as int, channels as int);
                assert((channels as int) * (total as int / (channels as int))
                    == (total as int / (channels as int)) * (channels as int)) by (nonlinear_arith);
            }
            st.play_pos = cur;
        } else {
            let mut k: usize = 0;
            while k < total
                invariant
                    total == out_samples@.len(),
                    k <= total,
                    forall|j: int| 0 <= j < k ==> #[trigger] out_samples@[j] == 0i64,
                decreases total - k,
            {
                out_samples.set(k, 0i64);
                k = k + 1;
            }
            st.play_pos = 0;
        }
        self.state = Some(st);
    }
}

} // verus!
