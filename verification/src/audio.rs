//! Sound: which effects have been loaded, one looping music track that is brought
//! in line with what the game wants, and one-shot effects.
//!
//! The mixer itself is outside. Each frame these functions say what to ask of it.

use crate::float::{F32Bits, F32_ONE};
use std::collections::BTreeSet;
use vstd::prelude::*;

verus! {

/// Where the sound bank is mounted.
pub const SOUNDBANK_PATH: &'static str = "nitro:/soundbank.bin";

/// The bit pattern of `0.5`.
pub const F32_HALF: u32 = 0x3f00_0000;

/// The bit pattern of `-1.0`.
pub const F32_MINUS_ONE: u32 = 0xbf80_0000;

/// A sound of the bank.
#[derive(Clone, Copy, PartialEq, Eq, Debug, Hash, Structural)]
pub struct SoundId(pub u32);

/// Could the sound bank be mounted? If not, nothing is played.
#[derive(Clone, Copy, Debug, PartialEq, Eq, Structural)]
pub struct Audio {
    pub ready: bool,
}

impl Default for Audio {
    fn default() -> (r: Audio)
        ensures
            !r.ready,
    {
        Audio { ready: false }
    }
}

/// The effects that have been loaded; each is loaded once, before it is first
/// played.
pub struct LoadedEffects {
    pub loaded: BTreeSet<u32>,
}

impl View for LoadedEffects {
    type V = Set<u32>;

    open spec fn view(&self) -> Set<u32> {
        self.loaded@
    }
}

impl Default for LoadedEffects {
    fn default() -> (r: LoadedEffects)
        ensures
            r@ == Set::<u32>::empty(),
    {
        LoadedEffects { loaded: BTreeSet::new() }
    }
}

impl LoadedEffects {
    /// The effect is about to be played: does it have to be loaded first?
    pub fn needs_load(&mut self, id: u32) -> (r: bool)
        ensures
            r == !old(self)@.contains(id),
            final(self)@ == old(self)@.insert(id),
    {
        broadcast use vstd::std_specs::btree::group_btree_axioms;

        self.loaded.insert(id)
    }

    /// Has the effect been loaded?
    pub fn is_loaded(&self, id: u32) -> (r: bool)
        ensures
            r == self@.contains(id),
    {
        broadcast use vstd::std_specs::btree::group_btree_axioms;

        self.loaded.contains(&id)
    }

    /// Forget what has been loaded.
    pub fn clear(&mut self)
        ensures
            final(self)@ == Set::<u32>::empty(),
    {
        self.loaded.clear();
    }
}

/// The looping background track.
#[derive(Debug, Clone, Copy)]
pub struct Music {
    /// The track the game wants.
    pub desired: Option<SoundId>,
    /// From `0.0` to `1.0`.
    pub volume: F32Bits,
    /// The track that is playing, with the mixer's handle.
    pub playing: Option<(SoundId, u16)>,
    /// The volume that the mixer was last told.
    pub applied_volume: F32Bits,
}

/// What to ask of the mixer.
#[derive(Debug, Clone, Copy, PartialEq, Eq, Structural)]
pub enum MusicStep {
    Nothing,
    /// Change the volume of what is playing.
    SetVolume { handle: u16, volume: F32Bits },
    /// Cancel what is playing, load the sample if that is still to be done, play it
    /// and set its volume; then tell [`Music::started`] the handle.
    Start { cancel: Option<u16>, load: bool, sound: SoundId, volume: F32Bits },
    /// Cancel what is playing.
    Cancel { handle: u16 },
}

/// Are the two the same number? A NaN is not even the same as itself.
pub open spec fn same_number(a: F32Bits, b: F32Bits) -> bool {
    a.at_least(b) && b.at_least(a)
}

impl Default for Music {
    fn default() -> (r: Music)
        ensures
            r == (Music {
                desired: None,
                volume: F32Bits(F32_ONE),
                playing: None,
                applied_volume: F32Bits(F32_MINUS_ONE),
            }),
    {
        Music {
            desired: None,
            volume: F32Bits(F32_ONE),
            playing: None,
            applied_volume: F32Bits(F32_MINUS_ONE),
        }
    }
}

impl Music {
    /// What the mixer has to be asked for, with these effects loaded.
    pub open spec fn step_of(self, ready: bool, loaded: Set<u32>) -> MusicStep {
        if !ready {
            MusicStep::Nothing
        } else {
            match (self.desired, self.playing) {
                (None, None) => MusicStep::Nothing,
                (None, Some((_, handle))) => MusicStep::Cancel { handle },
                (Some(want), None) => MusicStep::Start {
                    cancel: None,
                    load: !loaded.contains(want.0),
                    sound: want,
                    volume: self.volume,
                },
                (Some(want), Some((current, handle))) => if want != current {
                    MusicStep::Start {
                        cancel: Some(handle),
                        load: !loaded.contains(want.0),
                        sound: want,
                        volume: self.volume,
                    }
                } else if same_number(self.volume, self.applied_volume) {
                    MusicStep::Nothing
                } else {
                    MusicStep::SetVolume { handle, volume: self.volume }
                },
            }
        }
    }

    /// The state once the step has been taken; a track that is to start plays only
    /// from `started` on.
    pub open spec fn after_step(self, step: MusicStep) -> Music {
        match step {
            MusicStep::Nothing => self,
            MusicStep::SetVolume { volume, .. } => Music { applied_volume: volume, ..self },
            MusicStep::Start { volume, .. } => Music {
                playing: None,
                applied_volume: volume,
                ..self
            },
            MusicStep::Cancel { .. } => Music { playing: None, ..self },
        }
    }

    /// Want `sound`, looping, in place of any other track.
    pub fn play(&mut self, sound: SoundId)
        ensures
            *final(self) == (Music { desired: Some(sound), ..*old(self) }),
    {
        self.desired = Some(sound);
    }

    /// Want silence.
    pub fn stop(&mut self)
        ensures
            *final(self) == (Music { desired: None, ..*old(self) }),
    {
        self.desired = None;
    }

    /// Set the volume, from `0.0` to `1.0`.
    pub fn set_volume(&mut self, volume: F32Bits)
        ensures
            *final(self) == (Music { volume, ..*old(self) }),
    {
        self.volume = volume;
    }

    /// The volume that was set.
    pub fn volume(&self) -> (r: F32Bits)
        ensures
            r == self.volume,
    {
        self.volume
    }

    /// Is a track playing?
    pub fn is_playing(&self) -> (r: bool)
        ensures
            r == self.playing is Some,
    {
        self.playing.is_some()
    }

    /// This frame's step towards what the game wants.
    pub fn drive(&mut self, ready: bool, loaded: &mut LoadedEffects) -> (step: MusicStep)
        ensures
            step == old(self).step_of(ready, old(loaded)@),
            *final(self) == old(self).after_step(step),
            final(loaded)@ == match step {
                MusicStep::Start { sound, .. } => old(loaded)@.insert(sound.0),
                _ => old(loaded)@,
            },
    {
        if !ready {
            return MusicStep::Nothing;
        }
        match self.desired {
            None => match self.playing {
                None => MusicStep::Nothing,
                Some((_, handle)) => {
                    self.playing = None;
                    MusicStep::Cancel { handle }
                },
            },
            Some(want) => {
                let mut cancel: Option<u16> = None;
                if let Some((current, handle)) = self.playing {
                    if want == current {
                        if self.volume.ge(self.applied_volume) && self.applied_volume.ge(
                            self.volume,
                        ) {
                            return MusicStep::Nothing;
                        }
                        self.applied_volume = self.volume;
                        return MusicStep::SetVolume { handle, volume: self.volume };
                    }
                    cancel = Some(handle);
                }
                let load: bool = loaded.needs_load(want.0);
                self.playing = None;
                self.applied_volume = self.volume;
                MusicStep::Start { cancel, load, sound: want, volume: self.volume }
            },
        }
    }

    /// The mixer has started `sound` under this handle.
    pub fn started(&mut self, sound: SoundId, handle: u16)
        ensures
            *final(self) == (Music { playing: Some((sound, handle)), ..*old(self) }),
    {
        self.playing = Some((sound, handle));
    }
}

/// A one-shot effect.
#[derive(Clone, Copy, Debug, PartialEq, Eq, Structural)]
pub struct PlaySfx {
    pub sound: SoundId,
    /// From `0.0` to `1.0`.
    pub volume: F32Bits,
    /// From `0.0`, left, to `1.0`, right.
    pub panning: F32Bits,
}

impl PlaySfx {
    /// Full volume, in the middle.
    pub fn new(sound: SoundId) -> (r: PlaySfx)
        ensures
            r == (PlaySfx { sound, volume: F32Bits(F32_ONE), panning: F32Bits(F32_HALF) }),
    {
        PlaySfx { sound, volume: F32Bits(F32_ONE), panning: F32Bits(F32_HALF) }
    }

    /// The same effect at another volume.
    pub fn with_volume(self, volume: F32Bits) -> (r: PlaySfx)
        ensures
            r == (PlaySfx { volume, ..self }),
    {
        PlaySfx { sound: self.sound, volume, panning: self.panning }
    }

    /// The same effect at another place.
    pub fn with_panning(self, panning: F32Bits) -> (r: PlaySfx)
        ensures
            r == (PlaySfx { panning, ..self }),
    {
        PlaySfx { sound: self.sound, volume: self.volume, panning }
    }
}

/// The sounds of the effects.
pub open spec fn sounds_of(events: Seq<PlaySfx>) -> Set<u32> {
    Set::new(|id: u32| exists|i: int| 0 <= i < events.len() && #[trigger] events[i].sound.0 == id)
}

/// What to ask of the mixer for the queued effects: each in its turn, `true` where the
/// sample has to be loaded before. While the audio is not ready the queue is dropped.
pub fn play_sfx(ready: bool, loaded: &mut LoadedEffects, events: &[PlaySfx]) -> (r: Vec<
    (bool, PlaySfx),
>)
    ensures
        !ready ==> r@.len() == 0 && final(loaded)@ == old(loaded)@,
        ready ==> {
            &&& r@.len() == events@.len()
            &&& final(loaded)@ == old(loaded)@.union(sounds_of(events@))
            &&& forall|i: int|
                0 <= i < events@.len() ==> #[trigger] r@[i] == (
                    !old(loaded)@.contains(events@[i].sound.0) && !sounds_of(
                        events@.take(i),
                    ).contains(events@[i].sound.0),
                    events@[i],
                )
        },
{
    let mut out: Vec<(bool, PlaySfx)> = Vec::new();
    if !ready {
        return out;
    }
    let ghost before = loaded@;
    let mut i: usize = 0;
    assert(before.union(sounds_of(events@.take(0))) =~= before);
    while i < events.len()
        invariant
            i <= events.len(),
            out.len() == i,
            loaded@ == before.union(sounds_of(events@.take(i as int))),
            forall|k: int|
                0 <= k < i ==> #[trigger] out@[k] == (
                    !before.contains(events@[k].sound.0) && !sounds_of(events@.take(k)).contains(
                        events@[k].sound.0,
                    ),
                    events@[k],
                ),
        decreases events.len() - i,
    {
        let event: PlaySfx = events[i];
        let load: bool = loaded.needs_load(event.sound.0);
        out.push((load, event));
        proof {
            lemma_sounds_push(events@, i as int);
            assert(loaded@ =~= before.union(sounds_of(events@.take(i + 1))));
        }
        i = i + 1;
    }
    assert(events@.take(events.len() as int) =~= events@);
    out
}

proof fn lemma_sounds_push(events: Seq<PlaySfx>, i: int)
    requires
        0 <= i < events.len(),
    ensures
        sounds_of(events.take(i + 1)) == sounds_of(events.take(i)).insert(events[i].sound.0),
{
    let a = events.take(i);
    let b = events.take(i + 1);
    assert forall|id: u32| sounds_of(b).contains(id) == sounds_of(a).insert(
        events[i].sound.0,
    ).contains(id) by {
        if sounds_of(b).contains(id) {
            let k = choose|k: int| 0 <= k < b.len() && #[trigger] b[k].sound.0 == id;
            if k < i {
                assert(a[k].sound.0 == id);
            }
        }
        if sounds_of(a).contains(id) {
            let k = choose|k: int| 0 <= k < a.len() && #[trigger] a[k].sound.0 == id;
            assert(b[k].sound.0 == id);
        }
        assert(b[i] == events[i]);
    }
    assert(sounds_of(b) =~= sounds_of(a).insert(events[i].sound.0));
}

/// The music settles: once a step has been taken, and a track that was to start has
/// been given its handle, nothing is left to do. The volume has to be a number, for a
/// NaN is told to the mixer again every frame.
pub proof fn law_music_settles(m: Music, ready: bool, loaded: Set<u32>, handle: u16)
    requires
        !m.volume.is_nan(),
    ensures
        ({
            let step = m.step_of(ready, loaded);
            let next = m.after_step(step);
            let settled = match step {
                MusicStep::Start { sound, .. } => Music { playing: Some((sound, handle)), ..next },
                _ => next,
            };
            &&& forall|l: Set<u32>| #[trigger] settled.step_of(ready, l) == MusicStep::Nothing
            &&& ready ==> match (m.desired, settled.playing) {
                (None, None) => true,
                (Some(want), Some((current, _))) => want == current,
                _ => false,
            }
        }),
{
}

/// An effect is loaded once: whatever has been played or started is never loaded
/// again.
pub proof fn law_loaded_once(m: Music, loaded: Set<u32>, id: u32)
    requires
        loaded.contains(id),
        m.desired == Some(SoundId(id)),
    ensures
        match m.step_of(true, loaded) {
            MusicStep::Start { load, .. } => !load,
            _ => true,
        },
{
}

} // verus!
