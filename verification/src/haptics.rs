//! Haptic feedback: the feature handle at hand, arming, playing, and the queue
//! of the ring.

use crate::route::DeviceRoute;
use vstd::prelude::*;

verus! {

/// Intensity that an engine without one is given.
pub const DEFAULT_INTENSITY: u8 = 25;

/// A feel of the ring.
#[derive(Debug, Clone, Copy, PartialEq, Eq, Structural)]
pub enum HapticWaveform {
    /// The pointer moved onto a slot.
    SubtleCollision,
    /// A slot was picked.
    DampStateChange,
}

/// A feature handle that was opened, and where it belongs.
pub struct CachedFeature<F> {
    /// The channel it was opened on.
    pub channel: u64,
    /// The device it was opened for.
    pub index: u8,
    pub feature: F,
}

/// The last feature handle that worked. One is enough: feedback comes from one
/// pointing device at a time.
pub struct HapticFeatureCache<F> {
    pub cached: Option<CachedFeature<F>>,
}

impl<F> HapticFeatureCache<F> {
    /// Whether a handle for this device on this channel is at hand.
    pub open spec fn holds(&self, channel: u64, index: u8) -> bool {
        self.cached matches Some(cached) && cached.channel == channel && cached.index == index
    }

    /// A cache that holds nothing.
    pub fn new() -> (cache: Self)
        ensures
            cache.cached is None,
    {
        HapticFeatureCache { cached: None }
    }

    /// The handle for this device on this channel.
    pub fn cached_feature(&self, channel: u64, index: u8) -> (feature: Option<&F>)
        ensures
            match feature {
                Some(feature) => self.holds(channel, index) && *feature == self.cached->0.feature,
                None => !self.holds(channel, index),
            },
    {
        match &self.cached {
            Some(cached) => {
                if cached.channel == channel && cached.index == index {
                    Some(&cached.feature)
                } else {
                    None
                }
            },
            None => None,
        }
    }

    /// Hold a handle in place of the one at hand.
    pub fn store_cached_feature(&mut self, channel: u64, index: u8, feature: F)
        ensures
            final(self).cached == Some(CachedFeature { channel, index, feature }),
    {
        self.cached = Some(CachedFeature { channel, index, feature });
    }

    /// Let go of the handle at hand, and with it of its channel.
    pub fn clear_cached_feature(&mut self)
        ensures
            final(self).cached is None,
    {
        self.cached = None;
    }
}

/// The state of a haptic engine.
#[derive(Debug, Clone, Copy, PartialEq, Eq, Structural)]
pub struct HapticConfiguration {
    pub enabled: bool,
    pub intensity: u8,
}

/// Whether plays on an engine in this state can be felt.
pub open spec fn is_armed(configuration: HapticConfiguration) -> bool {
    configuration.enabled && configuration.intensity > 0
}

/// Whether arming starts with the handle at hand or by opening one.
#[derive(Debug, Clone, Copy, PartialEq, Eq, Structural)]
pub enum ArmStage {
    /// Over the handle at hand.
    Cached,
    /// Over a handle that is yet to be opened.
    Opening,
}

/// Where arming starts: the handle at hand is used where it belongs to this
/// device on this channel.
pub fn arm_begin<F>(cache: &HapticFeatureCache<F>, channel: u64, index: u8) -> (stage: ArmStage)
    ensures
        stage == if cache.holds(channel, index) {
            ArmStage::Cached
        } else {
            ArmStage::Opening
        },
{
    match cache.cached_feature(channel, index) {
        Some(_) => ArmStage::Cached,
        None => ArmStage::Opening,
    }
}

/// Take in a handle that was opened for arming: it is held at once, in place of
/// the one at hand. A failure to open ends the arming and changes nothing.
pub fn arm_opened<F, E>(
    cache: &mut HapticFeatureCache<F>,
    channel: u64,
    index: u8,
    opened: Result<F, E>,
) -> (ready: Result<(), E>)
    ensures
        match opened {
            Ok(feature) => ready == Ok::<(), E>(()) && final(cache).cached == Some(
                CachedFeature { channel, index, feature },
            ),
            Err(error) => ready == Err::<(), E>(error) && *final(cache) == *old(cache),
        },
{
    match opened {
        Ok(feature) => {
            cache.store_cached_feature(channel, index, feature);
            Ok(())
        },
        Err(error) => Err(error),
    }
}

/// What to do with an engine before the first play.
#[derive(Debug, PartialEq, Eq)]
pub enum ArmStep<E> {
    /// It is armed already.
    Ready,
    /// Enable it at this intensity.
    Repair { intensity: u8 },
    Failed(E),
}

/// Decide what to do with an engine whose state was read. A failed read lets
/// go of the handle; an intensity that is set is kept.
pub fn arm_step<F, E>(
    cache: &mut HapticFeatureCache<F>,
    read: Result<HapticConfiguration, E>,
) -> (step: ArmStep<E>)
    ensures
        match read {
            Ok(configuration) => {
                &&& *final(cache) == *old(cache)
                &&& is_armed(configuration) ==> step == ArmStep::<E>::Ready
                &&& !is_armed(configuration) ==> step == (ArmStep::<E>::Repair {
                    intensity: if configuration.intensity == 0 {
                        DEFAULT_INTENSITY
                    } else {
                        configuration.intensity
                    },
                })
            },
            Err(error) => final(cache).cached is None && step == ArmStep::Failed(error),
        },
{
    match read {
        Ok(configuration) => {
            let intensity: u8 = if configuration.intensity == 0 {
                DEFAULT_INTENSITY
            } else {
                configuration.intensity
            };
            if configuration.enabled && intensity == configuration.intensity {
                ArmStep::Ready
            } else {
                ArmStep::Repair { intensity }
            }
        },
        Err(error) => {
            cache.clear_cached_feature();
            ArmStep::Failed(error)
        },
    }
}

/// Close the repair of an engine: whether a repair was made. A failed write
/// lets go of the handle.
pub fn arm_repaired<F, E>(
    cache: &mut HapticFeatureCache<F>,
    written: Result<(), E>,
) -> (armed: Result<bool, E>)
    ensures
        match written {
            Ok(_) => armed == Ok::<bool, E>(true) && *final(cache) == *old(cache),
            Err(error) => armed == Err::<bool, E>(error) && final(cache).cached is None,
        },
{
    match written {
        Ok(_) => Ok(true),
        Err(error) => {
            cache.clear_cached_feature();
            Err(error)
        },
    }
}

/// A repaired engine can be felt.
pub proof fn lemma_repair_arms(configuration: HapticConfiguration, intensity: u8)
    requires
        !is_armed(configuration),
        intensity == if configuration.intensity == 0 {
            DEFAULT_INTENSITY
        } else {
            configuration.intensity
        },
    ensures
        is_armed(HapticConfiguration { enabled: true, intensity }),
{
}

/// How far a play has got.
#[derive(Debug, Clone, Copy, PartialEq, Eq, Structural)]
pub enum PlayStage {
    /// Playing over the handle at hand.
    Cached,
    /// Opening a handle.
    Opening,
    /// Playing over a handle that was just opened.
    Fresh,
}

/// What a play does next.
#[derive(Debug, PartialEq, Eq)]
pub enum PlayNext<E> {
    Go(PlayStage),
    Done(Result<(), E>),
}

/// Start a play: over the handle at hand where it belongs here, else over a
/// fresh one.
pub fn play_begin<F>(cache: &HapticFeatureCache<F>, channel: u64, index: u8) -> (stage: PlayStage)
    ensures
        stage == if cache.holds(channel, index) {
            PlayStage::Cached
        } else {
            PlayStage::Opening
        },
{
    if cache.cached_feature(channel, index).is_some() {
        PlayStage::Cached
    } else {
        PlayStage::Opening
    }
}

/// The play over the handle at hand ended. A failure lets go of the handle,
/// and the play is tried once more over a fresh one.
pub fn cached_play_ended<F, E>(cache: &mut HapticFeatureCache<F>, played: bool) -> (next: PlayNext<E>)
    ensures
        played ==> next == PlayNext::<E>::Done(Ok(())) && *final(cache) == *old(cache),
        !played ==> next == PlayNext::<E>::Go(PlayStage::Opening) && final(cache).cached is None,
{
    if played {
        PlayNext::Done(Ok(()))
    } else {
        cache.clear_cached_feature();
        PlayNext::Go(PlayStage::Opening)
    }
}

/// The attempt to open a handle ended.
pub fn play_opened<E>(opened: Result<(), E>) -> (next: PlayNext<E>)
    ensures
        next == match opened {
            Ok(_) => PlayNext::Go(PlayStage::Fresh),
            Err(error) => PlayNext::Done(Err(error)),
        },
{
    match opened {
        Ok(_) => PlayNext::Go(PlayStage::Fresh),
        Err(error) => PlayNext::Done(Err(error)),
    }
}

/// The play over a fresh handle ended: a handle that worked is kept, and the
/// outcome stands.
pub fn fresh_play_ended<F, E>(
    cache: &mut HapticFeatureCache<F>,
    channel: u64,
    index: u8,
    feature: F,
    played: Result<(), E>,
) -> (next: PlayNext<E>)
    ensures
        next == PlayNext::Done(played),
        match played {
            Ok(_) => final(cache).cached == Some(CachedFeature { channel, index, feature }),
            Err(_) => *final(cache) == *old(cache),
        },
{
    match played {
        Ok(done) => {
            cache.store_cached_feature(channel, index, feature);
            PlayNext::Done(Ok(done))
        },
        Err(error) => PlayNext::Done(Err(error)),
    }
}

/// A feel to be played on a device.
#[derive(Debug, PartialEq, Eq)]
pub struct HapticRequest {
    pub route: DeviceRoute,
    pub waveform: HapticWaveform,
}

/// The queue of the ring's feedback. Feedback that was overtaken has no value:
/// only the newest request waits.
pub struct RingHapticPlayer {
    pub waiting: Option<HapticRequest>,
}

impl RingHapticPlayer {
    /// A queue in which nothing waits.
    pub fn new() -> (player: RingHapticPlayer)
        ensures
            player.waiting is None,
    {
        RingHapticPlayer { waiting: None }
    }

    /// Ask for a feel, in place of any that still waits. Without a device
    /// there is nothing to ask for.
    pub fn play(&mut self, route: Option<DeviceRoute>, waveform: HapticWaveform)
        ensures
            final(self).waiting == match route {
                Some(route) => Some(HapticRequest { route, waveform }),
                None => old(self).waiting,
            },
    {
        if let Some(route) = route {
            self.waiting = Some(HapticRequest { route, waveform });
        }
    }

    /// Take what waits, to play it.
    pub fn take(&mut self) -> (request: Option<HapticRequest>)
        ensures
            request == old(self).waiting,
            final(self).waiting is None,
    {
        self.waiting.take()
    }
}

} // verus!
