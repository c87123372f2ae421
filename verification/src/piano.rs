//! Which recording of a piano a note is played with, and whether there is one for every note.
use vstd::prelude::*;

verus! {

/// The keys and the loudness that something is played at.
#[derive(Clone, Copy, Debug, PartialEq, Eq, Structural)]
pub struct Reach {
    pub lowest: i32,
    pub highest: i32,
    pub softest: i32,
    pub loudest: i32,
}

impl Reach {
    pub open spec fn covers(self, key: int, velocity: int) -> bool {
        self.lowest <= key <= self.highest && self.softest <= velocity <= self.loudest
    }

    fn is_over(&self, key: i32, velocity: i32) -> (r: bool)
        ensures
            r == self.covers(key as int, velocity as int),
    {
        self.lowest <= key && key <= self.highest && self.softest <= velocity && velocity
            <= self.loudest
    }
}

/// A layer of a piano: when it is played, and the place of its recordings.
#[derive(Clone, Copy, Debug, PartialEq, Eq, Structural)]
pub struct Layer {
    pub reach: Reach,
    pub instrument: usize,
}

/// A recording: when it is played, from where to where it goes, and what is known of it.
#[derive(Clone, Copy, Debug, PartialEq, Eq, Structural)]
pub struct Recording {
    pub reach: Reach,
    pub start: i32,
    pub end: i32,
    pub sample: usize,
}

/// The layers of a piano, where it has any, the recordings of each instrument, and how many
/// values and how many samples there are.
#[derive(Debug)]
pub struct Piano {
    pub layers: Option<Vec<Layer>>,
    pub instruments: Vec<Vec<Recording>>,
    pub values: usize,
    pub samples: usize,
}

/// Why a piano cannot be played.
#[derive(Clone, Copy, Debug, PartialEq, Eq, Structural)]
pub enum PianoFault {
    NoPreset,
    NoKey,
    BadInstrument,
    NoSample,
    BadRange,
}

/// The first layer, from one on, that a note is played with.
pub open spec fn first_layer(layers: Seq<Layer>, from: int, key: int, velocity: int) -> Option<int>
    decreases layers.len() - from,
{
    if from < 0 || from >= layers.len() {
        None
    } else if layers[from].reach.covers(key, velocity) {
        Some(from)
    } else {
        first_layer(layers, from + 1, key, velocity)
    }
}

/// The first recording, from one on, that a note is played with.
pub open spec fn first_recording(list: Seq<Recording>, from: int, key: int, velocity: int) -> Option<int>
    decreases list.len() - from,
{
    if from < 0 || from >= list.len() {
        None
    } else if list[from].reach.covers(key, velocity) {
        Some(from)
    } else {
        first_recording(list, from + 1, key, velocity)
    }
}

/// Whether a recording lies within the values and is one of the samples.
pub open spec fn is_recorded(r: Recording, piano: Piano) -> bool {
    0 <= r.start < r.end <= piano.values && r.sample < piano.samples
}

/// Why a note cannot be played with the layers of a piano, if it cannot.
pub open spec fn key_fault(layers: Seq<Layer>, piano: Piano, key: int, velocity: int) -> Option<
    PianoFault,
> {
    match first_layer(layers, 0, key, velocity) {
        None => Some(PianoFault::NoKey),
        Some(l) => if layers[l].instrument >= piano.instruments.len() {
            Some(PianoFault::BadInstrument)
        } else {
            let list = piano.instruments[layers[l].instrument as int]@;
            match first_recording(list, 0, key, velocity) {
                None => Some(PianoFault::NoSample),
                Some(r) => if is_recorded(list[r], piano) {
                    None
                } else {
                    Some(PianoFault::BadRange)
                },
            }
        },
    }
}

/// Whether every key of a piano can be played, as softly and as loudly as may be.
pub open spec fn is_playable(piano: Piano) -> bool {
    piano.layers matches Some(layers) && forall|key: int, velocity: int|
        20 <= key <= 109 && 1 <= velocity <= 127 ==> #[trigger] key_fault(
            layers@,
            piano,
            key,
            velocity,
        ) is None
}

/// Whether a note cannot be played, while every lower key can, and the same key more softly.
pub open spec fn fails_at(layers: Seq<Layer>, piano: Piano, key: int, velocity: int, fault: PianoFault) -> bool {
    &&& key_fault(layers, piano, key, velocity) == Some(fault)
    &&& forall|k: int, v: int|
        20 <= k <= key && 1 <= v <= 127 && (k < key || v < velocity) ==> #[trigger] key_fault(
            layers,
            piano,
            k,
            v,
        ) is None
}

fn find_layer(layers: &Vec<Layer>, key: i32, velocity: i32) -> (r: Option<usize>)
    ensures
        match r {
            Some(l) => l < layers.len() && first_layer(layers@, 0, key as int, velocity as int)
                == Some(l as int),
            None => first_layer(layers@, 0, key as int, velocity as int) is None,
        },
{
    let mut l: usize = 0;
    while l < layers.len()
        invariant
            l <= layers.len(),
            first_layer(layers@, 0, key as int, velocity as int) == first_layer(
                layers@,
                l as int,
                key as int,
                velocity as int,
            ),
        decreases layers.len() - l,
    {
        if layers[l].reach.is_over(key, velocity) {
            return Some(l);
        }
        l += 1;
    }
    None
}

fn find_recording(list: &Vec<Recording>, key: i32, velocity: i32) -> (r: Option<usize>)
    ensures
        match r {
            Some(k) => k < list.len() && first_recording(list@, 0, key as int, velocity as int)
                == Some(k as int),
            None => first_recording(list@, 0, key as int, velocity as int) is None,
        },
{
    let mut k: usize = 0;
    while k < list.len()
        invariant
            k <= list.len(),
            first_recording(list@, 0, key as int, velocity as int) == first_recording(
                list@,
                k as int,
                key as int,
                velocity as int,
            ),
        decreases list.len() - k,
    {
        if list[k].reach.is_over(key, velocity) {
            return Some(k);
        }
        k += 1;
    }
    None
}

fn find_fault(layers: &Vec<Layer>, piano: &Piano, key: i32, velocity: i32) -> (r: Option<PianoFault>)
    ensures
        r == key_fault(layers@, *piano, key as int, velocity as int),
{
    let l: usize = match find_layer(layers, key, velocity) {
        None => return Some(PianoFault::NoKey),
        Some(l) => l,
    };
    if layers[l].instrument >= piano.instruments.len() {
        return Some(PianoFault::BadInstrument);
    }
    let list = &piano.instruments[layers[l].instrument];
    let k: usize = match find_recording(list, key, velocity) {
        None => return Some(PianoFault::NoSample),
        Some(k) => k,
    };
    let one = list[k];
    if one.start >= 0 && one.start < one.end && one.end as usize <= piano.values && one.sample
        < piano.samples {
        None
    } else {
        Some(PianoFault::BadRange)
    }
}

/// Tells whether every key of a piano can be played, as softly and as loudly as may be. Where one
/// cannot, the lowest such key tells why, at its softest.
pub fn check_piano(piano: &Piano) -> (r: Result<(), PianoFault>)
    ensures
        match r {
            Ok(_) => is_playable(*piano),
            Err(fault) => if piano.layers is None {
                fault == PianoFault::NoPreset
            } else {
                exists|key: int, velocity: int|
                    20 <= key <= 109 && 1 <= velocity <= 127 && #[trigger] fails_at(
                        piano.layers->Some_0@,
                        *piano,
                        key,
                        velocity,
                        fault,
                    )
            },
        },
{
    let layers = match &piano.layers {
        None => return Err(PianoFault::NoPreset),
        Some(layers) => layers,
    };
    let mut key: i32 = 20;
    while key <= 109
        invariant
            20 <= key <= 110,
            piano.layers == Some(*layers),
            forall|k: int, v: int|
                20 <= k < key && 1 <= v <= 127 ==> #[trigger] key_fault(layers@, *piano, k, v) is None,
        decreases 110 - key,
    {
        let mut velocity: i32 = 1;
        while velocity <= 127
            invariant
                20 <= key <= 109,
                1 <= velocity <= 128,
                piano.layers == Some(*layers),
                forall|k: int, v: int|
                    20 <= k <= key && 1 <= v <= 127 && (k < key || v < velocity)
                        ==> #[trigger] key_fault(layers@, *piano, k, v) is None,
            decreases 128 - velocity,
        {
            if let Some(fault) = find_fault(layers, piano, key, velocity) {
                proof {
                    assert(fails_at(
                        piano.layers->Some_0@,
                        *piano,
                        key as int,
                        velocity as int,
                        fault,
                    ));
                }
                return Err(fault);
            }
            velocity += 1;
        }
        key += 1;
    }
    Ok(())
}

/// The key whose recordings a note is played with: the outermost stand for those beyond them.
pub open spec fn nearest_key(pitch: int) -> int {
    if pitch < 20 {
        20
    } else if pitch > 109 {
        109
    } else {
        pitch
    }
}

/// Whether a recording is the one that a note is played with.
pub open spec fn is_chosen(piano: Piano, pitch: int, velocity: int, layer: int, recording: int) -> bool {
    let key = nearest_key(pitch);
    piano.layers matches Some(layers) && {
        &&& first_layer(layers@, 0, key, velocity) == Some(layer)
        &&& 0 <= layer < layers.len()
        &&& layers[layer].instrument < piano.instruments.len()
        &&& first_recording(
            piano.instruments[layers[layer].instrument as int]@,
            0,
            key,
            velocity,
        ) == Some(recording)
        &&& 0 <= recording < piano.instruments[layers[layer].instrument as int].len()
        &&& is_recorded(
            piano.instruments[layers[layer].instrument as int][recording],
            piano,
        )
    }
}

/// Finds the layer of a piano, and in it the recording, that a note is played with. Every note
/// has one whose pitch can be sent and that is not silent.
pub fn choose_recording(piano: &Piano, pitch: i32, velocity: i32) -> (r: Option<(usize, usize)>)
    requires
        is_playable(*piano),
        velocity <= 127,
    ensures
        (r is Some) == (0 <= pitch <= 127 && velocity > 0),
        r matches Some((layer, recording)) ==> is_chosen(
            *piano,
            pitch as int,
            velocity as int,
            layer as int,
            recording as int,
        ),
{
    if pitch < 0 || pitch > 127 || velocity <= 0 {
        return None;
    }
    let key: i32 = if pitch < 20 {
        20
    } else if pitch > 109 {
        109
    } else {
        pitch
    };
    match &piano.layers {
        None => None,
        Some(layers) => {
            proof {
                assert(key_fault(layers@, *piano, key as int, velocity as int) is None);
            }
            match find_layer(layers, key, velocity) {
                None => None,
                Some(l) => match find_recording(
                    &piano.instruments[layers[l].instrument],
                    key,
                    velocity,
                ) {
                    None => None,
                    Some(k) => Some((l, k)),
                },
            }
        },
    }
}

impl PianoFault {
    /// What is said of a piano that cannot be played.
    pub open spec fn words(self) -> Seq<char> {
        match self {
            PianoFault::NoPreset => "피아노 프리셋이 없습니다."@,
            PianoFault::NoKey => "피아노의 건반 정보가 없습니다."@,
            PianoFault::BadInstrument => "피아노의 악기 정보가 잘못되었습니다."@,
            PianoFault::NoSample => "피아노의 샘플 정보가 없습니다."@,
            PianoFault::BadRange => "피아노의 샘플 범위가 잘못되었습니다."@,
        }
    }

    /// Says why a piano cannot be played.
    pub fn message(self) -> (text: &'static str)
        ensures
            text@ == self.words(),
    {
        match self {
            PianoFault::NoPreset => "피아노 프리셋이 없습니다.",
            PianoFault::NoKey => "피아노의 건반 정보가 없습니다.",
            PianoFault::BadInstrument => "피아노의 악기 정보가 잘못되었습니다.",
            PianoFault::NoSample => "피아노의 샘플 정보가 없습니다.",
            PianoFault::BadRange => "피아노의 샘플 범위가 잘못되었습니다.",
        }
    }
}

} // verus!
