//! The instruments that a score can be heard with.
use crate::text::{chars_of, push_text, string_of};
use vstd::prelude::*;

verus! {

/// An instrument to listen to a score with, whatever instruments the score names.
#[derive(Clone, Copy, Debug, PartialEq, Eq, Structural)]
pub enum Instrument {
    Piano,
    ElectricPiano,
    Harpsichord,
    Organ,
    Guitar,
    Bass,
    Strings,
    Violin,
    Cello,
    Flute,
    Clarinet,
    Trumpet,
    Xylophone,
    Harmonica,
    Harp,
    Glockenspiel,
    Tuba,
}

impl Default for Instrument {
    fn default() -> (instrument: Self)
        ensures
            instrument == Instrument::Piano,
    {
        Instrument::Piano
    }
}

/// The instruments in the order in which they are offered.
pub open spec fn all_instruments() -> Seq<Instrument> {
    seq![
        Instrument::Piano,
        Instrument::ElectricPiano,
        Instrument::Harpsichord,
        Instrument::Organ,
        Instrument::Guitar,
        Instrument::Bass,
        Instrument::Strings,
        Instrument::Violin,
        Instrument::Cello,
        Instrument::Flute,
        Instrument::Clarinet,
        Instrument::Trumpet,
        Instrument::Xylophone,
        Instrument::Harmonica,
        Instrument::Harp,
        Instrument::Glockenspiel,
        Instrument::Tuba,
    ]
}

impl Instrument {
    /// The instruments in the order in which they are offered.
    pub fn all() -> (list: Vec<Instrument>)
        ensures
            list@ == all_instruments(),
    {
        let list = vec![
            Instrument::Piano,
            Instrument::ElectricPiano,
            Instrument::Harpsichord,
            Instrument::Organ,
            Instrument::Guitar,
            Instrument::Bass,
            Instrument::Strings,
            Instrument::Violin,
            Instrument::Cello,
            Instrument::Flute,
            Instrument::Clarinet,
            Instrument::Trumpet,
            Instrument::Xylophone,
            Instrument::Harmonica,
            Instrument::Harp,
            Instrument::Glockenspiel,
            Instrument::Tuba,
        ];
        proof {
            assert(list@ =~= all_instruments());
        }
        list
    }

    /// What an instrument is called.
    pub open spec fn label(self) -> Seq<char> {
        match self {
            Instrument::Piano => "피아노"@,
            Instrument::ElectricPiano => "일렉트릭 피아노"@,
            Instrument::Harpsichord => "하프시코드"@,
            Instrument::Organ => "오르간"@,
            Instrument::Guitar => "기타"@,
            Instrument::Bass => "베이스"@,
            Instrument::Strings => "현악 앙상블"@,
            Instrument::Violin => "바이올린"@,
            Instrument::Cello => "첼로"@,
            Instrument::Flute => "플루트"@,
            Instrument::Clarinet => "클라리넷"@,
            Instrument::Trumpet => "트럼펫"@,
            Instrument::Xylophone => "실로폰"@,
            Instrument::Harmonica => "하모니카"@,
            Instrument::Harp => "하프"@,
            Instrument::Glockenspiel => "글로켄슈필"@,
            Instrument::Tuba => "튜바"@,
        }
    }

    /// What an instrument is called on the screen.
    pub fn name(self) -> (name: &'static str)
        ensures
            name@ == self.label(),
    {
        match self {
            Instrument::Piano => "피아노",
            Instrument::ElectricPiano => "일렉트릭 피아노",
            Instrument::Harpsichord => "하프시코드",
            Instrument::Organ => "오르간",
            Instrument::Guitar => "기타",
            Instrument::Bass => "베이스",
            Instrument::Strings => "현악 앙상블",
            Instrument::Violin => "바이올린",
            Instrument::Cello => "첼로",
            Instrument::Flute => "플루트",
            Instrument::Clarinet => "클라리넷",
            Instrument::Trumpet => "트럼펫",
            Instrument::Xylophone => "실로폰",
            Instrument::Harmonica => "하모니카",
            Instrument::Harp => "하프",
            Instrument::Glockenspiel => "글로켄슈필",
            Instrument::Tuba => "튜바",
        }
    }

    /// The number of the program that plays an instrument, counted from nought.
    pub open spec fn number(self) -> i32 {
        match self {
            Instrument::Piano => 0,
            Instrument::ElectricPiano => 4,
            Instrument::Harpsichord => 6,
            Instrument::Organ => 19,
            Instrument::Guitar => 24,
            Instrument::Bass => 32,
            Instrument::Strings => 48,
            Instrument::Violin => 40,
            Instrument::Cello => 42,
            Instrument::Flute => 73,
            Instrument::Clarinet => 71,
            Instrument::Trumpet => 56,
            Instrument::Xylophone => 13,
            Instrument::Harmonica => 22,
            Instrument::Harp => 46,
            Instrument::Glockenspiel => 9,
            Instrument::Tuba => 58,
        }
    }

    /// The number of the program that plays an instrument.
    pub fn program(self) -> (program: i32)
        ensures
            program == self.number(),
    {
        match self {
            Instrument::Piano => 0,
            Instrument::ElectricPiano => 4,
            Instrument::Harpsichord => 6,
            Instrument::Organ => 19,
            Instrument::Guitar => 24,
            Instrument::Bass => 32,
            Instrument::Strings => 48,
            Instrument::Violin => 40,
            Instrument::Cello => 42,
            Instrument::Flute => 73,
            Instrument::Clarinet => 71,
            Instrument::Trumpet => 56,
            Instrument::Xylophone => 13,
            Instrument::Harmonica => 22,
            Instrument::Harp => 46,
            Instrument::Glockenspiel => 9,
            Instrument::Tuba => 58,
        }
    }

    /// Says that an instrument is missing.
    pub fn missing(self) -> (text: String)
        ensures
            text@ == self.label() + " 가상 악기를 찾을 수 없습니다."@,
    {
        let mut text = chars_of(self.name());
        push_text(&mut text, " 가상 악기를 찾을 수 없습니다.");
        string_of(&text)
    }

    /// For how many seconds an instrument may sound on after its notes have ended.
    pub fn release_seconds(self) -> (seconds: u32)
        ensures
            seconds == (match self {
                Instrument::Xylophone => 13u32,
                Instrument::Harp => 10,
                Instrument::Glockenspiel => 9,
                _ => 4,
            }),
    {
        match self {
            Instrument::Xylophone => 13,
            Instrument::Harp => 10,
            Instrument::Glockenspiel => 9,
            _ => 4,
        }
    }
}

/// No two instruments are played by one program, and every one is offered.
pub proof fn law_programs_differ(a: Instrument, b: Instrument)
    ensures
        a.number() == b.number() ==> a == b,
        0 <= a.number() < 128,
        all_instruments().contains(a),
{
    let list = all_instruments();
    match a {
        Instrument::Piano => {
            assert(list[0] == a);
        },
        Instrument::ElectricPiano => {
            assert(list[1] == a);
        },
        Instrument::Harpsichord => {
            assert(list[2] == a);
        },
        Instrument::Organ => {
            assert(list[3] == a);
        },
        Instrument::Guitar => {
            assert(list[4] == a);
        },
        Instrument::Bass => {
            assert(list[5] == a);
        },
        Instrument::Strings => {
            assert(list[6] == a);
        },
        Instrument::Violin => {
            assert(list[7] == a);
        },
        Instrument::Cello => {
            assert(list[8] == a);
        },
        Instrument::Flute => {
            assert(list[9] == a);
        },
        Instrument::Clarinet => {
            assert(list[10] == a);
        },
        Instrument::Trumpet => {
            assert(list[11] == a);
        },
        Instrument::Xylophone => {
            assert(list[12] == a);
        },
        Instrument::Harmonica => {
            assert(list[13] == a);
        },
        Instrument::Harp => {
            assert(list[14] == a);
        },
        Instrument::Glockenspiel => {
            assert(list[15] == a);
        },
        Instrument::Tuba => {
            assert(list[16] == a);
        },
    }
}

/// Whether a program, of those that are listed with their banks, plays an instrument.
pub open spec fn is_listed(presets: Seq<(i32, i32)>, instrument: Instrument) -> bool {
    presets.contains((0i32, instrument.number()))
}

/// Finds the first instrument that none of the programs plays, which are listed with their banks.
pub fn missing_instrument(presets: &Vec<(i32, i32)>) -> (r: Option<Instrument>)
    ensures
        match r {
            Some(instrument) => exists|i: int|
                0 <= i < all_instruments().len() && #[trigger] all_instruments()[i] == instrument
                    && !is_listed(presets@, instrument) && forall|k: int|
                    0 <= k < i ==> is_listed(presets@, #[trigger] all_instruments()[k]),
            None => forall|instrument: Instrument| #[trigger] is_listed(presets@, instrument),
        },
{
    let list = Instrument::all();
    let mut i: usize = 0;
    while i < list.len()
        invariant
            i <= list.len(),
            list@ == all_instruments(),
            forall|k: int| 0 <= k < i ==> is_listed(presets@, #[trigger] all_instruments()[k]),
        decreases list.len() - i,
    {
        if !has_preset(presets, list[i]) {
            proof {
                assert(all_instruments()[i as int] == list[i as int]);
            }
            return Some(list[i]);
        }
        i += 1;
    }
    proof {
        assert forall|instrument: Instrument| #[trigger] is_listed(presets@, instrument) by {
            law_programs_differ(instrument, instrument);
            let k = choose|k: int|
                0 <= k < all_instruments().len() && all_instruments()[k] == instrument;
            assert(is_listed(presets@, all_instruments()[k]));
        }
    }
    None
}

fn has_preset(presets: &Vec<(i32, i32)>, instrument: Instrument) -> (r: bool)
    ensures
        r == is_listed(presets@, instrument),
{
    let number: i32 = instrument.program();
    let mut k: usize = 0;
    while k < presets.len()
        invariant
            k <= presets.len(),
            number == instrument.number(),
            forall|j: int| 0 <= j < k ==> #[trigger] presets[j] != (0i32, number),
        decreases presets.len() - k,
    {
        let (bank, patch): (i32, i32) = presets[k];
        if bank == 0 && patch == number {
            proof {
                assert(presets@[k as int] == (0i32, number));
            }
            return true;
        }
        k += 1;
    }
    proof {
        assert(!presets@.contains((0i32, number)));
    }
    false
}

/// Whether everything is at hand that playing takes: the sounds of the piano and those of
/// the other instruments.
pub fn ready(piano: bool, others: bool) -> (r: bool)
    ensures
        r == (piano && others),
{
    piano && others
}

} // verus!
