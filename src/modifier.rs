//! Modifiers of a round: flags that change which odds are read and how the
//! builders rank, custom odds per pirate and a custom time of day.
use vstd::prelude::*;

verus! {

/// No modifier.
pub const EMPTY: i32 = 0;

/// The general modifier.
pub const GENERAL: i32 = 1;

/// Read the opening odds instead of the current ones.
pub const OPENING_ODDS: i32 = 2;

/// Rank builders' bets in reverse.
pub const REVERSE: i32 = 4;

/// Charity Corner: ten bets per portfolio instead of fifteen.
pub const CHARITY_CORNER: i32 = 8;

/// Every flag.
pub const ALL_MODIFIERS: i32 = 15;

/// Seconds in a day.
pub const DAY_SECONDS: u32 = 86400;

/// The time of day, in seconds from midnight, that a `%H:%M:%S` text reads as.
pub uninterp spec fn clock_seconds(s: Seq<char>) -> Option<u32>;

/// Relies on `chrono::NaiveTime::parse_from_str` with the format `%H:%M:%S`
/// and `Timelike::num_seconds_from_midnight`, which stays under a day.
#[verifier::external_body]
fn parse_clock(s: &str) -> (r: Option<u32>)
    ensures
        r == clock_seconds(s@),
        r matches Some(t) ==> t < DAY_SECONDS,
{
    chrono::NaiveTime::parse_from_str(s, "%H:%M:%S").ok().map(
        |t| chrono::Timelike::num_seconds_from_midnight(&t),
    )
}

/// Why a modifier could not be made.
#[derive(PartialEq, Eq, Structural, Clone, Copy, Debug)]
pub enum ModifierError {
    /// The custom time is no `%H:%M:%S` time of day.
    InvalidTime,
}

/// The flags of a round and its custom odds and time.
#[derive(Clone, Debug)]
pub struct Modifier {
    /// The flag bits.
    pub value: i32,
    /// Custom odds as `(pirate id, odds)` pairs, laid over the current odds.
    pub custom_odds: Option<Vec<(u8, u8)>>,
    /// A time of day, in seconds from midnight, at which to read the odds.
    pub custom_time: Option<u32>,
}

/// The two decimal digits of a number under 100.
fn push_two_digits(s: &mut String, n: u32)
    requires
        n < 100,
    ensures
        final(s)@ == old(s)@ + seq![(('0' as u32 + n / 10) as u8) as char, (('0' as u32 + n % 10) as u8) as char],
{
    crate::text::push_char(s, (('0' as u32 + n / 10) as u8) as char);
    crate::text::push_char(s, (('0' as u32 + n % 10) as u8) as char);
}

/// A time of day in seconds written as `HH:MM:SS`.
pub open spec fn clock_text(t: u32) -> Seq<char> {
    let h = t / 3600;
    let m = (t / 60) % 60;
    let sec = t % 60;
    seq![
        (('0' as u32 + h / 10) as u8) as char,
        (('0' as u32 + h % 10) as u8) as char,
        ':',
        (('0' as u32 + m / 10) as u8) as char,
        (('0' as u32 + m % 10) as u8) as char,
        ':',
        (('0' as u32 + sec / 10) as u8) as char,
        (('0' as u32 + sec % 10) as u8) as char,
    ]
}

impl Modifier {
    /// A modifier with flag bits `value`, custom odds and a custom time of
    /// day written `%H:%M:%S`; an error where that time cannot be read.
    pub fn new(value: i32, custom_odds: Option<Vec<(u8, u8)>>, custom_time: Option<&str>) -> (r:
        Result<Modifier, ModifierError>)
        ensures
            custom_time matches Some(s) ==> (r is Err <==> clock_seconds(s@) is None),
            custom_time is None ==> r is Ok,
            r matches Ok(m) ==> {
                &&& m.value == value
                &&& m.custom_odds == custom_odds
                &&& m.custom_time == match custom_time {
                    Some(s) => clock_seconds(s@),
                    None => None,
                }
                &&& m.wf()
            },
    {
        let t = match custom_time {
            Some(s) => match parse_clock(s) {
                Some(t) => Some(t),
                None => {
                    return Err(ModifierError::InvalidTime);
                },
            },
            None => None,
        };
        Ok(Modifier { value, custom_odds, custom_time: t })
    }

    /// The custom time, where set, is a time of day.
    pub open spec fn wf(&self) -> bool {
        self.custom_time matches Some(t) ==> t < DAY_SECONDS
    }

    /// The flag bits.
    pub fn value(&self) -> (r: i32)
        ensures
            r == self.value,
    {
        self.value
    }

    pub fn is_empty(&self) -> (r: bool)
        ensures
            r == (self.value == EMPTY),
    {
        self.value == EMPTY
    }

    pub fn is_general(&self) -> (r: bool)
        ensures
            r == (self.value & GENERAL != 0),
    {
        self.value & GENERAL != 0
    }

    pub fn is_opening_odds(&self) -> (r: bool)
        ensures
            r == (self.value & OPENING_ODDS != 0),
    {
        self.value & OPENING_ODDS != 0
    }

    pub fn is_reverse(&self) -> (r: bool)
        ensures
            r == (self.value & REVERSE != 0),
    {
        self.value & REVERSE != 0
    }

    pub fn is_charity_corner(&self) -> (r: bool)
        ensures
            r == (self.value & CHARITY_CORNER != 0),
    {
        self.value & CHARITY_CORNER != 0
    }

    /// The custom odds, where set.
    pub fn custom_odds(&self) -> (r: &Option<Vec<(u8, u8)>>)
        ensures
            r == &self.custom_odds,
    {
        &self.custom_odds
    }

    /// The custom time written `HH:MM:SS`, where set.
    pub fn custom_time(&self) -> (r: Option<String>)
        requires
            self.wf(),
        ensures
            self.custom_time is None ==> r is None,
            self.custom_time matches Some(t) ==> r matches Some(s) && s@ == clock_text(t),
    {
        match self.custom_time {
            Some(t) => {
                let mut s = String::new();
                push_two_digits(&mut s, t / 3600);
                crate::text::push_char(&mut s, ':');
                push_two_digits(&mut s, (t / 60) % 60);
                crate::text::push_char(&mut s, ':');
                push_two_digits(&mut s, t % 60);
                assert(s@ =~= clock_text(t));
                Some(s)
            },
            None => None,
        }
    }

    /// A modifier equal to this one, custom odds included.
    pub fn copy(&self) -> (r: Modifier)
        ensures
            r.value == self.value,
            custom_view(r.custom_odds) == custom_view(self.custom_odds),
            r.custom_time == self.custom_time,
    {
        let custom_odds = match &self.custom_odds {
            Some(v) => {
                let mut c: Vec<(u8, u8)> = Vec::new();
                let mut k: usize = 0;
                while k < v.len()
                    invariant
                        k <= v@.len(),
                        c@ == v@.subrange(0, k as int),
                    decreases v@.len() - k,
                {
                    c.push(v[k]);
                    assert(c@ =~= v@.subrange(0, k + 1));
                    k = k + 1;
                }
                assert(c@ =~= v@);
                Some(c)
            },
            None => None,
        };
        Modifier { value: self.value, custom_odds, custom_time: self.custom_time }
    }

    /// The odds of pirate `id` in the custom odds: the first pair for it.
    pub fn custom_odds_of(&self, id: u8) -> (r: Option<u8>)
        ensures
            r == custom_lookup(self.custom_odds, id),
    {
        match &self.custom_odds {
            Some(v) => {
                let mut k: usize = 0;
                assert(v@.subrange(0, v@.len() as int) =~= v@);
                while k < v.len()
                    invariant
                        k <= v@.len(),
                        custom_lookup(self.custom_odds, id) == pairs_lookup(v@, id),
                        pairs_lookup(v@, id) == pairs_lookup(v@.subrange(k as int, v@.len() as int), id),
                    decreases v@.len() - k,
                {
                    assert(v@.subrange(k as int, v@.len() as int)[0] == v@[k as int]);
                    if v[k].0 == id {
                        assert(pairs_lookup(v@.subrange(k as int, v@.len() as int), id) == Some(
                            v@[k as int].1,
                        ));
                        return Some(v[k].1);
                    }
                    assert(v@.subrange(k as int, v@.len() as int).drop_first() =~= v@.subrange(k + 1, v@.len() as int));
                    k = k + 1;
                }
                None
            },
            None => None,
        }
    }
}

/// The odds of the first pair for pirate `id`.
pub open spec fn pairs_lookup(v: Seq<(u8, u8)>, id: u8) -> Option<u8>
    decreases v.len(),
{
    if v.len() == 0 {
        None
    } else if v[0].0 == id {
        Some(v[0].1)
    } else {
        pairs_lookup(v.drop_first(), id)
    }
}

/// The pairs of a set of custom odds.
pub open spec fn custom_view(c: Option<Vec<(u8, u8)>>) -> Option<Seq<(u8, u8)>> {
    match c {
        Some(v) => Some(v@),
        None => None,
    }
}

/// The custom odds of pirate `id`, where some are set.
pub open spec fn custom_lookup(c: Option<Vec<(u8, u8)>>, id: u8) -> Option<u8> {
    match c {
        Some(v) => pairs_lookup(v@, id),
        None => None,
    }
}

} // verus!
