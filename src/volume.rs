//! Audio volume rates and mixing delays.
use vstd::prelude::*;

verus! {

/// Largest accepted volume level, in percents.
pub const MAX_LEVEL: u16 = 1000;

/// Volume level that keeps the original loudness of a track, in percents.
pub const ORIGIN_LEVEL: u16 = 100;

/// Volume rate of an audio track in percents, within `0..=1000`.
#[derive(Clone, Copy, Debug, PartialEq, Eq, Structural, Hash)]
pub struct VolumeLevel(pub(crate) u16);

impl VolumeLevel {
    #[verifier::type_invariant]
    spec fn in_bounds(self) -> bool {
        self.0 <= MAX_LEVEL
    }

    /// The percents held by this level.
    pub closed spec fn percents(self) -> u16 {
        self.0
    }

    /// Creates a level out of the given percents, if they are within
    /// `0..=1000`.
    pub fn new(val: u16) -> (r: Option<Self>)
        ensures
            r is Some <==> val <= MAX_LEVEL,
            r matches Some(l) ==> l.percents() == val,
    {
        if val <= MAX_LEVEL {
            Some(VolumeLevel(val))
        } else {
            None
        }
    }

    /// Level of the original loudness.
    pub fn origin() -> (r: Self)
        ensures
            r.percents() == ORIGIN_LEVEL,
    {
        VolumeLevel(ORIGIN_LEVEL)
    }

    /// The percents held by this level, which never exceed `1000`.
    pub fn level(&self) -> (r: u16)
        ensures
            r == self.percents(),
            r <= MAX_LEVEL,
    {
        proof {
            use_type_invariant(self);
        }
        self.0
    }
}

/// Volume rate of an audio track in percents and flag if it is muted.
#[derive(Clone, Copy, Debug, PartialEq, Eq, Structural)]
pub struct Volume {
    /// Volume rate or level.
    pub level: VolumeLevel,
    /// Whether it is muted or not.
    pub muted: bool,
}

/// Characters of the decimal notation of `n`, without leading zeros.
pub open spec fn decimal(n: nat) -> Seq<char>
    decreases n,
{
    if n < 10 {
        seq![digit_char(n)]
    } else {
        decimal(n / 10).push(digit_char(n % 10))
    }
}

/// The ASCII digit standing for `d < 10`.
pub open spec fn digit_char(d: nat) -> char {
    ((d + 48) as u8) as char
}

/// How a volume is rendered in a control message: `level / 100` with two
/// decimals, or `0.00` when muted.
pub open spec fn fraction_text(v: Volume) -> Seq<char> {
    if v.muted {
        seq!['0', '.', '0', '0']
    } else {
        decimal((v.level.percents() / 100) as nat) + seq![
            '.',
            digit_char(((v.level.percents() % 100) / 10) as nat),
            digit_char((v.level.percents() % 10) as nat),
        ]
    }
}

/// Appends the ASCII digit `d` to `s`.
fn push_digit(s: &mut String, d: u16)
    requires
        d < 10,
    ensures
        final(s)@ == old(s)@.push(digit_char(d as nat)),
{
    let t: &str = match d {
        0 => "0",
        1 => "1",
        2 => "2",
        3 => "3",
        4 => "4",
        5 => "5",
        6 => "6",
        7 => "7",
        8 => "8",
        _ => "9",
    };
    proof {
        reveal_strlit("0");
        reveal_strlit("1");
        reveal_strlit("2");
        reveal_strlit("3");
        reveal_strlit("4");
        reveal_strlit("5");
        reveal_strlit("6");
        reveal_strlit("7");
        reveal_strlit("8");
        reveal_strlit("9");
    }
    s.append(t);
    assert(final(s)@ == old(s)@.push(digit_char(d as nat)));
}

/// Appends the decimal notation of `n` to `s`.
pub fn push_decimal(s: &mut String, n: u64)
    ensures
        final(s)@ == old(s)@ + decimal(n as nat),
    decreases n,
{
    if n < 10 {
        push_digit(s, n as u16);
        assert(decimal(n as nat) == seq![digit_char(n as nat)]);
    } else {
        push_decimal(s, n / 10);
        push_digit(s, (n % 10) as u16);
        assert(decimal(n as nat) == decimal((n / 10) as nat).push(digit_char((n % 10) as nat)));
    }
}

impl Volume {
    /// The volume of the original loudness, not muted.
    pub fn origin() -> (r: Self)
        ensures
            r.level.percents() == ORIGIN_LEVEL,
            !r.muted,
    {
        Volume { level: VolumeLevel::origin(), muted: false }
    }

    /// Creates a volume out of the given specification.
    pub fn new(num: &crate::v1::Volume) -> (r: Self)
        ensures
            r.level == num.level,
            r.muted == num.muted,
    {
        Volume { level: num.level, muted: num.muted }
    }

    /// Exports this volume as a specification.
    pub fn export(&self) -> (r: crate::v1::Volume)
        ensures
            r.level == self.level,
            r.muted == self.muted,
    {
        crate::v1::Volume { level: self.level, muted: self.muted }
    }

    /// Whether this volume is the original loudness, not muted.
    pub open spec fn is_origin_spec(self) -> bool {
        self.level.percents() == ORIGIN_LEVEL && !self.muted
    }

    /// Displays this volume as a fraction of `1`: `100%` as `1.00`, `50%` as
    /// `0.50`, and `0.00` when muted.
    pub fn display_as_fraction(self) -> (r: String)
        ensures
            r@ == fraction_text(self),
    {
        if self.muted {
            let r = String::from_str("0.00");
            proof {
                reveal_strlit("0.00");
            }
            r
        } else {
            let l = self.level.level();
            let mut r = String::new();
            push_decimal(&mut r, (l / 100) as u64);
            proof {
                reveal_strlit(".");
            }
            r.append(".");
            push_digit(&mut r, (l % 100) / 10);
            push_digit(&mut r, l % 10);
            r
        }
    }

    /// Indicates whether this volume is the original loudness, not muted.
    pub fn is_origin(&self) -> (r: bool)
        ensures
            r == self.is_origin_spec(),
    {
        self.level.level() == ORIGIN_LEVEL && !self.muted
    }
}

/// Delay of a mixin being mixed with an output, in milliseconds.
#[derive(Clone, Copy, Debug, PartialEq, Eq, Structural, Hash, Default)]
pub struct Delay(pub(crate) u64);

impl Delay {
    /// Milliseconds held by this delay.
    pub closed spec fn millis(self) -> u64 {
        self.0
    }

    /// No delay at all.
    pub fn zero() -> (r: Self)
        ensures
            r.millis() == 0,
    {
        Delay(0)
    }

    /// Creates a delay of the given milliseconds, which must not be negative.
    pub fn from_millis(millis: i64) -> (r: Option<Self>)
        ensures
            r is Some <==> millis >= 0,
            r matches Some(d) ==> d.millis() == millis,
    {
        if millis >= 0 {
            Some(Delay(millis as u64))
        } else {
            None
        }
    }

    /// Milliseconds of this delay.
    pub fn as_millis(&self) -> (r: i32)
        requires
            self.millis() <= i32::MAX,
        ensures
            r == self.millis(),
    {
        self.0 as i32
    }

    /// Milliseconds of this delay, whatever their number.
    pub fn total_millis(&self) -> (r: u64)
        ensures
            r == self.millis(),
    {
        self.0
    }

    /// Indicates whether this delay introduces no actual delay.
    pub fn is_zero(&self) -> (r: bool)
        ensures
            r == (self.millis() == 0),
    {
        self.0 == 0
    }
}

} // verus!
