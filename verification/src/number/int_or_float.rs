use vstd::prelude::*;

verus! {

/// A number with a fraction: `digits` divided by ten to the power of
/// `scale`, negated when `negative` is set. The digits on both sides of the
/// dot are held together, as many as `u128` has room for, which is 38 at
/// least; a number is exact as long as it has no more.
#[derive(Debug, Clone, Copy, PartialEq, Eq, Structural)]
pub struct Decimal {
    pub negative: bool,
    pub digits: u128,
    pub scale: u32,
}

/// A number while its symbols are read, and when they are all read.
///
/// `value` holds the digits read so far as one integer, without the sign. For
/// a `Float` it holds the digits on both sides of the dot, of which
/// `digits_after_dot` stood after it, in a wider type than an integer has:
/// the digits behind the dot come on top of those in front of it.
#[derive(Debug, Clone, Copy, PartialEq, Eq, Structural)]
#[allow(inconsistent_fields)]
pub enum IntOrFloat {
    Integer { value: i64, negative: bool },
    Float { value: u128, digits_after_dot: u32, negative: bool },
}

impl IntOrFloat {
    /// The digits read so far, as an integer.
    pub open spec fn magnitude(self) -> int {
        match self {
            IntOrFloat::Integer { value, .. } => value as int,
            IntOrFloat::Float { value, .. } => value as int,
        }
    }

    pub open spec fn is_negative(self) -> bool {
        match self {
            IntOrFloat::Integer { negative, .. } => negative,
            IntOrFloat::Float { negative, .. } => negative,
        }
    }

    /// The digits are never negative: the sign is kept apart.
    pub open spec fn wf(self) -> bool {
        self.magnitude() >= 0
    }

    /// Whether one more digit fits: into `i64` for an integer, into `u128`
    /// for a decimal.
    pub open spec fn has_room(self, digit: u8) -> bool {
        match self {
            IntOrFloat::Integer { value, .. } => value * 10 + digit <= i64::MAX,
            IntOrFloat::Float { value, digits_after_dot, .. } => value * 10 + digit <= u128::MAX
                && digits_after_dot < u32::MAX,
        }
    }

    /// The number with one more digit at its end.
    pub open spec fn appended(self, digit: u8) -> Self {
        match self {
            IntOrFloat::Integer { value, negative } => IntOrFloat::Integer {
                value: (value * 10 + digit) as i64,
                negative,
            },
            IntOrFloat::Float { value, digits_after_dot, negative } => IntOrFloat::Float {
                value: (value * 10 + digit) as u128,
                digits_after_dot: (digits_after_dot + 1) as u32,
                negative,
            },
        }
    }

    pub open spec fn negated(self) -> Self {
        match self {
            IntOrFloat::Integer { value, .. } => IntOrFloat::Integer { value, negative: true },
            IntOrFloat::Float { value, digits_after_dot, .. } => IntOrFloat::Float {
                value,
                digits_after_dot,
                negative: true,
            },
        }
    }

    /// The number once its dot is read: no digit stands after the dot yet.
    pub open spec fn dotted(self) -> Self {
        IntOrFloat::Float {
            value: self.magnitude() as u128,
            digits_after_dot: 0,
            negative: self.is_negative(),
        }
    }

    /// Whether `digit` can be appended without leaving the range of the
    /// digits.
    pub fn fits(&self, digit: u8) -> (r: bool)
        requires
            self.wf(),
            digit <= 9,
        ensures
            r == self.has_room(digit),
    {
        match *self {
            IntOrFloat::Integer { value, .. } => value <= (i64::MAX - digit as i64) / 10,
            IntOrFloat::Float { value, digits_after_dot, .. } => {
                value <= (u128::MAX - digit as u128) / 10 && digits_after_dot < u32::MAX
            },
        }
    }

    /// Appends a digit.
    pub fn append(&mut self, digit: u8)
        requires
            old(self).wf(),
            digit <= 9,
            old(self).has_room(digit),
        ensures
            *final(self) == old(self).appended(digit),
            final(self).wf(),
    {
        match *self {
            IntOrFloat::Integer { value, negative } => {
                *self = IntOrFloat::Integer { value: value * 10 + (digit as i64), negative };
            },
            IntOrFloat::Float { value, digits_after_dot, negative } => {
                *self = IntOrFloat::Float {
                    value: value * 10 + (digit as u128),
                    digits_after_dot: digits_after_dot + 1,
                    negative,
                };
            },
        }
    }

    /// Marks the number as negative. It must not be marked yet.
    pub fn negate(&mut self)
        requires
            !old(self).is_negative(),
        ensures
            *final(self) == old(self).negated(),
            final(self).magnitude() == old(self).magnitude(),
    {
        match *self {
            IntOrFloat::Integer { value, .. } => {
                *self = IntOrFloat::Integer { value, negative: true };
            },
            IntOrFloat::Float { value, digits_after_dot, .. } => {
                *self = IntOrFloat::Float { value, digits_after_dot, negative: true };
            },
        }
    }

    /// Turns the integer read so far into the part before the dot. Its
    /// digits must not be negative: the sign is kept apart.
    pub fn add_dot(&mut self)
        requires
            *old(self) is Integer,
            old(self).wf(),
        ensures
            *final(self) == old(self).dotted(),
            final(self).magnitude() == old(self).magnitude(),
    {
        match *self {
            IntOrFloat::Integer { value, negative } => {
                *self = IntOrFloat::Float { value: value as u128, digits_after_dot: 0, negative };
            },
            IntOrFloat::Float { .. } => {},
        }
    }

    /// The integer with its sign.
    pub fn unwrap_int(self) -> (r: i64)
        requires
            self is Integer,
            self.wf(),
        ensures
            r == if self.is_negative() {
                -self.magnitude()
            } else {
                self.magnitude()
            },
    {
        match self {
            IntOrFloat::Integer { value, negative: false } => value,
            IntOrFloat::Integer { value, negative: true } => -value,
            IntOrFloat::Float { .. } => 0,
        }
    }

    /// The decimal with its sign, digits and scale.
    pub fn unwrap_float(self) -> (r: Decimal)
        requires
            self is Float,
        ensures
            r.negative == self.is_negative(),
            r.digits == self.magnitude(),
            self matches IntOrFloat::Float { digits_after_dot, .. } && r.scale == digits_after_dot,
    {
        match self {
            IntOrFloat::Float { value, digits_after_dot, negative } => Decimal {
                negative,
                digits: value,
                scale: digits_after_dot,
            },
            IntOrFloat::Integer { negative, .. } => Decimal { negative, digits: 0, scale: 0 },
        }
    }
}

} // verus!
