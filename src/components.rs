use vstd::prelude::*;

verus! {

/// A cell position on the board: `x` is the column, `y` the row.
#[derive(Debug, Default, Copy, Clone, PartialEq, Eq, Structural, PartialOrd, Ord, Hash)]
pub struct Coordinates {
    pub x: u16,
    pub y: u16,
}

/// Component-wise sum, saturating at `u16::MAX`.
pub open spec fn coord_add(a: Coordinates, b: Coordinates) -> Coordinates {
    Coordinates {
        x: if a.x + b.x > u16::MAX { u16::MAX } else { (a.x + b.x) as u16 },
        y: if a.y + b.y > u16::MAX { u16::MAX } else { (a.y + b.y) as u16 },
    }
}

/// Component-wise difference, saturating at zero.
pub open spec fn coord_sub(a: Coordinates, b: Coordinates) -> Coordinates {
    Coordinates {
        x: if a.x < b.x { 0 } else { (a.x - b.x) as u16 },
        y: if a.y < b.y { 0 } else { (a.y - b.y) as u16 },
    }
}

impl Coordinates {
    /// Component-wise sum; a component that would pass `u16::MAX` stays there.
    pub fn add(self, rhs: Coordinates) -> (r: Coordinates)
        ensures
            r == coord_add(self, rhs),
    {
        Coordinates { x: self.x.saturating_add(rhs.x), y: self.y.saturating_add(rhs.y) }
    }

    /// Component-wise difference; a component that would drop below zero stays at zero.
    pub fn sub(self, rhs: Coordinates) -> (r: Coordinates)
        ensures
            r == coord_sub(self, rhs),
    {
        Coordinates { x: self.x.saturating_sub(rhs.x), y: self.y.saturating_sub(rhs.y) }
    }

    /// Text form `(x, y)`, for example `(3, 12)`.
    pub fn to_string(&self) -> (r: String)
        ensures
            r@ == coordinates_text(*self),
    {
        let mut s = String::new();
        s.append("(");
        push_decimal(&mut s, self.x);
        s.append(", ");
        push_decimal(&mut s, self.y);
        s.append(")");
        proof {
            reveal_strlit("(");
            reveal_strlit(", ");
            reveal_strlit(")");
        }
        s
    }
}

/// The character of a decimal digit.
pub open spec fn digit_char(d: nat) -> char {
    if d == 0 { '0' } else if d == 1 { '1' } else if d == 2 { '2' } else if d == 3 { '3' }
    else if d == 4 { '4' } else if d == 5 { '5' } else if d == 6 { '6' } else if d == 7 { '7' }
    else if d == 8 { '8' } else { '9' }
}

/// Decimal digits of `n`, without leading zeros.
pub open spec fn decimal(n: nat) -> Seq<char>
    decreases n,
{
    if n < 10 {
        seq![digit_char(n)]
    } else {
        decimal(n / 10) + seq![digit_char(n % 10)]
    }
}

pub open spec fn coordinates_text(c: Coordinates) -> Seq<char> {
    seq!['('] + decimal(c.x as nat) + seq![',', ' '] + decimal(c.y as nat) + seq![')']
}

fn digit_str(d: u16) -> (r: &'static str)
    requires
        d < 10,
    ensures
        r@ == seq![digit_char(d as nat)],
{
    proof {
        reveal_strlit("0"); reveal_strlit("1"); reveal_strlit("2"); reveal_strlit("3");
        reveal_strlit("4"); reveal_strlit("5"); reveal_strlit("6"); reveal_strlit("7");
        reveal_strlit("8"); reveal_strlit("9");
    }
    if d == 0 { "0" } else if d == 1 { "1" } else if d == 2 { "2" } else if d == 3 { "3" }
    else if d == 4 { "4" } else if d == 5 { "5" } else if d == 6 { "6" } else if d == 7 { "7" }
    else if d == 8 { "8" } else { "9" }
}

/// Appends the decimal digits of `n` to `s`.
pub fn push_decimal(s: &mut String, n: u16)
    ensures
        final(s)@ == old(s)@ + decimal(n as nat),
    decreases n,
{
    if n < 10 {
        s.append(digit_str(n));
    } else {
        push_decimal(s, n / 10);
        s.append(digit_str(n % 10));
        assert(final(s)@ =~= old(s)@ + decimal(n as nat));
    }
}

/// Marks a tile that holds a bomb.
#[derive(Debug, Copy, Clone, PartialEq, Eq, Structural, PartialOrd, Ord, Hash)]
pub struct Bomb;

/// Marks a tile next to at least one bomb, with the number of such bombs.
#[derive(Debug, Copy, Clone, PartialEq, Eq, Structural, PartialOrd, Ord, Hash)]
pub struct BombNeighbor {
    pub count: u8,
}

/// Marks a tile cover that is to be removed on the next reveal pass.
#[derive(Debug, Copy, Clone, PartialEq, Eq, Structural, PartialOrd, Ord, Hash)]
pub struct Uncover;

/// A request, from the input layer, to uncover the tile at the given position.
#[derive(Debug, Copy, Clone, PartialEq, Eq, Structural)]
pub struct TileTriggerEvent(pub Coordinates);

} // verus!
