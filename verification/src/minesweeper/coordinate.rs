//! Positions on a four-dimensional minefield, and the names of its axes.
use vstd::prelude::*;
use crate::grid::{Quad, volume};

verus! {

/// Builds a coordinate whose ordinates are known to be positive.
pub fn coordinate(x: usize, y: usize, z: usize, w: usize) -> (c: Coordinate)
    requires
        x >= 1,
        y >= 1,
        z >= 1,
        w >= 1,
    ensures
        c@ == (x as int, y as int, z as int, w as int),
{
    Coordinate { x, y, z, w }
}

/// A position (or a size) along the four axes x, y, z and w; ordinates
/// count from 1.
#[derive(Copy, Clone, Debug, Eq, PartialEq, Structural)]
pub struct Coordinate {
    x: usize,
    y: usize,
    z: usize,
    w: usize,
}

impl View for Coordinate {
    type V = Quad;

    closed spec fn view(&self) -> Quad {
        (self.x as int, self.y as int, self.z as int, self.w as int)
    }
}

/// The character of the decimal digit `d`.
pub open spec fn digit_char(d: nat) -> char {
    (48 + d) as char
}

/// The decimal digits of `n`, most significant first, with no leading zero.
pub open spec fn decimal(n: nat) -> Seq<char>
    decreases n,
{
    if n < 10 {
        seq![digit_char(n)]
    } else {
        decimal(n / 10).push(digit_char(n % 10))
    }
}

/// The text `(x, y, z, w)` with the ordinates in decimal.
pub open spec fn quad_text(x: nat, y: nat, z: nat, w: nat) -> Seq<char> {
    seq!['('] + decimal(x) + seq![',', ' '] + decimal(y) + seq![',', ' '] + decimal(z) + seq![
        ',',
        ' ',
    ] + decimal(w) + seq![')']
}

/// Writes `n` with std's `ToString`, which for an unsigned integer gives
/// its decimal digits without sign or leading zeros.
#[verifier::external_body]
fn decimal_text(n: usize) -> (r: String)
    ensures
        r@ == decimal(n as nat),
{
    n.to_string()
}

/// Appends `tail` to `text` with std's `String::push_str`.
#[verifier::external_body]
fn append(text: &mut String, tail: &str)
    ensures
        final(text)@ == old(text)@ + tail@,
{
    text.push_str(tail)
}

/// Two coordinates are equal exactly when their ordinates are.
pub proof fn lemma_view_eq(a: Coordinate, b: Coordinate)
    ensures
        a@ == b@ <==> a == b,
{
}

impl Coordinate {
    /// Rejects a coordinate with an ordinate of zero.
    pub fn new(x: usize, y: usize, z: usize, w: usize) -> (r: Result<Self, String>)
        ensures
            match r {
                Ok(c) => x >= 1 && y >= 1 && z >= 1 && w >= 1 && c@ == (
                    x as int,
                    y as int,
                    z as int,
                    w as int,
                ),
                Err(e) => (x == 0 || y == 0 || z == 0 || w == 0) && e@
                    == "Ordinates must be positive!"@,
            },
    {
        if x == 0 || y == 0 || z == 0 || w == 0 {
            return Err("Ordinates must be positive!".to_owned());
        }
        Ok(Coordinate { x, y, z, w })
    }

    /// The coordinate as text: `(x, y, z, w)`.
    pub fn to_string(&self) -> (r: String)
        ensures
            r@ == quad_text(self@.0 as nat, self@.1 as nat, self@.2 as nat, self@.3 as nat),
    {
        let mut text = "(".to_owned();
        let x = decimal_text(self.x);
        append(&mut text, x.as_str());
        append(&mut text, ", ");
        let y = decimal_text(self.y);
        append(&mut text, y.as_str());
        append(&mut text, ", ");
        let z = decimal_text(self.z);
        append(&mut text, z.as_str());
        append(&mut text, ", ");
        let w = decimal_text(self.w);
        append(&mut text, w.as_str());
        append(&mut text, ")");
        proof {
            reveal_strlit("(");
            reveal_strlit(", ");
            reveal_strlit(")");
            assert(text@ =~= quad_text(self@.0 as nat, self@.1 as nat, self@.2 as nat, self@.3 as nat));
        }
        text
    }

    pub fn x(&self) -> (r: usize)
        ensures
            r == self@.0,
    {
        self.x
    }

    pub fn y(&self) -> (r: usize)
        ensures
            r == self@.1,
    {
        self.y
    }

    pub fn z(&self) -> (r: usize)
        ensures
            r == self@.2,
    {
        self.z
    }

    pub fn w(&self) -> (r: usize)
        ensures
            r == self@.3,
    {
        self.w
    }

    /// The ordinate along one axis.
    pub fn get(&self, ordinate: Ordinate) -> (r: usize)
        ensures
            r == ordinate.of(self@),
    {
        match ordinate {
            Ordinate::X => self.x,
            Ordinate::Y => self.y,
            Ordinate::Z => self.z,
            Ordinate::W => self.w,
        }
    }

    /// The ordinate along one axis (the name the first version of the game used).
    pub fn get_ordinate(&self, ordinate: Ordinate) -> (r: usize)
        ensures
            r == ordinate.of(self@),
    {
        self.get(ordinate)
    }

    pub fn get_xy(&self) -> (r: (usize, usize))
        ensures
            r.0 == self@.0 && r.1 == self@.1,
    {
        (self.x, self.y)
    }

    pub fn get_zw(&self) -> (r: (usize, usize))
        ensures
            r.0 == self@.2 && r.1 == self@.3,
    {
        (self.z, self.w)
    }

    /// The product of the four ordinates: the number of tiles of a field of
    /// this size.
    pub fn multiply_out(&self) -> (r: usize)
        requires
            self@.0 * self@.1 <= usize::MAX,
            self@.0 * self@.1 * self@.3 <= usize::MAX,
            self@.0 * self@.1 * self@.3 * self@.2 <= usize::MAX,
        ensures
            r == volume(self@),
    {
        let r = self.x * self.y * self.w * self.z;
        assert(self@.0 * self@.1 * self@.3 * self@.2 == volume(self@)) by (nonlinear_arith);
        r
    }
}

/// One of the four axes of the field.
#[derive(Copy, Clone, Debug, Eq, PartialEq, Structural)]
pub enum Ordinate {
    X,
    Y,
    Z,
    W,
}

impl Ordinate {
    /// The component of `q` along this axis.
    pub open spec fn of(self, q: Quad) -> int {
        match self {
            Ordinate::X => q.0,
            Ordinate::Y => q.1,
            Ordinate::Z => q.2,
            Ordinate::W => q.3,
        }
    }

    /// The lower-case name of the axis.
    pub fn name(&self) -> (r: &'static str)
        ensures
            r@ == match self {
                Ordinate::X => "x"@,
                Ordinate::Y => "y"@,
                Ordinate::Z => "z"@,
                Ordinate::W => "w"@,
            },
    {
        match self {
            Ordinate::X => "x",
            Ordinate::Y => "y",
            Ordinate::Z => "z",
            Ordinate::W => "w",
        }
    }
}

impl Ordinate {
    /// The upper-case name of the axis.
    pub fn to_string(&self) -> (r: String)
        ensures
            r@ == match self {
                Ordinate::X => "X"@,
                Ordinate::Y => "Y"@,
                Ordinate::Z => "Z"@,
                Ordinate::W => "W"@,
            },
    {
        match self {
            Ordinate::X => "X".to_owned(),
            Ordinate::Y => "Y".to_owned(),
            Ordinate::Z => "Z".to_owned(),
            Ordinate::W => "W".to_owned(),
        }
    }
}

/// The four axes in order.
pub const ORDINATES: [Ordinate; 4] = [Ordinate::X, Ordinate::Y, Ordinate::Z, Ordinate::W];

} // verus!
