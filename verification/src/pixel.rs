//! The concrete point type of the clustering engine: a 3-channel color.
//!
//! `distance` is the squared Euclidean distance over the channel triple
//! (comparisons only need relative order, and the squared form avoids both
//! square roots and unsigned-subtraction underflow by widening to a signed
//! type). `average` is the componentwise mean, rounded to the nearest
//! representable value; rounding to nearest is what makes the within-cluster
//! cost of the update step non-increasing.

use vstd::prelude::*;

verus! {

/// One color sample, channels in red, green, blue order.
#[derive(Clone, Copy, Debug, PartialEq, Eq, Structural)]
pub struct Pixel {
    pub r: u8,
    pub g: u8,
    pub b: u8,
}

/// The square of an integer.
pub open spec fn sq(x: int) -> int {
    x * x
}

/// Squared Euclidean distance between two colors, over the channel triple.
pub open spec fn pixel_distance(a: Pixel, b: Pixel) -> int {
    sq(a.r - b.r) + sq(a.g - b.g) + sq(a.b - b.b)
}

/// Squared distances never exceed three times the largest per-channel square.
pub proof fn lemma_distance_bound(a: Pixel, b: Pixel)
    ensures
        0 <= pixel_distance(a, b) <= 195075,
{
    lemma_sq_diff_bound(a.r as int, b.r as int);
    lemma_sq_diff_bound(a.g as int, b.g as int);
    lemma_sq_diff_bound(a.b as int, b.b as int);
}

/// The square of a difference of channel values lies in `[0, 255*255]`.
proof fn lemma_sq_diff_bound(x: int, y: int)
    requires
        0 <= x <= 255,
        0 <= y <= 255,
    ensures
        0 <= sq(x - y) <= 65025,
{
    assert(0 <= (x - y) * (x - y) <= 65025) by (nonlinear_arith)
        requires
            0 <= x <= 255,
            0 <= y <= 255,
    ;
}

/// Distance is symmetric, and zero from a color to itself.
pub proof fn lemma_distance_symmetric(p: Pixel, q: Pixel)
    ensures
        pixel_distance(p, q) == pixel_distance(q, p),
        pixel_distance(p, p) == 0,
{
    assert forall|x: int, y: int| #[trigger] sq(x - y) == sq(y - x) by {
        assert((x - y) * (x - y) == (y - x) * (y - x)) by (nonlinear_arith);
    }
}

/// Distance vanishes exactly between equal colors.
pub proof fn lemma_distance_zero(p: Pixel, q: Pixel)
    ensures
        (pixel_distance(p, q) == 0) <==> (p == q),
{
    lemma_distance_symmetric(p, q);
    if pixel_distance(p, q) == 0 {
        let dr = p.r - q.r;
        let dg = p.g - q.g;
        let db = p.b - q.b;
        assert(dr * dr >= 0 && dg * dg >= 0 && db * db >= 0) by (nonlinear_arith);
        assert(dr == 0) by (nonlinear_arith)
            requires
                dr * dr == 0,
        ;
        assert(dg == 0) by (nonlinear_arith)
            requires
                dg * dg == 0,
        ;
        assert(db == 0) by (nonlinear_arith)
            requires
                db * db == 0,
        ;
        assert(p == q);
    }
}

/// Sum of a sequence of integers.
pub open spec fn int_sum(s: Seq<int>) -> int
    decreases s.len(),
{
    if s.len() == 0 {
        0
    } else {
        int_sum(s.drop_last()) + s.last()
    }
}

/// The red channels of a sequence of colors, as integers.
pub open spec fn reds(s: Seq<Pixel>) -> Seq<int> {
    s.map_values(|p: Pixel| p.r as int)
}

/// The green channels of a sequence of colors, as integers.
pub open spec fn greens(s: Seq<Pixel>) -> Seq<int> {
    s.map_values(|p: Pixel| p.g as int)
}

/// The blue channels of a sequence of colors, as integers.
pub open spec fn blues(s: Seq<Pixel>) -> Seq<int> {
    s.map_values(|p: Pixel| p.b as int)
}

/// `a / b` rounded to the nearest integer, halves rounding up.
pub open spec fn round_div(a: int, b: int) -> int
    recommends
        b > 0,
{
    (2 * a + b) / (2 * b)
}

/// The rounded quotient differs from the exact one by at most a half:
/// `|b * round_div(a, b) - a| <= b / 2`, stated without division.
pub proof fn lemma_round_div_close(a: int, b: int)
    requires
        b > 0,
    ensures
        -b < 2 * (b * round_div(a, b) - a) <= b,
{
    let q = round_div(a, b);
    vstd::arithmetic::div_mod::lemma_fundamental_div_mod(2 * a + b, 2 * b);
    let rr = (2 * a + b) % (2 * b);
    assert(2 * a + b == 2 * b * q + rr);
    assert(2 * b * q == 2 * (b * q)) by (nonlinear_arith);
    assert(2 * (b * q - a) == b - rr);
}

/// Appending one value adds it to the sum.
pub proof fn lemma_int_sum_push(s: Seq<int>, v: int)
    ensures
        int_sum(s.push(v)) == int_sum(s) + v,
{
    assert(s.push(v).drop_last() =~= s);
    assert(s.push(v).last() == v);
}

impl Pixel {
    pub fn new(r: u8, g: u8, b: u8) -> (p: Pixel)
        ensures
            p == (Pixel { r, g, b }),
    {
        Pixel { r, g, b }
    }

    /// Squared Euclidean distance to `other`; widens to `i64` before
    /// subtracting so that no unsigned subtraction can underflow.
    pub fn distance(&self, other: &Pixel) -> (d: u32)
        ensures
            d == pixel_distance(*self, *other),
            d <= 195075,
    {
        proof {
            lemma_distance_bound(*self, *other);
        }
        let r_dist: i64 = (self.r as i64) - (other.r as i64);
        let g_dist: i64 = (self.g as i64) - (other.g as i64);
        let b_dist: i64 = (self.b as i64) - (other.b as i64);
        assert(0 <= r_dist * r_dist <= 65025 && r_dist * r_dist == sq(self.r - other.r))
            by (nonlinear_arith)
            requires
                r_dist == self.r - other.r,
                -255 <= r_dist <= 255,
        ;
        assert(0 <= g_dist * g_dist <= 65025 && g_dist * g_dist == sq(self.g - other.g))
            by (nonlinear_arith)
            requires
                g_dist == self.g - other.g,
                -255 <= g_dist <= 255,
        ;
        assert(0 <= b_dist * b_dist <= 65025 && b_dist * b_dist == sq(self.b - other.b))
            by (nonlinear_arith)
            requires
                b_dist == self.b - other.b,
                -255 <= b_dist <= 255,
        ;
        (r_dist * r_dist + g_dist * g_dist + b_dist * b_dist) as u32
    }

    /// The color as a `#rrggbb` string of lower-case hexadecimal digits,
    /// channels in the conventional red, green, blue order.
    pub fn as_hex(&self) -> (out: String)
        ensures
            out@ == hex_view(*self),
    {
        proof {
            reveal_strlit("#");
        }
        let mut out = String::from_str("#");
        out.append(hex_digit_str(self.r / 16));
        out.append(hex_digit_str(self.r % 16));
        out.append(hex_digit_str(self.g / 16));
        out.append(hex_digit_str(self.g % 16));
        out.append(hex_digit_str(self.b / 16));
        out.append(hex_digit_str(self.b % 16));
        proof {
            assert(out@ =~= hex_view(*self));
        }
        out
    }

    /// Componentwise mean of a non-empty collection of colors, each channel
    /// rounded to the nearest representable value (halves rounding up).
    ///
    /// The collection must be non-empty; the updater handles an empty cluster
    /// by keeping its previous center instead of calling this.
    pub fn average(vectors: &Vec<Pixel>) -> (p: Pixel)
        requires
            vectors@.len() > 0,
        ensures
            p.r as int == round_div(int_sum(reds(vectors@)), vectors@.len() as int),
            p.g as int == round_div(int_sum(greens(vectors@)), vectors@.len() as int),
            p.b as int == round_div(int_sum(blues(vectors@)), vectors@.len() as int),
            vectors@.len() == 1 ==> p == vectors@[0],
    {
        let ghost s = vectors@;
        let n_usize = vectors.len();
        let mut sum_r: u128 = 0;
        let mut sum_g: u128 = 0;
        let mut sum_b: u128 = 0;
        let mut i: usize = 0;
        while i < n_usize
            invariant
                i <= n_usize,
                n_usize == s.len(),
                s == vectors@,
                sum_r == int_sum(reds(s).take(i as int)),
                sum_g == int_sum(greens(s).take(i as int)),
                sum_b == int_sum(blues(s).take(i as int)),
                sum_r <= 255 * (i as int),
                sum_g <= 255 * (i as int),
                sum_b <= 255 * (i as int),
            decreases n_usize - i,
        {
            proof {
                assert(reds(s).take(i + 1) =~= reds(s).take(i as int).push(s[i as int].r as int));
                assert(greens(s).take(i + 1) =~= greens(s).take(i as int).push(
                    s[i as int].g as int,
                ));
                assert(blues(s).take(i + 1) =~= blues(s).take(i as int).push(s[i as int].b as int));
                lemma_int_sum_push(reds(s).take(i as int), s[i as int].r as int);
                lemma_int_sum_push(greens(s).take(i as int), s[i as int].g as int);
                lemma_int_sum_push(blues(s).take(i as int), s[i as int].b as int);
            }
            let v = vectors[i];
            sum_r = sum_r + v.r as u128;
            sum_g = sum_g + v.g as u128;
            sum_b = sum_b + v.b as u128;
            i = i + 1;
        }
        proof {
            assert(reds(s).take(n_usize as int) =~= reds(s));
            assert(greens(s).take(n_usize as int) =~= greens(s));
            assert(blues(s).take(n_usize as int) =~= blues(s));
            lemma_round_div_within_channel(sum_r as int, n_usize as int);
            lemma_round_div_within_channel(sum_g as int, n_usize as int);
            lemma_round_div_within_channel(sum_b as int, n_usize as int);
        }
        let n: u128 = n_usize as u128;
        let r = ((2 * sum_r + n) / (2 * n)) as u8;
        let g = ((2 * sum_g + n) / (2 * n)) as u8;
        let b = ((2 * sum_b + n) / (2 * n)) as u8;
        proof {
            if s.len() == 1 {
                assert(reds(s).drop_last() =~= Seq::<int>::empty());
                assert(greens(s).drop_last() =~= Seq::<int>::empty());
                assert(blues(s).drop_last() =~= Seq::<int>::empty());
                lemma_round_div_one(int_sum(reds(s)));
                lemma_round_div_one(int_sum(greens(s)));
                lemma_round_div_one(int_sum(blues(s)));
                assert(int_sum(Seq::<int>::empty()) == 0);
                assert(reds(s).len() == 1 && greens(s).len() == 1 && blues(s).len() == 1);
                assert(int_sum(reds(s)) == int_sum(reds(s).drop_last()) + reds(s).last());
                assert(int_sum(greens(s)) == int_sum(greens(s).drop_last()) + greens(s).last());
                assert(int_sum(blues(s)) == int_sum(blues(s).drop_last()) + blues(s).last());
                assert(int_sum(reds(s)) == s[0].r as int);
                assert(int_sum(greens(s)) == s[0].g as int);
                assert(int_sum(blues(s)) == s[0].b as int);
                assert(r == s[0].r && g == s[0].g && b == s[0].b);
            }
        }
        Pixel { r, g, b }
    }
}

/// The lower-case hexadecimal digit for a value in `[0, 15]`.
pub open spec fn hex_digit(n: int) -> char {
    if n == 0 {
        '0'
    } else if n == 1 {
        '1'
    } else if n == 2 {
        '2'
    } else if n == 3 {
        '3'
    } else if n == 4 {
        '4'
    } else if n == 5 {
        '5'
    } else if n == 6 {
        '6'
    } else if n == 7 {
        '7'
    } else if n == 8 {
        '8'
    } else if n == 9 {
        '9'
    } else if n == 10 {
        'a'
    } else if n == 11 {
        'b'
    } else if n == 12 {
        'c'
    } else if n == 13 {
        'd'
    } else if n == 14 {
        'e'
    } else {
        'f'
    }
}

/// The canonical rendering of a color: `#` followed by two hexadecimal
/// digits per channel, in red, green, blue order.
pub open spec fn hex_view(p: Pixel) -> Seq<char> {
    seq![
        '#',
        hex_digit(p.r as int / 16),
        hex_digit(p.r as int % 16),
        hex_digit(p.g as int / 16),
        hex_digit(p.g as int % 16),
        hex_digit(p.b as int / 16),
        hex_digit(p.b as int % 16),
    ]
}

/// The one-character string for a hexadecimal digit.
fn hex_digit_str(n: u8) -> (r: &'static str)
    requires
        n < 16,
    ensures
        r@.len() == 1,
        r@[0] == hex_digit(n as int),
{
    proof {
        reveal_strlit("0");
        reveal_strlit("1");
        reveal_strlit("2");
        reveal_strlit("3");
        reveal_strlit("4");
        reveal_strlit("5");
        reveal_strlit("6");
        reveal_strlit("7");
        reveal_strlit("8");
        reveal_strlit("9");
        reveal_strlit("a");
        reveal_strlit("b");
        reveal_strlit("c");
        reveal_strlit("d");
        reveal_strlit("e");
        reveal_strlit("f");
    }
    match n {
        0 => "0",
        1 => "1",
        2 => "2",
        3 => "3",
        4 => "4",
        5 => "5",
        6 => "6",
        7 => "7",
        8 => "8",
        9 => "9",
        10 => "a",
        11 => "b",
        12 => "c",
        13 => "d",
        14 => "e",
        _ => "f",
    }
}

/// A rounded mean of channel values is itself a channel value:
/// `0 <= round_div(a, n) <= 255` whenever `0 <= a <= 255 * n`.
pub proof fn lemma_round_div_within_channel(a: int, n: int)
    requires
        n >= 1,
        0 <= a <= 255 * n,
    ensures
        0 <= round_div(a, n) <= 255,
{
    let q = round_div(a, n);
    vstd::arithmetic::div_mod::lemma_div_pos_is_pos(2 * a + n, 2 * n);
    vstd::arithmetic::div_mod::lemma_fundamental_div_mod(2 * a + n, 2 * n);
    let rr = (2 * a + n) % (2 * n);
    assert(2 * a + n == 2 * n * q + rr);
    if q >= 256 {
        assert(2 * n * q >= 512 * n) by (nonlinear_arith)
            requires
                n >= 1,
                q >= 256,
        ;
        assert(false);
    }
}

/// Averaging over a single value returns it unchanged.
pub proof fn lemma_round_div_one(a: int)
    ensures
        round_div(a, 1) == a,
{
    vstd::arithmetic::div_mod::lemma_fundamental_div_mod_converse(2 * a + 1, 2, a, 1);
}

} // verus!
