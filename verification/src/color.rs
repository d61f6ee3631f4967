//! The two level templates: blue, the spiral itself, and red, the spiral
//! reflected through the origin and shifted by two along y.
use vstd::prelude::*;
use ndarray::{arr2, Array2};
use crate::point::{V2d, pt2, pts2};
use crate::info::Color;

verus! {

/// A level template.
pub type Yarn = Vec<V2d>;

/// The two templates that all levels are cut from.
pub struct Yarns {
    /// The spiral.
    pub blue: Yarn,
    /// The spiral, reflected and shifted.
    pub red: Yarn,
}

/// The red image of a blue point.
pub open spec fn red_point(p: (int, int)) -> (int, int) {
    (-p.0, 2 - p.1)
}

/// The blue point that a red point is the image of.
pub open spec fn blue_point(p: (int, int)) -> (int, int) {
    (-p.0, -(p.1 - 2))
}

/// The red template of a blue one.
pub open spec fn red_of(blue: Seq<(int, int)>) -> Seq<(int, int)> {
    blue.map_values(|p: (int, int)| red_point(p))
}

/// The blue template of a red one: shift back by two along y, then reflect
/// through the origin.
pub open spec fn blue_of(red: Seq<(int, int)>) -> Seq<(int, int)> {
    red.map_values(|p: (int, int)| blue_point(p))
}

/// Undoing the reflection and the shift recovers the blue template from the red one.
pub proof fn lemma_colors_round_trip(blue: Seq<(int, int)>)
    ensures
        blue_of(red_of(blue)) == blue,
{
    assert(blue_of(red_of(blue)) =~= blue);
}

/// Whether `v` is a value of a coordinate.
pub open spec fn fits_i16(v: int) -> bool {
    i16::MIN <= v <= i16::MAX
}

/// Row `i` of the product of the rows with a 2 x 2 matrix.
pub open spec fn product_row(row: V2d, m: [[i16; 2]; 2]) -> (int, int) {
    (row[0] * m[0][0] + row[1] * m[1][0], row[0] * m[0][1] + row[1] * m[1][1])
}

/// Every product and every sum of the matrix product is a value of a coordinate.
pub open spec fn product_fits(row: V2d, m: [[i16; 2]; 2]) -> bool {
    &&& fits_i16(row[0] * m[0][0])
    &&& fits_i16(row[1] * m[1][0])
    &&& fits_i16(row[0] * m[0][1])
    &&& fits_i16(row[1] * m[1][1])
    &&& fits_i16(product_row(row, m).0)
    &&& fits_i16(product_row(row, m).1)
}

/// The matrix product of ndarray, `ArrayBase::dot`, of an N x 2 array with a
/// 2 x 2 array: entry `(i, j)` of the result is the sum over `k` of
/// `rows[i][k] * m[k][j]`, computed in sixteen bits.
#[verifier::external_body]
fn dot(rows: &Vec<V2d>, m: &[[i16; 2]; 2]) -> (out: Vec<V2d>)
    requires
        forall|i: int| 0 <= i < rows.len() ==> product_fits(#[trigger] rows[i], *m),
    ensures
        out.len() == rows.len(),
        forall|i: int| 0 <= i < rows.len() ==> pt2(#[trigger] out[i]) == product_row(rows[i], *m),
{
    let a: Array2<i16> = Array2::from(rows.clone());
    let product: Array2<i16> = a.dot(&arr2(m));
    product.outer_iter().map(|r| [r[0], r[1]]).collect()
}

/// The sum of ndarray, `ArrayBase + ArrayBase`, of an N x 2 array with a 1 x 2
/// array, which is broadcast: `shift` is added to every row, in sixteen bits.
#[verifier::external_body]
fn add_to_rows(rows: &Vec<V2d>, shift: &V2d) -> (out: Vec<V2d>)
    requires
        forall|i: int|
            0 <= i < rows.len() ==> fits_i16((#[trigger] rows[i])[0] + shift[0]) && fits_i16(
                rows[i][1] + shift[1],
            ),
    ensures
        out.len() == rows.len(),
        forall|i: int|
            0 <= i < rows.len() ==> pt2(#[trigger] out[i]) == (
                rows[i][0] + shift[0],
                rows[i][1] + shift[1],
            ),
{
    let sum: Array2<i16> = Array2::from(rows.clone()) + arr2(&[*shift]);
    sum.outer_iter().map(|r| [r[0], r[1]]).collect()
}

/// Colours the spun spiral: blue is the spiral itself, red is blue multiplied
/// by the reflection through the origin and shifted by `(0, 2)`.
pub fn colorized(spool: Vec<V2d>) -> (yarns: Yarns)
    requires
        forall|i: int|
            0 <= i < spool.len() ==> -32765 <= (#[trigger] spool[i])[0] && -32765 <= spool[i][1],
    ensures
        yarns.blue@ == spool@,
        pts2(yarns.red@) == red_of(pts2(spool@)),
{
    let reflect: [[i16; 2]; 2] = [[-1, 0], [0, -1]];
    let shift: V2d = [0, 2];
    let reflected: Vec<V2d> = dot(&spool, &reflect);
    let red: Vec<V2d> = add_to_rows(&reflected, &shift);
    proof {
        assert(pts2(red@) =~= red_of(pts2(spool@)));
    }
    Yarns { blue: spool, red }
}

impl Yarns {
    /// The template of the given colour.
    pub fn get(&self, color: Color) -> (yarn: &Yarn)
        ensures
            yarn@ == self.of(color),
    {
        match color {
            Color::Blue => &self.blue,
            Color::Red => &self.red,
        }
    }

    /// The points of the template of the given colour.
    pub open spec fn of(&self, color: Color) -> Seq<V2d> {
        match color {
            Color::Blue => self.blue@,
            Color::Red => self.red@,
        }
    }
}

} // verus!
