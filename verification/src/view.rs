//! The state of the view: where the chart lies in the window, how large it
//! is, which directory it shows, and where the pointer is.
//!
//! Positions count in `1 / PIXEL` of a pixel from the upper left corner of
//! the window. After every change the chart is settled again: it is never
//! smaller than the window allows, and never leaves the window.

use vstd::prelude::*;
use vstd::arithmetic::div_mod::{lemma_fundamental_div_mod, lemma_fundamental_div_mod_converse};
use crate::color::{reset_color_count, ColorCounter};
use crate::geometry::{FULL_TURN, HALF_TURN, OUTER_RADIUS, PIXEL};
use crate::layout::{arcs_of, layout, slices, CullBounds, DrawArc};
use crate::pick::{lemma_located_is_in_tree, locate, locate_path};
use crate::tree::{indices, lemma_descend_joined, lemma_descend_shortened, Tree, TreeNode};

verus! {

/// The greatest scale of a view.
pub const MAX_SCALE: u64 = 0x1_0000_0000_0000;

/// The radius, in unit radii, of the circle that is kept over the window:
/// one more than the outer ring.
pub const RIM: u64 = 6;

/// Where the chart lies in a window and how large it is, as a mathematical
/// value.
pub struct Place {
    /// Where the centre of the chart lies.
    pub center_x: int,
    pub center_y: int,
    /// The length on screen of the unit radius.
    pub scale: int,
    /// The size of the window in pixels.
    pub width: int,
    pub height: int,
}

/// `value`, brought down to `high` where it is greater and then up to `low`
/// where it is less.
pub open spec fn held_between(value: int, low: int, high: int) -> int {
    let capped = if value > high {
        high
    } else {
        value
    };
    if capped < low {
        low
    } else {
        capped
    }
}

impl Place {
    /// The shorter side of the window, in length units.
    pub open spec fn short_side(self) -> int {
        if self.width < self.height {
            self.width * PIXEL
        } else {
            self.height * PIXEL
        }
    }

    /// The least scale at which the circle of radius `RIM` is as wide as the
    /// shorter side of the window.
    pub open spec fn least_scale(self) -> int {
        (self.short_side() + (2 * RIM - 1)) / (2 * RIM as int)
    }

    /// The left edge of the square in the middle of the window.
    pub open spec fn square_left(self) -> int {
        if self.width > self.height {
            (self.width - self.height) * PIXEL / 2
        } else {
            0
        }
    }

    /// The upper edge of the square in the middle of the window.
    pub open spec fn square_top(self) -> int {
        if self.width > self.height {
            0
        } else {
            (self.height - self.width) * PIXEL / 2
        }
    }

    /// The place with its scale and centre brought back within their bounds:
    /// the scale to at least `least_scale` and at most `MAX_SCALE`, and the
    /// centre to where the circle of radius `RIM` still covers the square
    /// in the middle of the window.
    pub open spec fn settle(self) -> Place {
        let scale = held_between(self.scale, self.least_scale(), MAX_SCALE as int);
        let reach = scale * RIM;
        Place {
            scale,
            center_x: held_between(
                self.center_x,
                self.square_left() + self.short_side() - reach,
                self.square_left() + reach,
            ),
            center_y: held_between(
                self.center_y,
                self.square_top() + self.short_side() - reach,
                self.square_top() + reach,
            ),
            ..self
        }
    }

    /// Whether the scale and the centre are within their bounds.
    pub open spec fn settled(self) -> bool {
        &&& 1 <= self.width <= u32::MAX
        &&& 1 <= self.height <= u32::MAX
        &&& self.least_scale() <= self.scale <= MAX_SCALE
        &&& self.square_left() + self.short_side() - self.scale * RIM <= self.center_x
            <= self.square_left() + self.scale * RIM
        &&& self.square_top() + self.short_side() - self.scale * RIM <= self.center_y
            <= self.square_top() + self.scale * RIM
    }

    /// The place of the chart in a new window: in the middle, with a twelfth
    /// of the height to the unit radius, settled.
    pub open spec fn opening(width: int, height: int) -> Place {
        (Place {
            center_x: width * PIXEL / 2,
            center_y: height * PIXEL / 2,
            scale: height * PIXEL / 12,
            width,
            height,
        }).settle()
    }

    /// The place after the chart has been moved by `dx`, `dy`.
    pub open spec fn moved(self, dx: int, dy: int) -> Place {
        (Place { center_x: self.center_x + dx, center_y: self.center_y + dy, ..self }).settle()
    }

    /// The place after the scale has been multiplied by `ratio` thousandths
    /// about the point `x`, `y` of the window: the point of the chart that
    /// lies there stays there. Both products are rounded down.
    pub open spec fn zoomed(self, x: int, y: int, ratio: int) -> Place {
        (Place {
            scale: self.scale * ratio / 1000,
            center_x: x + (self.center_x - x) * ratio / 1000,
            center_y: y + (self.center_y - y) * ratio / 1000,
            ..self
        }).settle()
    }

    /// The place after the window has taken a new size: the scale grows with
    /// the height, and the centre moves by half of what each side has gained.
    pub open spec fn resized(self, width: int, height: int) -> Place {
        (Place {
            scale: self.scale * height / self.height,
            center_x: self.center_x + (width - self.width) * PIXEL / 2,
            center_y: self.center_y + (height - self.height) * PIXEL / 2,
            width,
            height,
        }).settle()
    }

    /// Whether the centre of the chart lies in the window.
    pub open spec fn holds_center(self) -> bool {
        &&& 0 <= self.center_x <= self.width * PIXEL
        &&& 0 <= self.center_y <= self.height * PIXEL
    }
}

/// Settling gives a settled place, and leaves a settled place as it is.
pub proof fn lemma_settle_settles(place: Place)
    requires
        1 <= place.width <= u32::MAX,
        1 <= place.height <= u32::MAX,
    ensures
        place.settle().settled(),
        place.settled() ==> place.settle() == place,
{
    let side = place.short_side();
    let least = place.least_scale();
    lemma_fundamental_div_mod(side + 11, 12);
    assert(12 * least >= side);
    assert(least <= 0x1_0000_0000_0000);
}

/// `value / divisor`, rounded down.
fn floor_div(value: i128, divisor: i128) -> (quotient: i128)
    requires
        0 < divisor <= 0x1_0000_0000,
        -0x2_0000_0000_0000_0000_0000_0000 <= value <= 0x2_0000_0000_0000_0000_0000_0000,
    ensures
        quotient == value as int / divisor as int,
        value >= 0 ==> 0 <= quotient <= value,
        value < 0 ==> value <= quotient < 0,
{
    if value >= 0 {
        proof {
            lemma_fundamental_div_mod(value as int, divisor as int);
            let whole = value as int / divisor as int;
            let rest = value as int % divisor as int;
            assert(0 <= whole <= value) by (nonlinear_arith)
                requires
                    value == divisor * whole + rest,
                    0 <= rest,
                    rest < divisor,
                    divisor >= 1,
                    value >= 0,
            ;
        }
        value / divisor
    } else {
        let above: i128 = -value + (divisor - 1);
        let up: i128 = above / divisor;
        proof {
            let rest = above as int % divisor as int;
            lemma_fundamental_div_mod(above as int, divisor as int);
            assert(value as int == (-up) * divisor + (divisor - 1 - rest)) by (nonlinear_arith)
                requires
                    above == divisor * up + rest,
                    above == -value + (divisor - 1),
            ;
            lemma_fundamental_div_mod_converse(
                value as int,
                divisor as int,
                -(up as int),
                divisor - 1 - rest,
            );
            assert(1 <= up <= -value) by (nonlinear_arith)
                requires
                    above == divisor * up + rest,
                    above == -value + (divisor - 1),
                    0 <= rest,
                    rest < divisor,
                    divisor >= 1,
                    value < 0,
            ;
        }
        -up
    }
}

/// Where the chart lies in a window and how large it is; always settled.
#[derive(Clone, Copy, Debug)]
pub struct Placement {
    center_x: i64,
    center_y: i64,
    scale: u64,
    width: u32,
    height: u32,
}

impl View for Placement {
    type V = Place;

    closed spec fn view(&self) -> Place {
        Place {
            center_x: self.center_x as int,
            center_y: self.center_y as int,
            scale: self.scale as int,
            width: self.width as int,
            height: self.height as int,
        }
    }
}

impl Placement {
    /// What every placement satisfies.
    #[verifier::type_invariant]
    pub open spec fn is_settled(self) -> bool {
        self@.settled()
    }

    /// The settled placement for the given centre and scale in a window of
    /// the given size.
    fn settling(center_x: i128, center_y: i128, scale: i128, width: u32, height: u32) -> (placed:
        Placement)
        requires
            width >= 1,
            height >= 1,
            -0x10_0000_0000_0000_0000_0000_0000 <= center_x <= 0x10_0000_0000_0000_0000_0000_0000,
            -0x10_0000_0000_0000_0000_0000_0000 <= center_y <= 0x10_0000_0000_0000_0000_0000_0000,
            -0x10_0000_0000_0000_0000_0000_0000 <= scale <= 0x10_0000_0000_0000_0000_0000_0000,
        ensures
            placed@ == (Place {
                center_x: center_x as int,
                center_y: center_y as int,
                scale: scale as int,
                width: width as int,
                height: height as int,
            }).settle(),
    {
        let ghost given = Place {
            center_x: center_x as int,
            center_y: center_y as int,
            scale: scale as int,
            width: width as int,
            height: height as int,
        };
        proof {
            lemma_settle_settles(given);
        }
        let pixel: i128 = PIXEL as i128;
        let wide: i128 = width as i128;
        let high: i128 = height as i128;
        let side: i128 = if width < height {
            wide * pixel
        } else {
            high * pixel
        };
        let least: i128 = (side + 11) / 12;
        let greatest: i128 = MAX_SCALE as i128;
        let settled_scale: i128 = if scale > greatest {
            greatest
        } else if scale < least {
            least
        } else {
            scale
        };
        let reach: i128 = settled_scale * 6;
        let left: i128 = if width > height {
            (wide - high) * pixel / 2
        } else {
            0
        };
        let top: i128 = if width > height {
            0
        } else {
            (high - wide) * pixel / 2
        };
        let capped_x: i128 = if center_x > left + reach {
            left + reach
        } else {
            center_x
        };
        let settled_x: i128 = if capped_x < left + side - reach {
            left + side - reach
        } else {
            capped_x
        };
        let capped_y: i128 = if center_y > top + reach {
            top + reach
        } else {
            center_y
        };
        let settled_y: i128 = if capped_y < top + side - reach {
            top + side - reach
        } else {
            capped_y
        };
        Placement {
            center_x: settled_x as i64,
            center_y: settled_y as i64,
            scale: settled_scale as u64,
            width,
            height,
        }
    }

    /// The placement of the chart in a new window of `width` by `height`
    /// pixels; there is none in a window without area.
    pub fn opening(width: u32, height: u32) -> (placed: Option<Placement>)
        ensures
            match placed {
                Some(placement) => width >= 1 && height >= 1 && placement@ == Place::opening(
                    width as int,
                    height as int,
                ),
                None => width == 0 || height == 0,
            },
    {
        if width == 0 || height == 0 {
            return None;
        }
        let pixel: i128 = PIXEL as i128;
        Some(
            Placement::settling(
                width as i128 * pixel / 2,
                height as i128 * pixel / 2,
                height as i128 * pixel / 12,
                width,
                height,
            ),
        )
    }

    /// The placement after the chart has been moved as far as it is from
    /// the point `from_x`, `from_y` to the point `to_x`, `to_y`.
    pub fn moved(&self, from_x: i64, from_y: i64, to_x: i64, to_y: i64) -> (placed: Placement)
        ensures
            placed@ == self@.moved(to_x - from_x, to_y - from_y),
    {
        proof {
            use_type_invariant(self);
        }
        Placement::settling(
            self.center_x as i128 + (to_x as i128 - from_x as i128),
            self.center_y as i128 + (to_y as i128 - from_y as i128),
            self.scale as i128,
            self.width,
            self.height,
        )
    }

    /// The placement after the scale has been multiplied by `ratio`
    /// thousandths about the point `x`, `y` of the window.
    pub fn zoomed(&self, x: i64, y: i64, ratio: i32) -> (placed: Placement)
        ensures
            placed@ == self@.zoomed(x as int, y as int, ratio as int),
    {
        proof {
            use_type_invariant(self);
        }
        let factor: i128 = ratio as i128;
        let from_x: i128 = self.center_x as i128 - x as i128;
        let from_y: i128 = self.center_y as i128 - y as i128;
        let size: i128 = self.scale as i128;
        proof {
            lemma_product_bounded(from_x as int, factor as int);
            lemma_product_bounded(from_y as int, factor as int);
            lemma_product_bounded(size as int, factor as int);
        }
        let scale = floor_div(size * factor, 1000);
        let center_x = x as i128 + floor_div(from_x * factor, 1000);
        let center_y = y as i128 + floor_div(from_y * factor, 1000);
        Placement::settling(center_x, center_y, scale, self.width, self.height)
    }

    /// The placement after the window has taken the size `width` by `height`
    /// pixels; `None`, where the new window has no area.
    pub fn resized(&self, width: u32, height: u32) -> (placed: Option<Placement>)
        ensures
            match placed {
                Some(placement) => width >= 1 && height >= 1 && placement@ == self@.resized(
                    width as int,
                    height as int,
                ),
                None => width == 0 || height == 0,
            },
    {
        proof {
            use_type_invariant(self);
        }
        if width == 0 || height == 0 {
            return None;
        }
        let pixel: i128 = PIXEL as i128;
        proof {
            lemma_product_bounded(self.scale as int, height as int);
        }
        let scale: i128 = floor_div(self.scale as i128 * height as i128, self.height as i128);
        let center_x: i128 = self.center_x as i128 + (width as i128 - self.width as i128) * (pixel
            / 2);
        let center_y: i128 = self.center_y as i128 + (height as i128 - self.height as i128) * (
        pixel / 2);
        proof {
            lemma_halves(width as int - self.width as int);
            lemma_halves(height as int - self.height as int);
        }
        Some(Placement::settling(center_x, center_y, scale, width, height))
    }

    /// Where the centre of the chart lies, in length units from the left edge.
    pub fn center_x(&self) -> (x: i64)
        ensures
            x == self@.center_x,
    {
        self.center_x
    }

    /// Where the centre of the chart lies, in length units from the upper edge.
    pub fn center_y(&self) -> (y: i64)
        ensures
            y == self@.center_y,
    {
        self.center_y
    }

    /// The length on screen of the unit radius.
    pub fn scale(&self) -> (scale: u64)
        ensures
            scale == self@.scale,
    {
        self.scale
    }

    /// The width of the window in pixels.
    pub fn width(&self) -> (width: u32)
        ensures
            width == self@.width,
    {
        self.width
    }

    /// The height of the window in pixels.
    pub fn height(&self) -> (height: u32)
        ensures
            height == self@.height,
    {
        self.height
    }

    /// Whether the centre of the chart lies in the window.
    pub fn holds_center(&self) -> (inside: bool)
        ensures
            inside == self@.holds_center(),
    {
        let pixel: i128 = PIXEL as i128;
        0 <= self.center_x && self.center_x as i128 <= self.width as i128 * pixel && 0
            <= self.center_y && self.center_y as i128 <= self.height as i128 * pixel
    }
}

/// A product of two factors of at most 65 and 32 bits stays well within 128
/// bits.
proof fn lemma_product_bounded(value: int, factor: int)
    requires
        -0x2_0000_0000_0000_0000 <= value <= 0x2_0000_0000_0000_0000,
        -0x1_0000_0000 <= factor <= 0x1_0000_0000,
    ensures
        -0x2_0000_0000_0000_0000_0000_0000 <= value * factor <= 0x2_0000_0000_0000_0000_0000_0000,
{
    assert(-0x2_0000_0000_0000_0000_0000_0000 <= value * factor
        <= 0x2_0000_0000_0000_0000_0000_0000) by (nonlinear_arith)
        requires
            -0x2_0000_0000_0000_0000 <= value <= 0x2_0000_0000_0000_0000,
            -0x1_0000_0000 <= factor <= 0x1_0000_0000,
    ;
}

/// Half of a whole number of pixels is a whole number of length units.
proof fn lemma_halves(pixels: int)
    ensures
        pixels * PIXEL / 2 == pixels * (PIXEL / 2),
{
    assert(pixels * 0x1_0000 / 2 == pixels * 0x8000);
}

/// A corner of the window as seen from the centre of the chart.
#[derive(Clone, Copy, Debug, PartialEq, Eq, Structural)]
pub struct Polar {
    /// The direction of the corner, in angle units from zero up to a whole
    /// turn.
    pub angle: u64,
    /// The distance of the corner, in radius units.
    pub radius: u64,
}

/// How many of the four corners lie at an angle below `angle`.
pub open spec fn corners_below(corners: Seq<Polar>, angle: int) -> int {
    (if corners[0].angle < angle { 1int } else { 0 }) + (if corners[1].angle < angle { 1int } else { 0 })
        + (if corners[2].angle < angle { 1int } else { 0 }) + (if corners[3].angle < angle { 1int } else { 0 })
}

/// How many of the four corners lie at `angle` or below.
pub open spec fn corners_up_to(corners: Seq<Polar>, angle: int) -> int {
    corners_below(corners, angle + 1)
}

/// Whether `angle` is the angle of the corner that comes at place `rank`
/// where the four corners are put in the order of their angles.
pub open spec fn has_rank(corners: Seq<Polar>, angle: u64, rank: int) -> bool {
    &&& corners[0].angle == angle || corners[1].angle == angle || corners[2].angle == angle
        || corners[3].angle == angle
    &&& corners_below(corners, angle as int) <= rank < corners_up_to(corners, angle as int)
}

/// The angle of the corner that comes at place `rank` where the four corners
/// are put in the order of their angles.
pub open spec fn ranked(corners: Seq<Polar>, rank: int) -> u64 {
    choose|angle: u64| has_rank(corners, angle, rank)
}

/// The greatest distance of the four corners.
pub open spec fn farthest(corners: Seq<Polar>) -> u64 {
    let first = if corners[0].radius >= corners[1].radius {
        corners[0].radius
    } else {
        corners[1].radius
    };
    let second = if corners[2].radius >= corners[3].radius {
        corners[2].radius
    } else {
        corners[3].radius
    };
    if first >= second {
        first
    } else {
        second
    }
}

/// The part of the chart that a window shows, from its four corners as seen
/// from the centre of the chart.
///
/// No point of the window is further from the centre than its farthest
/// corner. Where the centre lies in the window, every angle is seen.
/// Otherwise the window lies between the least and the greatest angle of its
/// corners, unless these two are more than half a turn apart: then the window
/// lies across the zero angle, between the third and the second of the
/// corners in the order of their angles.
pub open spec fn visible_part(holds_center: bool, corners: Seq<Polar>) -> CullBounds {
    if holds_center {
        CullBounds { max_radius: farthest(corners), min_angle: 0, max_angle: FULL_TURN }
    } else if ranked(corners, 3) - ranked(corners, 0) > HALF_TURN {
        CullBounds {
            max_radius: farthest(corners),
            min_angle: ranked(corners, 2),
            max_angle: ranked(corners, 1),
        }
    } else {
        CullBounds {
            max_radius: farthest(corners),
            min_angle: ranked(corners, 0),
            max_angle: ranked(corners, 3),
        }
    }
}

/// There is one angle at each place in the order of the corners.
pub proof fn lemma_rank_is_unique(corners: Seq<Polar>, angle: u64, rank: int)
    requires
        has_rank(corners, angle, rank),
    ensures
        ranked(corners, rank) == angle,
{
    let chosen = ranked(corners, rank);
    assert(has_rank(corners, chosen, rank));
    if chosen < angle {
        assert(corners_up_to(corners, chosen as int) <= corners_below(corners, angle as int));
    } else if angle < chosen {
        assert(corners_up_to(corners, angle as int) <= corners_below(corners, chosen as int));
    }
}

/// The part of the chart that a window shows.
pub fn visible_from(holds_center: bool, corners: &[Polar; 4]) -> (bounds: CullBounds)
    ensures
        bounds == visible_part(holds_center, corners@),
{
    let first = if corners[0].radius >= corners[1].radius {
        corners[0].radius
    } else {
        corners[1].radius
    };
    let second = if corners[2].radius >= corners[3].radius {
        corners[2].radius
    } else {
        corners[3].radius
    };
    let max_radius = if first >= second {
        first
    } else {
        second
    };
    if holds_center {
        return CullBounds { max_radius, min_angle: 0, max_angle: FULL_TURN };
    }
    let (low_a, high_a) = in_order(corners[0].angle, corners[1].angle);
    let (low_b, high_b) = in_order(corners[2].angle, corners[3].angle);
    let (least, inner_a) = in_order(low_a, low_b);
    let (inner_b, greatest) = in_order(high_a, high_b);
    let (second_angle, third_angle) = in_order(inner_a, inner_b);
    proof {
        assert(has_rank(corners@, least, 0));
        assert(has_rank(corners@, second_angle, 1));
        assert(has_rank(corners@, third_angle, 2));
        assert(has_rank(corners@, greatest, 3));
        lemma_rank_is_unique(corners@, least, 0);
        lemma_rank_is_unique(corners@, second_angle, 1);
        lemma_rank_is_unique(corners@, third_angle, 2);
        lemma_rank_is_unique(corners@, greatest, 3);
    }
    if greatest - least > HALF_TURN {
        CullBounds { max_radius, min_angle: third_angle, max_angle: second_angle }
    } else {
        CullBounds { max_radius, min_angle: least, max_angle: greatest }
    }
}

/// Two angles, the lesser first.
fn in_order(one: u64, other: u64) -> (pair: (u64, u64))
    ensures
        pair.0 <= pair.1,
        (pair.0 == one && pair.1 == other) || (pair.0 == other && pair.1 == one),
{
    if one <= other {
        (one, other)
    } else {
        (other, one)
    }
}

/// A button of the pointer.
#[derive(Clone, Copy, Debug, PartialEq, Eq, Structural)]
pub enum PointerButton {
    Left,
    Middle,
    Right,
    Other,
}

/// What a press of a button did to the directory shown.
#[derive(Clone, Copy, Debug, PartialEq, Eq, Structural)]
pub enum Click {
    /// Nothing: the button was not the left one, the pointer was outside the
    /// chart, or the directory shown is not in the tree.
    Missed,
    /// The pointer was within the ring of the directory shown: its parent
    /// is shown now, unless it was the root.
    Out,
    /// The pointer was on a node further out: that node is shown now.
    In,
}

/// The bounds that leave nothing out of the drawing.
pub open spec fn everything() -> CullBounds {
    CullBounds { max_radius: u64::MAX, min_angle: 0, max_angle: u64::MAX }
}

/// The state of a view as a mathematical value.
///
/// The visible part follows from the place of the chart, but takes the
/// directions of the corners of the window to work out. So every change of
/// the place leaves nothing out of the drawing, until the corners are seen
/// from the new place.
pub struct ViewModel {
    /// Where the chart lies and how large it is.
    pub place: Place,
    /// The child indices that lead from the root to the directory shown.
    pub path: Seq<int>,
    /// The part of the chart that the window shows.
    pub cull: CullBounds,
    /// Where the pointer was seen last.
    pub pointer_x: int,
    pub pointer_y: int,
    /// Which buttons are held down.
    pub left: bool,
    pub middle: bool,
    pub right: bool,
}

impl ViewModel {
    /// The view of a new window: the chart in the middle, the root shown,
    /// the pointer in the middle, no button held, nothing left out.
    pub open spec fn opening(width: int, height: int) -> ViewModel {
        ViewModel {
            place: Place::opening(width, height),
            path: Seq::empty(),
            cull: everything(),
            pointer_x: width * PIXEL / 2,
            pointer_y: height * PIXEL / 2,
            left: false,
            middle: false,
            right: false,
        }
    }

    /// The view after the pointer has moved to `x`, `y`: while the left
    /// button is held, the chart moves with the pointer.
    pub open spec fn pointer_moved(self, x: int, y: int) -> ViewModel {
        if self.left {
            ViewModel {
                place: self.place.moved(x - self.pointer_x, y - self.pointer_y),
                cull: everything(),
                pointer_x: x,
                pointer_y: y,
                ..self
            }
        } else {
            ViewModel { pointer_x: x, pointer_y: y, ..self }
        }
    }

    /// The view after the wheel has turned: the scale is multiplied by
    /// `ratio` thousandths about the pointer.
    pub open spec fn scrolled(self, ratio: int) -> ViewModel {
        ViewModel {
            place: self.place.zoomed(self.pointer_x, self.pointer_y, ratio),
            cull: everything(),
            ..self
        }
    }

    /// The view after the window has taken a new size; a size without area
    /// changes nothing.
    pub open spec fn resized(self, width: int, height: int) -> ViewModel {
        if width >= 1 && height >= 1 {
            ViewModel { place: self.place.resized(width, height), cull: everything(), ..self }
        } else {
            self
        }
    }

    /// The view with the visible part as it follows from the four corners
    /// of the window.
    pub open spec fn culled(self, corners: Seq<Polar>) -> ViewModel {
        ViewModel { cull: visible_part(self.place.holds_center(), corners), ..self }
    }

    /// The view with `button` held down or let go.
    pub open spec fn with_button(self, button: PointerButton, held: bool) -> ViewModel {
        match button {
            PointerButton::Left => ViewModel { left: held, ..self },
            PointerButton::Middle => ViewModel { middle: held, ..self },
            PointerButton::Right => ViewModel { right: held, ..self },
            PointerButton::Other => self,
        }
    }

    /// What a press of the left button at `angle` and `radius` finds in the
    /// tree `root`: the path from the directory shown to the node under the
    /// pointer. Nothing is searched where the pointer is outside the chart or
    /// the directory shown is not in the tree.
    pub open spec fn found(self, root: Tree, angle: int, radius: int) -> Option<Seq<int>> {
        if radius <= OUTER_RADIUS {
            match root.descend(self.path) {
                Some(shown) => Some(locate_path(shown, angle, radius, 1, 0, FULL_TURN as int)),
                None => None,
            }
        } else {
            None
        }
    }

    /// The view after `button` has been pressed with the pointer at `angle`
    /// and `radius` from the centre of the chart. The left button shows what
    /// is under the pointer: the node found, or, where the pointer is within
    /// the ring of the directory shown, its parent.
    pub open spec fn pressed(self, button: PointerButton, root: Tree, angle: int, radius: int) -> ViewModel {
        let held = self.with_button(button, true);
        if button == PointerButton::Left {
            match self.found(root, angle, radius) {
                Some(further) => {
                    if further.len() > 0 {
                        ViewModel { path: self.path + further, ..held }
                    } else if self.path.len() > 0 {
                        ViewModel { path: self.path.drop_last(), ..held }
                    } else {
                        held
                    }
                },
                None => held,
            }
        } else {
            held
        }
    }

    /// The path from the root to the node that the pointer at `angle` and
    /// `radius` is over: the directory shown, unless a node further out is
    /// found.
    pub open spec fn hovered(self, root: Tree, angle: int, radius: int) -> Seq<int> {
        match self.found(root, angle, radius) {
            Some(further) => self.path + further,
            None => self.path,
        }
    }
}

/// A press of a button never leads out of the tree: where the directory
/// shown is in the tree before, what is shown afterwards is in the tree too.
pub proof fn lemma_pressed_stays_in_tree(
    model: ViewModel,
    button: PointerButton,
    root: Tree,
    angle: int,
    radius: int,
)
    requires
        root.descend(model.path) is Some,
    ensures
        root.descend(model.pressed(button, root, angle, radius).path) is Some,
        root.descend(model.hovered(root, angle, radius)) is Some,
{
    match model.found(root, angle, radius) {
        Some(further) => {
            let shown = root.descend(model.path)->0;
            lemma_located_is_in_tree(shown, angle, radius, 1, 0, FULL_TURN as int);
            lemma_descend_joined(root, model.path, further);
            if model.path.len() > 0 {
                lemma_descend_shortened(root, model.path);
            }
        },
        None => {},
    }
}

/// The state of a view.
#[derive(Clone, Debug)]
pub struct ViewState {
    placement: Placement,
    cull: CullBounds,
    path: Vec<usize>,
    pointer_x: i64,
    pointer_y: i64,
    left: bool,
    middle: bool,
    right: bool,
}

impl View for ViewState {
    type V = ViewModel;

    closed spec fn view(&self) -> ViewModel {
        ViewModel {
            place: self.placement@,
            path: indices(self.path@),
            cull: self.cull,
            pointer_x: self.pointer_x as int,
            pointer_y: self.pointer_y as int,
            left: self.left,
            middle: self.middle,
            right: self.right,
        }
    }
}

impl ViewState {
    /// The view of a new window of `width` by `height` pixels; there is none
    /// of a window without area.
    pub fn opening(width: u32, height: u32) -> (opened: Option<ViewState>)
        ensures
            match opened {
                Some(view) => width >= 1 && height >= 1 && view@ == ViewModel::opening(
                    width as int,
                    height as int,
                ),
                None => width == 0 || height == 0,
            },
    {
        let placement = match Placement::opening(width, height) {
            Some(placement) => placement,
            None => {
                return None;
            },
        };
        let view = ViewState {
            placement,
            cull: CullBounds::everything(),
            path: Vec::new(),
            pointer_x: (width as i64 * PIXEL as i64) / 2,
            pointer_y: (height as i64 * PIXEL as i64) / 2,
            left: false,
            middle: false,
            right: false,
        };
        assert(view@.path =~= Seq::empty());
        Some(view)
    }

    /// The pointer has moved to `x`, `y`.
    pub fn pointer_moved(&mut self, x: i64, y: i64)
        ensures
            final(self)@ == old(self)@.pointer_moved(x as int, y as int),
    {
        if self.left {
            self.placement = self.placement.moved(self.pointer_x, self.pointer_y, x, y);
            self.cull = CullBounds::everything();
        }
        self.pointer_x = x;
        self.pointer_y = y;
    }

    /// The wheel has turned by what multiplies the scale by `ratio`
    /// thousandths.
    pub fn scrolled(&mut self, ratio: i32)
        ensures
            final(self)@ == old(self)@.scrolled(ratio as int),
    {
        self.placement = self.placement.zoomed(self.pointer_x, self.pointer_y, ratio);
        self.cull = CullBounds::everything();
    }

    /// The window has taken the size `width` by `height` pixels.
    pub fn resized(&mut self, width: u32, height: u32)
        ensures
            final(self)@ == old(self)@.resized(width as int, height as int),
    {
        match self.placement.resized(width, height) {
            Some(placement) => {
                self.placement = placement;
                self.cull = CullBounds::everything();
            },
            None => {},
        }
    }

    /// Takes the four corners of the window, as seen from the centre of the
    /// chart, for the part of the chart that is visible.
    pub fn see_corners(&mut self, corners: &[Polar; 4])
        ensures
            final(self)@ == old(self)@.culled(corners@),
    {
        self.cull = visible_from(self.placement.holds_center(), corners);
    }

    /// `button` has been let go.
    pub fn button_up(&mut self, button: PointerButton)
        ensures
            final(self)@ == old(self)@.with_button(button, false),
    {
        match button {
            PointerButton::Left => {
                self.left = false;
            },
            PointerButton::Middle => {
                self.middle = false;
            },
            PointerButton::Right => {
                self.right = false;
            },
            PointerButton::Other => {},
        }
    }

    /// The path from the directory shown to the node under the pointer at
    /// `angle` and `radius`.
    fn find(&self, root: &TreeNode, angle: u64, radius: u64) -> (further: Option<Vec<usize>>)
        ensures
            match further {
                Some(path) => self@.found(root@, angle as int, radius as int) == Some(
                    indices(path@),
                ),
                None => self@.found(root@, angle as int, radius as int) is None,
            },
    {
        if radius > OUTER_RADIUS {
            return None;
        }
        match root.resolve(&self.path) {
            Some(shown) => Some(locate(shown, angle, radius, 1, 0, FULL_TURN)),
            None => None,
        }
    }

    /// `button` has been pressed with the pointer at `angle` and `radius`
    /// from the centre of the chart, over the chart of the tree `root`.
    pub fn button_down(
        &mut self,
        button: PointerButton,
        root: &TreeNode,
        angle: u64,
        radius: u64,
    ) -> (click: Click)
        ensures
            final(self)@ == old(self)@.pressed(button, root@, angle as int, radius as int),
            click == (if button == PointerButton::Left {
                match old(self)@.found(root@, angle as int, radius as int) {
                    Some(further) => if further.len() > 0 {
                        Click::In
                    } else {
                        Click::Out
                    },
                    None => Click::Missed,
                }
            } else {
                Click::Missed
            }),
    {
        match button {
            PointerButton::Left => {
                self.left = true;
                let found = self.find(root, angle, radius);
                match found {
                    Some(mut further) => {
                        let ghost before = indices(self.path@);
                        let ghost added = indices(further@);
                        if further.len() == 0 {
                            self.path.pop();
                            assert(indices(self.path@) =~= if before.len() > 0 {
                                before.drop_last()
                            } else {
                                before
                            });
                            Click::Out
                        } else {
                            self.path.append(&mut further);
                            assert(indices(self.path@) =~= before + added);
                            Click::In
                        }
                    },
                    None => Click::Missed,
                }
            },
            PointerButton::Middle => {
                self.middle = true;
                Click::Missed
            },
            PointerButton::Right => {
                self.right = true;
                Click::Missed
            },
            PointerButton::Other => Click::Missed,
        }
    }

    /// The path from the root to the node that the pointer at `angle` and
    /// `radius` is over.
    pub fn hovered(&self, root: &TreeNode, angle: u64, radius: u64) -> (path: Vec<usize>)
        ensures
            indices(path@) == self@.hovered(root@, angle as int, radius as int),
    {
        let mut path = self.path.clone();
        assert(indices(path@) =~= indices(self.path@));
        match self.find(root, angle, radius) {
            Some(mut further) => {
                let ghost before = indices(path@);
                let ghost added = indices(further@);
                path.append(&mut further);
                assert(indices(path@) =~= before + added);
            },
            None => {},
        }
        path
    }

    /// The arcs of one frame: the layout of the directory shown over the
    /// whole turn, coloured from zero on. The frame depends on the tree and
    /// the view alone, whatever `colors` held before. There is no frame
    /// where the directory shown is not in the tree.
    pub fn frame(&self, root: &TreeNode, colors: &mut ColorCounter) -> (arcs: Option<Vec<DrawArc>>)
        ensures
            match arcs {
                Some(drawn) => root@.descend(self@.path) is Some && drawn@ == arcs_of(
                    slices(
                        root@.descend(self@.path)->0,
                        1,
                        0,
                        0,
                        FULL_TURN as int,
                        true,
                        self@.place.scale,
                        self@.cull,
                    ),
                    0,
                ),
                None => root@.descend(self@.path) is None,
            },
            arcs matches Some(drawn) ==> final(colors).upcoming() == crate::color::color_after(
                0,
                drawn@.len(),
            ),
            arcs is None ==> final(colors).upcoming() == old(colors).upcoming(),
    {
        let shown = match root.resolve(&self.path) {
            Some(shown) => shown,
            None => {
                return None;
            },
        };
        reset_color_count(colors);
        let scale = self.placement.scale();
        Some(layout(shown, 1, 0, FULL_TURN, true, scale, &self.cull, colors))
    }

    /// Where the chart lies and how large it is.
    pub fn placement(&self) -> (placement: Placement)
        ensures
            placement@ == self@.place,
            placement@.settled(),
    {
        proof {
            use_type_invariant(self.placement);
        }
        self.placement
    }

    /// The part of the chart that the window shows.
    pub fn cull(&self) -> (cull: CullBounds)
        ensures
            cull == self@.cull,
    {
        self.cull
    }

    /// The child indices that lead from the root to the directory shown.
    pub fn path(&self) -> (path: &Vec<usize>)
        ensures
            indices(path@) == self@.path,
    {
        &self.path
    }

    /// Where the pointer was seen last.
    pub fn pointer(&self) -> (at: (i64, i64))
        ensures
            at.0 == self@.pointer_x,
            at.1 == self@.pointer_y,
    {
        (self.pointer_x, self.pointer_y)
    }

    /// Whether `button` is held down. No account is kept of other buttons.
    pub fn is_held(&self, button: PointerButton) -> (held: bool)
        ensures
            held == match button {
                PointerButton::Left => self@.left,
                PointerButton::Middle => self@.middle,
                PointerButton::Right => self@.right,
                PointerButton::Other => false,
            },
    {
        match button {
            PointerButton::Left => self.left,
            PointerButton::Middle => self.middle,
            PointerButton::Right => self.right,
            PointerButton::Other => false,
        }
    }
}

} // verus!
