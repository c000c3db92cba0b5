use vstd::prelude::*;
use crate::ratio::Ratio;

verus! {

/// Largest magnitude of a scale's bounds, width and offsets.
pub const MAX_COORD: i64 = 1_000_000_000;

/// Largest magnitude of the numerator of a domain value handed to a mapping.
pub const MAX_NUM: i128 = 10_000_000_000_000_000_000_000_000;

/// Largest denominator of a domain value handed to a mapping.
pub const MAX_DEN: i128 = 1_000_000_000_000_000;

/// How a domain value is mapped onto the drawing surface.
#[derive(Clone, Copy, Debug, PartialEq, Eq)]
pub enum Transform {
    Linear,
    Log,
}

/// A position on the drawing surface, along the scale.
#[derive(Clone, Copy, Debug, PartialEq, Eq)]
pub enum Offset {
    /// The position itself.
    Exact(Ratio),
    /// The position `width * log10(arg) / log10(base)`.
    Log { width: i64, arg: Ratio, base: Ratio },
}

/// One scale of a slide rule: a domain `[start, end]` laid over `width`
/// units of the drawing surface.
///
/// Surface coordinates are integers in tenths of a drawing unit.
pub struct Scale {
    pub label: String,
    pub transform: Transform,
    pub start: i64,
    pub end: i64,
    pub width: i64,
    pub x_offset: i64,
    pub y_offset: i64,
    pub flip: bool,
}

pub open spec fn coord_ok(v: int) -> bool {
    -MAX_COORD <= v <= MAX_COORD
}

/// A domain value that the mappings accept.
pub open spec fn value_ok(x: Ratio) -> bool {
    0 < x.den <= MAX_DEN && -MAX_NUM <= x.num <= MAX_NUM
}

pub(crate) proof fn lemma_mul_bound(a: int, b: int, ma: int, mb: int)
    requires
        -ma <= a <= ma,
        -mb <= b <= mb,
    ensures
        -(ma * mb) <= a * b <= ma * mb,
{
    assert(-(ma * mb) <= a * b <= ma * mb) by (nonlinear_arith)
        requires
            -ma <= a <= ma,
            -mb <= b <= mb,
    ;
}

impl Scale {
    /// A scale is well formed when its domain is a nonempty interval, positive
    /// for a logarithmic scale, and its numbers lie within `MAX_COORD`.
    pub open spec fn wf(&self) -> bool {
        &&& self.start < self.end
        &&& self.transform == Transform::Log ==> self.start > 0
        &&& coord_ok(self.start as int)
        &&& coord_ok(self.end as int)
        &&& coord_ok(self.width as int)
        &&& coord_ok(self.x_offset as int)
        &&& coord_ok(self.y_offset as int)
    }

    /// The numerator of `width / (end - start) * (x - start) + x_offset`,
    /// over the denominator `linear_den`.
    pub open spec fn linear_num(&self, x: Ratio) -> int {
        self.width * (x.num - self.start * x.den) + self.x_offset * (self.end - self.start) * x.den
    }

    pub open spec fn linear_den(&self, x: Ratio) -> int {
        (self.end - self.start) * x.den
    }

    /// Whether `new` takes these arguments: a nonempty domain, positive for a
    /// logarithmic scale, with its numbers within `MAX_COORD`.
    pub fn accepts(transform: Transform, start: i64, end: i64, width: i64) -> (r: bool)
        ensures
            r == (start < end && (transform == Transform::Log ==> start > 0) && coord_ok(
                start as int,
            ) && coord_ok(end as int) && coord_ok(width as int)),
    {
        let positive = match transform {
            Transform::Linear => true,
            Transform::Log => start > 0,
        };
        start < end && positive && -MAX_COORD <= start && start <= MAX_COORD && -MAX_COORD <= end
            && end <= MAX_COORD && -MAX_COORD <= width && width <= MAX_COORD
    }

    /// Builds a scale with no offsets and no flip.
    pub fn new(label: &str, transform: Transform, start: i64, end: i64, width: i64) -> (r: Scale)
        requires
            start < end,
            transform == Transform::Log ==> start > 0,
            coord_ok(start as int),
            coord_ok(end as int),
            coord_ok(width as int),
        ensures
            r.wf(),
            r.label@ == label@,
            r.transform == transform,
            r.start == start,
            r.end == end,
            r.width == width,
            r.x_offset == 0,
            r.y_offset == 0,
            !r.flip,
    {
        Scale {
            label: label.to_owned(),
            transform,
            start,
            end,
            width,
            x_offset: 0,
            y_offset: 0,
            flip: false,
        }
    }

    /// Shifts the scale along the surface by `offset`.
    pub fn with_x_offset(self, offset: i64) -> (r: Scale)
        requires
            self.wf(),
            coord_ok(offset as int),
        ensures
            r.wf(),
            r.x_offset == offset,
            r.label == self.label,
            r.transform == self.transform,
            r.start == self.start,
            r.end == self.end,
            r.width == self.width,
            r.y_offset == self.y_offset,
            r.flip == self.flip,
    {
        let mut r = self;
        r.x_offset = offset;
        r
    }

    /// Shifts the scale across the surface by `offset`.
    pub fn with_y_offset(self, offset: i64) -> (r: Scale)
        requires
            self.wf(),
            coord_ok(offset as int),
        ensures
            r.wf(),
            r.y_offset == offset,
            r.label == self.label,
            r.transform == self.transform,
            r.start == self.start,
            r.end == self.end,
            r.width == self.width,
            r.x_offset == self.x_offset,
            r.flip == self.flip,
    {
        let mut r = self;
        r.y_offset = offset;
        r
    }

    /// Sets whether ticks point the other way.
    pub fn with_flip(self, flip: bool) -> (r: Scale)
        requires
            self.wf(),
        ensures
            r.wf(),
            r.flip == flip,
            r.label == self.label,
            r.transform == self.transform,
            r.start == self.start,
            r.end == self.end,
            r.width == self.width,
            r.x_offset == self.x_offset,
            r.y_offset == self.y_offset,
    {
        let mut r = self;
        r.flip = flip;
        r
    }

    /// The linear position of `x`: `width / (end - start) * (x - start) + x_offset`.
    pub fn linear(&self, x: Ratio) -> (r: Ratio)
        requires
            self.wf(),
            value_ok(x),
        ensures
            r.wf(),
            r.num == self.linear_num(x),
            r.den == self.linear_den(x),
    {
        let s = self.start as i128;
        let e = self.end as i128;
        let w = self.width as i128;
        let xo = self.x_offset as i128;
        let range = e - s;
        proof {
            lemma_mul_bound(s as int, x.den as int, MAX_COORD as int, MAX_DEN as int);
            lemma_mul_bound(
                w as int,
                x.num - s * x.den,
                MAX_COORD as int,
                MAX_NUM + MAX_COORD * MAX_DEN,
            );
            lemma_mul_bound(xo as int, range as int, MAX_COORD as int, 2 * MAX_COORD);
            lemma_mul_bound(
                xo * range,
                x.den as int,
                MAX_COORD * (2 * MAX_COORD),
                MAX_DEN as int,
            );
            lemma_mul_bound(range as int, x.den as int, 2 * MAX_COORD, MAX_DEN as int);
            assert(range * x.den > 0) by (nonlinear_arith)
                requires
                    range > 0,
                    x.den > 0,
            ;
        }
        let num = w * (x.num - s * x.den) + xo * range * x.den;
        Ratio { num, den: range * x.den }
    }

    /// The logarithmic position of `x`: `width * log10(x / start) / log10(end / start)`.
    pub fn log(&self, x: Ratio) -> (r: Offset)
        requires
            self.wf(),
            self.start > 0,
            value_ok(x),
            x.num > 0,
        ensures
            r == (Offset::Log {
                width: self.width,
                arg: Ratio { num: x.num, den: (x.den * self.start) as i128 },
                base: Ratio { num: self.end as i128, den: self.start as i128 },
            }),
            r->arg.wf(),
            r->base.wf(),
    {
        let s = self.start as i128;
        proof {
            lemma_mul_bound(x.den as int, s as int, MAX_DEN as int, MAX_COORD as int);
            assert(x.den * s > 0) by (nonlinear_arith)
                requires
                    s > 0,
                    x.den > 0,
            ;
        }
        Offset::Log {
            width: self.width,
            arg: Ratio { num: x.num, den: x.den * s },
            base: Ratio { num: self.end as i128, den: s },
        }
    }

    /// The position of `x` on the surface, by the scale's transform.
    pub fn offset(&self, x: Ratio) -> (r: Offset)
        requires
            self.wf(),
            value_ok(x),
            self.transform == Transform::Log ==> x.num > 0,
        ensures
            self.transform == Transform::Linear ==> r == Offset::Exact(Ratio {
                num: self.linear_num(x) as i128,
                den: self.linear_den(x) as i128,
            }),
            self.transform == Transform::Log ==> r == (Offset::Log {
                width: self.width,
                arg: Ratio { num: x.num, den: (x.den * self.start) as i128 },
                base: Ratio { num: self.end as i128, den: self.start as i128 },
            }),
    {
        match self.transform {
            Transform::Linear => Offset::Exact(self.linear(x)),
            Transform::Log => self.log(x),
        }
    }
}

/// The linear mapping never decreases where the width is not negative:
/// `x <= y` gives `linear(x) <= linear(y)`.
pub proof fn lemma_linear_monotone(s: Scale, x: Ratio, y: Ratio)
    requires
        s.wf(),
        s.width >= 0,
        x.wf(),
        y.wf(),
        x.le(y),
    ensures
        s.linear_den(x) > 0,
        s.linear_den(y) > 0,
        s.linear_num(x) * s.linear_den(y) <= s.linear_num(y) * s.linear_den(x),
{
    let w = s.width as int;
    let xo = s.x_offset as int;
    let st = s.start as int;
    let r = s.end - s.start;
    assert(s.linear_den(x) > 0 && s.linear_den(y) > 0) by (nonlinear_arith)
        requires
            r > 0,
            x.den > 0,
            y.den > 0,
            s.linear_den(x) == r * x.den,
            s.linear_den(y) == r * y.den,
    ;
    assert(w * r * (x.num * y.den) <= w * r * (y.num * x.den)) by (nonlinear_arith)
        requires
            w >= 0,
            r > 0,
            x.num * y.den <= y.num * x.den,
    ;
    lemma_linear_cross(w, x.num as int, st, x.den as int, xo, r, y.den as int);
    lemma_linear_cross(w, y.num as int, st, y.den as int, xo, r, x.den as int);
    assert(x.den * y.den == y.den * x.den) by (nonlinear_arith);
}

proof fn lemma_linear_cross(w: int, xn: int, st: int, xd: int, xo: int, r: int, yd: int)
    ensures
        (w * (xn - st * xd) + xo * r * xd) * (r * yd) == w * r * (xn * yd) + xo * r * r * (xd * yd)
            - w * r * st * (xd * yd),
{
    let a = w * (xn - st * xd);
    let b = xo * r * xd;
    let c = r * yd;
    assert((a + b) * c == a * c + b * c) by (nonlinear_arith);
    assert(a == w * xn - w * (st * xd)) by (nonlinear_arith)
        requires
            a == w * (xn - st * xd),
    ;
    assert((w * xn - w * (st * xd)) * c == w * xn * c - w * (st * xd) * c) by (nonlinear_arith);
    assert(w * xn * (r * yd) == w * r * (xn * yd)) by (nonlinear_arith);
    assert(w * (st * xd) * (r * yd) == w * r * st * (xd * yd)) by (nonlinear_arith);
    assert(xo * r * xd * (r * yd) == xo * r * r * (xd * yd)) by (nonlinear_arith);
}

/// The linear mapping sends `start` to `x_offset` and `end` to `width + x_offset`.
pub proof fn lemma_linear_ends(s: Scale, x: Ratio)
    requires
        s.wf(),
        x.wf(),
    ensures
        x.is_int(s.start as int) ==> s.linear_num(x) == s.x_offset * s.linear_den(x),
        x.is_int(s.end as int) ==> s.linear_num(x) == (s.width + s.x_offset) * s.linear_den(
            x,
        ),
{
    let w = s.width as int;
    let xo = s.x_offset as int;
    let st = s.start as int;
    let en = s.end as int;
    assert(x.is_int(st) ==> s.linear_num(x) == xo * s.linear_den(x)) by (nonlinear_arith)
        requires
            s.linear_num(x) == w * (x.num - st * x.den) + xo * (en - st) * x.den,
            s.linear_den(x) == (en - st) * x.den,
            x.is_int(st) == (x.num == st * x.den),
    ;
    assert(x.is_int(en) ==> s.linear_num(x) == (w + xo) * s.linear_den(x)) by (nonlinear_arith)
        requires
            s.linear_num(x) == w * (x.num - st * x.den) + xo * (en - st) * x.den,
            s.linear_den(x) == (en - st) * x.den,
            x.is_int(en) == (x.num == en * x.den),
    ;
}

/// The logarithmic position `width * log10(x / start) / log10(end / start)`
/// never decreases: its base `end / start` exceeds 1, and its argument
/// `x / start` grows with `x`.
pub proof fn lemma_log_monotone(s: Scale, x: Ratio, y: Ratio)
    requires
        s.wf(),
        s.transform == Transform::Log,
        x.wf(),
        y.wf(),
        x.le(y),
    ensures
        s.end > s.start > 0,
        x.num * (y.den * s.start) <= y.num * (x.den * s.start),
{
    let st = s.start as int;
    assert(x.num * (y.den * st) <= y.num * (x.den * st)) by (nonlinear_arith)
        requires
            st > 0,
            x.num * y.den <= y.num * x.den,
    ;
}

/// The logarithmic position of `start` is `0`, its argument being `1`, and
/// that of `end` is `width`, its argument being the base.
pub proof fn lemma_log_ends(s: Scale, x: Ratio)
    requires
        s.wf(),
        s.transform == Transform::Log,
        x.wf(),
    ensures
        x.is_int(s.start as int) ==> x.num == x.den * s.start,
        x.is_int(s.end as int) ==> x.num * s.start == s.end * (x.den * s.start),
{
    let st = s.start as int;
    let en = s.end as int;
    assert(x.is_int(en) ==> x.num * st == en * (x.den * st)) by (nonlinear_arith)
        requires
            x.is_int(en) == (x.num == en * x.den),
    ;
}

} // verus!
