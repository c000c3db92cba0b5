use vstd::prelude::*;
use crate::ratio::Ratio;
use crate::scale::{Scale, MAX_COORD, MAX_DEN, MAX_NUM, value_ok, lemma_mul_bound};

verus! {

/// Length of a primary tick, in tenths of a drawing unit.
pub const BASE_TICK_LENGTH: i64 = 200;

/// Length of the middle tick of a run of secondary ticks: three quarters of the base.
pub const MIDDLE_TICK_LENGTH: i64 = 150;

/// Length of the other secondary ticks: half the base.
pub const MINOR_TICK_LENGTH: i64 = 100;

/// Distance from the scale's line to a primary tick's label: six fifths of the base.
pub const LABEL_DISTANCE: i64 = 240;

/// Index of the secondary tick drawn at middle length.
pub const MIDDLE_TICK: usize = 5;

/// Number of parts into which the space after a primary tick is divided.
pub const SECONDARY_TICKS: usize = 10;

/// Largest number of parts into which one call divides its interval.
pub const MAX_TICKS: usize = 10_000;

/// Largest magnitude of an end of the interval given to a primary call.
pub const PRIMARY_BOUND: i128 = 1_000_000_000_000_000;

/// Largest denominator of the interval given to a primary call.
pub const PRIMARY_DEN: i128 = 1_000_000;

/// Largest magnitude of an end of the interval given to a secondary call.
pub const SECONDARY_BOUND: i128 = 100_000_000_000_000_000_000;

/// Largest denominator of the interval given to a secondary call.
pub const SECONDARY_DEN: i128 = 10_000_000_000;

/// The level of subdivision that a call draws.
#[derive(Clone, Copy, Debug, PartialEq, Eq)]
pub enum Division {
    /// Labelled ticks on both ends and between, with a secondary run after each.
    Primary,
    /// Unlabelled ticks strictly between the ends.
    Secondary,
}

/// What a call hands to the drawing surface.
///
/// `at` is the domain value where the item stands; the surface position is
/// the scale's offset of it.
#[derive(Clone, Copy, Debug, PartialEq, Eq)]
pub enum Primitive {
    /// A tick drawn from the scale's line across it by `length`.
    Segment { at: Ratio, length: i64 },
    /// The text of the domain value `at`, centred at height `y`.
    Label { at: Ratio, y: i64 },
}

pub open spec fn rank(d: Division) -> nat {
    match d {
        Division::Primary => 1,
        Division::Secondary => 0,
    }
}

/// The interval `[lo / den, hi / den]` is one that a call of `d` accepts.
pub open spec fn interval_ok(d: Division, lo: int, hi: int, den: int) -> bool {
    match d {
        Division::Primary => -PRIMARY_BOUND <= lo <= PRIMARY_BOUND && -PRIMARY_BOUND <= hi
            <= PRIMARY_BOUND && 0 < den <= PRIMARY_DEN,
        Division::Secondary => -SECONDARY_BOUND <= lo <= SECONDARY_BOUND && -SECONDARY_BOUND
            <= hi <= SECONDARY_BOUND && 0 < den <= SECONDARY_DEN,
    }
}

/// The numerator of tick `i` of `n` on `[lo / den, hi / den]`, over the
/// denominator `den * n`: the point `lo + i * (hi - lo) / n`.
pub open spec fn tick_num(lo: int, hi: int, n: int, i: int) -> int {
    lo * (n - i) + hi * i
}

/// The index of the first tick that a call of `d` draws.
pub open spec fn first_tick(d: Division) -> int {
    match d {
        Division::Primary => 0,
        Division::Secondary => 1,
    }
}

/// The number of ticks that a call of `d` draws on `n` parts: both ends
/// included for a primary call, both left out for a secondary one.
pub open spec fn tick_count(d: Division, n: int) -> nat {
    match d {
        Division::Primary => (n + 1) as nat,
        Division::Secondary => if n >= 1 {
            (n - 1) as nat
        } else {
            0
        },
    }
}

/// The length of tick `i` of a call of `d`, negated on a flipped scale.
pub open spec fn tick_length(d: Division, i: int, flip: bool) -> int {
    let base = match d {
        Division::Primary => BASE_TICK_LENGTH as int,
        Division::Secondary => if i == MIDDLE_TICK {
            MIDDLE_TICK_LENGTH as int
        } else {
            MINOR_TICK_LENGTH as int
        },
    };
    if flip {
        -base
    } else {
        base
    }
}

impl Scale {
    /// The domain value of tick `i` of `n` on `[lo / den, hi / den]`.
    pub open spec fn tick_at(&self, lo: int, hi: int, den: int, n: int, i: int) -> Ratio {
        Ratio { num: tick_num(lo, hi, n, i) as i128, den: (den * n) as i128 }
    }

    pub open spec fn segment(
        &self,
        d: Division,
        lo: int,
        hi: int,
        den: int,
        n: int,
        i: int,
    ) -> Primitive {
        Primitive::Segment {
            at: self.tick_at(lo, hi, den, n, i),
            length: tick_length(d, i, self.flip) as i64,
        }
    }

    /// The ticks of one call, in order.
    pub open spec fn segments(
        &self,
        d: Division,
        lo: int,
        hi: int,
        den: int,
        n: int,
    ) -> Seq<Primitive> {
        Seq::new(tick_count(d, n), |k: int| self.segment(d, lo, hi, den, n, first_tick(d) + k))
    }

    /// The label of primary tick `i`, just past the tick's far end.
    pub open spec fn label(&self, lo: int, hi: int, den: int, n: int, i: int) -> Primitive {
        Primitive::Label {
            at: self.tick_at(lo, hi, den, n, i),
            y: (self.y_offset + if self.flip {
                -LABEL_DISTANCE
            } else {
                LABEL_DISTANCE as int
            }) as i64,
        }
    }

    /// Primary tick `i` stands below the scale's own end.
    pub open spec fn below_end(&self, lo: int, hi: int, den: int, n: int, i: int) -> bool {
        tick_num(lo, hi, n, i) < self.end * (den * n)
    }

    /// The labels of a primary call, one per tick, in tick order.
    pub open spec fn tick_labels(&self, lo: int, hi: int, den: int, n: int) -> Seq<Primitive> {
        Seq::new((n + 1) as nat, |i: int| self.label(lo, hi, den, n, i))
    }

    /// The secondary run under primary tick `i`: where the tick stands below
    /// the scale's end, a secondary call over the part after it; else nothing.
    pub open spec fn run(&self, lo: int, hi: int, den: int, n: int, i: int) -> Seq<Primitive> {
        if self.below_end(lo, hi, den, n, i) {
            self.segments(
                Division::Secondary,
                tick_num(lo, hi, n, i),
                tick_num(lo, hi, n, i + 1),
                den * n,
                SECONDARY_TICKS as int,
            )
        } else {
            Seq::empty()
        }
    }

    /// The runs under the primary ticks `0 .. k`, in order.
    pub open spec fn runs(&self, lo: int, hi: int, den: int, n: int, k: nat) -> Seq<Primitive>
        decreases k,
    {
        if k == 0 {
            Seq::empty()
        } else {
            self.runs(lo, hi, den, n, (k - 1) as nat) + self.run(lo, hi, den, n, k - 1)
        }
    }

    /// Everything that a call of `d` on `n` parts of `[lo / den, hi / den]` draws:
    /// its ticks, then for a primary call the labels of its ticks and then the
    /// run under each tick.
    pub open spec fn primitives(
        &self,
        d: Division,
        lo: int,
        hi: int,
        den: int,
        n: int,
    ) -> Seq<Primitive> {
        match d {
            Division::Primary => self.segments(d, lo, hi, den, n) + self.tick_labels(lo, hi, den, n)
                + self.runs(lo, hi, den, n, (n + 1) as nat),
            Division::Secondary => self.segments(d, lo, hi, den, n),
        }
    }
}

/// A tick's numerator, for an index up to one past the last part, stays
/// within `b * (n + 2)`, and so do its two products.
proof fn lemma_tick_bound(lo: int, hi: int, n: int, i: int, b: int)
    requires
        -b <= lo <= b,
        -b <= hi <= b,
        1 <= n,
        0 <= i <= n + 1,
    ensures
        -(b * (n + 1)) <= lo * (n - i) <= b * (n + 1),
        -(b * (n + 1)) <= hi * i <= b * (n + 1),
        -(b * (n + 2)) <= tick_num(lo, hi, n, i) <= b * (n + 2),
{
    lemma_mul_bound(lo, n - i, b, n + 1);
    lemma_mul_bound(hi, i, b, n + 1);
    assert(b * (n + 1) + b * (n + 1) <= b * (n + 2) + b * n) by (nonlinear_arith);
    assert(-(b * (n + 2)) <= tick_num(lo, hi, n, i) <= b * (n + 2)) by (nonlinear_arith)
        requires
            -b <= lo <= b,
            -b <= hi <= b,
            1 <= n,
            0 <= i <= n + 1,
            tick_num(lo, hi, n, i) == lo * (n - i) + hi * i,
    ;
}

fn tick_length_of(flip: bool, d: Division, i: usize) -> (r: i64)
    ensures
        r == tick_length(d, i as int, flip),
{
    let base = match d {
        Division::Primary => BASE_TICK_LENGTH,
        Division::Secondary => if i == MIDDLE_TICK {
            MIDDLE_TICK_LENGTH
        } else {
            MINOR_TICK_LENGTH
        },
    };
    if flip {
        -base
    } else {
        base
    }
}

/// Numerator of tick `i` of `n` on `[lo, hi]`: `lo * (n - i) + hi * i`.
fn tick_num_of(lo: i128, hi: i128, n: usize, i: usize, b: Ghost<int>) -> (r: i128)
    requires
        -b@ <= lo <= b@,
        -b@ <= hi <= b@,
        1 <= n <= MAX_TICKS,
        i <= n + 1,
        0 <= b@ <= SECONDARY_BOUND,
    ensures
        r == tick_num(lo as int, hi as int, n as int, i as int),
        -(b@ * (n + 2)) <= r <= b@ * (n + 2),
{
    proof {
        lemma_tick_bound(lo as int, hi as int, n as int, i as int, b@);
        lemma_mul_bound(b@, n + 1, SECONDARY_BOUND as int, MAX_TICKS + 1);
        lemma_mul_bound(b@, n + 2, SECONDARY_BOUND as int, MAX_TICKS + 2);
    }
    let ni = n as i128;
    let ii = i as i128;
    lo * (ni - ii) + hi * ii
}

impl Scale {
    /// Draws `[lo / den, hi / den]` divided into `ticks` equal parts at the
    /// level `division`: first its ticks; then, for a primary call, the label
    /// of each tick, and then, for each tick that stands below the scale's
    /// end, a secondary call over the part after it.
    pub fn generate(&self, division: Division, lo: i128, hi: i128, den: i128, ticks: usize) -> (out:
        Vec<Primitive>)
        requires
            self.wf(),
            interval_ok(division, lo as int, hi as int, den as int),
            1 <= ticks <= MAX_TICKS,
        ensures
            out@ == self.primitives(division, lo as int, hi as int, den as int, ticks as int),
        decreases rank(division),
    {
        let b: Ghost<int> = Ghost(
            match division {
                Division::Primary => PRIMARY_BOUND as int,
                Division::Secondary => SECONDARY_BOUND as int,
            },
        );
        proof {
            lemma_mul_bound(den as int, ticks as int, SECONDARY_DEN as int, MAX_TICKS as int);
        }
        let sub_den = den * (ticks as i128);
        let first: usize = match division {
            Division::Primary => 0,
            Division::Secondary => 1,
        };
        let stop: usize = match division {
            Division::Primary => ticks + 1,
            Division::Secondary => ticks,
        };
        let ghost segs = self.segments(division, lo as int, hi as int, den as int, ticks as int);
        let mut out: Vec<Primitive> = Vec::new();
        let mut i: usize = first;
        while i < stop
            invariant
                first <= i <= stop,
                first == first_tick(division),
                stop == first + tick_count(division, ticks as int),
                -b@ <= lo <= b@,
                -b@ <= hi <= b@,
                0 <= b@ <= SECONDARY_BOUND,
                1 <= ticks <= MAX_TICKS,
                sub_den == den * ticks,
                out@.len() == i - first,
                forall|k: int|
                    0 <= k < i - first ==> out@[k] == self.segment(
                        division,
                        lo as int,
                        hi as int,
                        den as int,
                        ticks as int,
                        first + k,
                    ),
            decreases stop - i,
        {
            let num = tick_num_of(lo, hi, ticks, i, b);
            let length = tick_length_of(self.flip, division, i);
            out.push(Primitive::Segment { at: Ratio { num, den: sub_den }, length });
            i += 1;
        }
        assert(out@ =~= segs);
        match division {
            Division::Primary => {
                let end = self.end as i128;
                let label_y = if self.flip {
                    self.y_offset - LABEL_DISTANCE
                } else {
                    self.y_offset + LABEL_DISTANCE
                };
                let ghost row = self.tick_labels(lo as int, hi as int, den as int, ticks as int);
                let mut i: usize = 0;
                while i <= ticks
                    invariant
                        i <= ticks + 1,
                        -b@ <= lo <= b@,
                        -b@ <= hi <= b@,
                        0 <= b@ <= SECONDARY_BOUND,
                        1 <= ticks <= MAX_TICKS,
                        sub_den == den * ticks,
                        label_y == self.y_offset + if self.flip {
                            -LABEL_DISTANCE
                        } else {
                            LABEL_DISTANCE as int
                        },
                        segs == self.segments(
                            division,
                            lo as int,
                            hi as int,
                            den as int,
                            ticks as int,
                        ),
                        division == Division::Primary,
                        row == self.tick_labels(lo as int, hi as int, den as int, ticks as int),
                        out@.len() == segs.len() + i,
                        forall|k: int| 0 <= k < segs.len() ==> out@[k] == segs[k],
                        forall|k: int| 0 <= k < i ==> out@[segs.len() + k] == row[k],
                    decreases ticks + 1 - i,
                {
                    let num = tick_num_of(lo, hi, ticks, i, b);
                    out.push(Primitive::Label { at: Ratio { num, den: sub_den }, y: label_y });
                    i += 1;
                }
                assert(out@ =~= segs + row);
                let mut i: usize = 0;
                while i <= ticks
                    invariant
                        i <= ticks + 1,
                        division == Division::Primary,
                        self.wf(),
                        interval_ok(division, lo as int, hi as int, den as int),
                        1 <= ticks <= MAX_TICKS,
                        b@ == PRIMARY_BOUND,
                        sub_den == den * ticks,
                        end == self.end,
                        out@ == segs + row + self.runs(
                            lo as int,
                            hi as int,
                            den as int,
                            ticks as int,
                            i as nat,
                        ),
                    decreases ticks + 1 - i,
                {
                    let ghost before = out@;
                    let num = tick_num_of(lo, hi, ticks, i, b);
                    proof {
                        lemma_mul_bound(den as int, ticks as int, PRIMARY_DEN as int, MAX_TICKS as int);
                        assert(den * ticks > 0) by (nonlinear_arith)
                            requires
                                den > 0,
                                ticks > 0,
                        ;
                        lemma_mul_bound(
                            end as int,
                            sub_den as int,
                            MAX_COORD as int,
                            SECONDARY_DEN as int,
                        );
                        lemma_mul_bound(b@, ticks + 2, PRIMARY_BOUND as int, MAX_TICKS + 2);
                    }
                    if num < end * sub_den {
                        let next = tick_num_of(lo, hi, ticks, i + 1, b);
                        let mut sub = self.generate(
                            Division::Secondary,
                            num,
                            next,
                            sub_den,
                            SECONDARY_TICKS,
                        );
                        out.append(&mut sub);
                    }
                    assert(out@ =~= before + self.run(
                        lo as int,
                        hi as int,
                        den as int,
                        ticks as int,
                        i as int,
                    ));
                    i += 1;
                }
            },
            Division::Secondary => {},
        }
        out
    }
}

/// Holds of the labels among primitives.
pub open spec fn label_pred() -> spec_fn(Primitive) -> bool {
    |p: Primitive| p is Label
}

/// The labels among `s`, in order.
pub open spec fn labels(s: Seq<Primitive>) -> Seq<Primitive> {
    s.filter(label_pred())
}

proof fn lemma_no_labels(s: Seq<Primitive>)
    requires
        forall|k: int| 0 <= k < s.len() ==> s[k] is Segment,
    ensures
        labels(s) == Seq::<Primitive>::empty(),
    decreases s.len(),
{
    reveal(Seq::filter);
    if s.len() > 0 {
        lemma_no_labels(s.drop_last());
    }
}

proof fn lemma_all_labels(s: Seq<Primitive>)
    requires
        forall|k: int| 0 <= k < s.len() ==> s[k] is Label,
    ensures
        labels(s) == s,
    decreases s.len(),
{
    reveal(Seq::filter);
    if s.len() > 0 {
        lemma_all_labels(s.drop_last());
        assert(s.drop_last().push(s.last()) =~= s);
    }
}

/// The runs hold no label.
proof fn lemma_runs_no_labels(s: Scale, lo: int, hi: int, den: int, n: int, k: nat)
    ensures
        labels(s.runs(lo, hi, den, n, k)) == Seq::<Primitive>::empty(),
    decreases k,
{
    if k > 0 {
        lemma_runs_no_labels(s, lo, hi, den, n, (k - 1) as nat);
        lemma_no_labels(s.run(lo, hi, den, n, k - 1));
        Seq::filter_distributes_over_add(
            s.runs(lo, hi, den, n, (k - 1) as nat),
            s.run(lo, hi, den, n, k - 1),
            label_pred(),
        );
        assert(Seq::<Primitive>::empty() + Seq::<Primitive>::empty() =~= Seq::<Primitive>::empty());
    }
}

/// A primary call on `n` parts starts with `n + 1` ticks, one at each end of
/// the interval and one at each point between two parts; the `n + 1` labels
/// follow, one per tick, at the tick's point and in tick order; no other
/// label comes after them.
pub proof fn lemma_primary_shape(s: Scale, lo: int, hi: int, den: int, n: int)
    requires
        s.wf(),
        interval_ok(Division::Primary, lo, hi, den),
        1 <= n,
    ensures
        s.primitives(Division::Primary, lo, hi, den, n).take(n + 1) =~= Seq::new(
            (n + 1) as nat,
            |i: int| s.segment(Division::Primary, lo, hi, den, n, i),
        ),
        s.primitives(Division::Primary, lo, hi, den, n).subrange(n + 1, 2 * n + 2) =~= Seq::new(
            (n + 1) as nat,
            |i: int| s.label(lo, hi, den, n, i),
        ),
        labels(s.primitives(Division::Primary, lo, hi, den, n)) =~= Seq::new(
            (n + 1) as nat,
            |i: int| s.label(lo, hi, den, n, i),
        ),
        forall|i: int|
            0 <= i <= n ==> (#[trigger] s.label(lo, hi, den, n, i))->Label_at == s.segment(
                Division::Primary,
                lo,
                hi,
                den,
                n,
                i,
            )->Segment_at,
{
    let segs = s.segments(Division::Primary, lo, hi, den, n);
    let row = s.tick_labels(lo, hi, den, n);
    let rest = s.runs(lo, hi, den, n, (n + 1) as nat);
    let out = s.primitives(Division::Primary, lo, hi, den, n);
    assert(out == segs + row + rest);
    assert(segs.len() == n + 1);
    assert(row.len() == n + 1);
    assert(out.take(n + 1) =~= segs);
    assert(out.subrange(n + 1, 2 * n + 2) =~= row);
    lemma_no_labels(segs);
    lemma_all_labels(row);
    lemma_runs_no_labels(s, lo, hi, den, n, (n + 1) as nat);
    Seq::filter_distributes_over_add(segs, row, label_pred());
    Seq::filter_distributes_over_add(segs + row, rest, label_pred());
    assert(Seq::<Primitive>::empty() + row =~= row);
    assert(row + Seq::<Primitive>::empty() =~= row);
}

/// A secondary call on `n` parts draws `n - 1` ticks, one at each point
/// between two parts and none at the ends, and no label.
pub proof fn lemma_secondary_shape(s: Scale, lo: int, hi: int, den: int, n: int)
    requires
        s.wf(),
        interval_ok(Division::Secondary, lo, hi, den),
        1 <= n,
    ensures
        s.primitives(Division::Secondary, lo, hi, den, n) =~= Seq::new(
            (n - 1) as nat,
            |k: int| s.segment(Division::Secondary, lo, hi, den, n, k + 1),
        ),
        labels(s.primitives(Division::Secondary, lo, hi, den, n)) == Seq::<Primitive>::empty(),
{
    lemma_no_labels(s.primitives(Division::Secondary, lo, hi, den, n));
}

/// The run under a primary tick that stands below the scale's end is exactly
/// what a secondary call on ten parts of the space from that tick to the next
/// one draws, nine ticks; under any other primary tick the run is empty.
pub proof fn lemma_secondary_under_primary(s: Scale, lo: int, hi: int, den: int, n: int, i: int)
    requires
        s.wf(),
        interval_ok(Division::Primary, lo, hi, den),
        1 <= n,
        0 <= i <= n,
    ensures
        s.below_end(lo, hi, den, n, i) ==> s.run(lo, hi, den, n, i) == s.primitives(
            Division::Secondary,
            tick_num(lo, hi, n, i),
            tick_num(lo, hi, n, i + 1),
            den * n,
            SECONDARY_TICKS as int,
        ),
        !s.below_end(lo, hi, den, n, i) ==> s.run(lo, hi, den, n, i) == Seq::<Primitive>::empty(),
        s.run(lo, hi, den, n, i).len() == if s.below_end(lo, hi, den, n, i) {
            SECONDARY_TICKS - 1
        } else {
            0
        },
{
}

/// Two calls with the same scale and the same arguments draw the same thing.
pub proof fn lemma_generate_deterministic(
    s: Scale,
    d: Division,
    lo: int,
    hi: int,
    den: int,
    n: int,
    first: Seq<Primitive>,
    second: Seq<Primitive>,
)
    requires
        first == s.primitives(d, lo, hi, den, n),
        second == s.primitives(d, lo, hi, den, n),
    ensures
        first == second,
{
}

/// Every point that a call draws at is a domain value that the mappings
/// (`linear`, `log`, `offset`) accept.
pub proof fn lemma_tick_in_range(s: Scale, d: Division, lo: int, hi: int, den: int, n: int, i: int)
    requires
        interval_ok(d, lo, hi, den),
        1 <= n <= MAX_TICKS,
        0 <= i <= n,
    ensures
        s.tick_at(lo, hi, den, n, i).num == tick_num(lo, hi, n, i),
        s.tick_at(lo, hi, den, n, i).den == den * n,
        value_ok(s.tick_at(lo, hi, den, n, i)),
{
    let b = match d {
        Division::Primary => PRIMARY_BOUND as int,
        Division::Secondary => SECONDARY_BOUND as int,
    };
    let m = match d {
        Division::Primary => PRIMARY_DEN as int,
        Division::Secondary => SECONDARY_DEN as int,
    };
    lemma_tick_bound(lo, hi, n, i, b);
    lemma_mul_bound(b, n + 2, b, MAX_TICKS + 2);
    lemma_mul_bound(den, n, m, MAX_TICKS as int);
    assert(den * n > 0) by (nonlinear_arith)
        requires
            den > 0,
            n > 0,
    ;
    assert(b * (MAX_TICKS + 2) <= MAX_NUM && m * MAX_TICKS <= MAX_DEN);
}

/// The domain value at which a primitive stands.
pub open spec fn at_of(p: Primitive) -> Ratio {
    match p {
        Primitive::Segment { at, .. } => at,
        Primitive::Label { at, .. } => at,
    }
}

/// On an interval with `0 < lo <= hi`, every tick's numerator is at least
/// `lo * n`, and it grows by `hi - lo` from one tick to the next.
proof fn lemma_tick_positive(lo: int, hi: int, n: int, i: int)
    requires
        0 < lo <= hi,
        1 <= n,
        0 <= i <= n + 1,
    ensures
        tick_num(lo, hi, n, i) >= lo * n > 0,
        tick_num(lo, hi, n, i + 1) - tick_num(lo, hi, n, i) == hi - lo,
{
    assert(tick_num(lo, hi, n, i) >= lo * n > 0) by (nonlinear_arith)
        requires
            0 < lo <= hi,
            1 <= n,
            0 <= i,
            tick_num(lo, hi, n, i) == lo * (n - i) + hi * i,
    ;
    assert(tick_num(lo, hi, n, i + 1) - tick_num(lo, hi, n, i) == hi - lo) by (nonlinear_arith)
        requires
            tick_num(lo, hi, n, i) == lo * (n - i) + hi * i,
            tick_num(lo, hi, n, i + 1) == lo * (n - (i + 1)) + hi * (i + 1),
    ;
}

/// The part after a primary tick is an interval that a secondary call accepts.
proof fn lemma_sub_interval(lo: int, hi: int, den: int, n: int, i: int)
    requires
        interval_ok(Division::Primary, lo, hi, den),
        1 <= n <= MAX_TICKS,
        0 <= i <= n,
    ensures
        interval_ok(
            Division::Secondary,
            tick_num(lo, hi, n, i),
            tick_num(lo, hi, n, i + 1),
            den * n,
        ),
{
    let b = PRIMARY_BOUND as int;
    lemma_tick_bound(lo, hi, n, i, b);
    lemma_tick_bound(lo, hi, n, i + 1, b);
    lemma_mul_bound(b, n + 2, b, MAX_TICKS + 2);
    lemma_mul_bound(den, n, PRIMARY_DEN as int, MAX_TICKS as int);
    assert(den * n > 0) by (nonlinear_arith)
        requires
            den > 0,
            n > 0,
    ;
}

proof fn lemma_segments_positive(s: Scale, d: Division, lo: int, hi: int, den: int, n: int)
    requires
        interval_ok(d, lo, hi, den),
        1 <= n <= MAX_TICKS,
        0 < lo <= hi,
    ensures
        forall|k: int|
            0 <= k < s.segments(d, lo, hi, den, n).len() ==> #[trigger] at_of(
                s.segments(d, lo, hi, den, n)[k],
            ).num > 0 && value_ok(at_of(s.segments(d, lo, hi, den, n)[k])),
{
    assert forall|k: int| 0 <= k < s.segments(d, lo, hi, den, n).len() implies #[trigger] at_of(
        s.segments(d, lo, hi, den, n)[k],
    ).num > 0 && value_ok(at_of(s.segments(d, lo, hi, den, n)[k])) by {
        let i = first_tick(d) + k;
        lemma_tick_in_range(s, d, lo, hi, den, n, i);
        lemma_tick_positive(lo, hi, n, i);
    }
}

proof fn lemma_runs_positive(s: Scale, lo: int, hi: int, den: int, n: int, k: nat)
    requires
        interval_ok(Division::Primary, lo, hi, den),
        1 <= n <= MAX_TICKS,
        0 < lo <= hi,
        k <= n + 1,
    ensures
        forall|j: int|
            0 <= j < s.runs(lo, hi, den, n, k).len() ==> #[trigger] at_of(
                s.runs(lo, hi, den, n, k)[j],
            ).num > 0 && value_ok(at_of(s.runs(lo, hi, den, n, k)[j])),
    decreases k,
{
    if k > 0 {
        let i = k - 1;
        lemma_runs_positive(s, lo, hi, den, n, (k - 1) as nat);
        let head = s.runs(lo, hi, den, n, (k - 1) as nat);
        let tail = s.run(lo, hi, den, n, i);
        if s.below_end(lo, hi, den, n, i) {
            lemma_sub_interval(lo, hi, den, n, i);
            lemma_tick_positive(lo, hi, n, i);
            lemma_segments_positive(
                s,
                Division::Secondary,
                tick_num(lo, hi, n, i),
                tick_num(lo, hi, n, i + 1),
                den * n,
                SECONDARY_TICKS as int,
            );
        }
        assert forall|j: int| 0 <= j < s.runs(lo, hi, den, n, k).len() implies #[trigger] at_of(
            s.runs(lo, hi, den, n, k)[j],
        ).num > 0 && value_ok(at_of(s.runs(lo, hi, den, n, k)[j])) by {
            if j < head.len() {
                assert(s.runs(lo, hi, den, n, k)[j] == head[j]);
            } else {
                assert(s.runs(lo, hi, den, n, k)[j] == tail[j - head.len()]);
            }
        }
    }
}

/// On an interval with `0 < lo <= hi` (for a logarithmic scale, one that
/// starts at or after the scale's start), every point that a call draws at,
/// its secondary runs included, is positive and in the mappings' range: the
/// logarithmic mapping accepts each of them.
pub proof fn lemma_ticks_positive(s: Scale, d: Division, lo: int, hi: int, den: int, n: int)
    requires
        s.wf(),
        interval_ok(d, lo, hi, den),
        1 <= n <= MAX_TICKS,
        0 < lo <= hi,
    ensures
        forall|k: int|
            0 <= k < s.primitives(d, lo, hi, den, n).len() ==> #[trigger] at_of(
                s.primitives(d, lo, hi, den, n)[k],
            ).num > 0 && value_ok(at_of(s.primitives(d, lo, hi, den, n)[k])),
{
    let out = s.primitives(d, lo, hi, den, n);
    let segs = s.segments(d, lo, hi, den, n);
    lemma_segments_positive(s, d, lo, hi, den, n);
    match d {
        Division::Primary => {
            let row = s.tick_labels(lo, hi, den, n);
            let rest = s.runs(lo, hi, den, n, (n + 1) as nat);
            lemma_runs_positive(s, lo, hi, den, n, (n + 1) as nat);
            assert forall|k: int| 0 <= k < out.len() implies #[trigger] at_of(out[k]).num > 0
                && value_ok(at_of(out[k])) by {
                assert(out == segs + row + rest);
                if k < segs.len() {
                    assert(out[k] == segs[k]);
                    assert(at_of(segs[k]).num > 0);
                } else if k < segs.len() + row.len() {
                    let i = k - segs.len();
                    assert(out[k] == row[i]);
                    assert(at_of(row[i]) == s.tick_at(lo, hi, den, n, i));
                    lemma_tick_in_range(s, d, lo, hi, den, n, i);
                    lemma_tick_positive(lo, hi, n, i);
                } else {
                    let j = k - segs.len() - row.len();
                    assert(out[k] == rest[j]);
                    assert(at_of(rest[j]).num > 0);
                }
            }
        },
        Division::Secondary => {},
    }
}

} // verus!
