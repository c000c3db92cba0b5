use slide_scale::{Division, Offset, Primitive, Ratio, Scale, Transform};

fn value(r: Ratio) -> f64 {
    r.num as f64 / r.den as f64
}

fn segment_parts(p: &Primitive) -> (Ratio, i64) {
    match p {
        Primitive::Segment { at, length } => (*at, *length),
        Primitive::Label { .. } => panic!("expected a segment, found {:?}", p),
    }
}

fn label_parts(p: &Primitive) -> (Ratio, i64) {
    match p {
        Primitive::Label { at, y } => (*at, *y),
        Primitive::Segment { .. } => panic!("expected a label, found {:?}", p),
    }
}

fn l_scale() -> Scale {
    Scale::new("L", Transform::Linear, 0, 10, 5000)
}

fn c_scale() -> Scale {
    Scale::new("C", Transform::Log, 1, 10, 5000).with_flip(true)
}

fn linear_value(s: &Scale, x: Ratio) -> f64 {
    match s.offset(x) {
        Offset::Exact(r) => value(r),
        Offset::Log { .. } => panic!("expected an exact offset"),
    }
}

fn log_value(s: &Scale, x: Ratio) -> f64 {
    match s.offset(x) {
        Offset::Log { width, arg, base } => width as f64 * value(arg).log10() / value(base).log10(),
        Offset::Exact(_) => panic!("expected a logarithmic offset"),
    }
}

#[test]
fn linear_primary_scenario() {
    let s = l_scale();
    let out = s.generate(Division::Primary, 0, 10, 1, 10);
    assert_eq!(out.len(), 11 + 11 + 10 * 9);
    for i in 0..11usize {
        let (at, length) = segment_parts(&out[i]);
        assert_eq!(length, 200);
        assert_eq!(at.num, 10 * i as i128);
        assert_eq!(at.den, 10);
        let off = s.linear(at);
        assert_eq!(off.num, 500 * i as i128 * off.den);
    }
    for i in 0..11usize {
        let (at, y) = label_parts(&out[11 + i]);
        assert_eq!(value(at), i as f64);
        assert_eq!(y, 240);
    }
    let mut k = 22usize;
    for i in 0..10usize {
        for j in 1..10usize {
            let (sub, length) = segment_parts(&out[k]);
            assert_eq!(length, if j == 5 { 150 } else { 100 });
            assert!((value(sub) - (i as f64 + j as f64 / 10.0)).abs() < 1e-12);
            k += 1;
        }
    }
    assert_eq!(k, out.len());
}

#[test]
fn log_flipped_scenario() {
    let s = c_scale();
    let out = s.generate(Division::Primary, 1, 10, 1, 9);
    let (first, length) = segment_parts(&out[0]);
    assert_eq!(length, -200);
    assert_eq!(value(first), 1.0);
    assert_eq!(log_value(&s, first), 0.0);
    let (last, length) = segment_parts(&out[9]);
    assert_eq!(length, -200);
    assert_eq!(value(last), 10.0);
    assert!((log_value(&s, last) - 5000.0).abs() < 1e-9);
    let (_, y) = label_parts(&out[10]);
    assert_eq!(y, -240);
}

#[test]
fn log_rejects_nonpositive_start() {
    assert!(!Scale::accepts(Transform::Log, 0, 10, 5000));
    assert!(!Scale::accepts(Transform::Log, -1, 10, 5000));
    assert!(Scale::accepts(Transform::Log, 1, 10, 5000));
    assert!(Scale::accepts(Transform::Linear, 0, 10, 5000));
    assert!(!Scale::accepts(Transform::Linear, 10, 10, 5000));
    assert!(!Scale::accepts(Transform::Linear, 0, 2_000_000_000, 5000));
}

#[test]
fn linear_ends_and_order() {
    let s = l_scale().with_x_offset(30);
    let start = Ratio { num: 0, den: 1 };
    let end = Ratio { num: 20, den: 2 };
    assert_eq!(linear_value(&s, start), 30.0);
    assert_eq!(linear_value(&s, end), 5030.0);
    let a = linear_value(&s, Ratio { num: 7, den: 3 });
    let b = linear_value(&s, Ratio { num: 5, den: 2 });
    assert!(a <= b);
    let r = s.linear(Ratio { num: 7, den: 3 });
    assert_eq!(r.num, 5000 * 7 + 30 * 10 * 3);
    assert_eq!(r.den, 30);
}

#[test]
fn log_ends_and_order() {
    let s = Scale::new("D", Transform::Log, 2, 20, 1000);
    assert_eq!(s.log(Ratio { num: 2, den: 1 }), Offset::Log {
        width: 1000,
        arg: Ratio { num: 2, den: 2 },
        base: Ratio { num: 20, den: 2 },
    });
    assert!((log_value(&s, Ratio { num: 20, den: 1 }) - 1000.0).abs() < 1e-9);
    let a = log_value(&s, Ratio { num: 3, den: 1 });
    let b = log_value(&s, Ratio { num: 7, den: 2 });
    assert!(0.0 < a && a <= b && b < 1000.0);
}

#[test]
fn primary_counts_ticks_and_labels() {
    let s = l_scale();
    let out = s.generate(Division::Primary, 0, 4, 1, 4);
    let segments = out.iter().take(5).filter(|p| matches!(p, Primitive::Segment { .. })).count();
    assert_eq!(segments, 5);
    let labels: Vec<Ratio> = out
        .iter()
        .filter_map(|p| match p {
            Primitive::Label { at, .. } => Some(*at),
            _ => None,
        })
        .collect();
    assert_eq!(labels.len(), 5);
    for (i, at) in labels.iter().enumerate() {
        assert_eq!(*at, segment_parts(&out[i]).0);
    }
}

#[test]
fn secondary_counts_ticks() {
    let s = l_scale();
    let out = s.generate(Division::Secondary, 0, 10, 1, 10);
    assert_eq!(out.len(), 9);
    for (k, p) in out.iter().enumerate() {
        let (at, length) = segment_parts(p);
        assert_eq!(at, Ratio { num: 10 * (k as i128 + 1), den: 10 });
        assert_eq!(length, if k + 1 == 5 { 150 } else { 100 });
    }
    assert_eq!(s.generate(Division::Secondary, 0, 10, 1, 1).len(), 0);
    assert_eq!(s.generate(Division::Secondary, 0, 10, 1, 4).len(), 3);
}

#[test]
fn secondary_run_matches_independent_call() {
    let s = l_scale();
    let out = s.generate(Division::Primary, 0, 10, 1, 10);
    // 11 ticks, 11 labels, then the runs of ticks 0, 1 and 2 before that of tick 3
    assert_eq!(label_parts(&out[11 + 3]).0, Ratio { num: 30, den: 10 });
    let start = 22 + 3 * 9;
    let alone = s.generate(Division::Secondary, 30, 40, 10, 10);
    assert_eq!(alone.len(), 9);
    assert_eq!(&out[start..start + 9], &alone[..]);
}

#[test]
fn no_run_past_scale_end() {
    let s = l_scale();
    let out = s.generate(Division::Primary, 0, 10, 1, 10);
    // only ten runs: the tick at the scale's end has none
    assert_eq!(out.len(), 11 + 11 + 10 * 9);
    let (last, _) = segment_parts(&out[out.len() - 1]);
    assert_eq!(last, Ratio { num: 990, den: 100 });
    // a sub-interval inside the scale gets a run after its last tick too
    let inner = s.generate(Division::Primary, 0, 5, 1, 5);
    assert_eq!(inner.len(), 6 + 6 + 6 * 9);
}

#[test]
fn generate_is_deterministic() {
    let s = c_scale();
    let a = s.generate(Division::Primary, 1, 10, 1, 9);
    let b = s.generate(Division::Primary, 1, 10, 1, 9);
    assert_eq!(a, b);
}

#[test]
fn builders_set_fields() {
    let s = Scale::new("K", Transform::Linear, -5, 5, 100)
        .with_y_offset(7)
        .with_x_offset(-3)
        .with_flip(true);
    assert_eq!(s.label, "K");
    assert_eq!((s.start, s.end, s.width), (-5, 5, 100));
    assert_eq!((s.x_offset, s.y_offset, s.flip), (-3, 7, true));
    let out = s.generate(Division::Primary, -5, 5, 1, 2);
    assert_eq!(label_parts(&out[3]).1, 7 - 240);
}

#[test]
fn log_scale_points_all_positive() {
    let s = c_scale();
    let out = s.generate(Division::Primary, 1, 10, 1, 9);
    assert_eq!(out.len(), 10 + 10 + 9 * 9);
    for p in &out {
        let at = match p {
            Primitive::Segment { at, .. } => *at,
            Primitive::Label { at, .. } => *at,
        };
        assert!(at.num > 0 && at.den > 0);
        let x = log_value(&s, at);
        assert!(x.is_finite() && (-1e-9..=5000.0 + 1e-9).contains(&x));
    }
}
