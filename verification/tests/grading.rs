use hamcycle::certify::{certify, has_duplicates, steps_adjacent, SequenceID};
use hamcycle::cut::InvariantViolation;
use hamcycle::grade::{axes, axis, closed_rows, nonturns};
use hamcycle::color::colorized;
use hamcycle::cut::prepare;
use hamcycle::info::{get_max_absumv, get_order_from_n, get_zpos_size_color, uon};
use hamcycle::spin::spin;
use hamcycle::edge::{bridge, warp_bridge};
use hamcycle::merge::{detach_weft, merge_warp, Weft};
use hamcycle::point::{is_adj_to, V3d};
use hamcycle::weave::weave;
use std::collections::VecDeque;

fn axis_percent(counts: [usize; 3]) -> [f64; 3] {
    let [x_count, y_count, z_count] = [counts[0] as f64, counts[1] as f64, counts[2] as f64];
    let order = x_count + y_count + z_count;
    [(x_count / order) * 100.0, (y_count / order) * 100.0, (z_count / order) * 100.0]
}

#[test]
fn test_count_axes() {
    let n_1 = 1_usize;
    let mut order = get_order_from_n(n_1);
    let [mut x_count, mut y_count, mut z_count] = axes(&weave(n_1).unwrap());
    assert!(z_count == x_count && x_count == 2 && y_count == 4);
    assert_eq!(order, [x_count, y_count, z_count].iter().sum());
    for n in 2..=100usize {
        order = get_order_from_n(n);
        let solution = weave(n).unwrap();
        [x_count, y_count, z_count] = axes(&solution);
        let [x_part, y_part, z_part] = axis_percent(axes(&solution));
        assert!(z_count < x_count && x_count < y_count);
        assert_eq!(order, [x_count, y_count, z_count].iter().sum());
        let [xc, yc, zc] = [x_part.round(), y_part.round(), z_part.round()];
        assert!(if n > 48 && n < 70 {
            xc == 49.0 && yc == 49.0 && zc == 1.0
        } else if n < 49 {
            xc <= 49.0 && yc <= 49.0 && zc <= 19.0
        } else {
            xc <= 50.0 && yc == 50.0 && zc == 1.0
        });
    }
}

#[test]
fn test_count_nonturns() {
    for n in 1..=100usize {
        assert_eq!(if n < 3 { 0 } else { 2 }, nonturns(&weave(n).unwrap()));
    }
}

#[test]
fn test_edge_axis() {
    assert_eq!(axis(&([0, 2, 0], [0, 0, 0])), 1);
    assert_eq!(axis(&([0, 2, 0], [0, 2, 2])), 2);
    assert_eq!(axis(&([0, 2, 2], [2, 2, 2])), 0);
}

#[test]
fn test_grade_square() {
    let square: Vec<V3d> = vec![[1, 1, 1], [3, 1, 1], [3, 3, 1], [1, 3, 1]];
    assert_eq!(axes(&square), [2, 2, 0]);
    assert_eq!(nonturns(&square), 0);
    let bar: Vec<V3d> =
        vec![[1, 1, 1], [3, 1, 1], [5, 1, 1], [5, 1, 3], [3, 1, 3], [1, 1, 3]];
    assert_eq!(axes(&bar), [4, 0, 2]);
    assert_eq!(nonturns(&bar), 2);
    assert_eq!(axes(&Vec::new()), [0, 0, 0]);
}

#[test]
fn test_closed_rows() {
    let square: Vec<V3d> = vec![[1, 1, 1], [3, 1, 1], [3, 3, 1], [1, 3, 1]];
    assert_eq!(
        closed_rows(&square),
        vec![[1, 1, 1], [3, 1, 1], [3, 3, 1], [1, 3, 1], [1, 1, 1]]
    );
    assert_eq!(closed_rows(&vec![[1, 1, 1]]), vec![[1, 1, 1], [1, 1, 1]]);
}

#[test]
fn test_uon() {
    assert_eq!(uon(8, 100), vec![8, 32, 80]);
    assert_eq!(uon(0, 8), vec![0, 0, 8]);
    assert_eq!(uon(9, 31), Vec::<usize>::new());
    assert_eq!(uon(1373600, 1373600), vec![1373600]);
    let all = uon(0, usize::MAX);
    assert_eq!(all.len(), 2002);
    assert_eq!(all[2001], get_order_from_n(2000));
}

#[test]
fn test_verdict_names() {
    assert_eq!(SequenceID::Broken.to_string(), "Broken");
    assert_eq!(SequenceID::HamChain.to_string(), "HamChain");
    assert_eq!(SequenceID::HamCycle.to_string(), "HamCycle");
}

fn lead() -> Weft {
    let mut weft = Weft::new(VecDeque::from(vec![[1, 1, 1]]), 80);
    weft.data = vec![[1, 1, 1], [3, 1, 1], [3, 1, -1], [1, 1, -1]];
    assert_eq!((weft.joined, weft.max_abs_z, weft.max_sum_z), (false, 1, 2));
    weft
}

#[test]
fn test_merge_warp() {
    let mut weft = lead();
    let mut warp: Vec<V3d> = vec![[1, 3, 1], [3, 3, 1], [3, 3, 3], [1, 3, 3]];
    assert_eq!(merge_warp(&mut weft, &mut warp), Ok(()));
    assert!(warp.is_empty());
    assert_eq!(
        weft.data,
        vec![
            [1, 1, 1],
            [1, 1, -1],
            [3, 1, -1],
            [3, 1, 1],
            [3, 3, 1],
            [3, 3, 3],
            [1, 3, 3],
            [1, 3, 1]
        ]
    );
    assert_eq!((weft.joined, weft.max_abs_z, weft.max_sum_z), (true, -1, -4));
    assert!(steps_adjacent(&weft.data));
    assert!(is_adj_to(&weft.data[7], &weft.data[0]));
}

#[test]
fn test_merge_missing_bridge() {
    let mut weft = lead();
    weft.data = vec![[1, 1, 1], [1, 1, -1], [1, -1, -1], [1, -1, 1]];
    let mut warp: Vec<V3d> = vec![[1, 3, 1], [3, 3, 1], [3, 3, 3], [1, 3, 3]];
    assert_eq!(merge_warp(&mut weft, &mut warp), Err(InvariantViolation::MissingBridge));
    let mut weft = lead();
    let mut far: Vec<V3d> = vec![[1, 5, 1], [3, 5, 1], [3, 5, 3], [1, 5, 3]];
    assert_eq!(merge_warp(&mut weft, &mut far), Err(InvariantViolation::MissingBridge));
    let mut weft = lead();
    let mut low: Vec<V3d> = vec![[1, 3, 3], [3, 3, 3], [3, 5, 3], [1, 5, 3]];
    assert_eq!(merge_warp(&mut weft, &mut low), Err(InvariantViolation::MissingBridge));
}

#[test]
fn test_merge_invalid_edge() {
    let mut weft = lead();
    let mut skew: Vec<V3d> = vec![[1, 1, 1], [3, 3, 1]];
    assert_eq!(merge_warp(&mut weft, &mut skew), Err(InvariantViolation::InvalidEdge));
    let mut weft = lead();
    let mut closing: Vec<V3d> = vec![[3, 3, 1], [3, 3, 3], [1, 3, 3], [1, 3, 1]];
    assert_eq!(merge_warp(&mut weft, &mut closing), Err(InvariantViolation::InvalidEdge));
}

#[test]
fn test_bridges() {
    let candidates = vec![([1, 3, 1], [3, 3, 1]), ([1, 3, 3], [1, 5, 3])];
    let weft_edge = ([1, 1, 1], [3, 1, 1]);
    assert_eq!(bridge(&weft_edge, &candidates), Some(weft_edge));
    assert_eq!(bridge(&([1, 1, 3], [3, 1, 3]), &candidates), None);
    assert_eq!(warp_bridge(&candidates, &weft_edge), Some(([3, 3, 1], [1, 3, 1])));
    assert_eq!(warp_bridge(&candidates, &([1, 1, 3], [3, 1, 3])), None);
    assert_eq!(warp_bridge(&candidates, &([-1, 3, 3], [-1, 5, 3])), Some(([1, 5, 3], [1, 3, 3])));
}

#[test]
fn test_detach_weft() {
    let loom = vec![
        VecDeque::from(vec![[1, 1, -1], [1, 1, 1]]),
        VecDeque::from(vec![[3, 1, -1], [3, 1, 1]]),
        VecDeque::from(vec![[5, 1, -1], [5, 1, 1]]),
    ];
    let (weft, warps) = detach_weft(loom, 4);
    assert_eq!(weft.data, vec![[1, 1, -1], [1, 1, 1]]);
    assert_eq!((weft.joined, weft.max_abs_z, weft.max_sum_z), (false, 3, 6));
    assert_eq!(warps, vec![vec![[3, 1, -1], [3, 1, 1]], vec![[5, 1, -1], [5, 1, 1]]]);
}

#[test]
fn test_certify_twice() {
    for n in 1..=12usize {
        let tour = weave(n).unwrap();
        let order = get_order_from_n(n);
        let first = certify(&tour, order, get_max_absumv(n));
        let second = certify(&tour, order, get_max_absumv(n));
        assert_eq!(first, second);
        let mut broken = tour.clone();
        broken.swap(0, 2);
        assert_eq!(
            certify(&broken, order, get_max_absumv(n)),
            certify(&broken, order, get_max_absumv(n))
        );
        assert_ne!(certify(&broken, order, get_max_absumv(n)), SequenceID::HamCycle);
    }
}

#[test]
fn test_boundary_orders() {
    let smallest = weave(1).unwrap();
    assert_eq!(smallest.len(), 8);
    assert!(!has_duplicates(&smallest));
    assert_eq!(certify(&smallest, 8, 3), SequenceID::HamCycle);
    let n: usize = 200;
    let large = weave(n).unwrap();
    assert_eq!(large.len(), 10827200);
    assert_eq!(large.len(), get_order_from_n(n));
    assert!(!has_duplicates(&large));
    assert!(steps_adjacent(&large));
    assert!(is_adj_to(&large[large.len() - 1], &large[0]));
    assert_eq!(certify(&large, get_order_from_n(n), get_max_absumv(n)), SequenceID::HamCycle);
}

#[test]
fn test_has_duplicates() {
    let twice: Vec<V3d> = vec![[1, 1, 1], [3, 1, 1], [1, 1, 1], [3, 1, 1], [5, 1, 1]];
    assert!(has_duplicates(&twice));
    let distinct: Vec<V3d> = vec![[1, 1, 1], [3, 1, 1], [1, 1, 3], [3, 1, 3]];
    assert!(!has_duplicates(&distinct));
    assert!(!has_duplicates(&Vec::new()));
    let balanced: Vec<V3d> = vec![[1, 1, 1], [-1, 1, 1], [-1, -1, -1], [1, -1, -1]];
    assert_eq!(certify(&balanced, 4, 3), SequenceID::Broken);
    let doubled: Vec<V3d> = vec![[1, 1, 1], [-1, -1, -1], [1, 1, 1], [-1, -1, -1]];
    assert_eq!(certify(&doubled, 4, 3), SequenceID::Broken);
}

#[test]
fn test_levels_are_spirals() {
    for n in 1..=12usize {
        let yarns = colorized(spin(n));
        let mut points: usize = 0;
        for (i, &((z, start), color)) in get_zpos_size_color(n).iter().enumerate() {
            let k = i + 1;
            assert_eq!(z as i32, 2 * i as i32 - (2 * n as i32 - 1));
            let level = prepare(z, color, start, &Vec::new(), &yarns).unwrap();
            assert_eq!(level.len(), 1);
            let lifted: Vec<V3d> = spin(k).iter().map(|p| [p[0], p[1], z]).collect();
            assert_eq!(level[0], lifted);
            points += level[0].len();
        }
        assert_eq!(2 * points, get_order_from_n(n));
    }
}

#[test]
fn test_tour_visits_every_vertex() {
    for n in 1..=8usize {
        let tour = weave(n).unwrap();
        let bound = 2 * n as i32 + 1;
        let mut count: usize = 0;
        for x in (-bound..=bound).step_by(2) {
            for y in (-bound..=bound).step_by(2) {
                for z in (-bound..=bound).step_by(2) {
                    if x.abs() + y.abs() + z.abs() <= bound {
                        count += 1;
                        assert!(tour.contains(&[x as i16, y as i16, z as i16]));
                    }
                }
            }
        }
        assert_eq!(count, tour.len());
    }
}
