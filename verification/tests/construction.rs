use hamcycle::certify::{certify, SequenceID};
use hamcycle::color::colorized;
use hamcycle::cut::{chop, cut_using, prepare, InvariantViolation};
use hamcycle::info::{
    get_max_absumv, get_n_from_order, get_order_from_n, get_radius, get_radius_from_order,
    get_spool_size, get_zpos_size_color, loom_size, Color,
};
use hamcycle::loom::{
    extend_threads, mirror_threads, pin_ends, pin_thread_ends, Loom, LoomThread,
};
use hamcycle::edge::{eadjs, edges, get_eadjs, orient};
use hamcycle::merge::{align_to, detach_weft, merge_warp, rotate_to, Weft};
use hamcycle::point::{is_adj_to, l1norm, l1norm_2d, V2d, V3d};
use hamcycle::spin::{spin, spin_out};
use hamcycle::weave::weave;
use std::collections::{HashSet, VecDeque};

#[test]
fn test_info_n_with_max_i16() {
    let max_i16 = std::i16::MAX as usize;
    assert_eq!(loom_size(max_i16) as i16, 16384);
    assert_eq!(get_max_absumv(max_i16) as i16, -1);
    assert_eq!(get_radius(max_i16), -3);
    assert_eq!(get_radius_from_order(max_i16), 57);
    assert_eq!(get_n_from_order(max_i16), 29);
    assert_eq!(get_order_from_n(max_i16), 46912496074752);
    assert_eq!(get_spool_size(max_i16), 2147418112);
}

#[test]
fn test_info_n_pass() {
    let n: usize = 100;
    assert_eq!(loom_size(n) as i16, 51);
    assert_eq!(get_max_absumv(n), 201);
    assert_eq!(get_radius(n), 199);
    assert_eq!(get_radius_from_order(n + 60), 7);
    assert_eq!(get_n_from_order(n - 20), 3);
    assert_eq!(get_order_from_n(n), 1373600);
    assert_eq!(get_spool_size(n), 20200);
}

#[test]
fn test_order_of_smallest_graphs() {
    assert_eq!(get_order_from_n(1), 8);
    assert_eq!(get_order_from_n(2), 32);
    assert_eq!(get_order_from_n(3), 80);
    assert_eq!(get_n_from_order(8), 1);
    assert_eq!(get_n_from_order(32), 2);
    assert_eq!(get_n_from_order(80), 3);
    assert_eq!(get_n_from_order(1373600), 100);
}

#[test]
fn test_level_settings() {
    let levels = get_zpos_size_color(3);
    assert_eq!(
        levels,
        vec![((-5, 20), Color::Blue), ((-3, 12), Color::Red), ((-1, 0), Color::Blue)]
    );
    let levels = get_zpos_size_color(2);
    assert_eq!(levels, vec![((-3, 8), Color::Red), ((-1, 0), Color::Blue)]);
}

#[test]
fn test_spin_smallest() {
    assert_eq!(spin(1), vec![[1, 1], [1, -1], [-1, -1], [-1, 1]]);
}

#[test]
fn test_spin_second() {
    let spool = spin(2);
    assert_eq!(spool.len(), 12);
    assert_eq!(get_spool_size(2), 12);
    assert_eq!(
        spool,
        vec![
            [3, 1],
            [3, -1],
            [1, -1],
            [1, -3],
            [-1, -3],
            [-1, -1],
            [-3, -1],
            [-3, 1],
            [-1, 1],
            [-1, 3],
            [1, 3],
            [1, 1]
        ]
    );
}

#[test]
fn test_spin_is_hamiltonian_path() {
    for n in 1..60usize {
        let spool = spin(n);
        assert_eq!(spool.len(), get_spool_size(n));
        assert_eq!(spool[0], [get_radius(n), 1]);
        assert_eq!(*spool.last().unwrap(), [if n % 2 == 0 { 1 } else { -1 }, 1]);
        let distinct: HashSet<&V2d> = spool.iter().collect();
        assert_eq!(distinct.len(), spool.len());
        for w in spool.windows(2) {
            let dx = (w[0][0] - w[1][0]).abs();
            let dy = (w[0][1] - w[1][1]).abs();
            assert!((dx == 2 && dy == 0) || (dx == 0 && dy == 2));
        }
        for p in spool.iter() {
            assert!(l1norm_2d(p) <= 2 * n as i32);
        }
    }
}

#[test]
fn test_spin_outward() {
    for n in 1..100usize {
        let result = spin_out(n);
        let radius = get_radius(n);
        let spool_size = get_spool_size(n);
        assert_eq!(result.len(), spool_size);
        assert_eq!(result[0], [if n % 2 == 0 { 1 } else { -1 }, 1]);
        assert_eq!(*result.last().unwrap(), [radius, 1]);
        let [first_x, first_y] = result.first().unwrap();
        assert_eq!(*first_y, 1);
        assert!(*first_x == -1 || *first_x == 1);
        assert!(result.iter().all(|vert| l1norm_2d(vert) <= get_max_absumv(n) as i32));
        let result = spin_out(n);
        let set_result = result.iter().collect::<HashSet<_>>();
        assert_eq!(spool_size, set_result.len());
        let first = result.first().unwrap();
        match n % 2 == 0 {
            true => assert_eq!(*first, [1, 1]),
            false => assert_eq!(*first, [-1, 1]),
        }
    }
}

#[test]
fn test_colorized() {
    let spool: Vec<V2d> = vec![
        [5, 1],
        [5, -1],
        [3, -1],
        [3, -3],
        [1, -3],
        [1, -5],
        [-1, -5],
        [-1, -3],
        [-3, -3],
        [-3, -1],
        [-5, -1],
        [-5, 1],
        [-3, 1],
        [-3, 3],
        [-1, 3],
        [-1, 5],
        [1, 5],
        [1, 3],
        [3, 3],
        [3, 1],
        [1, 1],
        [1, -1],
        [-1, -1],
        [-1, 1],
    ];
    let colored_yarns = colorized(spool.clone());
    let blue = colored_yarns.blue.clone();
    let red = colored_yarns.red.clone();
    let expect_blue: Vec<V2d> = red.iter().map(|p| [-p[0], -(p[1] - 2)]).collect();
    assert_eq!(blue, expect_blue);
    assert_eq!(blue, spool);
}

#[test]
fn test_colorized_red_values() {
    let yarns = colorized(vec![[3, 1], [3, -1], [1, -1], [-5, 7]]);
    assert_eq!(yarns.blue, vec![[3, 1], [3, -1], [1, -1], [-5, 7]]);
    assert_eq!(yarns.red, vec![[-3, 1], [-3, 3], [-1, 3], [5, -5]]);
    let none = colorized(Vec::new());
    assert!(none.blue.is_empty() && none.red.is_empty());
}

#[test]
fn test_prepare_yarn() {
    let yarns = colorized(spin(2));
    let whole = prepare(-3, Color::Red, 8, &Vec::new(), &yarns).unwrap();
    assert_eq!(whole, vec![vec![[1, 1, -3], [1, -1, -3], [-1, -1, -3], [-1, 1, -3]]]);
    let blue = prepare(-1, Color::Blue, 8, &Vec::new(), &yarns).unwrap();
    assert_eq!(blue, vec![vec![[-1, 1, -1], [-1, 3, -1], [1, 3, -1], [1, 1, -1]]]);
}

#[test]
fn test_cut_using() {
    let yarn: Vec<V3d> = (0..8).map(|k| [2 * k + 1, 1, -1]).collect();
    let pins: Vec<V3d> = vec![[5, 1, -1], [11, 1, -1]];
    let warps = cut_using(&yarn, &pins).unwrap();
    assert_eq!(
        warps,
        vec![
            vec![[5, 1, -1], [3, 1, -1], [1, 1, -1]],
            vec![[11, 1, -1], [13, 1, -1], [15, 1, -1]],
            vec![[9, 1, -1], [7, 1, -1]],
        ]
    );
    let at_end: Vec<V3d> = vec![[5, 1, -1], [15, 1, -1]];
    let warps = cut_using(&yarn, &at_end).unwrap();
    assert_eq!(
        warps,
        vec![
            vec![[5, 1, -1], [3, 1, -1], [1, 1, -1]],
            vec![[15, 1, -1], [13, 1, -1], [11, 1, -1], [9, 1, -1], [7, 1, -1]],
        ]
    );
    let neighbours: Vec<V3d> = vec![[5, 1, -1], [7, 1, -1]];
    let warps = cut_using(&yarn, &neighbours).unwrap();
    assert_eq!(
        warps,
        vec![
            vec![[5, 1, -1], [3, 1, -1], [1, 1, -1]],
            vec![[7, 1, -1], [9, 1, -1], [11, 1, -1], [13, 1, -1], [15, 1, -1]],
        ]
    );
}

#[test]
fn test_cut_unmatched_pin() {
    let yarn: Vec<V3d> = (0..8).map(|k| [2 * k + 1, 1, -1]).collect();
    let missing: Vec<V3d> = vec![[5, 1, -1], [11, 3, -1]];
    assert_eq!(cut_using(&yarn, &missing), Err(InvariantViolation::UnmatchedPin));
    let twice: Vec<V3d> = vec![[5, 1, -1], [5, 1, -1]];
    assert_eq!(cut_using(&yarn, &twice), Err(InvariantViolation::UnmatchedPin));
    let doubled: Vec<V3d> = vec![[1, 1, -1], [3, 1, -1], [1, 1, -1], [5, 1, -1]];
    let one: Vec<V3d> = vec![[1, 1, -1]];
    assert_eq!(cut_using(&doubled, &one), Err(InvariantViolation::UnmatchedPin));
    assert_eq!(cut_using(&Vec::new(), &one), Err(InvariantViolation::UnmatchedPin));
}

#[test]
fn test_last_row_empty_cushion() {
    let mut loom = Loom::with_capacity(2);
    assert_eq!(Vec::<V3d>::with_capacity(0), pin_thread_ends(&mut loom, -1));
    assert_eq!(Vec::<V3d>::with_capacity(0), pin_ends(&mut loom, true));
    assert_eq!(Vec::<V3d>::with_capacity(0), pin_ends(&mut loom, false));
    let mut one: Loom = vec![VecDeque::from(vec![[1, 1, -1], [1, -1, -1]])];
    assert_eq!(Vec::<V3d>::new(), pin_ends(&mut one, true));
    assert_eq!(one, vec![VecDeque::from(vec![[1, 1, -1], [1, -1, -1]])]);
}

#[test]
fn test_mark_end() {
    let mut thread = LoomThread::new();
    thread.push_back([0, 0, 0]);
    thread.push_back([2, 0, 0]);
    let expected = vec![[0, 0, 2], [2, 0, 2]];
    let mut loom: Loom = vec![thread];
    let result = pin_ends(&mut loom, false);
    assert_eq!(expected, result);
    assert_eq!(loom, vec![VecDeque::from(vec![[0, 0, 2], [0, 0, 0], [2, 0, 0], [2, 0, 2]])]);
}

#[test]
fn test_extend_threads() {
    let mut loom: Loom = Vec::new();
    extend_threads(&mut loom, vec![vec![[1, 1, -3], [1, -1, -3]], Vec::new(), vec![[5, 5, -3]]]);
    assert_eq!(
        loom,
        vec![VecDeque::from(vec![[1, 1, -3], [1, -1, -3]]), VecDeque::from(vec![[5, 5, -3]])]
    );
    let pins = pin_ends(&mut loom, false);
    assert_eq!(pins, vec![[1, 1, -1], [1, -1, -1], [5, 5, -1], [5, 5, -1]]);
    let mut loom: Loom = vec![VecDeque::from(vec![[1, 1, -1], [1, 1, -3], [1, -1, -3], [1, -1, -1]])];
    extend_threads(
        &mut loom,
        vec![
            vec![[1, -1, -1], [3, -1, -1], [3, 1, -1]],
            vec![[7, 7, -1], [7, 5, -1]],
            vec![[1, 1, -1], [-1, 1, -1], [-1, -1, -1]],
        ],
    );
    assert_eq!(
        loom,
        vec![
            VecDeque::from(vec![
                [-1, -1, -1],
                [-1, 1, -1],
                [1, 1, -1],
                [1, 1, -3],
                [1, -1, -3],
                [1, -1, -1],
                [3, -1, -1],
                [3, 1, -1]
            ]),
            VecDeque::from(vec![[7, 7, -1], [7, 5, -1]]),
        ]
    );
}

#[test]
fn test_mirror_threads() {
    let mut loom = Loom::with_capacity(1);
    let mut expected_loom = Loom::with_capacity(1);
    loom.push(VecDeque::from(vec![[1, 1, -1], [1, -1, -1], [-1, -1, -1], [-1, 1, -1]]));
    expected_loom.push(VecDeque::from(vec![
        [1, 1, -1],
        [1, -1, -1],
        [-1, -1, -1],
        [-1, 1, -1],
        [-1, 1, 1],
        [-1, -1, 1],
        [1, -1, 1],
        [1, 1, 1],
    ]));
    mirror_threads(&mut loom);
    assert_eq!(loom, expected_loom);
}

#[test]
fn test_mirror_several_threads() {
    let mut loom: Loom =
        vec![VecDeque::from(vec![[1, 1, -3], [1, 1, -1]]), VecDeque::from(vec![[3, 1, -1]])];
    mirror_threads(&mut loom);
    assert_eq!(
        loom,
        vec![
            VecDeque::from(vec![[1, 1, -3], [1, 1, -1], [1, 1, 1], [1, 1, 3]]),
            VecDeque::from(vec![[3, 1, -1], [3, 1, 1]]),
        ]
    );
}

fn pos(v: &Vec<i32>, x: i32) -> usize {
    v.iter().position(|&y| y == x).unwrap()
}

#[test]
fn test_align_to() {
    let mut v = vec![0, 1, 2, 3, 4, 5];
    let (l, r) = (pos(&v, 4), pos(&v, 3));
    rotate_to(&mut v, l, r);
    assert_eq!(v, vec![4, 5, 0, 1, 2, 3]);
    let (l, r) = (pos(&v, 0), pos(&v, 1));
    rotate_to(&mut v, l, r);
    assert_eq!(v, vec![0, 5, 4, 3, 2, 1]);
    let (l, r) = (pos(&v, 1), pos(&v, 0));
    rotate_to(&mut v, l, r);
    assert_ne!(v, vec![1, 2, 3, 4, 5, 0]);
    assert_eq!(v, vec![1, 0, 5, 4, 3, 2]);
}

#[test]
fn test_align_to_points() {
    let p = |k: i16| -> V3d { [2 * k + 1, 1, 1] };
    let mut v: Vec<V3d> = (0..6).map(p).collect();
    align_to(&mut v, (p(4), p(3)));
    assert_eq!(v, vec![p(4), p(5), p(0), p(1), p(2), p(3)]);
    align_to(&mut v, (p(0), p(1)));
    assert_eq!(v, vec![p(0), p(5), p(4), p(3), p(2), p(1)]);
    align_to(&mut v, (p(1), p(0)));
    assert_eq!(v, vec![p(1), p(0), p(5), p(4), p(3), p(2)]);
}

#[test]
fn test_certify_broken() {
    let mut sol: Vec<V3d> = vec![[1, 1, -1], [1, -1, -1], [-1, -1, -1], [-1, 1, -1]];
    assert_eq!(SequenceID::Broken, certify(&sol, 8, 3));
    sol = vec![[1, 1, -1], [1, -1, -1], [-1, -1, -1], [-1, -1, -1]];
    assert_eq!(SequenceID::Broken, certify(&sol, 8, 3));
    sol = vec![
        [1, 1, -1],
        [-1, -1, -1],
        [-1, -1, -1],
        [-1, -1, -1],
        [-1, -1, -1],
        [-1, -1, -1],
        [1, -1, -1],
        [-1, -1, -1],
    ];
    assert_eq!(SequenceID::Broken, certify(&sol, 8, 3));
    sol = vec![
        [1, 1, -7],
        [-1, -1, -1],
        [-1, -1, -9],
        [-7, -1, -1],
        [-1, -7, -1],
        [-1, -1, -1],
        [1, -9, -1],
        [-9, -1, -1],
    ];
    assert_eq!(SequenceID::Broken, certify(&sol, 8, 3));
}

fn cube() -> Vec<V3d> {
    vec![
        [1, 1, -1],
        [1, -1, -1],
        [-1, -1, -1],
        [-1, 1, -1],
        [-1, 1, 1],
        [-1, -1, 1],
        [1, -1, 1],
        [1, 1, 1],
    ]
}

#[test]
fn test_certify_verdicts() {
    assert_eq!(certify(&cube(), 8, 3), SequenceID::HamCycle);
    assert_eq!(certify(&cube(), 8, 3), SequenceID::HamCycle);
    let chain: Vec<V3d> = vec![
        [1, 1, -1],
        [1, -1, -1],
        [-1, -1, -1],
        [-1, 1, -1],
        [-1, 1, 1],
        [1, 1, 1],
        [1, -1, 1],
        [-1, -1, 1],
    ];
    assert_eq!(certify(&chain, 8, 3), SequenceID::HamChain);
    assert_eq!(certify(&cube(), 8, 2), SequenceID::Broken);
    assert_eq!(certify(&cube(), 7, 3), SequenceID::Broken);
    let jump: Vec<V3d> = vec![
        [1, 1, -1],
        [-1, -1, -1],
        [1, -1, -1],
        [-1, 1, -1],
        [-1, 1, 1],
        [-1, -1, 1],
        [1, -1, 1],
        [1, 1, 1],
    ];
    assert_eq!(certify(&jump, 8, 3), SequenceID::Broken);
    let unbalanced: Vec<V3d> = vec![[1, 1, 1], [1, 1, 3]];
    assert_eq!(certify(&unbalanced, 2, 5), SequenceID::Broken);
    let diagonal: Vec<V3d> = vec![[1, 1, 1], [-1, -1, 1], [-1, 1, -1], [1, -1, -1]];
    assert_eq!(certify(&diagonal, 4, 3), SequenceID::Broken);
}

#[test]
fn test_point_predicates() {
    assert_eq!(l1norm(&[1, -3, 5]), 9);
    assert_eq!(l1norm(&[-32768, -32768, -32768]), 98304);
    assert_eq!(l1norm_2d(&[-3, 1]), 4);
    assert!(is_adj_to(&[1, 1, 1], [1, 1, 3].as_ref().try_into().unwrap()));
    assert!(is_adj_to(&[1, 1, 1], &[-1, 1, 1]));
    assert!(!is_adj_to(&[1, 1, 1], &[1, 1, 1]));
    assert!(!is_adj_to(&[1, 1, 1], &[3, -1, 1]));
    assert!(!is_adj_to(&[1, 1, 1], &[1, 1, 5]));
    assert!(!is_adj_to(&[3, 1, 1], &[1, 3, 3]));
}

#[test]
fn test_edges_and_bridges() {
    assert_eq!(orient(([3, 1, 1], [1, 1, 1])), ([1, 1, 1], [3, 1, 1]));
    assert_eq!(orient(([1, 1, 1], [3, 1, 1])), ([1, 1, 1], [3, 1, 1]));
    assert_eq!(orient(([1, 1, 1], [1, 1, -1])), ([1, 1, -1], [1, 1, 1]));
    assert_eq!(orient(([1, 3, 1], [1, 1, 5])), ([1, 1, 5], [1, 3, 1]));
    assert_eq!(get_eadjs(&([1, 1, 1], [3, 1, 1])), ([1, 3, 1], [3, 3, 1]));
    assert_eq!(get_eadjs(&([1, 1, 1], [1, 3, 1])), ([3, 1, 1], [3, 3, 1]));
    assert_eq!(get_eadjs(&([1, 1, 1], [1, 1, 3])), ([3, 1, 1], [3, 1, 3]));
    let found = eadjs(&vec![
        ([1, 3, 1], [3, 3, 1]),
        ([1, 1, 1], [1, 3, 1]),
        ([3, 1, 1], [3, 1, 3]),
        ([5, 1, 1], [7, 1, 1]),
    ]);
    assert_eq!(
        found,
        vec![([1, 1, 1], [3, 1, 1]), ([1, 1, 3], [1, 3, 3]), ([1, 1, 1], [1, 1, 3])]
    );
    let ring: Vec<V3d> = vec![[1, 3, 1], [3, 3, 1], [3, 3, 3], [1, 3, 3]];
    assert_eq!(edges(&ring, 2, false), vec![([1, 3, 1], [3, 3, 1])]);
    assert_eq!(edges(&ring, 6, false), vec![([1, 3, 3], [3, 3, 3])]);
    assert_eq!(edges(&ring, 4, false), vec![([3, 3, 1], [3, 3, 3]), ([1, 3, 1], [1, 3, 3])]);
    assert_eq!(edges(&ring, 4, true), Vec::new());
}

#[test]
fn test_weft() {
    let mut weft = Weft::new(VecDeque::from(cube()), 80);
    assert_eq!(weft.data, cube());
    assert!(!weft.joined);
    assert_eq!((weft.max_abs_z, weft.max_sum_z), (1, 2));
    assert_eq!(weft.edges(), None);
    weft.data = vec![[1, 1, 1], [3, 1, 1], [3, 1, -1], [1, 1, -1]];
    assert_eq!(weft.edges(), Some(([1, 1, 1], [3, 1, 1])));
    let mut warp: Vec<V3d> = vec![[1, 3, 1], [3, 3, 1]];
    weft.join(&mut warp);
    assert!(warp.is_empty());
    assert!(weft.joined);
    assert_eq!((weft.max_abs_z, weft.max_sum_z), (-1, -4));
    assert_eq!(weft.get_woven().len(), 6);
    let mut more: Vec<V3d> = vec![[5, 1, 1]];
    weft.join(&mut more);
    assert_eq!((weft.max_abs_z, weft.max_sum_z), (-5, -12));
    assert_eq!(
        weft.get_woven(),
        vec![[1, 1, 1], [3, 1, 1], [3, 1, -1], [1, 1, -1], [1, 3, 1], [3, 3, 1], [5, 1, 1]]
    );
}

#[test]
fn test_weave_smallest() {
    let tour = weave(1).unwrap();
    assert_eq!(tour, cube());
    assert_eq!(certify(&tour, 8, 3), SequenceID::HamCycle);
}

#[test]
fn test_weave() {
    for n in 1..=50usize {
        let order = get_order_from_n(n);
        let max_absumv = get_max_absumv(n);
        let solution = weave(n).unwrap();
        let seq_id = certify(&solution, order, max_absumv);
        assert_eq!(seq_id, SequenceID::HamCycle);
    }
}

#[test]
fn test_weave_up_to_hundred() {
    for n in 51..=100usize {
        let order = get_order_from_n(n);
        let solution = weave(n).unwrap();
        assert_eq!(solution.len(), order);
        assert_eq!(certify(&solution, order, get_max_absumv(n)), SequenceID::HamCycle);
    }
}

#[test]
fn test_pin_thread_ends() {
    let mut loom: Loom =
        vec![VecDeque::from(vec![[1, 1, -3], [1, -1, -3]]), VecDeque::from(vec![[5, 5, -3]])];
    let pins = pin_thread_ends(&mut loom, -1);
    assert_eq!(pins, vec![[1, 1, -1], [1, -1, -1], [5, 5, -1], [5, 5, -1]]);
    assert_eq!(
        loom,
        vec![
            VecDeque::from(vec![[1, 1, -1], [1, 1, -3], [1, -1, -3], [1, -1, -1]]),
            VecDeque::from(vec![[5, 5, -1], [5, 5, -3], [5, 5, -1]]),
        ]
    );
}

#[test]
fn test_prep() {
    let yarns = colorized(spin_out(2));
    assert_eq!(
        yarns.prep(-3, Color::Blue, 4),
        vec![[1, 1, -3], [1, 3, -3], [-1, 3, -3], [-1, 1, -3]]
    );
    assert_eq!(
        yarns.prep(-1, Color::Red, 4),
        vec![[-1, 1, -1], [-1, -1, -1], [1, -1, -1], [1, 1, -1]]
    );
    assert_eq!(yarns.prep(-1, Color::Red, 0), Vec::<V3d>::new());
    assert_eq!(yarns.prep(-1, Color::Blue, 12).len(), 12);
}

#[test]
fn test_chop() {
    let yarn: Vec<V3d> = (0..8).map(|k| [2 * k + 1, 1, -1]).collect();
    let whole = chop(yarn.clone(), &Vec::new()).unwrap();
    let mut backwards = yarn.clone();
    backwards.reverse();
    assert_eq!(whole, vec![backwards]);
    let pins: Vec<V3d> = vec![[5, 1, -1], [11, 1, -1]];
    assert_eq!(
        chop(yarn.clone(), &pins).unwrap(),
        vec![
            vec![[11, 1, -1], [13, 1, -1], [15, 1, -1]],
            vec![[7, 1, -1], [9, 1, -1]],
            vec![[5, 1, -1], [3, 1, -1], [1, 1, -1]],
        ]
    );
    let neighbours: Vec<V3d> = vec![[5, 1, -1], [7, 1, -1]];
    assert_eq!(
        chop(yarn.clone(), &neighbours).unwrap(),
        vec![
            vec![[7, 1, -1], [9, 1, -1], [11, 1, -1], [13, 1, -1], [15, 1, -1]],
            vec![],
            vec![[5, 1, -1], [3, 1, -1], [1, 1, -1]],
        ]
    );
    let at_start: Vec<V3d> = vec![[1, 1, -1], [11, 1, -1]];
    assert_eq!(
        chop(yarn.clone(), &at_start).unwrap(),
        vec![
            vec![[11, 1, -1], [13, 1, -1], [15, 1, -1]],
            vec![[1, 1, -1], [3, 1, -1], [5, 1, -1], [7, 1, -1], [9, 1, -1]],
        ]
    );
    let missing: Vec<V3d> = vec![[5, 1, -1], [11, 3, -1]];
    assert_eq!(chop(yarn.clone(), &missing), Err(InvariantViolation::UnmatchedPin));
    assert_eq!(chop(Vec::new(), &missing), Err(InvariantViolation::UnmatchedPin));
}

#[test]
fn test_outward_weave_agrees() {
    for n in 1..=30usize {
        let mut loom: Loom = Vec::with_capacity(loom_size(n));
        let yarns = colorized(spin_out(n));
        let spool = get_spool_size(n);
        for &((zrow, start), color) in get_zpos_size_color(n).iter() {
            let pins = pin_thread_ends(&mut loom, zrow);
            let pieces = chop(yarns.prep(zrow, color, spool - start), &pins).unwrap();
            extend_threads(&mut loom, pieces);
        }
        mirror_threads(&mut loom);
        let (mut weft, mut warps) = detach_weft(loom, n);
        for warp in warps.iter_mut() {
            merge_warp(&mut weft, warp).unwrap();
        }
        assert_eq!(weft.get_woven(), weave(n).unwrap());
    }
}
