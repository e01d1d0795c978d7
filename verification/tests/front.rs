use pminimal::front::check_comparable;
use pminimal::{Assignment, NonDomPoint, ParetoFront, TernaryVal};

fn point(costs: Vec<isize>) -> NonDomPoint<u8> {
    let mut p = NonDomPoint::new(costs);
    p.add_sol(1);
    p
}

#[test]
fn comparable_cost_tuples() {
    assert!(check_comparable(&vec![1, 2], &vec![1, 2]));
    assert!(check_comparable(&vec![1, 2], &vec![1, 3]));
    assert!(check_comparable(&vec![4, 3], &vec![1, 3]));
    assert!(!check_comparable(&vec![1, 2], &vec![2, 1]));
    assert!(!check_comparable(&vec![1, 2], &vec![1, 2, 3]));
    assert!(check_comparable(&vec![], &vec![]));
    assert!(check_comparable(&vec![-5, 0, 7], &vec![-5, 1, 7]));
}

#[test]
fn point_collects_solutions() {
    let mut p: NonDomPoint = NonDomPoint::new(vec![3, -1]);
    assert_eq!(p.n_sols(), 0);
    p.add_sol(Assignment::from_vec(vec![TernaryVal::True]));
    p.add_sol(Assignment::from_vec(vec![TernaryVal::False]));
    assert_eq!(p.n_sols(), 2);
    assert_eq!(p.costs(), &vec![3, -1]);
    assert_eq!(p.iter()[1], Assignment::from_vec(vec![TernaryVal::False]));
}

#[test]
fn front_takes_only_incomparable_points() {
    let mut front: ParetoFront<u8> = ParetoFront::new();
    assert!(front.is_empty());
    assert_eq!(front.add_pp(point(vec![1, 5])), Ok(()));
    assert_eq!(front.add_pp(point(vec![5, 1])), Ok(()));
    // dominated by the first point
    assert_eq!(front.add_pp(point(vec![1, 6])), Err(point(vec![1, 6])));
    // dominates the second point
    assert_eq!(front.add_pp(point(vec![4, 1])), Err(point(vec![4, 1])));
    // equal to the first point
    assert_eq!(front.add_pp(point(vec![1, 5])), Err(point(vec![1, 5])));
    assert_eq!(front.add_pp(point(vec![3, 3])), Ok(()));
    assert_eq!(front.len(), 3);
    assert!(!front.is_empty());
    assert_eq!(front.index(2).costs(), &vec![3, 3]);
    assert!(front.admits(&vec![2, 4]));
    assert!(!front.admits(&vec![3, 4]));
}

#[test]
fn extending_a_front_hands_back_what_it_passes_over() {
    let mut front: ParetoFront<u8> = ParetoFront::new();
    let rejected = front.extend(vec![
        point(vec![2, 2]),
        point(vec![3, 3]),
        point(vec![1, 4]),
        point(vec![1, 4]),
        point(vec![4, 1]),
    ]);
    assert_eq!(rejected, vec![point(vec![3, 3]), point(vec![1, 4])]);
    let costs: Vec<Vec<isize>> = front.iter().iter().map(|p| p.costs().clone()).collect();
    assert_eq!(costs, vec![vec![2, 2], vec![1, 4], vec![4, 1]]);
}

#[test]
fn no_point_of_an_extended_front_dominates_another() {
    let mut front: ParetoFront<u8> = ParetoFront::new();
    let mut offered = Vec::new();
    for a in 0..6isize {
        for b in 0..6isize {
            offered.push(point(vec![(a * 7 + b * 3) % 6, (a * 5 + b) % 6, (a + b * 2) % 4]));
        }
    }
    front.extend(offered);
    let points = front.iter();
    assert!(!points.is_empty());
    for (i, p) in points.iter().enumerate() {
        for (j, q) in points.iter().enumerate() {
            if i != j {
                assert!(!check_comparable(p.costs(), q.costs()));
            }
        }
    }
}

#[test]
fn converting_the_solutions_of_a_front() {
    let mut front: ParetoFront<u8> = ParetoFront::new();
    let mut p = NonDomPoint::new(vec![0, 1]);
    p.add_sol(3);
    p.add_sol(4);
    front.add_pp(p).unwrap();
    front.add_pp(point(vec![1, 0])).unwrap();
    let converted: ParetoFront<String> = front.convert_solutions(&|s: u8| format!("s{}", s));
    assert_eq!(converted.len(), 2);
    assert_eq!(converted.index(0).costs(), &vec![0, 1]);
    assert_eq!(converted.index(0).iter(), &vec!["s3".to_string(), "s4".to_string()]);
    assert_eq!(converted.index(1).iter(), &vec!["s1".to_string()]);
    let p = point(vec![7]).convert_solutions(&|s: u8| s as u32 + 10);
    assert_eq!(p.iter(), &vec![11u32]);
    assert_eq!(p.costs(), &vec![7]);
}
