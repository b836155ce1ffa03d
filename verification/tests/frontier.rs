use terrain_graph::cost::Cost;
use terrain_graph::shortest_path::{least_index, relax, reversed, Termination};

#[test]
fn integers_are_ordered_by_value() {
    assert!(3u8.precedes(&4));
    assert!(!4u8.precedes(&4));
    assert!(!5u8.precedes(&4));
    assert!(300u16.precedes(&301));
    assert!(!7u32.precedes(&7));
    assert!(u64::MAX.precedes(&u64::MAX) == false);
    assert!(0u64.precedes(&u64::MAX));
    assert!(1u128.precedes(&2));
    assert!(1usize.precedes(&2));
    assert!((-1i8).precedes(&0));
    assert!(i16::MIN.precedes(&i16::MAX));
    assert!((-5i32).precedes(&-4));
    assert!(!(-4i32).precedes(&-5));
    assert!((-1i64).precedes(&1));
    assert!(i128::MIN.precedes(&0));
    assert!((-2isize).precedes(&-1));
}

#[test]
fn zero_of_an_integer_is_zero() {
    assert_eq!(<u8 as Cost>::zero(), 0);
    assert_eq!(<u16 as Cost>::zero(), 0);
    assert_eq!(<u32 as Cost>::zero(), 0);
    assert_eq!(<u64 as Cost>::zero(), 0);
    assert_eq!(<u128 as Cost>::zero(), 0);
    assert_eq!(<usize as Cost>::zero(), 0);
    assert_eq!(<i8 as Cost>::zero(), 0);
    assert_eq!(<i16 as Cost>::zero(), 0);
    assert_eq!(<i32 as Cost>::zero(), 0);
    assert_eq!(<i64 as Cost>::zero(), 0);
    assert_eq!(<i128 as Cost>::zero(), 0);
    assert_eq!(<isize as Cost>::zero(), 0);
}

#[test]
fn least_index_is_the_earliest_entry_of_least_cost() {
    let frontier: Vec<(usize, i32)> = vec![(4, 9), (2, 3), (7, 5), (1, 3), (0, 8)];
    assert_eq!(least_index(&frontier), 1);
    let single: Vec<(usize, i32)> = vec![(4, 9)];
    assert_eq!(least_index(&single), 0);
    let equal: Vec<(usize, u8)> = vec![(4, 1), (5, 1), (6, 1)];
    assert_eq!(least_index(&equal), 0);
    let falling: Vec<(usize, i64)> = vec![(4, 3), (5, 2), (6, -1)];
    assert_eq!(least_index(&falling), 2);
}

#[test]
fn relax_discovers_each_new_neighbor_once() {
    let list: Vec<(usize, u32)> = vec![(1, 10), (2, 20), (1, 30), (3, 40), (0, 50)];
    let mut visited = vec![true, false, false, true, false];
    let mut predecessor = vec![0, 1, 2, 3, 4];
    let mut frontier: Vec<(usize, u64)> = vec![(3, 7)];
    relax(&list, 0, &|a: u32| u64::from(a) * 2, &mut visited, &mut predecessor, &mut frontier);
    assert_eq!(visited, vec![true, true, true, true, false]);
    assert_eq!(predecessor, vec![0, 0, 0, 3, 4]);
    assert_eq!(frontier, vec![(3, 7), (1, 20), (2, 40)]);
}

#[test]
fn reversed_turns_the_order_round() {
    assert_eq!(reversed(&vec![1, 2, 3]), vec![3, 2, 1]);
    assert_eq!(reversed(&vec!['a']), vec!['a']);
    assert_eq!(reversed(&Vec::<u8>::new()), Vec::<u8>::new());
}

#[test]
fn reached_evaluates_the_condition() {
    let at: Termination<fn(usize) -> bool> = Termination::Vertex(3);
    assert!(at.reached(3));
    assert!(!at.reached(2));
    let odd = Termination::Predicate(|v: usize| v % 2 == 1);
    assert!(odd.reached(5));
    assert!(!odd.reached(4));
}
