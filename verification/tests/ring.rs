use garlic::circular_linked_list::CircularLinkedList;

fn once_around<T: Clone>(list: &CircularLinkedList<T>) -> Vec<T> {
    let mut out = Vec::new();
    let mut walk = list.iter_once();
    while let Some(node) = walk.next() {
        out.push(node.value.clone());
    }
    out
}

#[test]
fn new_ring_is_empty() {
    let list: CircularLinkedList<i32> = CircularLinkedList::new();
    assert_eq!(list.len(), 0);
    assert!(list.is_empty());
    assert!(list.iter().next().is_none());
    assert!(list.iter_once().next().is_none());
}

#[test]
fn default_ring_is_empty() {
    let list: CircularLinkedList<String> = CircularLinkedList::default();
    assert_eq!(list.len(), 0);
    assert!(list.is_empty());
    assert!(list.iter().next().is_none());
}

#[test]
fn empty_ring_yields_nothing_in_either_mode() {
    let list: CircularLinkedList<u8> = CircularLinkedList::new();
    assert_eq!(list.iter().map_copied().take(5), Vec::<u8>::new());
    assert_eq!(list.iter_once().map_copied().take(5), Vec::<u8>::new());
    assert_eq!(list.iter().map_cloned().take(5), Vec::<u8>::new());
    let mut walk = list.iter();
    assert!(walk.next().is_none());
    assert!(walk.next().is_none());
}

#[test]
fn len_counts_the_pushes() {
    let mut list = CircularLinkedList::new();
    for n in 0..20usize {
        assert_eq!(list.len(), n);
        assert_eq!(list.is_empty(), n == 0);
        list.push(n * 3);
    }
    assert_eq!(list.len(), 20);
    assert!(!list.is_empty());
}

#[test]
fn one_push_makes_a_ring_of_one() {
    let mut list = CircularLinkedList::new();
    list.push('x');
    assert_eq!(list.len(), 1);
    assert!(!list.is_empty());
    assert_eq!(once_around(&list), vec!['x']);
    assert_eq!(list.iter().map_copied().take(4), vec!['x', 'x', 'x', 'x']);
}

#[test]
fn len_does_not_depend_on_the_element_type() {
    let mut strings = CircularLinkedList::new();
    let mut pairs = CircularLinkedList::new();
    let mut units = CircularLinkedList::new();
    let mut nested = CircularLinkedList::new();
    for i in 0..9u32 {
        strings.push(format!("v{}", i));
        pairs.push((i, i % 2 == 0));
        units.push(());
        nested.push(vec![i; 3]);
    }
    assert_eq!(strings.len(), 9);
    assert_eq!(pairs.len(), 9);
    assert_eq!(units.len(), 9);
    assert_eq!(nested.len(), 9);
}

#[test]
fn names_come_out_in_the_order_of_the_pushes() {
    let mut cll = CircularLinkedList::new();
    cll.push("Mike");
    cll.push("Hank");
    cll.push("Gus");
    assert_eq!(once_around(&cll), vec!["Mike", "Hank", "Gus"]);
    assert_eq!(cll.iter_once().map_copied().take(usize::MAX), vec!["Mike", "Hank", "Gus"]);
    assert_eq!(cll.len(), 3);
}

#[test]
fn seven_integers_make_a_ring_of_seven() {
    let cll = CircularLinkedList::from_iter((1..=7).collect());
    assert_eq!(cll.len(), 7);
    assert_eq!(once_around(&cll), vec![1, 2, 3, 4, 5, 6, 7]);
}

#[test]
fn from_iter_keeps_the_source_in_order() {
    let sources: Vec<Vec<i64>> = vec![
        vec![],
        vec![42],
        vec![5, 5, 5],
        vec![3, -1, 4, -1, 5, -9, 2, 6],
        (0..100).collect(),
    ];
    for source in sources {
        let list = CircularLinkedList::from_iter(source.clone());
        assert_eq!(once_around(&list), source);
        assert_eq!(list.len(), source.len());
        assert_eq!(list.is_empty(), source.is_empty());
    }
}

#[test]
fn from_iter_of_nothing_is_empty() {
    let list: CircularLinkedList<String> = CircularLinkedList::from_iter(Vec::new());
    assert!(list.is_empty());
    assert_eq!(list.len(), 0);
    assert!(list.iter_once().next().is_none());
    assert!(list.iter().next().is_none());
}

#[test]
fn from_iter_equals_pushing_one_by_one() {
    let source = vec!["a".to_string(), "b".to_string(), "c".to_string()];
    let built = CircularLinkedList::from_iter(source.clone());
    let mut pushed = CircularLinkedList::new();
    for s in source {
        pushed.push(s);
    }
    assert_eq!(once_around(&built), once_around(&pushed));
    assert_eq!(built.len(), pushed.len());
}

#[test]
fn push_appends_behind_the_tail_and_keeps_the_head() {
    let mut list = CircularLinkedList::from_iter(vec![10, 20]);
    assert_eq!(list.iter().next().map(|n| n.value), Some(10));
    list.push(30);
    assert_eq!(list.iter().next().map(|n| n.value), Some(10));
    assert_eq!(once_around(&list), vec![10, 20, 30]);
    list.push(40);
    assert_eq!(once_around(&list), vec![10, 20, 30, 40]);
    assert_eq!(list.iter().map_copied().take(9), vec![10, 20, 30, 40, 10, 20, 30, 40, 10]);
}

#[test]
fn node_gives_its_value() {
    let list = CircularLinkedList::from_iter(vec![String::from("only")]);
    let mut walk = list.iter_once();
    let node = walk.next().unwrap();
    assert_eq!(node.value, "only");
    assert_eq!(node.value(), "only");
    assert!(walk.next().is_none());
}

#[test]
fn a_long_ring_is_dropped_without_trouble() {
    let mut list = CircularLinkedList::new();
    for i in 0..300_000u32 {
        list.push(i);
    }
    assert_eq!(list.len(), 300_000);
    let walk = list.iter();
    let mut copy = walk.clone().map_copied();
    assert_eq!(copy.next(), Some(0));
    drop(list);
}
