use dunes::doublets::{
    create_heap_store, Doublets, Error, Flow, Index, Link, Links, ReadHandler, Store, WriteHandler,
};

struct Counter {
    seen: usize,
}

impl ReadHandler<usize> for Counter {
    fn saw(&self, _link: Link<usize>) -> bool {
        true
    }

    fn handle(&mut self, _link: Link<usize>) -> Flow {
        self.seen += 1;
        Flow::Continue
    }
}

struct Gather {
    links: Vec<Link<usize>>,
    stop_after: usize,
}

impl ReadHandler<usize> for Gather {
    fn saw(&self, link: Link<usize>) -> bool {
        self.links.last() == Some(&link)
    }

    fn handle(&mut self, link: Link<usize>) -> Flow {
        self.links.push(link);
        Flow::from_bool(self.links.len() < self.stop_after)
    }
}

struct Last {
    index: usize,
    before: Link<usize>,
    flow: Flow,
}

impl WriteHandler<usize> for Last {
    fn saw(&self, _before: Link<usize>, _after: Link<usize>) -> bool {
        true
    }

    fn handle(&mut self, before: Link<usize>, after: Link<usize>) -> Flow {
        self.index = after.index;
        self.before = before;
        self.flow
    }
}

#[test]
fn test_create_point() {
    let mut store = create_heap_store::<usize>().expect("Failed to create store");

    let a = store.create_point().expect("Failed to create point");
    assert_eq!(a, 1);

    let link = store.get(a).expect("Link should exist");
    assert_eq!(link, Link::new(a, a, a));
}

#[test]
fn test_create_link() {
    let mut store = create_heap_store::<usize>().expect("Failed to create store");

    let a = store.create_point().expect("Failed to create point a");
    let b = store.create_point().expect("Failed to create point b");

    let c = store.create_link(a, b).expect("Failed to create link");

    let link = store.get(c).expect("Link should exist");
    assert_eq!(link, Link::new(c, a, b));
}

#[test]
fn test_update_link() {
    let mut store = create_heap_store::<usize>().expect("Failed to create store");

    let a = store.create_point().expect("Failed to create point a");
    let b = store.create_point().expect("Failed to create point b");
    let c = store.create_point().expect("Failed to create point c");

    store.update_link(c, a, b).expect("Failed to update link");

    let link = store.get(c).expect("Link should exist");
    assert_eq!(link, Link::new(c, a, b));
}

#[test]
fn test_delete_link() {
    let mut store = create_heap_store::<usize>().expect("Failed to create store");

    let a = store.create_point().expect("Failed to create point");

    store.delete_link(a).expect("Failed to delete link");

    assert!(store.get(a).is_none());
}

#[test]
fn test_search() {
    let mut store = create_heap_store::<usize>().expect("Failed to create store");

    let a = store.create_point().expect("Failed to create point a");
    let b = store.create_point().expect("Failed to create point b");
    let c = store.create_link(a, b).expect("Failed to create link");

    let found = store.search(a, b);
    assert_eq!(found, Some(c));

    let not_found = store.search(b, a);
    assert_eq!(not_found, None);
}

#[test]
fn test_count() {
    let mut store = create_heap_store::<usize>().expect("Failed to create store");

    assert_eq!(store.count_all(), 0);

    let _a = store.create_point().expect("Failed to create point a");
    assert_eq!(store.count_all(), 1);

    let _b = store.create_point().expect("Failed to create point b");
    assert_eq!(store.count_all(), 2);

    let _c = store.create_link(1, 2).expect("Failed to create link");
    assert_eq!(store.count_all(), 3);
}

#[test]
fn test_rebase() {
    let mut store = create_heap_store::<usize>().expect("Failed to create store");

    let a = store.create_point().expect("Failed to create point a");
    let b = store.create_point().expect("Failed to create point b");

    let c = store.create_point().expect("Failed to create point c");
    store.update_link(c, c, a).expect("Failed to update link c");

    let d = store.create_point().expect("Failed to create point d");
    store.update_link(d, a, d).expect("Failed to update link d");

    let links: Vec<_> = store.iter().collect();
    assert_eq!(
        links,
        vec![Link::new(a, a, a), Link::new(b, b, b), Link::new(c, c, a), Link::new(d, a, d)]
    );

    store.rebase(a, b).expect("Failed to rebase");

    let links: Vec<_> = store.iter().collect();
    assert_eq!(
        links,
        vec![Link::new(a, a, a), Link::new(b, b, b), Link::new(c, c, b), Link::new(d, b, d)]
    );
}

#[test]
fn test_each() {
    let mut store = create_heap_store::<usize>().expect("Failed to create store");

    let a = store.create_point().expect("Failed to create point a");
    let b = store.create_point().expect("Failed to create point b");
    let _c = store.create_link(a, b).expect("Failed to create link");

    let mut counter = Counter { seen: 0 };
    store.each(&[], &mut counter);

    assert_eq!(counter.seen, 3);
}

#[test]
fn test_each_with_query() {
    let mut store = create_heap_store::<usize>().expect("Failed to create store");

    let a = store.create_point().expect("Failed to create point a");
    let b = store.create_point().expect("Failed to create point b");
    let _c = store.create_link(a, b).expect("Failed to create link");

    let any = usize::any();
    let mut found = Gather { links: Vec::new(), stop_after: usize::MAX };

    store.each(&[any, a, any], &mut found);

    assert_eq!(found.links.len(), 2);
}

#[test]
fn test_get_or_create() {
    let mut store = create_heap_store::<usize>().expect("Failed to create store");

    let a = store.create_point().expect("Failed to create point a");
    let b = store.create_point().expect("Failed to create point b");

    let c1 = store.get_or_create(a, b).expect("Failed to get or create");
    let c2 = store.get_or_create(a, b).expect("Failed to get or create");

    assert_eq!(c1, c2);
    assert_eq!(store.count_all(), 3);
}

#[test]
fn test_basic_create() {
    let mut store = create_heap_store::<usize>().expect("Failed to create store");

    let mut last = Last { index: 0, before: Link::point(9), flow: Flow::Continue };
    store.create(&[], &mut last).expect("Failed to create link");
    let index = last.index;
    println!("Created link with index: {}", index);

    println!("Checking if link {} exists...", index);
    let link = store.get(index);
    println!("Result: {:?}", link);
    assert!(link.is_some(), "Link should exist");
}

#[test]
fn link_constructors_and_tests() {
    assert_eq!(Link::new(1usize, 2, 3), Link { index: 1, source: 2, target: 3 });
    assert_eq!(Link::point(4usize), Link { index: 4, source: 4, target: 4 });
    assert_eq!(Link::<usize>::nothing(), Link { index: 0, source: 0, target: 0 });
    assert!(Link::<usize>::nothing().is_null());
    assert!(!Link::new(0usize, 0, 1).is_null());
    assert!(Link::point(4usize).is_full());
    assert!(!Link::new(4usize, 4, 5).is_full());
    assert!(Link::new(4usize, 4, 5).is_partial());
    assert!(Link::new(4usize, 5, 4).is_partial());
    assert!(!Link::new(4usize, 5, 6).is_partial());
}

#[test]
fn index_of_usize() {
    assert_eq!(usize::zero(), 0);
    assert_eq!(usize::one(), 1);
    assert!(0usize.is_zero());
    assert!(!3usize.is_zero());
    assert_eq!(usize::from_usize(7), 7);
    assert_eq!(7usize.as_usize(), 7);
    assert_eq!(Index::checked_add_one(&7usize), Some(8));
    assert_eq!(Index::checked_add_one(&usize::MAX), None);
    assert_eq!(Index::checked_sub_one(&7usize), Some(6));
    assert_eq!(Index::checked_sub_one(&0usize), None);
    assert_eq!(Flow::from(true), Flow::Continue);
    assert_eq!(Flow::from(false), Flow::Break);
    assert_eq!(Flow::from_bool(true), Flow::Continue);
    assert_eq!(Flow::from_bool(false), Flow::Break);
    assert!(Flow::Break.is_break());
}

#[test]
fn create_takes_the_ends_from_the_query() {
    let mut store: Store<usize> = Store::new().unwrap();
    let mut last = Last { index: 0, before: Link::point(9), flow: Flow::Break };
    assert_eq!(store.create(&[], &mut last), Ok(Flow::Break));
    assert_eq!(last.before, Link::nothing());
    assert_eq!(store.get(1), Some(Link::new(1, 0, 0)));
    last.flow = Flow::Continue;
    assert_eq!(store.create(&[7], &mut last), Ok(Flow::Continue));
    assert_eq!(store.get(2), Some(Link::new(2, 7, 7)));
    assert_eq!(store.create(&[5, 6, 9], &mut last), Ok(Flow::Continue));
    assert_eq!(last.index, 3);
    assert_eq!(store.get(3), Some(Link::new(3, 5, 6)));
    assert_eq!(store.get(0), None);
    assert_eq!(store.get(4), None);
}

#[test]
fn freed_indices_are_taken_again_last_freed_first() {
    let mut store = create_heap_store::<usize>().unwrap();
    for _ in 0..5 {
        store.create_point().unwrap();
    }
    assert_eq!(store.delete_link(2), Ok(2));
    assert_eq!(store.delete_link(4), Ok(4));
    assert_eq!(store.count_all(), 3);
    assert_eq!(store.get(2), None);
    assert_eq!(store.create_link(1, 3), Ok(4));
    assert_eq!(store.create_link(3, 1), Ok(2));
    assert_eq!(store.create_link(5, 5), Ok(6));
    assert_eq!(store.count_all(), 6);
    assert_eq!(store.get(4), Some(Link::new(4, 1, 3)));
}

#[test]
fn the_store_grows_past_its_first_room() {
    let mut store = create_heap_store::<usize>().unwrap();
    for i in 1..=3000usize {
        assert_eq!(store.create_link(i, 1), Ok(i));
    }
    assert_eq!(store.count_all(), 3000);
    assert_eq!(store.get(3000), Some(Link::new(3000, 3000, 1)));
    assert_eq!(store.get(1024), Some(Link::new(1024, 1024, 1)));
    assert_eq!(store.collect_all().len(), 3000);
}

#[test]
fn errors_and_what_gives_them() {
    let mut store = create_heap_store::<usize>().unwrap();
    let a = store.create_point().unwrap();
    let mut last = Last { index: 0, before: Link::nothing(), flow: Flow::Continue };
    assert_eq!(store.update(&[], &[a], &mut last), Err(Error::InvalidQuery));
    assert_eq!(store.update(&[a], &[], &mut last), Err(Error::InvalidQuery));
    assert_eq!(store.update(&[9], &[9, 1, 1], &mut last), Err(Error::NotExists(9)));
    assert_eq!(store.delete(&[], &mut last), Err(Error::InvalidQuery));
    assert_eq!(store.delete(&[9], &mut last), Err(Error::NotExists(9)));
    assert_eq!(store.delete(&[0], &mut last), Err(Error::NotExists(0)));
    assert_eq!(store.update_link(7, 1, 1), Err(Error::NotExists(7)));
    assert_eq!(store.delete_link(7), Err(Error::NotExists(7)));
    assert_eq!(store.count_usages(7), Err(Error::NotExists(7)));
    assert_eq!(store.rebase(7, a), Err(Error::NotExists(7)));
    assert_eq!(store.rebase(7, 7), Ok(7));
    assert_eq!(store.rebase_and_delete(7, a), Err(Error::NotExists(7)));
    assert_eq!(store.get(a), Some(Link::point(a)));
}

#[test]
fn update_keeps_the_parts_that_the_change_leaves_out() {
    let mut store = create_heap_store::<usize>().unwrap();
    let a = store.create_link(5, 6).unwrap();
    let mut last = Last { index: 0, before: Link::nothing(), flow: Flow::Continue };
    assert_eq!(store.update(&[a], &[a], &mut last), Ok(Flow::Continue));
    assert_eq!(last.before, Link::new(a, 5, 6));
    assert_eq!(store.get(a), Some(Link::new(a, 5, 6)));
    store.update(&[a], &[a, 8], &mut last).unwrap();
    assert_eq!(store.get(a), Some(Link::new(a, 8, 6)));
    store.update(&[a], &[a, 2, 3, 4], &mut last).unwrap();
    assert_eq!(store.get(a), Some(Link::new(a, 2, 3)));
}

#[test]
fn counts_by_query() {
    let mut store = create_heap_store::<usize>().unwrap();
    let a = store.create_point().unwrap();
    let b = store.create_point().unwrap();
    store.create_link(a, b).unwrap();
    store.create_link(a, a).unwrap();
    store.create_link(b, a).unwrap();
    assert_eq!(store.count(&[]), 5);
    assert_eq!(store.count(&[0]), 5);
    assert_eq!(store.count(&[3]), 1);
    assert_eq!(store.count(&[9]), 0);
    assert_eq!(store.count_by(&[0, a]), 3);
    assert_eq!(store.count_by(&[0, a, 0]), 3);
    assert_eq!(store.count_by(&[0, 0, a]), 3);
    assert_eq!(store.count_by(&[0, a, b]), 1);
    assert_eq!(store.count_by(&[4, a, a]), 1);
    assert_eq!(store.count_by(&[4, b, a]), 0);
    assert_eq!(store.count_usages(a), Ok(4));
    assert_eq!(store.count_usages(b), Ok(2));
    assert!(store.has_usages(a));
    assert!(!store.has_usages(3));
    assert!(!store.has_usages(9));
}

#[test]
fn each_stops_where_the_handler_says() {
    let mut store = create_heap_store::<usize>().unwrap();
    for _ in 0..4 {
        store.create_point().unwrap();
    }
    store.delete_link(2).unwrap();
    let mut all = Gather { links: Vec::new(), stop_after: usize::MAX };
    assert_eq!(store.each(&[], &mut all), Flow::Continue);
    assert_eq!(all.links, vec![Link::point(1), Link::point(3), Link::point(4)]);
    let mut two = Gather { links: Vec::new(), stop_after: 2 };
    assert_eq!(store.each(&[], &mut two), Flow::Break);
    assert_eq!(two.links, vec![Link::point(1), Link::point(3)]);
    let mut one = Gather { links: Vec::new(), stop_after: usize::MAX };
    assert_eq!(store.each(&[3], &mut one), Flow::Continue);
    assert_eq!(one.links, vec![Link::point(3)]);
    let mut none = Gather { links: Vec::new(), stop_after: usize::MAX };
    assert_eq!(store.each(&[2], &mut none), Flow::Continue);
    assert!(none.links.is_empty());
}

#[test]
fn rebase_points_uses_to_the_new_link() {
    let mut store = create_heap_store::<usize>().unwrap();
    let a = store.create_point().unwrap();
    let b = store.create_point().unwrap();
    let c = store.create_link(a, 7).unwrap();
    let d = store.create_link(7, a).unwrap();
    let e = store.create_link(a, a).unwrap();
    assert_eq!(store.rebase(a, b), Ok(b));
    assert_eq!(store.get(a), Some(Link::point(a)));
    assert_eq!(store.get(c), Some(Link::new(c, b, 7)));
    assert_eq!(store.get(d), Some(Link::new(d, 7, b)));
    // a link that used `a` at both ends keeps it as its source
    assert_eq!(store.get(e), Some(Link::new(e, a, b)));
    assert_eq!(store.rebase_and_delete(a, b), Ok(a));
    assert_eq!(store.get(a), None);
    assert_eq!(store.get(e), Some(Link::new(e, b, b)));
    assert_eq!(store.limit(), 6);
}
