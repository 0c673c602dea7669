use dunes::mem::file::{first_len, grown, must_extend, shrunk, MIN_PAGE_SIZE};
use dunes::mem::{fill, fill_with, Error, Page, PreAlloc};

#[test]
fn ignore_grow_fillup() {
    let slice = [1, 2, 3];
    let mut mem = PreAlloc::new(slice.to_vec());

    let page = mem.grow(3).unwrap();
    page.filled(&mut mem, 0);

    assert_eq!(mem.as_slice().to_vec(), [0, 0, 0]);
}

#[test]
fn pre_alloc_grows_within_its_room() {
    let mut mem = PreAlloc::new(vec![7u8; 5]);
    assert_eq!(mem.as_slice().len(), 0);
    assert_eq!(mem.grow(2), Ok(Page { start: 0, end: 2 }));
    assert_eq!(mem.as_slice().to_vec(), vec![7, 7]);
    let page = mem.grow(3).unwrap();
    assert_eq!(page, Page { start: 2, end: 5 });
    page.filled(&mut mem, 9);
    assert_eq!(mem.as_slice().to_vec(), vec![7, 7, 9, 9, 9]);
    assert_eq!(mem.grow(1), Err(Error::OverGrow { to_grow: 6, available: 5 }));
    assert_eq!(mem.grow(usize::MAX), Err(Error::CapacityOverflow));
    assert_eq!(mem.as_slice().len(), 5);
    assert_eq!(mem.grow(0), Ok(Page { start: 5, end: 5 }));
}

#[test]
fn pre_alloc_shrinks_to_nothing_at_most() {
    let mut mem = PreAlloc::new(vec![1u32, 2, 3, 4]);
    mem.grow(4).unwrap();
    assert_eq!(mem.shrink(1), Ok(()));
    assert_eq!(mem.as_slice().to_vec(), vec![1, 2, 3]);
    assert_eq!(mem.shrink(10), Ok(()));
    assert!(mem.as_slice().is_empty());
    assert_eq!(mem.grow(4), Ok(Page { start: 0, end: 4 }));
}

#[test]
fn fill_writes_the_run_and_nothing_else() {
    let mut place = vec![1, 2, 3, 4, 5];
    fill(&mut place, 1, 4, 42);
    assert_eq!(place, vec![1, 42, 42, 42, 5]);
    fill(&mut place, 2, 2, 0);
    assert_eq!(place, vec![1, 42, 42, 42, 5]);
    fill_with(&mut place, 3, 5, || 8);
    assert_eq!(place, vec![1, 42, 42, 8, 8]);
}

#[test]
fn mapped_sizes() {
    assert_eq!(MIN_PAGE_SIZE, 8 * 1024);
    assert_eq!(first_len(0), Some(8192));
    assert_eq!(first_len(8191), Some(8192));
    assert_eq!(first_len(8192), None);
    assert_eq!(grown(10, 5), Ok(15));
    assert_eq!(grown(usize::MAX, 1), Err(Error::CapacityOverflow));
    assert_eq!(grown(usize::MAX, 0), Ok(usize::MAX));
    assert!(must_extend(9, 8));
    assert!(!must_extend(8, 8));
    assert_eq!(shrunk(8192, 24, 8), (1000, 8000));
    assert_eq!(shrunk(8195, 0, 8), (1024, 8192));
    assert_eq!(shrunk(80, 11, 8), (0, 0));
}
