use second_stack_vec::{StackMemory, StackVec};

#[test]
fn push_three_then_view() {
    let mut mem = StackMemory::<4>::new();
    mem.stack().with_vec(|mut vec: StackVec<u32, 4>| {
        vec.push(1);
        vec.push(2);
        vec.push(3);
        assert_eq!(vec.to_vec(), vec![1, 2, 3]);
        assert_eq!(vec.len(), 3);
    });
    assert_eq!(mem.len(), 0);
}

#[test]
fn nested_carve_leaves_outer_view() {
    let mut mem = StackMemory::<4>::new();
    mem.stack().with_vec(|mut outer: StackVec<u32, 4>| {
        outer.push(10);
        outer.stack().with_vec(|mut inner: StackVec<u8, 4>| {
            inner.push(7);
            inner.push(9);
            assert_eq!(inner.to_vec(), vec![7, 9]);
            assert_eq!(inner.base_offset(), 4);
        });
        assert_eq!(outer.to_vec(), vec![10]);
    });
    assert_eq!(mem.len(), 0);
}

#[test]
fn carve_pads_to_element_alignment() {
    let mut mem = StackMemory::<16>::new();
    mem.stack().with_vec(|mut bytes: StackVec<u8, 16>| {
        bytes.push(0xAB);
        assert_eq!(bytes.base_offset(), 0);
        bytes.stack().with_vec(|mut words: StackVec<u32, 16>| {
            assert_eq!(words.base_offset(), 4);
            words.push(5);
            words.stack().with_vec(|mut halves: StackVec<u16, 16>| {
                assert_eq!(halves.base_offset(), 8);
                halves.push(6);
                halves.stack().with_vec(|mut longs: StackVec<u64, 16>| {
                    let at = longs.base_offset();
                    assert_eq!(at % core::mem::align_of::<u64>(), 0);
                    assert!(at >= 10);
                    longs.push(7);
                    assert_eq!(longs.to_vec(), vec![7]);
                });
                assert_eq!(halves.to_vec(), vec![6]);
            });
            assert_eq!(words.to_vec(), vec![5]);
        });
        assert_eq!(bytes.to_vec(), vec![0xAB]);
    });
    assert_eq!(mem.len(), 0);
}

#[test]
fn with_vec_returns_closure_result() {
    let mut mem = StackMemory::<8>::new();
    let total = mem.stack().with_vec(|mut vec: StackVec<u64, 8>| {
        vec.extend(vec![1, 2, 3, 4]);
        let mut sum: u64 = 0;
        for i in 0..vec.len() {
            sum += vec.get(i);
        }
        sum
    });
    assert_eq!(total, 10);
    assert_eq!(mem.len(), 0);
}

#[test]
fn sequential_carves_reuse_the_region() {
    let mut mem = StackMemory::<4>::new();
    let mut stack = mem.stack();
    let first = stack.with_vec(|mut vec: StackVec<u32, 4>| {
        vec.push(11);
        vec.base_offset()
    });
    let second = stack.with_vec(|mut vec: StackVec<u32, 4>| {
        assert_eq!(vec.len(), 0);
        vec.push(22);
        assert_eq!(vec.to_vec(), vec![22]);
        vec.base_offset()
    });
    assert_eq!(first, 0);
    assert_eq!(second, 0);
    assert_eq!(mem.len(), 0);
}

#[test]
fn extend_equals_pushes() {
    let mut mem = StackMemory::<4>::new();
    mem.stack().with_vec(|mut a: StackVec<u16, 4>| {
        a.extend(vec![3, 1, 4]);
        a.push(1);
        a.extend(vec![5, 9]);
        assert_eq!(a.to_vec(), vec![3, 1, 4, 1, 5, 9]);
    });
    mem.stack().with_vec(|mut b: StackVec<u16, 4>| {
        b.extend(Vec::new());
        assert_eq!(b.len(), 0);
    });
    assert_eq!(mem.len(), 0);
}

#[test]
fn set_overwrites_one_element() {
    let mut mem = StackMemory::<4>::new();
    mem.stack().with_vec(|mut vec: StackVec<u32, 4>| {
        vec.extend(vec![1, 2, 3]);
        vec.set(1, 0xDEAD_BEEF);
        assert_eq!(vec.to_vec(), vec![1, 0xDEAD_BEEF, 3]);
        assert_eq!(vec.get(1), 0xDEAD_BEEF);
    });
}

#[test]
fn values_survive_the_byte_encoding() {
    let mut mem = StackMemory::<16>::new();
    mem.stack().with_vec(|mut vec: StackVec<u64, 16>| {
        vec.push(u64::MAX);
        vec.push(0x0102_0304_0506_0708);
        vec.push(0);
        assert_eq!(vec.to_vec(), vec![u64::MAX, 0x0102_0304_0506_0708, 0]);
    });
    mem.stack().with_vec(|mut vec: StackVec<u16, 16>| {
        vec.push(0xFF00);
        vec.push(0x00FF);
        assert_eq!(vec.to_vec(), vec![0xFF00, 0x00FF]);
    });
}

#[test]
fn empty_carve_is_empty() {
    let mut mem = StackMemory::<16>::new();
    assert_eq!(mem.len(), 0);
    let n = mem.stack().with_vec(|vec: StackVec<u8, 16>| vec.to_vec().len());
    assert_eq!(n, 0);
    assert_eq!(mem.len(), 0);
}

#[test]
fn region_length_tracks_nesting() {
    let mut mem = StackMemory::<4>::new();
    mem.stack().with_vec(|mut outer: StackVec<u8, 4>| {
        outer.extend(vec![1, 2, 3]);
        outer.stack().with_vec(|mut inner: StackVec<u32, 4>| {
            assert_eq!(inner.base_offset(), 4);
            inner.extend(vec![100, 200]);
            assert_eq!(inner.to_vec(), vec![100, 200]);
        });
        outer.push(4);
        assert_eq!(outer.to_vec(), vec![1, 2, 3, 4]);
        outer.stack().with_vec(|inner: StackVec<u32, 4>| {
            assert_eq!(inner.base_offset(), 4);
            assert_eq!(inner.len(), 0);
        });
    });
    assert_eq!(mem.len(), 0);
}
