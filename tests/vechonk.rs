use vechonk::{PtrData, RawVechonk, Vechonk};

#[test]
fn new() {
    let chonk = Vechonk::<()>::new();

    assert_eq!(chonk.len(), 0);
}

#[test]
fn zero_capacity() {
    let chonk = Vechonk::<()>::with_capacity(0);

    assert_eq!(chonk.len(), 0);
}

#[test]
fn some_capacity() {
    let chonk = Vechonk::<()>::with_capacity(96);

    assert_eq!(chonk.len(), 0);
}

#[test]
fn push_single_sized_elem() {
    let mut chonk = Vechonk::<u8>::with_capacity(96);

    chonk.push(1);

    assert_eq!(chonk.len(), 1);
}

#[test]
fn push_single_unsized_elem() {
    let mut chonk = Vechonk::<String>::with_capacity(96);

    chonk.push("hello".into());

    assert_eq!(chonk.len(), 1);
}

#[test]
fn push_two_sized_elem() {
    let mut chonk = Vechonk::<u8>::with_capacity(96);

    chonk.push(1);
    chonk.push(2);

    assert_eq!(chonk.len(), 2);
    assert_eq!(chonk.elem_size(), 2);
    assert_eq!(chonk.data_section_size(), 16); // two offsets
}

#[test]
fn push_two_unsized_elem() {
    let mut chonk = Vechonk::<String>::with_capacity(96);

    chonk.push("hello".into());
    chonk.push("uwu".into());

    assert_eq!(chonk.len(), 2);
    assert_eq!(chonk.elem_size(), 8);
    assert_eq!(chonk.data_section_size(), 32); // two offsets + lengths
}

#[test]
#[should_panic]
fn index_out_of_bounds() {
    let chonk = Vechonk::<String>::with_capacity(96);

    let _ = chonk.index(0);
}

#[test]
fn index() {
    let mut chonk = Vechonk::<String>::with_capacity(96);

    chonk.push("hello".into());
    chonk.push("uwu".into());

    let hello = &chonk.index(0);
    let uwu = &chonk.index(1);

    assert_eq!(hello, "hello");
    assert_eq!(uwu, "uwu");
}

#[test]
fn empty_containers_allocate_nothing() {
    let a = Vechonk::<String>::new();
    let b = Vechonk::<String>::with_capacity(0);
    assert_eq!(a.len(), 0);
    assert_eq!(b.len(), 0);
    assert!(a.is_empty());
    assert!(b.is_empty());
    assert_eq!(a.cap(), 0);
    assert_eq!(b.cap(), 0);
}

#[test]
fn capacity_is_rounded_down_to_record_alignment() {
    assert_eq!(Vechonk::<u8>::with_capacity(100).cap(), 96);
    assert_eq!(Vechonk::<u8>::with_capacity(7).cap(), 0);
    assert_eq!(Vechonk::<u8>::with_capacity(8).cap(), 8);
}

#[test]
fn get_out_of_range_is_none() {
    let mut chonk = Vechonk::<String>::new();
    assert!(chonk.get(0).is_none());
    chonk.push("a".into());
    assert!(chonk.get(1).is_none());
    assert!(chonk.get(usize::MAX).is_none());
    assert_eq!(chonk.get(0), Some(String::from("a")));
}

#[test]
fn first_push_grows_empty_buffer() {
    let mut chonk = Vechonk::<String>::new();
    chonk.push("hello".into());
    // (0 + 5 + 16) * 2 = 42, rounded down to 40
    assert_eq!(chonk.cap(), 40);
    assert_eq!(chonk.elem_size(), 5);
    assert_eq!(chonk.data_section_size(), 16);
}

#[test]
fn growth_keeps_earlier_elements() {
    let mut chonk = Vechonk::<String>::with_capacity(32);
    let words = ["zero", "one", "two", "three", "four", "five", "six", "seven", "eight", "nine", "ä€𝄞"];
    for (k, w) in words.iter().enumerate() {
        let cap_before = chonk.cap();
        chonk.push((*w).to_string());
        assert_eq!(chonk.len(), k + 1);
        for (i, earlier) in words[..=k].iter().enumerate() {
            assert_eq!(chonk.get(i).unwrap(), *earlier);
        }
        assert!(chonk.cap() >= cap_before);
    }
    let total: usize = words.iter().map(|w| w.len()).sum();
    assert_eq!(chonk.elem_size(), total);
    assert_eq!(chonk.data_section_size(), words.len() * 16);
}

#[test]
fn sized_elements_many() {
    let mut chonk = Vechonk::<u8>::new();
    for v in 0..200u32 {
        chonk.push(v as u8);
    }
    assert_eq!(chonk.len(), 200);
    for i in 0..200usize {
        assert_eq!(chonk.index(i), i as u8);
    }
    assert_eq!(chonk.elem_size(), 200);
    assert_eq!(chonk.data_section_size(), 200 * 8);
}

#[test]
fn unit_elements_take_no_payload() {
    let mut chonk = Vechonk::<()>::new();
    chonk.push(());
    chonk.push(());
    assert_eq!(chonk.len(), 2);
    assert_eq!(chonk.elem_size(), 0);
    assert_eq!(chonk.data_section_size(), 16);
    assert_eq!(chonk.get(1), Some(()));
}

#[test]
fn forward_iteration_in_order() {
    let mut chonk = Vechonk::<String>::with_capacity(96);
    chonk.push("hello".into());
    chonk.push("uwu".into());
    let mut it = chonk.iter();
    assert_eq!(it.size_hint(), (2, Some(2)));
    assert_eq!(it.next(), Some(String::from("hello")));
    assert_eq!(it.len(), 1);
    assert_eq!(it.next(), Some(String::from("uwu")));
    assert_eq!(it.next(), None);
    assert_eq!(it.len(), 0);
}

#[test]
fn consuming_iteration_in_order() {
    let mut chonk = Vechonk::<String>::new();
    chonk.push("a".into());
    chonk.push("bc".into());
    chonk.push("def".into());
    let mut it = chonk.into_iter();
    assert_eq!(it.len(), 3);
    assert_eq!(it.next(), Some(String::from("a")));
    assert_eq!(it.next(), Some(String::from("bc")));
    assert_eq!(it.size_hint(), (1, Some(1)));
    assert_eq!(it.next(), Some(String::from("def")));
    assert_eq!(it.next(), None);
}

#[test]
fn consuming_iteration_abandoned_early() {
    let mut chonk = Vechonk::<u8>::new();
    chonk.push(7);
    chonk.push(8);
    let mut it = chonk.into_iter();
    assert_eq!(it.next(), Some(7));
    drop(it);
}

#[test]
fn mutable_iteration_overwrites_in_place() {
    let mut chonk = Vechonk::<String>::new();
    chonk.push("abc".into());
    chonk.push("xy".into());
    let mut it = chonk.iter_mut();
    assert_eq!(it.len(), 2);
    let g0 = it.next().unwrap();
    let g1 = it.next().unwrap();
    assert!(it.next().is_none());
    assert_eq!(g0.index(), 0);
    assert_eq!(g1.index(), 1);
    assert_eq!(g1.read(&chonk), "xy");
    g0.write(&mut chonk, "ABC".into());
    g1.write(&mut chonk, "XY".into());
    assert_eq!(chonk.index(0), "ABC");
    assert_eq!(chonk.index(1), "XY");
    assert_eq!(chonk.elem_size(), 5);
}

#[test]
fn get_mut_in_and_out_of_range() {
    let mut chonk = Vechonk::<u8>::with_capacity(96);
    chonk.push(1);
    assert!(chonk.get_mut(1).is_none());
    let g = chonk.get_mut(0).unwrap();
    g.write(&mut chonk, 9);
    assert_eq!(chonk.index(0), 9);
    chonk.set(0, 4);
    assert_eq!(chonk.get(0), Some(4));
}

#[test]
fn raw_pop_returns_last_and_keeps_payload_bytes() {
    let mut raw = RawVechonk::<String>::with_capacity(96);
    assert!(raw.pop().is_none());
    raw.push("hello".into());
    raw.push("uwu".into());
    let copy = raw.copy();
    assert_eq!(raw.pop(), Some(String::from("uwu")));
    assert_eq!(raw.len(), 1);
    assert_eq!(raw.elem_size(), 8);
    assert_eq!(raw.data_section_size(), 16);
    assert_eq!(raw.pop(), Some(String::from("hello")));
    assert!(raw.pop().is_none());
    assert_eq!(copy.len(), 2);
    assert_eq!(copy.get_unchecked(1), "uwu");
    assert_eq!(RawVechonk::<String>::data_align(), 8);
}

#[test]
fn raw_push_after_pop_places_new_element_after_used_bytes() {
    let mut raw = RawVechonk::<u8>::with_capacity(32);
    raw.push(1);
    raw.push(2);
    assert_eq!(raw.pop(), Some(2));
    raw.push(3);
    assert_eq!(raw.elem_size(), 3);
    assert_eq!(raw.get_unchecked(0), 1);
    assert_eq!(raw.get_unchecked(1), 3);
}

#[test]
fn default_is_empty() {
    let chonk: Vechonk<String> = Default::default();
    assert_eq!(chonk.len(), 0);
    assert_eq!(chonk.cap(), 0);
}

#[test]
fn unchecked_accessors() {
    let mut chonk = Vechonk::<String>::with_capacity(64);
    chonk.push("héllo".into());
    chonk.push("uwu".into());
    assert_eq!(chonk.get_unchecked(0), "héllo");
    assert_eq!(chonk.get_unchecked(1), "uwu");
    let g = chonk.get_unchecked_mut(1);
    assert_eq!(g.index(), 1);
    g.write(&mut chonk, "owo".into());
    assert_eq!(chonk.get_unchecked(1), "owo");
    assert_eq!(chonk.get_unchecked(0), "héllo");
}

#[test]
fn records_hold_offsets_and_lengths() {
    let mut raw = RawVechonk::<String>::with_capacity(96);
    raw.push("hello".into());
    raw.push("uwu".into());
    assert_eq!(raw.get_unchecked_ptr(0), PtrData { offset: 0, meta: 5 });
    assert_eq!(raw.get_unchecked_ptr(1), PtrData { offset: 5, meta: 3 });
    let mut bytes = RawVechonk::<u8>::with_capacity(96);
    bytes.push(4);
    bytes.push(5);
    assert_eq!(bytes.get_unchecked_ptr(1), PtrData { offset: 1, meta: 1 });
    assert_eq!(bytes.cap(), 96);
}
