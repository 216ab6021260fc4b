use gen_array::{GenArray, Index};

fn collect<T: Clone>(arr: &GenArray<T>) -> Vec<T> {
    let mut seen = Vec::new();
    let mut it = arr.iter();
    while let Some(value) = it.next() {
        seen.push(value.clone());
    }
    seen
}

#[test]
fn new_arena_holds_nothing() {
    let arr: GenArray<u8> = GenArray::new();
    assert_eq!(collect(&arr), Vec::<u8>::new());
    assert_eq!(arr.get(Index { slot: 0, generation: 0 }), None);
    assert!(arr.iter().next().is_none());
}

#[test]
fn default_arena_holds_nothing() {
    let mut arr: GenArray<u8> = GenArray::default();
    assert_eq!(collect(&arr), Vec::<u8>::new());
    assert_eq!(arr.push(9), Index { slot: 0, generation: 0 });
}

#[test]
fn first_handles_count_up_from_position_zero() {
    let mut arr = GenArray::new();
    assert_eq!(arr.push('a'), Index { slot: 0, generation: 0 });
    assert_eq!(arr.push('b'), Index { slot: 1, generation: 0 });
    assert_eq!(arr.push('c'), Index { slot: 2, generation: 0 });
}

#[test]
fn inserted_value_is_found_until_its_handle_is_removed() {
    let mut arr = GenArray::new();
    let a = arr.push(10);
    assert_eq!(arr.get(a), Some(&10));
    let b = arr.push(20);
    let c = arr.push(30);
    assert_eq!(arr.get(a), Some(&10));
    arr.remove(b);
    assert_eq!(arr.get(a), Some(&10));
    let d = arr.push(40);
    arr.remove(c);
    arr.remove(d);
    assert_eq!(arr.get(a), Some(&10));
    arr.remove(a);
    assert_eq!(arr.get(a), None);
}

#[test]
fn removed_handle_stays_absent_when_its_slot_is_reused() {
    let mut arr = GenArray::new();
    let old = arr.push("old");
    arr.remove(old);
    assert_eq!(arr.get(old), None);
    let new = arr.push("new");
    assert_eq!(new.slot, old.slot);
    assert_ne!(new, old);
    assert_eq!(arr.get(old), None);
    assert_eq!(arr.get_mut(old), None);
    assert_eq!(arr.get(new), Some(&"new"));
    arr.remove(new);
    let newer = arr.push("newer");
    assert_eq!(arr.get(old), None);
    assert_eq!(arr.get(new), None);
    assert_eq!(arr.get(newer), Some(&"newer"));
}

#[test]
fn removal_through_stale_handle_keeps_the_new_value() {
    let mut arr = GenArray::new();
    let old = arr.push(1);
    arr.remove(old);
    let new = arr.push(2);
    arr.remove(old);
    assert_eq!(arr.get(new), Some(&2));
    assert_eq!(collect(&arr), vec![2]);
}

#[test]
fn second_removal_queues_no_slot_twice() {
    let mut arr = GenArray::new();
    let a = arr.push(1);
    let b = arr.push(2);
    arr.remove(a);
    arr.remove(a);
    arr.remove(a);
    assert_eq!(arr.get(b), Some(&2));
    let c = arr.push(3);
    let d = arr.push(4);
    assert_eq!(c, Index { slot: 0, generation: 1 });
    assert_eq!(d, Index { slot: 2, generation: 0 });
    assert_eq!(collect(&arr), vec![3, 2, 4]);
}

#[test]
fn removal_through_unknown_handle_changes_nothing() {
    let mut arr = GenArray::new();
    let a = arr.push(1);
    arr.remove(Index { slot: 7, generation: 0 });
    arr.remove(Index { slot: u32::MAX, generation: u32::MAX });
    arr.remove(Index { slot: 0, generation: 1 });
    assert_eq!(arr.get(a), Some(&1));
    assert_eq!(arr.push(2), Index { slot: 1, generation: 0 });
    assert_eq!(collect(&arr), vec![1, 2]);
}

#[test]
fn lookup_rejects_out_of_range_and_wrong_generation() {
    let mut arr = GenArray::new();
    let a = arr.push(5);
    assert_eq!(arr.get(Index { slot: 1, generation: 0 }), None);
    assert_eq!(arr.get(Index { slot: u32::MAX, generation: 0 }), None);
    assert_eq!(arr.get(Index { slot: 0, generation: 1 }), None);
    assert_eq!(arr.get_mut(Index { slot: 1, generation: 0 }), None);
    assert_eq!(arr.get_mut(Index { slot: 0, generation: 1 }), None);
    assert_eq!(arr.get(a), Some(&5));
}

#[test]
fn generation_goes_up_by_one_with_each_reuse() {
    let mut arr = GenArray::new();
    let mut handle = arr.push(0u32);
    assert_eq!(handle, Index { slot: 0, generation: 0 });
    for cycle in 1..=5u32 {
        arr.remove(handle);
        let next = arr.push(cycle);
        assert_eq!(next.slot, 0);
        assert_eq!(next.generation, handle.generation + 1);
        assert_eq!(next.generation, cycle);
        handle = next;
    }
}

#[test]
fn oldest_free_slot_is_reused_first() {
    let mut arr = GenArray::new();
    let a = arr.push('a');
    let b = arr.push('b');
    let c = arr.push('c');
    arr.remove(c);
    arr.remove(a);
    arr.remove(b);
    assert_eq!(arr.push('x'), Index { slot: 2, generation: 1 });
    assert_eq!(arr.push('y'), Index { slot: 0, generation: 1 });
    assert_eq!(arr.push('z'), Index { slot: 1, generation: 1 });
    assert_eq!(arr.push('w'), Index { slot: 3, generation: 0 });
}

#[test]
fn traversal_goes_by_ascending_position_and_skips_tombstones() {
    let mut arr = GenArray::new();

    let _a = arr.push(String::from("hello"));
    let b = arr.push(String::from("world"));
    let c = arr.push(String::from("lorem"));
    let _d = arr.push(String::from("ipsum"));
    arr.remove(b);
    arr.remove(c);
    let _e = arr.push(String::from("dolor"));
    let f = arr.push(String::from("sit"));
    let _g = arr.push(String::from("amet"));
    arr.remove(c);
    *arr.get_mut(f).unwrap() = String::from("quanti");

    assert_eq!(
        collect(&arr),
        vec!["hello", "dolor", "quanti", "ipsum", "amet"]
    );
}

#[test]
fn traversal_can_be_started_again() {
    let mut arr = GenArray::new();
    let _ = arr.push(1);
    let b = arr.push(2);
    let _ = arr.push(3);
    arr.remove(b);
    assert_eq!(collect(&arr), vec![1, 3]);
    assert_eq!(collect(&arr), vec![1, 3]);
}

#[test]
fn traversal_stays_at_its_end() {
    let mut arr = GenArray::new();
    let a = arr.push(1);
    let _ = arr.push(2);
    arr.remove(a);
    let mut it = arr.iter();
    assert_eq!(it.next(), Some(&2));
    assert_eq!(it.next(), None);
    assert_eq!(it.next(), None);
}

#[test]
fn traversal_of_tombstones_only_yields_nothing() {
    let mut arr = GenArray::new();
    let a = arr.push(1);
    let b = arr.push(2);
    arr.remove(a);
    arr.remove(b);
    assert_eq!(collect(&arr), Vec::<i32>::new());
    assert!(arr.iter_mut().next().is_none());
}

#[test]
fn write_through_get_mut_is_seen_by_get() {
    let mut arr = GenArray::new();
    let a = arr.push(1);
    let b = arr.push(2);
    *arr.get_mut(a).unwrap() = 100;
    assert_eq!(arr.get(a), Some(&100));
    assert_eq!(arr.get(b), Some(&2));
    assert_eq!(arr.push(3), Index { slot: 2, generation: 0 });
}

#[test]
fn write_through_iter_mut_is_seen_by_get() {
    let mut arr = GenArray::new();
    let a = arr.push(1);
    let b = arr.push(2);
    let c = arr.push(3);
    arr.remove(b);
    {
        let mut it = arr.iter_mut();
        while let Some(value) = it.next() {
            *value += 10;
        }
    }
    assert_eq!(arr.get(a), Some(&11));
    assert_eq!(arr.get(b), None);
    assert_eq!(arr.get(c), Some(&13));
    assert_eq!(arr.push(4), Index { slot: 1, generation: 1 });
}

#[test]
fn iter_mut_hands_out_one_value_after_the_other() {
    let mut arr = GenArray::new();
    let _ = arr.push(String::from("a"));
    let b = arr.push(String::from("b"));
    let _ = arr.push(String::from("c"));
    arr.remove(b);
    let mut it = arr.iter_mut();
    assert_eq!(it.next().map(|s| s.clone()), Some(String::from("a")));
    assert_eq!(it.pos, 1);
    assert_eq!(it.next().map(|s| s.clone()), Some(String::from("c")));
    assert_eq!(it.pos, 3);
    assert!(it.next().is_none());
    assert_eq!(it.pos, 3);
}

#[test]
fn try_push_stores_where_there_is_room() {
    let mut arr = GenArray::new();
    let a = arr.try_push(1);
    assert_eq!(a, Ok(Index { slot: 0, generation: 0 }));
    arr.remove(a.unwrap());
    let b = arr.try_push(2);
    assert_eq!(b, Ok(Index { slot: 0, generation: 1 }));
    assert_eq!(arr.get(b.unwrap()), Some(&2));
    assert_eq!(arr.push(3), Index { slot: 1, generation: 0 });
}

#[test]
fn arenas_are_independent() {
    let mut one = GenArray::new();
    let mut two = GenArray::new();
    let a = one.push(1);
    let b = two.push(2);
    assert_eq!(a, b);
    one.remove(a);
    assert_eq!(one.get(a), None);
    assert_eq!(two.get(b), Some(&2));
}

#[test]
fn handles_compare_by_both_fields() {
    let h = Index { slot: 1, generation: 2 };
    let copy = h;
    assert_eq!(h, copy);
    assert_ne!(h, Index { slot: 1, generation: 3 });
    assert_ne!(h, Index { slot: 2, generation: 2 });
}

#[test]
fn into_raw_packs_position_high_and_generation_low() {
    assert_eq!(Index { slot: 0, generation: 0 }.into_raw(), 0);
    assert_eq!(Index { slot: 1, generation: 0 }.into_raw(), 0x1_0000_0000);
    assert_eq!(Index { slot: 0, generation: 1 }.into_raw(), 1);
    assert_eq!(Index { slot: 3, generation: 7 }.into_raw(), 0x3_0000_0007);
    assert_eq!(
        Index { slot: u32::MAX, generation: u32::MAX }.into_raw(),
        u64::MAX
    );
    assert_eq!(
        Index { slot: 0xdead_beef, generation: 0x0bad_cafe }.into_raw(),
        0xdead_beef_0bad_cafe
    );
}

#[test]
fn into_raw_of_handles_from_the_arena() {
    let mut arr = GenArray::new();
    let a = arr.push(());
    let b = arr.push(());
    arr.remove(a);
    let c = arr.push(());
    assert_eq!(a.into_raw(), 0);
    assert_eq!(b.into_raw(), 1 << 32);
    assert_eq!(c.into_raw(), 1);
}
