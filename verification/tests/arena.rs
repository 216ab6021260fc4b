use gen_array::GenArray;

#[test]
fn iter() {
    let mut arr = GenArray::new();

    let _ = arr.push("hello");
    let b = arr.push("world");
    let c = arr.push("lorem");
    let _ = arr.push("ipsum");
    arr.remove(b);
    arr.remove(c);

    let mut seen: Vec<&'static str> = Vec::new();
    let mut it = arr.iter();
    while let Some(word) = it.next() {
        seen.push(*word);
    }

    assert_eq!(vec!["hello", "ipsum"], seen);
}

#[test]
fn iter_mut() {
    let mut arr = GenArray::new();

    let _ = arr.push(2);
    let b = arr.push(3);
    let c = arr.push(5);
    let _ = arr.push(8);
    arr.remove(b);
    arr.remove(c);

    let mut it = arr.iter_mut();
    while let Some(number) = it.next() {
        *number *= 2;
    }

    let mut seen: Vec<u32> = Vec::new();
    let mut it = arr.iter();
    while let Some(number) = it.next() {
        seen.push(*number);
    }

    assert_eq!(vec![4, 16], seen);
}

#[test]
fn works() {
    let mut arr = GenArray::new();

    let a = arr.push(String::from("hello"));
    let b = arr.push(String::from("world"));
    let c = arr.push(String::from("lorem"));
    let d = arr.push(String::from("ipsum"));
    arr.remove(b);
    arr.remove(c);
    let e = arr.push(String::from("dolor"));
    let f = arr.push(String::from("sit"));
    let g = arr.push(String::from("amet"));
    arr.remove(c); // trying to remove something for the second
                   // time should just do nothing and not for example
                   // panic

    *arr.get_mut(f).unwrap() = String::from("quanti");

    assert_eq!(arr.get(a), Some(&"hello".into()));
    assert_eq!(arr.get(b), None);
    assert_eq!(arr.get(c), None);
    assert_eq!(arr.get(d), Some(&"ipsum".into()));
    assert_eq!(arr.get(e), Some(&"dolor".into()));
    assert_eq!(arr.get(f), Some(&"quanti".into()));
    assert_eq!(arr.get(g), Some(&"amet".into()));

    assert_eq!(a.generation, 0);
    assert_eq!(b.generation, 0);
    assert_eq!(c.generation, 0);
    assert_eq!(d.generation, 0);
    assert_eq!(e.generation, 1);
    assert_eq!(f.generation, 1);
    assert_eq!(g.generation, 0);

    assert_eq!(a.slot, 0);
    assert_eq!(b.slot, 1);
    assert_eq!(c.slot, 2);
    assert_eq!(d.slot, 3);
    assert_eq!(e.slot, 1);
    assert_eq!(f.slot, 2);
    assert_eq!(g.slot, 4);
}
