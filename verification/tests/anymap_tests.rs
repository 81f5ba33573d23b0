use graphiti::AnyMap;
use std::any::TypeId;

struct EntryA {
    pub value: u32,
}

struct EntryB {
    pub message: String,
}

enum Entry {
    A(EntryA),
    B(EntryB),
}

impl Entry {
    fn value(&self) -> u32 {
        match self {
            Entry::A(a) => a.value,
            Entry::B(_) => panic!("not an EntryA"),
        }
    }

    fn message(&self) -> &str {
        match self {
            Entry::B(b) => &b.message,
            Entry::A(_) => panic!("not an EntryB"),
        }
    }
}

#[test]
fn anymap() {
    let mut anymap = AnyMap::new();
    anymap.insert(TypeId::of::<EntryA>(), Entry::A(EntryA { value: 3 }));
    assert_eq!(anymap.find(TypeId::of::<EntryA>()).unwrap().value(), 3);

    if let Some(entry) = anymap.find_mut(TypeId::of::<EntryA>()) {
        *entry = Entry::A(EntryA { value: 10 });
    }
    assert_eq!(anymap.find(TypeId::of::<EntryA>()).unwrap().value(), 10);

    anymap.insert(
        TypeId::of::<EntryB>(),
        Entry::B(EntryB {
            message: "Hi!".to_string(),
        }),
    );
    assert_eq!(anymap.find(TypeId::of::<EntryB>()).unwrap().message(), "Hi!");

    anymap.insert(TypeId::of::<EntryA>(), Entry::A(EntryA { value: 4 }));
    assert_eq!(anymap.find(TypeId::of::<EntryA>()).unwrap().value(), 4);

    anymap.remove(TypeId::of::<EntryB>());
    assert!(anymap.find(TypeId::of::<EntryB>()).is_none());
}

#[test]
fn anymap_iter() {
    let mut anymap = AnyMap::default();
    anymap.insert(TypeId::of::<EntryA>(), Entry::A(EntryA { value: 3 }));
    anymap.insert(
        TypeId::of::<EntryB>(),
        Entry::B(EntryB {
            message: "Hi!".to_string(),
        }),
    );

    let mut walk = anymap.iter();
    let mut seen = Vec::new();
    while let Some((type_id, _value)) = walk.next() {
        println!("TypeId: {:?}", type_id);
        seen.push(*type_id);
    }
    assert_eq!(seen, vec![TypeId::of::<EntryA>(), TypeId::of::<EntryB>()]);
}

#[test]
fn anymap_find_mut_changes_the_stored_value() {
    let mut anymap = AnyMap::new();
    anymap.insert(TypeId::of::<u32>(), 1u32);
    *anymap.find_mut(TypeId::of::<u32>()).unwrap() += 41;
    assert_eq!(anymap.find(TypeId::of::<u32>()), Some(&42));
    assert!(anymap.find_mut(TypeId::of::<u64>()).is_none());
}

#[test]
fn anymap_remove_keeps_other_types() {
    let mut anymap = AnyMap::new();
    anymap.insert(TypeId::of::<u8>(), 8u32);
    anymap.insert(TypeId::of::<u16>(), 16u32);
    anymap.insert(TypeId::of::<u32>(), 32u32);
    anymap.remove(TypeId::of::<u16>());
    anymap.remove(TypeId::of::<i64>());
    assert_eq!(anymap.find(TypeId::of::<u8>()), Some(&8));
    assert_eq!(anymap.find(TypeId::of::<u16>()), None);
    assert_eq!(anymap.find(TypeId::of::<u32>()), Some(&32));
}
