use bumpy_vector::{BumpyEntry, BumpyVector};

#[test]
fn test_insert() {
    let mut h: BumpyVector<&str> = BumpyVector::new(100);

    // Insert a 5-byte value at 10
    h.insert(("hello", 10, 5).into()).unwrap();
    assert_eq!(1, h.len());

    // Earlier values are none
    assert!(h.get(8).is_none());
    assert!(h.get(9).is_none());

    // Middle values are all identical, no matter where in the entry we
    // retrieve it
    assert_eq!(&"hello", h.get(10).unwrap().entry);
    assert_eq!(10,       h.get(10).unwrap().index);
    assert_eq!(5,        h.get(10).unwrap().size);

    assert_eq!(&"hello", h.get(11).unwrap().entry);
    assert_eq!(10,       h.get(11).unwrap().index);
    assert_eq!(5,        h.get(11).unwrap().size);

    assert_eq!(&"hello", h.get(12).unwrap().entry);
    assert_eq!(10,       h.get(12).unwrap().index);
    assert_eq!(5,        h.get(12).unwrap().size);

    assert_eq!(&"hello", h.get(13).unwrap().entry);
    assert_eq!(10,       h.get(13).unwrap().index);
    assert_eq!(5,        h.get(13).unwrap().size);

    assert_eq!(&"hello", h.get(14).unwrap().entry);
    assert_eq!(10,       h.get(14).unwrap().index);
    assert_eq!(5,        h.get(14).unwrap().size);

    // Last couple entries are none
    assert!(h.get(15).is_none());
    assert!(h.get(16).is_none());

    // There should still be a single entry
    assert_eq!(1, h.len());
}

#[test]
fn test_zero_sized_insert() {
    let mut h: BumpyVector<&str> = BumpyVector::new(100);

    // Insert a 0-byte array
    assert!(h.insert(("hello", 10, 0).into()).is_err());
    assert_eq!(0, h.len());
}

#[test]
fn test_overlapping_one_byte_inserts() {
    let mut h: BumpyVector<&str> = BumpyVector::new(100);

    // Insert a 2-byte value at 10
    h.insert(("hello", 10, 2).into()).unwrap();
    assert_eq!(1, h.len());

    // We can insert before
    assert!(h.insert(("ok", 8,  1).into()).is_ok());
    assert_eq!(2, h.len());
    assert!(h.insert(("ok", 9,  1).into()).is_ok());
    assert_eq!(3, h.len());

    // We can't insert within
    assert!(h.insert(("error", 10, 1).into()).is_err());
    assert!(h.insert(("error", 11, 1).into()).is_err());
    assert_eq!(3, h.len());

    // We can insert after
    assert!(h.insert(("ok", 12, 1).into()).is_ok());
    assert_eq!(4, h.len());
    assert!(h.insert(("ok", 13, 1).into()).is_ok());
    assert_eq!(5, h.len());
}

#[test]
fn test_overlapping_multi_byte_inserts() {
    // Define 10-12, put something at 7-9 (good!)
    let mut h: BumpyVector<&str> = BumpyVector::new(100);
    h.insert(("hello", 10, 3).into()).unwrap();
    assert!(h.insert(("ok", 7,  3).into()).is_ok());

    // Define 10-12, try every overlapping bit
    let mut h: BumpyVector<&str> = BumpyVector::new(100);
    h.insert(BumpyEntry::from(("hello", 10, 3))).unwrap();
    assert!(h.insert(("error", 8,  3).into()).is_err());
    assert!(h.insert(("error", 9,  3).into()).is_err());
    assert!(h.insert(("error", 10, 3).into()).is_err());
    assert!(h.insert(("error", 11, 3).into()).is_err());
    assert!(h.insert(("error", 12, 3).into()).is_err());

    // 6-9 and 13-15 will work
    assert!(h.insert(BumpyEntry::from(("ok", 6,  3))).is_ok());
    assert!(h.insert(("ok", 13, 3).into()).is_ok());
    assert_eq!(3, h.len());
}

#[test]
fn test_remove() {
    // Define 10-12, put something at 7-9 (good!)
    let mut h: BumpyVector<&str> = BumpyVector::new(100);
    h.insert(("hello", 8, 2).into()).unwrap();
    h.insert(("hello", 10, 2).into()).unwrap();
    h.insert(("hello", 12, 2).into()).unwrap();
    assert_eq!(3, h.len());

    // Remove from the start of an entry
    let e = h.remove(10).unwrap();
    assert_eq!("hello", e.entry);
    assert_eq!(10,      e.index);
    assert_eq!(2,       e.size);
    assert_eq!(2,       h.len());
    assert!(h.get(10).is_none());
    assert!(h.get(11).is_none());

    // Put it back
    h.insert(("hello", 10, 2).into()).unwrap();
    assert_eq!(3, h.len());

    // Remove from the middle of an entry
    let e = h.remove(11).unwrap();
    assert_eq!("hello", e.entry);
    assert_eq!(10,      e.index);
    assert_eq!(2,       e.size);
    assert_eq!(2,       h.len());
    assert!(h.get(10).is_none());
    assert!(h.get(11).is_none());

    // Remove 11 again, which is nothing
    let result = h.remove(11);
    assert!(result.is_none());

    let e = h.remove(13).unwrap();
    assert_eq!("hello", e.entry);
    assert_eq!(12,      e.index);
    assert_eq!(2,       e.size);
    assert_eq!(1,       h.len());
    assert!(h.get(12).is_none());
    assert!(h.get(13).is_none());

    h.remove(8);
    assert_eq!(0, h.len());
    assert!(h.get(8).is_none());
    assert!(h.get(9).is_none());
}

#[test]
fn test_beginning() {
    let mut h: BumpyVector<&str> = BumpyVector::new(10);
    h.insert(("hello", 0, 2).into()).unwrap();

    assert_eq!(1, h.len());

    assert_eq!(&"hello", h.get(0).unwrap().entry);
    assert_eq!(0,        h.get(0).unwrap().index);
    assert_eq!(2,        h.get(0).unwrap().size);

    assert_eq!(&"hello", h.get(1).unwrap().entry);
    assert_eq!(0,        h.get(1).unwrap().index);
    assert_eq!(2,        h.get(1).unwrap().size);

    assert!(h.get(2).is_none());
}

#[test]
fn test_max_size() {
    // Inserting at 7-8-9 works
    let mut h: BumpyVector<&str> = BumpyVector::new(10);
    h.insert(("hello", 7, 3).into()).unwrap();
    assert_eq!(1, h.len());

    // Inserting at 8-9-10 and onward does not
    let mut h: BumpyVector<&str> = BumpyVector::new(10);
    assert!(h.insert(("hello", 8, 3).into()).is_err());
    assert_eq!(0, h.len());

    let mut h: BumpyVector<&str> = BumpyVector::new(10);
    assert!(h.insert(("hello", 9, 3).into()).is_err());
    assert_eq!(0, h.len());

    let mut h: BumpyVector<&str> = BumpyVector::new(10);
    assert!(h.insert(("hello", 10, 3).into()).is_err());
    assert_eq!(0, h.len());

    let mut h: BumpyVector<&str> = BumpyVector::new(10);
    assert!(h.insert(("hello", 11, 3).into()).is_err());
    assert_eq!(0, h.len());
}

#[test]
fn test_remove_range() {
    // Create an object
    let mut h: BumpyVector<&str> = BumpyVector::new(100);
    h.insert(("hello", 8, 2).into()).unwrap();
    h.insert(("hello", 10, 2).into()).unwrap();
    h.insert(("hello", 12, 2).into()).unwrap();
    assert_eq!(3, h.len());

    // Test removing the first two entries
    let result = h.remove_range(8, 4);
    assert_eq!(1, h.len());
    assert_eq!(2, result.len());

    assert_eq!("hello", result[0].entry);
    assert_eq!(8,       result[0].index);
    assert_eq!(2,       result[0].size);

    assert_eq!("hello", result[1].entry);
    assert_eq!(10,      result[1].index);
    assert_eq!(2,       result[1].size);

    // Re-create the object
    let mut h: BumpyVector<&str> = BumpyVector::new(100);
    h.insert(("hello", 8, 2).into()).unwrap();
    h.insert(("hello", 10, 2).into()).unwrap();
    h.insert(("hello", 12, 2).into()).unwrap();
    assert_eq!(3, h.len());

    // Test where the first entry starts left of the actual starting index
    let result = h.remove_range(9, 2);
    assert_eq!(1, h.len());
    assert_eq!(2, result.len());

    assert_eq!("hello", result[0].entry);
    assert_eq!(8,       result[0].index);
    assert_eq!(2,       result[0].size);

    assert_eq!("hello", result[1].entry);
    assert_eq!(10,      result[1].index);
    assert_eq!(2,       result[1].size);

    // Re-create the object
    let mut h: BumpyVector<&str> = BumpyVector::new(100);
    h.insert(("hello", 8, 2).into()).unwrap();
    h.insert(("hello", 10, 2).into()).unwrap();
    h.insert(("hello", 12, 2).into()).unwrap();
    assert_eq!(3, h.len());

    // Test the entire object
    let result = h.remove_range(0, 1000);
    assert_eq!(0, h.len());
    assert_eq!(3, result.len());

    assert_eq!("hello", result[0].entry);
    assert_eq!(8,       result[0].index);
    assert_eq!(2,       result[0].size);

    assert_eq!("hello", result[1].entry);
    assert_eq!(10,      result[1].index);
    assert_eq!(2,       result[1].size);
}

#[test]
fn test_get() {
    // Create an object
    let mut h: BumpyVector<&str> = BumpyVector::new(100);
    h.insert(("hello", 8, 2).into()).unwrap();

    // Test removing the first two entries
    assert!(h.get(7).is_none());
    assert!(h.get(8).is_some());
    assert!(h.get(9).is_some());
    assert!(h.get(10).is_none());
}

#[test]
fn test_get_exact() {
    // Create an object
    let mut h: BumpyVector<&str> = BumpyVector::new(100);
    h.insert(("hello", 8, 2).into()).unwrap();

    // Test removing the first two entries
    assert!(h.get_exact(7).is_none());
    assert!(h.get_exact(8).is_some());
    assert!(h.get_exact(9).is_none());
    assert!(h.get_exact(10).is_none());
}

#[test]
fn test_get_range_skip_empty() {
    // Create a BumpyVector that looks like:
    //
    // [--0-- --1-- --2-- --3-- --4-- --5-- --6-- --7-- --8-- --9--]
    //        +-----------------            +----------------+
    //        |   "a" (2)| "b" |            |      "c"       |
    //        +----------+------            +----------------+
    let mut h: BumpyVector<&str> = BumpyVector::new(10);
    h.insert(("a", 1, 2).into()).unwrap();
    h.insert(("b", 3, 1).into()).unwrap();
    h.insert(("c", 6, 3).into()).unwrap();

    // Get just the first two
    let result = h.get_range(2, 4, false);
    assert_eq!(2, result.len());

    // Get the first two, then just barely the third
    let result = h.get_range(2, 5, false);
    assert_eq!(3, result.len());

    // Get the first two again, starting further left
    let result = h.get_range(1, 5, false);
    assert_eq!(2, result.len());

    // Get all three again
    let result = h.get_range(1, 6, false);
    assert_eq!(3, result.len());

    // Get way more than everything
    let result = h.get_range(0, 100, false);
    assert_eq!(3, result.len());
}

#[test]
fn test_get_range_include_empty() {
    // Create a BumpyVector that looks like:
    //
    // [--0-- --1-- --2-- --3-- --4-- --5-- --6-- --7-- --8-- --9--]
    //        +-----------------            +----------------+
    //        |   "a" (2)| "b" |            |      "c"       |
    //        +----------+------            +----------------+
    let mut h: BumpyVector<&str> = BumpyVector::new(10);
    h.insert(("a", 1, 2).into()).unwrap();
    h.insert(("b", 3, 1).into()).unwrap();
    h.insert(("c", 6, 3).into()).unwrap();

    // Get just the first two, plus two empty spots
    let result = h.get_range(2, 4, true);
    assert_eq!(4, result.len());

    // Get the first two, the two empty spots, then just barely the third
    let result = h.get_range(2, 5, true);
    assert_eq!(5, result.len());

    // Get an empty spot, then the first one
    let result = h.get_range(0, 3, true);
    assert_eq!(2, result.len());

    // Get an empty spot, then the first two
    let result = h.get_range(0, 4, true);
    assert_eq!(3, result.len());

    // Get the last one, then the empty spot after it, then we're at the end and should stop
    let result = h.get_range(8, 1000, true);
    assert_eq!(2, result.len());
}

#[test]
fn test_iterator_with_empty() {
    // Create a BumpyVector that looks like:
    //
    // [--0-- --1-- --2-- --3-- --4-- --5-- --6-- --7-- --8-- --9--]
    //        +-----------------            +----------------+
    //        |   "a" (2)| "b" |            |      "c"       |
    //        +----------+------            +----------------+
    let mut h: BumpyVector<&str> = BumpyVector::new(10);
    h.insert(("a", 1, 2).into()).unwrap();
    h.insert(("b", 3, 1).into()).unwrap();
    h.insert(("c", 6, 3).into()).unwrap();

    // Iterate over everything, including empty values
    h.iterate_over_empty = true;
    let mut iter = h.into_iter();

    // None (index 0)
    let e = iter.next().unwrap();
    assert!(e.entry.is_none());
    assert_eq!(0, e.index);
    assert_eq!(1, e.size);

    // Entry "a" (index 1-2)
    let e = iter.next().unwrap();
    assert_eq!(Some(&"a"), e.entry);
    assert_eq!(1,          e.index);
    assert_eq!(2,          e.size);

    // Entry "b" (index 3)
    let e = iter.next().unwrap();
    assert_eq!(Some(&"b"), e.entry);
    assert_eq!(3,          e.index);
    assert_eq!(1,          e.size);

    // None (index 4)
    let e = iter.next().unwrap();
    assert!(e.entry.is_none());
    assert_eq!(4, e.index);
    assert_eq!(1, e.size);

    // None (index 5)
    let e = iter.next().unwrap();
    assert!(e.entry.is_none());
    assert_eq!(5, e.index);
    assert_eq!(1, e.size);

    // Entry "c" (index 6-8)
    let e = iter.next().unwrap();
    assert_eq!(Some(&"c"), e.entry);
    assert_eq!(6,          e.index);
    assert_eq!(3,          e.size);

    // None (index 9)
    let e = iter.next().unwrap();
    assert!(e.entry.is_none());
    assert_eq!(9, e.index);
    assert_eq!(1, e.size);

    // That's it!
    assert!(iter.next().is_none());
    assert!(iter.next().is_none());
}

#[test]
fn test_iterator_skip_empty() {
    // Create a BumpyVector that looks like:
    //
    // [--0-- --1-- --2-- --3-- --4-- --5-- --6-- --7-- --8-- --9--]
    //        +-----------------            +----------------+
    //        |   "a" (2)| "b" |            |      "c"       |
    //        +----------+------            +----------------+
    let mut h: BumpyVector<&str> = BumpyVector::new(10);
    h.insert(("a", 1, 2).into()).unwrap();
    h.insert(("b", 3, 1).into()).unwrap();
    h.insert(("c", 6, 3).into()).unwrap();

    // Iterate over entries only, skip empty
    h.iterate_over_empty = false;
    let mut iter = h.into_iter();

    // Entry "a" (index 1-2)
    let e = iter.next().unwrap();
    assert_eq!(Some(&"a"), e.entry);
    assert_eq!(1,          e.index);
    assert_eq!(2,          e.size);

    // Entry "b" (index 3)
    let e = iter.next().unwrap();
    assert_eq!(Some(&"b"), e.entry);
    assert_eq!(3,          e.index);
    assert_eq!(1,          e.size);

    // Entry "c" (index 6-8)
    let e = iter.next().unwrap();
    assert_eq!(Some(&"c"), e.entry);
    assert_eq!(6,          e.index);
    assert_eq!(3,          e.size);

    // That's it!
    assert!(iter.next().is_none());
    assert!(iter.next().is_none());
}
