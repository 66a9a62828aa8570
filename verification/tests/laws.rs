use rand::seq::SliceRandom;
use skl::arena::Arena;
use skl::buffer::{BufferFull, VacantBuffer};
use skl::codec::{
    decode_key_size_and_height, decode_value, encode_key_size_and_height, encode_value, is_removed,
};
use skl::fixtures::{big_value, key, new_value, zero_padded};
use skl::sampler::grows;
use skl::{
    ArenaError, Ascend, Bound, Comparator, Descend, Either, Error, MmapOptions, OpenAction,
    OpenOptions, Options, Order, SkipMap,
};

fn roomy() -> SkipMap {
    SkipMap::with_options(Options::new().with_capacity(1 << 20)).unwrap()
}

fn collect_all(l: &SkipMap, version: u64) -> Vec<(Vec<u8>, u64, Option<Vec<u8>>)> {
    let mut out = Vec::new();
    let mut it = l.iter_all_versions(version);
    while let Some(e) = it.next() {
        let value = if e.is_removed() { None } else { Some(e.value().to_vec()) };
        out.push((e.key().to_vec(), e.version(), value));
    }
    out
}

#[test]
fn test_debug() {
    let arena = Arena::new(1024);
    assert_eq!(arena.capacity(), 1024);
    assert_eq!(arena.size(), 1);
    assert_eq!(arena.get_byte(0), 0);

    let err = ArenaError::InsufficientSpace { requested: 1, remaining: 0 };
    assert_eq!(err.to_string(), "allocation failed because arena is full");
}

#[test]
fn arena_allocates_aligned_offsets() {
    let mut arena = Arena::new(100);
    assert_eq!(arena.allocate(10, 8, 0), Ok((8, 17)));
    assert_eq!(arena.size(), 18);
    assert_eq!(arena.remaining(), 82);
    assert_eq!(arena.allocate(3, 1, 0), Ok((18, 3)));
    assert_eq!(arena.size(), 21);
    assert_eq!(arena.allocate(4, 4, 0), Ok((24, 7)));
    assert_eq!(arena.size(), 28);
}

#[test]
fn arena_refuses_what_does_not_fit_and_stays_usable() {
    let mut arena = Arena::new(32);
    assert_eq!(
        arena.allocate(40, 1, 0),
        Err(ArenaError::InsufficientSpace { requested: 40, remaining: 31 })
    );
    assert_eq!(arena.size(), 1);
    assert_eq!(
        arena.allocate(20, 1, 12),
        Err(ArenaError::InsufficientSpace { requested: 32, remaining: 31 })
    );
    assert_eq!(arena.allocate(20, 1, 11), Ok((1, 20)));
    assert_eq!(arena.size(), 21);
}

#[test]
fn arena_reads_back_what_was_stored() {
    let mut arena = Arena::new(64);
    arena.store_u32(4, 0x0102_0304);
    assert_eq!(arena.load_u32(4), 0x0102_0304);
    assert_eq!(arena.get_bytes(4, 4), &[4, 3, 2, 1]);
    arena.store_u64(16, 0x1122_3344_5566_7788);
    assert_eq!(arena.load_u64(16), 0x1122_3344_5566_7788);
    assert_eq!(arena.get_bytes(16, 8), &[0x88, 0x77, 0x66, 0x55, 0x44, 0x33, 0x22, 0x11]);
    arena.put_bytes(30, b"abc");
    assert_eq!(arena.get_bytes(30, 3), b"abc");
    assert_eq!(arena.get_bytes(0, 5), &[] as &[u8]);
    arena.reset();
    assert_eq!(arena.size(), 1);
}

#[test]
fn codec_packs_words() {
    assert_eq!(encode_key_size_and_height(1234, 31), (31 << 27) | 1234);
    assert_eq!(decode_key_size_and_height((20 << 27) | 5), (5, 20));
    assert_eq!(encode_key_size_and_height(0x07ff_ffff, 1), 0x0fff_ffff);
    assert_eq!(encode_value(7, 9), (9u64 << 32) | 7);
    assert_eq!(decode_value((9u64 << 32) | 7), (7, 9));
    assert_eq!(decode_value(encode_value(u32::MAX, u32::MAX)), (u32::MAX, u32::MAX));
    assert!(is_removed(u32::MAX));
    assert!(is_removed(0x8000_0000));
    assert!(!is_removed(0x7fff_ffff));
    assert!(!is_removed(0));
}

#[test]
fn height_grows_for_a_third_of_the_draws() {
    assert!(grows(0));
    assert!(grows(0x5555_5554));
    assert!(!grows(0x5555_5555));
    assert!(!grows(u32::MAX));
}

#[test]
fn comparators_order_bytes() {
    assert_eq!(Ascend.compare(b"a", b"b"), Order::Less);
    assert_eq!(Ascend.compare(b"b", b"a"), Order::Greater);
    assert_eq!(Ascend.compare(b"ab", b"ab"), Order::Equal);
    assert_eq!(Ascend.compare(b"a", b"ab"), Order::Less);
    assert_eq!(Ascend.compare(b"", b""), Order::Equal);
    assert_eq!(Descend.compare(b"a", b"b"), Order::Greater);
    assert_eq!(Descend.compare(b"a", b"ab"), Order::Greater);
    assert_eq!(Order::Less.reverse(), Order::Greater);
    assert_eq!(Order::Equal.reverse(), Order::Equal);
    assert!(Ascend.contains(&Bound::Included(b"b"), &Bound::Excluded(b"d"), b"b"));
    assert!(!Ascend.contains(&Bound::Included(b"b"), &Bound::Excluded(b"d"), b"d"));
    assert!(!Ascend.contains(&Bound::Excluded(b"b"), &Bound::Included(b"d"), b"b"));
    assert!(Ascend.contains(&Bound::Excluded(b"b"), &Bound::Included(b"d"), b"d"));
    assert!(Ascend.contains(&Bound::Unbounded, &Bound::Unbounded, b""));
    assert!(Descend.contains(&Bound::Included(b"d"), &Bound::Excluded(b"b"), b"c"));
}

#[test]
fn fixtures_pad_with_zeros() {
    assert_eq!(key(7), b"00007");
    assert_eq!(new_value(99999), b"99999");
    assert_eq!(key(0), b"00000");
    assert_eq!(zero_padded(123456, 5), b"123456");
    assert_eq!(zero_padded(42, 0), b"42");
    let big = big_value(12);
    assert_eq!(big.len(), 1048576);
    assert_eq!(&big[1048574..], b"12");
    assert!(big[..1048574].iter().all(|b| *b == b'0'));
}

#[test]
fn buffer_takes_no_more_than_its_capacity() {
    let mut b = VacantBuffer::new(4);
    assert!(b.is_empty());
    assert_eq!(b.capacity(), 4);
    assert_eq!(b.write(b"abc"), Ok(()));
    assert_eq!(b.len(), 3);
    assert_eq!(b.remaining(), 1);
    assert_eq!(b.write(b"de"), Err(BufferFull { remaining: 1, want: 2 }));
    assert_eq!(b.as_slice(), b"abc");
    b.overwrite(1, b"xy");
    assert_eq!(b.as_slice(), b"axy");
    assert_eq!(b.get(2), b'y');
    b.set(0, b'A');
    assert_eq!(b.as_slice(), b"Axy");
    b.set(0, b'a');
    assert_eq!(b.write(b"z"), Ok(()));
    let err = b.write(&[1]).unwrap_err();
    assert_eq!(err.to_string(), "buffer does not have enough space (remaining 0, want 1)");
    assert_eq!(
        BufferFull { remaining: 120, want: 4096 }.to_string(),
        "buffer does not have enough space (remaining 120, want 4096)"
    );
    assert_eq!(
        BufferFull { remaining: 7, want: usize::MAX }.to_string(),
        format!("buffer does not have enough space (remaining 7, want {})", usize::MAX)
    );
    assert_eq!(b.into_vec(), b"axyz");
}

#[test]
fn either_tells_its_sides() {
    let l: Either<u8, u16> = Either::Left(1);
    let r: Either<u8, u16> = Either::Right(2);
    assert!(l.is_left() && !l.is_right());
    assert!(r.is_right() && !r.is_left());
    assert_eq!(l.left(), Some(1));
    assert_eq!(l.right(), None);
    assert_eq!(r.right(), Some(2));
    assert_eq!(l.unwrap_left(), 1);
    assert_eq!(r.unwrap_right(), 2);
}

#[test]
fn options_keep_limits_encodable() {
    let o = Options::new();
    assert_eq!(o.capacity(), 1024);
    assert_eq!(o.max_height(), 20);
    assert_eq!(o.max_key_size(), (1 << 27) - 1);
    assert_eq!(o.max_value_size(), (1u32 << 31) - 1);
    assert_eq!(o.seed(), None);
    assert_eq!(o.with_max_height(0).max_height(), 1);
    assert_eq!(o.with_max_height(21).max_height(), 20);
    assert_eq!(o.with_max_height(7).max_height(), 7);
    assert_eq!(o.with_max_key_size(u32::MAX).max_key_size(), (1 << 27) - 1);
    assert_eq!(o.with_max_key_size(10).max_key_size(), 10);
    assert_eq!(o.with_max_value_size(u32::MAX).max_value_size(), (1u32 << 31) - 1);
    assert_eq!(o.with_seed(5).seed(), Some(5));
    assert_eq!(o.with_capacity(9).capacity(), 9);
    let m = MmapOptions::default().len(5).offset(3).populate().huge(Some(21)).stack();
    assert_eq!(m.get_len(), 5);
    assert_eq!(m.get_offset(), 3);
    assert!(m.get_populate());
    assert_eq!(m.get_huge(), Some(21));
    assert!(m.get_stack());
}

#[test]
fn open_options_decide_what_to_do_with_the_file() {
    let o = OpenOptions::default();
    assert_eq!(o.action(true), OpenAction::Refuse);
    assert_eq!(o.read(true).action(true), OpenAction::LoadReadOnly);
    assert_eq!(o.read(true).action(false), OpenAction::Refuse);
    let w = o.read(true).write(true);
    assert_eq!(w.action(true), OpenAction::Load);
    assert_eq!(w.action(false), OpenAction::Refuse);
    assert_eq!(w.create(Some(1000)).action(false), OpenAction::Create(1000));
    assert_eq!(w.create(Some(1000)).action(true), OpenAction::Load);
    assert_eq!(w.create(Some(1000)).truncate(true).action(true), OpenAction::Create(1000));
    assert_eq!(w.create_new(Some(77)).action(false), OpenAction::Create(77));
    assert_eq!(w.create_new(Some(77)).action(true), OpenAction::Refuse);
    assert!(w.lock_shared(true).lock_shared);
    assert!(w.lock_exclusive(true).lock_exclusive);
    assert!(w.shrink_on_drop(true).shrink_on_drop);
}

#[test]
fn a_map_needs_room_for_its_sentinels() {
    // two nodes of full height: 1 + 2 * (24 + 4 * 20 + 7) bytes
    assert!(SkipMap::with_options(Options::new().with_capacity(222)).is_err());
    let l = SkipMap::with_options(Options::new().with_capacity(223)).unwrap();
    assert_eq!(l.allocated(), 223);
    assert_eq!(l.capacity(), 223);
    assert_eq!(l.remaining(), 0);
    assert_eq!(l.height(), 1);
    assert_eq!(l.len(), 0);
    assert_eq!(l.min_version(), u64::MAX);
    assert_eq!(l.max_version(), 0);
    let small = SkipMap::with_options(Options::new().with_max_height(1).with_capacity(71)).unwrap();
    assert_eq!(small.allocated(), 71);
    assert!(matches!(
        SkipMap::map_anon(MmapOptions::default()),
        Err(Error::Arena(ArenaError::InsufficientSpace { .. }))
    ));
}

#[test]
fn entries_stand_in_order() {
    let mut l = roomy();
    for (v, k) in [(3u64, "b"), (1, "a"), (2, "b"), (7, "a"), (0, "c"), (5, "b")] {
        l.insert(v, k.as_bytes(), b"x").unwrap();
    }
    let all = collect_all(&l, u64::MAX);
    let pairs: Vec<(&[u8], u64)> = all.iter().map(|e| (e.0.as_slice(), e.1)).collect();
    assert_eq!(
        pairs,
        vec![
            (&b"a"[..], 7),
            (&b"a"[..], 1),
            (&b"b"[..], 5),
            (&b"b"[..], 3),
            (&b"b"[..], 2),
            (&b"c"[..], 0)
        ]
    );
    for w in all.windows(2) {
        assert!(w[0].0 < w[1].0 || (w[0].0 == w[1].0 && w[0].1 > w[1].1));
    }
    assert_eq!(l.len(), 6);
    assert_eq!(l.min_version(), 0);
    assert_eq!(l.max_version(), 7);
}

#[test]
fn towers_of_every_height_keep_the_order() {
    let mut l = roomy();
    for i in 0..200usize {
        let h = (i % 20) as u8 + 1;
        let k = key((i * 37) % 200);
        assert!(l.insert_with_height(h, 0, &k, &new_value(i)).unwrap().is_none());
    }
    assert_eq!(l.height(), 20);
    assert_eq!(l.len(), 200);
    let all = collect_all(&l, 0);
    assert_eq!(all.len(), 200);
    for (i, e) in all.iter().enumerate() {
        assert_eq!(e.0, key(i));
    }
    for i in 0..200usize {
        assert_eq!(l.get(0, &key((i * 37) % 200)).unwrap().value(), new_value(i));
    }
}

#[test]
fn a_reader_gets_the_newest_entry_that_is_not_removed() {
    let mut l = roomy();
    l.insert(1, b"k", b"one").unwrap();
    l.insert(3, b"k", b"three").unwrap();
    assert!(l.get(0, b"k").is_none());
    assert_eq!(l.get(1, b"k").unwrap().value(), b"one");
    assert_eq!(l.get(2, b"k").unwrap().version(), 1);
    assert_eq!(l.get(3, b"k").unwrap().value(), b"three");
    assert_eq!(l.get(u64::MAX, b"k").unwrap().version(), 3);
    // the entry at version 3 becomes a removal mark: readers fall back to version 1
    let old = l.compare_remove(3, b"k").unwrap().unwrap_left().unwrap();
    assert_eq!(old.value(), b"three");
    assert_eq!(l.get(3, b"k").unwrap().value(), b"one");
    assert_eq!(l.get(9, b"k").unwrap().version(), 1);
    assert!(l.contains_key(9, b"k"));
    l.compare_remove(1, b"k").unwrap();
    assert!(l.get(9, b"k").is_none());
    assert!(!l.contains_key(9, b"k"));
    assert_eq!(l.len(), 2);
}

#[test]
fn allocation_only_grows_and_by_the_size_of_the_node() {
    let mut l = roomy();
    let a0 = l.allocated();
    assert_eq!(a0, 223);
    l.insert_with_height(1, 0, b"abc", b"hello").unwrap();
    // header 24, one link 4, key 3, value 5, padding 7
    assert_eq!(l.allocated(), a0 + 24 + 4 + 3 + 5 + 7);
    let a1 = l.allocated();
    l.insert_with_height(20, 0, b"b", b"").unwrap();
    assert_eq!(l.allocated(), a1 + 24 + 80 + 1 + 7);
    let a2 = l.allocated();
    // replacing a value takes the bytes of the new value only
    l.insert_with_height(5, 0, b"abc", b"replaced").unwrap();
    assert_eq!(l.allocated(), a2 + 8);
    let a3 = l.allocated();
    // finding an entry takes nothing
    l.get_or_insert_with_height(5, 0, b"abc", b"other").unwrap();
    assert_eq!(l.allocated(), a3);
    // marking an entry as removed takes nothing
    l.compare_remove_with_height(3, 0, b"abc").unwrap();
    assert_eq!(l.allocated(), a3);
    // a removal mark of its own takes a node without value
    l.compare_remove_with_height(2, 9, b"zz").unwrap();
    assert_eq!(l.allocated(), a3 + 24 + 8 + 2 + 7);
    assert_eq!(l.remaining(), l.capacity() - l.allocated());
    l.clear().unwrap();
    assert_eq!(l.allocated(), 223);
    assert_eq!(l.height(), 1);
    assert!(l.is_empty());
}

#[test]
fn a_full_arena_refuses_and_keeps_what_it_holds() {
    let mut l = SkipMap::with_options(Options::new().with_capacity(340)).unwrap();
    // 223 taken; a node of height 1 with key 1 and value 1 takes 37 and wants 76 in reserve
    assert_eq!(l.insert_with_height(1, 0, b"a", b"1").unwrap().map(|e| e.version()), None);
    assert_eq!(l.allocated(), 260);
    let e = l.insert_with_height(1, 0, b"b", b"2").unwrap_err();
    assert_eq!(
        e,
        Error::Arena(ArenaError::InsufficientSpace { requested: 37 + 76, remaining: 80 })
    );
    assert_eq!(l.allocated(), 260);
    assert_eq!(l.len(), 1);
    // a node of full height needs no reserve, but it is larger
    let e = l.insert_with_height(20, 0, b"b", b"2").unwrap_err();
    assert_eq!(
        e,
        Error::Arena(ArenaError::InsufficientSpace { requested: 24 + 80 + 2 + 7, remaining: 80 })
    );
    assert_eq!(l.get(0, b"a").unwrap().value(), b"1");
    // a new value for the entry still fits, until the arena is truly full
    l.insert(0, b"a", &[7u8; 80]).unwrap();
    assert_eq!(l.remaining(), 0);
    assert_eq!(
        l.insert(0, b"a", b"x").unwrap_err(),
        Error::Arena(ArenaError::InsufficientSpace { requested: 1, remaining: 0 })
    );
    assert_eq!(l.get(0, b"a").unwrap().value(), &[7u8; 80]);
}

#[test]
fn keys_and_values_that_are_too_long_are_refused() {
    let opts = Options::new().with_capacity(4096).with_max_key_size(4).with_max_value_size(6);
    let mut l = SkipMap::with_options(opts).unwrap();
    assert_eq!(
        l.insert(0, b"12345", b"v").unwrap_err(),
        Error::KeyTooLarge { size: 5, max: 4 }
    );
    assert_eq!(
        l.insert(0, b"1234", b"1234567").unwrap_err(),
        Error::ValueTooLarge { size: 7, max: 6 }
    );
    assert_eq!(
        l.get_or_insert(0, b"12345", b"v").unwrap_err(),
        Error::KeyTooLarge { size: 5, max: 4 }
    );
    assert_eq!(
        l.compare_remove(0, b"12345").unwrap_err(),
        Error::KeyTooLarge { size: 5, max: 4 }
    );
    assert_eq!(
        l.get_or_remove(0, b"12345").unwrap_err(),
        Error::KeyTooLarge { size: 5, max: 4 }
    );
    assert!(l.insert(0, b"1234", b"123456").unwrap().is_none());
    assert_eq!(l.len(), 1);
    assert_eq!(l.allocated(), 223 + 24 + 4 * l.height() as usize + 4 + 6 + 7);
}

#[test]
fn empty_keys_and_values_are_entries_like_others() {
    let mut l = roomy();
    assert!(l.insert(0, b"", b"").unwrap().is_none());
    let e = l.get(0, b"").unwrap();
    assert_eq!(e.key(), b"");
    assert_eq!(e.value(), b"");
    assert!(!e.is_removed());
    // an empty value is not a removal mark
    l.compare_remove(0, b"").unwrap();
    assert!(l.get(0, b"").is_none());
    let all = collect_all(&l, 0);
    assert_eq!(all, vec![(vec![], 0, None)]);
    assert!(l.insert(u64::MAX, b"", b"max").unwrap().is_none());
    assert_eq!(l.get(u64::MAX, b"").unwrap().version(), u64::MAX);
    assert!(l.get(u64::MAX - 1, b"").is_none());
    assert_eq!(l.max_version(), u64::MAX);
    assert_eq!(l.min_version(), 0);
}

#[test]
fn the_first_writer_of_a_pair_wins() {
    let mut l = roomy();
    assert!(l.get_or_insert(4, b"k", b"first").unwrap().is_none());
    for i in 0..50usize {
        let v = new_value(i);
        let e = l.get_or_insert(4, b"k", &v).unwrap().unwrap();
        assert_eq!(e.key(), b"k");
        assert_eq!(e.version(), 4);
        assert_eq!(e.value(), b"first");
    }
    assert_eq!(l.len(), 1);
    assert_eq!(l.get(4, b"k").unwrap().value(), b"first");
}

#[test]
fn a_value_is_replaced_as_a_whole() {
    let mut l = roomy();
    l.insert(0, b"k", b"a long first value").unwrap();
    let old = l.insert(0, b"k", b"2nd").unwrap().unwrap();
    assert_eq!(old.value(), b"a long first value");
    assert_eq!(l.get(0, b"k").unwrap().value(), b"2nd");
    let old = l.insert(0, b"k", b"").unwrap().unwrap();
    assert_eq!(old.value(), b"2nd");
    assert_eq!(l.get(0, b"k").unwrap().value(), b"");
    assert_eq!(l.len(), 1);
}

#[test]
fn get_or_remove_marks_only_what_a_reader_sees() {
    let mut l = roomy();
    // nothing to see: nothing changes
    assert!(l.get_or_remove(5, b"k").unwrap().is_none());
    assert_eq!(l.len(), 0);
    l.insert(1, b"k", b"v").unwrap();
    // the pair itself is found and left alone
    assert_eq!(l.get_or_remove(1, b"k").unwrap().unwrap().value(), b"v");
    assert_eq!(l.len(), 1);
    // a reader at 5 sees the entry: a removal mark is put at 5
    assert!(l.get_or_remove(5, b"k").unwrap().is_none());
    assert_eq!(collect_all(&l, 9), vec![
        (b"k".to_vec(), 5, None),
        (b"k".to_vec(), 1, Some(b"v".to_vec()))
    ]);
    // the mark is found and not returned
    assert!(l.get_or_remove(5, b"k").unwrap().is_none());
    assert_eq!(l.len(), 2);
    // a reader at 0 sees nothing: nothing changes
    assert!(l.get_or_remove(0, b"k").unwrap().is_none());
    assert_eq!(l.len(), 2);
}

#[test]
fn iterators_show_the_newest_entry_of_each_key_or_all() {
    let mut l = roomy();
    l.insert(1, b"a", b"").unwrap();
    l.insert(2, b"a", b"").unwrap();
    let all = collect_all(&l, 2);
    assert_eq!(all.iter().map(|e| e.1).collect::<Vec<_>>(), vec![2, 1]);
    let mut it = l.iter(2);
    let e = it.next().unwrap();
    assert_eq!((e.key(), e.version()), (&b"a"[..], 2));
    assert!(it.next().is_none());
    assert!(it.entry().is_none());

    l.insert(1, b"b", b"b1").unwrap();
    l.insert(5, b"b", b"b5").unwrap();
    l.insert(3, b"c", b"c3").unwrap();
    l.compare_remove(2, b"a").unwrap();
    l.compare_remove(3, b"c").unwrap();
    // at version 4: a at 1 (the mark at 2 is passed over), b at 1; c is removed
    let mut it = l.iter(4);
    let mut seen = Vec::new();
    while let Some(e) = it.next() {
        seen.push((e.key().to_vec(), e.version()));
    }
    assert_eq!(seen, vec![(b"a".to_vec(), 1), (b"b".to_vec(), 1)]);
    // and backward the same entries
    let mut back = Vec::new();
    while let Some(e) = it.next_back() {
        back.push((e.key().to_vec(), e.version()));
    }
    assert_eq!(back, vec![(b"b".to_vec(), 1), (b"a".to_vec(), 1)]);
    assert!(it.next_back().is_none());
    assert_eq!(it.next().unwrap().key(), b"a");
    // all versions show the marks too
    let all = collect_all(&l, 4);
    assert_eq!(all.len(), 4);
    assert_eq!(all[0], (b"a".to_vec(), 2, None));
    assert_eq!(all[3], (b"c".to_vec(), 3, None));
    // backward over all versions, entry by entry
    let mut it = l.iter_all_versions(9);
    assert_eq!(it.seek_upper_bound(Bound::Unbounded).unwrap().key(), b"c");
    let mut back = Vec::new();
    while let Some(e) = it.next_back() {
        back.push((e.key().to_vec(), e.version()));
    }
    assert_eq!(
        back,
        vec![(b"b".to_vec(), 1), (b"b".to_vec(), 5), (b"a".to_vec(), 1), (b"a".to_vec(), 2)]
    );
    assert_eq!(l.first(4).unwrap().key(), b"a");
    assert_eq!(l.last(4).unwrap().key(), b"b");
    assert_eq!(l.last(9).unwrap().version(), 5);
    assert_eq!(l.gt(4, b"a").unwrap().key(), b"b");
    assert_eq!(l.ge(4, b"b").unwrap().version(), 1);
    assert!(l.gt(4, b"b").is_none());
    assert_eq!(l.lt(4, b"b").unwrap().key(), b"a");
    assert_eq!(l.le(4, b"c").unwrap().key(), b"b");
}

#[test]
fn three_keys_come_out_in_order() {
    let mut l = roomy();
    l.insert(0, b"key1", b"v00001").unwrap();
    l.insert(0, b"key3", b"v00003").unwrap();
    l.insert(0, b"key2", b"v00002").unwrap();
    let mut it = l.iter(0);
    let mut keys = Vec::new();
    while let Some(e) = it.next() {
        keys.push(e.key().to_vec());
    }
    assert_eq!(keys, vec![b"key1".to_vec(), b"key2".to_vec(), b"key3".to_vec()]);
    assert_eq!(l.get(0, b"key2").unwrap().value(), b"v00002");
}

#[test]
fn repeated_inserts_of_the_same_keys_keep_one_entry_each() {
    let mut l = roomy();
    let mut order: Vec<usize> = (0..100).collect();
    for _ in 0..50 {
        order.shuffle(&mut rand::thread_rng());
        for i in order.iter() {
            let mut v = b"v".to_vec();
            v.extend_from_slice(&key(*i));
            l.get_or_insert(0, &key(*i), &v).unwrap();
        }
    }
    assert_eq!(l.len(), 100);
    for i in 0..100usize {
        let e = l.get(0, &key(i)).unwrap();
        assert_eq!(&e.value()[1..], key(i));
    }
}

#[test]
fn what_was_inserted_before_the_arena_filled_up_stays_readable() {
    let mut l = SkipMap::with_options(Options::new().with_capacity(1000)).unwrap();
    let mut full_at = None;
    for i in 0..100usize {
        if l.get_or_insert(0, &key(i), &new_value(i)).is_err() {
            full_at = Some(i);
            break;
        }
    }
    let full_at = full_at.unwrap();
    assert!(full_at > 0);
    assert!(l.get_or_insert(0, &key(full_at + 1), &new_value(full_at + 1)).is_err());
    for i in 0..full_at {
        assert_eq!(l.get(0, &key(i)).unwrap().value(), new_value(i));
    }
    assert_eq!(l.len(), full_at);
}

#[test]
fn a_map_comes_back_from_its_persisted_form() {
    let mut l = roomy();
    let mut data: Vec<usize> = (0..1000).collect();
    data.shuffle(&mut rand::thread_rng());
    for i in data {
        l.get_or_insert(i as u64, &key(i), &new_value(i)).unwrap();
    }
    l.compare_remove(7, &key(7)).unwrap();
    let image = l.to_image();
    assert_eq!(image.len(), 8 + l.capacity());
    assert_eq!(&image[..8], &(l.allocated() as u64).to_le_bytes());

    let mut r = SkipMap::from_image(&image, Ascend, true);
    assert_eq!(r.len(), 1000);
    assert_eq!(r.min_version(), 0);
    assert_eq!(r.max_version(), 999);
    assert_eq!(r.allocated(), l.allocated());
    assert_eq!(r.capacity(), l.capacity());
    assert_eq!(collect_all(&r, u64::MAX), collect_all(&l, u64::MAX));
    for i in 0..1000usize {
        match r.get(i as u64, &key(i)) {
            Some(e) => {
                assert_ne!(i, 7);
                assert_eq!(e.value(), new_value(i));
                assert_eq!(e.version(), i as u64);
            }
            None => assert_eq!(i, 7),
        }
    }
    // a map that was opened read-only refuses every change
    assert!(r.is_read_only());
    assert!(!l.is_read_only());
    assert_eq!(r.insert(0, b"x", b"y").unwrap_err(), Error::ReadOnly);
    assert_eq!(r.get_or_insert(0, b"x", b"y").unwrap_err(), Error::ReadOnly);
    assert_eq!(r.compare_remove(0, &key(1)).unwrap_err(), Error::ReadOnly);
    assert_eq!(r.get_or_remove(0, b"x").unwrap_err(), Error::ReadOnly);
    assert_eq!(r.clear().unwrap_err(), Error::ReadOnly);
    assert_eq!(r.len(), 1000);

    // opened for writing, it goes on from where it was
    let mut w = SkipMap::from_image(&image, Ascend, false);
    let before = w.allocated();
    assert!(w.insert(0, b"x", b"y").unwrap().is_none());
    assert!(w.allocated() > before);
    assert_eq!(w.len(), 1001);
    assert_eq!(w.get(0, b"x").unwrap().value(), b"y");
    assert_eq!(w.get(5, &key(5)).unwrap().value(), new_value(5));
}

#[test]
fn descending_maps_run_from_the_greatest_key() {
    let mut l = SkipMap::with_options_and_comparator(
        Options::new().with_capacity(1 << 16),
        Descend,
    )
    .unwrap();
    assert_eq!(l.comparator(), &Descend);
    for i in 0..10usize {
        l.insert(0, &key(i), &new_value(i)).unwrap();
    }
    let mut it = l.range(0, Bound::Included(b"00007"), Bound::Excluded(b"00003"));
    let mut keys = Vec::new();
    while let Some(e) = it.next() {
        keys.push(e.key().to_vec());
    }
    assert_eq!(keys, vec![key(7), key(6), key(5), key(4)]);
    assert_eq!(l.first(0).unwrap().key(), key(9));
    assert_eq!(l.last(0).unwrap().key(), key(0));
    let image = l.to_image();
    let r = SkipMap::from_image(&image, Descend, true);
    assert_eq!(r.first(0).unwrap().key(), key(9));
}

#[test]
fn towers_grow_with_the_draws() {
    let mut l = SkipMap::with_options(Options::new().with_capacity(1 << 20).with_seed(42)).unwrap();
    for i in 0..1000usize {
        l.insert(0, &key(i), b"").unwrap();
    }
    assert!(l.height() >= 2);
    assert!(l.height() <= 20);
    let mut capped = SkipMap::with_options(
        Options::new().with_capacity(1 << 20).with_max_height(3),
    )
    .unwrap();
    for i in 0..1000usize {
        capped.insert(0, &key(i), b"").unwrap();
    }
    assert!(capped.height() >= 2);
    assert!(capped.height() <= 3);
    assert_eq!(capped.options().max_height(), 3);
}

#[test]
fn builders_that_fail_change_nothing() {
    let mut l = roomy();
    let r = l.insert_with_value::<&str, _>(0, b"k", 4, |_| Err("no value"));
    assert!(matches!(r, Err(Either::Left("no value"))));
    assert_eq!(l.len(), 0);
    assert_eq!(l.allocated(), 223);
    let r = l.insert_with::<&str, _, _>(0, 1, |_| Err("no key"), 4, |v| {
        v.write(b"vvvv").unwrap();
        Ok(())
    });
    assert!(matches!(r, Err(Either::Left("no key"))));
    assert_eq!(l.len(), 0);
    let opts = Options::new().with_capacity(4096).with_max_value_size(2);
    let mut small = SkipMap::with_options(opts).unwrap();
    let r = small.get_or_insert_with_value::<(), _>(0, b"k", 4, |v| {
        v.write(b"vvvv").unwrap();
        Ok(())
    });
    assert!(matches!(r, Err(Either::Right(Error::ValueTooLarge { size: 4, max: 2 }))));
    let r = small.get_or_insert_with::<(), _, _>(
        0,
        3,
        |k| {
            k.write(b"key").unwrap();
            Ok(())
        },
        2,
        |v| {
            v.write(b"ab").unwrap();
            Ok(())
        },
    );
    assert!(matches!(r, Ok(None)));
    assert_eq!(small.get(0, b"key").unwrap().value(), b"ab");
}

#[test]
fn only_the_persisted_form_of_a_map_is_opened() {
    let mut l = SkipMap::with_options(Options::new().with_capacity(4096)).unwrap();
    for i in 0..40usize {
        l.insert_with_height((i % 7) as u8 + 1, (i % 3) as u64, &key(i / 2), &new_value(i)).unwrap();
    }
    l.compare_remove(1, &key(3)).unwrap();
    let image = l.to_image();
    let r = SkipMap::open_image(&image, Ascend, true).unwrap();
    assert_eq!(collect_all(&r, u64::MAX), collect_all(&l, u64::MAX));
    assert_eq!(r.len(), l.len());
    assert_eq!(r.height(), l.height());
    assert_eq!(r.allocated(), l.allocated());
    assert_eq!(r.min_version(), 0);
    assert_eq!(r.max_version(), 2);
    let mut w = SkipMap::open_image(&image, Ascend, false).unwrap();
    assert!(w.insert(9, b"zz", b"new").unwrap().is_none());
    assert_eq!(w.len(), l.len() + 1);
    // an empty map comes back too
    let e = SkipMap::with_options(Options::new().with_capacity(300)).unwrap();
    let r = SkipMap::open_image(&e.to_image(), Ascend, false).unwrap();
    assert!(r.is_empty());
    assert_eq!(r.allocated(), 223);

    // the same entries under another order are not a map
    assert_eq!(SkipMap::open_image(&image, Descend, true).err(), Some(Error::Corrupt));
    // too short, or with a header that claims too much or nothing
    assert_eq!(SkipMap::open_image(&image[..8], Ascend, true).err(), Some(Error::Corrupt));
    assert_eq!(SkipMap::open_image(&[], Ascend, true).err(), Some(Error::Corrupt));
    assert_eq!(SkipMap::open_image(&image[..200], Ascend, true).err(), Some(Error::Corrupt));
    let mut bad = image.clone();
    bad[..8].copy_from_slice(&u64::MAX.to_le_bytes());
    assert_eq!(SkipMap::open_image(&bad, Ascend, true).err(), Some(Error::Corrupt));
    let mut bad = image.clone();
    bad[..8].copy_from_slice(&0u64.to_le_bytes());
    assert_eq!(SkipMap::open_image(&bad, Ascend, true).err(), Some(Error::Corrupt));
    // every single byte of headers and towers matters, and nothing panics
    let taken = l.allocated();
    let mut refused = 0;
    for at in 8..8 + taken {
        let mut bad = image.clone();
        bad[at] ^= 0x55;
        match SkipMap::open_image(&bad, Ascend, true) {
            Err(e) => {
                assert_eq!(e, Error::Corrupt);
                refused += 1;
            }
            Ok(m) => {
                // a changed value byte, or a byte that nothing refers to
                assert_eq!(m.len(), l.len());
            }
        }
    }
    assert!(refused > 200);
    // a link that skips a node breaks the chain
    let mut bad = image.clone();
    let head_link = 8 + 8 + 24;
    bad[head_link..head_link + 4].copy_from_slice(&(taken as u32 - 1).to_le_bytes());
    assert_eq!(SkipMap::open_image(&bad, Ascend, true).err(), Some(Error::Corrupt));
}

#[test]
fn maps_are_made_with_a_comparator() {
    let mut l = SkipMap::with_comparator(Descend).unwrap();
    assert_eq!(l.capacity(), 1024);
    l.insert(0, b"a", b"1").unwrap();
    l.insert(0, b"b", b"2").unwrap();
    l.insert(1, b"b", b"3").unwrap();
    assert_eq!(l.first(0).unwrap().key(), b"b");
    let mut it = l.range_all_versions(5, Bound::Unbounded, Bound::Included(b"b"));
    let mut seen = Vec::new();
    while let Some(e) = it.next() {
        seen.push((e.key().to_vec(), e.version()));
    }
    assert_eq!(seen, vec![(b"b".to_vec(), 1), (b"b".to_vec(), 0)]);
    let a = SkipMap::map_anon_with_comparator(MmapOptions::default().len(500), Descend).unwrap();
    assert_eq!(a.capacity(), 500);
    assert!(skl::NodePtr::null().is_null());
    assert!(!(skl::NodePtr { offset: 3 }).is_null());
}
