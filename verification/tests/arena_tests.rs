use std::mem::{align_of, size_of};

use iks::{Arena, MIN_CDATA_BYTES, MIN_STRUCT_WORDS};

const CHARS: &str = "1234567890abcdefghijklmnopqrstuv";

#[test]
fn tests_it_works() {
    let mut arena = Arena::new().unwrap();
    let stats = arena.stats();
    assert_eq!(stats.chunks, 1);
    assert!(stats.allocated_bytes > 0);
    assert_eq!(stats.used_bytes, 0);

    let s = arena.push_str("test").unwrap();
    assert_eq!(arena.as_str(s), "test");
    assert_eq!(arena.stats().used_bytes, 4);

    let s2 = arena.concat_str(s, "moretest").unwrap();
    assert_eq!(arena.as_str(s2), "testmoretest");
    assert_eq!(arena.stats().used_bytes, 12);

    let _p = arena.alloc_struct(size_of::<u64>(), align_of::<u64>());
}

#[test]
fn tests_many_pushes() {
    let mut arena = Arena::new().unwrap();
    let old_bytes = arena.stats().allocated_bytes;

    for _ in 0..1000 {
        for j in 0..CHARS.len() {
            arena.push_str(&CHARS[..j]).unwrap();
        }
    }
    let stats = arena.stats();
    assert!(stats.chunks > 1);
    assert!(stats.allocated_bytes > old_bytes);
    assert_eq!(stats.used_bytes, 1000 * CHARS.len() * (CHARS.len() - 1) / 2);
}

#[test]
fn tests_many_1char_pushes() {
    let mut arena = Arena::new().unwrap();

    for _ in 0..10000 {
        arena.push_str("+").unwrap();
    }
}

#[test]
fn chunk_doubles() {
    let mut arena = Arena::new().unwrap();

    let _s1 = arena.push_str(&"x".repeat(MIN_CDATA_BYTES)).unwrap();
    assert_eq!(arena.stats().used_bytes, MIN_CDATA_BYTES);
    assert_eq!(arena.stats().chunks, 1);

    let _s2 = arena.push_str("lala").unwrap();
    assert_eq!(arena.stats().used_bytes, MIN_CDATA_BYTES + 4);
    assert_eq!(arena.stats().chunks, 2);

    let _s3 = arena.push_str(&"x".repeat(MIN_CDATA_BYTES)).unwrap();
    assert_eq!(arena.stats().used_bytes, (MIN_CDATA_BYTES * 2) + 4);
    assert_eq!(arena.stats().chunks, 2);

    let _s4 = arena.push_str(&"x".repeat(MIN_CDATA_BYTES)).unwrap();
    let cdata_use = (MIN_CDATA_BYTES * 3) + 4;
    assert_eq!(arena.stats().used_bytes, cdata_use);
    assert_eq!(arena.stats().chunks, 3);

    type Lay1 = [usize; MIN_STRUCT_WORDS];
    type Lay2 = usize;

    let _p1 = arena.alloc_struct(size_of::<Lay1>(), align_of::<Lay1>());
    assert_eq!(arena.stats().used_bytes, cdata_use + size_of::<Lay1>());
    assert_eq!(arena.stats().chunks, 3);

    let _p2 = arena.alloc_struct(size_of::<Lay2>(), align_of::<Lay2>());
    assert_eq!(
        arena.stats().used_bytes,
        cdata_use + size_of::<Lay1>() + size_of::<Lay2>()
    );
    assert_eq!(arena.stats().chunks, 4);

    let _p3 = arena.alloc_struct(size_of::<Lay1>(), align_of::<Lay1>());
    assert_eq!(
        arena.stats().used_bytes,
        cdata_use + (size_of::<Lay1>() * 2) + size_of::<Lay2>()
    );
    assert_eq!(arena.stats().chunks, 4);

    let _p3 = arena.alloc_struct(size_of::<Lay1>(), align_of::<Lay1>());
    assert_eq!(
        arena.stats().used_bytes,
        cdata_use + (size_of::<Lay1>() * 3) + size_of::<Lay2>()
    );
    assert_eq!(arena.stats().chunks, 5);
}

#[test]
fn tests_concat_saves_space() {
    let mut arena = Arena::new().unwrap();
    assert_eq!(arena.stats().chunks, 1);

    let s1 = arena.push_str(&"x".repeat(MIN_CDATA_BYTES - 4)).unwrap();
    assert_eq!(arena.stats().chunks, 1);

    let s2 = arena.concat_str(s1, "abcd").unwrap();
    assert_eq!(arena.stats().chunks, 1);

    let _s3 = arena.concat_str(s2, "x").unwrap();
    assert_eq!(arena.stats().chunks, 2);
}

#[test]
fn tests_concat_copy_allocates_right() {
    let mut arena = Arena::new().unwrap();
    assert_eq!(arena.stats().chunks, 1);

    let _s1 = arena.push_str(&"x".repeat(MIN_CDATA_BYTES - 8));
    assert_eq!(arena.stats().chunks, 1);
    let s2 = arena.push_str("abcd").unwrap();
    let _s3 = arena.concat_str(s2, "abcd");
    assert_eq!(arena.stats().chunks, 1);
}

#[test]
fn concat_copy_with_large_str() {
    let mut arena = Arena::new().unwrap();
    assert_eq!(arena.stats().chunks, 1);

    let s1 = arena.push_str(&"x".repeat(MIN_CDATA_BYTES - 8)).unwrap();
    assert_eq!(arena.stats().chunks, 1);
    let s2 = &"a".repeat(MIN_CDATA_BYTES * 10);
    let _s3 = arena.concat_str(s1, s2);
    let stats = arena.stats();
    assert_eq!(stats.chunks, 2);
    assert_eq!(
        stats.used_bytes,
        (MIN_CDATA_BYTES * 10) + ((MIN_CDATA_BYTES - 8) * 2)
    );
    let _s4 = arena.push_str("abcd");
    assert_eq!(stats.chunks, 2);
}

#[test]
fn tests_concats_from_same_base() {
    let mut arena = Arena::new().unwrap();
    let s = arena.push_str("lala").unwrap();

    let s2 = arena.concat_str(s, "bibi").unwrap();
    let s3 = arena.concat_str(s, "foo").unwrap();

    let s4 = arena.concat_str(s3, "123").unwrap();
    let s5 = arena.concat_str(s4, "abc").unwrap();
    let s6 = arena.concat_str(s2, "123").unwrap();

    assert_eq!(arena.as_str(s), "lala");
    assert_eq!(arena.as_str(s2), "lalabibi");
    assert_eq!(arena.as_str(s3), "lalafoo");
    assert_eq!(arena.as_str(s4), "lalafoo123");
    assert_eq!(arena.as_str(s5), "lalafoo123abc");
    assert_eq!(arena.as_str(s6), "lalabibi123");
}

#[test]
fn tests_concats_from_non_arena() {
    let mut arena = Arena::new().unwrap();

    let lala = arena.push_str("lala").unwrap();
    let s1 = arena.concat_str(lala, "bibi").unwrap();
    let s2 = arena.concat_str(s1, "foo").unwrap();
    assert_eq!(arena.as_str(s2), "lalabibifoo");

    let s1_text = arena.as_str(s1).to_string();
    let pika = arena.push_str("pika").unwrap();
    let s3 = arena.concat_str(pika, &s1_text).unwrap();
    assert_eq!(arena.as_str(s2), "lalabibifoo");
    assert_eq!(arena.as_str(s3), "pikalalabibi");

    let s4 = arena.concat_str(s3, "123").unwrap();
    assert_eq!(arena.as_str(s2), "lalabibifoo");
    assert_eq!(arena.as_str(s3), "pikalalabibi");
    assert_eq!(arena.as_str(s4), "pikalalabibi123");

    let s5 = arena.concat_str(s4, &s1_text).unwrap();
    assert_eq!(arena.as_str(s2), "lalabibifoo");
    assert_eq!(arena.as_str(s3), "pikalalabibi");
    assert_eq!(arena.as_str(s4), "pikalalabibi123");
    assert_eq!(arena.as_str(s5), "pikalalabibi123lalabibi");
}

#[test]
fn tests_many_1char_concats() {
    let mut arena = Arena::new().unwrap();
    let mut s = arena.push_str("").unwrap();

    for i in 0..1000 {
        for n in 0..CHARS.len() {
            s = arena
                .concat_str(s, &CHARS.chars().nth(n).unwrap().to_string())
                .unwrap();
        }
        assert_eq!(arena.as_str(s), CHARS.repeat(i + 1));
    }
}

#[test]
fn tests_alloc_alignments() {
    let mut arena = Arena::new().unwrap();

    // Sizes and alignments of: a 2-byte struct aligned to 2, an 8-byte
    // struct aligned to 8, and a 3-byte struct of bytes.
    let lay1 = (2, 2);
    let lay2 = (8, 8);
    let lay3 = (3, 1);

    let p1 = arena.alloc_struct(lay1.0, lay1.1).unwrap();
    assert_eq!(p1.offset % 2, 0);
    assert_eq!(arena.stats().used_bytes, 2);
    let p2 = arena.alloc_struct(lay2.0, lay2.1).unwrap();
    assert_eq!(p2.offset % 8, 0);
    assert_eq!(arena.stats().used_bytes, 16);
    let p3 = arena.alloc_struct(lay1.0, lay1.1).unwrap();
    assert_eq!(p3.offset % 2, 0);
    assert_eq!(arena.stats().used_bytes, 18);
    let p4 = arena.alloc_struct(lay2.0, lay2.1).unwrap();
    assert_eq!(p4.offset % 8, 0);
    assert_eq!(arena.stats().used_bytes, 32);
    let _p5 = arena.alloc_struct(lay3.0, lay3.1);
    let p6 = arena.alloc_struct(lay2.0, lay2.1).unwrap();
    assert_eq!(p6.offset % 8, 0);
}

#[test]
fn tests_alloc_chunk_border() {
    let mut arena = Arena::new().unwrap();
    assert_eq!(arena.stats().chunks, 1);
    let a1 = arena.stats().allocated_bytes;

    type Lay1 = [usize; MIN_STRUCT_WORDS - 2];
    type Lay2 = [usize; 2];

    let _p1 = arena.alloc_struct(size_of::<Lay1>(), align_of::<Lay1>());
    assert_eq!(arena.stats().chunks, 1);
    let _p2 = arena.alloc_struct(size_of::<Lay2>(), align_of::<Lay2>());
    assert_eq!(arena.stats().chunks, 1);
    assert_eq!(arena.stats().allocated_bytes, a1);
    let _p3 = arena.alloc_struct(size_of::<Lay2>(), align_of::<Lay2>());
    assert_eq!(arena.stats().chunks, 2);
    assert!(arena.stats().allocated_bytes > a1);
}

#[test]
fn reuse() {
    let mut arena = Arena::new().unwrap();
    {
        let _s1 = arena.push_str(&"x".repeat(MIN_CDATA_BYTES)).unwrap();
        let _s2 = arena.push_str("lala").unwrap();
        assert_eq!(arena.stats().used_bytes, MIN_CDATA_BYTES + 4);
        assert_eq!(arena.stats().chunks, 2);
    }
    let mut arena = arena.into_empty_arena();
    assert_eq!(arena.stats().used_bytes, 0);
    assert_eq!(arena.stats().chunks, 2);
    let _s1 = arena.push_str("lala").unwrap();
    let _s2 = arena.push_str(&"x".repeat(MIN_CDATA_BYTES)).unwrap();
    assert_eq!(arena.stats().used_bytes, MIN_CDATA_BYTES + 4);
    assert_eq!(arena.stats().chunks, 2);
}

fn old_iksemel_test_step(size: usize) {
    let mut arena = Arena::with_chunk_sizes(size, size).unwrap();

    // A one-byte struct aligned to 8 takes 8 bytes.
    let lay = (8, 8);

    let mut s = arena.push_str("").unwrap();
    for i in 0..CHARS.len() {
        arena.push_str(&CHARS[..i]).unwrap();
        let slot = arena.alloc_struct(lay.0, lay.1).unwrap();
        assert_eq!(slot.offset % 8, 0);
        s = arena
            .concat_str(s, &CHARS.chars().nth(i).unwrap().to_string())
            .unwrap()
    }
    assert_eq!(arena.as_str(s), CHARS);
}

#[test]
fn tests_old_iksemel_test() {
    old_iksemel_test_step(0);
    old_iksemel_test_step(16);
    old_iksemel_test_step(237);
    old_iksemel_test_step(1024);
}

#[test]
fn arena_sizes_follow_settings() {
    let arena = Arena::with_chunk_sizes(64, 1000).unwrap();
    let stats = arena.stats();
    assert_eq!(stats.chunks, 1);
    assert_eq!(stats.used_bytes, 0);
    let small = Arena::new().unwrap().stats().allocated_bytes;
    assert!(stats.allocated_bytes > small);
}

#[test]
fn huge_chunk_sizes_fail() {
    assert!(Arena::with_chunk_sizes(usize::MAX, 0).is_err());
    assert!(Arena::with_chunk_sizes(0, usize::MAX).is_err());
}

const MIN_NODE_WORDS: usize = MIN_STRUCT_WORDS;
const MIN_DATA_BYTES: usize = MIN_CDATA_BYTES;

#[test]
fn arena_it_works() {
    let mut arena = Arena::new().unwrap();
    assert_eq!(arena.stats().chunks, 1);
    assert!(arena.stats().allocated_bytes > 0);

    let s = arena.push_str("test").unwrap();
    assert_eq!(arena.as_str(s), "test");

    let s2 = arena.concat_str(s, "moretest").unwrap();
    assert_eq!(arena.as_str(s2), "testmoretest");

    // room for a struct of the size and alignment of a `Layout`
    let _p = arena.alloc_struct(2 * size_of::<usize>(), align_of::<usize>());
}

#[test]
fn arena_many_pushes() {
    let mut arena = Arena::new().unwrap();
    let old_bytes = arena.stats().allocated_bytes;

    for _ in 0..1000 {
        for j in 0..CHARS.len() {
            arena.push_str(&CHARS[..j]).unwrap();
        }
    }
    assert!(arena.stats().chunks > 1);
    assert!(arena.stats().allocated_bytes > old_bytes);
}

#[test]
fn arena_many_1char_pushes() {
    let mut arena = Arena::new().unwrap();

    for _ in 0..10000 {
        arena.push_str("+").unwrap();
    }
}

#[test]
fn arena_concat_saves_space() {
    let mut arena = Arena::new().unwrap();
    assert_eq!(arena.stats().chunks, 1);

    let s1 = arena.push_str(&"x".repeat(MIN_DATA_BYTES - 4)).unwrap();
    assert_eq!(arena.stats().chunks, 1);

    let s2 = arena.concat_str(s1, "abcd").unwrap();
    assert_eq!(arena.stats().chunks, 1);

    let _s3 = arena.concat_str(s2, "x").unwrap();
    assert_eq!(arena.stats().chunks, 2);
}

#[test]
fn arena_concat_copy_allocates_right() {
    let mut arena = Arena::new().unwrap();
    assert_eq!(arena.stats().chunks, 1);

    let _s1 = arena.push_str(&"x".repeat(MIN_DATA_BYTES - 8)).unwrap();
    assert_eq!(arena.stats().chunks, 1);
    let s2 = "abcd";
    let held = arena.push_str(s2).unwrap();
    let _s3 = arena.concat_str(held, s2).unwrap();
    assert_eq!(arena.stats().chunks, 1);
}

#[test]
fn arena_concats_from_same_base() {
    let mut arena = Arena::new().unwrap();
    let s = arena.push_str("lala").unwrap();

    let s2 = arena.concat_str(s, "bibi").unwrap();
    let s3 = arena.concat_str(s, "foo").unwrap();

    let s4 = arena.concat_str(s3, "123").unwrap();
    let s5 = arena.concat_str(s4, "abc").unwrap();
    let s6 = arena.concat_str(s2, "123").unwrap();

    assert_eq!(arena.as_str(s), "lala");
    assert_eq!(arena.as_str(s2), "lalabibi");
    assert_eq!(arena.as_str(s3), "lalafoo");
    assert_eq!(arena.as_str(s4), "lalafoo123");
    assert_eq!(arena.as_str(s5), "lalafoo123abc");
    assert_eq!(arena.as_str(s6), "lalabibi123");
}

#[test]
fn arena_concats_from_non_arena() {
    let mut arena = Arena::new().unwrap();

    let lala = arena.push_str("lala").unwrap();
    let s1 = arena.concat_str(lala, "bibi").unwrap();
    let s2 = arena.concat_str(s1, "foo").unwrap();
    assert_eq!(arena.as_str(s2), "lalabibifoo");

    let s1_text = arena.as_str(s1).to_string();
    let pika = arena.push_str("pika").unwrap();
    let s3 = arena.concat_str(pika, &s1_text).unwrap();
    assert_eq!(arena.as_str(s2), "lalabibifoo");
    assert_eq!(arena.as_str(s3), "pikalalabibi");

    let s4 = arena.concat_str(s3, "123").unwrap();
    assert_eq!(arena.as_str(s2), "lalabibifoo");
    assert_eq!(arena.as_str(s3), "pikalalabibi");
    assert_eq!(arena.as_str(s4), "pikalalabibi123");

    let s5 = arena.concat_str(s4, &s1_text).unwrap();
    assert_eq!(arena.as_str(s2), "lalabibifoo");
    assert_eq!(arena.as_str(s3), "pikalalabibi");
    assert_eq!(arena.as_str(s4), "pikalalabibi123");
    assert_eq!(arena.as_str(s5), "pikalalabibi123lalabibi");
}

#[test]
fn arena_many_1char_concats() {
    let mut arena = Arena::new().unwrap();
    let mut s = arena.push_str("").unwrap();

    for i in 0..1000 {
        for n in 0..CHARS.len() {
            s = arena
                .concat_str(s, &CHARS.chars().nth(n).unwrap().to_string())
                .unwrap();
        }
        assert_eq!(arena.as_str(s), CHARS.repeat(i + 1));
    }
}

#[test]
fn arena_alloc_alignments() {
    let mut arena = Arena::new().unwrap();

    let lay1 = (2, 2);
    let lay2 = (8, 8);

    let p1 = arena.alloc_struct(lay1.0, lay1.1).unwrap();
    assert_eq!(p1.offset % 2, 0);
    let p2 = arena.alloc_struct(lay2.0, lay2.1).unwrap();
    assert_eq!(p2.offset % 8, 0);
    let p3 = arena.alloc_struct(lay1.0, lay1.1).unwrap();
    assert_eq!(p3.offset % 2, 0);
    let p4 = arena.alloc_struct(lay1.0, lay1.1).unwrap();
    assert_eq!(p4.offset % 2, 0);
}

#[test]
fn alloc_weird_alignments() {
    let mut arena = Arena::new().unwrap();

    // sizes that are not multiples of their alignment
    let lay1 = (3, 2);
    let lay2 = (5, 8);
    let lay3 = (13, 8);

    let p1 = arena.alloc_struct(lay1.0, lay1.1).unwrap();
    assert_eq!(p1.offset % 2, 0);
    let p2 = arena.alloc_struct(lay2.0, lay2.1).unwrap();
    assert_eq!(p2.offset % 8, 0);
    let p3 = arena.alloc_struct(lay1.0, lay1.1).unwrap();
    assert_eq!(p3.offset % 2, 0);
    let p4 = arena.alloc_struct(lay3.0, lay3.1).unwrap();
    assert_eq!(p4.offset % 8, 0);
}

#[test]
fn arena_alloc_chunk_border() {
    let mut arena = Arena::new().unwrap();
    assert_eq!(arena.stats().chunks, 1);

    type Lay1 = [usize; MIN_NODE_WORDS - 2];
    type Lay2 = [usize; 2];

    let _p1 = arena.alloc_struct(size_of::<Lay1>(), align_of::<Lay1>());
    assert_eq!(arena.stats().chunks, 1);
    let _p2 = arena.alloc_struct(size_of::<Lay2>(), align_of::<Lay2>());
    assert_eq!(arena.stats().chunks, 1);
    let _p3 = arena.alloc_struct(size_of::<Lay2>(), align_of::<Lay2>());
    assert_eq!(arena.stats().chunks, 2);
}

fn arena_old_iksemel_test_step(size: usize) {
    let mut arena = Arena::with_chunk_sizes(size, size).unwrap();

    let mut s = arena.push_str("").unwrap();
    for i in 0..CHARS.len() {
        arena.push_str(&CHARS[..i]).unwrap();
        let slot = arena.alloc_struct(i, 8).unwrap();
        assert_eq!(slot.offset % 8, 0);
        s = arena
            .concat_str(s, &CHARS.chars().nth(i).unwrap().to_string())
            .unwrap()
    }
    assert_eq!(arena.as_str(s), CHARS);
}

#[test]
fn arena_old_iksemel_test() {
    arena_old_iksemel_test_step(0);
    arena_old_iksemel_test_step(16);
    arena_old_iksemel_test_step(237);
    arena_old_iksemel_test_step(1024);
}

#[test]
fn concat_of_strings_from_outside() {
    let mut arena = Arena::new().unwrap();
    let kept = arena.push_str("kept").unwrap();
    let used = arena.stats().used_bytes;
    let outside = String::from("lala");
    let s = arena.concat_strs(&outside, "bibi").unwrap();
    assert_eq!(arena.as_str(s), "lalabibi");
    assert_eq!(arena.as_str(kept), "kept");
    assert_eq!(arena.stats().used_bytes, used + 8);
    let e = arena.concat_strs("", "").unwrap();
    assert_eq!(arena.as_str(e), "");
}
