use columnar::borrow::Borrow;
use columnar::region::Region;
use columnar::string::StringBuf;
use columnar::vector::{IdxIter, VecBuf};
use columnar::ColumnarBuf;

fn drain_u64(mut it: IdxIter<'_, u64>) -> Vec<u64> {
    let mut out = Vec::new();
    while let Some(x) = it.next() {
        out.push(x);
    }
    out
}

#[test]
fn test_string_buf() {
    let mut string_buf = StringBuf::with_capacity(1);
    string_buf.copy("abc");
    string_buf.copy("xx");
    string_buf.copy("xx2");

    assert_eq!(string_buf.len(), 3);
    assert_eq!(string_buf.idx(0), "abc");
    assert_eq!(string_buf.idx(1), "xx");
    assert_eq!(string_buf.idx(2), "xx2");
}

#[test]
fn primitive_buffer_tiny_limit_keeps_every_value() {
    let mut region: Region<u64> = Region::with_limit_and_capacity(8, 0);
    for i in 0..100u64 {
        region.copy(&i);
    }
    assert_eq!(region.len(), 100);
    for i in 0..100usize {
        assert_eq!(*region.idx(i), i as u64);
    }
}

#[test]
fn early_values_survive_growth() {
    let mut buf = <Region<u64> as ColumnarBuf<u64>>::with_capacity(0);
    ColumnarBuf::copy(&mut buf, &7);
    ColumnarBuf::copy(&mut buf, &9);
    let first = ColumnarBuf::idx(&buf, 0);
    for i in 0..5000u64 {
        ColumnarBuf::copy(&mut buf, &i);
    }
    assert_eq!(first, 7);
    assert_eq!(ColumnarBuf::idx(&buf, 0), 7);
    assert_eq!(ColumnarBuf::idx(&buf, 1), 9);
    assert_eq!(ColumnarBuf::idx(&buf, 5001), 4999);
    assert_eq!(ColumnarBuf::len(&buf), 5002);
}

#[test]
fn region_with_zero_limit_grows_one_item_at_a_time() {
    let mut region: Region<u64> = Region::with_limit(0);
    for i in 0..10u64 {
        region.copy(&(i * 3));
    }
    assert_eq!(region.len(), 10);
    assert_eq!(*region.idx(9), 27);
    assert_eq!(region.slice(4, 5), &[12]);
}

#[test]
fn region_copy_slice_reads_back_as_one_slice() {
    let mut region: Region<u8> = Region::with_limit(4);
    region.copy_slice(b"ab");
    region.copy_slice(b"cdefg");
    region.copy_slice(b"");
    region.copy_slice(b"hi");
    assert_eq!(region.len(), 9);
    assert_eq!(region.slice(0, 2), b"ab");
    assert_eq!(region.slice(2, 7), b"cdefg");
    assert_eq!(region.slice(7, 7), b"");
    assert_eq!(region.slice(7, 9), b"hi");
    assert_eq!(*region.idx(6), b'g');
}

#[test]
fn region_clear_empties() {
    let mut region: Region<u64> = Region::with_limit_and_capacity(2, 5);
    for i in 0..20u64 {
        region.copy(&i);
    }
    region.clear();
    assert_eq!(region.len(), 0);
    region.copy(&42);
    assert_eq!(region.len(), 1);
    assert_eq!(*region.idx(0), 42);
}

#[test]
fn region_reserve_keeps_contents() {
    let mut region: Region<u64> = Region::with_limit(16);
    region.copy(&1);
    region.reserve(100);
    region.copy(&2);
    assert_eq!(region.len(), 2);
    assert_eq!(*region.idx(0), 1);
    assert_eq!(*region.idx(1), 2);
}

#[test]
fn region_heap_size_reports_each_segment() {
    let mut region: Region<u64> = Region::with_limit(4);
    for i in 0..10u64 {
        region.copy(&i);
    }
    let mut calls: Vec<(usize, usize)> = Vec::new();
    region.heap_size(|used, allocated| calls.push((used, allocated)));
    assert!(calls.len() >= 3);
    let stashed_used: usize = calls[2..].iter().map(|c| c.0).sum();
    assert_eq!(stashed_used + calls[0].0, 10 * 8);
    for c in &calls {
        assert!(c.0 <= c.1);
    }
}

#[test]
fn sequence_of_scalars_round_trip() {
    let mut buf = VecBuf::<u64>::with_capacity(1);
    buf.copy(&[1, 2]);
    buf.copy(&[3]);
    buf.copy(&[]);
    assert_eq!(buf.len(), 3);
    assert_eq!(drain_u64(buf.idx(0)), vec![1, 2]);
    assert_eq!(drain_u64(buf.idx(1)), vec![3]);
    let mut empty = buf.idx(2);
    assert_eq!(empty.size_hint(), (0, Some(0)));
    assert!(empty.next().is_none());
}

#[test]
fn sequence_iterator_reports_remaining_length() {
    let mut buf = VecBuf::<u64>::with_capacity(0);
    buf.copy(&[5, 6, 7]);
    let mut it = buf.idx(0);
    assert_eq!(it.size_hint(), (3, Some(3)));
    assert_eq!(it.next(), Some(5));
    assert_eq!(it.size_hint(), (2, Some(2)));
    assert_eq!(it.next(), Some(6));
    assert_eq!(it.next(), Some(7));
    assert_eq!(it.next(), None);
    assert_eq!(it.size_hint(), (0, Some(0)));
    assert_eq!(drain_u64(buf.idx(0)), vec![5, 6, 7]);
}

#[test]
fn nested_sequences_round_trip() {
    let mut buf = VecBuf::<Vec<u64>>::with_capacity(2);
    let first: Vec<Vec<u64>> = vec![vec![1, 2], vec![], vec![3]];
    let second: Vec<Vec<u64>> = vec![];
    let third: Vec<Vec<u64>> = vec![vec![4]];
    buf.copy(first.borrow());
    buf.copy(second.borrow());
    buf.copy(third.borrow());
    assert_eq!(buf.len(), 3);

    let mut outer = buf.idx(0);
    assert_eq!(drain_u64(outer.next().unwrap()), vec![1, 2]);
    assert_eq!(drain_u64(outer.next().unwrap()), Vec::<u64>::new());
    assert_eq!(drain_u64(outer.next().unwrap()), vec![3]);
    assert!(outer.next().is_none());

    assert!(buf.idx(1).next().is_none());

    let mut last = buf.idx(2);
    assert_eq!(drain_u64(last.next().unwrap()), vec![4]);
    assert!(last.next().is_none());
}

#[test]
fn sequence_of_texts_round_trip() {
    let mut buf = VecBuf::<String>::with_capacity(1);
    let words: Vec<String> = vec!["héllo".to_string(), String::new(), "wörld".to_string()];
    buf.copy(words.borrow());
    buf.copy(&[]);
    let mut it = buf.idx(0);
    assert_eq!(it.next(), Some("héllo"));
    assert_eq!(it.next(), Some(""));
    assert_eq!(it.next(), Some("wörld"));
    assert_eq!(it.next(), None);
    assert!(buf.idx(1).next().is_none());
}

#[test]
fn text_buffer_clear_and_reuse() {
    let mut buf = StringBuf::with_capacity(4);
    buf.copy("one");
    buf.copy("two");
    buf.copy("three");
    buf.clear();
    assert_eq!(buf.len(), 0);
    buf.copy("z");
    assert_eq!(buf.len(), 1);
    assert_eq!(buf.idx(0), "z");
}

#[test]
fn text_buffer_many_strings_across_segments() {
    let mut buf = StringBuf::with_capacity(0);
    let mut expected: Vec<String> = Vec::new();
    for i in 0..300u64 {
        let s = format!("item-{}-ß", i);
        buf.copy(s.borrow());
        expected.push(s);
    }
    buf.copy("");
    assert_eq!(buf.len(), 301);
    for (i, s) in expected.iter().enumerate() {
        assert_eq!(buf.idx(i), s.as_str());
    }
    assert_eq!(buf.idx(300), "");
}

#[test]
fn sequence_buffer_clear_and_reuse() {
    let mut buf = VecBuf::<u64>::with_capacity(1);
    buf.copy(&[1, 2, 3]);
    buf.copy(&[4]);
    buf.clear();
    assert_eq!(buf.len(), 0);
    buf.copy(&[9]);
    assert_eq!(buf.len(), 1);
    assert_eq!(drain_u64(buf.idx(0)), vec![9]);
}

#[test]
fn borrow_gives_the_same_value() {
    let n: u64 = 17;
    assert_eq!(*n.borrow(), 17);
    let s = String::from("text");
    assert_eq!(s.borrow(), "text");
    let v: Vec<u64> = vec![1, 2];
    assert_eq!(v.borrow(), &[1, 2]);
}

#[test]
fn region_heap_report_lists_active_stash_then_segments() {
    let mut region: Region<u64> = Region::with_limit(4);
    for i in 0..10u64 {
        region.copy(&i);
    }
    let report = region.heap_report();
    let stashed = report.len() - 2;
    assert!(stashed >= 1);
    assert_eq!(report[1].0, stashed * std::mem::size_of::<Vec<u64>>());
    let used: usize = report[0].0 + report[2..].iter().map(|c| c.0).sum::<usize>();
    assert_eq!(used, 10 * 8);
    for c in &report {
        assert!(c.0 <= c.1);
    }
    let mut seen: Vec<(usize, usize)> = Vec::new();
    region.heap_size(|u, a| seen.push((u, a)));
    assert_eq!(seen, report);
}
