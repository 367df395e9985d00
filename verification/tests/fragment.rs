use putnotif::fragment::{count_fragments, measure, split};

#[test]
fn measure_drops_one_trailing_line_feed() {
    assert_eq!(measure(b"hello\n"), 5);
    assert_eq!(measure(b"hello\n\n"), 6);
    assert_eq!(measure(b"\n"), 0);
}

#[test]
fn measure_keeps_an_unterminated_line_whole() {
    assert_eq!(measure(b"hello"), 5);
    assert_eq!(measure(b""), 0);
    assert_eq!(measure(b"a\nb"), 3);
}

#[test]
fn measure_stops_at_the_first_nul() {
    assert_eq!(measure(b"ab\0cd\n"), 2);
    assert_eq!(measure(b"ab\0cd\0ef"), 2);
    assert_eq!(measure(b"\0"), 0);
    assert_eq!(measure(b"\0\n"), 0);
}

#[test]
fn measure_ignores_the_terminator_when_a_nul_comes_first() {
    assert_eq!(measure(b"abc\0\n"), 3);
    assert_eq!(measure(b"abc\n\0"), 4);
}

#[test]
fn count_fragments_rounds_up() {
    assert_eq!(count_fragments(0, 245), 0);
    assert_eq!(count_fragments(1, 245), 1);
    assert_eq!(count_fragments(244, 245), 1);
    assert_eq!(count_fragments(245, 245), 1);
    assert_eq!(count_fragments(246, 245), 2);
    assert_eq!(count_fragments(300, 245), 2);
    assert_eq!(count_fragments(490, 245), 2);
    assert_eq!(count_fragments(491, 245), 3);
    assert_eq!(count_fragments(7, 1), 7);
}

#[test]
fn count_fragments_at_the_largest_length() {
    assert_eq!(count_fragments(usize::MAX, 1), usize::MAX);
    assert_eq!(count_fragments(usize::MAX, usize::MAX), 1);
    assert_eq!(count_fragments(usize::MAX, 2), usize::MAX / 2 + 1);
}

#[test]
fn split_of_nothing_is_empty() {
    assert_eq!(split(0, 1), vec![]);
    assert_eq!(split(0, 245), vec![]);
}

#[test]
fn split_gives_exact_ranges() {
    assert_eq!(split(5, 245), vec![(0, 5)]);
    assert_eq!(split(245, 245), vec![(0, 245)]);
    assert_eq!(split(300, 245), vec![(0, 245), (245, 300)]);
    assert_eq!(split(10, 5), vec![(0, 5), (5, 10)]);
    assert_eq!(split(11, 5), vec![(0, 5), (5, 10), (10, 11)]);
    assert_eq!(split(3, 1), vec![(0, 1), (1, 2), (2, 3)]);
}

#[test]
fn split_partitions_the_content() {
    for max in 1..=12usize {
        for len in 0..=60usize {
            let ranges = split(len, max);
            assert_eq!(ranges.len(), (len + max - 1) / max);
            assert_eq!(ranges.len(), count_fragments(len, max));
            let mut expected_start = 0;
            for (k, (start, end)) in ranges.iter().enumerate() {
                assert_eq!(*start, expected_start);
                assert!(start < end);
                assert!(end - start <= max);
                if k + 1 < ranges.len() {
                    assert_eq!(end - start, max);
                }
                expected_start = *end;
            }
            assert_eq!(expected_start, len);
            for offset in 0..len {
                let holders = ranges.iter().filter(|(s, e)| *s <= offset && offset < *e).count();
                assert_eq!(holders, 1);
                let (s, e) = ranges[offset / max];
                assert!(s <= offset && offset < e);
            }
        }
    }
}
