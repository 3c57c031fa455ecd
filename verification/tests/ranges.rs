use corro_sync::range_set::{same_ranges, set_has};
use corro_sync::span::{chunk_range, Span};
use rangemap::RangeInclusiveSet;

fn span(start: u64, end: u64) -> Span {
    Span { start, end }
}

#[test]
fn a_range_is_cut_into_blocks_that_share_their_ends() {
    let chunks = chunk_range(span(0, 25), 10);
    assert_eq!(chunks, vec![span(0, 10), span(10, 20), span(20, 25)]);
}

#[test]
fn a_short_range_is_one_block() {
    assert_eq!(chunk_range(span(7, 9), 10), vec![span(7, 9)]);
    assert_eq!(chunk_range(span(7, 7), 10), vec![span(7, 7)]);
}

#[test]
fn a_range_that_ends_at_a_block_start_gets_a_block_of_one() {
    assert_eq!(chunk_range(span(1, 11), 10), vec![span(1, 11), span(11, 11)]);
}

#[test]
fn an_empty_range_has_no_blocks() {
    assert_eq!(chunk_range(span(5, 4), 10), vec![]);
}

#[test]
fn blocks_hold_the_range_and_nothing_else() {
    let range = span(3, 47);
    let chunks = chunk_range(range, 10);
    for x in 0u64..60 {
        let held = chunks.iter().any(|chunk| chunk.start <= x && x <= chunk.end);
        assert_eq!(held, range.start <= x && x <= range.end);
    }
    for (i, chunk) in chunks.iter().enumerate() {
        assert!(chunk.end - chunk.start <= 10);
        if i + 1 < chunks.len() {
            assert_eq!(chunk.end, chunks[i + 1].start);
        }
    }
}

#[test]
fn a_set_has_the_numbers_of_its_ranges() {
    let set: RangeInclusiveSet<u64> = RangeInclusiveSet::from_iter([2..=4, 9..=9]);
    let found: Vec<u64> = (0u64..12).filter(|x| set_has(&set, *x)).collect();
    assert_eq!(found, vec![2, 3, 4, 9]);
}

#[test]
fn the_same_ranges_are_told_from_others() {
    let ranges = vec![span(1, 2), span(4, 5)];
    assert!(same_ranges(&ranges, &vec![span(1, 2), span(4, 5)]));
    assert!(!same_ranges(&ranges, &vec![span(1, 2), span(4, 6)]));
    assert!(!same_ranges(&ranges, &vec![span(1, 2)]));
}
