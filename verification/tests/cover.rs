use lib::cover::{Cover, CoverBlock, Dominance};
use lib::graph::{Funcdata, GraphBlockId, SeqNum};
use lib::pcode::{BRANCH, COPY, MULTIEQUAL, REGISTER_SPACE, RETURN};

fn one_block(range: CoverBlock) -> Cover {
    let mut cover = Cover::new();
    cover.set_block(GraphBlockId(0), range);
    cover
}

#[test]
fn endpoint_touch_is_not_an_interval_intersection() {
    let mut left = CoverBlock::new();
    left.set_begin(1);
    left.set_end(3);
    let mut right = CoverBlock::new();
    right.set_begin(3);
    right.set_end(5);
    assert_eq!(left.intersect(&right), 1);
    assert!(!one_block(left).intersects(&one_block(right)));
}

#[test]
fn interior_overlap_is_detected() {
    let mut left = CoverBlock::new();
    left.set_begin(1);
    left.set_end(4);
    let mut right = CoverBlock::new();
    right.set_begin(3);
    right.set_end(5);
    assert_eq!(left.intersect(&right), 2);
}

#[test]
fn an_empty_range_covers_nothing_and_intersects_nothing() {
    let empty = CoverBlock::new();
    assert!(empty.is_empty());
    assert!(!empty.contains(0));
    let mut full = CoverBlock::new();
    full.set_all();
    assert_eq!(empty.intersect(&full), 0);
    assert_eq!(full.intersect(&empty), 0);
    assert!(full.contains(0));
    assert!(full.contains(usize::MAX));
}

#[test]
fn setting_the_begin_of_an_empty_block_reaches_the_block_end() {
    let mut range = CoverBlock::new();
    range.set_begin(4);
    assert_eq!(range.begin(), Some(4));
    assert_eq!(range.end(), None);
    assert!(range.contains(1000));
    assert!(!range.contains(3));
}

#[test]
fn setting_the_end_of_an_empty_block_starts_at_the_block_beginning() {
    let mut range = CoverBlock::new();
    range.set_end(4);
    assert_eq!(range.begin(), None);
    assert!(range.contains(0));
    assert!(range.contains(4));
    assert!(!range.contains(5));
}

#[test]
fn a_wrapping_range_covers_both_ends() {
    let mut range = CoverBlock::new();
    range.set_begin(7);
    range.set_end(2);
    assert!(range.contains(1));
    assert!(range.contains(9));
    assert!(!range.contains(5));
    let mut inside = CoverBlock::new();
    inside.set_begin(3);
    inside.set_end(6);
    assert_eq!(range.intersect(&inside), 0);
    let mut touching = CoverBlock::new();
    touching.set_begin(2);
    touching.set_end(6);
    assert_eq!(range.intersect(&touching), 1);
    assert_eq!(touching.intersect(&range), 1);
}

#[test]
fn merging_disjoint_ranges_fills_the_gap() {
    let mut left = CoverBlock::new();
    left.set_begin(1);
    left.set_end(2);
    let mut right = CoverBlock::new();
    right.set_begin(6);
    right.set_end(8);
    left.merge(&right);
    assert_eq!(left.begin(), Some(1));
    assert_eq!(left.end(), Some(8));
    assert!(left.contains(4));
}

#[test]
fn merging_into_an_empty_range_copies_it() {
    let mut empty = CoverBlock::new();
    let mut right = CoverBlock::new();
    right.set_begin(6);
    right.set_end(8);
    empty.merge(&right);
    assert_eq!(empty, right);
    empty.clear();
    assert!(empty.is_empty());
}

#[test]
fn a_cover_answers_per_block() {
    let mut range = CoverBlock::new();
    range.set_begin(2);
    range.set_end(3);
    let mut cover = Cover::new();
    cover.set_block(GraphBlockId(4), range);
    assert!(cover.contains(GraphBlockId(4), 2));
    assert!(!cover.contains(GraphBlockId(4), 4));
    assert!(!cover.contains(GraphBlockId(1), 2));
    assert_eq!(cover.block(GraphBlockId(4)), Some(&range));
    assert_eq!(cover.block(GraphBlockId(5)), None);
}

fn seq(address: u64) -> SeqNum {
    SeqNum { address, order: 0 }
}

#[test]
fn a_later_reader_covers_an_intervening_block() {
    let mut data = Funcdata::default();
    data.entry = 0x1000;
    let first = data.new_block(0x1000);
    let middle = data.new_block(0x1010);
    let last = data.new_block(0x1020);
    data.add_edge(first, middle);
    data.add_edge(middle, last);

    let input = data.new_varnode(REGISTER_SPACE, 0, 4);
    data.mark_input(input);
    let define = data.new_op(COPY, seq(0x1000), vec![input]);
    let value = data.new_varnode(REGISTER_SPACE, 0, 4);
    data.op_set_output(define, Some(value));
    data.op_insert_end(define, first);
    let branch = data.new_op(BRANCH, seq(0x1010), Vec::new());
    data.op_insert_end(branch, middle);
    let read = data.new_op(RETURN, seq(0x1020), vec![value]);
    data.op_insert_end(read, last);

    // The dominance of the straight line first -> middle -> last.
    let dominance = Dominance {
        reverse_postorder: vec![first, middle, last],
        immediate: vec![None, Some(first), Some(middle)],
    };
    let cover = Cover::of(&data, value, &dominance);
    assert!(cover.contains(middle, 0));
    assert!(cover.contains(first, 0));
    assert!(cover.contains(last, 0));
}

#[test]
fn a_merge_reaches_back_only_along_the_edge_that_supplies_the_value() {
    let mut data = Funcdata::default();
    data.entry = 0x1000;
    let entry = data.new_block(0x1000);
    let left = data.new_block(0x1010);
    let right = data.new_block(0x1020);
    let join = data.new_block(0x1030);
    data.add_edge(entry, left);
    data.add_edge(entry, right);
    data.add_edge(left, join);
    data.add_edge(right, join);

    let source = data.new_varnode(REGISTER_SPACE, 0, 4);
    data.mark_input(source);
    let define = data.new_op(COPY, seq(0x1000), vec![source]);
    let value = data.new_varnode(REGISTER_SPACE, 8, 4);
    data.op_set_output(define, Some(value));
    data.op_insert_end(define, entry);
    let other = data.new_constant(0, 4);
    // The merge takes `value` from the left edge and a constant from the right.
    let merge = data.new_op(MULTIEQUAL, seq(0x1030), vec![value, other]);
    let merged = data.new_unique(4);
    data.op_set_output(merge, Some(merged));
    data.op_insert_end(merge, join);

    let dominance = Dominance {
        reverse_postorder: vec![entry, left, right, join],
        immediate: vec![None, Some(entry), Some(entry), Some(entry)],
    };
    let cover = Cover::of(&data, value, &dominance);
    assert!(cover.contains(entry, 0));
    assert!(cover.contains(left, 0));
    assert!(cover.contains(join, 0));
    assert!(!cover.contains(right, 0));
}
