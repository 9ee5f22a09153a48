use egui_pixels::pixel_area_stack::{PixelAreaStack, PixelAreaStackIter};
use egui_pixels::pixel_range::{PixelArea, PixelRange};
use std::collections::VecDeque;

fn black(start: u32, len: u16) -> PixelArea {
    PixelArea::with_black_color(vec![PixelRange::new_total(start, len)])
}

#[test]
fn allow_unordered() {
    let stack = PixelAreaStack::from_iter(vec![(10, black(0, 10)), (1, black(0, 10))]);
    assert!(stack.get(1).is_some());
    assert!(stack.get(10).is_some());
}

#[test]
fn test_end_index() {
    let example = black(0, 10);
    let x = PixelAreaStack::from_iter(vec![(1, example.clone()), (3, example.clone()), (5, example)]);
    let mut iter = x.iter();
    let mut indices = vec![];
    while let Some((i, _)) = iter.next() {
        indices.push(i);
    }
    assert_eq!(vec![1, 3, 5], indices);
}

#[test]
fn from_iter_keeps_the_last_area_of_a_layer() {
    let stack = PixelAreaStack::from_iter(vec![(2, black(0, 1)), (0, black(5, 1)), (2, black(9, 1))]);
    assert_eq!(stack.max_layer(), 3);
    assert_eq!(stack.get(0), Some(&black(5, 1)));
    assert_eq!(stack.get(1), None);
    assert_eq!(stack.get(2), Some(&black(9, 1)));
    assert_eq!(stack.get(3), None);
}

#[test]
fn empty_stacks() {
    assert!(PixelAreaStack::new().is_empty());
    assert!(PixelAreaStack::from_iter(vec![]).is_empty());
    assert!(!PixelAreaStack::from_areas(vec![black(0, 1)]).is_empty());
    assert_eq!(PixelAreaStack::from_areas(vec![black(0, 1), black(4, 1)]).max_layer(), 2);
}

#[test]
fn iter_from_both_ends() {
    let layers: VecDeque<Option<char>> = VecDeque::from(vec![None, Some('a'), None, Some('b'), None]);
    let mut it = PixelAreaStackIter::new(layers);
    assert_eq!(it.next_back(), Some((3, 'b')));
    assert_eq!(it.next(), Some((1, 'a')));
    assert_eq!(it.next(), None);
    assert_eq!(it.next_back(), None);
}

#[test]
fn make_mut_adds_empty_layers_up_to_the_index() {
    let mut stack = PixelAreaStack::from_areas(vec![black(0, 1)]);
    *stack.make_mut(3) = Some(black(7, 2));
    assert_eq!(stack.max_layer(), 4);
    assert_eq!(stack.get(0), Some(&black(0, 1)));
    assert!(stack.get(1).is_none() && stack.get(2).is_none());
    assert_eq!(stack.get(3), Some(&black(7, 2)));
    let old = stack.make_mut(0).take();
    assert_eq!(old, Some(black(0, 1)));
    assert_eq!(stack.max_layer(), 4);
    assert!(stack.get(0).is_none());
}

#[test]
fn option_vec_round_trip() {
    let layers = vec![None, Some(black(1, 1)), None, Some(black(4, 3))];
    let stack = PixelAreaStack::from_option_vec(layers.clone());
    assert_eq!(stack.to_option_vec(), layers);
    assert_eq!(stack.max_layer(), 4);
}

#[test]
fn into_iter_hands_out_the_areas_with_their_layers() {
    let stack = PixelAreaStack::from_option_vec(vec![None, Some(black(1, 1)), None, Some(black(4, 3))]);
    let mut it = stack.into_iter();
    assert_eq!(it.next(), Some((1, black(1, 1))));
    assert_eq!(it.next_back(), Some((3, black(4, 3))));
    assert_eq!(it.next(), None);
}
