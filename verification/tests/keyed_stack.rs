use iced_keyed::keyed::stack::{
    cursor_after_probe, draw_layer, draw_layers, layers_under, mouse_interaction, KeyedState, LayerEvent,
};
use iced_keyed::keyed::Stack;
use iced_keyed::length::{Length, Size};
use iced_keyed::mouse::Cursor;
use iced_keyed::widget::Widget;
use vstd::view::View;

/// A state tree that records the widget that created it, then every widget
/// that reconciled it.
#[derive(Debug, Clone, PartialEq)]
struct Log(Vec<u32>);

impl View for Log {
    type V = Vec<u32>;

    fn view(&self) -> Vec<u32> {
        self.0.clone()
    }
}

/// A widget whose state is a [`Log`].
struct Item {
    id: u32,
    hint: Size<Length>,
}

fn item(id: u32) -> Item {
    Item { id, hint: Size { width: Length::Shrink, height: Length::Shrink } }
}

fn sized(id: u32, width: Length, height: Length) -> Item {
    Item { id, hint: Size { width, height } }
}

impl Widget for Item {
    type Tree = Log;

    fn hint(&self) -> Size<Length> {
        self.hint
    }

    fn initial_tree(&self) -> Vec<u32> {
        vec![self.id]
    }

    fn accepts(&self, _tree: Vec<u32>) -> bool {
        true
    }

    fn diffed(&self, tree: Vec<u32>) -> Vec<u32> {
        let mut tree = tree;
        tree.push(self.id);
        tree
    }

    fn size_hint(&self) -> Size<Length> {
        self.hint
    }

    fn tree(&self) -> Log {
        Log(vec![self.id])
    }

    fn diff(&self, tree: &mut Log) {
        tree.0.push(self.id);
    }
}

fn stack_of(keys: &[u32]) -> Stack<u32, Item> {
    let mut stack = Stack::new();
    for &key in keys {
        stack = stack.push(key, item(key));
    }
    stack
}

/// Runs a diff from a stack with the keys `before` to one with the keys
/// `after`, where each child is identified by its key.
fn diff_keys(before: &[u32], after: &[u32]) -> (Vec<u32>, Vec<Vec<u32>>) {
    let old = stack_of(before);
    let mut state = old.state();
    let mut trees = old.children_trees();
    let new = stack_of(after);
    new.diff(&mut state, &mut trees);
    (state.keys, trees.into_iter().map(|tree| tree.0).collect())
}

#[test]
fn new_stack_is_empty_and_shrinks() {
    let stack: Stack<u32, Item> = Stack::new();
    assert_eq!(stack.size(), Size { width: Length::Shrink, height: Length::Shrink });
    assert!(stack.state().keys.is_empty());
    assert!(stack.layout_order().is_empty());
    let default: Stack<u32, Item> = Stack::default();
    assert_eq!(default.size(), Size { width: Length::Shrink, height: Length::Shrink });
    let with_capacity: Stack<u32, Item> = Stack::with_capacity(8);
    assert!(with_capacity.state().keys.is_empty());
}

#[test]
fn from_vecs_does_not_inspect_children() {
    let stack = Stack::from_vecs(vec![1, 2], vec![sized(1, Length::Fill, Length::Fill), item(2)]);
    assert_eq!(stack.size(), Size { width: Length::Shrink, height: Length::Shrink });
    assert_eq!(stack.state().keys, vec![1, 2]);
}

#[test]
fn push_encloses_fill_children() {
    let stack = Stack::new()
        .push(1, sized(1, Length::Shrink, Length::Fixed(10.0f32.to_bits())))
        .push(2, sized(2, Length::FillPortion(3), Length::Shrink))
        .push(3, sized(3, Length::Fill, Length::Fill));
    assert_eq!(stack.size(), Size { width: Length::FillPortion(3), height: Length::Fill });
    assert_eq!(stack.state().keys, vec![1, 2, 3]);
}

#[test]
fn fixed_width_is_kept_when_pushing() {
    let stack = Stack::new()
        .width(Length::Fixed(100.0f32.to_bits()))
        .push(1, sized(1, Length::Fill, Length::Shrink));
    assert_eq!(stack.size(), Size { width: Length::Fixed(100.0f32.to_bits()), height: Length::Shrink });
}

#[test]
fn width_and_height_set_the_size() {
    let stack: Stack<u32, Item> = Stack::new().width(Length::Fill).height(Length::FillPortion(2));
    assert_eq!(stack.size(), Size { width: Length::Fill, height: Length::FillPortion(2) });
}

#[test]
fn push_maybe_skips_none() {
    let stack = Stack::new().push_maybe(1, None).push_maybe(2, Some(sized(2, Length::Fill, Length::Shrink)));
    assert_eq!(stack.state().keys, vec![2]);
    assert_eq!(stack.size(), Size { width: Length::Fill, height: Length::Shrink });
}

#[test]
fn with_children_and_extend_keep_order() {
    let stack = Stack::with_children(vec![(5, item(5)), (3, item(3))]).extend(vec![(9, item(9))]);
    assert_eq!(stack.state().keys, vec![5, 3, 9]);
    assert_eq!(stack.children_trees(), vec![Log(vec![5]), Log(vec![3]), Log(vec![9])]);
}

#[test]
fn diff_with_same_keys_keeps_every_tree() {
    let (keys, trees) = diff_keys(&[1, 2, 3], &[1, 2, 3]);
    assert_eq!(keys, vec![1, 2, 3]);
    assert_eq!(trees, vec![vec![1, 1], vec![2, 2], vec![3, 3]]);
}

#[test]
fn diff_drops_the_trees_of_removed_keys() {
    let (keys, trees) = diff_keys(&[1, 2, 3], &[1, 3]);
    assert_eq!(keys, vec![1, 3]);
    assert_eq!(trees, vec![vec![1, 1], vec![3, 3]]);
}

#[test]
fn diff_gives_new_keys_fresh_trees() {
    let (keys, trees) = diff_keys(&[1], &[1, 2]);
    assert_eq!(keys, vec![1, 2]);
    assert_eq!(trees, vec![vec![1, 1], vec![2, 2]]);
}

#[test]
fn diff_follows_keys_inserted_in_the_middle() {
    let (keys, trees) = diff_keys(&[1, 4], &[1, 2, 3, 4]);
    assert_eq!(keys, vec![1, 2, 3, 4]);
    assert_eq!(trees, vec![vec![1, 1], vec![2, 2], vec![3, 3], vec![4, 4]]);
}

#[test]
fn diff_follows_exchanged_keys() {
    let (keys, trees) = diff_keys(&[1, 2], &[2, 1]);
    assert_eq!(keys, vec![2, 1]);
    assert_eq!(trees, vec![vec![2, 2], vec![1, 1]]);
}

#[test]
fn diff_follows_keys_exchanged_across_others() {
    let (keys, trees) = diff_keys(&[1, 2, 3], &[3, 2, 1]);
    assert_eq!(keys, vec![3, 2, 1]);
    assert_eq!(trees, vec![vec![3, 3], vec![2, 2], vec![1, 1]]);
}

#[test]
fn diff_follows_a_rotation_to_the_left() {
    let (keys, trees) = diff_keys(&[1, 2, 3, 4], &[2, 3, 4, 1]);
    assert_eq!(keys, vec![2, 3, 4, 1]);
    assert_eq!(trees, vec![vec![2, 2], vec![3, 3], vec![4, 4], vec![1, 1]]);
}

#[test]
fn diff_follows_a_rotation_to_the_right() {
    let (keys, trees) = diff_keys(&[1, 2, 3, 4], &[4, 1, 2, 3]);
    assert_eq!(keys, vec![4, 1, 2, 3]);
    assert_eq!(trees, vec![vec![4, 4], vec![1, 1], vec![2, 2], vec![3, 3]]);
}

#[test]
fn diff_keeps_every_state_when_adding_at_the_top() {
    let (keys, trees) = diff_keys(&[1, 2, 3], &[0, 1, 2, 3]);
    assert_eq!(keys, vec![0, 1, 2, 3]);
    assert_eq!(trees, vec![vec![0, 0], vec![1, 1], vec![2, 2], vec![3, 3]]);
}

#[test]
fn diff_follows_an_arbitrary_reordering_with_changes() {
    let (keys, trees) = diff_keys(&[1, 2, 3, 4, 5], &[5, 6, 3, 1]);
    assert_eq!(keys, vec![5, 6, 3, 1]);
    assert_eq!(trees, vec![vec![5, 5], vec![6, 6], vec![3, 3], vec![1, 1]]);
}

#[test]
fn diff_keeps_every_tree_of_a_repeated_key() {
    let stack = stack_of(&[2, 1]);
    let mut state = KeyedState { keys: vec![1, 1, 2] };
    let mut trees = vec![Log(vec![10]), Log(vec![11]), Log(vec![20])];
    stack.diff(&mut state, &mut trees);
    assert_eq!(state.keys, vec![2, 1]);
    assert_eq!(trees, vec![Log(vec![20, 2]), Log(vec![10, 1]), Log(vec![11])]);
}

#[test]
fn diff_from_an_empty_state() {
    let stack = stack_of(&[7, 8]);
    let mut state = KeyedState { keys: Vec::new() };
    let mut trees: Vec<Log> = Vec::new();
    stack.diff(&mut state, &mut trees);
    assert_eq!(state.keys, vec![7, 8]);
    assert_eq!(trees, vec![Log(vec![7, 7]), Log(vec![8, 8])]);
}

#[test]
fn layout_starts_with_the_base_layer() {
    assert_eq!(stack_of(&[1, 2, 3]).layout_order(), vec![0, 1, 2]);
    assert_eq!(stack_of(&[1]).layout_order(), vec![0]);
}

#[test]
fn mouse_interaction_is_the_topmost_one() {
    assert_eq!(mouse_interaction(&vec![Some(1), Some(2), None]), Some(2));
    assert_eq!(mouse_interaction(&vec![Some(1), None, None]), Some(1));
    assert_eq!(mouse_interaction::<u8>(&vec![None, None]), None);
    assert_eq!(mouse_interaction::<u8>(&vec![]), None);
}

#[test]
fn layers_under_the_topmost_interaction_lose_the_cursor() {
    assert_eq!(layers_under(&vec![Some(1), None, Some(3), None], true), 2);
    assert_eq!(layers_under(&vec![Some(1), None, Some(3), None], false), 0);
    assert_eq!(layers_under::<u8>(&vec![None, None], true), 0);
}

#[test]
fn drawing_layers() {
    let cursor = Cursor::Available((1, 2));
    let bottom = draw_layer(0, 2, cursor);
    assert!(!bottom.own_layer);
    assert_eq!(bottom.cursor, Cursor::Unavailable);
    let middle = draw_layer(1, 2, cursor);
    assert!(middle.own_layer);
    assert_eq!(middle.cursor, Cursor::Unavailable);
    let top = draw_layer(2, 2, cursor);
    assert!(top.own_layer);
    assert_eq!(top.cursor, cursor);
}

#[test]
fn draw_viewport_follows_clipping() {
    let stack = stack_of(&[1]);
    assert_eq!(stack.draw_viewport(1, 2), 2);
}

#[test]
fn update_layers() {
    let stack = stack_of(&[1, 2, 3]);
    let cursor = Cursor::Available((0, 0));
    let top = stack.update_layer(0, true, false, cursor);
    assert_eq!(top.event, LayerEvent::Forwarded);
    assert!(top.probe);
    let bottom = stack.update_layer(2, true, false, cursor);
    assert!(!bottom.probe);
    let captured = stack.update_layer(1, true, true, cursor);
    assert_eq!(captured.event, LayerEvent::CursorLeft);
    assert!(!captured.probe);
    let away = stack.update_layer(0, false, false, cursor);
    assert!(!away.probe);
    let levitating = stack.update_layer(0, true, false, Cursor::Levitating((0, 0)));
    assert!(!levitating.probe);
}

#[test]
fn probes_make_the_cursor_levitate() {
    let cursor = Cursor::Available((3, 4));
    assert_eq!(cursor_after_probe(cursor, &Some(1)), Cursor::Levitating((3, 4)));
    assert_eq!(cursor_after_probe::<_, u8>(cursor, &None), cursor);
    assert_eq!(cursor_after_probe::<(u8, u8), _>(Cursor::Unavailable, &Some(1)), Cursor::Unavailable);
}

#[test]
fn nested_stacks_keep_the_state_of_their_children() {
    let old = Stack::new().push(10, stack_of(&[1, 2])).push(20, stack_of(&[3]));
    let mut tree = Widget::tree(&old);
    let new = Stack::new().push(20, stack_of(&[3])).push(10, stack_of(&[2, 1]));
    Widget::diff(&new, &mut tree);
    assert_eq!(tree.state.keys, vec![20, 10]);
    assert_eq!(tree.children[0].state.keys, vec![3]);
    assert_eq!(tree.children[0].children, vec![Log(vec![3, 3])]);
    assert_eq!(tree.children[1].state.keys, vec![2, 1]);
    assert_eq!(tree.children[1].children, vec![Log(vec![2, 2]), Log(vec![1, 1])]);
}

#[test]
fn a_stack_hints_its_own_size() {
    let stack = stack_of(&[1]).width(Length::Fill);
    assert_eq!(Widget::size_hint(&stack), Size { width: Length::Fill, height: Length::Shrink });
}

#[test]
fn update_pass_over_all_layers() {
    let stack = stack_of(&[1, 2, 3]);
    let cursor = Cursor::Available((5, 6));
    let steps = stack.update_layers(true, cursor, &vec![false, false, false], &vec![None, Some(7), Some(8)]);
    assert_eq!(steps.len(), 3);
    assert_eq!(steps[0].cursor, cursor);
    assert!(steps[0].probe);
    assert_eq!(steps[1].cursor, cursor);
    assert!(steps[1].probe);
    assert_eq!(steps[2].cursor, Cursor::Levitating((5, 6)));
    assert!(!steps[2].probe);
    assert!(steps.iter().all(|step| step.event == LayerEvent::Forwarded));
}

#[test]
fn update_pass_after_a_capture() {
    let stack = stack_of(&[1, 2, 3]);
    let cursor = Cursor::Available((0, 0));
    let steps = stack.update_layers(true, cursor, &vec![false, true, true], &vec![None, Some(1), None]);
    assert_eq!(steps[0].event, LayerEvent::Forwarded);
    assert_eq!(steps[1].event, LayerEvent::CursorLeft);
    assert_eq!(steps[2].event, LayerEvent::CursorLeft);
    assert!(!steps[1].probe && !steps[2].probe);
    assert_eq!(steps[2].cursor, cursor);
}

#[test]
fn draw_pass_over_all_layers() {
    let cursor = Cursor::Available((1, 1));
    let draws = draw_layers(&vec![Some(1), Some(2), None], true, cursor);
    assert_eq!(draws.len(), 3);
    assert!(!draws[0].own_layer && draws[1].own_layer && draws[2].own_layer);
    assert_eq!(draws[0].cursor, Cursor::Unavailable);
    assert_eq!(draws[1].cursor, cursor);
    assert_eq!(draws[2].cursor, cursor);
    let away = draw_layers(&vec![Some(1), Some(2), None], false, cursor);
    assert!(away.iter().all(|draw| draw.cursor == cursor));
}

#[test]
fn layout_nodes_come_back_in_the_order_of_the_children() {
    let stack = stack_of(&[1, 2, 3]);
    assert_eq!(stack.arrange_layout(vec!["base", "second", "third"]), vec!["base", "second", "third"]);
}

#[test]
fn a_second_diff_keeps_every_tree_in_place() {
    let old = stack_of(&[1, 2, 3]);
    let mut state = old.state();
    let mut trees = old.children_trees();
    let new = stack_of(&[3, 1]);
    new.diff(&mut state, &mut trees);
    new.diff(&mut state, &mut trees);
    assert_eq!(state.keys, vec![3, 1]);
    assert_eq!(trees, vec![Log(vec![3, 3, 3]), Log(vec![1, 1, 1])]);
}
