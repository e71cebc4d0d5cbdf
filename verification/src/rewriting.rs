//! What writing through a path does to what the path selects.
//!
//! A path goes down a fixed number of levels, and whether it selects a node
//! depends only on the nodes above it. Writing through the path changes
//! nothing above the nodes that it selects, so the path selects the same
//! locations afterwards, and finds there what was written.

use crate::evaluation::{
    all_valid, child, child_count, is_start_name, locate, name_step, named_child, node_at,
    nodes_at, path_depth, property_index, replaced_all, replaced_at, segment_depth, segment_step,
    selected, selected_children, selected_values, selector_step, valid_location, with_child,
    children_at, lemma_positions_bounds, lemma_push_location, picks,
};
use crate::json_node::Value;
use crate::json_path::{Segment, Selector};
use vstd::prelude::*;

verus! {

/// Whether two trees are the same down to `depth` levels: the same kinds of
/// nodes with the same numbers of children and the same names, and the same
/// values where a node has no children. What lies `depth` levels down or
/// deeper may differ.
pub open spec fn agree(a: Value, b: Value, depth: nat) -> bool
    decreases depth,
{
    if depth == 0 {
        true
    } else {
        match (a, b) {
            (Value::Array(x), Value::Array(y)) => {
                &&& x.len() == y.len()
                &&& forall|i: int| 0 <= i < x.len() ==> agree(#[trigger] x[i], y[i], (depth - 1) as nat)
            },
            (Value::Object(x), Value::Object(y)) => {
                &&& x.len() == y.len()
                &&& forall|i: int|
                    0 <= i < x.len() ==> (#[trigger] x[i]).0 == y[i].0 && agree(
                        x[i].1,
                        y[i].1,
                        (depth - 1) as nat,
                    )
            },
            _ => a == b,
        }
    }
}

/// A tree agrees with itself.
pub proof fn lemma_agree_same(a: Value, depth: nat)
    ensures
        agree(a, a, depth),
    decreases depth,
{
    if depth > 0 {
        match a {
            Value::Array(x) => {
                assert forall|i: int| 0 <= i < x.len() implies agree(
                    #[trigger] x[i],
                    x[i],
                    (depth - 1) as nat,
                ) by {
                    lemma_agree_same(x[i], (depth - 1) as nat);
                }
            },
            Value::Object(x) => {
                assert forall|i: int| 0 <= i < x.len() implies (#[trigger] x[i]).0 == x[i].0
                    && agree(x[i].1, x[i].1, (depth - 1) as nat) by {
                    lemma_agree_same(x[i].1, (depth - 1) as nat);
                }
            },
            _ => {},
        }
    }
}

/// Trees that agree with a third agree with each other.
pub proof fn lemma_agree_chain(a: Value, b: Value, c: Value, depth: nat)
    requires
        agree(a, b, depth),
        agree(b, c, depth),
    ensures
        agree(a, c, depth),
    decreases depth,
{
    if depth > 0 {
        match (a, b, c) {
            (Value::Array(x), Value::Array(y), Value::Array(z)) => {
                assert forall|i: int| 0 <= i < x.len() implies agree(
                    #[trigger] x[i],
                    z[i],
                    (depth - 1) as nat,
                ) by {
                    assert(agree(x[i], y[i], (depth - 1) as nat));
                    assert(agree(y[i], z[i], (depth - 1) as nat));
                    lemma_agree_chain(x[i], y[i], z[i], (depth - 1) as nat);
                }
            },
            (Value::Object(x), Value::Object(y), Value::Object(z)) => {
                assert forall|i: int| 0 <= i < x.len() implies (#[trigger] x[i]).0 == z[i].0
                    && agree(x[i].1, z[i].1, (depth - 1) as nat) by {
                    assert(x[i].0 == y[i].0 && agree(x[i].1, y[i].1, (depth - 1) as nat));
                    assert(y[i].0 == z[i].0 && agree(y[i].1, z[i].1, (depth - 1) as nat));
                    lemma_agree_chain(x[i].1, y[i].1, z[i].1, (depth - 1) as nat);
                }
            },
            _ => {},
        }
    }
}

/// In trees that agree down to the depth of a location, the location is
/// valid in both or in neither, and the nodes there agree for the levels
/// that are left.
pub proof fn lemma_agree_at(a: Value, b: Value, depth: nat, loc: Seq<usize>)
    requires
        agree(a, b, depth),
        loc.len() <= depth,
        valid_location(a, loc),
    ensures
        valid_location(b, loc),
        agree(node_at(a, loc), node_at(b, loc), (depth - loc.len()) as nat),
    decreases loc.len(),
{
    if loc.len() > 0 {
        let i = loc[0] as int;
        match (a, b) {
            (Value::Array(x), Value::Array(y)) => {
                assert(agree(x[i], y[i], (depth - 1) as nat));
            },
            (Value::Object(x), Value::Object(y)) => {
                assert(x[i].0 == y[i].0 && agree(x[i].1, y[i].1, (depth - 1) as nat));
            },
            _ => {},
        }
        lemma_agree_at(child(a, i), child(b, i), (depth - 1) as nat, loc.skip(1));
    }
}

/// Replacing a node changes nothing above it.
pub proof fn lemma_replaced_agrees(root: Value, loc: Seq<usize>, new: Value)
    requires
        valid_location(root, loc),
    ensures
        agree(root, replaced_at(root, loc, new), loc.len()),
    decreases loc.len(),
{
    if loc.len() > 0 {
        let i = loc[0] as int;
        let depth = loc.len();
        let below = replaced_at(child(root, i), loc.skip(1), new);
        lemma_replaced_agrees(child(root, i), loc.skip(1), new);
        match root {
            Value::Array(x) => {
                let y = x.update(i, below);
                assert forall|k: int| 0 <= k < x.len() implies agree(
                    #[trigger] x[k],
                    y[k],
                    (depth - 1) as nat,
                ) by {
                    if k != i {
                        lemma_agree_same(x[k], (depth - 1) as nat);
                    }
                }
            },
            Value::Object(x) => {
                let y = x.update(i, (x[i].0, below));
                assert forall|k: int| 0 <= k < x.len() implies (#[trigger] x[k]).0 == y[k].0
                    && agree(x[k].1, y[k].1, (depth - 1) as nat) by {
                    if k != i {
                        lemma_agree_same(x[k].1, (depth - 1) as nat);
                    }
                }
            },
            _ => {},
        }
    }
}

/// What stands at a location after a node of the same depth was replaced:
/// the new node where the two locations are the same, and what stood there
/// before where they are not.
pub proof fn lemma_node_at_replaced(root: Value, loc: Seq<usize>, new: Value, other: Seq<usize>)
    requires
        valid_location(root, loc),
        valid_location(root, other),
        loc.len() == other.len(),
    ensures
        node_at(replaced_at(root, loc, new), other) == if other == loc {
            new
        } else {
            node_at(root, other)
        },
    decreases loc.len(),
{
    if loc.len() == 0 {
        assert(other =~= loc);
    } else {
        let i = loc[0] as int;
        let below = replaced_at(child(root, i), loc.skip(1), new);
        let after = with_child(root, i, below);
        if other[0] == loc[0] {
            lemma_node_at_replaced(child(root, i), loc.skip(1), new, other.skip(1));
            assert(child(after, i) == below);
            if other.skip(1) == loc.skip(1) {
                assert forall|k: int| 0 <= k < loc.len() implies other[k] == loc[k] by {
                    if k > 0 {
                        assert(other.skip(1)[k - 1] == other[k]);
                        assert(loc.skip(1)[k - 1] == loc[k]);
                    }
                }
                assert(other =~= loc);
            } else {
                assert(other != loc);
            }
        } else {
            assert(child(after, other[0] as int) == child(root, other[0] as int));
        }
    }
}

/// Replacing the nodes at locations of one depth changes nothing above that
/// depth, keeps the locations valid, and leaves the new node at each.
pub proof fn lemma_replaced_all(root: Value, locs: Seq<Seq<usize>>, new: Value, depth: nat)
    requires
        all_valid(root, locs, depth),
    ensures
        agree(root, replaced_all(root, locs, new), depth),
        all_valid(replaced_all(root, locs, new), locs, depth),
        forall|i: int|
            0 <= i < locs.len() ==> node_at(replaced_all(root, locs, new), #[trigger] locs[i])
                == new,
    decreases locs.len(),
{
    if locs.len() == 0 {
        lemma_agree_same(root, depth);
    } else {
        let front = locs.drop_last();
        let last = locs.last();
        let before = replaced_all(root, front, new);
        let after = replaced_at(before, last, new);
        assert forall|i: int| 0 <= i < front.len() implies valid_location(root, #[trigger] front[i])
            && front[i].len() == depth by {
            assert(front[i] == locs[i]);
        }
        lemma_replaced_all(root, front, new, depth);
        lemma_agree_at(root, before, depth, last);
        lemma_replaced_agrees(before, last, new);
        lemma_agree_chain(root, before, after, depth);
        assert forall|i: int| 0 <= i < locs.len() implies valid_location(after, #[trigger] locs[i])
            && locs[i].len() == depth && node_at(after, locs[i]) == new by {
            lemma_agree_at(root, before, depth, locs[i]);
            crate::evaluation::lemma_replace_keeps_valid(before, last, new, locs[i]);
            lemma_node_at_replaced(before, last, new, locs[i]);
            if i < front.len() {
                assert(front[i] == locs[i]);
            }
        }
    }
}

/// Where a property is found, it is there and has the name.
pub proof fn lemma_property_index(members: Seq<(Seq<char>, Value)>, name: Seq<char>, i: int)
    requires
        0 <= i,
    ensures
        property_index(members, name, i) matches Some(k) ==> i <= k < members.len()
            && members[k].0 == name,
    decreases members.len() - i,
{
    if i < members.len() && members[i].0 != name {
        lemma_property_index(members, name, i + 1);
    }
}

/// Objects with the same names in the same order have a name in the same
/// place.
pub proof fn lemma_property_index_same(
    x: Seq<(Seq<char>, Value)>,
    y: Seq<(Seq<char>, Value)>,
    name: Seq<char>,
    i: int,
)
    requires
        x.len() == y.len(),
        forall|k: int| 0 <= k < x.len() ==> (#[trigger] x[k]).0 == y[k].0,
    ensures
        property_index(x, name, i) == property_index(y, name, i),
    decreases x.len() - i,
{
    if 0 <= i < x.len() {
        assert(x[i].0 == y[i].0);
        if x[i].0 != name {
            lemma_property_index_same(x, y, name, i + 1);
        }
    }
}

/// A name leads from valid locations to valid locations one level further
/// down.
pub proof fn lemma_name_step_valid(root: Value, locs: Seq<Seq<usize>>, name: Seq<char>, depth: nat)
    requires
        all_valid(root, locs, depth),
    ensures
        all_valid(root, name_step(root, locs, name), depth + 1),
    decreases locs.len(),
{
    if locs.len() > 0 {
        let front = locs.drop_last();
        assert forall|i: int| 0 <= i < front.len() implies valid_location(root, #[trigger] front[i])
            && front[i].len() == depth by {
            assert(front[i] == locs[i]);
        }
        lemma_name_step_valid(root, front, name, depth);
        let done = name_step(root, front, name);
        let loc = locs.last();
        assert(valid_location(root, loc) && loc.len() == depth);
        match node_at(root, loc) {
            Value::Object(members) => {
                lemma_property_index(members, name, 0);
                match property_index(members, name, 0) {
                    Some(k) => {
                        lemma_push_location(root, loc, k as usize);
                    },
                    None => {},
                }
            },
            _ => {},
        }
    }
}

/// A selector leads from valid locations to valid locations one level
/// further down.
pub proof fn lemma_selector_step_valid(
    root: Value,
    locs: Seq<Seq<usize>>,
    selector: Selector,
    name: Seq<char>,
    depth: nat,
)
    requires
        all_valid(root, locs, depth),
    ensures
        selector_step(root, locs, selector, name) matches Ok(found) ==> all_valid(
            root,
            found,
            depth + 1,
        ),
    decreases locs.len(),
{
    if locs.len() > 0 {
        let front = locs.drop_last();
        assert forall|i: int| 0 <= i < front.len() implies valid_location(root, #[trigger] front[i])
            && front[i].len() == depth by {
            assert(front[i] == locs[i]);
        }
        lemma_selector_step_valid(root, front, selector, name, depth);
        let loc = locs.last();
        assert(valid_location(root, loc) && loc.len() == depth);
        if selector_step(root, locs, selector, name) is Ok {
            let done = selector_step(root, front, selector, name)->Ok_0;
            let more = selected_children(root, loc, selector, name)->Ok_0;
            let len = child_count(node_at(root, loc)) as int;
            let below = selected(selector, len);
            lemma_positions_bounds(len, |p: int| picks(selector, len, p));
            assert forall|i: int| 0 <= i < more.len() implies valid_location(root, #[trigger] more[i])
                && more[i].len() == depth + 1 by {
                lemma_push_location(root, loc, below[i]);
            }
            let found = done + more;
            assert forall|i: int| 0 <= i < found.len() implies valid_location(
                root,
                #[trigger] found[i],
            ) && found[i].len() == depth + 1 by {
                if i < done.len() {
                    assert(found[i] == done[i]);
                } else {
                    assert(found[i] == more[i - done.len()]);
                }
            }
        }
    }
}

/// The locations that a path selects are valid and lie as deep as the path
/// goes down.
pub proof fn lemma_locate_valid(root: Value, path: Seq<Segment>)
    ensures
        locate(root, path) matches Ok(locs) ==> all_valid(root, locs, path_depth(path)),
    decreases path.len(),
{
    if path.len() > 0 {
        lemma_locate_valid(root, path.drop_last());
        if locate(root, path.drop_last()) is Ok {
            let locs = locate(root, path.drop_last())->Ok_0;
            let depth = path_depth(path.drop_last());
            let segment = path.last();
            if is_start_name(segment.name) {
                match segment.selector {
                    Some(selector) => {
                        lemma_selector_step_valid(root, locs, selector, segment.name, depth);
                    },
                    None => {},
                }
            } else {
                lemma_name_step_valid(root, locs, segment.name, depth);
                match segment.selector {
                    Some(selector) => {
                        lemma_selector_step_valid(
                            root,
                            name_step(root, locs, segment.name),
                            selector,
                            segment.name,
                            depth + 1,
                        );
                    },
                    None => {},
                }
            }
        }
    }
}

/// In trees that agree below the depth of the locations, a name leads to
/// the same locations.
pub proof fn lemma_name_step_same(
    a: Value,
    b: Value,
    locs: Seq<Seq<usize>>,
    name: Seq<char>,
    depth: nat,
    known: nat,
)
    requires
        agree(a, b, known),
        all_valid(a, locs, depth),
        depth < known,
    ensures
        name_step(a, locs, name) == name_step(b, locs, name),
    decreases locs.len(),
{
    if locs.len() > 0 {
        let front = locs.drop_last();
        assert forall|i: int| 0 <= i < front.len() implies valid_location(a, #[trigger] front[i])
            && front[i].len() == depth by {
            assert(front[i] == locs[i]);
        }
        lemma_name_step_same(a, b, front, name, depth, known);
        let loc = locs.last();
        assert(valid_location(a, loc) && loc.len() == depth);
        lemma_agree_at(a, b, known, loc);
        match (node_at(a, loc), node_at(b, loc)) {
            (Value::Object(x), Value::Object(y)) => {
                lemma_property_index_same(x, y, name, 0);
            },
            _ => {},
        }
        assert(named_child(a, loc, name) == named_child(b, loc, name));
    }
}

/// In trees that agree below the depth of the locations, a selector leads
/// to the same locations, or fails in the same way.
pub proof fn lemma_selector_step_same(
    a: Value,
    b: Value,
    locs: Seq<Seq<usize>>,
    selector: Selector,
    name: Seq<char>,
    depth: nat,
    known: nat,
)
    requires
        agree(a, b, known),
        all_valid(a, locs, depth),
        depth < known,
    ensures
        selector_step(a, locs, selector, name) == selector_step(b, locs, selector, name),
    decreases locs.len(),
{
    if locs.len() > 0 {
        let front = locs.drop_last();
        assert forall|i: int| 0 <= i < front.len() implies valid_location(a, #[trigger] front[i])
            && front[i].len() == depth by {
            assert(front[i] == locs[i]);
        }
        lemma_selector_step_same(a, b, front, selector, name, depth, known);
        let loc = locs.last();
        assert(valid_location(a, loc) && loc.len() == depth);
        lemma_agree_at(a, b, known, loc);
        assert(selected_children(a, loc, selector, name) == selected_children(
            b,
            loc,
            selector,
            name,
        ));
    }
}

/// In trees that agree down to the depth of a path, the path selects the
/// same locations, or fails in the same way.
pub proof fn lemma_locate_same(a: Value, b: Value, path: Seq<Segment>, known: nat)
    requires
        agree(a, b, known),
        path_depth(path) <= known,
    ensures
        locate(a, path) == locate(b, path),
    decreases path.len(),
{
    if path.len() > 0 {
        let front = path.drop_last();
        let segment = path.last();
        let depth = path_depth(front);
        lemma_locate_same(a, b, front, known);
        lemma_locate_valid(a, front);
        if locate(a, front) is Ok {
            let locs = locate(a, front)->Ok_0;
            if is_start_name(segment.name) {
                match segment.selector {
                    Some(selector) => {
                        lemma_selector_step_same(a, b, locs, selector, segment.name, depth, known);
                    },
                    None => {},
                }
            } else {
                lemma_name_step_same(a, b, locs, segment.name, depth, known);
                lemma_name_step_valid(a, locs, segment.name, depth);
                match segment.selector {
                    Some(selector) => {
                        lemma_selector_step_same(
                            a,
                            b,
                            name_step(a, locs, segment.name),
                            selector,
                            segment.name,
                            depth + 1,
                            known,
                        );
                    },
                    None => {},
                }
            }
        }
    }
}

/// Writing, then reading: after a value was put in the place of every node
/// that a path selects, the path selects the same locations as before, and
/// reading through it finds the value at every one of them.
pub proof fn lemma_write_then_read(root: Value, path: Seq<Segment>, new: Value)
    requires
        locate(root, path) is Ok,
    ensures
        ({
            let locs = locate(root, path)->Ok_0;
            let after = replaced_all(root, locs, new);
            &&& locate(after, path) == locate(root, path)
            &&& selected_values(after, path) matches Ok(values)
            &&& values.len() == locs.len()
            &&& forall|i: int| 0 <= i < values.len() ==> #[trigger] values[i] == new
        }),
{
    let locs = locate(root, path)->Ok_0;
    let after = replaced_all(root, locs, new);
    lemma_locate_valid(root, path);
    lemma_replaced_all(root, locs, new, path_depth(path));
    lemma_locate_same(root, after, path, path_depth(path));
    let values = nodes_at(after, locs);
    assert forall|i: int| 0 <= i < values.len() implies #[trigger] values[i] == new by {
        assert(values[i] == node_at(after, locs[i]));
    }
}

/// Writing through the text of a path, then reading through the same text:
/// where writing succeeds, reading the new tree succeeds and finds the
/// value that was written at every node that the path selects. A path that
/// selects exactly one node reads back exactly that value.
pub proof fn lemma_set_then_get(root: Value, text: Seq<char>, new: Value)
    requires
        crate::evaluation::written(root, text, new) is Ok,
    ensures
        ({
            let after = crate::evaluation::written(root, text, new)->Ok_0;
            &&& crate::evaluation::read(root, text) matches Ok(before)
            &&& crate::evaluation::read(after, text) matches Ok(values)
            &&& values.len() == before.len()
            &&& forall|i: int| 0 <= i < values.len() ==> #[trigger] values[i] == new
            &&& before.len() == 1 ==> values == seq![new]
            &&& before.len() > 0 ==> crate::evaluation::first_of(values) == Some(new)
        }),
{
    let path = crate::json_path::compile(text)->Ok_0;
    lemma_write_then_read(root, path, new);
    let after = crate::evaluation::written(root, text, new)->Ok_0;
    let values = crate::evaluation::read(after, text)->Ok_0;
    if values.len() == 1 {
        assert(values =~= seq![new]);
    }
}

} // verus!
