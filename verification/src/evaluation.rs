//! Evaluating a compiled path against a document: which nodes it selects,
//! and reading and writing them.
//!
//! A selected node is named by its location, the chain of child positions
//! that leads to it from the node that the path starts from. Evaluation
//! keeps the locations in the order in which the path finds them and drops
//! none that it finds twice.

use crate::error::{Failure, JsonError};
use crate::json_node::{
    lemma_members_of, lemma_values_of, members_of, values_of, JsonNode, JsonObjProp, Value,
};
use crate::json_path::{compile, ArrayElementSelector, JsonPath, Segment, Selector};
use crate::text::chars_of;
use vstd::prelude::*;

verus! {

/// The number of children of a node: the elements of an array, the
/// properties of an object, none for any other node.
pub open spec fn child_count(v: Value) -> nat {
    match v {
        Value::Array(items) => items.len(),
        Value::Object(members) => members.len(),
        _ => 0,
    }
}

/// The child of a node at position `i`.
pub open spec fn child(v: Value, i: int) -> Value {
    match v {
        Value::Array(items) => items[i],
        Value::Object(members) => members[i].1,
        _ => Value::Null,
    }
}

/// Whether `loc` leads to a node of `v`.
pub open spec fn valid_location(v: Value, loc: Seq<usize>) -> bool
    decreases loc.len(),
{
    loc.len() > 0 ==> loc[0] < child_count(v) && valid_location(child(v, loc[0] as int), loc.skip(1))
}

/// The node of `v` that `loc` leads to.
pub open spec fn node_at(v: Value, loc: Seq<usize>) -> Value
    decreases loc.len(),
{
    if loc.len() == 0 {
        v
    } else {
        node_at(child(v, loc[0] as int), loc.skip(1))
    }
}

/// `v` with `c` in the place of its child at position `i`.
pub open spec fn with_child(v: Value, i: int, c: Value) -> Value {
    match v {
        Value::Array(items) => Value::Array(items.update(i, c)),
        Value::Object(members) => Value::Object(members.update(i, (members[i].0, c))),
        _ => v,
    }
}

/// `v` with `new` in the place of the node that `loc` leads to.
pub open spec fn replaced_at(v: Value, loc: Seq<usize>, new: Value) -> Value
    decreases loc.len(),
{
    if loc.len() == 0 {
        new
    } else {
        with_child(v, loc[0] as int, replaced_at(child(v, loc[0] as int), loc.skip(1), new))
    }
}

/// `v` with `new` in the place of every node that one of `locs` leads to.
pub open spec fn replaced_all(v: Value, locs: Seq<Seq<usize>>, new: Value) -> Value
    decreases locs.len(),
{
    if locs.len() == 0 {
        v
    } else {
        replaced_at(replaced_all(v, locs.drop_last(), new), locs.last(), new)
    }
}

/// The nodes of `v` that `locs` lead to.
pub open spec fn nodes_at(v: Value, locs: Seq<Seq<usize>>) -> Seq<Value> {
    locs.map_values(|loc: Seq<usize>| node_at(v, loc))
}

/// The locations that a list of index lists stands for.
pub open spec fn locations_of(locs: Seq<Vec<usize>>) -> Seq<Seq<usize>> {
    locs.map_values(|loc: Vec<usize>| loc@)
}

/// The position of the first property at `i` or later that has this name.
pub open spec fn property_index(members: Seq<(Seq<char>, Value)>, name: Seq<char>, i: int) -> Option<
    int,
>
    decreases members.len() - i,
{
    if i < 0 || i >= members.len() {
        None
    } else if members[i].0 == name {
        Some(i)
    } else {
        property_index(members, name, i + 1)
    }
}

/// Where a name leads from the node at `loc`: to the value of the first
/// property with this name, where the node is an object that has one.
pub open spec fn named_child(root: Value, loc: Seq<usize>, name: Seq<char>) -> Option<Seq<usize>> {
    match node_at(root, loc) {
        Value::Object(members) => match property_index(members, name, 0) {
            Some(k) => Some(loc.push(k as usize)),
            None => None,
        },
        _ => None,
    }
}

/// Where a name leads from each of `locs`. A location from which it leads
/// nowhere is dropped.
pub open spec fn name_step(root: Value, locs: Seq<Seq<usize>>, name: Seq<char>) -> Seq<Seq<usize>>
    decreases locs.len(),
{
    if locs.len() == 0 {
        Seq::empty()
    } else {
        let done = name_step(root, locs.drop_last(), name);
        match named_child(root, locs.last(), name) {
            Some(loc) => done.push(loc),
            None => done,
        }
    }
}

/// The positions below `n` that `pick` holds of, in rising order.
pub open spec fn positions(n: int, pick: spec_fn(int) -> bool) -> Seq<usize>
    decreases n,
{
    if n <= 0 {
        Seq::empty()
    } else if pick(n - 1) {
        positions(n - 1, pick).push((n - 1) as usize)
    } else {
        positions(n - 1, pick)
    }
}

/// The positions from which a range takes elements of an array of `len`
/// elements, as a start and an end that is not included; `None` where the
/// signs of the range are not allowed.
///
/// A start alone may be negative and then counts from the end of the array.
/// Beside an end the start must not be negative, and an end must never be.
pub open spec fn range_bounds(start: Option<i32>, end: Option<i32>, len: int) -> Option<(int, int)> {
    match (start, end) {
        (None, None) => Some((0, len)),
        (None, Some(e)) => if e < 0 {
            None
        } else {
            Some((0, e as int))
        },
        (Some(s), None) => if s < 0 {
            Some((len + s, len))
        } else {
            Some((s as int, len))
        },
        (Some(s), Some(e)) => if s < 0 || e < 0 {
            None
        } else {
            Some((s as int, e as int))
        },
    }
}

/// Whether the signs of a selector's range are not allowed.
pub open spec fn has_range_error(selector: Selector) -> bool {
    selector matches Selector::Range(start, end) && range_bounds(start, end, 0) is None
}

/// Whether `p` is one of `indexes`.
pub open spec fn is_listed(indexes: Seq<usize>, p: int) -> bool {
    exists|k: int| 0 <= k < indexes.len() && #[trigger] indexes[k] == p
}

/// Whether a selector takes the element at position `p` of an array of
/// `len` elements.
pub open spec fn picks(selector: Selector, len: int, p: int) -> bool {
    match selector {
        Selector::All => true,
        Selector::Single(i) => p == i,
        Selector::Multiple(indexes) => is_listed(indexes, p),
        Selector::Range(start, end) => match range_bounds(start, end, len) {
            Some((from, to)) => from <= p < to,
            None => false,
        },
    }
}

/// The positions that a selector takes from an array of `len` elements, in
/// the order of the array.
pub open spec fn selected(selector: Selector, len: int) -> Seq<usize> {
    positions(len, |p: int| picks(selector, len, p))
}

/// `loc` followed by each of `below`.
pub open spec fn children_at(loc: Seq<usize>, below: Seq<usize>) -> Seq<Seq<usize>> {
    below.map_values(|p: usize| loc.push(p))
}

/// Where a selector leads from the node at `loc`: to the elements that it
/// takes. It is an error where the node is no array, and where the node is
/// an array and the signs of the selector's range are not allowed.
pub open spec fn selected_children(
    root: Value,
    loc: Seq<usize>,
    selector: Selector,
    name: Seq<char>,
) -> Result<Seq<Seq<usize>>, Failure> {
    match node_at(root, loc) {
        Value::Array(items) => if has_range_error(selector) {
            Err(Failure::SelectorRange(name))
        } else {
            Ok(children_at(loc, selected(selector, items.len() as int)))
        },
        _ => Err(Failure::SelectorType(name)),
    }
}

/// Where a selector leads from each of `locs`, in their order. The first
/// location from which it is an error decides.
pub open spec fn selector_step(
    root: Value,
    locs: Seq<Seq<usize>>,
    selector: Selector,
    name: Seq<char>,
) -> Result<Seq<Seq<usize>>, Failure>
    decreases locs.len(),
{
    if locs.len() == 0 {
        Ok(Seq::empty())
    } else {
        match selector_step(root, locs.drop_last(), selector, name) {
            Err(e) => Err(e),
            Ok(done) => match selected_children(root, locs.last(), selector, name) {
                Err(e) => Err(e),
                Ok(more) => Ok(done + more),
            },
        }
    }
}

/// Whether a name stands for the node that the path starts from.
pub open spec fn is_start_name(name: Seq<char>) -> bool {
    name.len() == 1 && (name[0] == '$' || name[0] == '@')
}

/// Where one segment leads from each of `locs`: first its name, then its
/// selector where it has one.
pub open spec fn segment_step(root: Value, locs: Seq<Seq<usize>>, segment: Segment) -> Result<
    Seq<Seq<usize>>,
    Failure,
> {
    let named = if is_start_name(segment.name) {
        locs
    } else {
        name_step(root, locs, segment.name)
    };
    match segment.selector {
        None => Ok(named),
        Some(selector) => selector_step(root, named, selector, segment.name),
    }
}

/// The locations that a path selects in `root`, in the order in which it
/// finds them.
pub open spec fn locate(root: Value, path: Seq<Segment>) -> Result<Seq<Seq<usize>>, Failure>
    decreases path.len(),
{
    if path.len() == 0 {
        Ok(seq![Seq::<usize>::empty()])
    } else {
        match locate(root, path.drop_last()) {
            Err(e) => Err(e),
            Ok(locs) => segment_step(root, locs, path.last()),
        }
    }
}

/// How many levels a segment goes down: one for a name that is no start
/// name, and one for a selector.
pub open spec fn segment_depth(segment: Segment) -> nat {
    let named: nat = if is_start_name(segment.name) {
        0
    } else {
        1
    };
    let selecting: nat = if segment.selector is Some {
        1
    } else {
        0
    };
    named + selecting
}

/// How many levels a path goes down.
pub open spec fn path_depth(path: Seq<Segment>) -> nat
    decreases path.len(),
{
    if path.len() == 0 {
        0
    } else {
        path_depth(path.drop_last()) + segment_depth(path.last())
    }
}

/// Whether every one of `locs` leads to a node of `root`, `depth` levels
/// down.
pub open spec fn all_valid(root: Value, locs: Seq<Seq<usize>>, depth: nat) -> bool {
    forall|i: int|
        0 <= i < locs.len() ==> valid_location(root, #[trigger] locs[i]) && locs[i].len() == depth
}

/// What a node looks like from its parent's side: its children are the
/// values of the nodes that it holds.
pub proof fn lemma_children(node: JsonNode)
    ensures
        node is Array ==> node@ is Array && child_count(node@) == node->Array_0@.len(),
        node is Object ==> node@ is Object && child_count(node@) == node->Object_0@.len(),
        !(node is Array) && !(node is Object) ==> child_count(node@) == 0,
        forall|i: int|
            node is Array && 0 <= i < node->Array_0@.len() ==> child(node@, i) == (
            #[trigger] node->Array_0@[i])@,
        forall|i: int|
            node is Object && 0 <= i < node->Object_0@.len() ==> child(node@, i) == (
            #[trigger] node->Object_0@[i]).value@ && (node@->Object_0)[i].0
                == node->Object_0@[i].name@,
{
    match node {
        JsonNode::Array(items) => {
            lemma_values_of(items@);
            assert(node@ == Value::Array(values_of(items@)));
            assert forall|i: int| 0 <= i < items@.len() implies child(node@, i) == (
            #[trigger] items@[i])@ by {
                assert(values_of(items@)[i] == items@[i]@);
            }
        },
        JsonNode::Object(props) => {
            lemma_members_of(props@);
            assert(node@ == Value::Object(members_of(props@)));
            assert forall|i: int| 0 <= i < props@.len() implies child(node@, i) == (
            #[trigger] props@[i]).value@ && (node@->Object_0)[i].0 == props@[i].name@ by {
                assert(members_of(props@)[i] == (props@[i].name@, props@[i].value@));
            }
        },
        _ => {},
    }
}

/// One more step from a valid location into a child that is there gives a
/// valid location, and the node there is that child.
pub proof fn lemma_push_location(root: Value, loc: Seq<usize>, k: usize)
    requires
        valid_location(root, loc),
        k < child_count(node_at(root, loc)),
    ensures
        valid_location(root, loc.push(k)),
        node_at(root, loc.push(k)) == child(node_at(root, loc), k as int),
    decreases loc.len(),
{
    let longer = loc.push(k);
    if loc.len() == 0 {
        assert(longer.skip(1) =~= Seq::<usize>::empty());
        assert(valid_location(child(root, k as int), longer.skip(1)));
        assert(node_at(child(root, k as int), longer.skip(1)) == child(root, k as int));
        assert(longer[0] == k);
    } else {
        lemma_push_location(child(root, loc[0] as int), loc.skip(1), k);
        assert(longer.skip(1) =~= loc.skip(1).push(k));
        assert(longer[0] == loc[0]);
    }
}

/// Every position that is picked lies below the bound.
pub proof fn lemma_positions_bounds(n: int, pick: spec_fn(int) -> bool)
    ensures
        forall|i: int| 0 <= i < positions(n, pick).len() ==> (#[trigger] positions(n, pick)[i]) < n,
    decreases n,
{
    if n > 0 {
        lemma_positions_bounds(n - 1, pick);
        let top = (n - 1) as usize;
        assert(top < n) by {
            if n - 1 <= usize::MAX {
                assert(top == n - 1);
            } else {
                assert(top <= usize::MAX);
            }
        }
        assert forall|i: int| 0 <= i < positions(n, pick).len() implies (#[trigger] positions(
            n,
            pick,
        )[i]) < n by {
            if i < positions(n - 1, pick).len() {
                assert(positions(n, pick)[i] == positions(n - 1, pick)[i]);
            }
        }
    }
}

/// Two ways to pick that agree below the bound pick the same positions.
pub proof fn lemma_positions_same(n: int, f: spec_fn(int) -> bool, g: spec_fn(int) -> bool)
    requires
        forall|p: int| 0 <= p < n ==> #[trigger] f(p) == g(p),
    ensures
        positions(n, f) == positions(n, g),
    decreases n,
{
    if n > 0 {
        lemma_positions_same(n - 1, f, g);
    }
}

/// The positions below `len` that are listed in `indexes`, in rising order.
fn select_by_indexes(len: usize, indexes: &[usize]) -> (picked: Vec<usize>)
    ensures
        picked@ == positions(
            len as int,
            |p: int| picks(Selector::Multiple(indexes@), len as int, p),
        ),
{
    let ghost pick = |p: int| picks(Selector::Multiple(indexes@), len as int, p);
    let mut results: Vec<usize> = Vec::new();
    let mut i: usize = 0;
    while i < len
        invariant
            i <= len,
            pick == |p: int| picks(Selector::Multiple(indexes@), len as int, p),
            results@ == positions(i as int, pick),
        decreases len - i,
    {
        let mut listed = false;
        let mut k: usize = 0;
        while k < indexes.len() && !listed
            invariant
                k <= indexes@.len(),
                listed ==> exists|j: int| 0 <= j < indexes@.len() && #[trigger] indexes@[j] == i,
                !listed ==> forall|j: int| 0 <= j < k ==> #[trigger] indexes@[j] != i,
            decreases indexes@.len() - k,
        {
            if indexes[k] == i {
                listed = true;
            }
            k += 1;
        }
        assert(listed == is_listed(indexes@, i as int));
        assert(listed == pick(i as int));
        if listed {
            results.push(i);
        }
        i += 1;
    }
    results
}

/// The positions below `len` from `start` to before `end`, in rising order.
fn select_by_index_range(len: usize, start: usize, end: usize) -> (picked: Vec<usize>)
    ensures
        picked@ == positions(len as int, |p: int| start <= p < end),
{
    let ghost pick = |p: int| start <= p < end;
    let mut results: Vec<usize> = Vec::new();
    let mut i: usize = 0;
    while i < len
        invariant
            i <= len,
            pick == |p: int| start <= p < end,
            results@ == positions(i as int, pick),
        decreases len - i,
    {
        assert(pick(i as int) == (start <= i < end));
        if start <= i && i < end {
            results.push(i);
        }
        i += 1;
    }
    results
}

/// The positions that a selector takes from an array of `len` elements, and
/// `None` where the signs of its range are not allowed.
fn select(selector: &ArrayElementSelector, len: usize) -> (picked: Option<Vec<usize>>)
    ensures
        match picked {
            Some(list) => !has_range_error(selector@) && list@ == selected(selector@, len as int),
            None => has_range_error(selector@),
        },
{
    let ghost sel = selector@;
    let ghost pick = |p: int| picks(sel, len as int, p);
    match selector {
        ArrayElementSelector::Single(i) => {
            let picked = if *i < len {
                select_by_index_range(len, *i, *i + 1)
            } else {
                select_by_index_range(len, 0, 0)
            };
            proof {
                if *i < len {
                    lemma_positions_same(len as int, pick, |p: int| *i <= p < *i + 1);
                } else {
                    lemma_positions_same(len as int, pick, |p: int| 0 <= p < 0);
                }
            }
            Some(picked)
        },
        ArrayElementSelector::Multiple(indexes) => {
            let picked = select_by_indexes(len, indexes.as_slice());
            proof {
                let listed = |p: int| picks(Selector::Multiple(indexes@), len as int, p);
                lemma_positions_same(len as int, pick, listed);
            }
            Some(picked)
        },
        ArrayElementSelector::Range(start, end) => {
            let (from, to): (usize, usize) = match (start, end) {
                (None, None) => (0, len),
                (None, Some(e)) => {
                    if *e < 0 {
                        return None;
                    }
                    (0, *e as usize)
                },
                (Some(s), None) => {
                    if *s < 0 {
                        let back: usize = (-(*s as i64)) as usize;
                        if back > len {
                            (0, len)
                        } else {
                            (len - back, len)
                        }
                    } else {
                        (*s as usize, len)
                    }
                },
                (Some(s), Some(e)) => {
                    if *s < 0 || *e < 0 {
                        return None;
                    }
                    (*s as usize, *e as usize)
                },
            };
            let picked = select_by_index_range(len, from, to);
            proof {
                lemma_positions_same(len as int, pick, |p: int| from <= p < to);
            }
            Some(picked)
        },
        ArrayElementSelector::All => {
            let picked = select_by_index_range(len, 0, len);
            proof {
                lemma_positions_same(len as int, pick, |p: int| 0 <= p < len);
            }
            Some(picked)
        },
    }
}

/// The position of the first property that has this name.
fn find_property(props: &Vec<JsonObjProp>, name: &String) -> (found: Option<usize>)
    ensures
        match found {
            Some(k) => k < props@.len() && property_index(members_of(props@), name@, 0) == Some(
                k as int,
            ),
            None => property_index(members_of(props@), name@, 0) is None,
        },
{
    let ghost members = members_of(props@);
    let mut k: usize = 0;
    while k < props.len()
        invariant
            k <= props@.len(),
            members == members_of(props@),
            property_index(members, name@, k as int) == property_index(members, name@, 0),
        decreases props@.len() - k,
    {
        proof {
            lemma_members_of(props@);
        }
        assert(members[k as int] == (props@[k as int].name@, props@[k as int].value@));
        if props[k].name == *name {
            return Some(k);
        }
        k += 1;
    }
    proof {
        lemma_members_of(props@);
    }
    None
}

impl JsonNode {
    /// The node that `loc` leads to, from its place `from` on.
    pub(crate) fn node_ref<'a>(&'a self, loc: &[usize], from: usize) -> (node: &'a JsonNode)
        requires
            from <= loc@.len(),
            valid_location(self@, loc@.skip(from as int)),
        ensures
            node@ == node_at(self@, loc@.skip(from as int)),
        decreases loc@.len() - from,
    {
        if from == loc.len() {
            return self;
        }
        let i: usize = loc[from];
        proof {
            lemma_children(*self);
            assert(loc@.skip(from as int)[0] == i);
            assert(loc@.skip(from as int).skip(1) =~= loc@.skip(from + 1));
        }
        match self {
            JsonNode::Array(items) => items[i].node_ref(loc, from + 1),
            JsonNode::Object(props) => props[i].value.node_ref(loc, from + 1),
            _ => self,
        }
    }

    /// Puts `new` in the place of the node that `loc` leads to, from its
    /// place `from` on.
    pub(crate) fn replace_at(&mut self, loc: &[usize], from: usize, new: JsonNode)
        requires
            from <= loc@.len(),
            valid_location(old(self)@, loc@.skip(from as int)),
        ensures
            final(self)@ == replaced_at(old(self)@, loc@.skip(from as int), new@),
        decreases loc@.len() - from,
    {
        if from == loc.len() {
            *self = new;
            return ;
        }
        let i: usize = loc[from];
        let ghost before = *self;
        let ghost rest = loc@.skip(from + 1);
        proof {
            lemma_children(before);
            assert(loc@.skip(from as int)[0] == i);
            assert(loc@.skip(from as int).skip(1) =~= rest);
        }
        match self {
            JsonNode::Array(items) => {
                let ghost old_items = items@;
                items[i].replace_at(loc, from + 1, new);
                proof {
                    lemma_values_of(items@);
                    lemma_values_of(old_items);
                    assert(items@.len() == old_items.len());
                    assert(values_of(items@) =~= values_of(old_items).update(
                        i as int,
                        replaced_at(old_items[i as int]@, rest, new@),
                    ));
                }
            },
            JsonNode::Object(props) => {
                let ghost old_props = props@;
                props[i].value.replace_at(loc, from + 1, new);
                proof {
                    lemma_members_of(props@);
                    lemma_members_of(old_props);
                    assert(props@.len() == old_props.len());
                    assert(members_of(props@) =~= members_of(old_props).update(
                        i as int,
                        (old_props[i as int].name@, replaced_at(old_props[i as int].value@, rest, new@)),
                    ));
                }
            },
            _ => {},
        }
    }
}

/// `loc` with one more step, to the child at position `k`.
fn extended(loc: &Vec<usize>, k: usize) -> (longer: Vec<usize>)
    ensures
        longer@ == loc@.push(k),
{
    let mut longer = loc.clone();
    assert(longer@ =~= loc@);
    longer.push(k);
    longer
}

/// Whether `name` is `$` or `@`.
fn names_start(name: &String) -> (b: bool)
    ensures
        b == is_start_name(name@),
{
    let chars = chars_of(name.as_str());
    chars.len() == 1 && (chars[0] == '$' || chars[0] == '@')
}

/// One more location after those of a list stands after theirs.
pub proof fn lemma_locations_push(locs: Seq<Vec<usize>>, loc: Vec<usize>)
    ensures
        locations_of(locs.push(loc)) == locations_of(locs).push(loc@),
{
    assert(locations_of(locs.push(loc)) =~= locations_of(locs).push(loc@));
}

impl JsonPath {
    /// Follows a name from each of `current`.
    fn step_by_name(
        json_node: &JsonNode,
        current: &Vec<Vec<usize>>,
        name: &String,
        Ghost(depth): Ghost<nat>,
    ) -> (next: Vec<Vec<usize>>)
        requires
            all_valid(json_node@, locations_of(current@), depth),
        ensures
            locations_of(next@) == name_step(json_node@, locations_of(current@), name@),
            all_valid(json_node@, locations_of(next@), depth + 1),
    {
        let ghost root = json_node@;
        let ghost locs = locations_of(current@);
        let mut next: Vec<Vec<usize>> = Vec::new();
        let mut i: usize = 0;
        proof {
            assert(locs.take(0) =~= Seq::<Seq<usize>>::empty());
            assert(locations_of(next@) =~= Seq::<Seq<usize>>::empty());
        }
        while i < current.len()
            invariant
                root == json_node@,
                locs == locations_of(current@),
                all_valid(root, locs, depth),
                i <= current@.len(),
                locations_of(next@) == name_step(root, locs.take(i as int), name@),
                all_valid(root, locations_of(next@), depth + 1),
            decreases current@.len() - i,
        {
            let loc = &current[i];
            proof {
                assert(locs[i as int] == loc@);
                assert(loc@.skip(0) =~= loc@);
                assert(locs.take(i + 1).drop_last() =~= locs.take(i as int));
                assert(locs.take(i + 1).last() == loc@);
            }
            let node = json_node.node_ref(loc.as_slice(), 0);
            // only an object has properties
            if let JsonNode::Object(props) = node {
                proof {
                    lemma_children(*node);
                }
                // a name that is not there selects nothing
                if let Some(prop_index) = find_property(props, name) {
                    let longer = extended(loc, prop_index);
                    proof {
                        lemma_push_location(root, loc@, prop_index);
                        lemma_locations_push(next@, longer);
                    }
                    next.push(longer);
                }
            }
            i += 1;
        }
        proof {
            assert(locs.take(i as int) =~= locs);
        }
        next
    }

    /// Follows a selector from each of `current`.
    fn step_by_selector(
        json_node: &JsonNode,
        current: &Vec<Vec<usize>>,
        selector: &ArrayElementSelector,
        name: &String,
        Ghost(depth): Ghost<nat>,
    ) -> (next: Result<Vec<Vec<usize>>, JsonError>)
        requires
            all_valid(json_node@, locations_of(current@), depth),
        ensures
            match next {
                Ok(list) => {
                    &&& selector_step(
                        json_node@,
                        locations_of(current@),
                        selector@,
                        name@,
                    ) matches Ok(l) && l == locations_of(list@)
                    &&& all_valid(json_node@, locations_of(list@), depth + 1)
                },
                Err(e) => selector_step(
                    json_node@,
                    locations_of(current@),
                    selector@,
                    name@,
                ) matches Err(failure) && failure == e@,
            },
    {
        let ghost root = json_node@;
        let ghost locs = locations_of(current@);
        let mut next: Vec<Vec<usize>> = Vec::new();
        let mut i: usize = 0;
        proof {
            assert(locs.take(0) =~= Seq::<Seq<usize>>::empty());
            assert(locations_of(next@) =~= Seq::<Seq<usize>>::empty());
        }
        while i < current.len()
            invariant
                root == json_node@,
                locs == locations_of(current@),
                all_valid(root, locs, depth),
                i <= current@.len(),
                selector_step(root, locs.take(i as int), selector@, name@) matches Ok(l) && l
                    == locations_of(next@),
                all_valid(root, locations_of(next@), depth + 1),
            decreases current@.len() - i,
        {
            let loc = &current[i];
            let ghost done = locations_of(next@);
            proof {
                assert(locs[i as int] == loc@);
                assert(loc@.skip(0) =~= loc@);
                assert(locs.take(i + 1).drop_last() =~= locs.take(i as int));
                assert(locs.take(i + 1).last() == loc@);
            }
            let node = json_node.node_ref(loc.as_slice(), 0);
            match node {
                JsonNode::Array(items) => {
                    proof {
                        lemma_children(*node);
                    }
                    let len = items.len();
                    let picked = match select(selector, len) {
                        None => {
                            proof {
                                assert(locs.take(current@.len() as int) =~= locs);
                                lemma_selector_step_fails(
                                    root,
                                    locs,
                                    selector@,
                                    name@,
                                    i + 1,
                                );
                            }
                            return Err(JsonError::SelectorRange(name.clone()));
                        },
                        Some(picked) => picked,
                    };
                    proof {
                        lemma_positions_bounds(len as int, |p: int| picks(selector@, len as int, p));
                    }
                    let mut k: usize = 0;
                    proof {
                        assert(children_at(loc@, picked@.take(0)) =~= Seq::<Seq<usize>>::empty());
                        assert(done + Seq::<Seq<usize>>::empty() =~= done);
                    }
                    while k < picked.len()
                        invariant
                            root == json_node@,
                            valid_location(root, loc@),
                            loc@.len() == depth,
                            child_count(node_at(root, loc@)) == len,
                            k <= picked@.len(),
                            forall|j: int| 0 <= j < picked@.len() ==> (#[trigger] picked@[j]) < len,
                            locations_of(next@) == done + children_at(loc@, picked@.take(k as int)),
                            all_valid(root, locations_of(next@), depth + 1),
                        decreases picked@.len() - k,
                    {
                        let longer = extended(loc, picked[k]);
                        proof {
                            lemma_push_location(root, loc@, picked@[k as int]);
                            lemma_locations_push(next@, longer);
                            assert(children_at(loc@, picked@.take(k + 1)) =~= children_at(
                                loc@,
                                picked@.take(k as int),
                            ).push(longer@));
                            assert((done + children_at(loc@, picked@.take(k as int))).push(longer@)
                                =~= done + children_at(loc@, picked@.take(k + 1)));
                        }
                        next.push(longer);
                        k += 1;
                    }
                    proof {
                        assert(picked@.take(k as int) =~= picked@);
                    }
                },
                _ => {
                    proof {
                        assert(locs.take(current@.len() as int) =~= locs);
                        lemma_selector_step_fails(root, locs, selector@, name@, i + 1);
                    }
                    return Err(JsonError::SelectorType(name.clone()));
                },
            }
            i += 1;
        }
        proof {
            assert(locs.take(i as int) =~= locs);
        }
        Ok(next)
    }

    /// Finds the locations of the nodes that the path selects in
    /// `json_node`, in the order in which the path finds them.
    ///
    /// Fails where a selector meets a node that is no array, and where the
    /// signs of a range that meets an array are not allowed.
    pub(crate) fn evaluate_json_path(&self, json_node: &JsonNode) -> (found: Result<
        Vec<Vec<usize>>,
        JsonError,
    >)
        ensures
            match found {
                Ok(list) => {
                    &&& locate(json_node@, self@) matches Ok(l) && l == locations_of(list@)
                    &&& all_valid(json_node@, locations_of(list@), path_depth(self@))
                },
                Err(e) => locate(json_node@, self@) matches Err(failure) && failure == e@,
            },
    {
        let ghost root = json_node@;
        let ghost path = self@;
        let mut current: Vec<Vec<usize>> = Vec::new();
        current.push(Vec::new());
        let mut i: usize = 0;
        proof {
            assert(path.take(0) =~= Seq::<Segment>::empty());
            assert(locations_of(current@) =~= seq![Seq::<usize>::empty()]);
        }
        while i < self.parts.len()
            invariant
                root == json_node@,
                path == self@,
                i <= self.parts@.len(),
                locate(root, path.take(i as int)) matches Ok(l) && l == locations_of(current@),
                all_valid(root, locations_of(current@), path_depth(path.take(i as int))),
            decreases self.parts@.len() - i,
        {
            let path_part = &self.parts[i];
            let ghost before = path.take(i as int);
            let ghost depth = path_depth(before);
            proof {
                assert(path.take(i + 1).drop_last() =~= before);
                assert(path.take(i + 1).last() == path_part@);
            }
            let ghost mut named_depth = depth;
            if !names_start(&path_part.path_name) {
                current = JsonPath::step_by_name(
                    json_node,
                    &current,
                    &path_part.path_name,
                    Ghost(depth),
                );
                proof {
                    named_depth = depth + 1;
                }
            }
            match &path_part.elem_selector {
                None => {},
                Some(es) => {
                    match JsonPath::step_by_selector(
                        json_node,
                        &current,
                        es,
                        &path_part.path_name,
                        Ghost(named_depth),
                    ) {
                        Err(e) => {
                            proof {
                                assert(path.take(self.parts@.len() as int) =~= path);
                                lemma_locate_fails(root, path, i + 1);
                            }
                            return Err(e);
                        },
                        Ok(next) => {
                            current = next;
                        },
                    }
                },
            }
            i += 1;
        }
        proof {
            assert(path.take(i as int) =~= path);
        }
        Ok(current)
    }
}

/// A selector step that fails for the front part of a list of locations
/// fails in the same way for the whole list.
pub proof fn lemma_selector_step_fails(
    root: Value,
    locs: Seq<Seq<usize>>,
    selector: Selector,
    name: Seq<char>,
    n: int,
)
    requires
        0 <= n <= locs.len(),
        selector_step(root, locs.take(n), selector, name) is Err,
    ensures
        selector_step(root, locs, selector, name) == selector_step(root, locs.take(n), selector, name),
    decreases locs.len() - n,
{
    if n < locs.len() {
        assert(locs.take(n + 1).drop_last() =~= locs.take(n));
        lemma_selector_step_fails(root, locs, selector, name, n + 1);
    } else {
        assert(locs.take(n) =~= locs);
    }
}

/// A path whose front part fails to evaluate fails in the same way as a
/// whole.
pub proof fn lemma_locate_fails(root: Value, path: Seq<Segment>, n: int)
    requires
        0 <= n <= path.len(),
        locate(root, path.take(n)) is Err,
    ensures
        locate(root, path) == locate(root, path.take(n)),
    decreases path.len() - n,
{
    if n < path.len() {
        assert(path.take(n + 1).drop_last() =~= path.take(n));
        lemma_locate_fails(root, path, n + 1);
    } else {
        assert(path.take(n) =~= path);
    }
}

/// The values of the nodes that a path selects in `root`, in the order in
/// which it finds them.
pub open spec fn selected_values(root: Value, path: Seq<Segment>) -> Result<Seq<Value>, Failure> {
    match locate(root, path) {
        Ok(locs) => Ok(nodes_at(root, locs)),
        Err(e) => Err(e),
    }
}

/// The texts of values that are all numbers; an error where one is none.
pub open spec fn numbers_of(values: Seq<Value>) -> Result<Seq<Seq<char>>, Failure> {
    if forall|i: int| 0 <= i < values.len() ==> #[trigger] values[i] is Number {
        Ok(values.map_values(|v: Value| v->Number_0))
    } else {
        Err(Failure::TypeMismatch)
    }
}

/// The truth values of values that are all booleans; an error where one is
/// none.
pub open spec fn booleans_of(values: Seq<Value>) -> Result<Seq<bool>, Failure> {
    if forall|i: int| 0 <= i < values.len() ==> #[trigger] values[i] is Boolean {
        Ok(values.map_values(|v: Value| v->Boolean_0))
    } else {
        Err(Failure::TypeMismatch)
    }
}

/// The texts of values that are all strings; an error where one is none.
pub open spec fn strings_of(values: Seq<Value>) -> Result<Seq<Seq<char>>, Failure> {
    if forall|i: int| 0 <= i < values.len() ==> #[trigger] values[i] is String {
        Ok(values.map_values(|v: Value| v->String_0))
    } else {
        Err(Failure::TypeMismatch)
    }
}

/// The values that a list of references stands for.
pub open spec fn values_of_refs(nodes: Seq<&JsonNode>) -> Seq<Value> {
    nodes.map_values(|node: &JsonNode| node@)
}

/// The texts that a list of strings stands for.
pub open spec fn texts_of(strings: Seq<String>) -> Seq<Seq<char>> {
    strings.map_values(|text: String| text@)
}

/// The first of `items`, where there is one.
pub open spec fn first_of<T>(items: Seq<T>) -> Option<T> {
    if items.len() == 0 {
        None
    } else {
        Some(items[0])
    }
}

/// What reading through the path that `text` writes finds in `root`.
pub open spec fn read(root: Value, text: Seq<char>) -> Result<Seq<Value>, Failure> {
    match compile(text) {
        Ok(path) => selected_values(root, path),
        Err(e) => Err(e),
    }
}

/// `root` after writing `new` through the path that `text` writes.
pub open spec fn written(root: Value, text: Seq<char>, new: Value) -> Result<Value, Failure> {
    match compile(text) {
        Ok(path) => match locate(root, path) {
            Ok(locs) => Ok(replaced_all(root, locs, new)),
            Err(e) => Err(e),
        },
        Err(e) => Err(e),
    }
}

/// Replacing a node keeps every location of the same depth valid.
pub proof fn lemma_replace_keeps_valid(root: Value, loc: Seq<usize>, new: Value, other: Seq<usize>)
    requires
        valid_location(root, loc),
        valid_location(root, other),
        loc.len() == other.len(),
    ensures
        valid_location(replaced_at(root, loc, new), other),
    decreases loc.len(),
{
    if loc.len() > 0 {
        let below = replaced_at(child(root, loc[0] as int), loc.skip(1), new);
        if other[0] == loc[0] {
            lemma_replace_keeps_valid(child(root, loc[0] as int), loc.skip(1), new, other.skip(1));
        }
        assert(child(with_child(root, loc[0] as int, below), other[0] as int) == if other[0]
            == loc[0] {
            below
        } else {
            child(root, other[0] as int)
        });
    }
}

impl JsonPath {
    /// The nodes that the path selects in `json_node`, in the order in
    /// which it finds them.
    pub fn json_path_get_raw<'a>(&self, json_node: &'a mut JsonNode) -> (selected: Result<
        Vec<&'a JsonNode>,
        JsonError,
    >)
        ensures
            *final(json_node) == *old(json_node),
            match selected {
                Ok(nodes) => selected_values(old(json_node)@, self@) matches Ok(values) && values
                    == values_of_refs(nodes@),
                Err(e) => selected_values(old(json_node)@, self@) matches Err(failure) && failure
                    == e@,
            },
    {
        let root: &'a JsonNode = &*json_node;
        let locs = match self.evaluate_json_path(root) {
            Err(e) => {
                return Err(e);
            },
            Ok(locs) => locs,
        };
        let ghost found = locations_of(locs@);
        let mut result: Vec<&'a JsonNode> = Vec::new();
        let mut i: usize = 0;
        while i < locs.len()
            invariant
                found == locations_of(locs@),
                all_valid(root@, found, path_depth(self@)),
                i <= locs@.len(),
                result@.len() == i,
                forall|k: int| 0 <= k < i ==> (#[trigger] result@[k])@ == node_at(root@, found[k]),
            decreases locs@.len() - i,
        {
            proof {
                assert(found[i as int] == locs@[i as int]@);
                assert(locs@[i as int]@.skip(0) =~= locs@[i as int]@);
            }
            result.push(root.node_ref(locs[i].as_slice(), 0));
            i += 1;
        }
        proof {
            assert(nodes_at(root@, found) =~= values_of_refs(result@));
        }
        Ok(result)
    }

    /// The texts of the numbers that the path selects in `json_node`.
    ///
    /// Fails as the evaluation of the path does, and where a node that the
    /// path selects is no number.
    #[verifier::loop_isolation(false)]
    pub fn json_path_get_number(&self, json_node: &mut JsonNode) -> (numbers: Result<
        Vec<String>,
        JsonError,
    >)
        ensures
            *final(json_node) == *old(json_node),
            match numbers {
                Ok(texts) => selected_values(old(json_node)@, self@) matches Ok(values)
                    && numbers_of(values) matches Ok(l) && l == texts_of(texts@),
                Err(e) => match selected_values(old(json_node)@, self@) {
                    Ok(values) => numbers_of(values) is Err && e@ == Failure::TypeMismatch,
                    Err(failure) => failure == e@,
                },
            },
    {
        let selected = match self.json_path_get_raw(json_node) {
            Err(e) => {
                return Err(e);
            },
            Ok(selected) => selected,
        };
        let ghost values = values_of_refs(selected@);
        let mut numbers: Vec<String> = Vec::new();
        let mut i: usize = 0;
        while i < selected.len()
            invariant
                values == values_of_refs(selected@),
                i <= selected@.len(),
                numbers@.len() == i,
                forall|k: int| 0 <= k < i ==> #[trigger] values[k] is Number,
                forall|k: int| 0 <= k < i ==> (#[trigger] numbers@[k])@ == values[k]->Number_0,
            decreases selected@.len() - i,
        {
            proof {
                assert(values[i as int] == selected@[i as int]@);
            }
            match selected[i] {
                JsonNode::PlainNumber(num) => {
                    numbers.push(num.clone());
                },
                _ => {
                    return Err(JsonError::TypeMismatch);
                },
            }
            i += 1;
        }
        proof {
            assert(values.map_values(|v: Value| v->Number_0) =~= texts_of(numbers@));
        }
        Ok(numbers)
    }

    /// The truth values of the booleans that the path selects in
    /// `json_node`.
    ///
    /// Fails as the evaluation of the path does, and where a node that the
    /// path selects is no boolean.
    #[verifier::loop_isolation(false)]
    pub fn json_path_get_bool(&self, json_node: &mut JsonNode) -> (bvalues: Result<
        Vec<bool>,
        JsonError,
    >)
        ensures
            *final(json_node) == *old(json_node),
            match bvalues {
                Ok(list) => selected_values(old(json_node)@, self@) matches Ok(values)
                    && booleans_of(values) matches Ok(l) && l == list@,
                Err(e) => match selected_values(old(json_node)@, self@) {
                    Ok(values) => booleans_of(values) is Err && e@ == Failure::TypeMismatch,
                    Err(failure) => failure == e@,
                },
            },
    {
        let selected = match self.json_path_get_raw(json_node) {
            Err(e) => {
                return Err(e);
            },
            Ok(selected) => selected,
        };
        let ghost values = values_of_refs(selected@);
        let mut bvalues: Vec<bool> = Vec::new();
        let mut i: usize = 0;
        while i < selected.len()
            invariant
                values == values_of_refs(selected@),
                i <= selected@.len(),
                bvalues@.len() == i,
                forall|k: int| 0 <= k < i ==> #[trigger] values[k] is Boolean,
                forall|k: int| 0 <= k < i ==> #[trigger] bvalues@[k] == values[k]->Boolean_0,
            decreases selected@.len() - i,
        {
            proof {
                assert(values[i as int] == selected@[i as int]@);
            }
            match selected[i] {
                JsonNode::PlainBoolean(b) => {
                    bvalues.push(*b);
                },
                _ => {
                    return Err(JsonError::TypeMismatch);
                },
            }
            i += 1;
        }
        proof {
            assert(values.map_values(|v: Value| v->Boolean_0) =~= bvalues@);
        }
        Ok(bvalues)
    }

    /// The texts of the strings that the path selects in `json_node`.
    ///
    /// Fails as the evaluation of the path does, and where a node that the
    /// path selects is no string.
    #[verifier::loop_isolation(false)]
    pub fn json_path_get_str(&self, json_node: &mut JsonNode) -> (strs: Result<
        Vec<String>,
        JsonError,
    >)
        ensures
            *final(json_node) == *old(json_node),
            match strs {
                Ok(texts) => selected_values(old(json_node)@, self@) matches Ok(values)
                    && strings_of(values) matches Ok(l) && l == texts_of(texts@),
                Err(e) => match selected_values(old(json_node)@, self@) {
                    Ok(values) => strings_of(values) is Err && e@ == Failure::TypeMismatch,
                    Err(failure) => failure == e@,
                },
            },
    {
        let selected = match self.json_path_get_raw(json_node) {
            Err(e) => {
                return Err(e);
            },
            Ok(selected) => selected,
        };
        let ghost values = values_of_refs(selected@);
        let mut strs: Vec<String> = Vec::new();
        let mut i: usize = 0;
        while i < selected.len()
            invariant
                values == values_of_refs(selected@),
                i <= selected@.len(),
                strs@.len() == i,
                forall|k: int| 0 <= k < i ==> #[trigger] values[k] is String,
                forall|k: int| 0 <= k < i ==> (#[trigger] strs@[k])@ == values[k]->String_0,
            decreases selected@.len() - i,
        {
            proof {
                assert(values[i as int] == selected@[i as int]@);
            }
            match selected[i] {
                JsonNode::PlainString(s) => {
                    strs.push(s.clone());
                },
                _ => {
                    return Err(JsonError::TypeMismatch);
                },
            }
            i += 1;
        }
        proof {
            assert(values.map_values(|v: Value| v->String_0) =~= texts_of(strs@));
        }
        Ok(strs)
    }

    /// Puts null in the place of every node that the path selects.
    pub fn json_path_set_null(&self, json_node: &mut JsonNode) -> (done: Result<(), JsonError>)
        ensures
            match done {
                Ok(_) => locate(old(json_node)@, self@) matches Ok(locs) && final(json_node)@
                    == replaced_all(old(json_node)@, locs, Value::Null),
                Err(e) => locate(old(json_node)@, self@) matches Err(failure) && failure == e@
                    && *final(json_node) == *old(json_node),
            },
    {
        self.json_path_set_raw(json_node, &JsonNode::PlainNull)
    }

    /// Puts the number that `value` writes in the place of every node that
    /// the path selects.
    pub fn json_path_set_number(&self, json_node: &mut JsonNode, value: &str) -> (done: Result<
        (),
        JsonError,
    >)
        ensures
            match done {
                Ok(_) => locate(old(json_node)@, self@) matches Ok(locs) && final(json_node)@
                    == replaced_all(old(json_node)@, locs, Value::Number(value@)),
                Err(e) => locate(old(json_node)@, self@) matches Err(failure) && failure == e@
                    && *final(json_node) == *old(json_node),
            },
    {
        self.json_path_set_raw(json_node, &JsonNode::PlainNumber(value.to_owned()))
    }

    /// Puts a boolean in the place of every node that the path selects.
    pub fn json_path_set_bool(&self, json_node: &mut JsonNode, value: bool) -> (done: Result<
        (),
        JsonError,
    >)
        ensures
            match done {
                Ok(_) => locate(old(json_node)@, self@) matches Ok(locs) && final(json_node)@
                    == replaced_all(old(json_node)@, locs, Value::Boolean(value)),
                Err(e) => locate(old(json_node)@, self@) matches Err(failure) && failure == e@
                    && *final(json_node) == *old(json_node),
            },
    {
        self.json_path_set_raw(json_node, &JsonNode::PlainBoolean(value))
    }

    /// Puts a string in the place of every node that the path selects.
    pub fn json_path_set_str(&self, json_node: &mut JsonNode, value: &str) -> (done: Result<
        (),
        JsonError,
    >)
        ensures
            match done {
                Ok(_) => locate(old(json_node)@, self@) matches Ok(locs) && final(json_node)@
                    == replaced_all(old(json_node)@, locs, Value::String(value@)),
                Err(e) => locate(old(json_node)@, self@) matches Err(failure) && failure == e@
                    && *final(json_node) == *old(json_node),
            },
    {
        self.json_path_set_raw(json_node, &JsonNode::PlainString(value.to_owned()))
    }

    /// Puts a copy of `value` in the place of every node that the path
    /// selects. Nothing is written where the evaluation of the path fails.
    pub fn json_path_set_raw(&self, json_node: &mut JsonNode, value: &JsonNode) -> (done: Result<
        (),
        JsonError,
    >)
        ensures
            match done {
                Ok(_) => locate(old(json_node)@, self@) matches Ok(locs) && final(json_node)@
                    == replaced_all(old(json_node)@, locs, value@),
                Err(e) => locate(old(json_node)@, self@) matches Err(failure) && failure == e@
                    && *final(json_node) == *old(json_node),
            },
    {
        let selected = match self.evaluate_json_path(json_node) {
            Err(e) => {
                return Err(e);
            },
            Ok(selected) => selected,
        };
        let ghost root = json_node@;
        let ghost locs = locations_of(selected@);
        let ghost depth = path_depth(self@);
        let mut i: usize = 0;
        proof {
            assert(locs.take(0) =~= Seq::<Seq<usize>>::empty());
        }
        while i < selected.len()
            invariant
                locs == locations_of(selected@),
                all_valid(json_node@, locs, depth),
                i <= selected@.len(),
                json_node@ == replaced_all(root, locs.take(i as int), value@),
            decreases selected@.len() - i,
        {
            let ghost before = json_node@;
            proof {
                assert(locs[i as int] == selected@[i as int]@);
                assert(selected@[i as int]@.skip(0) =~= selected@[i as int]@);
                assert(locs.take(i + 1).drop_last() =~= locs.take(i as int));
                assert forall|k: int| 0 <= k < locs.len() implies valid_location(
                    replaced_at(before, locs[i as int], value@),
                    #[trigger] locs[k],
                ) by {
                    lemma_replace_keeps_valid(before, locs[i as int], value@, locs[k]);
                }
            }
            json_node.replace_at(selected[i].as_slice(), 0, value.clone());
            i += 1;
        }
        proof {
            assert(locs.take(i as int) =~= locs);
        }
        Ok(())
    }
}

impl JsonNode {
    /// The text of the first number that the path written in `json_path`
    /// selects, and `None` where the path selects nothing.
    ///
    /// Fails where the path does not compile or does not evaluate, and where
    /// a node that it selects is no number.
    pub fn get_number(&mut self, json_path: &str) -> (number: Result<Option<String>, JsonError>)
        ensures
            *final(self) == *old(self),
            match number {
                Ok(found) => read(old(self)@, json_path@) matches Ok(values) && numbers_of(
                    values,
                ) matches Ok(l) && match found {
                    Some(text) => first_of(l) == Some(text@),
                    None => first_of(l) is None,
                },
                Err(e) => match read(old(self)@, json_path@) {
                    Ok(values) => numbers_of(values) is Err && e@ == Failure::TypeMismatch,
                    Err(failure) => failure == e@,
                },
            },
    {
        let json_path = match JsonPath::parse(json_path) {
            Err(e) => {
                return Err(e);
            },
            Ok(json_path) => json_path,
        };
        let mut selected = match json_path.json_path_get_number(self) {
            Err(e) => {
                return Err(e);
            },
            Ok(selected) => selected,
        };
        if selected.len() == 0 {
            return Ok(None);
        }
        let ghost texts = texts_of(selected@);
        let first = selected.remove(0);
        assert(texts[0] == first@);
        Ok(Some(first))
    }

    /// The first boolean that the path written in `json_path` selects, and
    /// `None` where the path selects nothing.
    ///
    /// Fails where the path does not compile or does not evaluate, and where
    /// a node that it selects is no boolean.
    pub fn get_bool(&mut self, json_path: &str) -> (value: Result<Option<bool>, JsonError>)
        ensures
            *final(self) == *old(self),
            match value {
                Ok(found) => read(old(self)@, json_path@) matches Ok(values) && booleans_of(
                    values,
                ) matches Ok(l) && found == first_of(l),
                Err(e) => match read(old(self)@, json_path@) {
                    Ok(values) => booleans_of(values) is Err && e@ == Failure::TypeMismatch,
                    Err(failure) => failure == e@,
                },
            },
    {
        let json_path = match JsonPath::parse(json_path) {
            Err(e) => {
                return Err(e);
            },
            Ok(json_path) => json_path,
        };
        let mut selected = match json_path.json_path_get_bool(self) {
            Err(e) => {
                return Err(e);
            },
            Ok(selected) => selected,
        };
        if selected.len() == 0 {
            return Ok(None);
        }
        let first = selected.remove(0);
        Ok(Some(first))
    }

    /// The text of the first string that the path written in `json_path`
    /// selects, and `None` where the path selects nothing.
    ///
    /// Fails where the path does not compile or does not evaluate, and where
    /// a node that it selects is no string.
    pub fn get_str(&mut self, json_path: &str) -> (text: Result<Option<String>, JsonError>)
        ensures
            *final(self) == *old(self),
            match text {
                Ok(found) => read(old(self)@, json_path@) matches Ok(values) && strings_of(
                    values,
                ) matches Ok(l) && match found {
                    Some(t) => first_of(l) == Some(t@),
                    None => first_of(l) is None,
                },
                Err(e) => match read(old(self)@, json_path@) {
                    Ok(values) => strings_of(values) is Err && e@ == Failure::TypeMismatch,
                    Err(failure) => failure == e@,
                },
            },
    {
        let json_path = match JsonPath::parse(json_path) {
            Err(e) => {
                return Err(e);
            },
            Ok(json_path) => json_path,
        };
        let mut selected = match json_path.json_path_get_str(self) {
            Err(e) => {
                return Err(e);
            },
            Ok(selected) => selected,
        };
        if selected.len() == 0 {
            return Ok(None);
        }
        let ghost texts = texts_of(selected@);
        let first = selected.remove(0);
        assert(texts[0] == first@);
        Ok(Some(first))
    }

    /// The first node that the path written in `json_path` selects, and
    /// `None` where the path selects nothing.
    ///
    /// Fails where the path does not compile or does not evaluate.
    pub fn get_raw(&mut self, json_path: &str) -> (node: Result<Option<&JsonNode>, JsonError>)
        ensures
            *final(self) == *old(self),
            match node {
                Ok(found) => read(old(self)@, json_path@) matches Ok(values) && match found {
                    Some(n) => first_of(values) == Some(n@),
                    None => first_of(values) is None,
                },
                Err(e) => read(old(self)@, json_path@) matches Err(failure) && failure == e@,
            },
    {
        let json_path = match JsonPath::parse(json_path) {
            Err(e) => {
                return Err(e);
            },
            Ok(json_path) => json_path,
        };
        let mut selected = match json_path.json_path_get_raw(self) {
            Err(e) => {
                return Err(e);
            },
            Ok(selected) => selected,
        };
        if selected.len() == 0 {
            return Ok(None);
        }
        let ghost values = values_of_refs(selected@);
        let first = selected.remove(0);
        assert(values[0] == first@);
        Ok(Some(first))
    }

    /// Puts null in the place of every node that the path written in
    /// `json_path` selects.
    pub fn set_null(&mut self, json_path: &str) -> (done: Result<(), JsonError>)
        ensures
            match done {
                Ok(_) => written(old(self)@, json_path@, Value::Null) matches Ok(tree)
                    && final(self)@ == tree,
                Err(e) => written(old(self)@, json_path@, Value::Null) matches Err(failure)
                    && failure == e@ && *final(self) == *old(self),
            },
    {
        let json_path = match JsonPath::parse(json_path) {
            Err(e) => {
                return Err(e);
            },
            Ok(json_path) => json_path,
        };
        json_path.json_path_set_null(self)
    }

    /// Puts the number that `value` writes in the place of every node that
    /// the path written in `json_path` selects.
    pub fn set_number(&mut self, json_path: &str, value: &str) -> (done: Result<(), JsonError>)
        ensures
            match done {
                Ok(_) => written(old(self)@, json_path@, Value::Number(value@)) matches Ok(tree)
                    && final(self)@ == tree,
                Err(e) => written(old(self)@, json_path@, Value::Number(value@)) matches Err(
                    failure,
                ) && failure == e@ && *final(self) == *old(self),
            },
    {
        let json_path = match JsonPath::parse(json_path) {
            Err(e) => {
                return Err(e);
            },
            Ok(json_path) => json_path,
        };
        json_path.json_path_set_number(self, value)
    }

    /// Puts a boolean in the place of every node that the path written in
    /// `json_path` selects.
    pub fn set_bool(&mut self, json_path: &str, value: bool) -> (done: Result<(), JsonError>)
        ensures
            match done {
                Ok(_) => written(old(self)@, json_path@, Value::Boolean(value)) matches Ok(tree)
                    && final(self)@ == tree,
                Err(e) => written(old(self)@, json_path@, Value::Boolean(value)) matches Err(
                    failure,
                ) && failure == e@ && *final(self) == *old(self),
            },
    {
        let json_path = match JsonPath::parse(json_path) {
            Err(e) => {
                return Err(e);
            },
            Ok(json_path) => json_path,
        };
        json_path.json_path_set_bool(self, value)
    }

    /// Puts a string in the place of every node that the path written in
    /// `json_path` selects.
    pub fn set_str(&mut self, json_path: &str, value: &str) -> (done: Result<(), JsonError>)
        ensures
            match done {
                Ok(_) => written(old(self)@, json_path@, Value::String(value@)) matches Ok(tree)
                    && final(self)@ == tree,
                Err(e) => written(old(self)@, json_path@, Value::String(value@)) matches Err(
                    failure,
                ) && failure == e@ && *final(self) == *old(self),
            },
    {
        let json_path = match JsonPath::parse(json_path) {
            Err(e) => {
                return Err(e);
            },
            Ok(json_path) => json_path,
        };
        json_path.json_path_set_str(self, value)
    }

    /// Puts a copy of `value` in the place of every node that the path
    /// written in `json_path` selects.
    pub fn set_raw(&mut self, json_path: &str, value: &JsonNode) -> (done: Result<(), JsonError>)
        ensures
            match done {
                Ok(_) => written(old(self)@, json_path@, value@) matches Ok(tree) && final(self)@
                    == tree,
                Err(e) => written(old(self)@, json_path@, value@) matches Err(failure) && failure
                    == e@ && *final(self) == *old(self),
            },
    {
        let json_path = match JsonPath::parse(json_path) {
            Err(e) => {
                return Err(e);
            },
            Ok(json_path) => json_path,
        };
        json_path.json_path_set_raw(self, value)
    }
}

} // verus!
