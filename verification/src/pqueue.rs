use vstd::prelude::*;

use std::rc::Rc;

use vstd::multiset::Multiset;

use crate::item::Item;
use crate::item::shared_view;

verus! {

/// The extraction direction of a queue, fixed at construction: an ascending
/// queue hands out its smallest key first, a descending queue its largest.
#[derive(Clone, Copy, Debug)]
pub enum Priority {
    Asc,
    Desc,
}

/// True when key `a` is strictly higher priority than key `b` under the
/// direction `p`, that is, `a` belongs nearer the root than `b`.
pub open spec fn outranks(p: Priority, a: i64, b: i64) -> bool {
    match p {
        Priority::Asc => a < b,
        Priority::Desc => a > b,
    }
}

/// The parent position of node `i` in the implicit binary tree (0-based:
/// node `i`'s children sit at `2i + 1` and `2i + 2`).
pub open spec fn parent(i: int) -> int {
    (i - 1) / 2
}

/// The heap property at node `i`: the entry there does not outrank its parent.
pub open spec fn in_place<V>(p: Priority, s: Seq<(i64, Option<V>)>, i: int) -> bool {
    !outranks(p, s[i].0, s[parent(i)].0)
}

/// The heap property everywhere: no child strictly outranks its parent.
pub open spec fn is_heap<V>(p: Priority, s: Seq<(i64, Option<V>)>) -> bool {
    forall|i: int| 1 <= i < s.len() ==> #[trigger] in_place(p, s, i)
}

/// The sequence after sifting the entry at `i` up: while it outranks its
/// parent, the two are exchanged and the walk moves one level toward the
/// root. This is the placement `insert` produces.
pub open spec fn sift_up_spec<V>(p: Priority, s: Seq<(i64, Option<V>)>, i: int) -> Seq<
    (i64, Option<V>),
>
    decreases i,
{
    if i <= 0 {
        s
    } else if outranks(p, s[i].0, s[parent(i)].0) {
        sift_up_spec(p, s.update(parent(i), s[i]).update(i, s[parent(i)]), parent(i))
    } else {
        s
    }
}

/// The sequence after sifting the entry at `i` down: while a child outranks
/// it, it is exchanged with the higher-priority child — a tie prefers the
/// left child — and the walk continues at that child's old slot. A node with
/// a single child gets at most one exchange and the walk stops there: that
/// child is the last entry of the array and has no children of its own. This
/// is the placement `heapify` produces.
pub open spec fn sift_down_spec<V>(p: Priority, s: Seq<(i64, Option<V>)>, i: int) -> Seq<
    (i64, Option<V>),
>
    decreases s.len() - i,
{
    let n = s.len() as int;
    let l = 2 * i + 1;
    let r = 2 * i + 2;
    if i < 0 || l >= n {
        s
    } else if r < n {
        if outranks(p, s[l].0, s[i].0) || outranks(p, s[r].0, s[i].0) {
            if !outranks(p, s[r].0, s[l].0) {
                sift_down_spec(p, s.update(i, s[l]).update(l, s[i]), l)
            } else {
                sift_down_spec(p, s.update(i, s[r]).update(r, s[i]), r)
            }
        } else {
            s
        }
    } else if outranks(p, s[l].0, s[i].0) {
        s.update(i, s[l]).update(l, s[i])
    } else {
        s
    }
}

/// The heap property everywhere except possibly at node `x`.
spec fn is_heap_except<V>(p: Priority, s: Seq<(i64, Option<V>)>, x: int) -> bool {
    forall|i: int| 1 <= i < s.len() && i != x ==> #[trigger] in_place(p, s, i)
}

/// The children of node `x` do not outrank node `x`'s own parent, so a swap
/// of node `x` with either neighbour along the root path keeps them in place.
spec fn children_below_grandparent<V>(p: Priority, s: Seq<(i64, Option<V>)>, x: int) -> bool {
    forall|i: int|
        1 <= i < s.len() && #[trigger] parent(i) == x ==> !outranks(p, s[i].0, s[parent(x)].0)
}

/// The heap property at every node except possibly at the children of `x`.
spec fn is_heap_except_children_of<V>(p: Priority, s: Seq<(i64, Option<V>)>, x: int) -> bool {
    forall|i: int| 1 <= i < s.len() && parent(i) != x ==> #[trigger] in_place(p, s, i)
}

/// Under the heap property, no stored key outranks the root's: walking the
/// parent chain from any node reaches the root without ever going up in rank.
pub proof fn lemma_root_extremal<V>(p: Priority, s: Seq<(i64, Option<V>)>, i: int)
    requires
        is_heap(p, s),
        0 <= i < s.len(),
    ensures
        !outranks(p, s[i].0, s[0].0),
    decreases i,
{
    if i > 0 {
        assert(in_place(p, s, i));
        lemma_root_extremal(p, s, parent(i));
    }
}

/// The character of one decimal digit.
pub open spec fn digit_char(d: int) -> char {
    if d == 0 {
        '0'
    } else if d == 1 {
        '1'
    } else if d == 2 {
        '2'
    } else if d == 3 {
        '3'
    } else if d == 4 {
        '4'
    } else if d == 5 {
        '5'
    } else if d == 6 {
        '6'
    } else if d == 7 {
        '7'
    } else if d == 8 {
        '8'
    } else {
        '9'
    }
}

/// The decimal digits of the nonnegative integer `n`, most significant
/// first, without leading zeroes.
pub open spec fn decimal_digits(n: int) -> Seq<char>
    decreases n,
{
    if n < 10 {
        seq![digit_char(n)]
    } else {
        decimal_digits(n / 10).push(digit_char(n % 10))
    }
}

/// The decimal rendering of `n`, as `Display` prints an integer: a leading
/// minus sign for a negative number, no leading zeroes.
pub open spec fn decimal(n: int) -> Seq<char> {
    if n < 0 {
        seq!['-'] + decimal_digits(-n)
    } else {
        decimal_digits(n)
    }
}

/// One line of the tree dump: the indentation, then the node's key and its
/// 1-based position.
pub open spec fn line_repr(indent: Seq<char>, key: int, pos: int) -> Seq<char> {
    indent + " - "@ + decimal(key) + ", pos: "@ + decimal(pos)
}

/// Four spaces of indentation for each tree level.
pub open spec fn indent_of(level: int) -> Seq<char>
    decreases level,
{
    if level <= 0 {
        Seq::empty()
    } else {
        indent_of(level - 1) + "    "@
    }
}

/// The tree dump of the subtree at 1-based position `node_i` of `s`: the
/// node's own line, then the dumps of its left and right subtrees in that
/// order, one level deeper, joined by line breaks.
pub open spec fn tree_lines<V>(s: Seq<(i64, Option<V>)>, node_i: int, level: int) -> Seq<char>
    decreases s.len() - node_i,
{
    if node_i < 1 {
        Seq::empty()
    } else {
        let header = line_repr(indent_of(level), s[node_i - 1].0 as int, node_i);
        let l = 2 * node_i;
        if l <= s.len() {
            if l + 1 <= s.len() {
                header + "\n"@ + tree_lines(s, l, level + 1) + "\n"@ + tree_lines(
                    s,
                    l + 1,
                    level + 1,
                )
            } else {
                header + "\n"@ + tree_lines(s, l, level + 1)
            }
        } else {
            header
        }
    }
}

/// Relies on the `format` macro: renders one line of the tree dump, holding
/// the given indentation, then the node's key and its 1-based position in
/// their decimal renderings.
#[verifier::external_body]
fn render_line(indent: &String, key: i64, pos: usize) -> (r: String)
    ensures
        r@ == line_repr(indent@, key as int, pos as int),
{
    format!("{} - {}, pos: {}", indent, key, pos)
}

/// Relies on `Rc::clone`: the returned handle shares the very same payload
/// the given handle points at.
#[verifier::external_body]
fn share<V>(rc: &Rc<V>) -> (r: Rc<V>)
    ensures
        r == *rc,
{
    Rc::clone(rc)
}

/// Relies on the standard slice `swap`: it exchanges the elements at the two
/// given positions and touches nothing else.
#[verifier::external_body]
fn exchange<T>(v: &mut Vec<T>, i: usize, j: usize)
    requires
        i < old(v)@.len(),
        j < old(v)@.len(),
    ensures
        final(v)@ == old(v)@.update(i as int, old(v)@[j as int]).update(j as int, old(v)@[i as int]),
{
    v.swap(i, j);
}

/// Exchanging two positions of a sequence leaves its multiset of elements
/// unchanged.
proof fn lemma_swap_preserves_multiset<A>(s: Seq<A>, i: int, j: int)
    requires
        0 <= i < s.len(),
        0 <= j < s.len(),
    ensures
        s.update(i, s[j]).update(j, s[i]).to_multiset() == s.to_multiset(),
{
    broadcast use vstd::seq_lib::group_to_multiset_ensures;
    broadcast use vstd::multiset::group_multiset_axioms;
    broadcast use vstd::multiset::group_multiset_properties;

    if i == j {
        assert(s.update(i, s[j]).update(j, s[i]) =~= s);
    } else {
        let s1 = s.update(i, s[j]);
        assert(s.contains(s[i]));
        assert(s1.contains(s1[j]));
        assert(s1.update(j, s[i]).to_multiset() =~= s.to_multiset());
    }
}

/// Moving the last element over position `i` and then dropping the last slot
/// removes exactly the element at `i` from the multiset of elements.
proof fn lemma_swap_remove_multiset<A>(s: Seq<A>, i: int)
    requires
        0 <= i < s.len(),
    ensures
        s.update(i, s.last()).drop_last().to_multiset() == s.to_multiset().remove(s[i]),
{
    broadcast use vstd::seq_lib::group_to_multiset_ensures;
    broadcast use vstd::multiset::group_multiset_axioms;
    broadcast use vstd::multiset::group_multiset_properties;

    let s2 = s.update(i, s.last());
    assert(s2.drop_last() =~= s2.remove(s.len() - 1));
    assert(s2[s.len() - 1] == s.last());
    assert(s.contains(s[i]));
    assert(s.contains(s.last()));
    assert(s2.remove(s.len() - 1).to_multiset() =~= s.to_multiset().remove(s[i]));
}

/// Two sequences holding the same multiset of elements still hold the same
/// multiset after an element-wise map.
proof fn lemma_map_values_multiset<A, B>(s: Seq<A>, t: Seq<A>, f: spec_fn(A) -> B)
    requires
        s.to_multiset() == t.to_multiset(),
    ensures
        s.map_values(f).to_multiset() == t.map_values(f).to_multiset(),
    decreases s.len(),
{
    broadcast use vstd::seq_lib::group_to_multiset_ensures;
    broadcast use vstd::multiset::group_multiset_axioms;
    broadcast use vstd::multiset::group_multiset_properties;

    if s.len() == 0 {
        assert(s.to_multiset().len() == 0);
        assert(t.to_multiset().len() == 0);
        assert(t.len() == 0);
        assert(s.map_values(f) =~= Seq::<B>::empty());
        assert(t.map_values(f) =~= Seq::<B>::empty());
    } else {
        let x = s.last();
        assert(s.contains(x));
        assert(t.to_multiset().count(x) > 0);
        assert(t.contains(x));
        let k = choose|k: int| 0 <= k < t.len() && t[k] == x;
        assert(s.drop_last() =~= s.remove(s.len() - 1));
        lemma_map_values_multiset(s.drop_last(), t.remove(k), f);
        assert(s.map_values(f) =~= s.drop_last().map_values(f).push(f(x)));
        assert(t.map_values(f).remove(k) =~= t.remove(k).map_values(f));
        assert(t.map_values(f)[k] == f(x));
        assert(t.map_values(f).contains(f(x)));
        assert(s.map_values(f).to_multiset() =~= t.map_values(f).to_multiset());
    }
}

/// An array binary heap of key/optional-payload entries, extracting in the
/// direction fixed at construction.
pub struct PQueue<V> {
    vec: Vec<Item<V>>,
    order: Priority,
}

/// A queue is abstracted as the sequence of its entries in array order,
/// root first.
impl<V> View for PQueue<V> {
    type V = Seq<(i64, Option<V>)>;

    closed spec fn view(&self) -> Seq<(i64, Option<V>)> {
        self.vec@.map_values(|it: Item<V>| it@)
    }
}

impl<V> PQueue<V> {
    /// The direction the queue was constructed with.
    pub closed spec fn prio(&self) -> Priority {
        self.order
    }

    /// Well-formedness: the heap property holds of the stored entries. Every
    /// public operation preserves it.
    pub open spec fn wf(&self) -> bool {
        is_heap(self.prio(), self@)
    }

    /// The keys of the stored entries, in array order.
    pub open spec fn keys(&self) -> Seq<i64> {
        self@.map_values(|e: (i64, Option<V>)| e.0)
    }

    /// Construct an empty queue extracting in the given direction.
    pub fn new(priority: Priority) -> (queue: PQueue<V>)
        ensures
            queue@ == Seq::<(i64, Option<V>)>::empty(),
            queue.prio() == priority,
            queue.wf(),
    {
        let queue = PQueue { vec: Vec::new(), order: priority };
        proof {
            assert(queue@ =~= Seq::<(i64, Option<V>)>::empty());
        }
        queue
    }

    /// The number of entries currently stored.
    pub fn len(&self) -> (n: usize)
        ensures
            n == self@.len(),
    {
        self.vec.len()
    }

    /// Whether `a` outranks `b` under this queue's direction: the one
    /// comparison every structural operation goes through.
    fn beats(&self, a: i64, b: i64) -> (r: bool)
        ensures
            r == outranks(self.prio(), a, b),
    {
        match self.order {
            Priority::Asc => a < b,
            Priority::Desc => a > b,
        }
    }

    /// Append an entry, then sift it up: while it outranks its parent, swap
    /// the two and move one level toward the root. The resulting layout is
    /// exactly `sift_up_spec` of the appended sequence.
    fn insert(&mut self, key: i64, value: Option<V>)
        requires
            old(self).wf(),
        ensures
            final(self).wf(),
            final(self).prio() == old(self).prio(),
            final(self)@.len() == old(self)@.len() + 1,
            final(self)@.to_multiset() == old(self)@.to_multiset().insert((key, value)),
            final(self)@ == sift_up_spec(
                old(self).prio(),
                old(self)@.push((key, value)),
                old(self)@.len() as int,
            ),
    {
        let rc_value: Option<Rc<V>> = match value {
            Some(v) => Some(Rc::new(v)),
            None => None,
        };
        self.vec.push(Item { key, value: rc_value });
        proof {
            broadcast use vstd::seq_lib::group_to_multiset_ensures;

            assert(self@ =~= old(self)@.push((key, value)));
            let s = self@;
            let p = self.prio();
            assert forall|j: int| 1 <= j < s.len() && j != s.len() - 1 implies #[trigger] in_place(
                p,
                s,
                j,
            ) by {
                assert(in_place(p, old(self)@, j));
            }
        }
        let mut node_i: usize = self.vec.len() - 1;
        loop
            invariant
                self.prio() == old(self).prio(),
                self@.len() == old(self)@.len() + 1,
                node_i < self@.len(),
                self@.to_multiset() == old(self)@.to_multiset().insert((key, value)),
                is_heap_except(self.prio(), self@, node_i as int),
                node_i > 0 ==> children_below_grandparent(self.prio(), self@, node_i as int),
                sift_up_spec(old(self).prio(), self@, node_i as int) == sift_up_spec(
                    old(self).prio(),
                    old(self)@.push((key, value)),
                    old(self)@.len() as int,
                ),
            ensures
                self.wf(),
                self.prio() == old(self).prio(),
                self@.len() == old(self)@.len() + 1,
                self@.to_multiset() == old(self)@.to_multiset().insert((key, value)),
                self@ == sift_up_spec(
                    old(self).prio(),
                    old(self)@.push((key, value)),
                    old(self)@.len() as int,
                ),
            decreases node_i,
        {
            if node_i == 0 {
                proof {
                    assert(sift_up_spec(old(self).prio(), self@, 0) == self@);
                }
                break ;
            }
            let parent_i: usize = (node_i - 1) / 2;
            let child_key = self.vec[node_i].key;
            let parent_key = self.vec[parent_i].key;
            if !self.beats(child_key, parent_key) {
                proof {
                    assert(in_place(self.prio(), self@, node_i as int));
                    assert(self@[node_i as int].0 == child_key);
                    assert(self@[parent(node_i as int)].0 == parent_key);
                    assert(sift_up_spec(old(self).prio(), self@, node_i as int) == self@);
                }
                break ;
            }
            let ghost pre = self@;
            let ghost p = self.prio();
            exchange(&mut self.vec, parent_i, node_i);
            proof {
                let ni = node_i as int;
                let pi = parent_i as int;
                assert(pre[ni].0 == child_key);
                assert(pre[pi].0 == parent_key);
                assert(outranks(p, pre[ni].0, pre[pi].0));
                assert(self@ =~= pre.update(pi, pre[ni]).update(ni, pre[pi]));
                assert(parent(ni) == pi);
                assert(sift_up_spec(p, pre, ni) == sift_up_spec(p, self@, pi));
                lemma_swap_preserves_multiset(pre, pi, ni);
                let s = self@;
                assert forall|j: int| 1 <= j < s.len() && j != pi implies #[trigger] in_place(
                    p,
                    s,
                    j,
                ) by {
                    if j == ni {
                        assert(!outranks(p, pre[pi].0, pre[ni].0));
                    } else if parent(j) == ni {
                        assert(parent(ni) == pi);
                        assert(!outranks(p, pre[j].0, pre[parent(ni)].0));
                    } else if parent(j) == pi {
                        assert(in_place(p, pre, j));
                    } else {
                        assert(in_place(p, pre, j));
                    }
                }
                if pi > 0 {
                    assert forall|j: int| 1 <= j < s.len() && #[trigger] parent(j) == pi implies
                        !outranks(p, s[j].0, s[parent(pi)].0) by {
                        assert(in_place(p, pre, pi));
                        if j != ni {
                            assert(in_place(p, pre, j));
                        }
                    }
                }
            }
            node_i = parent_i;
        }
    }

    /// Insert a bare key, with no payload attached.
    pub fn insert_k(&mut self, key: i64)
        requires
            old(self).wf(),
        ensures
            final(self).wf(),
            final(self).prio() == old(self).prio(),
            final(self)@.len() == old(self)@.len() + 1,
            final(self)@.to_multiset() == old(self)@.to_multiset().insert((key, None)),
            final(self)@ == sift_up_spec(
                old(self).prio(),
                old(self)@.push((key, None)),
                old(self)@.len() as int,
            ),
    {
        self.insert(key, None)
    }

    /// Insert a key together with its payload.
    pub fn insert_kv(&mut self, key: i64, value: V)
        requires
            old(self).wf(),
        ensures
            final(self).wf(),
            final(self).prio() == old(self).prio(),
            final(self)@.len() == old(self)@.len() + 1,
            final(self)@.to_multiset() == old(self)@.to_multiset().insert((key, Some(value))),
            final(self)@ == sift_up_spec(
                old(self).prio(),
                old(self)@.push((key, Some(value))),
                old(self)@.len() as int,
            ),
    {
        self.insert(key, Some(value))
    }

    /// Insert each key of the sequence in turn, none carrying a payload. The
    /// keys are applied in input order (which fixes the resulting layout, not
    /// the extraction order).
    pub fn bulk_insert_k(&mut self, keys: Vec<i64>)
        requires
            old(self).wf(),
        ensures
            final(self).wf(),
            final(self).prio() == old(self).prio(),
            final(self)@.len() == old(self)@.len() + keys@.len(),
            final(self)@.to_multiset() == old(self)@.to_multiset().add(
                keys@.map_values(|k: i64| (k, None::<V>)).to_multiset(),
            ),
    {
        broadcast use vstd::seq_lib::group_to_multiset_ensures;
        broadcast use vstd::multiset::group_multiset_axioms;

        let ghost pairs = keys@.map_values(|k: i64| (k, None::<V>));
        proof {
            assert(pairs.take(0) =~= Seq::<(i64, Option<V>)>::empty());
            assert(self@.to_multiset() =~= self@.to_multiset().add(pairs.take(0).to_multiset()));
        }
        let mut i: usize = 0;
        #[verifier::loop_isolation(false)]
        while i < keys.len()
            invariant
                i <= keys@.len(),
                self.wf(),
                self.prio() == old(self).prio(),
                self@.len() == old(self)@.len() + i,
                self@.to_multiset() == old(self)@.to_multiset().add(
                    pairs.take(i as int).to_multiset(),
                ),
            decreases keys@.len() - i,
        {
            self.insert(keys[i], None);
            proof {
                assert(pairs.take(i + 1) =~= pairs.take(i as int).push(pairs[i as int]));
                assert(pairs[i as int] == (keys@[i as int], None::<V>));
                assert(self@.to_multiset() =~= old(self)@.to_multiset().add(
                    pairs.take(i + 1).to_multiset(),
                ));
            }
            i = i + 1;
        }
        proof {
            assert(pairs.take(keys@.len() as int) =~= pairs);
        }
    }

    /// Insert each key/payload pair of the sequence in turn, in input order.
    pub fn bulk_insert_kv(&mut self, keys_values: Vec<(i64, V)>)
        requires
            old(self).wf(),
        ensures
            final(self).wf(),
            final(self).prio() == old(self).prio(),
            final(self)@.len() == old(self)@.len() + keys_values@.len(),
            final(self)@.to_multiset() == old(self)@.to_multiset().add(
                keys_values@.map_values(|p: (i64, V)| (p.0, Some(p.1))).to_multiset(),
            ),
    {
        broadcast use vstd::seq_lib::group_to_multiset_ensures;
        broadcast use vstd::multiset::group_multiset_axioms;

        let ghost all = keys_values@;
        let ghost pairs = keys_values@.map_values(|p: (i64, V)| (p.0, Some(p.1)));
        // Turn the input over once, so that popping off the reversed pile
        // hands the pairs out front first, in input order.
        let mut kvs = keys_values;
        let mut pile: Vec<(i64, V)> = Vec::new();
        proof {
            assert(kvs@ =~= all.take(kvs@.len() as int));
            assert(pile@ =~= all.skip(kvs@.len() as int).reverse());
        }
        #[verifier::loop_isolation(false)]
        while kvs.len() > 0
            invariant
                kvs@.len() <= all.len(),
                kvs@ == all.take(kvs@.len() as int),
                pile@ == all.skip(kvs@.len() as int).reverse(),
            decreases kvs@.len(),
        {
            let ghost m = kvs@.len() as int;
            if let Some(pair) = kvs.pop() {
                pile.push(pair);
                proof {
                    assert(kvs@ =~= all.take(m - 1));
                    assert(pair == all[m - 1]);
                    assert(all.skip(m - 1).reverse().len() == all.len() - m + 1);
                    assert(pile@ =~= all.skip(m - 1).reverse());
                }
            }
        }
        proof {
            assert(pile@ == all.reverse());
            assert(pairs.take(0) =~= Seq::<(i64, Option<V>)>::empty());
            assert(self@.to_multiset() =~= self@.to_multiset().add(pairs.take(0).to_multiset()));
        }
        let ghost mut done: int = 0;
        #[verifier::loop_isolation(false)]
        while pile.len() > 0
            invariant
                0 <= done <= all.len(),
                pile@ == all.skip(done).reverse(),
                self.wf(),
                self.prio() == old(self).prio(),
                self@.len() == old(self)@.len() + done,
                self@.to_multiset() == old(self)@.to_multiset().add(pairs.take(done).to_multiset()),
            decreases all.len() - done,
        {
            if let Some((key, value)) = pile.pop() {
                proof {
                    assert(all.skip(done).reverse().len() == all.len() - done);
                    assert(all.skip(done).reverse().last() == all[done]);
                    assert(all[done] == (key, value));
                    assert(pile@ =~= all.skip(done + 1).reverse());
                }
                self.insert(key, Some(value));
                proof {
                    assert(pairs.take(done + 1) =~= pairs.take(done).push(pairs[done]));
                    assert(pairs[done] == (key, Some(value)));
                    assert(self@.to_multiset() =~= old(self)@.to_multiset().add(
                        pairs.take(done + 1).to_multiset(),
                    ));
                }
                proof {
                    done = done + 1;
                }
            }
        }
        proof {
            assert(all.skip(done).reverse().len() == all.len() - done);
            assert(done == all.len());
            assert(pairs.take(done) =~= pairs);
        }
    }

    /// Sift the entry at `start` down, iterating over the index path toward
    /// the leaves: while a child outranks the entry, swap the entry with the
    /// higher-priority child (a tie prefers the left child) and continue at
    /// that child's old position. A node with a single child gets one fix-up
    /// and the walk stops: that child is the last entry and has no children
    /// of its own.
    fn heapify(&mut self, start: usize)
        requires
            old(self)@.len() > 0,
            start < old(self)@.len(),
            is_heap_except_children_of(old(self).prio(), old(self)@, start as int),
            start > 0 ==> children_below_grandparent(old(self).prio(), old(self)@, start as int),
        ensures
            final(self).wf(),
            final(self).prio() == old(self).prio(),
            final(self)@.len() == old(self)@.len(),
            final(self)@.to_multiset() == old(self)@.to_multiset(),
            final(self)@ == sift_down_spec(old(self).prio(), old(self)@, start as int),
    {
        let mut node_i: usize = start;
        loop
            invariant
                self.prio() == old(self).prio(),
                self@.len() == old(self)@.len(),
                node_i < self@.len(),
                self@.to_multiset() == old(self)@.to_multiset(),
                is_heap_except_children_of(self.prio(), self@, node_i as int),
                node_i > 0 ==> children_below_grandparent(self.prio(), self@, node_i as int),
                sift_down_spec(old(self).prio(), self@, node_i as int) == sift_down_spec(
                    old(self).prio(),
                    old(self)@,
                    start as int,
                ),
            ensures
                self.wf(),
                self.prio() == old(self).prio(),
                self@.len() == old(self)@.len(),
                self@.to_multiset() == old(self)@.to_multiset(),
                self@ == sift_down_spec(old(self).prio(), old(self)@, start as int),
            decreases self@.len() - node_i,
        {
            let ghost p = self.prio();
            let n = self.vec.len();
            if node_i >= n / 2 {
                // No children: every pair already satisfies the heap property.
                proof {
                    assert forall|j: int| 1 <= j < self@.len() implies #[trigger] in_place(
                        p,
                        self@,
                        j,
                    ) by {
                        assert(parent(j) != node_i as int);
                    }
                    assert(2 * node_i + 1 >= n);
                    assert(sift_down_spec(p, self@, node_i as int) == self@);
                }
                break ;
            }
            let left: usize = 2 * node_i + 1;
            let right: usize = left + 1;
            let node_key = self.vec[node_i].key;
            let left_key = self.vec[left].key;
            let ghost pre = self@;
            let ghost ni = node_i as int;
            let ghost li = left as int;
            proof {
                assert(pre[ni].0 == node_key);
                assert(pre[li].0 == left_key);
            }
            if right < n {
                let right_key = self.vec[right].key;
                let ghost ri = right as int;
                proof {
                    assert(pre[ri].0 == right_key);
                }
                if self.beats(left_key, node_key) || self.beats(right_key, node_key) {
                    let winner: usize = if !self.beats(right_key, left_key) {
                        left
                    } else {
                        right
                    };
                    let ghost wi = winner as int;
                    let ghost oi = if wi == li {
                        ri
                    } else {
                        li
                    };
                    exchange(&mut self.vec, node_i, winner);
                    proof {
                        assert(outranks(p, pre[wi].0, pre[ni].0));
                        assert(!outranks(p, pre[oi].0, pre[wi].0));
                        assert(self@ =~= pre.update(ni, pre[wi]).update(wi, pre[ni]));
                        assert(sift_down_spec(p, pre, ni) == sift_down_spec(p, self@, wi));
                        lemma_swap_preserves_multiset(pre, ni, wi);
                        let s = self@;
                        assert forall|j: int| 1 <= j < s.len() && parent(j) != wi implies
                            #[trigger] in_place(p, s, j) by {
                            assert(parent(wi) == ni);
                            assert(parent(oi) == ni);
                            if j == wi {
                                assert(s[wi] == pre[ni] && s[parent(wi)] == pre[wi]);
                            } else if j == oi {
                                assert(s[oi] == pre[oi] && s[parent(oi)] == pre[wi]);
                            } else if j == ni {
                                assert(!outranks(p, pre[wi].0, pre[parent(ni)].0));
                                assert(s[ni] == pre[wi] && s[parent(ni)] == pre[parent(ni)]);
                            } else {
                                assert(in_place(p, pre, j));
                            }
                        }
                        assert forall|j: int| 1 <= j < s.len() && #[trigger] parent(j) == wi
                            implies !outranks(p, s[j].0, s[parent(wi)].0) by {
                            assert(in_place(p, pre, j));
                        }
                    }
                    node_i = winner;
                } else {
                    // Neither child outranks the entry: the heap is restored.
                    proof {
                        assert forall|j: int| 1 <= j < self@.len() implies #[trigger] in_place(
                            p,
                            self@,
                            j,
                        ) by {
                            if parent(j) == ni {
                                assert(j == li || j == ri);
                            }
                        }
                        assert(sift_down_spec(p, self@, ni) == self@);
                    }
                    break ;
                }
            } else {
                // Only a left child, and it is the last entry of the array:
                // a single fix-up restores the heap everywhere below.
                if self.beats(left_key, node_key) {
                    exchange(&mut self.vec, node_i, left);
                    proof {
                        assert(outranks(p, pre[li].0, pre[ni].0));
                        assert(self@ =~= pre.update(ni, pre[li]).update(li, pre[ni]));
                        assert(2 * ni + 2 >= n as int);
                        assert(sift_down_spec(p, pre, ni) == self@);
                        lemma_swap_preserves_multiset(pre, ni, li);
                        let s = self@;
                        assert forall|j: int| 1 <= j < s.len() implies #[trigger] in_place(
                            p,
                            s,
                            j,
                        ) by {
                            assert(parent(li) == ni);
                            if j == li {
                                assert(s[li] == pre[ni] && s[parent(li)] == pre[li]);
                            } else if j == ni {
                                assert(!outranks(p, pre[li].0, pre[parent(ni)].0));
                                assert(s[ni] == pre[li] && s[parent(ni)] == pre[parent(ni)]);
                            } else {
                                assert(in_place(p, pre, j));
                                assert(parent(j) != ni);
                            }
                        }
                    }
                } else {
                    proof {
                        assert forall|j: int| 1 <= j < self@.len() implies #[trigger] in_place(
                            p,
                            self@,
                            j,
                        ) by {
                            if parent(j) == ni {
                                assert(j == li);
                            }
                        }
                        assert(2 * ni + 2 >= n as int);
                        assert(sift_down_spec(p, self@, ni) == self@);
                    }
                }
                break ;
            }
        }
    }

    /// Remove up to `quantity` entries, highest priority first, collecting
    /// their keys in extraction order and dropping any payloads. The run of
    /// collected keys never goes up in priority, and nothing left behind
    /// outranks any of them. Stops early once the queue empties; never fails.
    pub fn bulk_pop_k(&mut self, quantity: usize) -> (elements: Vec<i64>)
        requires
            old(self).wf(),
        ensures
            final(self).wf(),
            final(self).prio() == old(self).prio(),
            quantity <= old(self)@.len() ==> elements@.len() == quantity,
            old(self)@.len() <= quantity ==> elements@.len() == old(self)@.len(),
            final(self)@.len() == old(self)@.len() - elements@.len(),
            old(self).keys().to_multiset() == final(self).keys().to_multiset().add(
                elements@.to_multiset(),
            ),
            forall|a: int, b: int|
                #![trigger elements@[a], elements@[b]]
                0 <= a < b < elements@.len() ==> !outranks(
                    old(self).prio(),
                    elements@[b],
                    elements@[a],
                ),
            forall|a: int, j: int|
                #![trigger elements@[a], final(self)@[j]]
                0 <= a < elements@.len() && 0 <= j < final(self)@.len() ==> !outranks(
                    old(self).prio(),
                    final(self)@[j].0,
                    elements@[a],
                ),
    {
        broadcast use vstd::seq_lib::group_to_multiset_ensures;
        broadcast use vstd::multiset::group_multiset_axioms;
        broadcast use vstd::multiset::group_multiset_properties;

        let ghost p = old(self).prio();
        let mut elements: Vec<i64> = Vec::new();
        let mut i: usize = 0;
        while i < quantity
            invariant_except_break
                elements@.len() == i as int,
            invariant
                p == old(self).prio(),
                i <= quantity,
                self.wf(),
                self.prio() == p,
                elements@.len() <= i as int,
                elements@.len() <= old(self)@.len(),
                self@.len() == old(self)@.len() - elements@.len(),
                old(self).keys().to_multiset() == self.keys().to_multiset().add(
                    elements@.to_multiset(),
                ),
                forall|a: int, b: int|
                    #![trigger elements@[a], elements@[b]]
                    0 <= a < b < elements@.len() ==> !outranks(p, elements@[b], elements@[a]),
                forall|a: int, e: (i64, Option<V>)|
                    #![trigger elements@[a], self@.to_multiset().count(e)]
                    0 <= a < elements@.len() && self@.to_multiset().count(e) > 0 ==> !outranks(
                        p,
                        e.0,
                        elements@[a],
                    ),
            ensures
                elements@.len() == quantity || self@.len() == 0,
            decreases quantity - i,
        {
            let ghost pre = *self;
            if let Some((key, _)) = self.pop_kv() {
                proof {
                    broadcast use vstd::seq_lib::group_to_multiset_ensures;
                    broadcast use vstd::multiset::group_multiset_axioms;
                    broadcast use vstd::multiset::group_multiset_properties;

                    let root = pre@[0];
                    let kf = |e: (i64, Option<V>)| e.0;
                    assert(pre@[0] == root);
                    assert(pre@.contains(root));
                    assert(pre@.to_multiset().count(root) > 0);
                    assert(self@.to_multiset() == pre@.to_multiset().remove(root));
                    assert(self@.push(root).to_multiset() =~= pre@.to_multiset());
                    lemma_map_values_multiset(pre@, self@.push(root), kf);
                    assert(pre.keys() =~= pre@.map_values(kf));
                    assert(self@.push(root).map_values(kf) =~= self.keys().push(key));
                    assert(pre.keys().to_multiset() == self.keys().to_multiset().insert(key));
                    assert(old(self).keys().to_multiset() =~= self.keys().to_multiset().add(
                        elements@.push(key).to_multiset(),
                    ));
                    assert forall|a: int| 0 <= a < elements@.len() implies !outranks(
                        p,
                        key,
                        elements@[a],
                    ) by {
                        assert(pre@.to_multiset().count(root) > 0);
                    }
                }
                elements.push(key);
                proof {
                    broadcast use vstd::seq_lib::group_to_multiset_ensures;
                    broadcast use vstd::multiset::group_multiset_axioms;
                    broadcast use vstd::multiset::group_multiset_properties;

                    assert forall|a: int, e: (i64, Option<V>)|
                        #![trigger elements@[a], self@.to_multiset().count(e)]
                        0 <= a < elements@.len() && self@.to_multiset().count(e) > 0 implies
                        !outranks(p, e.0, elements@[a]) by {
                        assert(self@.to_multiset().count(e)
                            <= pre@.to_multiset().count(e));
                        assert(pre@.to_multiset().count(e) > 0);
                        if a < elements@.len() - 1 {
                        } else {
                            assert(pre@.contains(e));
                            let j = choose|j: int| 0 <= j < pre@.len() && pre@[j] == e;
                            assert(!outranks(p, pre@[j].0, key));
                        }
                    }
                }
            } else {
                break ;
            }
            i = i + 1;
        }
        proof {
            broadcast use vstd::seq_lib::group_to_multiset_ensures;
            broadcast use vstd::multiset::group_multiset_axioms;

            if quantity <= old(self)@.len() {
                assert(elements@.len() == quantity);
            }
            assert forall|a: int, j: int|
                0 <= a < elements@.len() && 0 <= j < self@.len() implies !outranks(
                p,
                (#[trigger] self@[j]).0,
                #[trigger] elements@[a],
            ) by {
                assert(self@.contains(self@[j]));
                assert(self@.to_multiset().count(self@[j]) > 0);
            }
        }
        elements
    }

    /// Remove up to `quantity` entries, highest priority first, collecting
    /// the key/optional-payload pairs in extraction order. The run of
    /// collected keys never goes up in priority, nothing left behind outranks
    /// any of them, and every pair that comes back with a payload is a pair
    /// the queue held. Stops early once the queue empties; never fails.
    pub fn bulk_pop_kv(&mut self, quantity: usize) -> (elements: Vec<(i64, Option<V>)>)
        requires
            old(self).wf(),
        ensures
            final(self).wf(),
            final(self).prio() == old(self).prio(),
            quantity <= old(self)@.len() ==> elements@.len() == quantity,
            old(self)@.len() <= quantity ==> elements@.len() == old(self)@.len(),
            final(self)@.len() == old(self)@.len() - elements@.len(),
            old(self).keys().to_multiset() == final(self).keys().to_multiset().add(
                elements@.map_values(|e: (i64, Option<V>)| e.0).to_multiset(),
            ),
            forall|a: int, b: int|
                #![trigger elements@[a], elements@[b]]
                0 <= a < b < elements@.len() ==> !outranks(
                    old(self).prio(),
                    elements@[b].0,
                    elements@[a].0,
                ),
            forall|a: int, j: int|
                #![trigger elements@[a], final(self)@[j]]
                0 <= a < elements@.len() && 0 <= j < final(self)@.len() ==> !outranks(
                    old(self).prio(),
                    final(self)@[j].0,
                    elements@[a].0,
                ),
            forall|a: int|
                0 <= a < elements@.len() && (#[trigger] elements@[a]).1 is Some
                    ==> old(self)@.to_multiset().count(elements@[a]) > 0,
    {
        broadcast use vstd::seq_lib::group_to_multiset_ensures;
        broadcast use vstd::multiset::group_multiset_axioms;
        broadcast use vstd::multiset::group_multiset_properties;

        let ghost p = old(self).prio();
        let ghost ef = |e: (i64, Option<V>)| e.0;
        let mut elements: Vec<(i64, Option<V>)> = Vec::new();
        let mut i: usize = 0;
        while i < quantity
            invariant_except_break
                elements@.len() == i as int,
            invariant
                p == old(self).prio(),
                ef == (|e: (i64, Option<V>)| e.0),
                i <= quantity,
                self.wf(),
                self.prio() == p,
                elements@.len() <= i as int,
                elements@.len() <= old(self)@.len(),
                self@.len() == old(self)@.len() - elements@.len(),
                old(self).keys().to_multiset() == self.keys().to_multiset().add(
                    elements@.map_values(ef).to_multiset(),
                ),
                forall|a: int, b: int|
                    #![trigger elements@[a], elements@[b]]
                    0 <= a < b < elements@.len() ==> !outranks(p, elements@[b].0, elements@[a].0),
                forall|a: int, e: (i64, Option<V>)|
                    #![trigger elements@[a], self@.to_multiset().count(e)]
                    0 <= a < elements@.len() && self@.to_multiset().count(e) > 0 ==> !outranks(
                        p,
                        e.0,
                        elements@[a].0,
                    ),
                forall|e: (i64, Option<V>)|
                    #[trigger] self@.to_multiset().count(e) <= old(self)@.to_multiset().count(e),
                forall|a: int|
                    0 <= a < elements@.len() && (#[trigger] elements@[a]).1 is Some
                        ==> old(self)@.to_multiset().count(elements@[a]) > 0,
            ensures
                elements@.len() == quantity || self@.len() == 0,
            decreases quantity - i,
        {
            let ghost pre = *self;
            if let Some(pair) = self.pop_kv() {
                proof {
                    broadcast use vstd::seq_lib::group_to_multiset_ensures;
                    broadcast use vstd::multiset::group_multiset_axioms;
                    broadcast use vstd::multiset::group_multiset_properties;

                    let root = pre@[0];
                    assert(pre@[0] == root);
                    assert(pre@.contains(root));
                    assert(pre@.to_multiset().count(root) > 0);
                    assert(self@.to_multiset() == pre@.to_multiset().remove(root));
                    assert(self@.push(root).to_multiset() =~= pre@.to_multiset());
                    lemma_map_values_multiset(pre@, self@.push(root), ef);
                    assert(pre.keys() =~= pre@.map_values(ef));
                    assert(self@.push(root).map_values(ef) =~= self.keys().push(pair.0));
                    assert(pre.keys().to_multiset() == self.keys().to_multiset().insert(pair.0));
                    assert(elements@.push(pair).map_values(ef) =~= elements@.map_values(ef).push(
                        pair.0,
                    ));
                    assert(old(self).keys().to_multiset() =~= self.keys().to_multiset().add(
                        elements@.push(pair).map_values(ef).to_multiset(),
                    ));
                    assert forall|a: int| 0 <= a < elements@.len() implies !outranks(
                        p,
                        pair.0,
                        elements@[a].0,
                    ) by {
                        assert(pre@.to_multiset().count(root) > 0);
                    }
                    if pair.1 is Some {
                        assert(pair == root);
                        assert(old(self)@.to_multiset().count(pair) > 0);
                    }
                }
                elements.push(pair);
                proof {
                    broadcast use vstd::seq_lib::group_to_multiset_ensures;
                    broadcast use vstd::multiset::group_multiset_axioms;
                    broadcast use vstd::multiset::group_multiset_properties;

                    assert forall|a: int, e: (i64, Option<V>)|
                        #![trigger elements@[a], self@.to_multiset().count(e)]
                        0 <= a < elements@.len() && self@.to_multiset().count(e) > 0 implies
                        !outranks(p, e.0, elements@[a].0) by {
                        assert(self@.to_multiset().count(e) <= pre@.to_multiset().count(e));
                        assert(pre@.to_multiset().count(e) > 0);
                        if a < elements@.len() - 1 {
                        } else {
                            assert(pre@.contains(e));
                            let j = choose|j: int| 0 <= j < pre@.len() && pre@[j] == e;
                            assert(!outranks(p, pre@[j].0, pair.0));
                        }
                    }
                }
            } else {
                break ;
            }
            i = i + 1;
        }
        proof {
            broadcast use vstd::seq_lib::group_to_multiset_ensures;
            broadcast use vstd::multiset::group_multiset_axioms;

            assert(elements@.map_values(ef) =~= elements@.map_values(
                |e: (i64, Option<V>)| e.0,
            ));
            assert forall|a: int, j: int|
                0 <= a < elements@.len() && 0 <= j < self@.len() implies !outranks(
                p,
                (#[trigger] self@[j]).0,
                (#[trigger] elements@[a]).0,
            ) by {
                assert(self@.contains(self@[j]));
                assert(self@.to_multiset().count(self@[j]) > 0);
            }
        }
        elements
    }

    /// Remove and return the highest-priority entry: its key, and its payload
    /// if one was attached and this queue held the last shared handle to it
    /// (otherwise the payload slot comes back empty). The last entry moves
    /// into the root slot and is sifted down. An empty queue yields nothing
    /// and stays unchanged.
    pub fn pop_kv(&mut self) -> (r: Option<(i64, Option<V>)>)
        requires
            old(self).wf(),
        ensures
            final(self).wf(),
            final(self).prio() == old(self).prio(),
            old(self)@.len() == 0 ==> r is None && final(self)@ == old(self)@,
            old(self)@.len() > 0 ==> (r matches Some(pair) && {
                &&& pair.0 == old(self)@[0].0
                &&& forall|j: int|
                    0 <= j < old(self)@.len() ==> !outranks(
                        old(self).prio(),
                        #[trigger] old(self)@[j].0,
                        pair.0,
                    )
                &&& (pair.1 matches Some(v) ==> old(self)@[0].1 == Some(v))
                &&& (old(self)@[0].1 is None ==> pair.1 is None)
                &&& final(self)@.to_multiset() == old(self)@.to_multiset().remove(old(self)@[0])
                &&& final(self)@.len() == old(self)@.len() - 1
                &&& final(self)@ == sift_down_spec(
                    old(self).prio(),
                    old(self)@.update(0, old(self)@.last()).drop_last(),
                    0,
                )
            }),
    {
        let n = self.vec.len();
        if n == 0 {
            return None;
        }
        proof {
            assert forall|j: int| 0 <= j < old(self)@.len() implies !outranks(
                old(self).prio(),
                #[trigger] old(self)@[j].0,
                old(self)@[0].0,
            ) by {
                lemma_root_extremal(old(self).prio(), old(self)@, j);
            }
        }
        let first = self.vec.swap_remove(0);
        proof {
            assert(first@ == old(self)@[0]);
            assert(self@ =~= old(self)@.update(0, old(self)@.last()).drop_last());
            lemma_swap_remove_multiset(old(self)@, 0);
            let p = self.prio();
            assert forall|j: int| 1 <= j < self@.len() && parent(j) != 0 implies #[trigger] in_place(
                p,
                self@,
                j,
            ) by {
                assert(in_place(p, old(self)@, j));
            }
        }
        if self.vec.len() > 0 {
            self.heapify(0);
        } else {
            proof {
                assert(sift_down_spec(self.prio(), self@, 0) == self@);
            }
        }
        let Item { key, value } = first;
        let vopt: Option<V> = match value {
            Some(rc) => match Rc::try_unwrap(rc) {
                Ok(v) => Some(v),
                Err(_) => None,
            },
            None => None,
        };
        Some((key, vopt))
    }

    /// Remove and return the highest-priority key, dropping any payload. An
    /// empty queue yields nothing and stays unchanged.
    pub fn pop_k(&mut self) -> (r: Option<i64>)
        requires
            old(self).wf(),
        ensures
            final(self).wf(),
            final(self).prio() == old(self).prio(),
            old(self)@.len() == 0 ==> r is None && final(self)@ == old(self)@,
            old(self)@.len() > 0 ==> (r matches Some(k) && {
                &&& k == old(self)@[0].0
                &&& forall|j: int|
                    0 <= j < old(self)@.len() ==> !outranks(
                        old(self).prio(),
                        #[trigger] old(self)@[j].0,
                        k,
                    )
                &&& final(self)@.to_multiset() == old(self)@.to_multiset().remove(old(self)@[0])
                &&& final(self)@.len() == old(self)@.len() - 1
                &&& final(self)@ == sift_down_spec(
                    old(self).prio(),
                    old(self)@.update(0, old(self)@.last()).drop_last(),
                    0,
                )
            }),
    {
        match self.pop_kv() {
            Some(kv) => Some(kv.0),
            None => None,
        }
    }

    /// Return the highest-priority entry without removing it: its key and a
    /// shared view of its payload, if one is attached. An empty queue yields
    /// nothing.
    pub fn top_kv(&self) -> (r: Option<(i64, Option<Rc<V>>)>)
        requires
            self.wf(),
        ensures
            self@.len() == 0 ==> r is None,
            self@.len() > 0 ==> (r matches Some(pair) && {
                &&& pair.0 == self@[0].0
                &&& shared_view(pair.1) == self@[0].1
                &&& forall|j: int|
                    0 <= j < self@.len() ==> !outranks(self.prio(), #[trigger] self@[j].0, pair.0)
            }),
    {
        if self.vec.len() == 0 {
            None
        } else {
            proof {
                assert forall|j: int| 0 <= j < self@.len() implies !outranks(
                    self.prio(),
                    #[trigger] self@[j].0,
                    self@[0].0,
                ) by {
                    lemma_root_extremal(self.prio(), self@, j);
                }
            }
            let item = &self.vec[0];
            let value: Option<Rc<V>> = match &item.value {
                Some(rc) => Some(share(rc)),
                None => None,
            };
            Some((item.key, value))
        }
    }

    /// Return the highest-priority key without removing it. An empty queue
    /// yields nothing.
    pub fn top_k(&self) -> (r: Option<i64>)
        requires
            self.wf(),
        ensures
            self@.len() == 0 ==> r is None,
            self@.len() > 0 ==> (r matches Some(k) && {
                &&& k == self@[0].0
                &&& forall|j: int|
                    0 <= j < self@.len() ==> !outranks(self.prio(), #[trigger] self@[j].0, k)
            }),
    {
        if self.vec.len() == 0 {
            None
        } else {
            proof {
                assert forall|j: int| 0 <= j < self@.len() implies !outranks(
                    self.prio(),
                    #[trigger] self@[j].0,
                    self@[0].0,
                ) by {
                    lemma_root_extremal(self.prio(), self@, j);
                }
            }
            Some(self.vec[0].key)
        }
    }

    /// One step of the draining sequence: extract the highest-priority entry,
    /// leaving the queue one shorter, until it yields nothing. Consuming the
    /// sequence to completion leaves the queue empty, and an exhausted queue
    /// keeps yielding nothing.
    pub fn next(&mut self) -> (r: Option<(i64, Option<V>)>)
        requires
            old(self).wf(),
        ensures
            final(self).wf(),
            final(self).prio() == old(self).prio(),
            old(self)@.len() == 0 ==> r is None && final(self)@ == old(self)@,
            old(self)@.len() > 0 ==> (r matches Some(pair) && {
                &&& pair.0 == old(self)@[0].0
                &&& forall|j: int|
                    0 <= j < old(self)@.len() ==> !outranks(
                        old(self).prio(),
                        #[trigger] old(self)@[j].0,
                        pair.0,
                    )
                &&& (pair.1 matches Some(v) ==> old(self)@[0].1 == Some(v))
                &&& (old(self)@[0].1 is None ==> pair.1 is None)
                &&& final(self)@.to_multiset() == old(self)@.to_multiset().remove(old(self)@[0])
                &&& final(self)@.len() == old(self)@.len() - 1
                &&& final(self)@ == sift_down_spec(
                    old(self).prio(),
                    old(self)@.update(0, old(self)@.last()).drop_last(),
                    0,
                )
            }),
    {
        self.pop_kv()
    }

    /// Render the subtree rooted at 1-based position `node_i` as indented
    /// text: one line per entry with its key and position, children indented
    /// one level deeper, left subtree first. A diagnostic aid, not a contract.
    fn to_string(&self, node_i: usize, level: usize) -> (r: String)
        requires
            1 <= node_i <= self@.len(),
            level < node_i,
        ensures
            r@ == tree_lines(self@, node_i as int, level as int),
        decreases self@.len() - node_i,
    {
        let mut identation = String::new();
        let mut l: usize = 0;
        while l < level
            invariant
                l <= level,
                identation@ == indent_of(l as int),
            decreases level - l,
        {
            identation.append("    ");
            l = l + 1;
        }
        let header = render_line(&identation, self.vec[node_i - 1].key, node_i);
        proof {
            assert(self@[node_i - 1].0 == self.vec@[node_i - 1].key);
            assert(header@ == line_repr(indent_of(level as int), self@[node_i - 1].0 as int, node_i as int));
        }
        if node_i <= self.vec.len() / 2 {
            let left: usize = node_i * 2;
            let left_string = self.to_string(left, level + 1);
            let mut repr = header;
            repr.append("\n");
            repr.append(left_string.as_str());
            if left < self.vec.len() {
                let right: usize = left + 1;
                let right_string = self.to_string(right, level + 1);
                repr.append("\n");
                repr.append(right_string.as_str());
            }
            repr
        } else {
            header
        }
    }

    /// Render the whole heap's tree shape as indented text — one line per
    /// stored entry, children indented one level deeper than their parent —
    /// or the fixed marker for an empty queue. Reads the queue without
    /// changing it.
    pub fn debug_string(&self) -> (r: String)
        ensures
            self@.len() == 0 ==> r@ == "empty queue"@,
            self@.len() > 0 ==> r@ == tree_lines(self@, 1, 0),
    {
        if self.vec.len() > 0 {
            self.to_string(1, 0)
        } else {
            "empty queue".to_owned()
        }
    }

    /// The key stored at 1-based tree position `pos` (the root is position 1).
    pub fn key_at(&self, pos: usize) -> (k: i64)
        requires
            1 <= pos <= self@.len(),
        ensures
            k == self@[pos - 1].0,
    {
        self.vec[pos - 1].key
    }
}

/// Two peeks with no mutation in between see the same key: a peek takes the
/// queue by shared reference, so it changes nothing, and any two results
/// its contract admits for the same queue are equal.
pub proof fn lemma_peek_stable<V>(q: &PQueue<V>, r1: Option<i64>, r2: Option<i64>)
    requires
        call_ensures(PQueue::<V>::top_k, (q,), r1),
        call_ensures(PQueue::<V>::top_k, (q,), r2),
    ensures
        r1 == r2,
{
}

/// Round trip: the keys that a full bulk extraction hands back after bulk-
/// inserting pairs into an empty queue are exactly the inserted keys, and
/// they come out in priority order. Its premises are what `bulk_insert_kv`
/// and `bulk_pop_kv` ensure when the queue starts empty and the whole
/// content is extracted.
pub proof fn lemma_round_trip<V>(
    p: Priority,
    q0: Seq<(i64, Option<V>)>,
    q1: Seq<(i64, Option<V>)>,
    q2: Seq<(i64, Option<V>)>,
    pairs: Seq<(i64, V)>,
    out: Seq<(i64, Option<V>)>,
)
    requires
        q0.len() == 0,
        q1.to_multiset() == q0.to_multiset().add(
            pairs.map_values(|x: (i64, V)| (x.0, Some(x.1))).to_multiset(),
        ),
        q1.len() == q0.len() + pairs.len(),
        out.len() == pairs.len(),
        q2.len() == q1.len() - out.len(),
        q1.map_values(|e: (i64, Option<V>)| e.0).to_multiset() == q2.map_values(
            |e: (i64, Option<V>)| e.0,
        ).to_multiset().add(out.map_values(|e: (i64, Option<V>)| e.0).to_multiset()),
        forall|a: int, b: int|
            #![trigger out[a], out[b]]
            0 <= a < b < out.len() ==> !outranks(p, out[b].0, out[a].0),
    ensures
        out.map_values(|e: (i64, Option<V>)| e.0).to_multiset() == pairs.map_values(
            |x: (i64, V)| x.0,
        ).to_multiset(),
        forall|a: int, b: int|
            #![trigger out[a], out[b]]
            0 <= a < b < out.len() ==> !outranks(p, out[b].0, out[a].0),
{
    broadcast use vstd::seq_lib::group_to_multiset_ensures;
    broadcast use vstd::multiset::group_multiset_axioms;
    broadcast use vstd::multiset::group_multiset_properties;

    let ef = |e: (i64, Option<V>)| e.0;
    let inserted = pairs.map_values(|x: (i64, V)| (x.0, Some(x.1)));
    assert(q0.to_multiset().len() == 0);
    assert(q1.to_multiset() =~= inserted.to_multiset());
    lemma_map_values_multiset(q1, inserted, ef);
    assert(inserted.map_values(ef) =~= pairs.map_values(|x: (i64, V)| x.0));
    assert(q2.to_multiset().len() == 0);
    assert(q2.map_values(ef).to_multiset().len() == 0);
    assert(q2.map_values(ef).to_multiset() =~= Multiset::<i64>::empty());
    assert(q1.map_values(ef).to_multiset() =~= out.map_values(ef).to_multiset());
}

} // verus!


