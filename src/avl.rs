//! The memtable: a height-balanced binary search tree over string keys,
//! ordered by the bytes of the keys.
use crate::keys::{bytes_lt, compare_bytes, group_bytes_lt};
use std::cmp::Ordering;
use vstd::prelude::*;
use vstd::string::StringSliceAdditionalSpecFns;
use vstd::utf8::encode_utf8;
use vstd::arithmetic::power2::{pow2, lemma_pow2_unfold, lemma_pow2_strictly_increases, lemma2_to64, lemma2_to64_rest};

verus! {

broadcast use group_bytes_lt;

/// One node of the memtable.
pub struct AVLNode {
    pub left: Option<Box<AVLNode>>,
    pub right: Option<Box<AVLNode>>,
    pub key: String,
    pub value: String,
    pub height: i32,
}

/// The bytes under which a key is ordered and stored.
pub open spec fn key_bytes(s: Seq<char>) -> Seq<u8> {
    encode_utf8(s)
}

/// The larger of two naturals.
pub open spec fn max_nat(a: nat, b: nat) -> nat {
    if a >= b {
        a
    } else {
        b
    }
}

/// Height of a subtree, counted in nodes; an empty subtree has height 0.
pub open spec fn height_of(t: Option<Box<AVLNode>>) -> nat
    decreases t,
{
    match t {
        None => 0,
        Some(n) => 1 + max_nat(height_of(n.left), height_of(n.right)),
    }
}

/// Number of nodes of a subtree.
pub open spec fn size_of(t: Option<Box<AVLNode>>) -> nat
    decreases t,
{
    match t {
        None => 0,
        Some(n) => 1 + size_of(n.left) + size_of(n.right),
    }
}

/// The height recorded in the root of a subtree (0 when empty).
pub open spec fn stored_height(t: Option<Box<AVLNode>>) -> int {
    match t {
        None => 0,
        Some(n) => n.height as int,
    }
}

/// The contents of a subtree: key bytes to value.
pub open spec fn map_of(t: Option<Box<AVLNode>>) -> Map<Seq<u8>, Seq<char>>
    decreases t,
{
    match t {
        None => Map::empty(),
        Some(n) => map_of(n.left).union_prefer_right(map_of(n.right)).insert(
            key_bytes(n.key@),
            n.value@,
        ),
    }
}

/// Search order at one node: every key on the left is smaller than the
/// node's key, every key on the right is larger.
pub open spec fn ordered_at(n: AVLNode) -> bool {
    &&& forall|k: Seq<u8>| #[trigger]
        map_of(n.left).contains_key(k) ==> bytes_lt(k, key_bytes(n.key@))
    &&& forall|k: Seq<u8>| #[trigger]
        map_of(n.right).contains_key(k) ==> bytes_lt(key_bytes(n.key@), k)
}

/// A valid memtable subtree: search order, balance (child heights differ by
/// at most one) and correct recorded heights, at every node.
pub open spec fn is_avl(t: Option<Box<AVLNode>>) -> bool
    decreases t,
{
    match t {
        None => true,
        Some(n) => {
            &&& is_avl(n.left)
            &&& is_avl(n.right)
            &&& n.height as int == 1 + max_nat(height_of(n.left), height_of(n.right))
            &&& height_of(n.left) <= height_of(n.right) + 1
            &&& height_of(n.right) <= height_of(n.left) + 1
            &&& ordered_at(*n)
        },
    }
}

proof fn lemma_node_keys(t: Option<Box<AVLNode>>)
    ensures
        t is Some ==> forall|k: Seq<u8>| #[trigger]
            map_of(t).contains_key(k) <==> (k == key_bytes(t.unwrap().key@) || map_of(
                t.unwrap().left,
            ).contains_key(k) || map_of(t.unwrap().right).contains_key(k)),
        t is Some ==> forall|k: Seq<u8>| #[trigger]
            map_of(t.unwrap().left).contains_key(k) ==> map_of(t).contains_key(k),
        t is Some ==> forall|k: Seq<u8>| #[trigger]
            map_of(t.unwrap().right).contains_key(k) ==> map_of(t).contains_key(k),
        t is Some ==> size_of(t) == 1 + size_of(t.unwrap().left) + size_of(t.unwrap().right),
        t is None ==> map_of(t) == Map::<Seq<u8>, Seq<char>>::empty() && size_of(t) == 0,
{
}

proof fn lemma_avl_stored(t: Option<Box<AVLNode>>)
    requires
        is_avl(t),
    ensures
        stored_height(t) == height_of(t),
{
}

impl AVLNode {
    /// A node of height 1 with the given key, value and children.
    pub fn new(
        key: &str,
        value: &str,
        left: Option<Box<AVLNode>>,
        right: Option<Box<AVLNode>>,
    ) -> (r: AVLNode)
        ensures
            r.key@ == key@,
            r.value@ == value@,
            r.left == left,
            r.right == right,
            r.height == 1,
    {
        AVLNode { left, right, key: key.to_owned(), value: value.to_owned(), height: 1 }
    }
}


/// The memtable: an ordered map from keys to values.
pub struct AVLTree {
    pub root: Option<Box<AVLNode>>,
    /// The number of entries, kept equal to the node count of `root`.
    pub count: usize,
}

impl View for AVLTree {
    type V = Map<Seq<u8>, Seq<char>>;

    open spec fn view(&self) -> Map<Seq<u8>, Seq<char>> {
        map_of(self.root)
    }
}

/// Minimum node count of a valid subtree: a subtree of height `h` holds at
/// least `2^(h/2) - 1` nodes.
pub proof fn lemma_height_bound(t: Option<Box<AVLNode>>)
    requires
        is_avl(t),
    ensures
        pow2(height_of(t) / 2) <= size_of(t) + 1,
    decreases t,
{
    lemma2_to64();
    match t {
        None => {},
        Some(n) => {
            lemma_height_bound(n.left);
            lemma_height_bound(n.right);
            let a = height_of(n.left);
            let b = height_of(n.right);
            let mx = max_nat(a, b);
            let mn = if a >= b { b } else { a };
            if mx > 0 {
                let e = ((mx - 1) / 2) as nat;
                assert((mx + 1) / 2 == e + 1);
                lemma_pow2_unfold(e + 1);
                if e < mx / 2 {
                    lemma_pow2_strictly_increases(e, mx / 2);
                }
                if e < mn / 2 {
                    lemma_pow2_strictly_increases(e, mn / 2);
                }
                assert(pow2(e) <= pow2(mx / 2));
                assert(pow2(e) <= pow2(mn / 2));
                assert(pow2(a / 2) + pow2(b / 2) == pow2(mx / 2) + pow2(mn / 2));
            }
        },
    }
}

/// A tree with at most `usize::MAX` nodes is far below the height limit
/// of the recorded heights.
proof fn lemma_height_small(t: Option<Box<AVLNode>>)
    requires
        is_avl(t),
        size_of(t) <= usize::MAX,
    ensures
        height_of(t) + 4 < i32::MAX,
{
    lemma_height_bound(t);
    lemma2_to64_rest();
    lemma_pow2_unfold(65);
    if height_of(t) / 2 >= 65 {
        if height_of(t) / 2 > 65 {
            lemma_pow2_strictly_increases(65, height_of(t) / 2);
        }
    }
}

/// The shape of a subtree: every node's key, value, recorded height and
/// children, as values.
pub enum Shape {
    Empty,
    Node {
        key: Seq<char>,
        value: Seq<char>,
        height: int,
        left: Box<Shape>,
        right: Box<Shape>,
    },
}

/// The shape of a subtree of nodes.
pub open spec fn shape_of(t: Option<Box<AVLNode>>) -> Shape
    decreases t,
{
    match t {
        None => Shape::Empty,
        Some(n) => Shape::Node {
            key: n.key@,
            value: n.value@,
            height: n.height as int,
            left: Box::new(shape_of(n.left)),
            right: Box::new(shape_of(n.right)),
        },
    }
}

/// The height recorded at the root of a shape (0 when empty).
pub open spec fn sh_height(s: Shape) -> int {
    match s {
        Shape::Empty => 0,
        Shape::Node { height, .. } => height,
    }
}

/// Left height minus right height, from the children's recorded heights.
pub open spec fn sh_balance(s: Shape) -> int {
    match s {
        Shape::Empty => 0,
        Shape::Node { left, right, .. } => sh_height(*left) - sh_height(*right),
    }
}

/// A node with its height computed from its children.
pub open spec fn sh_node(key: Seq<char>, value: Seq<char>, left: Shape, right: Shape) -> Shape {
    Shape::Node {
        key,
        value,
        height: 1 + if sh_height(left) >= sh_height(right) {
            sh_height(left)
        } else {
            sh_height(right)
        },
        left: Box::new(left),
        right: Box::new(right),
    }
}

/// Right rotation: the left child becomes the root; both participants get
/// their heights recomputed, the old root first.
pub open spec fn sh_rotate_right(s: Shape) -> Shape {
    match s {
        Shape::Node { key, value, left, right, .. } => match *left {
            Shape::Node { key: lk, value: lv, left: ll, right: lr, .. } => sh_node(
                lk,
                lv,
                *ll,
                sh_node(key, value, *lr, *right),
            ),
            Shape::Empty => s,
        },
        Shape::Empty => s,
    }
}

/// Left rotation: the right child becomes the root; both participants get
/// their heights recomputed, the old root first.
pub open spec fn sh_rotate_left(s: Shape) -> Shape {
    match s {
        Shape::Node { key, value, left, right, .. } => match *right {
            Shape::Node { key: rk, value: rv, left: rl, right: rr, .. } => sh_node(
                rk,
                rv,
                sh_node(key, value, *left, *rl),
                *rr,
            ),
            Shape::Empty => s,
        },
        Shape::Empty => s,
    }
}

/// Rebalancing a node: recompute its height, then rotate by the four cases
/// of `balance = height(left) - height(right)`; a node whose children differ
/// by at most one is left as it is.
pub open spec fn sh_rebalance(key: Seq<char>, value: Seq<char>, left: Shape, right: Shape) -> Shape {
    let s = sh_node(key, value, left, right);
    let b = sh_height(left) - sh_height(right);
    if b > 1 && sh_balance(left) >= 0 {
        sh_rotate_right(s)
    } else if b > 1 {
        sh_rotate_right(sh_node(key, value, sh_rotate_left(left), right))
    } else if b < -1 && sh_balance(right) <= 0 {
        sh_rotate_left(s)
    } else if b < -1 {
        sh_rotate_left(sh_node(key, value, left, sh_rotate_right(right)))
    } else {
        s
    }
}

/// Insertion: descend by comparison; an equal key has its value replaced in
/// place; a missing child becomes a new leaf; each node on the way back up
/// is rebalanced.
pub open spec fn sh_insert(s: Shape, k: Seq<char>, v: Seq<char>) -> Shape
    decreases s,
{
    match s {
        Shape::Empty => Shape::Node {
            key: k,
            value: v,
            height: 1,
            left: Box::new(Shape::Empty),
            right: Box::new(Shape::Empty),
        },
        Shape::Node { key, value, height, left, right } => if bytes_lt(
            key_bytes(k),
            key_bytes(key),
        ) {
            sh_rebalance(key, value, sh_insert(*left, k, v), *right)
        } else if key_bytes(k) == key_bytes(key) {
            Shape::Node { key, value: v, height, left, right }
        } else {
            sh_rebalance(key, value, *left, sh_insert(*right, k, v))
        },
    }
}

/// Detaching the rightmost node: it is replaced by its left child, and
/// each node on the way back up is rebalanced. Gives the rest, and the
/// detached node's key and value.
pub open spec fn sh_remove_max(s: Shape) -> (Shape, Seq<char>, Seq<char>)
    decreases s,
{
    match s {
        Shape::Empty => (Shape::Empty, Seq::empty(), Seq::empty()),
        Shape::Node { key, value, left, right, .. } => match *right {
            Shape::Empty => (*left, key, value),
            _ => {
                let (rest, mk, mv) = sh_remove_max(*right);
                (sh_rebalance(key, value, *left, rest), mk, mv)
            },
        },
    }
}

/// Removing the root: a missing child promotes the other; otherwise the
/// in-order predecessor takes the root's place and children, and the result
/// is rebalanced.
pub open spec fn sh_remove_root(s: Shape) -> Shape {
    match s {
        Shape::Empty => Shape::Empty,
        Shape::Node { left, right, .. } => if *right is Empty {
            *left
        } else if *left is Empty {
            *right
        } else {
            let (rest, mk, mv) = sh_remove_max(*left);
            sh_rebalance(mk, mv, rest, *right)
        },
    }
}

/// Deletion: descend by comparison, remove the matching node's place, and
/// rebalance each node on the way back up. An absent key changes nothing on
/// its path but recomputed heights.
pub open spec fn sh_remove(s: Shape, k: Seq<char>) -> Shape
    decreases s,
{
    match s {
        Shape::Empty => Shape::Empty,
        Shape::Node { key, value, left, right, .. } => if bytes_lt(key_bytes(k), key_bytes(key)) {
            sh_rebalance(key, value, sh_remove(*left, k), *right)
        } else if key_bytes(k) == key_bytes(key) {
            sh_remove_root(s)
        } else {
            sh_rebalance(key, value, *left, sh_remove(*right, k))
        },
    }
}

/// The shape with the value of the node whose key bytes are those of `k`
/// replaced, every node and height left in place.
pub open spec fn sh_replace(s: Shape, k: Seq<char>, v: Seq<char>) -> Shape
    decreases s,
{
    match s {
        Shape::Empty => Shape::Empty,
        Shape::Node { key, value, height, left, right } => if bytes_lt(
            key_bytes(k),
            key_bytes(key),
        ) {
            Shape::Node { key, value, height, left: Box::new(sh_replace(*left, k, v)), right }
        } else if key_bytes(k) == key_bytes(key) {
            Shape::Node { key, value: v, height, left, right }
        } else {
            Shape::Node { key, value, height, left, right: Box::new(sh_replace(*right, k, v)) }
        },
    }
}

proof fn lemma_shape(t: Option<Box<AVLNode>>)
    ensures
        sh_height(shape_of(t)) == stored_height(t),
        t is None ==> shape_of(t) == Shape::Empty,
        t is Some ==> shape_of(t) == (Shape::Node {
            key: t.unwrap().key@,
            value: t.unwrap().value@,
            height: t.unwrap().height as int,
            left: Box::new(shape_of(t.unwrap().left)),
            right: Box::new(shape_of(t.unwrap().right)),
        }),
        t is Some ==> sh_balance(shape_of(t)) == stored_height(t.unwrap().left) - stored_height(
            t.unwrap().right,
        ),
{
    if t is Some {
        assert(sh_height(shape_of(t.unwrap().left)) == stored_height(t.unwrap().left));
        assert(sh_height(shape_of(t.unwrap().right)) == stored_height(t.unwrap().right));
    }
}

/// The entries of a subtree in in-order: (key, value).
pub open spec fn entries_of(t: Option<Box<AVLNode>>) -> Seq<(Seq<char>, Seq<char>)>
    decreases t,
{
    match t {
        None => Seq::empty(),
        Some(n) => entries_of(n.left) + seq![(n.key@, n.value@)] + entries_of(n.right),
    }
}

/// Keys strictly ascending by their bytes, hence without duplicates.
pub open spec fn keys_ascending(e: Seq<(Seq<char>, Seq<char>)>) -> bool {
    forall|i: int, j: int|
        0 <= i < j < e.len() ==> bytes_lt(key_bytes(#[trigger] e[i].0), key_bytes(#[trigger] e[j].0))
}

/// A list of entries holds exactly the contents of a map.
pub open spec fn lists_map(e: Seq<(Seq<char>, Seq<char>)>, m: Map<Seq<u8>, Seq<char>>) -> bool {
    &&& forall|i: int|
        0 <= i < e.len() ==> m.contains_key(key_bytes(#[trigger] e[i].0)) && m[key_bytes(e[i].0)]
            == e[i].1
    &&& forall|k: Seq<u8>| #[trigger]
        m.contains_key(k) ==> exists|i: int| 0 <= i < e.len() && key_bytes(#[trigger] e[i].0) == k
}

/// The views of a list of string pairs.
pub open spec fn pairs_view(v: Seq<(String, String)>) -> Seq<(Seq<char>, Seq<char>)> {
    v.map_values(|p: (String, String)| (p.0@, p.1@))
}

/// Estimated memory held by a subtree: per node a fixed overhead plus the
/// bytes of its key and value.
pub open spec fn footprint_of(t: Option<Box<AVLNode>>) -> nat
    decreases t,
{
    match t {
        None => 0,
        Some(n) => vstd::layout::size_of::<AVLNode>() + key_bytes(n.key@).len() + key_bytes(
            n.value@,
        ).len() + footprint_of(n.left) + footprint_of(n.right),
    }
}

/// `x`, or `usize::MAX` where `x` exceeds it.
pub open spec fn capped(x: nat) -> nat {
    if x <= usize::MAX {
        x
    } else {
        usize::MAX as nat
    }
}

/// The in-order entries of a valid subtree are strictly ascending and hold
/// exactly its contents, one per node.
pub proof fn lemma_entries(t: Option<Box<AVLNode>>)
    requires
        is_avl(t),
    ensures
        entries_of(t).len() == size_of(t),
        keys_ascending(entries_of(t)),
        lists_map(entries_of(t), map_of(t)),
    decreases t,
{
    match t {
        None => {},
        Some(n) => {
            lemma_entries(n.left);
            lemma_entries(n.right);
            lemma_node_keys(t);
            let el = entries_of(n.left);
            let er = entries_of(n.right);
            let e = entries_of(t);
            let nk = key_bytes(n.key@);
            assert(e == el + seq![(n.key@, n.value@)] + er);
            assert(ordered_at(*n));
            assert forall|i: int| 0 <= i < e.len() implies map_of(t).contains_key(
                key_bytes(#[trigger] e[i].0),
            ) && map_of(t)[key_bytes(e[i].0)] == e[i].1 by {
                if i < el.len() {
                    assert(e[i] == el[i]);
                    assert(map_of(n.left).contains_key(key_bytes(el[i].0)));
                    assert(!map_of(n.right).contains_key(key_bytes(el[i].0)));
                } else if i > el.len() {
                    assert(e[i] == er[i - el.len() - 1]);
                    assert(map_of(n.right).contains_key(key_bytes(er[i - el.len() - 1].0)));
                }
            }
            assert forall|k: Seq<u8>| #[trigger]
                map_of(t).contains_key(k) implies exists|i: int|
                0 <= i < e.len() && key_bytes(#[trigger] e[i].0) == k by {
                if k == nk {
                    assert(e[el.len() as int] == (n.key@, n.value@));
                    assert(0 <= el.len() < e.len() && key_bytes(e[el.len() as int].0) == k);
                } else if map_of(n.left).contains_key(k) {
                    let i = choose|i: int| 0 <= i < el.len() && key_bytes(#[trigger] el[i].0) == k;
                    assert(e[i] == el[i]);
                    assert(0 <= i < e.len() && key_bytes(e[i].0) == k);
                } else {
                    let i = choose|i: int| 0 <= i < er.len() && key_bytes(#[trigger] er[i].0) == k;
                    assert(e[i + el.len() + 1] == er[i]);
                    assert(0 <= i + el.len() + 1 < e.len() && key_bytes(e[i + el.len() + 1].0) == k);
                }
            }
            assert forall|i: int, j: int| 0 <= i < j < e.len() implies bytes_lt(
                key_bytes(#[trigger] e[i].0),
                key_bytes(#[trigger] e[j].0),
            ) by {
                let ki = key_bytes(e[i].0);
                let kj = key_bytes(e[j].0);
                if i < el.len() {
                    assert(e[i] == el[i]);
                    assert(map_of(n.left).contains_key(ki));
                    assert(bytes_lt(ki, nk));
                    if j < el.len() {
                        assert(e[j] == el[j]);
                    } else if j > el.len() {
                        assert(e[j] == er[j - el.len() - 1]);
                        assert(map_of(n.right).contains_key(kj));
                        assert(bytes_lt(nk, kj));
                    }
                } else if i == el.len() {
                    assert(e[j] == er[j - el.len() - 1]);
                    assert(map_of(n.right).contains_key(kj));
                } else {
                    assert(e[i] == er[i - el.len() - 1]);
                    assert(e[j] == er[j - el.len() - 1]);
                }
            }
        },
    }
}

fn calculate_size(node: &Option<Box<AVLNode>>) -> (r: usize)
    ensures
        r as nat == capped(footprint_of(*node)),
    decreases node,
{
    match node {
        None => 0,
        Some(n) => {
            let fixed = core::mem::size_of::<AVLNode>();
            let kl = n.key.as_str().as_bytes().len();
            let vl = n.value.as_str().as_bytes().len();
            let own = fixed.saturating_add(kl).saturating_add(vl);
            let fl = calculate_size(&n.left);
            let fr = calculate_size(&n.right);
            let below = fl.saturating_add(fr);
            assert(kl as nat == key_bytes(n.key@).len());
            assert(vl as nat == key_bytes(n.value@).len());
            assert(fixed as nat == vstd::layout::size_of::<AVLNode>());
            own.saturating_add(below)
        },
    }
}

fn collect_in_order(node: &Option<Box<AVLNode>>, out: &mut Vec<(String, String)>)
    ensures
        pairs_view(final(out)@) == pairs_view(old(out)@) + entries_of(*node),
    decreases node,
{
    match node {
        None => {
            assert(pairs_view(out@) =~= pairs_view(out@) + entries_of(*node));
        },
        Some(n) => {
            let ghost start = pairs_view(out@);
            collect_in_order(&n.left, out);
            let ghost mid = out@;
            out.push((n.key.clone(), n.value.clone()));
            assert(pairs_view(out@) =~= pairs_view(mid) + seq![(n.key@, n.value@)]);
            collect_in_order(&n.right, out);
            assert(pairs_view(out@) =~= start + entries_of(*node));
        },
    }
}

/// A read after a write: once `key` is set to `value`, the memtable maps it
/// to `value`, whether or not it held the key before.
pub proof fn lemma_set_then_get(
    before: Map<Seq<u8>, Seq<char>>,
    after: Map<Seq<u8>, Seq<char>>,
    key: Seq<u8>,
    value: Seq<char>,
)
    requires
        after == before.insert(key, value),
    ensures
        after.contains_key(key),
        after[key] == value,
{
}

/// A delete after a write: once `key` is set and then unset, the memtable
/// does not hold it.
pub proof fn lemma_set_unset_absent(
    before: Map<Seq<u8>, Seq<char>>,
    mid: Map<Seq<u8>, Seq<char>>,
    after: Map<Seq<u8>, Seq<char>>,
    key: Seq<u8>,
    value: Seq<char>,
)
    requires
        mid == before.insert(key, value),
        after == mid.remove(key),
    ensures
        !after.contains_key(key),
{
}

/// Setting a key twice to the same value leaves what setting it once left:
/// the same contents and the same number of nodes.
pub proof fn lemma_set_idempotent(
    before: Map<Seq<u8>, Seq<char>>,
    once: Map<Seq<u8>, Seq<char>>,
    twice: Map<Seq<u8>, Seq<char>>,
    size_before: nat,
    size_once: nat,
    size_twice: nat,
    key: Seq<u8>,
    value: Seq<char>,
)
    requires
        once == before.insert(key, value),
        twice == once.insert(key, value),
        size_once == size_before + (if before.contains_key(key) {
            0nat
        } else {
            1nat
        }),
        size_twice == size_once + (if once.contains_key(key) {
            0nat
        } else {
            1nat
        }),
    ensures
        twice == once,
        size_twice == size_once,
{
    assert(twice =~= once);
}

/// Overwrite in place: setting a key that a valid tree holds only replaces
/// that node's value; every node and every height stays where it was.
pub proof fn lemma_overwrite_in_place(t: Option<Box<AVLNode>>, k: Seq<char>, v: Seq<char>)
    requires
        is_avl(t),
        map_of(t).contains_key(key_bytes(k)),
    ensures
        sh_insert(shape_of(t), k, v) == sh_replace(shape_of(t), k, v),
    decreases t,
{
    let n = t.unwrap();
    lemma_shape(t);
    lemma_shape(n.left);
    lemma_shape(n.right);
    lemma_node_keys(t);
    lemma_avl_stored(n.left);
    lemma_avl_stored(n.right);
    assert(ordered_at(*n));
    let kb = key_bytes(k);
    let nk = key_bytes(n.key@);
    if bytes_lt(kb, nk) {
        assert(!map_of(n.right).contains_key(kb));
        lemma_overwrite_in_place(n.left, k, v);
        let rl = sh_replace(shape_of(n.left), k, v);
        assert(sh_height(rl) == sh_height(shape_of(n.left)));
        assert(sh_rebalance(n.key@, n.value@, rl, shape_of(n.right)) == sh_node(
            n.key@,
            n.value@,
            rl,
            shape_of(n.right),
        ));
    } else if kb != nk {
        crate::keys::lemma_lt_total(kb, nk);
        assert(!map_of(n.left).contains_key(kb));
        lemma_overwrite_in_place(n.right, k, v);
        let rr = sh_replace(shape_of(n.right), k, v);
        assert(sh_height(rr) == sh_height(shape_of(n.right)));
        assert(sh_rebalance(n.key@, n.value@, shape_of(n.left), rr) == sh_node(
            n.key@,
            n.value@,
            shape_of(n.left),
            rr,
        ));
    }
}

/// Replacing a key's value by the value it already has changes nothing.
proof fn lemma_replace_same(t: Option<Box<AVLNode>>, k: Seq<char>)
    requires
        is_avl(t),
        map_of(t).contains_key(key_bytes(k)),
    ensures
        sh_replace(shape_of(t), k, map_of(t)[key_bytes(k)]) == shape_of(t),
    decreases t,
{
    let n = t.unwrap();
    lemma_shape(t);
    lemma_node_keys(t);
    assert(ordered_at(*n));
    let kb = key_bytes(k);
    let nk = key_bytes(n.key@);
    if bytes_lt(kb, nk) {
        assert(!map_of(n.right).contains_key(kb));
        lemma_replace_same(n.left, k);
    } else if kb != nk {
        crate::keys::lemma_lt_total(kb, nk);
        assert(!map_of(n.left).contains_key(kb));
        lemma_replace_same(n.right, k);
    }
}

/// Setting a key to the value it already holds leaves the tree identical:
/// setting twice leaves the tree that setting once left.
pub proof fn lemma_set_same_value(t: Option<Box<AVLNode>>, k: Seq<char>, v: Seq<char>)
    requires
        is_avl(t),
        map_of(t).contains_key(key_bytes(k)),
        map_of(t)[key_bytes(k)] == v,
    ensures
        sh_insert(shape_of(t), k, v) == shape_of(t),
{
    lemma_overwrite_in_place(t, k, v);
    lemma_replace_same(t, k);
}

/// Removing a key that a valid tree does not hold leaves it identical.
pub proof fn lemma_remove_absent(t: Option<Box<AVLNode>>, k: Seq<char>)
    requires
        is_avl(t),
        !map_of(t).contains_key(key_bytes(k)),
    ensures
        sh_remove(shape_of(t), k) == shape_of(t),
    decreases t,
{
    if t is Some {
        let n = t.unwrap();
        lemma_shape(t);
        lemma_shape(n.left);
        lemma_shape(n.right);
        lemma_node_keys(t);
        lemma_avl_stored(n.left);
        lemma_avl_stored(n.right);
        let kb = key_bytes(k);
        let nk = key_bytes(n.key@);
        assert(kb != nk);
        if bytes_lt(kb, nk) {
            lemma_remove_absent(n.left, k);
            assert(sh_rebalance(n.key@, n.value@, shape_of(n.left), shape_of(n.right)) == sh_node(
                n.key@,
                n.value@,
                shape_of(n.left),
                shape_of(n.right),
            ));
        } else {
            lemma_remove_absent(n.right, k);
            assert(sh_rebalance(n.key@, n.value@, shape_of(n.left), shape_of(n.right)) == sh_node(
                n.key@,
                n.value@,
                shape_of(n.left),
                shape_of(n.right),
            ));
        }
    }
}

impl AVLTree {
    /// A valid memtable: a valid tree whose node count is recorded.
    pub open spec fn wf(&self) -> bool {
        &&& is_avl(self.root)
        &&& self.count as nat == size_of(self.root)
    }

    /// An empty memtable.
    pub fn new() -> (r: AVLTree)
        ensures
            r.wf(),
            r@ == Map::<Seq<u8>, Seq<char>>::empty(),
            r.root is None,
    {
        AVLTree { root: None, count: 0 }
    }

    /// Drops every entry.
    pub fn clear(&mut self)
        ensures
            final(self).wf(),
            final(self)@ == Map::<Seq<u8>, Seq<char>>::empty(),
            final(self).root is None,
    {
        self.root = None;
        self.count = 0;
    }

    /// The number of entries.
    pub fn len(&self) -> (r: usize)
        requires
            self.wf(),
        ensures
            r as nat == size_of(self.root),
    {
        self.count
    }

    /// The entries in ascending key order.
    pub fn in_order(&self) -> (r: Vec<(String, String)>)
        requires
            self.wf(),
        ensures
            pairs_view(r@) == entries_of(self.root),
            r@.len() == size_of(self.root),
            keys_ascending(pairs_view(r@)),
            lists_map(pairs_view(r@), self@),
    {
        let mut out: Vec<(String, String)> = Vec::new();
        collect_in_order(&self.root, &mut out);
        proof {
            assert(pairs_view(out@) =~= entries_of(self.root));
            lemma_entries(self.root);
        }
        out
    }

    /// Estimated memory held by the entries, capped at `usize::MAX`.
    pub fn footprint(&self) -> (r: usize)
        ensures
            r as nat == capped(footprint_of(self.root)),
    {
        calculate_size(&self.root)
    }

    /// Whether the memtable has outgrown `threshold` bytes and is due to be
    /// written out.
    pub fn flush_due(&self, threshold: usize) -> (r: bool)
        ensures
            r == (capped(footprint_of(self.root)) > threshold),
    {
        self.footprint() > threshold
    }

    /// The node that holds `key`, if any.
    pub fn get(&self, key: &str) -> (r: Option<&AVLNode>)
        requires
            self.wf(),
        ensures
            r is Some <==> self@.contains_key(key_bytes(key@)),
            r is Some ==> key_bytes(r.unwrap().key@) == key_bytes(key@),
            r is Some ==> r.unwrap().value@ == self@[key_bytes(key@)],
    {
        let kb = key.as_bytes();
        let mut cur: &Option<Box<AVLNode>> = &self.root;
        loop
            invariant
                is_avl(*cur),
                kb@ == key_bytes(key@),
                map_of(*cur).contains_key(kb@) == map_of(self.root).contains_key(kb@),
                map_of(*cur).contains_key(kb@) ==> map_of(*cur)[kb@] == map_of(self.root)[kb@],
            decreases height_of(*cur),
        {
            match cur {
                None => {
                    return None;
                },
                Some(n) => {
                    proof {
                        lemma_node_keys(*cur);
                        assert(ordered_at(**n));
                    }
                    match compare_bytes(kb, n.key.as_str().as_bytes()) {
                        Ordering::Equal => {
                            let node: &AVLNode = n;
                            return Some(node);
                        },
                        Ordering::Less => {
                            proof {
                                assert(!map_of(n.right).contains_key(kb@));
                            }
                            cur = &n.left;
                        },
                        Ordering::Greater => {
                            proof {
                                assert(!map_of(n.left).contains_key(kb@));
                            }
                            cur = &n.right;
                        },
                    }
                },
            }
        }
    }

    /// Removes `key` if present.
    pub fn unset(&mut self, key: &str)
        requires
            old(self).wf(),
        ensures
            final(self).wf(),
            is_avl(final(self).root),
            final(self)@ == old(self)@.remove(key_bytes(key@)),
            shape_of(final(self).root) == sh_remove(shape_of(old(self).root), key@),
            size_of(final(self).root) + (if old(self)@.contains_key(key_bytes(key@)) {
                1nat
            } else {
                0nat
            }) == size_of(old(self).root),
    {
        proof {
            lemma_height_small(self.root);
        }
        let had = self.get(key).is_some();
        self.root = Self::remove(self.root.take(), key);
        if had {
            self.count = self.count - 1;
        }
    }

    /// Inserts `key` with `value`, or overwrites the value of `key`.
    pub fn set(&mut self, key: &str, value: &str)
        requires
            old(self).wf(),
            size_of(old(self).root) < usize::MAX,
        ensures
            final(self).wf(),
            is_avl(final(self).root),
            final(self)@ == old(self)@.insert(key_bytes(key@), value@),
            shape_of(final(self).root) == sh_insert(shape_of(old(self).root), key@, value@),
            size_of(final(self).root) == size_of(old(self).root) + (if old(self)@.contains_key(
                key_bytes(key@),
            ) {
                0nat
            } else {
                1nat
            }),
    {
        proof {
            lemma_height_small(self.root);
        }
        let had = self.get(key).is_some();
        self.root = Self::insert(self.root.take(), key, value);
        if !had {
            self.count = self.count + 1;
        }
    }

    fn get_height(node: &Option<Box<AVLNode>>) -> (r: i32)
        ensures
            r as int == stored_height(*node),
    {
        match node {
            None => 0,
            Some(n) => n.height,
        }
    }

    fn get_balance(node: &Option<Box<AVLNode>>) -> (r: i32)
        requires
            node is Some ==> 0 <= stored_height(node.unwrap().left) < i32::MAX,
            node is Some ==> 0 <= stored_height(node.unwrap().right) < i32::MAX,
        ensures
            r as int == match node {
                None => 0,
                Some(n) => stored_height(n.left) - stored_height(n.right),
            },
    {
        match node {
            None => 0,
            Some(n) => Self::get_height(&n.left) - Self::get_height(&n.right),
        }
    }

    fn update_height(node: &mut Box<AVLNode>)
        requires
            0 <= stored_height(old(node).left) < i32::MAX,
            0 <= stored_height(old(node).right) < i32::MAX,
        ensures
            final(node).left == old(node).left,
            final(node).right == old(node).right,
            final(node).key == old(node).key,
            final(node).value == old(node).value,
            final(node).height as int == 1 + if stored_height(old(node).left) >= stored_height(
                old(node).right,
            ) {
                stored_height(old(node).left)
            } else {
                stored_height(old(node).right)
            },
    {
        let hl = Self::get_height(&node.left);
        let hr = Self::get_height(&node.right);
        node.height = 1 + if hl >= hr {
            hl
        } else {
            hr
        };
    }

    fn right_rotate(node: Box<AVLNode>) -> (r: Box<AVLNode>)
        requires
            node.left is Some,
            0 <= stored_height(node.right) < i32::MAX - 1,
            0 <= stored_height(node.left.unwrap().left) < i32::MAX - 1,
            0 <= stored_height(node.left.unwrap().right) < i32::MAX - 1,
        ensures
            shape_of(Some(r)) == sh_rotate_right(shape_of(Some(node))),
            ({
                let l = node.left.unwrap();
                &&& r.key == l.key
                &&& r.value == l.value
                &&& r.left == l.left
                &&& r.right is Some
                &&& r.right.unwrap().key == node.key
                &&& r.right.unwrap().value == node.value
                &&& r.right.unwrap().left == l.right
                &&& r.right.unwrap().right == node.right
                &&& r.right.unwrap().height as int == 1 + if stored_height(l.right)
                    >= stored_height(node.right) {
                    stored_height(l.right)
                } else {
                    stored_height(node.right)
                }
                &&& r.height as int == 1 + if stored_height(l.left) >= r.right.unwrap().height {
                    stored_height(l.left)
                } else {
                    r.right.unwrap().height as int
                }
            }),
    {
        let ghost n0 = node;
        let ghost l0 = node.left.unwrap();
        let mut node = node;
        let mut new_main_node = node.left.take().unwrap();
        node.left = new_main_node.right.take();
        Self::update_height(&mut node);
        new_main_node.right = Some(node);
        Self::update_height(&mut new_main_node);
        proof {
            lemma_shape(Some(n0));
            lemma_shape(n0.left);
            lemma_shape(l0.left);
            lemma_shape(l0.right);
            lemma_shape(n0.right);
            lemma_shape(new_main_node.right);
            lemma_shape(Some(new_main_node));
        }
        new_main_node
    }

    fn left_rotate(node: Box<AVLNode>) -> (r: Box<AVLNode>)
        requires
            node.right is Some,
            0 <= stored_height(node.left) < i32::MAX - 1,
            0 <= stored_height(node.right.unwrap().left) < i32::MAX - 1,
            0 <= stored_height(node.right.unwrap().right) < i32::MAX - 1,
        ensures
            shape_of(Some(r)) == sh_rotate_left(shape_of(Some(node))),
            ({
                let rt = node.right.unwrap();
                &&& r.key == rt.key
                &&& r.value == rt.value
                &&& r.right == rt.right
                &&& r.left is Some
                &&& r.left.unwrap().key == node.key
                &&& r.left.unwrap().value == node.value
                &&& r.left.unwrap().right == rt.left
                &&& r.left.unwrap().left == node.left
                &&& r.left.unwrap().height as int == 1 + if stored_height(node.left)
                    >= stored_height(rt.left) {
                    stored_height(node.left)
                } else {
                    stored_height(rt.left)
                }
                &&& r.height as int == 1 + if r.left.unwrap().height >= stored_height(rt.right) {
                    r.left.unwrap().height as int
                } else {
                    stored_height(rt.right)
                }
            }),
    {
        let ghost n0 = node;
        let ghost r0 = node.right.unwrap();
        let mut node = node;
        let mut new_main_node = node.right.take().unwrap();
        node.right = new_main_node.left.take();
        Self::update_height(&mut node);
        new_main_node.left = Some(node);
        Self::update_height(&mut new_main_node);
        proof {
            lemma_shape(Some(n0));
            lemma_shape(n0.right);
            lemma_shape(r0.left);
            lemma_shape(r0.right);
            lemma_shape(n0.left);
            lemma_shape(new_main_node.left);
            lemma_shape(Some(new_main_node));
        }
        new_main_node
    }

    fn insert(node: Option<Box<AVLNode>>, key: &str, value: &str) -> (r: Option<Box<AVLNode>>)
        requires
            is_avl(node),
            height_of(node) + 4 < i32::MAX,
        ensures
            r is Some,
            is_avl(r),
            shape_of(r) == sh_insert(shape_of(node), key@, value@),
            map_of(r) == map_of(node).insert(key_bytes(key@), value@),
            height_of(node) <= height_of(r) <= height_of(node) + 1,
            size_of(r) == size_of(node) + if map_of(node).contains_key(key_bytes(key@)) {
                0nat
            } else {
                1nat
            },
        decreases node,
    {
        match node {
            Some(mut n) => {
                let ghost old_n = n;
                proof {
                    lemma_node_keys(Some(n));
                }
                match compare_bytes(key.as_bytes(), n.key.as_str().as_bytes()) {
                    Ordering::Less => {
                        n.left = Self::insert(n.left.take(), key, value);
                        proof {
                            lemma_node_keys(n.left);
                            lemma_node_keys(old_n.left);
                            assert(ordered_at(*old_n));
                            assert(!map_of(old_n.right).contains_key(key_bytes(key@)));
                            assert(ordered_at(*n));
                            assert(map_of(Some(n)) =~= map_of(node).insert(key_bytes(key@), value@));
                        }
                    },
                    Ordering::Greater => {
                        n.right = Self::insert(n.right.take(), key, value);
                        proof {
                            lemma_node_keys(n.right);
                            lemma_node_keys(old_n.right);
                            assert(ordered_at(*old_n));
                            assert(!map_of(old_n.left).contains_key(key_bytes(key@)));
                            assert(ordered_at(*n));
                            assert(map_of(Some(n)) =~= map_of(node).insert(key_bytes(key@), value@));
                        }
                    },
                    Ordering::Equal => {
                        n.value = value.to_owned();
                        proof {
                            assert(ordered_at(*n));
                            assert(map_of(Some(n)) =~= map_of(node).insert(key_bytes(key@), value@));
                        }
                        return Some(n);
                    },
                }
                Some(Self::balance(n))
            },
            None => {
                let r = Box::new(AVLNode::new(key, value, None, None));
                proof {
                    assert(map_of(Some(r)) =~= map_of(node).insert(key_bytes(key@), value@));
                }
                Some(r)
            },
        }
    }

    /// Detaches the node with the largest key of a non-empty subtree,
    /// returning the rebalanced rest and that node.
    fn get_largest_node(node: Box<AVLNode>) -> (r: (Option<Box<AVLNode>>, Box<AVLNode>))
        requires
            is_avl(Some(node)),
            height_of(Some(node)) + 4 < i32::MAX,
        ensures
            is_avl(r.0),
            (shape_of(r.0), r.1.key@, r.1.value@) == sh_remove_max(shape_of(Some(node))),
            r.1.left is None,
            r.1.right is None,
            map_of(Some(node)).contains_key(key_bytes(r.1.key@)),
            map_of(Some(node))[key_bytes(r.1.key@)] == r.1.value@,
            map_of(r.0) == map_of(Some(node)).remove(key_bytes(r.1.key@)),
            forall|k: Seq<u8>| #[trigger]
                map_of(r.0).contains_key(k) ==> bytes_lt(k, key_bytes(r.1.key@)),
            height_of(Some(node)) <= height_of(r.0) + 1,
            height_of(r.0) <= height_of(Some(node)),
            size_of(r.0) + 1 == size_of(Some(node)),
        decreases node,
    {
        let ghost old_node = node;
        let mut node = node;
        proof {
            lemma_node_keys(Some(node));
        }
        if node.right.is_none() {
            let left = node.left.take();
            proof {
                lemma_shape(Some(old_node));
                lemma_shape(old_node.right);
                assert(ordered_at(*old_node));
                lemma_node_keys(old_node.right);
                assert(map_of(left) =~= map_of(Some(old_node)).remove(key_bytes(node.key@)));
            }
            return (left, node);
        }
        let right = node.right.take().unwrap();
        let (rest, largest) = Self::get_largest_node(right);
        node.right = rest;
        proof {
            lemma_node_keys(Some(right));
            lemma_node_keys(node.right);
            assert(ordered_at(*node));
            assert(ordered_at(*old_node));
            assert(map_of(Some(right)).contains_key(key_bytes(largest.key@)));
            assert(bytes_lt(key_bytes(node.key@), key_bytes(largest.key@)));
            assert(!map_of(node.left).contains_key(key_bytes(largest.key@))) by {
                if map_of(node.left).contains_key(key_bytes(largest.key@)) {
                    assert(bytes_lt(key_bytes(largest.key@), key_bytes(node.key@)));
                }
            }
            assert(map_of(Some(node)) =~= map_of(Some(old_node)).remove(key_bytes(largest.key@)));
        }
        let r = Self::balance(node);
        (Some(r), largest)
    }

    /// Removes the root of a non-empty subtree: a missing child promotes the
    /// other, else the largest node of the left subtree takes the root's
    /// place and children.
    fn remove_root(n: Box<AVLNode>) -> (r: Option<Box<AVLNode>>)
        requires
            is_avl(Some(n)),
            height_of(Some(n)) + 4 < i32::MAX,
        ensures
            is_avl(r),
            shape_of(r) == sh_remove_root(shape_of(Some(n))),
            map_of(r) == map_of(Some(n)).remove(key_bytes(n.key@)),
            height_of(Some(n)) <= height_of(r) + 1,
            height_of(r) <= height_of(Some(n)),
            size_of(r) + 1 == size_of(Some(n)),
    {
        let ghost old_n = n;
        let mut n = n;
        proof {
            lemma_node_keys(Some(n));
            assert(ordered_at(*n));
            assert(!map_of(n.left).contains_key(key_bytes(n.key@)));
            assert(!map_of(n.right).contains_key(key_bytes(n.key@)));
        }
        if n.right.is_none() {
            let left = n.left.take();
            proof {
                lemma_shape(Some(old_n));
                lemma_shape(old_n.right);
                lemma_node_keys(old_n.right);
                assert(map_of(left) =~= map_of(Some(old_n)).remove(key_bytes(old_n.key@)));
            }
            return left;
        } else if n.left.is_none() {
            let right = n.right.take();
            proof {
                lemma_node_keys(old_n.left);
                assert(map_of(right) =~= map_of(Some(old_n)).remove(key_bytes(old_n.key@)));
            }
            return right;
        }
        let left = n.left.take().unwrap();
        let (rest, mut largest) = Self::get_largest_node(left);
        proof {
            lemma_node_keys(Some(left));
        }
        largest.left = rest;
        largest.right = n.right.take();
        proof {
            assert(ordered_at(*largest));
            assert(map_of(Some(largest)) =~= map_of(Some(old_n)).remove(key_bytes(old_n.key@)));
        }
        Some(Self::balance(largest))
    }

    fn remove(node: Option<Box<AVLNode>>, key: &str) -> (r: Option<Box<AVLNode>>)
        requires
            is_avl(node),
            height_of(node) + 4 < i32::MAX,
        ensures
            is_avl(r),
            shape_of(r) == sh_remove(shape_of(node), key@),
            map_of(r) == map_of(node).remove(key_bytes(key@)),
            height_of(node) <= height_of(r) + 1,
            height_of(r) <= height_of(node),
            size_of(r) + (if map_of(node).contains_key(key_bytes(key@)) {
                1nat
            } else {
                0nat
            }) == size_of(node),
        decreases node,
    {
        match node {
            Some(mut n) => {
                let ghost old_n = n;
                proof {
                    lemma_node_keys(Some(n));
                }
                match compare_bytes(key.as_bytes(), n.key.as_str().as_bytes()) {
                    Ordering::Less => {
                        n.left = Self::remove(n.left.take(), key);
                        proof {
                            lemma_node_keys(old_n.left);
                            assert(ordered_at(*old_n));
                            assert(!map_of(old_n.right).contains_key(key_bytes(key@)));
                            assert(ordered_at(*n));
                            assert(map_of(Some(n)) =~= map_of(node).remove(key_bytes(key@)));
                        }
                    },
                    Ordering::Greater => {
                        n.right = Self::remove(n.right.take(), key);
                        proof {
                            lemma_node_keys(old_n.right);
                            assert(ordered_at(*old_n));
                            assert(!map_of(old_n.left).contains_key(key_bytes(key@)));
                            assert(ordered_at(*n));
                            assert(map_of(Some(n)) =~= map_of(node).remove(key_bytes(key@)));
                        }
                    },
                    Ordering::Equal => {
                        return Self::remove_root(n);
                    },
                }
                let r = Self::balance(n);
                proof {
                    assert(map_of(Some(n)) =~= map_of(node).remove(key_bytes(key@)));
                }
                Some(r)
            },
            None => {
                proof {
                    assert(map_of(node) =~= map_of(node).remove(key_bytes(key@)));
                }
                None
            },
        }
    }

    /// Restores balance at a node whose children are valid subtrees with
    /// heights at most two apart.
    fn balance(node: Box<AVLNode>) -> (r: Box<AVLNode>)
        requires
            is_avl(node.left),
            is_avl(node.right),
            ordered_at(*node),
            height_of(node.left) <= height_of(node.right) + 2,
            height_of(node.right) <= height_of(node.left) + 2,
            height_of(node.left) + 3 < i32::MAX,
            height_of(node.right) + 3 < i32::MAX,
        ensures
            is_avl(Some(r)),
            shape_of(Some(r)) == sh_rebalance(
                node.key@,
                node.value@,
                shape_of(node.left),
                shape_of(node.right),
            ),
            height_of(node.left) <= height_of(node.right) + 1 && height_of(node.right)
                <= height_of(node.left) + 1 ==> shape_of(Some(r)) == sh_node(
                node.key@,
                node.value@,
                shape_of(node.left),
                shape_of(node.right),
            ),
            map_of(Some(r)) == map_of(Some(node)),
            size_of(Some(r)) == size_of(Some(node)),
            max_nat(height_of(node.left), height_of(node.right)) <= height_of(Some(r)),
            height_of(Some(r)) <= 1 + max_nat(height_of(node.left), height_of(node.right)),
            height_of(node.left) <= height_of(node.right) + 1 && height_of(node.right)
                <= height_of(node.left) + 1 ==> height_of(Some(r)) == 1 + max_nat(
                height_of(node.left),
                height_of(node.right),
            ),
    {
        let ghost old_node = *node;
        let mut node = node;
        proof {
            lemma_avl_stored(node.left);
            lemma_avl_stored(node.right);
        }
        Self::update_height(&mut node);
        let ghost k = old_node.key@;
        let ghost v = old_node.value@;
        let ghost sl = shape_of(old_node.left);
        let ghost sr = shape_of(old_node.right);
        let ghost nu = node;
        proof {
            lemma_shape(Some(nu));
            lemma_shape(old_node.left);
            lemma_shape(old_node.right);
            assert(shape_of(Some(nu)) == sh_node(k, v, sl, sr));
        }
        let balance = Self::get_height(&node.left) - Self::get_height(&node.right);
        if balance > 1 {
            let ghost l = node.left.unwrap();
            proof {
                lemma_avl_stored(l.left);
                lemma_avl_stored(l.right);
            }
            if Self::get_balance(&node.left) >= 0 {
                let r = Self::right_rotate(node);
                proof {
                    lemma_right_rotated(old_node, *r);
                    assert(shape_of(Some(r)) == sh_rebalance(k, v, sl, sr));
                }
                return r;
            } else {
                let ghost lr = l.right.unwrap();
                proof {
                    assert(is_avl(l.right));
                    lemma_avl_stored(lr.left);
                    lemma_avl_stored(lr.right);
                }
                let left = node.left.take().unwrap();
                let rotated = Self::left_rotate(left);
                node.left = Some(rotated);
                let ghost nm = node;
                let r = Self::right_rotate(node);
                proof {
                    lemma_left_right_rotated(old_node, *r);
                    lemma_shape(Some(nm));
                    assert(shape_of(Some(rotated)) == sh_rotate_left(sl));
                    assert(shape_of(Some(r)) == sh_rotate_right(sh_node(k, v, sh_rotate_left(sl), sr)));
                }
                return r;
            }
        }
        if balance < -1 {
            let ghost rt = node.right.unwrap();
            proof {
                lemma_avl_stored(rt.left);
                lemma_avl_stored(rt.right);
            }
            if Self::get_balance(&node.right) <= 0 {
                let r = Self::left_rotate(node);
                proof {
                    lemma_left_rotated(old_node, *r);
                    assert(shape_of(Some(r)) == sh_rebalance(k, v, sl, sr));
                }
                return r;
            } else {
                let ghost rl = rt.left.unwrap();
                proof {
                    assert(is_avl(rt.left));
                    lemma_avl_stored(rl.left);
                    lemma_avl_stored(rl.right);
                }
                let right = node.right.take().unwrap();
                let rotated = Self::right_rotate(right);
                node.right = Some(rotated);
                let ghost nm = node;
                let r = Self::left_rotate(node);
                proof {
                    lemma_right_left_rotated(old_node, *r);
                    lemma_shape(Some(nm));
                    assert(shape_of(Some(rotated)) == sh_rotate_right(sr));
                    assert(shape_of(Some(r)) == sh_rotate_left(sh_node(k, v, sl, sh_rotate_right(sr))));
                }
                return r;
            }
        }
        node
    }
}

/// A single right rotation of a left-heavy node whose left child leans
/// left or not at all yields a valid subtree with the same contents.
proof fn lemma_right_rotated(n: AVLNode, r: AVLNode)
    requires
        is_avl(n.left),
        is_avl(n.right),
        ordered_at(n),
        n.left is Some,
        height_of(n.left) == height_of(n.right) + 2,
        height_of(n.left.unwrap().left) >= height_of(n.left.unwrap().right),
        r.key == n.left.unwrap().key,
        r.value == n.left.unwrap().value,
        r.left == n.left.unwrap().left,
        r.right is Some,
        r.right.unwrap().key == n.key,
        r.right.unwrap().value == n.value,
        r.right.unwrap().left == n.left.unwrap().right,
        r.right.unwrap().right == n.right,
        r.right.unwrap().height as int == 1 + max_nat(height_of(n.left.unwrap().right), height_of(n.right)),
        r.height as int == 1 + max_nat(height_of(n.left.unwrap().left), height_of(r.right)),
    ensures
        is_avl(Some(Box::new(r))),
        map_of(Some(Box::new(r))) == map_of(Some(Box::new(n))),
        size_of(Some(Box::new(r))) == size_of(Some(Box::new(n))),
        height_of(n.left) <= height_of(Some(Box::new(r))) <= 1 + height_of(n.left),
{
    let l = n.left.unwrap();
    let m = r.right.unwrap();
    lemma_node_keys(n.left);
    lemma_node_keys(r.right);
    lemma_node_keys(Some(Box::new(n)));
    lemma_node_keys(Some(Box::new(r)));
    assert(is_avl(l.left) && is_avl(l.right) && ordered_at(*l));
    assert(map_of(n.left) == map_of(l.left).union_prefer_right(map_of(l.right)).insert(key_bytes(l.key@), l.value@));
    assert(map_of(r.right) == map_of(m.left).union_prefer_right(map_of(m.right)).insert(key_bytes(m.key@), m.value@));
    assert(map_of(n.left).contains_key(key_bytes(l.key@)));
    assert(ordered_at(*m));
    assert(is_avl(r.right));
    assert(ordered_at(r));
    assert(map_of(Some(Box::new(r))) =~= map_of(Some(Box::new(n))));
}


/// A single left rotation of a right-heavy node whose right child leans
/// right or not at all yields a valid subtree with the same contents.
proof fn lemma_left_rotated(n: AVLNode, r: AVLNode)
    requires
        is_avl(n.left),
        is_avl(n.right),
        ordered_at(n),
        n.right is Some,
        height_of(n.right) == height_of(n.left) + 2,
        height_of(n.right.unwrap().right) >= height_of(n.right.unwrap().left),
        r.key == n.right.unwrap().key,
        r.value == n.right.unwrap().value,
        r.right == n.right.unwrap().right,
        r.left is Some,
        r.left.unwrap().key == n.key,
        r.left.unwrap().value == n.value,
        r.left.unwrap().right == n.right.unwrap().left,
        r.left.unwrap().left == n.left,
        r.left.unwrap().height as int == 1 + max_nat(height_of(n.left), height_of(n.right.unwrap().left)),
        r.height as int == 1 + max_nat(height_of(r.left), height_of(n.right.unwrap().right)),
    ensures
        is_avl(Some(Box::new(r))),
        map_of(Some(Box::new(r))) == map_of(Some(Box::new(n))),
        size_of(Some(Box::new(r))) == size_of(Some(Box::new(n))),
        height_of(n.right) <= height_of(Some(Box::new(r))) <= 1 + height_of(n.right),
{
    let rt = n.right.unwrap();
    let m = r.left.unwrap();
    lemma_node_keys(n.right);
    lemma_node_keys(r.left);
    lemma_node_keys(Some(Box::new(n)));
    lemma_node_keys(Some(Box::new(r)));
    assert(is_avl(rt.left) && is_avl(rt.right) && ordered_at(*rt));
    assert(map_of(n.right) == map_of(rt.left).union_prefer_right(map_of(rt.right)).insert(key_bytes(rt.key@), rt.value@));
    assert(map_of(r.left) == map_of(m.left).union_prefer_right(map_of(m.right)).insert(key_bytes(m.key@), m.value@));
    assert(map_of(n.right).contains_key(key_bytes(rt.key@)));
    assert(ordered_at(*m));
    assert(is_avl(r.left));
    assert(ordered_at(r));
    assert(map_of(Some(Box::new(r))) =~= map_of(Some(Box::new(n))));
}

/// A left rotation of the left child followed by a right rotation, on a
/// left-heavy node whose left child leans right, yields a valid subtree with
/// the same contents and the height of the left child.
proof fn lemma_left_right_rotated(n: AVLNode, r: AVLNode)
    requires
        is_avl(n.left),
        is_avl(n.right),
        ordered_at(n),
        n.left is Some,
        n.left.unwrap().right is Some,
        height_of(n.left) == height_of(n.right) + 2,
        height_of(n.left.unwrap().left) < height_of(n.left.unwrap().right),
        r.key == n.left.unwrap().right.unwrap().key,
        r.value == n.left.unwrap().right.unwrap().value,
        r.left is Some,
        r.left.unwrap().key == n.left.unwrap().key,
        r.left.unwrap().value == n.left.unwrap().value,
        r.left.unwrap().left == n.left.unwrap().left,
        r.left.unwrap().right == n.left.unwrap().right.unwrap().left,
        r.left.unwrap().height as int == 1 + max_nat(
            height_of(n.left.unwrap().left),
            height_of(n.left.unwrap().right.unwrap().left),
        ),
        r.right is Some,
        r.right.unwrap().key == n.key,
        r.right.unwrap().value == n.value,
        r.right.unwrap().left == n.left.unwrap().right.unwrap().right,
        r.right.unwrap().right == n.right,
        r.right.unwrap().height as int == 1 + max_nat(
            height_of(n.left.unwrap().right.unwrap().right),
            height_of(n.right),
        ),
        r.height as int == 1 + max_nat(height_of(r.left), height_of(r.right)),
    ensures
        is_avl(Some(Box::new(r))),
        map_of(Some(Box::new(r))) == map_of(Some(Box::new(n))),
        size_of(Some(Box::new(r))) == size_of(Some(Box::new(n))),
        height_of(Some(Box::new(r))) == height_of(n.left),
{
    let l = n.left.unwrap();
    let x = l.right.unwrap();
    let a = r.left.unwrap();
    let b = r.right.unwrap();
    lemma_node_keys(n.left);
    lemma_node_keys(l.right);
    lemma_node_keys(r.left);
    lemma_node_keys(r.right);
    lemma_node_keys(Some(Box::new(n)));
    lemma_node_keys(Some(Box::new(r)));
    assert(is_avl(l.left) && is_avl(l.right) && ordered_at(*l));
    assert(is_avl(x.left) && is_avl(x.right) && ordered_at(*x));
    assert(map_of(n.left) == map_of(l.left).union_prefer_right(map_of(l.right)).insert(key_bytes(l.key@), l.value@));
    assert(map_of(l.right) == map_of(x.left).union_prefer_right(map_of(x.right)).insert(key_bytes(x.key@), x.value@));
    assert(map_of(r.left) == map_of(a.left).union_prefer_right(map_of(a.right)).insert(key_bytes(a.key@), a.value@));
    assert(map_of(r.right) == map_of(b.left).union_prefer_right(map_of(b.right)).insert(key_bytes(b.key@), b.value@));
    assert(map_of(n.left).contains_key(key_bytes(l.key@)));
    assert(map_of(l.right).contains_key(key_bytes(x.key@)));
    assert(ordered_at(*a));
    assert(ordered_at(*b));
    assert(is_avl(r.left));
    assert(is_avl(r.right));
    assert(ordered_at(r));
    assert(map_of(Some(Box::new(r))) =~= map_of(Some(Box::new(n))));
}

/// A right rotation of the right child followed by a left rotation, on a
/// right-heavy node whose right child leans left, yields a valid subtree
/// with the same contents and the height of the right child.
proof fn lemma_right_left_rotated(n: AVLNode, r: AVLNode)
    requires
        is_avl(n.left),
        is_avl(n.right),
        ordered_at(n),
        n.right is Some,
        n.right.unwrap().left is Some,
        height_of(n.right) == height_of(n.left) + 2,
        height_of(n.right.unwrap().right) < height_of(n.right.unwrap().left),
        r.key == n.right.unwrap().left.unwrap().key,
        r.value == n.right.unwrap().left.unwrap().value,
        r.left is Some,
        r.left.unwrap().key == n.key,
        r.left.unwrap().value == n.value,
        r.left.unwrap().left == n.left,
        r.left.unwrap().right == n.right.unwrap().left.unwrap().left,
        r.left.unwrap().height as int == 1 + max_nat(
            height_of(n.left),
            height_of(n.right.unwrap().left.unwrap().left),
        ),
        r.right is Some,
        r.right.unwrap().key == n.right.unwrap().key,
        r.right.unwrap().value == n.right.unwrap().value,
        r.right.unwrap().left == n.right.unwrap().left.unwrap().right,
        r.right.unwrap().right == n.right.unwrap().right,
        r.right.unwrap().height as int == 1 + max_nat(
            height_of(n.right.unwrap().left.unwrap().right),
            height_of(n.right.unwrap().right),
        ),
        r.height as int == 1 + max_nat(height_of(r.left), height_of(r.right)),
    ensures
        is_avl(Some(Box::new(r))),
        map_of(Some(Box::new(r))) == map_of(Some(Box::new(n))),
        size_of(Some(Box::new(r))) == size_of(Some(Box::new(n))),
        height_of(Some(Box::new(r))) == height_of(n.right),
{
    let rt = n.right.unwrap();
    let x = rt.left.unwrap();
    let a = r.left.unwrap();
    let b = r.right.unwrap();
    lemma_node_keys(n.right);
    lemma_node_keys(rt.left);
    lemma_node_keys(r.left);
    lemma_node_keys(r.right);
    lemma_node_keys(Some(Box::new(n)));
    lemma_node_keys(Some(Box::new(r)));
    assert(is_avl(rt.left) && is_avl(rt.right) && ordered_at(*rt));
    assert(is_avl(x.left) && is_avl(x.right) && ordered_at(*x));
    assert(map_of(n.right) == map_of(rt.left).union_prefer_right(map_of(rt.right)).insert(key_bytes(rt.key@), rt.value@));
    assert(map_of(rt.left) == map_of(x.left).union_prefer_right(map_of(x.right)).insert(key_bytes(x.key@), x.value@));
    assert(map_of(r.left) == map_of(a.left).union_prefer_right(map_of(a.right)).insert(key_bytes(a.key@), a.value@));
    assert(map_of(r.right) == map_of(b.left).union_prefer_right(map_of(b.right)).insert(key_bytes(b.key@), b.value@));
    assert(map_of(n.right).contains_key(key_bytes(rt.key@)));
    assert(map_of(rt.left).contains_key(key_bytes(x.key@)));
    assert(ordered_at(*a));
    assert(ordered_at(*b));
    assert(is_avl(r.left));
    assert(is_avl(r.right));
    assert(ordered_at(r));
    assert(map_of(Some(Box::new(r))) =~= map_of(Some(Box::new(n))));
}

} // verus!

verus! {

/// `std::sync::RwLock` is carried opaquely: the memtable is shared behind it.
#[verifier::external_type_specification]
#[verifier::external_body]
#[verifier::reject_recursive_types(T)]
pub struct ExRwLock<T: ?Sized>(std::sync::RwLock<T>);

/// Relies on `RwLock::new`: wraps a value in an unlocked lock.
pub assume_specification<T>[ std::sync::RwLock::<T>::new ](t: T) -> std::sync::RwLock<T>;

/// The process-wide memtable, behind a readers/writer lock.
pub struct AVLTreeSingleton {
    instance: std::sync::RwLock<AVLTree>,
}

impl AVLTreeSingleton {
    /// A lock holding an empty memtable.
    pub fn new() -> AVLTreeSingleton {
        AVLTreeSingleton { instance: std::sync::RwLock::new(AVLTree::new()) }
    }

    /// The lock that guards the memtable.
    pub fn get_instance(&self) -> &std::sync::RwLock<AVLTree> {
        &self.instance
    }
}

} // verus!
