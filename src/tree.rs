use vstd::prelude::*;
use crate::error::StoreError;
use crate::json::{
    Json, JValue, lemma_model_of_entries, lemma_model_of_items, model_of, model_of_entries,
    model_of_items,
};
use crate::relational::{cell_matches, cutoff, encode, strings_model};
use crate::store::value_holds;

verus! {

/// A node of the path-addressed tree. A node is a leaf iff it holds a
/// value; an internal node's children stand for object keys or array
/// positions.
pub struct Node {
    pub key: String,
    pub value: Option<Json>,
    pub parent: Option<usize>,
    pub timestamp: i64,
}

pub struct NodeV {
    pub key: Seq<char>,
    pub value: Option<JValue>,
    pub parent: Option<int>,
    pub timestamp: int,
}

impl View for Node {
    type V = NodeV;

    open spec fn view(&self) -> NodeV {
        NodeV {
            key: self.key@,
            value: match self.value {
                Some(v) => Some(v@),
                None => None,
            },
            parent: match self.parent {
                Some(p) => Some(p as int),
                None => None,
            },
            timestamp: self.timestamp as int,
        }
    }
}

pub open spec fn nodes_model(v: Seq<Node>) -> Seq<NodeV> {
    Seq::new(v.len(), |i: int| v[i]@)
}

/// Every parent stands before its children, so parent links never cycle.
pub open spec fn parents_first(nodes: Seq<NodeV>) -> bool {
    forall|i: int|
        0 <= i < nodes.len() ==> match #[trigger] nodes[i].parent {
            Some(p) => 0 <= p < i,
            None => true,
        }
}

/// The first node with that key under that parent (`None` for the root).
pub open spec fn find_child(nodes: Seq<NodeV>, parent: Option<int>, key: Seq<char>) -> Option<int>
    decreases nodes.len(),
{
    if nodes.len() == 0 {
        None
    } else {
        match find_child(nodes.drop_last(), parent, key) {
            Some(j) => Some(j),
            None => if nodes.last().parent == parent && nodes.last().key == key {
                Some(nodes.len() - 1)
            } else {
                None
            },
        }
    }
}

/// The non-empty segments of a `/`-delimited path, in order.
pub open spec fn segments(path: Seq<char>) -> Seq<Seq<char>>
    decreases path.len(),
{
    if path.len() == 0 {
        Seq::empty()
    } else {
        let before = segments(path.drop_last());
        let c = path.last();
        if c == '/' {
            before
        } else if path.len() >= 2 && path[path.len() - 2] != '/' {
            before.update(before.len() - 1, before.last().push(c))
        } else {
            before.push(seq![c])
        }
    }
}

pub open spec fn new_internal(key: Seq<char>, parent: Option<int>, now: int) -> NodeV {
    NodeV { key, value: None, parent, timestamp: now }
}

/// Walks `segs` down from `parent`, reusing the child with the segment's
/// key or creating it; yields the nodes and the node reached.
pub open spec fn resolve(
    nodes: Seq<NodeV>,
    parent: Option<int>,
    segs: Seq<Seq<char>>,
    now: int,
) -> (Seq<NodeV>, Option<int>)
    decreases segs.len(),
{
    if segs.len() == 0 {
        (nodes, parent)
    } else {
        match find_child(nodes, parent, segs[0]) {
            Some(j) => resolve(nodes, Some(j), segs.skip(1), now),
            None => resolve(
                nodes.push(new_internal(segs[0], parent, now)),
                Some(nodes.len() as int),
                segs.skip(1),
                now,
            ),
        }
    }
}

/// Walks `segs` down from `parent` without creating anything; `None` when
/// a segment has no matching child.
pub open spec fn locate(nodes: Seq<NodeV>, parent: Option<int>, segs: Seq<Seq<char>>) -> Option<
    Option<int>,
>
    decreases segs.len(),
{
    if segs.len() == 0 {
        Some(parent)
    } else {
        match find_child(nodes, parent, segs[0]) {
            Some(j) => locate(nodes, Some(j), segs.skip(1)),
            None => None,
        }
    }
}

/// The decimal digits of `n`.
pub open spec fn decimal(n: nat) -> Seq<char>
    decreases n,
{
    if n < 10 {
        seq![digit(n)]
    } else {
        decimal(n / 10).push(digit(n % 10))
    }
}

pub open spec fn digit(d: nat) -> char {
    if d == 0 {
        '0'
    } else if d == 1 {
        '1'
    } else if d == 2 {
        '2'
    } else if d == 3 {
        '3'
    } else if d == 4 {
        '4'
    } else if d == 5 {
        '5'
    } else if d == 6 {
        '6'
    } else if d == 7 {
        '7'
    } else if d == 8 {
        '8'
    } else {
        '9'
    }
}

pub open spec fn is_container(v: JValue) -> bool {
    v is Object || v is Array
}

/// The node that holds `v` under `key`: a leaf with the value for a
/// scalar, an internal node for an object or an array.
pub open spec fn node_for(key: Seq<char>, v: JValue, parent: Option<int>, now: int) -> NodeV {
    NodeV {
        key,
        value: if is_container(v) {
            None
        } else {
            Some(v)
        },
        parent,
        timestamp: now,
    }
}

/// The nodes after placing `n`: over the first child with its key when
/// overwriting and there is one, else as a new node. Yields its position.
pub open spec fn place(nodes: Seq<NodeV>, n: NodeV, overwrite: bool) -> (Seq<NodeV>, int) {
    match find_child(nodes, n.parent, n.key) {
        Some(j) => if overwrite {
            (nodes.update(j, n), j)
        } else {
            (nodes.push(n), nodes.len() as int)
        },
        None => (nodes.push(n), nodes.len() as int),
    }
}

/// The nodes after decomposing `v` under `key` below `parent`.
pub open spec fn put_value(
    nodes: Seq<NodeV>,
    parent: Option<int>,
    key: Seq<char>,
    v: JValue,
    overwrite: bool,
    now: int,
) -> Seq<NodeV>
    decreases v, 1int,
{
    let (placed, at) = place(nodes, node_for(key, v, parent, now), overwrite);
    match v {
        JValue::Object(entries) => put_entries(placed, Some(at), entries, overwrite, now),
        JValue::Array(items) => put_items(placed, Some(at), items, overwrite, now),
        _ => placed,
    }
}

/// The nodes after decomposing each entry, in order, below `parent`.
pub open spec fn put_entries(
    nodes: Seq<NodeV>,
    parent: Option<int>,
    entries: Seq<(Seq<char>, JValue)>,
    overwrite: bool,
    now: int,
) -> Seq<NodeV>
    decreases entries, 0int,
{
    if entries.len() == 0 {
        nodes
    } else {
        let before = put_entries(nodes, parent, entries.drop_last(), overwrite, now);
        put_value(before, parent, entries.last().0, entries.last().1, overwrite, now)
    }
}

/// The nodes after decomposing each element, keyed by its position, below `parent`.
pub open spec fn put_items(
    nodes: Seq<NodeV>,
    parent: Option<int>,
    items: Seq<JValue>,
    overwrite: bool,
    now: int,
) -> Seq<NodeV>
    decreases items, 0int,
{
    if items.len() == 0 {
        nodes
    } else {
        let before = put_items(nodes, parent, items.drop_last(), overwrite, now);
        put_value(
            before,
            parent,
            decimal((items.len() - 1) as nat),
            items.last(),
            overwrite,
            now,
        )
    }
}

// ---------------------------------------------------------------------------
// Paginated, depth-limited query.
// ---------------------------------------------------------------------------

/// What children are ordered by.
#[derive(Clone, Copy, Debug, PartialEq, Eq, Structural)]
pub enum SortKey {
    Key,
    Timestamp,
}

#[derive(Clone, Copy, Debug, PartialEq, Eq, Structural)]
pub enum SortOrder {
    Ascending,
    Descending,
}

/// Positions of the children of `parent` among the first `n` nodes, in node order.
pub open spec fn children_upto(nodes: Seq<NodeV>, parent: Option<int>, n: int) -> Seq<int>
    decreases n,
{
    if n <= 0 {
        Seq::empty()
    } else if nodes[n - 1].parent == parent {
        children_upto(nodes, parent, n - 1).push(n - 1)
    } else {
        children_upto(nodes, parent, n - 1)
    }
}

pub open spec fn children(nodes: Seq<NodeV>, parent: Option<int>) -> Seq<int> {
    children_upto(nodes, parent, nodes.len() as int)
}

/// Lexicographic order of keys, by code point.
pub open spec fn key_lt(a: Seq<char>, b: Seq<char>) -> bool
    decreases a.len(),
{
    if b.len() == 0 {
        false
    } else if a.len() == 0 {
        true
    } else if a[0] != b[0] {
        (a[0] as u32) < (b[0] as u32)
    } else {
        key_lt(a.skip(1), b.skip(1))
    }
}

pub open spec fn node_lt(a: NodeV, b: NodeV, by: SortKey) -> bool {
    match by {
        SortKey::Key => key_lt(a.key, b.key),
        SortKey::Timestamp => a.timestamp < b.timestamp,
    }
}

/// `s` with `x` inserted before the first element it orders strictly
/// before; equal elements keep their order.
pub open spec fn insert_sorted(nodes: Seq<NodeV>, s: Seq<int>, x: int, by: SortKey) -> Seq<int>
    decreases s.len(),
{
    if s.len() == 0 {
        seq![x]
    } else if node_lt(nodes[x], nodes[s[0]], by) {
        seq![x] + s
    } else {
        seq![s[0]] + insert_sorted(nodes, s.skip(1), x, by)
    }
}

/// A stable sort of node positions.
pub open spec fn sort_by(nodes: Seq<NodeV>, s: Seq<int>, by: SortKey) -> Seq<int>
    decreases s.len(),
{
    if s.len() == 0 {
        Seq::empty()
    } else {
        insert_sorted(nodes, sort_by(nodes, s.drop_last(), by), s.last(), by)
    }
}

pub open spec fn ordered(nodes: Seq<NodeV>, s: Seq<int>, by: SortKey, order: SortOrder) -> Seq<
    int,
> {
    match order {
        SortOrder::Ascending => sort_by(nodes, s, by),
        SortOrder::Descending => sort_by(nodes, s, by).reverse(),
    }
}

/// Page `page` (counted from 1; 0 reads as 1) of `size` elements.
pub open spec fn page_of(s: Seq<int>, page: nat, size: nat) -> Seq<int> {
    let start: int = if page == 0 {
        0
    } else {
        (page - 1) * size
    };
    if start >= s.len() {
        Seq::empty()
    } else if start + size >= s.len() {
        s.subrange(start, s.len() as int)
    } else {
        s.subrange(start, start + size)
    }
}

/// The marker an internal node is shown as once the depth budget is spent.
pub open spec fn placeholder() -> JValue {
    JValue::Str(seq!['.', '.', '.'])
}

pub open spec fn rank(p: Option<int>) -> int {
    match p {
        Some(i) => i + 1,
        None => 0,
    }
}

pub open spec fn height(nodes: Seq<NodeV>, p: Option<int>) -> nat {
    if rank(p) <= nodes.len() {
        (nodes.len() + 1 - rank(p)) as nat
    } else {
        0
    }
}

/// The children of `parent` as an object: ordered, paginated, leaves as
/// their value, internal nodes expanded while the depth budget (`None`
/// for no limit) exceeds one and shown as the placeholder after that.
pub open spec fn render(
    nodes: Seq<NodeV>,
    parent: Option<int>,
    page: nat,
    size: nat,
    depth: Option<nat>,
    by: SortKey,
    order: SortOrder,
) -> JValue
    decreases height(nodes, parent), 1int, 0int,
{
    JValue::Object(
        render_list(
            nodes,
            parent,
            page_of(ordered(nodes, children(nodes, parent), by, order), page, size),
            size,
            depth,
            by,
            order,
        ),
    )
}

/// The entries for the listed nodes; one that is not a child of `parent`
/// is skipped.
pub open spec fn render_list(
    nodes: Seq<NodeV>,
    parent: Option<int>,
    list: Seq<int>,
    size: nat,
    depth: Option<nat>,
    by: SortKey,
    order: SortOrder,
) -> Seq<(Seq<char>, JValue)>
    decreases height(nodes, parent), 0int, list.len(),
{
    if list.len() == 0 {
        Seq::empty()
    } else {
        let before = render_list(nodes, parent, list.drop_last(), size, depth, by, order);
        let j = list.last();
        if 0 <= j < nodes.len() && rank(parent) <= j && nodes[j].parent == parent {
            let shown = match nodes[j].value {
                Some(v) => v,
                None => match depth {
                    None => render(nodes, Some(j), 1, size, None, by, order),
                    Some(d) => if d > 1 {
                        render(nodes, Some(j), 1, size, Some((d - 1) as nat), by, order)
                    } else {
                        placeholder()
                    },
                },
            };
            before.push((nodes[j].key, shown))
        } else {
            before
        }
    }
}

// ---------------------------------------------------------------------------
// Attribute search.
// ---------------------------------------------------------------------------

/// A leaf under `key` whose value, compared by canonical text, is `value`.
pub open spec fn leaf_matches(n: NodeV, key: Seq<char>, value: Seq<char>) -> bool {
    n.key == key && match n.value {
        Some(v) => cell_matches(encode(v), value),
        None => false,
    }
}

/// The object around a node: every child of its parent, in write order,
/// fully expanded.
pub open spec fn surrounding(nodes: Seq<NodeV>, j: int) -> JValue {
    render(
        nodes,
        nodes[j].parent,
        1,
        nodes.len() as nat,
        None,
        SortKey::Timestamp,
        SortOrder::Ascending,
    )
}

/// The objects around the matching leaves among the first `n` nodes.
pub open spec fn tree_hits_upto(nodes: Seq<NodeV>, key: Seq<char>, value: Seq<char>, n: int) -> Seq<
    JValue,
>
    decreases n,
{
    if n <= 0 {
        Seq::empty()
    } else {
        let before = tree_hits_upto(nodes, key, value, n - 1);
        if leaf_matches(nodes[n - 1], key, value) {
            before.push(surrounding(nodes, n - 1))
        } else {
            before
        }
    }
}

// ---------------------------------------------------------------------------
// Retention.
// ---------------------------------------------------------------------------

/// Whether node `i` lies strictly below `root` (`None`: the whole tree).
pub open spec fn below(nodes: Seq<NodeV>, i: int, root: Option<int>) -> bool
    decreases i,
{
    if i < 0 || i >= nodes.len() {
        false
    } else {
        match root {
            None => true,
            Some(r) => match nodes[i].parent {
                None => false,
                Some(p) => p == r || (0 <= p < i && below(nodes, p, root)),
            },
        }
    }
}

/// Whether node `i` is kept by a sweep below `root` with cutoff `cut`: it
/// is not itself an old node below `root`, and its parent is kept.
pub open spec fn survives(nodes: Seq<NodeV>, i: int, root: Option<int>, cut: int) -> bool
    decreases i,
{
    if i < 0 || i >= nodes.len() {
        false
    } else {
        !(below(nodes, i, root) && nodes[i].timestamp < cut) && match nodes[i].parent {
            None => true,
            Some(p) => 0 <= p < i && survives(nodes, p, root, cut),
        }
    }
}

/// How many of the first `n` nodes are kept: the new position of node `n`.
pub open spec fn kept_before(nodes: Seq<NodeV>, n: int, root: Option<int>, cut: int) -> int
    decreases n,
{
    if n <= 0 {
        0
    } else {
        kept_before(nodes, n - 1, root, cut) + if survives(nodes, n - 1, root, cut) {
            1int
        } else {
            0int
        }
    }
}

/// A kept node with its parent link moved to the parent's new position.
pub open spec fn moved(nodes: Seq<NodeV>, i: int, root: Option<int>, cut: int) -> NodeV {
    NodeV {
        key: nodes[i].key,
        value: nodes[i].value,
        parent: match nodes[i].parent {
            Some(p) => Some(kept_before(nodes, p, root, cut)),
            None => None,
        },
        timestamp: nodes[i].timestamp,
    }
}

/// The kept nodes among the first `n`, in order, relinked.
pub open spec fn swept_upto(nodes: Seq<NodeV>, n: int, root: Option<int>, cut: int) -> Seq<NodeV>
    decreases n,
{
    if n <= 0 {
        Seq::empty()
    } else {
        let before = swept_upto(nodes, n - 1, root, cut);
        if survives(nodes, n - 1, root, cut) {
            before.push(moved(nodes, n - 1, root, cut))
        } else {
            before
        }
    }
}

/// The nodes after removing every node below `root` written before `cut`,
/// together with the nodes below it.
pub open spec fn swept_tree(nodes: Seq<NodeV>, root: Option<int>, cut: int) -> Seq<NodeV> {
    swept_upto(nodes, nodes.len() as int, root, cut)
}

pub proof fn lemma_kept_before_monotone(
    nodes: Seq<NodeV>,
    a: int,
    b: int,
    root: Option<int>,
    cut: int,
)
    requires
        0 <= a <= b,
    ensures
        kept_before(nodes, a, root, cut) <= kept_before(nodes, b, root, cut),
        kept_before(nodes, b, root, cut) <= b,
        a < b && survives(nodes, a, root, cut) ==> kept_before(nodes, a, root, cut) + 1
            <= kept_before(nodes, b, root, cut),
    decreases b,
{
    if b > 0 {
        if a < b {
            lemma_kept_before_monotone(nodes, a, b - 1, root, cut);
        } else {
            lemma_kept_before_monotone(nodes, b - 1, b - 1, root, cut);
        }
    }
}

// ---------------------------------------------------------------------------
// The executable store.
// ---------------------------------------------------------------------------

/// Splits a path into its non-empty `/`-delimited segments.
pub fn path_segments(path: &String) -> (r: Vec<String>)
    ensures
        strings_model(r@) == segments(path@),
{
    let p = path.as_str();
    let len = p.unicode_len();
    let mut out: Vec<String> = Vec::new();
    let mut start: usize = 0;
    let mut in_run = false;
    let mut i: usize = 0;
    assert(path@.take(0) =~= Seq::<char>::empty());
    assert(strings_model(out@) =~= Seq::<Seq<char>>::empty());
    while i < len
        invariant
            i <= len,
            len == path@.len(),
            p@ == path@,
            in_run <==> (i > 0 && path@[i - 1] != '/'),
            in_run ==> start < i,
            in_run ==> segments(path@.take(i as int)) == strings_model(out@).push(
                path@.subrange(start as int, i as int),
            ),
            !in_run ==> segments(path@.take(i as int)) == strings_model(out@),
        decreases len - i,
    {
        let c = p.get_char(i);
        let ghost t = path@.take(i + 1);
        assert(t.drop_last() =~= path@.take(i as int));
        assert(t.last() == c);
        if c == '/' {
            if in_run {
                let seg = p.substring_char(start, i).to_owned();
                let ghost before = strings_model(out@);
                out.push(seg);
                assert(strings_model(out@) =~= before.push(path@.subrange(start as int, i as int)));
            }
            in_run = false;
        } else {
            if in_run {
                assert(t.len() >= 2 && t[t.len() - 2] != '/');
                assert(path@.subrange(start as int, i as int).push(c) =~= path@.subrange(
                    start as int,
                    i + 1,
                ));
            } else {
                assert(path@.subrange(i as int, i + 1) =~= seq![c]);
                start = i;
            }
            in_run = true;
        }
        i += 1;
    }
    assert(path@.take(len as int) =~= path@);
    if in_run {
        let seg = p.substring_char(start, len).to_owned();
        let ghost before = strings_model(out@);
        out.push(seg);
        assert(strings_model(out@) =~= before.push(path@.subrange(start as int, len as int)));
    }
    out
}

pub open spec fn opt_nat(d: Option<u64>) -> Option<nat> {
    match d {
        Some(x) => Some(x as nat),
        None => None,
    }
}

pub open spec fn opt_model(p: Option<usize>) -> Option<int> {
    match p {
        Some(i) => Some(i as int),
        None => None,
    }
}

/// The nodes below `parent` after decomposing the entries or elements of
/// a container.
pub open spec fn put_children(
    nodes: Seq<NodeV>,
    parent: Option<int>,
    v: JValue,
    overwrite: bool,
    now: int,
) -> Seq<NodeV> {
    match v {
        JValue::Object(entries) => put_entries(nodes, parent, entries, overwrite, now),
        JValue::Array(items) => put_items(nodes, parent, items, overwrite, now),
        _ => nodes,
    }
}

/// The nodes after storing `doc` below the node `path` resolves to.
pub open spec fn store_tree(
    nodes: Seq<NodeV>,
    path: Seq<char>,
    doc: JValue,
    overwrite: bool,
    now: int,
) -> Seq<NodeV> {
    let (resolved, at) = resolve(nodes, None, segments(path), now);
    put_children(resolved, at, doc, overwrite, now)
}

/// The text of one decimal digit.
fn digit_text(d: usize) -> (r: &'static str)
    requires
        d < 10,
    ensures
        r@ == seq![digit(d as nat)],
{
    proof {
        reveal_strlit("0");
        reveal_strlit("1");
        reveal_strlit("2");
        reveal_strlit("3");
        reveal_strlit("4");
        reveal_strlit("5");
        reveal_strlit("6");
        reveal_strlit("7");
        reveal_strlit("8");
        reveal_strlit("9");
    }
    let r = if d == 0 {
        "0"
    } else if d == 1 {
        "1"
    } else if d == 2 {
        "2"
    } else if d == 3 {
        "3"
    } else if d == 4 {
        "4"
    } else if d == 5 {
        "5"
    } else if d == 6 {
        "6"
    } else if d == 7 {
        "7"
    } else if d == 8 {
        "8"
    } else {
        "9"
    };
    assert(r@ =~= seq![digit(d as nat)]);
    r
}

/// The decimal text of `n`, the key of an array element at position `n`.
pub fn decimal_text(n: usize) -> (r: String)
    ensures
        r@ == decimal(n as nat),
    decreases n,
{
    if n < 10 {
        String::from_str(digit_text(n))
    } else {
        let mut r = decimal_text(n / 10);
        r.append(digit_text(n % 10));
        r
    }
}

pub open spec fn positions(v: Seq<usize>) -> Seq<int> {
    Seq::new(v.len(), |i: int| v[i] as int)
}

/// Whether key `a` comes before key `b`.
pub fn key_less(a: &String, b: &String) -> (r: bool)
    ensures
        r == key_lt(a@, b@),
{
    let sa = a.as_str();
    let sb = b.as_str();
    let la = sa.unicode_len();
    let lb = sb.unicode_len();
    let mut i: usize = 0;
    assert(a@.skip(0) =~= a@);
    assert(b@.skip(0) =~= b@);
    while i < la && i < lb
        invariant
            i <= la,
            i <= lb,
            la == a@.len(),
            lb == b@.len(),
            sa@ == a@,
            sb@ == b@,
            key_lt(a@, b@) == key_lt(a@.skip(i as int), b@.skip(i as int)),
        decreases la - i,
    {
        let ca = sa.get_char(i);
        let cb = sb.get_char(i);
        assert(a@.skip(i as int)[0] == ca);
        assert(b@.skip(i as int)[0] == cb);
        if ca != cb {
            return (ca as u32) < (cb as u32);
        }
        assert(a@.skip(i as int).skip(1) =~= a@.skip(i + 1));
        assert(b@.skip(i as int).skip(1) =~= b@.skip(i + 1));
        i += 1;
    }
    i < lb
}

pub proof fn lemma_insert_sorted(nodes: Seq<NodeV>, s: Seq<int>, x: int, by: SortKey, p: int)
    requires
        0 <= p <= s.len(),
        forall|k: int| 0 <= k < p ==> !node_lt(nodes[x], #[trigger] nodes[s[k]], by),
        p < s.len() ==> node_lt(nodes[x], nodes[s[p]], by),
    ensures
        insert_sorted(nodes, s, x, by) == s.take(p) + seq![x] + s.skip(p),
    decreases s.len(),
{
    if s.len() == 0 {
        assert(s.take(p) + seq![x] + s.skip(p) =~= seq![x]);
    } else if p == 0 {
        assert(s.take(p) + seq![x] + s.skip(p) =~= seq![x] + s);
    } else {
        let t = s.skip(1);
        assert forall|k: int| 0 <= k < p - 1 implies !node_lt(nodes[x], #[trigger] nodes[t[k]], by) by {
            assert(t[k] == s[k + 1]);
        }
        lemma_insert_sorted(nodes, t, x, by, p - 1);
        assert(seq![s[0]] + (t.take(p - 1) + seq![x] + t.skip(p - 1)) =~= s.take(p) + seq![x]
            + s.skip(p));
    }
}

/// A document store on a tree of nodes linked to their parents.
pub struct TreeStore {
    nodes: Vec<Node>,
}

impl TreeStore {
    /// The nodes, in the order they were created.
    pub closed spec fn nodes_spec(&self) -> Seq<NodeV> {
        nodes_model(self.nodes@)
    }

    pub closed spec fn wf(&self) -> bool {
        parents_first(self.nodes_spec())
    }

    pub fn new() -> (r: Self)
        ensures
            r.wf(),
            r.nodes_spec() == Seq::<NodeV>::empty(),
    {
        let r = TreeStore { nodes: Vec::new() };
        assert(r.nodes_spec() =~= Seq::<NodeV>::empty());
        r
    }

    /// The number of nodes.
    pub fn len(&self) -> (r: usize)
        ensures
            r == self.nodes_spec().len(),
    {
        self.nodes.len()
    }

    /// The first child of `parent` with that key.
    pub fn find_child(&self, parent: Option<usize>, key: &String) -> (r: Option<usize>)
        ensures
            opt_model(r) == find_child(self.nodes_spec(), opt_model(parent), key@),
            r matches Some(j) ==> j < self.nodes_spec().len(),
    {
        let ghost nodes = self.nodes_spec();
        let mut i: usize = 0;
        assert(nodes.take(0) =~= Seq::<NodeV>::empty());
        while i < self.nodes.len()
            invariant
                i <= self.nodes.len(),
                nodes == self.nodes_spec(),
                find_child(nodes.take(i as int), opt_model(parent), key@) is None,
            decreases self.nodes.len() - i,
        {
            assert(nodes.take(i + 1).drop_last() =~= nodes.take(i as int));
            assert(nodes[i as int] == self.nodes@[i as int]@);
            let n = &self.nodes[i];
            let same_parent = match (n.parent, parent) {
                (Some(a), Some(b)) => a == b,
                (None, None) => true,
                _ => false,
            };
            if same_parent && n.key == *key {
                proof {
                    lemma_find_child_prefix(nodes, i as int + 1, opt_model(parent), key@);
                }
                return Some(i);
            }
            i += 1;
        }
        assert(nodes.take(nodes.len() as int) =~= nodes);
        None
    }

    /// Walks the segments of `path` from the root, creating each missing
    /// node, and yields the node reached (`None` for the root itself).
    pub fn resolve_path_at(&mut self, path: &String, now: i64) -> (r: Option<usize>)
        requires
            old(self).wf(),
        ensures
            final(self).wf(),
            (final(self).nodes_spec(), opt_model(r)) == resolve(
                old(self).nodes_spec(),
                None,
                segments(path@),
                now as int,
            ),
            r matches Some(j) ==> j < final(self).nodes_spec().len(),
    {
        let segs = path_segments(path);
        let ghost sm = strings_model(segs@);
        let ghost goal = resolve(self.nodes_spec(), None, sm, now as int);
        let mut cur: Option<usize> = None;
        let mut k: usize = 0;
        assert(sm.skip(0) =~= sm);
        while k < segs.len()
            invariant
                k <= segs.len(),
                sm == strings_model(segs@),
                self.wf(),
                cur matches Some(j) ==> j < self.nodes_spec().len(),
                goal == resolve(self.nodes_spec(), opt_model(cur), sm.skip(k as int), now as int),
            decreases segs.len() - k,
        {
            let ghost rest = sm.skip(k as int);
            assert(rest[0] == segs@[k as int]@);
            assert(rest.skip(1) =~= sm.skip(k + 1));
            match self.find_child(cur, &segs[k]) {
                Some(j) => {
                    cur = Some(j);
                },
                None => {
                    let ghost before = self.nodes_spec();
                    let n = Node { key: segs[k].clone(), value: None, parent: cur, timestamp: now };
                    self.nodes.push(n);
                    assert(self.nodes_spec() =~= before.push(
                        new_internal(sm[k as int], opt_model(cur), now as int),
                    ));
                    cur = Some(self.nodes.len() - 1);
                },
            }
            k += 1;
        }
        assert(sm.skip(segs.len() as int) =~= Seq::<Seq<char>>::empty());
        cur
    }

    /// Places `n`: over the first child with its key when overwriting and
    /// there is one, else as a new node; yields its position.
    fn place(&mut self, n: Node, overwrite: bool) -> (r: usize)
        requires
            old(self).wf(),
            n.parent matches Some(p) ==> p < old(self).nodes_spec().len(),
        ensures
            final(self).wf(),
            (final(self).nodes_spec(), r as int) == place(old(self).nodes_spec(), n@, overwrite),
            old(self).nodes_spec().len() <= final(self).nodes_spec().len(),
            r < final(self).nodes_spec().len(),
    {
        let ghost before = self.nodes_spec();
        let ghost nv = n@;
        match self.find_child(n.parent, &n.key) {
            Some(j) => {
                if overwrite {
                    assert(before[j as int].parent == nv.parent) by {
                        lemma_find_child_found(before, nv.parent, nv.key);
                    }
                    self.nodes.set(j, n);
                    assert(self.nodes_spec() =~= before.update(j as int, nv));
                    j
                } else {
                    self.nodes.push(n);
                    assert(self.nodes_spec() =~= before.push(nv));
                    self.nodes.len() - 1
                }
            },
            None => {
                self.nodes.push(n);
                assert(self.nodes_spec() =~= before.push(nv));
                self.nodes.len() - 1
            },
        }
    }

    /// Decomposes `v` under `key` below `parent`.
    fn put_value(
        &mut self,
        parent: Option<usize>,
        key: String,
        v: &Json,
        overwrite: bool,
        now: i64,
    )
        requires
            old(self).wf(),
            parent matches Some(p) ==> p < old(self).nodes_spec().len(),
        ensures
            final(self).wf(),
            final(self).nodes_spec() == put_value(
                old(self).nodes_spec(),
                opt_model(parent),
                key@,
                v@,
                overwrite,
                now as int,
            ),
            old(self).nodes_spec().len() <= final(self).nodes_spec().len(),
        decreases v, 1int,
    {
        let container = match v {
            Json::Object(_) => true,
            Json::Array(_) => true,
            _ => false,
        };
        let value = if container {
            None
        } else {
            Some(v.copy())
        };
        let n = Node { key, value, parent, timestamp: now };
        assert(n@ == node_for(key@, v@, opt_model(parent), now as int));
        let at = self.place(n, overwrite);
        if container {
            self.put_children(Some(at), v, overwrite, now);
        }
    }

    /// Decomposes the entries or elements of `v` below `parent`.
    fn put_children(&mut self, parent: Option<usize>, v: &Json, overwrite: bool, now: i64)
        requires
            old(self).wf(),
            parent matches Some(p) ==> p < old(self).nodes_spec().len(),
        ensures
            final(self).wf(),
            final(self).nodes_spec() == put_children(
                old(self).nodes_spec(),
                opt_model(parent),
                v@,
                overwrite,
                now as int,
            ),
            old(self).nodes_spec().len() <= final(self).nodes_spec().len(),
        decreases v, 0int,
    {
        match v {
            Json::Object(entries) => {
                let ghost em = model_of_entries(entries@);
                let ghost start = self.nodes_spec();
                proof {
                    lemma_model_of_entries(entries@);
                }
                assert(em.take(0) =~= Seq::<(Seq<char>, JValue)>::empty());
                let mut i: usize = 0;
                while i < entries.len()
                    invariant
                        i <= entries.len(),
                        *v == Json::Object(*entries),
                        em == model_of_entries(entries@),
                        em.len() == entries.len(),
                        forall|k: int|
                            0 <= k < entries.len() ==> #[trigger] em[k] == (
                                entries@[k].0@,
                                model_of(entries@[k].1),
                            ),
                        self.wf(),
                        start.len() <= self.nodes_spec().len(),
                        parent matches Some(p) ==> p < start.len(),
                        self.nodes_spec() == put_entries(
                            start,
                            opt_model(parent),
                            em.take(i as int),
                            overwrite,
                            now as int,
                        ),
                    decreases entries.len() - i,
                {
                    assert(em.take(i + 1).drop_last() =~= em.take(i as int));
                    proof {
                        vstd::std_specs::vec::axiom_vec_index_decreases(*entries, i as int);
                        assert(decreases_to!(*v => v->Object_0));
                        assert(decreases_to!(*v => entries[i as int]));
                    }
                    self.put_value(parent, entries[i].0.clone(), &entries[i].1, overwrite, now);
                    i += 1;
                }
                assert(em.take(entries.len() as int) =~= em);
            },
            Json::Array(items) => {
                let ghost im = model_of_items(items@);
                let ghost start = self.nodes_spec();
                proof {
                    lemma_model_of_items(items@);
                }
                assert(im.take(0) =~= Seq::<JValue>::empty());
                let mut i: usize = 0;
                while i < items.len()
                    invariant
                        i <= items.len(),
                        *v == Json::Array(*items),
                        im == model_of_items(items@),
                        im.len() == items.len(),
                        forall|k: int| 0 <= k < items.len() ==> #[trigger] im[k] == model_of(items@[k]),
                        self.wf(),
                        start.len() <= self.nodes_spec().len(),
                        parent matches Some(p) ==> p < start.len(),
                        self.nodes_spec() == put_items(
                            start,
                            opt_model(parent),
                            im.take(i as int),
                            overwrite,
                            now as int,
                        ),
                    decreases items.len() - i,
                {
                    assert(im.take(i + 1).drop_last() =~= im.take(i as int));
                    proof {
                        vstd::std_specs::vec::axiom_vec_index_decreases(*items, i as int);
                        assert(decreases_to!(*v => v->Array_0));
                        assert(decreases_to!(*v => items[i as int]));
                    }
                    let key = decimal_text(i);
                    self.put_value(parent, key, &items[i], overwrite, now);
                    i += 1;
                }
                assert(im.take(items.len() as int) =~= im);
            },
            _ => {},
        }
    }

    /// Stores `doc` below the node `path` resolves to, creating the path as
    /// needed, with `now` as the write time. Object entries and array
    /// elements become children keyed by name or position; with
    /// `overwrite` an existing child of the same key is updated in place,
    /// without it a new sibling is added. A scalar document is refused.
    pub fn store_at(&mut self, path: &String, doc: &Json, overwrite: bool, now: i64) -> (r: Result<
        (),
        StoreError,
    >)
        requires
            old(self).wf(),
        ensures
            final(self).wf(),
            is_container(doc@) ==> r is Ok && final(self).nodes_spec() == store_tree(
                old(self).nodes_spec(),
                path@,
                doc@,
                overwrite,
                now as int,
            ),
            !is_container(doc@) ==> r == Err::<(), StoreError>(StoreError::NotAnObject)
                && final(self).nodes_spec() == old(self).nodes_spec(),
    {
        let container = match doc {
            Json::Object(_) => true,
            Json::Array(_) => true,
            _ => false,
        };
        if !container {
            return Err(StoreError::NotAnObject);
        }
        let at = self.resolve_path_at(path, now);
        self.put_children(at, doc, overwrite, now);
        Ok(())
    }

    /// Whether node `x` comes before node `y` in the chosen order.
    fn node_less(&self, x: usize, y: usize, by: SortKey) -> (r: bool)
        requires
            x < self.nodes_spec().len(),
            y < self.nodes_spec().len(),
        ensures
            r == node_lt(self.nodes_spec()[x as int], self.nodes_spec()[y as int], by),
    {
        match by {
            SortKey::Key => key_less(&self.nodes[x].key, &self.nodes[y].key),
            SortKey::Timestamp => self.nodes[x].timestamp < self.nodes[y].timestamp,
        }
    }

    /// Positions of the children of `parent`, in node order.
    pub fn children_of(&self, parent: Option<usize>) -> (r: Vec<usize>)
        ensures
            positions(r@) == children(self.nodes_spec(), opt_model(parent)),
            forall|k: int| 0 <= k < r@.len() ==> #[trigger] r@[k] < self.nodes_spec().len(),
    {
        let ghost nodes = self.nodes_spec();
        let mut out: Vec<usize> = Vec::new();
        let mut i: usize = 0;
        assert(positions(out@) =~= Seq::<int>::empty());
        while i < self.nodes.len()
            invariant
                i <= self.nodes.len(),
                nodes == self.nodes_spec(),
                positions(out@) == children_upto(nodes, opt_model(parent), i as int),
                forall|k: int| 0 <= k < out@.len() ==> #[trigger] out@[k] < i,
            decreases self.nodes.len() - i,
        {
            assert(nodes[i as int] == self.nodes@[i as int]@);
            let same_parent = match (self.nodes[i].parent, parent) {
                (Some(a), Some(b)) => a == b,
                (None, None) => true,
                _ => false,
            };
            if same_parent {
                let ghost before = out@;
                out.push(i);
                assert(positions(out@) =~= positions(before).push(i as int));
            }
            i += 1;
        }
        out
    }

    /// The positions `s` in stable ascending order.
    fn sort_positions(&self, s: &Vec<usize>, by: SortKey) -> (r: Vec<usize>)
        requires
            forall|k: int| 0 <= k < s@.len() ==> #[trigger] s@[k] < self.nodes_spec().len(),
        ensures
            positions(r@) == sort_by(self.nodes_spec(), positions(s@), by),
            forall|k: int| 0 <= k < r@.len() ==> #[trigger] r@[k] < self.nodes_spec().len(),
    {
        let ghost nodes = self.nodes_spec();
        let ghost sp = positions(s@);
        let mut out: Vec<usize> = Vec::new();
        let mut i: usize = 0;
        assert(sp.take(0) =~= Seq::<int>::empty());
        assert(positions(out@) =~= Seq::<int>::empty());
        while i < s.len()
            invariant
                i <= s.len(),
                nodes == self.nodes_spec(),
                sp == positions(s@),
                forall|k: int| 0 <= k < s@.len() ==> #[trigger] s@[k] < nodes.len(),
                forall|k: int| 0 <= k < out@.len() ==> #[trigger] out@[k] < nodes.len(),
                positions(out@) == sort_by(nodes, sp.take(i as int), by),
            decreases s.len() - i,
        {
            let x = s[i];
            let mut p: usize = 0;
            while p < out.len() && !self.node_less(x, out[p], by)
                invariant
                    p <= out@.len(),
                    x < nodes.len(),
                    nodes == self.nodes_spec(),
                    forall|k: int| 0 <= k < out@.len() ==> #[trigger] out@[k] < nodes.len(),
                    forall|k: int|
                        0 <= k < p ==> !node_lt(
                            nodes[x as int],
                            #[trigger] nodes[positions(out@)[k]],
                            by,
                        ),
                decreases out@.len() - p,
            {
                p += 1;
            }
            let ghost before = positions(out@);
            proof {
                lemma_insert_sorted(nodes, before, x as int, by, p as int);
                assert(sp.take(i + 1).drop_last() =~= sp.take(i as int));
            }
            out.insert(p, x);
            assert(positions(out@) =~= before.take(p as int) + seq![x as int] + before.skip(
                p as int,
            ));
            i += 1;
        }
        assert(sp.take(s.len() as int) =~= sp);
        out
    }

    /// The children of `parent` ordered, paginated and rendered with the
    /// given depth budget.
    fn render(
        &self,
        parent: Option<usize>,
        page: u64,
        size: u64,
        depth: Option<u64>,
        by: SortKey,
        order: SortOrder,
    ) -> (r: Json)
        requires
            parent matches Some(p) ==> p < self.nodes_spec().len(),
        ensures
            r@ == render(
                self.nodes_spec(),
                opt_model(parent),
                page as nat,
                size as nat,
                opt_nat(depth),
                by,
                order,
            ),
        decreases height(self.nodes_spec(), opt_model(parent)), 1int,
    {
        let ghost nodes = self.nodes_spec();
        let kids = self.children_of(parent);
        let sorted = self.sort_positions(&kids, by);
        let ghost sorted_p = positions(sorted@);
        let ghost ord = ordered(nodes, positions(kids@), by, order);
        let arranged: Vec<usize> = match order {
            SortOrder::Ascending => sorted,
            SortOrder::Descending => {
                let mut rev: Vec<usize> = Vec::new();
                let mut k = sorted.len();
                while k > 0
                    invariant
                        k <= sorted@.len(),
                        rev@.len() == sorted@.len() - k,
                        forall|m: int|
                            0 <= m < rev@.len() ==> #[trigger] rev@[m] == sorted@[sorted@.len() - 1
                                - m],
                    decreases k,
                {
                    k -= 1;
                    rev.push(sorted[k]);
                }
                rev
            },
        };
        assert(positions(arranged@) =~= ord);
        let n = arranged.len() as u128;
        let back: u128 = if page == 0 {
            0
        } else {
            page as u128 - 1
        };
        let width = size as u128;
        proof {
            let m: int = 0xffff_ffff_ffff_ffff;
            assert(back as int * width as int <= m * m) by (nonlinear_arith)
                requires
                    0 <= back <= m,
                    0 <= width <= m,
            ;
        }
        let start: u128 = back * width;
        let end: u128 = if start >= n || n - start <= width {
            n
        } else {
            start + width
        };
        let ghost shown = page_of(ord, page as nat, size as nat);
        let mut out: Vec<(String, Json)> = Vec::new();
        let mut i: u128 = start;
        proof {
            lemma_model_of_entries(out@);
        }
        assert(shown.take(0) =~= Seq::<int>::empty());
        while i < end
            invariant
                start <= i,
                i <= end || start >= n,
                end <= n,
                n == arranged@.len(),
                n <= usize::MAX,
                nodes == self.nodes_spec(),
                positions(arranged@) == ord,
                shown == page_of(ord, page as nat, size as nat),
                start < n ==> shown == ord.subrange(start as int, end as int),
                start < n ==> model_of_entries(out@) == render_list(
                    nodes,
                    opt_model(parent),
                    shown.take(i - start),
                    size as nat,
                    opt_nat(depth),
                    by,
                    order,
                ),
                start >= n ==> out@.len() == 0,
                parent matches Some(p) ==> p < nodes.len(),
            decreases end - i,
        {
            assert(i < n);
            assert(n <= usize::MAX);
            let iu = i as usize;
            assert(iu as int == i as int);
            let j = arranged[iu];
            let ghost before = out@;
            assert(shown.take(i - start + 1).drop_last() =~= shown.take(i - start));
            assert(start < n);
            assert(positions(arranged@)[i as int] == j as int);
            assert(shown[i - start] == ord[i as int]);
            assert(shown.take(i - start + 1).last() == j as int);
            let in_place = j < self.nodes.len() && match (self.nodes[j].parent, parent) {
                (Some(a), Some(b)) => a == b && b < j,
                (None, None) => true,
                _ => false,
            };
            if in_place {
                assert(nodes[j as int] == self.nodes@[j as int]@);
                let node = &self.nodes[j];
                let shown_value = match &node.value {
                    Some(v) => v.copy(),
                    None => match depth {
                        None => self.render(Some(j), 1, size, None, by, order),
                        Some(d) => if d > 1 {
                            self.render(Some(j), 1, size, Some(d - 1), by, order)
                        } else {
                            Json::Str(String::from_str("..."))
                        },
                    },
                };
                proof {
                    reveal_strlit("...");
                    assert("..."@ =~= seq!['.', '.', '.']);
                }
                out.push((node.key.clone(), shown_value));
                proof {
                    lemma_model_of_entries(before);
                    lemma_model_of_entries(out@);
                    assert(model_of_entries(out@) =~= model_of_entries(before).push(
                        (nodes[j as int].key, model_of(shown_value)),
                    ));
                }
            }
            i += 1;
        }
        proof {
            if start < n {
                assert(shown.take(end - start) =~= shown);
            } else {
                assert(shown =~= Seq::<int>::empty());
                lemma_model_of_entries(out@);
                assert(model_of_entries(out@) =~= Seq::<(Seq<char>, JValue)>::empty());
            }
        }
        Json::Object(out)
    }

    /// The children of the node `path` names, as an object from key to
    /// value: ordered by `by` in direction `order`, page `page` (from 1) of
    /// `size` children, leaves as their value, internal nodes expanded while
    /// the depth budget (`None` for no limit) exceeds one and shown as
    /// `"..."` once it does not. Descents show the first page of their
    /// children and spend one unit of the budget. Fails with `PathNotFound`
    /// when a segment of the path has no matching node.
    pub fn query_by_path(
        &self,
        path: &String,
        page: u64,
        size: u64,
        max_depth: Option<u64>,
        by: SortKey,
        order: SortOrder,
    ) -> (r: Result<Json, StoreError>)
        ensures
            match locate(self.nodes_spec(), None, segments(path@)) {
                Some(t) => r matches Ok(j) && j@ == render(
                    self.nodes_spec(),
                    t,
                    page as nat,
                    size as nat,
                    opt_nat(max_depth),
                    by,
                    order,
                ),
                None => r == Err::<Json, StoreError>(StoreError::PathNotFound),
            },
    {
        match self.locate_path(path) {
            Err(e) => Err(e),
            Ok(at) => Ok(self.render(at, page, size, max_depth, by, order)),
        }
    }

    /// The object around every leaf, at any depth, that holds `value` under
    /// `key`, in node order. An empty key and an empty value give nothing;
    /// one of them empty alone is refused.
    pub fn find_by_attribute(&self, key: &String, value: &String) -> (r: Result<
        Vec<Json>,
        StoreError,
    >)
        requires
            self.wf(),
        ensures
            key@.len() == 0 && value@.len() == 0 ==> r is Ok && r->Ok_0@.len() == 0,
            (key@.len() == 0) != (value@.len() == 0) ==> r == Err::<Vec<Json>, StoreError>(
                StoreError::ValidationError,
            ),
            key@.len() > 0 && value@.len() > 0 ==> r is Ok && model_of_items(r->Ok_0@)
                == tree_hits_upto(self.nodes_spec(), key@, value@, self.nodes_spec().len() as int),
    {
        let key_empty = key.as_str().unicode_len() == 0;
        let value_empty = value.as_str().unicode_len() == 0;
        if key_empty && value_empty {
            return Ok(Vec::new());
        }
        if key_empty || value_empty {
            return Err(StoreError::ValidationError);
        }
        let ghost nodes = self.nodes_spec();
        let mut out: Vec<Json> = Vec::new();
        let mut j: usize = 0;
        proof {
            lemma_model_of_items(out@);
        }
        while j < self.nodes.len()
            invariant
                j <= self.nodes.len(),
                nodes == self.nodes_spec(),
                parents_first(nodes),
                model_of_items(out@) == tree_hits_upto(nodes, key@, value@, j as int),
            decreases self.nodes.len() - j,
        {
            assert(nodes[j as int] == self.nodes@[j as int]@);
            let node = &self.nodes[j];
            let hit = node.key == *key && match &node.value {
                Some(v) => value_holds(v, value),
                None => false,
            };
            if hit {
                let ghost before = out@;
                let doc = self.render(
                    node.parent,
                    1,
                    self.nodes.len() as u64,
                    None,
                    SortKey::Timestamp,
                    SortOrder::Ascending,
                );
                out.push(doc);
                proof {
                    lemma_model_of_items(before);
                    lemma_model_of_items(out@);
                    assert(model_of_items(out@) =~= model_of_items(before).push(
                        surrounding(nodes, j as int),
                    ));
                }
            }
            j += 1;
        }
        Ok(out)
    }

    /// Removes every node below the node `path` names that is older than
    /// `max_age_days` days at time `now`, with the nodes below it, and
    /// relinks the rest. Fails with `PathNotFound`, changing nothing, when
    /// the path does not exist.
    pub fn cleanup_at(&mut self, path: &String, max_age_days: i64, now: i64) -> (r: Result<
        (),
        StoreError,
    >)
        requires
            old(self).wf(),
        ensures
            final(self).wf(),
            match locate(old(self).nodes_spec(), None, segments(path@)) {
                Some(t) => r is Ok && final(self).nodes_spec() == swept_tree(
                    old(self).nodes_spec(),
                    t,
                    cutoff(now as int, max_age_days as int),
                ),
                None => r == Err::<(), StoreError>(StoreError::PathNotFound)
                    && final(self).nodes_spec() == old(self).nodes_spec(),
            },
    {
        let root = match self.locate_path(path) {
            Ok(t) => t,
            Err(e) => return Err(e),
        };
        let cut: i128 = now as i128 - (max_age_days as i128) * 86400;
        let ghost nodes = self.nodes_spec();
        let ghost rt = opt_model(root);
        let mut kept: Vec<Node> = Vec::new();
        let mut under: Vec<bool> = Vec::new();
        let mut newpos: Vec<Option<usize>> = Vec::new();
        let mut i: usize = 0;
        assert(nodes_model(kept@) =~= Seq::<NodeV>::empty());
        while i < self.nodes.len()
            invariant
                i <= self.nodes.len(),
                nodes == self.nodes_spec(),
                parents_first(nodes),
                rt == opt_model(root),
                root matches Some(x) ==> x < nodes.len(),
                under@.len() == i,
                newpos@.len() == i,
                forall|k: int| 0 <= k < i ==> #[trigger] under@[k] == below(nodes, k, rt),
                forall|k: int|
                    0 <= k < i ==> (#[trigger] newpos@[k] is Some <==> survives(
                        nodes,
                        k,
                        rt,
                        cut as int,
                    )),
                forall|k: int|
                    0 <= k < i ==> (#[trigger] newpos@[k] matches Some(x) ==> x as int == kept_before(
                        nodes,
                        k,
                        rt,
                        cut as int,
                    )),
                kept@.len() == kept_before(nodes, i as int, rt, cut as int),
                nodes_model(kept@) == swept_upto(nodes, i as int, rt, cut as int),
                parents_first(nodes_model(kept@)),
            decreases self.nodes.len() - i,
        {
            assert(nodes[i as int] == self.nodes@[i as int]@);
            let parent = self.nodes[i].parent;
            let is_below = match root {
                None => true,
                Some(r) => match parent {
                    None => false,
                    Some(p) => p == r || (p < i && under[p]),
                },
            };
            let old_node = (self.nodes[i].timestamp as i128) < cut;
            let parent_kept = match parent {
                None => true,
                Some(p) => p < i && newpos[p].is_some(),
            };
            assert(is_below == below(nodes, i as int, rt));
            let ghost before = nodes_model(kept@);
            if !(is_below && old_node) && parent_kept {
                assert(survives(nodes, i as int, rt, cut as int));
                let new_parent = match parent {
                    None => None,
                    Some(p) => newpos[p],
                };
                let n = Node {
                    key: self.nodes[i].key.clone(),
                    value: match &self.nodes[i].value {
                        Some(v) => Some(v.copy()),
                        None => None,
                    },
                    parent: new_parent,
                    timestamp: self.nodes[i].timestamp,
                };
                proof {
                    if let Some(p) = parent {
                        lemma_kept_before_monotone(nodes, p as int, i as int, rt, cut as int);
                    }
                }
                assert(n@ == moved(nodes, i as int, rt, cut as int));
                let at = kept.len();
                kept.push(n);
                newpos.push(Some(at));
                assert(nodes_model(kept@) =~= before.push(moved(nodes, i as int, rt, cut as int)));
            } else {
                assert(!survives(nodes, i as int, rt, cut as int));
                newpos.push(None);
            }
            under.push(is_below);
            i += 1;
        }
        self.nodes = kept;
        Ok(())
    }

    /// Walks the segments of `path` from the root without creating
    /// anything; fails with `PathNotFound` at the first missing segment.
    pub fn locate_path(&self, path: &String) -> (r: Result<Option<usize>, StoreError>)
        ensures
            match locate(self.nodes_spec(), None, segments(path@)) {
                Some(t) => r matches Ok(x) && opt_model(x) == t,
                None => r == Err::<Option<usize>, StoreError>(StoreError::PathNotFound),
            },
            r matches Ok(Some(j)) ==> j < self.nodes_spec().len(),
    {
        let segs = path_segments(path);
        let ghost sm = strings_model(segs@);
        let ghost goal = locate(self.nodes_spec(), None, sm);
        let mut cur: Option<usize> = None;
        let mut k: usize = 0;
        assert(sm.skip(0) =~= sm);
        while k < segs.len()
            invariant
                k <= segs.len(),
                sm == strings_model(segs@),
                cur matches Some(j) ==> j < self.nodes_spec().len(),
                goal == locate(self.nodes_spec(), opt_model(cur), sm.skip(k as int)),
                goal == locate(self.nodes_spec(), None, segments(path@)),
            decreases segs.len() - k,
        {
            let ghost rest = sm.skip(k as int);
            assert(rest[0] == segs@[k as int]@);
            assert(rest.skip(1) =~= sm.skip(k + 1));
            match self.find_child(cur, &segs[k]) {
                Some(j) => {
                    cur = Some(j);
                },
                None => {
                    assert(rest.len() > 0);
                    assert(goal is None);
                    return Err(StoreError::PathNotFound);
                },
            }
            k += 1;
        }
        assert(sm.skip(segs.len() as int) =~= Seq::<Seq<char>>::empty());
        Ok(cur)
    }
}

/// How an internal child is shown under a depth budget: as the
/// placeholder once the budget is one or less, else expanded from its first
/// page with one unit less, or fully without a budget.
pub open spec fn shown_internal(
    nodes: Seq<NodeV>,
    j: int,
    size: nat,
    depth: Option<nat>,
    by: SortKey,
    order: SortOrder,
) -> JValue {
    match depth {
        None => render(nodes, Some(j), 1, size, None, by, order),
        Some(d) => if d > 1 {
            render(nodes, Some(j), 1, size, Some((d - 1) as nat), by, order)
        } else {
            placeholder()
        },
    }
}

pub proof fn lemma_render_list_internal(
    nodes: Seq<NodeV>,
    parent: Option<int>,
    list: Seq<int>,
    size: nat,
    depth: Option<nat>,
    by: SortKey,
    order: SortOrder,
    q: int,
)
    requires
        0 <= q < list.len(),
        0 <= list[q] < nodes.len(),
        rank(parent) <= list[q],
        nodes[list[q]].parent == parent,
        nodes[list[q]].value is None,
    ensures
        render_list(nodes, parent, list, size, depth, by, order).contains(
            (nodes[list[q]].key, shown_internal(nodes, list[q], size, depth, by, order)),
        ),
    decreases list.len(),
{
    let all = render_list(nodes, parent, list, size, depth, by, order);
    let entry = (nodes[list[q]].key, shown_internal(nodes, list[q], size, depth, by, order));
    if q == list.len() - 1 {
        assert(all[all.len() - 1] == entry);
    } else {
        assert(list.drop_last()[q] == list[q]);
        lemma_render_list_internal(nodes, parent, list.drop_last(), size, depth, by, order, q);
        let before = render_list(nodes, parent, list.drop_last(), size, depth, by, order);
        let k = choose|k: int| 0 <= k < before.len() && before[k] == entry;
        if 0 <= list.last() < nodes.len() && rank(parent) <= list.last() && nodes[list.last()].parent
            == parent {
            assert(all[k] == before[k]);
        } else {
            assert(all == before);
        }
    }
}

/// The depth budget of a query: an internal child on the page shows as the
/// placeholder when the budget is one, is expanded one more level (its own
/// internal children as placeholders) when it is two, and is expanded in
/// full when there is no budget.
pub proof fn lemma_depth_budget(
    nodes: Seq<NodeV>,
    parent: Option<int>,
    page: nat,
    size: nat,
    depth: Option<nat>,
    by: SortKey,
    order: SortOrder,
    q: int,
)
    requires
        0 <= q < page_of(ordered(nodes, children(nodes, parent), by, order), page, size).len(),
        ({
            let j = page_of(ordered(nodes, children(nodes, parent), by, order), page, size)[q];
            &&& 0 <= j < nodes.len()
            &&& rank(parent) <= j
            &&& nodes[j].parent == parent
            &&& nodes[j].value is None
        }),
    ensures
        ({
            let j = page_of(ordered(nodes, children(nodes, parent), by, order), page, size)[q];
            let shown = shown_internal(nodes, j, size, depth, by, order);
            &&& render(nodes, parent, page, size, depth, by, order)->Object_0.contains(
                (nodes[j].key, shown),
            )
            &&& depth == Some(1nat) ==> shown == placeholder()
            &&& depth == Some(2nat) ==> shown == render(nodes, Some(j), 1, size, Some(1nat), by, order)
            &&& depth is None ==> shown == render(nodes, Some(j), 1, size, None, by, order)
        }),
{
    let list = page_of(ordered(nodes, children(nodes, parent), by, order), page, size);
    lemma_render_list_internal(nodes, parent, list, size, depth, by, order, q);
}

pub proof fn lemma_find_child_extend(
    nodes: Seq<NodeV>,
    ext: Seq<NodeV>,
    parent: Option<int>,
    key: Seq<char>,
)
    requires
        nodes.len() <= ext.len(),
        ext.take(nodes.len() as int) == nodes,
        find_child(nodes, parent, key) is Some,
    ensures
        find_child(ext, parent, key) == find_child(nodes, parent, key),
    decreases ext.len(),
{
    if ext.len() == nodes.len() {
        assert(ext =~= nodes);
    } else {
        assert(ext.drop_last().take(nodes.len() as int) =~= nodes);
        lemma_find_child_extend(nodes, ext.drop_last(), parent, key);
    }
}

pub proof fn lemma_resolve_extends(
    nodes: Seq<NodeV>,
    parent: Option<int>,
    segs: Seq<Seq<char>>,
    now: int,
)
    ensures
        nodes.len() <= resolve(nodes, parent, segs, now).0.len(),
        resolve(nodes, parent, segs, now).0.take(nodes.len() as int) == nodes,
    decreases segs.len(),
{
    if segs.len() == 0 {
        assert(nodes.take(nodes.len() as int) =~= nodes);
    } else {
        match find_child(nodes, parent, segs[0]) {
            Some(j) => {
                lemma_resolve_extends(nodes, Some(j), segs.skip(1), now);
            },
            None => {
                let m = nodes.push(new_internal(segs[0], parent, now));
                lemma_resolve_extends(m, Some(nodes.len() as int), segs.skip(1), now);
                let r = resolve(m, Some(nodes.len() as int), segs.skip(1), now).0;
                assert(r.take(nodes.len() as int) =~= r.take(m.len() as int).take(
                    nodes.len() as int,
                ));
                assert(m.take(nodes.len() as int) =~= nodes);
            },
        }
    }
}

/// Resolving a path a second time, with no write in between, reaches the
/// same node and creates no node: the walk is idempotent.
pub proof fn lemma_resolve_idempotent(
    nodes: Seq<NodeV>,
    parent: Option<int>,
    segs: Seq<Seq<char>>,
    first: int,
    second: int,
)
    ensures
        resolve(resolve(nodes, parent, segs, first).0, parent, segs, second) == resolve(
            nodes,
            parent,
            segs,
            first,
        ),
    decreases segs.len(),
{
    if segs.len() > 0 {
        let (n1, t1) = resolve(nodes, parent, segs, first);
        match find_child(nodes, parent, segs[0]) {
            Some(j) => {
                lemma_resolve_extends(nodes, Some(j), segs.skip(1), first);
                lemma_find_child_extend(nodes, n1, parent, segs[0]);
                lemma_resolve_idempotent(nodes, Some(j), segs.skip(1), first, second);
            },
            None => {
                let m = nodes.push(new_internal(segs[0], parent, first));
                assert(m.drop_last() =~= nodes);
                assert(find_child(m, parent, segs[0]) == Some(nodes.len() as int));
                lemma_resolve_extends(m, Some(nodes.len() as int), segs.skip(1), first);
                lemma_find_child_extend(m, n1, parent, segs[0]);
                lemma_resolve_idempotent(m, Some(nodes.len() as int), segs.skip(1), first, second);
            },
        }
    }
}

pub proof fn lemma_find_child_found(nodes: Seq<NodeV>, parent: Option<int>, key: Seq<char>)
    ensures
        find_child(nodes, parent, key) matches Some(j) ==> 0 <= j < nodes.len() && nodes[j].parent
            == parent && nodes[j].key == key,
    decreases nodes.len(),
{
    if nodes.len() > 0 {
        lemma_find_child_found(nodes.drop_last(), parent, key);
    }
}

pub proof fn lemma_find_child_prefix(nodes: Seq<NodeV>, n: int, parent: Option<int>, key: Seq<char>)
    requires
        0 < n <= nodes.len(),
        find_child(nodes.take(n - 1), parent, key) is None,
        nodes[n - 1].parent == parent,
        nodes[n - 1].key == key,
    ensures
        find_child(nodes, parent, key) == Some(n - 1),
    decreases nodes.len() - n,
{
    if n == nodes.len() {
        assert(nodes.drop_last() =~= nodes.take(n - 1));
    } else {
        assert(nodes.drop_last().take(n - 1) =~= nodes.take(n - 1));
        lemma_find_child_prefix(nodes.drop_last(), n, parent, key);
    }
}

} // verus!
