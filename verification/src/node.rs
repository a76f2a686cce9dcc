use vstd::prelude::*;

use crate::link::Link;

verus! {

/// A vertex of the graph: its neighbour list on each layer it lives on
/// (`layers[0]` is the bottom layer), and the visit mark of the last graph
/// walk that reached it.
#[derive(Debug)]
pub struct Node {
    pub layers: Vec<Vec<Link>>,
    pub epoch: usize,
}


/// The capacity of `v` (`Vec::capacity`), which is never below its length,
/// and whose allocation takes at most `isize::MAX` bytes (a zero-sized
/// element takes none).
#[verifier::external_body]
fn capacity<T>(v: &Vec<T>) -> (r: usize)
    ensures
        r >= v@.len(),
        r * vstd::layout::size_of::<T>() <= isize::MAX,
{
    v.capacity()
}

/// `a + b`, or `usize::MAX` when it does not fit.
fn add_saturating(a: usize, b: usize) -> (r: usize)
    ensures
        r == if a + b <= usize::MAX { a + b } else { usize::MAX as int },
{
    a.saturating_add(b)
}

/// `a * b`, or `usize::MAX` when it does not fit.
fn mul_saturating(a: usize, b: usize) -> (r: usize)
    ensures
        r == if a * b <= usize::MAX { a * b } else { usize::MAX as int },
{
    match a.checked_mul(b) {
        Some(x) => x,
        None => usize::MAX,
    }
}

/// `min(x, usize::MAX)`.
pub open spec fn capped(x: int) -> int {
    if x <= usize::MAX {
        x
    } else {
        usize::MAX as int
    }
}

/// Bytes that neighbour lists with capacities `cs` take.
pub open spec fn list_caps_bytes(cs: Seq<usize>) -> nat
    decreases cs.len(),
{
    if cs.len() == 0 {
        0
    } else {
        list_caps_bytes(cs.drop_last()) + (cs.last() as nat) * vstd::layout::size_of::<Link>()
    }
}

/// Bytes that the layer arrays and neighbour lists of nodes take, given for
/// each node the capacity of its layer array and those of its lists.
pub open spec fn caps_bytes(caps: Seq<(usize, Vec<usize>)>) -> nat
    decreases caps.len(),
{
    if caps.len() == 0 {
        0
    } else {
        caps_bytes(caps.drop_last()) + (caps.last().0 as nat) * vstd::layout::size_of::<Vec<Link>>()
            + list_caps_bytes(caps.last().1@)
    }
}

/// Heap bytes of a node array of capacity `nc` whose nodes have the
/// capacities `caps`, or `usize::MAX` when that does not fit.
pub open spec fn heap_bytes(nc: usize, caps: Seq<(usize, Vec<usize>)>) -> int {
    capped(nc * vstd::layout::size_of::<Node>() + caps_bytes(caps))
}

/// `caps` holds, for each node of `nodes`, capacities that its layer array
/// and its neighbour lists can have: none below the length.
pub open spec fn caps_fit(nodes: Seq<Node>, caps: Seq<(usize, Vec<usize>)>) -> bool {
    &&& caps.len() == nodes.len()
    &&& forall|i: int| 0 <= i < nodes.len() ==> {
        &&& #[trigger] caps[i].0 >= nodes[i].layers@.len()
        &&& caps[i].0 * vstd::layout::size_of::<Vec<Link>>() <= isize::MAX
        &&& caps[i].1@.len() == nodes[i].layers@.len()
        &&& forall|j: int| 0 <= j < caps[i].1@.len() ==> #[trigger] caps[i].1@[j] >= nodes[i].layers@[j]@.len()
        &&& forall|j: int| 0 <= j < caps[i].1@.len() ==> #[trigger] caps[i].1@[j] * vstd::layout::size_of::<Link>() <= isize::MAX
    }
}

/// `r` is what `nodes_heap_usage_bytes` can report for `nodes`: the heap
/// bytes of capacities that `nodes` can have, none below its length and no
/// allocation above `isize::MAX` bytes.
pub open spec fn heap_usage_of(nodes: Seq<Node>, r: int) -> bool {
    exists|nc: usize, caps: Seq<(usize, Vec<usize>)>|
        nc >= nodes.len() && nc * vstd::layout::size_of::<Node>() <= isize::MAX && caps_fit(nodes, caps) && r
            == #[trigger] heap_bytes(nc, caps)
}

proof fn lemma_mul_mono(a: int, b: int, c: int)
    by (nonlinear_arith)
    requires
        0 <= a <= b,
        0 <= c,
    ensures
        a * c <= b * c,
{
}

/// What the heap usage of a node array can be: never below the bytes of the
/// node array's length, and for an empty array at most `isize::MAX` (so
/// never `usize::MAX`), with nothing for the layers and lists.
pub proof fn lemma_heap_usage_bounds(nodes: Seq<Node>, r: int)
    requires
        heap_usage_of(nodes, r),
    ensures
        r >= capped((nodes.len() * vstd::layout::size_of::<Node>()) as int),
        r <= usize::MAX,
        nodes.len() == 0 ==> r <= isize::MAX && r < usize::MAX,
{
    let (nc, caps) = choose|nc: usize, caps: Seq<(usize, Vec<usize>)>|
        nc >= nodes.len() && nc * vstd::layout::size_of::<Node>() <= isize::MAX && caps_fit(nodes, caps) && r
            == #[trigger] heap_bytes(nc, caps);
    lemma_mul_mono(nodes.len() as int, nc as int, vstd::layout::size_of::<Node>() as int);
    if nodes.len() == 0 {
        assert(caps.len() == 0);
        assert(caps_bytes(caps) == 0);
    }
}

proof fn lemma_add_capped(a: int, b: int)
    requires
        0 <= a,
        0 <= b,
    ensures
        capped(capped(a) + capped(b)) == capped(a + b),
{
}

/// The heap bytes of a node array of capacity `node_capacity` whose nodes
/// have the capacities `caps`: saturating at `usize::MAX`.
pub fn heap_bytes_of(node_capacity: usize, caps: &Vec<(usize, Vec<usize>)>) -> (r: usize)
    ensures
        r == heap_bytes(node_capacity, caps@),
{
    let node_size = core::mem::size_of::<Node>();
    let list_size = core::mem::size_of::<Vec<Link>>();
    let link_size = core::mem::size_of::<Link>();
    let mut bytes = mul_saturating(node_capacity, node_size);
    proof {
        assert(caps@.take(0) =~= Seq::<(usize, Vec<usize>)>::empty());
    }
    let n = caps.len();
    let mut i: usize = 0;
    while i < n
        invariant
            0 <= i <= n == caps@.len(),
            node_size == vstd::layout::size_of::<Node>(),
            list_size == vstd::layout::size_of::<Vec<Link>>(),
            link_size == vstd::layout::size_of::<Link>(),
            bytes == capped(node_capacity * node_size + caps_bytes(caps@.take(i as int))),
        decreases n - i,
    {
        let lists = &caps[i].1;
        let head = mul_saturating(caps[i].0, list_size);
        let ghost base = node_capacity * node_size + caps_bytes(caps@.take(i as int)) + caps@[i as int].0 * list_size;
        proof {
            lemma_add_capped(node_capacity * node_size + caps_bytes(caps@.take(i as int)), caps@[i as int].0 * list_size);
            assert(lists@.take(0) =~= Seq::<usize>::empty());
        }
        bytes = add_saturating(bytes, head);
        let m = lists.len();
        let mut j: usize = 0;
        while j < m
            invariant
                0 <= j <= m == lists@.len(),
                link_size == vstd::layout::size_of::<Link>(),
                base >= 0,
                bytes == capped(base + list_caps_bytes(lists@.take(j as int))),
            decreases m - j,
        {
            let part = mul_saturating(lists[j], link_size);
            proof {
                lemma_add_capped(base + list_caps_bytes(lists@.take(j as int)), lists@[j as int] * link_size);
                assert(lists@.take(j + 1).drop_last() =~= lists@.take(j as int));
            }
            bytes = add_saturating(bytes, part);
            j += 1;
        }
        proof {
            assert(lists@.take(m as int) =~= lists@);
            assert(caps@.take(i + 1).drop_last() =~= caps@.take(i as int));
            assert(caps@.take(i + 1).last() == caps@[i as int]);
        }
        i += 1;
    }
    proof {
        assert(caps@.take(n as int) =~= caps@);
    }
    bytes
}

/// Bytes of heap that `nodes` takes: the node array, each node's layer
/// array, and each neighbour list, by their capacities; `usize::MAX` when the
/// count does not fit. The capacities are those that `nodes` has; nothing is
/// known of them but that none is below the length.
pub fn nodes_heap_usage_bytes(nodes: &Vec<Node>) -> (r: usize)
    ensures
        exists|nc: usize, caps: Seq<(usize, Vec<usize>)>|
            nc >= nodes@.len() && caps_fit(nodes@, caps) && r == #[trigger] heap_bytes(nc, caps),
        heap_usage_of(nodes@, r as int),
{
    let nc = capacity(nodes);
    let n = nodes.len();
    let mut caps: Vec<(usize, Vec<usize>)> = Vec::new();
    let mut i: usize = 0;
    while i < n
        invariant
            0 <= i <= n == nodes@.len(),
            caps_fit(nodes@.take(i as int), caps@),
        decreases n - i,
    {
        let layers = &nodes[i].layers;
        let lc = capacity(layers);
        let m = layers.len();
        let mut lists: Vec<usize> = Vec::new();
        let mut j: usize = 0;
        while j < m
            invariant
                0 <= j <= m == layers@.len(),
                lists@.len() == j,
                forall|k: int| 0 <= k < j ==> #[trigger] lists@[k] >= layers@[k]@.len(),
                forall|k: int| 0 <= k < j ==> #[trigger] lists@[k] * vstd::layout::size_of::<Link>() <= isize::MAX,
            decreases m - j,
        {
            let c = capacity(&layers[j]);
            lists.push(c);
            j += 1;
        }
        let ghost c0 = caps@;
        let ghost lv = lists@;
        caps.push((lc, lists));
        proof {
            assert forall|k: int| 0 <= k < i + 1 implies {
                &&& #[trigger] caps@[k].0 >= nodes@.take(i + 1)[k].layers@.len()
                &&& caps@[k].0 * vstd::layout::size_of::<Vec<Link>>() <= isize::MAX
                &&& caps@[k].1@.len() == nodes@.take(i + 1)[k].layers@.len()
                &&& forall|jj: int| 0 <= jj < caps@[k].1@.len() ==> #[trigger] caps@[k].1@[jj] >= nodes@.take(i + 1)[k].layers@[jj]@.len()
                &&& forall|jj: int| 0 <= jj < caps@[k].1@.len() ==> #[trigger] caps@[k].1@[jj] * vstd::layout::size_of::<Link>() <= isize::MAX
            } by {
                if k < i {
                    assert(caps@[k] == c0[k]);
                    assert(nodes@.take(i + 1)[k] == nodes@.take(i as int)[k]);
                } else {
                    assert(caps@[k].1@ == lv);
                    assert(nodes@.take(i + 1)[k] == nodes@[i as int]);
                }
            }
        }
        i += 1;
    }
    proof {
        assert(nodes@.take(n as int) =~= nodes@);
    }
    let r = heap_bytes_of(nc, &caps);
    proof {
        assert(heap_bytes(nc, caps@) == r);
    }
    r
}

} // verus!
