use vstd::prelude::*;

use crate::text::{decimal, lemma_decimal, push_decimal};

verus! {

/// Dimension of the vectors of the benchmark dataset.
pub const DIM: usize = 128;

/// One set of index parameters that the benchmark runs.
#[derive(Clone, Copy, Debug)]
pub struct BenchConfig {
    pub m: usize,
    pub m0: usize,
    pub ef_construction: usize,
    pub ef_search: usize,
}

/// The file name under which the index of `c` is saved, for a prefix.
pub open spec fn index_path_spec(c: BenchConfig, prefix: Seq<char>) -> Seq<char> {
    prefix + "-dim"@ + decimal(DIM as nat) + "-m"@ + decimal(c.m as nat) + "-m0"@ + decimal(
        c.m0 as nat,
    ) + "-efc"@ + decimal(c.ef_construction as nat) + "-efs"@ + decimal(c.ef_search as nat)
        + ".bin"@
}

/// `a + sep + d1 == b + sep + d2`, where `sep` starts with the only `-` it
/// holds and `d1`, `d2` hold digits only, splits alike.
proof fn lemma_split_last(a: Seq<char>, b: Seq<char>, sep: Seq<char>, d1: Seq<char>, d2: Seq<char>)
    requires
        sep.len() > 0,
        sep[0] == '-',
        forall|k: int| 1 <= k < sep.len() ==> sep[k] != '-',
        forall|k: int| 0 <= k < d1.len() ==> 48 <= #[trigger] d1[k] as int <= 57,
        forall|k: int| 0 <= k < d2.len() ==> 48 <= #[trigger] d2[k] as int <= 57,
        a + sep + d1 == b + sep + d2,
    ensures
        a == b,
        d1 == d2,
{
    let x = a + sep + d1;
    let y = b + sep + d2;
    assert(x.len() == a.len() + sep.len() + d1.len());
    assert(y.len() == b.len() + sep.len() + d2.len());
    assert(x.len() == y.len());
    if a.len() < b.len() {
        assert(y[b.len() as int] == '-');
        let i = b.len() as int;
        if i < a.len() + sep.len() {
            assert(x[i] == sep[i - a.len()]);
        } else {
            assert(x[i] == (a + sep + d1)[i]);
            assert((a + sep + d1)[i] == d1[i - a.len() - sep.len()]);
        }
    }
    if b.len() < a.len() {
        assert(x[a.len() as int] == '-');
        let i = a.len() as int;
        if i < b.len() + sep.len() {
            assert(y[i] == sep[i - b.len()]);
        } else {
            assert(y[i] == (b + sep + d2)[i]);
            assert((b + sep + d2)[i] == d2[i - b.len() - sep.len()]);
        }
    }
    assert(a =~= x.subrange(0, a.len() as int));
    assert(b =~= y.subrange(0, b.len() as int));
    assert(d1 =~= x.subrange((a.len() + sep.len()) as int, x.len() as int));
    assert(d2 =~= y.subrange((b.len() + sep.len()) as int, y.len() as int));
}

proof fn lemma_decimal_injective(m: nat, n: nat)
    requires
        decimal(m) == decimal(n),
    ensures
        m == n,
{
    lemma_decimal(m);
    lemma_decimal(n);
}

/// Configurations that differ in a parameter get different index files,
/// for the same prefix.
pub proof fn lemma_index_path_injective(c1: BenchConfig, c2: BenchConfig, prefix: Seq<char>)
    ensures
        index_path_spec(c1, prefix) == index_path_spec(c2, prefix) <==> (c1.m, c1.m0, c1.ef_construction, c1.ef_search)
            == (c2.m, c2.m0, c2.ef_construction, c2.ef_search),
{
    if index_path_spec(c1, prefix) == index_path_spec(c2, prefix) {
        reveal_strlit("-m");
        reveal_strlit("-m0");
        reveal_strlit("-efc");
        reveal_strlit("-efs");
        reveal_strlit(".bin");
        lemma_decimal(c1.m as nat);
        lemma_decimal(c2.m as nat);
        lemma_decimal(c1.m0 as nat);
        lemma_decimal(c2.m0 as nat);
        lemma_decimal(c1.ef_construction as nat);
        lemma_decimal(c2.ef_construction as nat);
        lemma_decimal(c1.ef_search as nat);
        lemma_decimal(c2.ef_search as nat);
        let head = prefix + "-dim"@ + decimal(DIM as nat);
        let p1 = head + "-m"@ + decimal(c1.m as nat);
        let p2 = head + "-m"@ + decimal(c2.m as nat);
        let q1 = p1 + "-m0"@ + decimal(c1.m0 as nat);
        let q2 = p2 + "-m0"@ + decimal(c2.m0 as nat);
        let r1 = q1 + "-efc"@ + decimal(c1.ef_construction as nat);
        let r2 = q2 + "-efc"@ + decimal(c2.ef_construction as nat);
        let s1 = r1 + "-efs"@ + decimal(c1.ef_search as nat);
        let s2 = r2 + "-efs"@ + decimal(c2.ef_search as nat);
        assert(s1 + ".bin"@ == s2 + ".bin"@);
        assert(s1 =~= (s1 + ".bin"@).subrange(0, s1.len() as int));
        assert(s2 =~= (s2 + ".bin"@).subrange(0, s2.len() as int));
        lemma_split_last(r1, r2, "-efs"@, decimal(c1.ef_search as nat), decimal(c2.ef_search as nat));
        lemma_split_last(q1, q2, "-efc"@, decimal(c1.ef_construction as nat), decimal(c2.ef_construction as nat));
        lemma_split_last(p1, p2, "-m0"@, decimal(c1.m0 as nat), decimal(c2.m0 as nat));
        lemma_split_last(head, head, "-m"@, decimal(c1.m as nat), decimal(c2.m as nat));
        lemma_decimal_injective(c1.m as nat, c2.m as nat);
        lemma_decimal_injective(c1.m0 as nat, c2.m0 as nat);
        lemma_decimal_injective(c1.ef_construction as nat, c2.ef_construction as nat);
        lemma_decimal_injective(c1.ef_search as nat, c2.ef_search as nat);
    }
}

/// How many of `total` queries warm the index up, at most `wanted` and
/// leaving at least one when there is one, and how many are measured.
pub fn query_split(total: usize, wanted: usize) -> (r: (usize, usize))
    ensures
        r.0 == (if wanted < total - 1 { wanted as int } else if total > 0 { total - 1 } else { 0 }),
        r.0 + r.1 == total,
        total > 0 ==> r.1 >= 1,
{
    let available = total.saturating_sub(1);
    let warmup = if wanted < available { wanted } else { available };
    (warmup, total - warmup)
}

impl BenchConfig {
    /// `{prefix}-dim{DIM}-m{m}-m0{m0}-efc{ef_construction}-efs{ef_search}.bin`
    pub fn index_path(self, prefix: &str) -> (r: String)
        ensures
            r@ == index_path_spec(self, prefix@),
    {
        let mut s = String::new();
        s.append(prefix);
        s.append("-dim");
        push_decimal(&mut s, DIM as u64);
        s.append("-m");
        push_decimal(&mut s, self.m as u64);
        s.append("-m0");
        push_decimal(&mut s, self.m0 as u64);
        s.append("-efc");
        push_decimal(&mut s, self.ef_construction as u64);
        s.append("-efs");
        push_decimal(&mut s, self.ef_search as u64);
        s.append(".bin");
        proof {
            assert(s@ =~= index_path_spec(self, prefix@));
        }
        s
    }
}

} // verus!
