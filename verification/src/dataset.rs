use vstd::prelude::*;

use crate::text::{decimal, list_text, push_decimal, push_list, push_signed, signed_decimal};

verus! {

/// The first `k` items of each of the first `rows` rows of `width` items.
pub open spec fn rows_of<T>(raw: Seq<T>, width: nat, rows: nat, k: nat) -> Seq<Seq<T>> {
    Seq::new(rows, |i: int| raw.subrange(i * width, i * width + k))
}

/// Cuts `raw` into rows of `width` items and keeps the first `k` items of
/// each of the first `rows` rows.
pub fn take_rows<T: Copy>(raw: &Vec<T>, width: usize, rows: usize, k: usize) -> (r: Vec<Vec<T>>)
    requires
        k <= width,
        rows * width <= raw@.len(),
    ensures
        r@.len() == rows,
        forall|i: int| 0 <= i < rows ==> (#[trigger] r@[i])@ == rows_of(raw@, width as nat, rows as nat, k as nat)[i],
{
    let mut out: Vec<Vec<T>> = Vec::new();
    let len = raw.len();
    let mut i: usize = 0;
    while i < rows
        invariant
            0 <= i <= rows,
            len == raw@.len(),
            k <= width,
            rows * width <= raw@.len(),
            out@.len() == i,
            forall|a: int| 0 <= a < i ==> (#[trigger] out@[a])@ == rows_of(raw@, width as nat, rows as nat, k as nat)[a],
        decreases rows - i,
    {
        proof {
            assert(i * width + width <= rows * width) by (nonlinear_arith)
                requires
                    i < rows,
            ;
        }
        let start = i * width;
        let mut row: Vec<T> = Vec::new();
        let mut j: usize = 0;
        while j < k
            invariant
                0 <= j <= k <= width,
                start + width <= raw@.len(),
                len == raw@.len(),
                row@ == raw@.subrange(start as int, start + j),
            decreases k - j,
        {
            row.push(raw[start + j]);
            j += 1;
            proof {
                assert(row@ =~= raw@.subrange(start as int, start + j));
            }
        }
        out.push(row);
        i += 1;
    }
    out
}

/// `"dataset '<name>'"`, which every message below starts with.
pub open spec fn named(name: Seq<char>) -> Seq<char> {
    "dataset '"@ + name + "'"@
}

fn push_named(s: &mut String, name: &str)
    ensures
        final(s)@ == old(s)@ + named(name@),
{
    s.append("dataset '");
    s.append(name);
    s.append("'");
    proof {
        assert(s@ =~= old(s)@ + named(name@));
    }
}

pub open spec fn not_2d_message(name: Seq<char>, shape: Seq<usize>) -> Seq<char> {
    named(name) + " must be 2-D, got shape "@ + list_text(shape)
}

fn not_2d(dataset_name: &str, shape: &Vec<usize>) -> (r: String)
    ensures
        r@ == not_2d_message(dataset_name@, shape@),
{
    let mut s = String::new();
    push_named(&mut s, dataset_name);
    s.append(" must be 2-D, got shape ");
    push_list(&mut s, shape);
    proof {
        assert(s@ =~= not_2d_message(dataset_name@, shape@));
    }
    s
}

pub open spec fn dimension_message(name: Seq<char>, dims: nat, dim: nat) -> Seq<char> {
    named(name) + " has dimension "@ + decimal(dims) + ", but DIM is set to "@ + decimal(dim)
}

/// The number of vectors to load from a dataset of shape `shape`: all its
/// rows, or at most `limit`. An error when the dataset is not 2-D, or when
/// its rows are not vectors of dimension `dim`.
pub fn vector_rows(dataset_name: &str, shape: &Vec<usize>, limit: Option<usize>, dim: usize) -> (r: Result<usize, String>)
    ensures
        shape@.len() != 2 ==> (r matches Err(e) && e@ == not_2d_message(dataset_name@, shape@)),
        shape@.len() == 2 && shape@[1] != dim ==> (r matches Err(e) && e@ == dimension_message(
            dataset_name@,
            shape@[1] as nat,
            dim as nat,
        )),
        shape@.len() == 2 && shape@[1] == dim ==> r == Ok::<usize, String>(
            match limit {
                Some(v) => if v < shape@[0] { v } else { shape@[0] },
                None => shape@[0],
            },
        ),
{
    if shape.len() != 2 {
        return Err(not_2d(dataset_name, shape));
    }
    let rows = match limit {
        Some(v) => if v < shape[0] { v } else { shape[0] },
        None => shape[0],
    };
    let dims = shape[1];
    if dims != dim {
        let mut s = String::new();
        push_named(&mut s, dataset_name);
        s.append(" has dimension ");
        push_decimal(&mut s, dims as u64);
        s.append(", but DIM is set to ");
        push_decimal(&mut s, dim as u64);
        proof {
            assert(s@ =~= dimension_message(dataset_name@, dims as nat, dim as nat));
        }
        return Err(s);
    }
    Ok(rows)
}

pub open spec fn value_count_message(name: Seq<char>, expected: nat, shape: Seq<usize>, read: nat) -> Seq<char> {
    named(name) + " has "@ + decimal(expected) + " values from shape "@ + list_text(shape)
        + ", but read "@ + decimal(read) + " values"@
}

/// Checks that `read` values were read from a 2-D dataset of shape `shape`.
pub fn check_value_count(dataset_name: &str, shape: &Vec<usize>, read: usize) -> (r: Result<(), String>)
    requires
        shape@.len() == 2,
        shape@[0] * shape@[1] <= usize::MAX,
    ensures
        r is Ok <==> read == shape@[0] * shape@[1],
        r matches Err(e) ==> e@ == value_count_message(dataset_name@, (shape@[0] * shape@[1]) as nat, shape@, read as nat),
{
    let expected_len = shape[0] * shape[1];
    if read != expected_len {
        let mut s = String::new();
        push_named(&mut s, dataset_name);
        s.append(" has ");
        push_decimal(&mut s, expected_len as u64);
        s.append(" values from shape ");
        push_list(&mut s, shape);
        s.append(", but read ");
        push_decimal(&mut s, read as u64);
        s.append(" values");
        proof {
            assert(s@ =~= value_count_message(dataset_name@, expected_len as nat, shape@, read as nat));
        }
        return Err(s);
    }
    Ok(())
}

pub open spec fn too_few_neighbours_message(name: Seq<char>, width: nat, k: nat) -> Seq<char> {
    named(name) + " has only "@ + decimal(width) + " ground-truth neighbors per query, but recall@"@
        + decimal(k) + " was requested"@
}

pub open spec fn too_few_rows_message(name: Seq<char>, rows: nat, query_count: nat) -> Seq<char> {
    named(name) + " contains only "@ + decimal(rows) + " rows, but "@ + decimal(query_count)
        + " queries were loaded"@
}

/// Checks that a ground-truth dataset of shape `shape` holds at least `k`
/// neighbours for each of `query_count` queries; returns the number of rows
/// to read, `query_count`.
pub fn ground_truth_rows(dataset_name: &str, shape: &Vec<usize>, query_count: usize, k: usize) -> (r: Result<usize, String>)
    ensures
        shape@.len() != 2 ==> (r matches Err(e) && e@ == not_2d_message(dataset_name@, shape@)),
        shape@.len() == 2 && shape@[1] < k ==> (r matches Err(e) && e@ == too_few_neighbours_message(
            dataset_name@,
            shape@[1] as nat,
            k as nat,
        )),
        shape@.len() == 2 && shape@[1] >= k && shape@[0] < query_count ==> (r matches Err(e) && e@
            == too_few_rows_message(dataset_name@, shape@[0] as nat, query_count as nat)),
        shape@.len() == 2 && shape@[1] >= k && shape@[0] >= query_count ==> r == Ok::<usize, String>(query_count),
{
    if shape.len() != 2 {
        return Err(not_2d(dataset_name, shape));
    }
    if shape[1] < k {
        let mut s = String::new();
        push_named(&mut s, dataset_name);
        s.append(" has only ");
        push_decimal(&mut s, shape[1] as u64);
        s.append(" ground-truth neighbors per query, but recall@");
        push_decimal(&mut s, k as u64);
        s.append(" was requested");
        proof {
            assert(s@ =~= too_few_neighbours_message(dataset_name@, shape@[1] as nat, k as nat));
        }
        return Err(s);
    }
    let rows = if query_count < shape[0] { query_count } else { shape[0] };
    if rows != query_count {
        let mut s = String::new();
        push_named(&mut s, dataset_name);
        s.append(" contains only ");
        push_decimal(&mut s, rows as u64);
        s.append(" rows, but ");
        push_decimal(&mut s, query_count as u64);
        s.append(" queries were loaded");
        proof {
            assert(s@ =~= too_few_rows_message(dataset_name@, rows as nat, query_count as nat));
        }
        return Err(s);
    }
    Ok(rows)
}

pub open spec fn ended_early_message(name: Seq<char>, expected: nat, got: nat) -> Seq<char> {
    named(name) + " ended early: expected at least "@ + decimal(expected) + " ids, got "@ + decimal(got)
}

/// The ground truth of each query: the first `k` ids of each of the first
/// `rows` rows of `width` ids in `raw`; an error when `raw` holds fewer than
/// `rows * width` ids.
pub fn build_ground_truth_from_usize(
    raw: Vec<usize>,
    dataset_name: &str,
    width: usize,
    rows: usize,
    k: usize,
) -> (r: Result<Vec<Vec<usize>>, String>)
    requires
        rows * width <= usize::MAX,
        raw@.len() >= rows * width ==> width > 0 && (rows > 0 ==> k <= width),
    ensures
        raw@.len() < rows * width <==> r is Err,
        r matches Err(e) ==> e@ == ended_early_message(dataset_name@, (rows * width) as nat, raw@.len()),
        r matches Ok(v) ==> v@.len() == rows && forall|i: int|
            0 <= i < rows ==> (#[trigger] v@[i])@ == rows_of(raw@, width as nat, rows as nat, k as nat)[i],
{
    let expected_len = rows * width;
    if raw.len() < expected_len {
        let mut s = String::new();
        push_named(&mut s, dataset_name);
        s.append(" ended early: expected at least ");
        push_decimal(&mut s, expected_len as u64);
        s.append(" ids, got ");
        push_decimal(&mut s, raw.len() as u64);
        proof {
            assert(s@ =~= ended_early_message(dataset_name@, (rows * width) as nat, raw@.len()));
        }
        return Err(s);
    }
    if rows == 0 {
        return Ok(Vec::new());
    }
    Ok(take_rows(&raw, width, rows, k))
}

/// The position of the first id of `raw` that `usize` cannot hold, if any.
pub open spec fn first_too_large(raw: Seq<u64>) -> Option<int> {
    if exists|i: int| 0 <= i < raw.len() && raw[i] > usize::MAX {
        Some(
            choose|i: int|
                0 <= i < raw.len() && raw[i] > usize::MAX && forall|j: int| 0 <= j < i ==> raw[j] <= usize::MAX,
        )
    } else {
        None
    }
}

proof fn lemma_first_too_large(raw: Seq<u64>, i: int)
    requires
        0 <= i < raw.len(),
        raw[i] > usize::MAX,
        forall|j: int| 0 <= j < i ==> #[trigger] raw[j] <= usize::MAX,
    ensures
        first_too_large(raw) == Some(i),
{
    assert(0 <= i < raw.len() && raw[i] > usize::MAX);
    let p = choose|p: int|
        0 <= p < raw.len() && raw[p] > usize::MAX && forall|j: int| 0 <= j < p ==> raw[j] <= usize::MAX;
    assert(0 <= i < raw.len() && raw[i] > usize::MAX && forall|j: int| 0 <= j < i ==> raw[j] <= usize::MAX);
    if p < i {
        assert(raw[p] <= usize::MAX);
    } else if p > i {
        assert(raw[i] <= usize::MAX);
    }
}

pub open spec fn too_large_id_message(name: Seq<char>, value: nat) -> Seq<char> {
    named(name) + " contains a ground-truth id that does not fit in usize: "@ + decimal(value)
}

/// As `build_ground_truth_from_usize`, for ids read as `u64`: an error names
/// the first id that `usize` cannot hold.
pub fn build_ground_truth_from_u64(
    raw: Vec<u64>,
    dataset_name: &str,
    width: usize,
    rows: usize,
    k: usize,
) -> (r: Result<Vec<Vec<usize>>, String>)
    requires
        rows * width <= usize::MAX,
        raw@.len() >= rows * width ==> width > 0 && (rows > 0 ==> k <= width),
    ensures
        first_too_large(raw@) matches Some(p) ==> (r matches Err(e) && e@ == too_large_id_message(
            dataset_name@,
            raw@[p] as nat,
        )),
        first_too_large(raw@) is None ==> {
            let ids = raw@.map_values(|v: u64| v as usize);
            &&& (raw@.len() < rows * width <==> r is Err)
            &&& (r matches Err(e) ==> e@ == ended_early_message(dataset_name@, (rows * width) as nat, raw@.len()))
            &&& (r matches Ok(v) ==> v@.len() == rows && forall|i: int|
                0 <= i < rows ==> (#[trigger] v@[i])@ == rows_of(ids, width as nat, rows as nat, k as nat)[i])
        },
{
    let mut ids: Vec<usize> = Vec::new();
    let n = raw.len();
    let mut i: usize = 0;
    while i < n
        invariant
            0 <= i <= n == raw@.len(),
            ids@.len() == i,
            forall|j: int| 0 <= j < i ==> #[trigger] raw@[j] <= usize::MAX,
            forall|j: int| 0 <= j < i ==> #[trigger] ids@[j] == raw@[j] as usize,
        decreases n - i,
    {
        let value = raw[i];
        if value > usize::MAX as u64 {
            let mut s = String::new();
            push_named(&mut s, dataset_name);
            s.append(" contains a ground-truth id that does not fit in usize: ");
            push_decimal(&mut s, value);
            proof {
                lemma_first_too_large(raw@, i as int);
                assert(s@ =~= too_large_id_message(dataset_name@, raw@[i as int] as nat));
            }
            return Err(s);
        }
        ids.push(value as usize);
        i += 1;
    }
    proof {
        assert(first_too_large(raw@) is None) by {
            if exists|p: int| 0 <= p < raw@.len() && raw@[p] > usize::MAX {
                let p = choose|p: int| 0 <= p < raw@.len() && raw@[p] > usize::MAX;
                assert(raw@[p] <= usize::MAX);
            }
        }
        assert(ids@ =~= raw@.map_values(|v: u64| v as usize));
    }
    build_ground_truth_from_usize(ids, dataset_name, width, rows, k)
}

/// The position of the first id of `raw` that `usize` cannot hold, if any.
pub open spec fn first_out_of_range(raw: Seq<i64>) -> Option<int> {
    if exists|i: int| 0 <= i < raw.len() && (raw[i] < 0 || raw[i] > usize::MAX) {
        Some(
            choose|i: int|
                0 <= i < raw.len() && (raw[i] < 0 || raw[i] > usize::MAX) && forall|j: int|
                    0 <= j < i ==> 0 <= #[trigger] raw[j] <= usize::MAX,
        )
    } else {
        None
    }
}

pub open spec fn negative_id_message(name: Seq<char>, value: int) -> Seq<char> {
    named(name) + " contains a negative ground-truth id: "@ + signed_decimal(value)
}

/// Ground-truth ids read as signed integers, as `usize`; an error names the
/// first id that `usize` cannot hold.
pub fn ids_from_i64(raw: Vec<i64>, dataset_name: &str) -> (r: Result<Vec<usize>, String>)
    ensures
        first_out_of_range(raw@) matches Some(p) ==> (r matches Err(e) && e@ == negative_id_message(
            dataset_name@,
            raw@[p] as int,
        )),
        first_out_of_range(raw@) is None ==> (r matches Ok(ids) && ids@ == raw@.map_values(|v: i64| v as usize)),
{
    let mut ids: Vec<usize> = Vec::new();
    let n = raw.len();
    let mut i: usize = 0;
    while i < n
        invariant
            0 <= i <= n == raw@.len(),
            ids@.len() == i,
            forall|j: int| 0 <= j < i ==> 0 <= #[trigger] raw@[j] <= usize::MAX,
            forall|j: int| 0 <= j < i ==> #[trigger] ids@[j] == raw@[j] as usize,
        decreases n - i,
    {
        let value = raw[i];
        if value < 0 || value as i128 > usize::MAX as i128 {
            let mut s = String::new();
            push_named(&mut s, dataset_name);
            s.append(" contains a negative ground-truth id: ");
            push_signed(&mut s, value);
            proof {
                let q = i as int;
                assert(0 <= q < raw@.len() && (raw@[q] < 0 || raw@[q] > usize::MAX));
                let p = choose|p: int|
                    0 <= p < raw@.len() && (raw@[p] < 0 || raw@[p] > usize::MAX) && forall|j: int|
                        0 <= j < p ==> 0 <= #[trigger] raw@[j] <= usize::MAX;
                assert(0 <= q < raw@.len() && (raw@[q] < 0 || raw@[q] > usize::MAX) && forall|j: int|
                    0 <= j < q ==> 0 <= #[trigger] raw@[j] <= usize::MAX);
                if p < q {
                    assert(0 <= raw@[p] <= usize::MAX);
                } else if p > q {
                    assert(0 <= raw@[q] <= usize::MAX);
                }
                assert(first_out_of_range(raw@) == Some(q));
                assert(s@ =~= negative_id_message(dataset_name@, raw@[q] as int));
            }
            return Err(s);
        }
        ids.push(value as usize);
        i += 1;
    }
    proof {
        assert(first_out_of_range(raw@) is None) by {
            if exists|p: int| 0 <= p < raw@.len() && (raw@[p] < 0 || raw@[p] > usize::MAX) {
                let p = choose|p: int| 0 <= p < raw@.len() && (raw@[p] < 0 || raw@[p] > usize::MAX);
                assert(0 <= raw@[p] <= usize::MAX);
            }
        }
        assert(ids@ =~= raw@.map_values(|v: i64| v as usize));
    }
    Ok(ids)
}

} // verus!
