use vstd::prelude::*;

verus! {

/// The `i`-th range of a partition of `[0, total)` into pieces of `size`
/// indices, the last one possibly shorter.
pub open spec fn chunk_spec(total: nat, size: nat, i: nat) -> (nat, nat) {
    let s = i * size;
    let e = if s + size <= total { s + size } else { total };
    (s, e)
}

/// How many ranges that partition has.
pub open spec fn chunk_count(total: nat, size: nat) -> nat
    recommends size >= 1,
{
    ((total + size - 1) as nat) / size
}

/// Splits the flattened index space `[0, total)` into consecutive ranges of at
/// most `size` indices, in ascending order.
pub fn chunks(total: u64, size: u64) -> (r: Vec<(u64, u64)>)
    requires
        size >= 1,
    ensures
        r@.len() == chunk_count(total as nat, size as nat),
        forall|i: int|
            0 <= i < r@.len() ==> (r@[i].0 as nat, r@[i].1 as nat) == chunk_spec(
                total as nat,
                size as nat,
                i as nat,
            ),
{
    let mut r: Vec<(u64, u64)> = Vec::new();
    let mut start: u64 = 0;
    proof {
        lemma_chunks_partition(total as nat, size as nat);
        assert(0 * size as nat == 0);
    }
    while start < total
        invariant
            size >= 1,
            start <= total,
            start < total ==> start as nat == r@.len() * size as nat,
            start < total ==> r@.len() < chunk_count(total as nat, size as nat),
            start == total ==> r@.len() == chunk_count(total as nat, size as nat),
            forall|i: int|
                0 <= i < r@.len() ==> (r@[i].0 as nat, r@[i].1 as nat) == chunk_spec(
                    total as nat,
                    size as nat,
                    i as nat,
                ),
        decreases total - start,
    {
        let end: u64 = if total - start >= size { start + size } else { total };
        proof {
            lemma_count_step(total as nat, size as nat, r@.len());
            assert((r@.len() + 1) * size as nat == r@.len() * size as nat + size) by (nonlinear_arith);
        }
        r.push((start, end));
        start = end;
    }
    r
}

proof fn lemma_count_step(total: nat, size: nat, k: nat)
    requires
        size >= 1,
        k * size < total,
    ensures
        k < chunk_count(total, size),
        (k + 1) * size >= total ==> k + 1 == chunk_count(total, size),
        (k + 1) * size < total ==> k + 1 < chunk_count(total, size),
{
    assert(((total + size - 1) as nat) / size >= k + 1) by (nonlinear_arith)
        requires size >= 1, k * size < total;
    if (k + 1) * size >= total {
        assert(((total + size - 1) as nat) / size <= k + 1) by (nonlinear_arith)
            requires size >= 1, (k + 1) * size >= total;
    } else {
        assert(((total + size - 1) as nat) / size >= k + 2) by (nonlinear_arith)
            requires size >= 1, (k + 1) * size < total;
    }
}

/// The partition that `chunks` produces covers `[0, total)` exactly: the
/// ranges are non-empty, each starts where the previous one ended, the first
/// starts at 0, the last ends at `total`, and none is longer than `size`.
pub proof fn lemma_chunks_partition(total: nat, size: nat)
    requires
        size >= 1,
    ensures
        forall|i: nat|
            i < chunk_count(total, size) ==> #[trigger] chunk_spec(total, size, i).0 < chunk_spec(
                total,
                size,
                i,
            ).1 <= total && chunk_spec(total, size, i).1 - chunk_spec(total, size, i).0 <= size,
        forall|i: nat|
            i + 1 < chunk_count(total, size) ==> #[trigger] chunk_spec(total, size, i + 1).0
                == chunk_spec(total, size, i).1,
        chunk_count(total, size) > 0 ==> chunk_spec(total, size, 0).0 == 0,
        chunk_count(total, size) > 0 ==> chunk_spec(
            total,
            size,
            (chunk_count(total, size) - 1) as nat,
        ).1 == total,
        chunk_count(total, size) == 0 <==> total == 0,
{
    assert forall|i: nat| i < chunk_count(total, size) implies #[trigger] chunk_spec(
        total,
        size,
        i,
    ).0 < chunk_spec(total, size, i).1 <= total && chunk_spec(total, size, i).1 - chunk_spec(
        total,
        size,
        i,
    ).0 <= size by {
        assert(i * size < total) by (nonlinear_arith)
            requires size >= 1, i < ((total + size - 1) as nat) / size;
    }
    assert forall|i: nat| i + 1 < chunk_count(total, size) implies #[trigger] chunk_spec(
        total,
        size,
        i + 1,
    ).0 == chunk_spec(total, size, i).1 by {
        assert((i + 1) * size < total) by (nonlinear_arith)
            requires size >= 1, i + 1 < ((total + size - 1) as nat) / size;
        assert((i + 1) * size == i * size + size) by (nonlinear_arith);
    }
    if chunk_count(total, size) > 0 {
        let k = (chunk_count(total, size) - 1) as nat;
        assert(k * size < total) by (nonlinear_arith)
            requires size >= 1, k < ((total + size - 1) as nat) / size;
        assert(k * size + size >= total) by (nonlinear_arith)
            requires size >= 1, k + 1 == ((total + size - 1) as nat) / size;
        assert(0nat * size == 0);
    }
    if total == 0 {
        assert(((size - 1) as nat) / size == 0) by (nonlinear_arith)
            requires size >= 1;
    } else {
        assert(((total + size - 1) as nat) / size >= 1) by (nonlinear_arith)
            requires size >= 1, total >= 1;
    }
}

/// The three-dimensional coordinates of flattened index `flat` in an index
/// space of extent `(n0, n1, n2)`: the first coordinate varies fastest.
pub open spec fn coords_spec(flat: nat, n0: nat, n1: nat) -> (nat, nat, nat)
    recommends n0 >= 1, n1 >= 1,
{
    (flat % n0, (flat / n0) % n1, flat / (n0 * n1))
}

/// Recovers the task coordinates of a flattened index.
pub fn coords(flat: u64, n0: u32, n1: u32, n2: u32) -> (r: (u32, u32, u32))
    requires
        (flat as nat) < (n0 as nat) * (n1 as nat) * (n2 as nat),
    ensures
        (r.0 as nat, r.1 as nat, r.2 as nat) == coords_spec(flat as nat, n0 as nat, n1 as nat),
        r.0 < n0,
        r.1 < n1,
        r.2 < n2,
        flat as nat == r.0 as nat + n0 as nat * (r.1 as nat + n1 as nat * r.2 as nat),
{
    let a: u64 = n0 as u64;
    let b: u64 = n1 as u64;
    proof {
        assert(a >= 1 && b >= 1 && n2 >= 1) by (nonlinear_arith)
            requires (flat as nat) < (n0 as nat) * (n1 as nat) * (n2 as nat), a == n0, b == n1;
    }
    let x = flat % a;
    let q = flat / a;
    let y = q % b;
    let z = q / b;
    proof {
        let f = flat as int;
        let (ai, bi) = (a as int, b as int);
        let (qi, xi, yi, zi) = (q as int, x as int, y as int, z as int);
        assert(f == ai * qi + xi) by (nonlinear_arith) requires ai >= 1, qi == f / ai, xi == f % ai;
        assert(qi == bi * zi + yi) by (nonlinear_arith) requires bi >= 1, zi == qi / bi, yi == qi % bi;
        assert(zi == f / (ai * bi)) by {
            vstd::arithmetic::div_mod::lemma_div_denominator(f, ai, bi);
        }
        assert(zi < n2) by (nonlinear_arith)
            requires f < ai * bi * n2, f == ai * qi + xi, qi == bi * zi + yi, xi >= 0, yi >= 0,
                xi < ai, ai >= 1, bi >= 1, yi < bi;
        assert(f == xi + ai * (yi + bi * zi)) by (nonlinear_arith)
            requires f == ai * qi + xi, qi == bi * zi + yi;
    }
    (x as u32, y as u32, z as u32)
}

} // verus!
