use vstd::prelude::*;

verus! {

/// Parallelism strategy that can be passed to most of the routines in the library.
#[derive(Copy, Clone, Debug, PartialEq, Eq, Structural)]
pub enum Parallelism {
    /// No parallelism: the code runs sequentially on the calling thread.
    Sequential,
    /// Rayon parallelism, with a hint about the number of threads to use; `0` stands
    /// for the number of threads of the current rayon thread pool.
    Rayon(usize),
}

/// Number of threads of the current rayon thread pool.
///
/// Calls `rayon::current_num_threads`. Which pool that is depends on the calling
/// thread and on the environment, so only what holds of every pool is stated: a pool
/// is built with at least one thread (its size is the configured count, or the
/// machine's available parallelism, which is never zero, capped by rayon's maximum).
#[verifier::external_body]
fn current_num_threads() -> (r: usize)
    ensures
        r >= 1,
{
    rayon::current_num_threads()
}

/// Number of threads that `parallelism` stands for when the current rayon thread pool
/// has `pool_size` threads: `1` without parallelism, the hint itself when it is not
/// `0`, and otherwise `pool_size`.
pub open spec fn degree_spec(parallelism: Parallelism, pool_size: usize) -> usize {
    match parallelism {
        Parallelism::Sequential => 1,
        Parallelism::Rayon(n) => if n == 0 {
            pool_size
        } else {
            n
        },
    }
}

/// Number of threads that `parallelism` stands for, given the size of the current
/// rayon thread pool.
pub fn parallelism_degree_for(parallelism: Parallelism, pool_size: usize) -> (r: usize)
    ensures
        r == degree_spec(parallelism, pool_size),
{
    match parallelism {
        Parallelism::Sequential => 1,
        Parallelism::Rayon(0) => pool_size,
        Parallelism::Rayon(n_threads) => n_threads,
    }
}

/// Number of threads that `parallelism` stands for: `1` without parallelism, the hint
/// itself when it is not `0`, and otherwise the size of the current rayon thread pool,
/// which is at least `1`.
pub fn parallelism_degree(parallelism: Parallelism) -> (r: usize)
    ensures
        r >= 1,
        parallelism != Parallelism::Rayon(0) ==> r == degree_spec(parallelism, 1),
        parallelism == Parallelism::Rayon(0) ==> exists|pool_size: usize|
            pool_size >= 1 && r == #[trigger] degree_spec(parallelism, pool_size),
{
    match parallelism {
        Parallelism::Rayon(0) => {
            let pool_size = current_num_threads();
            let r = parallelism_degree_for(parallelism, pool_size);
            assert(r == degree_spec(parallelism, pool_size));
            r
        },
        _ => parallelism_degree_for(parallelism, 1),
    }
}

/// How two tasks joined under `parallelism` run, when the current rayon thread pool has
/// `pool_size` threads: `None` when they run one after the other, each without
/// parallelism; `Some(p)` when they run concurrently, each with the parallelism `p`,
/// which gives each task the larger half of the threads.
pub open spec fn join_spec(parallelism: Parallelism, pool_size: usize) -> Option<Parallelism> {
    match parallelism {
        Parallelism::Sequential => None,
        Parallelism::Rayon(n) => if n == 1 {
            None
        } else {
            let n = if n == 0 {
                pool_size
            } else {
                n
            };
            Some(Parallelism::Rayon((n - n / 2) as usize))
        },
    }
}

/// How two tasks joined under `parallelism` run, given the size of the current rayon
/// thread pool, which stands in for a hint of `0`.
pub fn join_parallelism_for(parallelism: Parallelism, pool_size: usize) -> (r: Option<Parallelism>)
    requires
        pool_size >= 1,
    ensures
        r == join_spec(parallelism, pool_size),
{
    match parallelism {
        Parallelism::Sequential => None,
        Parallelism::Rayon(n_threads) => {
            if n_threads == 1 {
                None
            } else {
                let n_threads = if n_threads > 0 { n_threads } else { pool_size };
                Some(Parallelism::Rayon(n_threads - n_threads / 2))
            }
        },
    }
}

/// How two tasks joined under `parallelism` run: `None` when they run one after the
/// other, each without parallelism; `Some(p)` when they run concurrently, each with
/// the parallelism `p`. A hint of `0` stands for the size of the current rayon thread
/// pool, which is read here.
pub fn join_parallelism(parallelism: Parallelism) -> (r: Option<Parallelism>)
    ensures
        parallelism != Parallelism::Rayon(0) ==> r == join_spec(parallelism, 1),
        parallelism == Parallelism::Rayon(0) ==> exists|pool_size: usize|
            pool_size >= 1 && r == #[trigger] join_spec(parallelism, pool_size),
{
    match parallelism {
        Parallelism::Rayon(0) => {
            let pool_size = current_num_threads();
            let r = join_parallelism_for(parallelism, pool_size);
            assert(r == join_spec(parallelism, pool_size));
            r
        },
        _ => join_parallelism_for(parallelism, 1),
    }
}

/// Joining splits the threads that the parallelism stands for between the two tasks:
/// with one thread (and a hint other than `0`) the tasks run one after the other;
/// otherwise each task gets the larger half, `ceil(d / 2)` of the `d` threads, and at
/// least one.
pub proof fn lemma_join_splits_degree(parallelism: Parallelism, pool_size: usize)
    requires
        pool_size >= 1,
    ensures
        degree_spec(parallelism, pool_size) >= 1,
        parallelism == Parallelism::Sequential ==> join_spec(parallelism, pool_size) is None,
        parallelism != Parallelism::Rayon(0) && degree_spec(parallelism, pool_size) == 1 ==> join_spec(
            parallelism,
            pool_size,
        ) is None,
        (parallelism == Parallelism::Rayon(0) || degree_spec(parallelism, pool_size) > 1) ==> exists|k: usize|
            {
                &&& join_spec(parallelism, pool_size) == Some(Parallelism::Rayon(k))
                &&& 1 <= k <= degree_spec(parallelism, pool_size)
                &&& degree_spec(parallelism, pool_size) <= 2 * k <= degree_spec(parallelism, pool_size) + 1
            },
{
    let d = degree_spec(parallelism, pool_size);
    if parallelism == Parallelism::Rayon(0) || d > 1 {
        let k = (d - d / 2) as usize;
        assert(join_spec(parallelism, pool_size) == Some(Parallelism::Rayon(k)));
    }
}

/// Start of chunk `idx` when `n` items are split into `chunk_count` chunks whose sizes
/// differ by at most one, the larger chunks first.
pub open spec fn chunk_start(n: nat, chunk_count: nat, idx: nat) -> nat {
    let chunk_size = n / chunk_count;
    let rem = n % chunk_count;
    if idx < rem {
        idx * (chunk_size + 1)
    } else {
        rem + idx * chunk_size
    }
}

proof fn lemma_chunk_step(n: nat, chunk_count: nat, idx: nat)
    requires
        chunk_count > 0,
    ensures
        chunk_start(n, chunk_count, idx + 1) == chunk_start(n, chunk_count, idx) + n / chunk_count + (if idx < n
            % chunk_count {
            1nat
        } else {
            0nat
        }),
{
    let q = n / chunk_count;
    let rem = n % chunk_count;
    assert((idx + 1) * (q + 1) == idx * (q + 1) + q + 1) by (nonlinear_arith);
    assert((idx + 1) * q == idx * q + q) by (nonlinear_arith);
    if idx < rem && idx + 1 >= rem {
        assert(idx + 1 == rem);
        assert(rem * (q + 1) == rem + rem * q) by (nonlinear_arith);
    }
}

/// Chunk starts never decrease.
proof fn lemma_chunk_monotone(n: nat, chunk_count: nat, a: nat, b: nat)
    requires
        chunk_count > 0,
        a <= b,
    ensures
        chunk_start(n, chunk_count, a) <= chunk_start(n, chunk_count, b),
    decreases b - a,
{
    if a < b {
        lemma_chunk_monotone(n, chunk_count, a, (b - 1) as nat);
        lemma_chunk_step(n, chunk_count, (b - 1) as nat);
    }
}

/// The start and the length of chunk `idx` when `n` items are split into
/// `chunk_count` chunks whose sizes differ by at most one, the larger chunks first.
pub fn par_split_indices(n: usize, idx: usize, chunk_count: usize) -> (r: (usize, usize))
    requires
        chunk_count > 0,
        idx < usize::MAX,
        chunk_start(n as nat, chunk_count as nat, (idx + 1) as nat) <= usize::MAX,
    ensures
        r.0 == chunk_start(n as nat, chunk_count as nat, idx as nat),
        r.0 + r.1 == chunk_start(n as nat, chunk_count as nat, (idx + 1) as nat),
{
    let chunk_size = n / chunk_count;
    let rem = n % chunk_count;
    proof {
        lemma_chunk_monotone(n as nat, chunk_count as nat, idx as nat, (idx + 1) as nat);
        lemma_chunk_step(n as nat, chunk_count as nat, idx as nat);
        if idx < rem {
            assert(idx * (chunk_size + 1) <= (idx + 1) * (chunk_size + 1)) by (nonlinear_arith);
        } else {
            assert(idx * chunk_size <= (idx + 1) * chunk_size) by (nonlinear_arith);
        }
        if idx + 1 < rem {
            assert((idx + 1) * (chunk_size + 1) >= 0) by (nonlinear_arith);
        }
    }
    let start = if idx < rem { idx * (chunk_size + 1) } else { rem + idx * chunk_size };
    let next = idx + 1;
    let end = if next < rem { next * (chunk_size + 1) } else { rem + next * chunk_size };
    (start, end - start)
}

/// The chunks of `par_split_indices` tile `0..n`: the first starts at `0`, each starts
/// where the previous one ends, the last ends at `n`, and chunk `idx` holds
/// `n / chunk_count` items, plus one for the first `n % chunk_count` chunks.
pub proof fn lemma_par_split_partition(n: nat, chunk_count: nat)
    requires
        chunk_count > 0,
    ensures
        chunk_start(n, chunk_count, 0) == 0,
        chunk_start(n, chunk_count, chunk_count) == n,
        forall|idx: nat|
            idx < chunk_count ==> #[trigger] chunk_start(n, chunk_count, idx + 1) == chunk_start(n, chunk_count, idx)
                + n / chunk_count + (if idx < n % chunk_count {
                1nat
            } else {
                0nat
            }),
        forall|a: nat, b: nat|
            a <= b ==> #[trigger] chunk_start(n, chunk_count, a) <= #[trigger] chunk_start(n, chunk_count, b),
{
    let q = n / chunk_count;
    let rem = n % chunk_count;
    assert(0 * (q + 1) == 0) by (nonlinear_arith);
    assert(0 * q == 0) by (nonlinear_arith);
    assert(chunk_count * q + rem == n) by (nonlinear_arith)
        requires
            q == n / chunk_count,
            rem == n % chunk_count,
            chunk_count > 0,
    ;
    assert forall|idx: nat| idx < chunk_count implies #[trigger] chunk_start(n, chunk_count, idx + 1) == chunk_start(
        n,
        chunk_count,
        idx,
    ) + q + (if idx < rem {
        1nat
    } else {
        0nat
    }) by {
        lemma_chunk_step(n, chunk_count, idx);
    }
    assert forall|a: nat, b: nat| a <= b implies #[trigger] chunk_start(n, chunk_count, a) <= #[trigger] chunk_start(
        n,
        chunk_count,
        b,
    ) by {
        lemma_chunk_monotone(n, chunk_count, a, b);
    }
}

/// `n` rounded up to the next multiple of `k`.
pub fn round_up_to(n: usize, k: usize) -> (r: usize)
    requires
        k > 0,
        n + (k - 1) <= usize::MAX,
    ensures
        r == (n + k - 1) / (k as int) * k,
        r % k == 0,
        n <= r < n + k,
{
    proof {
        let m = n + k - 1;
        let q = m / (k as int);
        assert(q * k <= m && m < q * k + k) by (nonlinear_arith)
            requires
                k > 0,
                q == m / (k as int),
        ;
        assert((q * k) % (k as int) == 0) by (nonlinear_arith)
            requires
                k > 0,
        ;
        assert(q * k >= 0) by (nonlinear_arith)
            requires
                k > 0,
                m >= 0,
                q == m / (k as int),
        ;
    }
    (n + (k - 1)) / k * k
}

} // verus!
