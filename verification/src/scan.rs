//! The fan-out plan of a mempool scan and the consumer that filters the
//! fetched transactions: pure decisions of the scanner, with the RPC calls
//! and the worker tasks left to the caller.

use crate::chain::{
    bytes_views, outpoint_views, spec_relevant, Outpoint, OutpointV, Transaction, MAX_WORKERS,
    MEMPOOL_FETCH_CHUNK_SIZE,
};
use vstd::prelude::*;

verus! {

pub open spec fn str_views(s: Seq<String>) -> Seq<Seq<char>> {
    s.map_values(|x: String| x@)
}

pub open spec fn str_views2(s: Seq<Vec<String>>) -> Seq<Seq<Seq<char>>> {
    s.map_values(|v: Vec<String>| str_views(v@))
}

pub open spec fn str_views3(s: Seq<Vec<Vec<String>>>) -> Seq<Seq<Seq<Seq<char>>>> {
    s.map_values(|v: Vec<Vec<String>>| str_views2(v@))
}

/// How many workers fetch the mempool: half the available parallelism,
/// at least one, at most `MAX_WORKERS`.
pub open spec fn spec_worker_count(parallelism: int) -> int {
    let half = parallelism / 2;
    if half < 1 {
        1
    } else if half > MAX_WORKERS as int {
        MAX_WORKERS as int
    } else {
        half
    }
}

pub fn worker_count(parallelism: usize) -> (n: usize)
    ensures
        n == spec_worker_count(parallelism as int),
        1 <= n <= MAX_WORKERS,
{
    let half = parallelism / 2;
    if half < 1 {
        1
    } else if half > MAX_WORKERS {
        MAX_WORKERS
    } else {
        half
    }
}

/// Contiguous pieces of `s`, each of `size` elements except a shorter last
/// one.
pub open spec fn spec_chunks<A>(s: Seq<A>, size: int) -> Seq<Seq<A>>
    decreases s.len(),
{
    if size < 1 || s.len() == 0 {
        Seq::empty()
    } else if s.len() <= size {
        seq![s]
    } else {
        seq![s.take(size)] + spec_chunks(s.skip(size), size)
    }
}

/// Chunking covers the whole sequence: the pieces concatenate back to it.
pub proof fn lemma_chunks_flatten<A>(s: Seq<A>, size: int)
    requires
        size >= 1,
    ensures
        spec_chunks(s, size).flatten() == s,
    decreases s.len(),
{
    let c = spec_chunks(s, size);
    if s.len() == 0 {
        assert(c.flatten() =~= s);
    } else if s.len() <= size {
        assert(c == seq![s]);
        assert(c.drop_first() =~= Seq::<Seq<A>>::empty());
        assert(c.flatten() =~= s + c.drop_first().flatten());
        assert(c.flatten() =~= s);
    } else {
        lemma_chunks_flatten(s.skip(size), size);
        assert(c.first() == s.take(size));
        assert(c.drop_first() =~= spec_chunks(s.skip(size), size));
        assert(c.flatten() =~= s.take(size) + spec_chunks(s.skip(size), size).flatten());
        assert(c.flatten() =~= s.take(size) + s.skip(size));
        assert(s.take(size) + s.skip(size) =~= s);
    }
}

/// A sequence of `n` elements falls into exactly `ceil(n / size)` chunks,
/// so each worker issues that many batched fetch calls for its chunk.
pub proof fn lemma_chunks_count<A>(s: Seq<A>, size: int)
    requires
        size >= 1,
    ensures
        spec_chunks(s, size).len() == (s.len() + size - 1) / size,
    decreases s.len(),
{
    if s.len() == 0 {
        assert((0 + size - 1) / size == 0) by (nonlinear_arith)
            requires
                size >= 1,
        ;
    } else if s.len() <= size {
        assert((s.len() + size - 1) / size == 1) by (nonlinear_arith)
            requires
                size >= 1 && 1 <= s.len() <= size,
        ;
    } else {
        lemma_chunks_count(s.skip(size), size);
        assert(s.skip(size).len() == s.len() - size);
        assert((s.len() - size + size - 1) / size + 1 == (s.len() + size - 1) / size)
            by (nonlinear_arith)
            requires
                size >= 1 && s.len() > size,
        ;
    }
}

fn chunk_strings(ids: &Vec<String>, size: usize) -> (r: Vec<Vec<String>>)
    requires
        size >= 1,
    ensures
        str_views2(r@) == spec_chunks(str_views(ids@), size as int),
{
    let mut r: Vec<Vec<String>> = Vec::new();
    let mut i: usize = 0;
    proof {
        assert(str_views(ids@).skip(0) =~= str_views(ids@));
        assert(str_views2(r@) + spec_chunks(str_views(ids@), size as int) =~= spec_chunks(
            str_views(ids@),
            size as int,
        ));
    }
    while i < ids.len()
        invariant
            size >= 1,
            i <= ids@.len(),
            spec_chunks(str_views(ids@), size as int) == str_views2(r@) + spec_chunks(
                str_views(ids@).skip(i as int),
                size as int,
            ),
        decreases ids@.len() - i,
    {
        let ghost pre = r@;
        let end = if ids.len() - i < size {
            ids.len()
        } else {
            i + size
        };
        let mut chunk: Vec<String> = Vec::new();
        let mut j: usize = i;
        while j < end
            invariant
                i <= j <= end,
                end <= ids@.len(),
                chunk@.len() == j - i,
                str_views(chunk@) == str_views(ids@).subrange(i as int, j as int),
            decreases end - j,
        {
            let ghost cpre = chunk@;
            chunk.push(ids[j].clone());
            proof {
                assert(chunk@ == cpre.push(chunk@[j - i]));
                assert(chunk@[j - i]@ == ids@[j as int]@);
                assert forall|m: int| 0 <= m < chunk@.len() implies str_views(chunk@)[m]
                    == str_views(ids@).subrange(i as int, j + 1)[m] by {
                    if m < cpre.len() {
                        assert(str_views(cpre)[m] == str_views(ids@).subrange(
                            i as int,
                            j as int,
                        )[m]);
                    }
                }
                assert(str_views(chunk@) =~= str_views(ids@).subrange(i as int, j + 1));
            }
            j += 1;
        }
        r.push(chunk);
        proof {
            let full = str_views(ids@);
            let rem = full.skip(i as int);
            assert(rem.len() == full.len() - i);
            if rem.len() <= size as int {
                assert(end == ids@.len());
                assert(str_views(chunk@) =~= rem);
                assert(spec_chunks(rem, size as int) == seq![rem]);
                assert(str_views2(r@) =~= str_views2(pre) + seq![rem]);
                assert(full.skip(end as int).len() == 0);
                assert(spec_chunks(full.skip(end as int), size as int) =~= Seq::<
                    Seq<Seq<char>>,
                >::empty());
                assert(str_views2(r@) + spec_chunks(full.skip(end as int), size as int) =~= str_views2(
                    pre,
                ) + spec_chunks(rem, size as int));
            } else {
                assert(end == i + size);
                assert(str_views(chunk@) =~= rem.take(size as int));
                assert(rem.skip(size as int) =~= full.skip(end as int));
                assert(spec_chunks(rem, size as int) == seq![rem.take(size as int)] + spec_chunks(
                    rem.skip(size as int),
                    size as int,
                ));
                assert(str_views2(r@) =~= str_views2(pre) + seq![rem.take(size as int)]);
                assert(str_views2(r@) + spec_chunks(full.skip(end as int), size as int) =~= str_views2(
                    pre,
                ) + spec_chunks(rem, size as int));
            }
        }
        i = end;
    }
    proof {
        assert(str_views(ids@).skip(i as int).len() == 0);
        assert(spec_chunks(str_views(ids@).skip(i as int), size as int) =~= Seq::<
            Seq<Seq<char>>,
        >::empty());
        assert(str_views2(r@) =~= str_views2(r@) + spec_chunks(
            str_views(ids@).skip(i as int),
            size as int,
        ));
    }
    r
}

/// The id list split into one contiguous chunk per worker, at most `k`
/// chunks in all: with `n` ids left for `k` workers, the next worker takes
/// `ceil(n / k)` of them.
pub open spec fn spec_partition<A>(s: Seq<A>, k: int) -> Seq<Seq<A>>
    decreases k,
{
    if k <= 0 || s.len() == 0 {
        Seq::empty()
    } else {
        let c = (s.len() + k - 1) / k;
        seq![s.take(c)] + spec_partition(s.skip(c), k - 1)
    }
}

/// A non-empty id list falls into exactly `min(k, n)` chunks — never more
/// than the worker count — and every chunk holds at least one id.
pub proof fn lemma_partition_count<A>(s: Seq<A>, k: int)
    requires
        k >= 0,
    ensures
        spec_partition(s, k).len() == if s.len() < k {
            s.len() as int
        } else {
            k
        },
        forall|w: int|
            0 <= w < spec_partition(s, k).len() ==> #[trigger] spec_partition(s, k)[w].len() >= 1,
    decreases k,
{
    let p = spec_partition(s, k);
    if k >= 1 && s.len() > 0 {
        let n = s.len() as int;
        let c = (n + k - 1) / k;
        assert(1 <= c <= n) by (nonlinear_arith)
            requires
                k >= 1 && n >= 1 && c == (n + k - 1) / k,
        ;
        lemma_partition_count(s.skip(c), k - 1);
        assert(s.skip(c).len() == n - c);
        if n < k {
            assert(c == 1) by (nonlinear_arith)
                requires
                    k >= 1 && 1 <= n < k && c == (n + k - 1) / k,
            ;
        } else {
            assert(n - c >= k - 1) by (nonlinear_arith)
                requires
                    k >= 1 && n >= k && c == (n + k - 1) / k,
            ;
        }
        assert forall|w: int| 0 <= w < p.len() implies #[trigger] p[w].len() >= 1 by {
            if w == 0 {
                assert(p[0] == s.take(c));
            } else {
                assert(p[w] == spec_partition(s.skip(c), k - 1)[w - 1]);
            }
        }
    }
}

/// Partitioning covers the whole id list: the chunks concatenate back.
pub proof fn lemma_partition_flatten<A>(s: Seq<A>, k: int)
    requires
        k >= 1,
    ensures
        spec_partition(s, k).flatten() == s,
    decreases k,
{
    let p = spec_partition(s, k);
    if s.len() == 0 {
        assert(p.flatten() =~= s);
    } else {
        let n = s.len() as int;
        let c = (n + k - 1) / k;
        assert(1 <= c <= n) by (nonlinear_arith)
            requires
                k >= 1 && n >= 1 && c == (n + k - 1) / k,
        ;
        assert(p.first() == s.take(c));
        assert(p.drop_first() =~= spec_partition(s.skip(c), k - 1));
        if k == 1 {
            assert(c == n) by (nonlinear_arith)
                requires
                    k == 1 && c == (n + k - 1) / k,
            ;
            assert(s.skip(c).len() == 0);
            assert(spec_partition(s.skip(c), 0) =~= Seq::<Seq<A>>::empty());
            assert(p.flatten() =~= s.take(c) + spec_partition(s.skip(c), 0).flatten());
            assert(Seq::<Seq<A>>::empty().flatten() =~= Seq::<A>::empty());
            assert(s.take(c) =~= s);
            assert(p.flatten() =~= s);
        } else {
            lemma_partition_flatten(s.skip(c), k - 1);
            assert(p.flatten() =~= s.take(c) + s.skip(c));
            assert(s.take(c) + s.skip(c) =~= s);
        }
    }
}

fn partition_strings(ids: &Vec<String>, workers: usize) -> (r: Vec<Vec<String>>)
    requires
        workers >= 1,
    ensures
        str_views2(r@) == spec_partition(str_views(ids@), workers as int),
{
    let mut r: Vec<Vec<String>> = Vec::new();
    let mut i: usize = 0;
    let mut k: usize = workers;
    proof {
        assert(str_views(ids@).skip(0) =~= str_views(ids@));
        assert(str_views2(r@) + spec_partition(str_views(ids@), workers as int) =~= spec_partition(
            str_views(ids@),
            workers as int,
        ));
    }
    while i < ids.len()
        invariant
            i <= ids@.len(),
            k <= workers,
            i < ids@.len() ==> k >= 1,
            spec_partition(str_views(ids@), workers as int) == str_views2(r@) + spec_partition(
                str_views(ids@).skip(i as int),
                k as int,
            ),
        decreases ids@.len() - i,
    {
        let ghost pre = r@;
        let rem = ids.len() - i;
        let c = if rem % k == 0 {
            rem / k
        } else {
            proof {
                assert(k >= 2) by (nonlinear_arith)
                    requires
                        k >= 1 && rem >= 1 && (rem as int) % (k as int) != 0,
                ;
                assert((rem as int) / (k as int) < rem as int) by (nonlinear_arith)
                    requires
                        k >= 2 && rem >= 1,
                ;
            }
            rem / k + 1
        };
        proof {
            if rem % k == 0 {
                assert((rem as int + k as int - 1) / (k as int) == (rem as int) / (k as int)) by (nonlinear_arith)
                    requires
                        k >= 1 && rem >= 1 && (rem as int) % (k as int) == 0,
                ;
            } else {
                assert((rem as int + k as int - 1) / (k as int) == (rem as int) / (k as int) + 1) by (nonlinear_arith)
                    requires
                        k >= 1 && rem >= 1 && (rem as int) % (k as int) != 0,
                ;
            }
            assert(1 <= c <= rem) by (nonlinear_arith)
                requires
                    k >= 1 && rem >= 1 && c == (rem as int + k as int - 1) / (k as int),
            ;
        }
        let end = i + c;
        let mut chunk: Vec<String> = Vec::new();
        let mut j: usize = i;
        while j < end
            invariant
                i <= j <= end,
                end <= ids@.len(),
                chunk@.len() == j - i,
                str_views(chunk@) == str_views(ids@).subrange(i as int, j as int),
            decreases end - j,
        {
            let ghost cpre = chunk@;
            chunk.push(ids[j].clone());
            proof {
                assert(chunk@ == cpre.push(chunk@[j - i]));
                assert(chunk@[j - i]@ == ids@[j as int]@);
                assert forall|m: int| 0 <= m < chunk@.len() implies str_views(chunk@)[m]
                    == str_views(ids@).subrange(i as int, j + 1)[m] by {
                    if m < cpre.len() {
                        assert(str_views(cpre)[m] == str_views(ids@).subrange(
                            i as int,
                            j as int,
                        )[m]);
                    }
                }
                assert(str_views(chunk@) =~= str_views(ids@).subrange(i as int, j + 1));
            }
            j += 1;
        }
        r.push(chunk);
        proof {
            let full = str_views(ids@);
            let remv = full.skip(i as int);
            assert(remv.len() == rem);
            assert(spec_partition(remv, k as int) == seq![remv.take(c as int)] + spec_partition(
                remv.skip(c as int),
                k as int - 1,
            ));
            assert(str_views(chunk@) =~= remv.take(c as int));
            assert(remv.skip(c as int) =~= full.skip(end as int));
            assert(str_views2(r@) =~= str_views2(pre) + seq![remv.take(c as int)]);
            assert(str_views2(r@) + spec_partition(full.skip(end as int), k as int - 1)
                =~= str_views2(pre) + spec_partition(remv, k as int));
            if end < ids.len() {
                assert(k >= 2) by (nonlinear_arith)
                    requires
                        k >= 1 && rem >= 1 && c < rem && c == (rem as int + k as int - 1) / (
                        k as int),
                ;
            }
        }
        i = end;
        k -= 1;
    }
    proof {
        assert(str_views(ids@).skip(i as int).len() == 0);
        assert(spec_partition(str_views(ids@).skip(i as int), k as int) =~= Seq::<
            Seq<Seq<char>>,
        >::empty());
        assert(str_views2(r@) =~= str_views2(r@) + spec_partition(
            str_views(ids@).skip(i as int),
            k as int,
        ));
    }
    r
}

/// A chunk split into fetch batches of at most `MEMPOOL_FETCH_CHUNK_SIZE`
/// ids each.
pub open spec fn batches_of(c: Seq<Seq<char>>) -> Seq<Seq<Seq<char>>> {
    spec_chunks(c, MEMPOOL_FETCH_CHUNK_SIZE as int)
}

pub open spec fn plan_of_chunks(chunks: Seq<Seq<Seq<char>>>) -> Seq<Seq<Seq<Seq<char>>>> {
    chunks.map_values(|c: Seq<Seq<char>>| batches_of(c))
}

/// The full fan-out plan of a scan: one contiguous chunk per worker —
/// never more chunks than the worker count — each chunk split into fetch
/// batches of at most `MEMPOOL_FETCH_CHUNK_SIZE` ids.
pub open spec fn spec_plan(ids: Seq<Seq<char>>, parallelism: int) -> Seq<Seq<Seq<Seq<char>>>> {
    plan_of_chunks(spec_partition(ids, spec_worker_count(parallelism)))
}

/// Plans a mempool scan: an empty mempool plans no work at all, otherwise
/// the id list is split into one contiguous non-empty chunk per worker —
/// `min(worker count, ids)` chunks, so never more than `MAX_WORKERS`
/// concurrent fetch tasks — and each chunk into fetch batches.
pub fn plan_scan(ids: &Vec<String>, parallelism: usize) -> (plan: Vec<Vec<Vec<String>>>)
    ensures
        str_views3(plan@) == spec_plan(str_views(ids@), parallelism as int),
        ids@.len() == 0 ==> plan@.len() == 0,
        ids@.len() > 0 ==> plan@.len() == (if ids@.len() < spec_worker_count(parallelism as int) {
            ids@.len() as int
        } else {
            spec_worker_count(parallelism as int)
        }),
        plan@.len() <= MAX_WORKERS,
{
    let workers = worker_count(parallelism);
    let chunks = partition_strings(ids, workers);
    let mut plan: Vec<Vec<Vec<String>>> = Vec::new();
    let mut i: usize = 0;
    while i < chunks.len()
        invariant
            i <= chunks@.len(),
            plan@.len() == i,
            str_views2(chunks@) == spec_partition(
                str_views(ids@),
                spec_worker_count(parallelism as int),
            ),
            str_views3(plan@) == plan_of_chunks(str_views2(chunks@).take(i as int)),
        decreases chunks@.len() - i,
    {
        let ghost ppre = plan@;
        let batches = chunk_strings(&chunks[i], MEMPOOL_FETCH_CHUNK_SIZE);
        plan.push(batches);
        proof {
            assert(str_views2(chunks@)[i as int] == str_views(chunks@[i as int]@));
            assert(str_views3(plan@)[i as int] == str_views2(batches@));
            assert forall|m: int| 0 <= m < plan@.len() implies str_views3(plan@)[m]
                == plan_of_chunks(str_views2(chunks@).take(i + 1))[m] by {
                if m < i {
                    assert(str_views3(ppre)[m] == plan_of_chunks(
                        str_views2(chunks@).take(i as int),
                    )[m]);
                }
            }
            assert(str_views3(plan@) =~= plan_of_chunks(str_views2(chunks@).take(i + 1)));
        }
        i += 1;
    }
    proof {
        assert(str_views2(chunks@).take(chunks@.len() as int) =~= str_views2(chunks@));
        assert(str_views3(plan@) == spec_plan(str_views(ids@), parallelism as int));
        lemma_partition_count(str_views(ids@), spec_worker_count(parallelism as int));
    }
    plan
}

/// All ids of a scan plan, workers' batches concatenated back together.
pub open spec fn plan_ids(plan: Seq<Seq<Seq<Seq<char>>>>) -> Seq<Seq<char>> {
    plan.map_values(|b: Seq<Seq<Seq<char>>>| b.flatten()).flatten()
}

/// A scan plan covers the mempool exactly: concatenating every worker's
/// batches yields the id list that was planned.
pub proof fn lemma_plan_covers(ids: Seq<Seq<char>>, parallelism: int)
    ensures
        plan_ids(spec_plan(ids, parallelism)) == ids,
{
    let chunks = spec_partition(ids, spec_worker_count(parallelism));
    let plan = spec_plan(ids, parallelism);
    assert forall|w: int| 0 <= w < plan.len() implies plan.map_values(
        |b: Seq<Seq<Seq<char>>>| b.flatten(),
    )[w] == chunks[w] by {
        assert(plan[w] == batches_of(chunks[w]));
        lemma_chunks_flatten(chunks[w], MEMPOOL_FETCH_CHUNK_SIZE as int);
    }
    assert(plan.map_values(|b: Seq<Seq<Seq<char>>>| b.flatten()) =~= chunks);
    lemma_partition_flatten(ids, spec_worker_count(parallelism));
}

/// In a scan plan, a worker holds exactly
/// `ceil(its chunk size / MEMPOOL_FETCH_CHUNK_SIZE)` fetch batches.
pub proof fn lemma_plan_batches(ids: Seq<Seq<char>>, parallelism: int, w: int)
    requires
        0 <= w < spec_plan(ids, parallelism).len(),
    ensures
        ({
            let chunks = spec_partition(ids, spec_worker_count(parallelism));
            spec_plan(ids, parallelism)[w].len() == (chunks[w].len()
                + MEMPOOL_FETCH_CHUNK_SIZE - 1) / (MEMPOOL_FETCH_CHUNK_SIZE as int)
        }),
{
    let chunks = spec_partition(ids, spec_worker_count(parallelism));
    assert(spec_plan(ids, parallelism)[w] == batches_of(chunks[w]));
    lemma_chunks_count(chunks[w], MEMPOOL_FETCH_CHUNK_SIZE as int);
}

/// Decoding a fetched transaction failed: fatal to the whole scan.
#[derive(Debug)]
pub struct ParseError {
    pub message: String,
}

/// Fetching one transaction of an otherwise successful batch failed: the
/// item is skipped, the scan goes on.
#[derive(Debug)]
pub struct ItemError {
    pub message: String,
}

/// What one batched fetch call produced.
pub enum BatchOutcome {
    /// The call came back; items may still have failed one by one.
    Fetched(Vec<Result<String, ItemError>>),
    /// The whole call failed: the worker stops early.
    TransportFailed,
}

/// The hex strings of the items that were fetched, in order, skipping the
/// items that failed.
pub open spec fn fetched_ok(items: Seq<Result<String, ItemError>>) -> Seq<String>
    decreases items.len(),
{
    if items.len() == 0 {
        Seq::empty()
    } else {
        let rest = fetched_ok(items.drop_last());
        if items.last() is Ok {
            rest.push(items.last()->Ok_0)
        } else {
            rest
        }
    }
}

/// A worker's failure policy for one batched fetch call: a transport
/// failure forwards nothing and stops the worker; a fetched batch forwards
/// its successful items in order, skipping failed ones, and the worker
/// goes on.
pub fn worker_step(outcome: BatchOutcome) -> (r: (Vec<String>, bool))
    ensures
        outcome is TransportFailed ==> r.0@ == Seq::<String>::empty() && r.1 == false,
        outcome is Fetched ==> r.0@ == fetched_ok(outcome->Fetched_0@) && r.1 == true,
{
    match outcome {
        BatchOutcome::TransportFailed => (Vec::new(), false),
        BatchOutcome::Fetched(items) => {
            let ghost orig = items@;
            let mut items = items;
            let _total: usize = items.len();
            let mut out: Vec<String> = Vec::new();
            let mut k: usize = 0;
            proof {
                assert(orig.len() <= usize::MAX as int);
                assert(orig.skip(0) =~= orig);
                assert(orig.take(0) =~= Seq::<Result<String, ItemError>>::empty());
            }
            while items.len() > 0
                invariant
                    0 <= k <= orig.len() <= usize::MAX,
                    items@ == orig.skip(k as int),
                    out@ == fetched_ok(orig.take(k as int)),
                decreases items@.len(),
            {
                let item = items.remove(0);
                proof {
                    assert(k < orig.len());
                    assert(item == orig[k as int]);
                    assert(items@ =~= orig.skip(k + 1));
                    assert(orig.take(k + 1).drop_last() =~= orig.take(k as int));
                    assert(orig.take(k + 1).last() == orig[k as int]);
                }
                match item {
                    Ok(hex_tx) => {
                        out.push(hex_tx);
                    },
                    Err(_) => {},
                }
                k += 1;
            }
            proof {
                assert(orig.take(k as int) =~= orig);
            }
            (out, true)
        },
    }
}

/// Whether every fetched transaction decoded successfully.
pub open spec fn all_parsed(s: Seq<Result<Transaction, ParseError>>) -> bool {
    forall|i: int| 0 <= i < s.len() ==> s[i] is Ok
}

/// The first decode failure, which aborts the scan.
pub open spec fn first_parse_error(s: Seq<Result<Transaction, ParseError>>) -> ParseError
    decreases s.len(),
{
    if s.len() == 0 {
        arbitrary()
    } else if s[0] is Err {
        s[0]->Err_0
    } else {
        first_parse_error(s.drop_first())
    }
}

proof fn lemma_first_parse_error_at(s: Seq<Result<Transaction, ParseError>>, k: int)
    requires
        0 <= k < s.len(),
        s[k] is Err,
        forall|j: int| 0 <= j < k ==> s[j] is Ok,
    ensures
        first_parse_error(s) == s[k]->Err_0,
    decreases k,
{
    if k > 0 {
        lemma_first_parse_error_at(s.drop_first(), k - 1);
    }
}

/// The relevant transactions among the successfully decoded ones, in order.
pub open spec fn spec_relevant_txs(
    s: Seq<Result<Transaction, ParseError>>,
    ins: Seq<OutpointV>,
    outs: Seq<Seq<u8>>,
) -> Seq<Transaction>
    decreases s.len(),
{
    if s.len() == 0 {
        Seq::empty()
    } else {
        let rest = spec_relevant_txs(s.drop_last(), ins, outs);
        if s.last() is Ok && spec_relevant(s.last()->Ok_0@, ins, outs) {
            rest.push(s.last()->Ok_0)
        } else {
            rest
        }
    }
}

/// What a scan returns is a subset of what was fetched and decoded: every
/// returned transaction is the payload of a successfully decoded item and
/// is relevant.
pub proof fn lemma_relevant_subset(
    s: Seq<Result<Transaction, ParseError>>,
    ins: Seq<OutpointV>,
    outs: Seq<Seq<u8>>,
)
    ensures
        forall|t: Transaction|
            spec_relevant_txs(s, ins, outs).contains(t) ==> (exists|i: int|
                0 <= i < s.len() && s[i] is Ok && s[i]->Ok_0 == t) && spec_relevant(
                t@,
                ins,
                outs,
            ),
    decreases s.len(),
{
    if s.len() > 0 {
        lemma_relevant_subset(s.drop_last(), ins, outs);
        let cur = spec_relevant_txs(s, ins, outs);
        let rest = spec_relevant_txs(s.drop_last(), ins, outs);
        assert forall|t: Transaction| cur.contains(t) implies (exists|i: int|
            0 <= i < s.len() && s[i] is Ok && s[i]->Ok_0 == t) && spec_relevant(
            t@,
            ins,
            outs,
        ) by {
            let j = choose|j: int| 0 <= j < cur.len() && cur[j] == t;
            if j < rest.len() {
                assert(rest[j] == t);
                assert(rest.contains(t));
                let i = choose|i: int|
                    0 <= i < s.drop_last().len() && s.drop_last()[i] is Ok && s.drop_last()[i]->Ok_0
                        == t;
                assert(s[i] == s.drop_last()[i]);
                assert(0 <= i < s.len() && s[i] is Ok && s[i]->Ok_0 == t);
            } else {
                assert(cur[j] == s.last()->Ok_0);
                assert(s[s.len() - 1] is Ok && s[s.len() - 1]->Ok_0 == t);
            }
        }
    }
}

/// Drains the fetched, decoded transactions and keeps the relevant ones: a
/// decode failure is fatal to the whole scan and surfaces as the error of
/// the first failed item, while with every item decoded the relevant
/// transactions come back in order.
pub fn collect_relevant(
    parsed: Vec<Result<Transaction, ParseError>>,
    relevant_inputs: &Vec<Outpoint>,
    relevant_outputs: &Vec<Vec<u8>>,
) -> (r: Result<Vec<Transaction>, ParseError>)
    ensures
        all_parsed(parsed@) ==> r is Ok && r->Ok_0@ == spec_relevant_txs(
            parsed@,
            outpoint_views(relevant_inputs@),
            bytes_views(relevant_outputs@),
        ),
        !all_parsed(parsed@) ==> r is Err && r->Err_0 == first_parse_error(parsed@),
{
    let ghost orig = parsed@;
    let ghost ins = outpoint_views(relevant_inputs@);
    let ghost outs = bytes_views(relevant_outputs@);
    let mut remaining = parsed;
    let _total: usize = remaining.len();
    let mut acc: Vec<Transaction> = Vec::new();
    let mut failure: Option<ParseError> = None;
    let mut k: usize = 0;
    proof {
        assert(orig.len() <= usize::MAX as int);
        assert(orig.skip(0) =~= orig);
        assert(orig.take(0) =~= Seq::<Result<Transaction, ParseError>>::empty());
    }
    while remaining.len() > 0 && failure.is_none()
        invariant
            orig.len() <= usize::MAX,
            ins == outpoint_views(relevant_inputs@),
            outs == bytes_views(relevant_outputs@),
            failure is None ==> {
                &&& 0 <= k <= orig.len()
                &&& remaining@ == orig.skip(k as int)
                &&& forall|j: int| 0 <= j < k ==> orig[j] is Ok
                &&& acc@ == spec_relevant_txs(orig.take(k as int), ins, outs)
            },
            failure is Some ==> !all_parsed(orig) && failure->0 == first_parse_error(orig),
        decreases remaining@.len(),
    {
        let item = remaining.remove(0);
        proof {
            assert(k < orig.len());
            assert(item == orig[k as int]);
            assert(remaining@ =~= orig.skip(k + 1));
            assert(orig.take(k + 1).drop_last() =~= orig.take(k as int));
            assert(orig.take(k + 1).last() == orig[k as int]);
        }
        match item {
            Err(e) => {
                proof {
                    lemma_first_parse_error_at(orig, k as int);
                    assert(orig[k as int] is Err);
                    assert(!all_parsed(orig));
                }
                failure = Some(e);
            },
            Ok(tx) => {
                let keep = crate::chain::ChainClient::is_relevant_tx(
                    relevant_inputs,
                    relevant_outputs,
                    &tx,
                );
                if keep {
                    acc.push(tx);
                }
                k += 1;
            },
        }
    }
    match failure {
        Some(e) => Err(e),
        None => {
            proof {
                assert(remaining@.len() == 0);
                assert(orig.take(k as int) =~= orig);
                assert(all_parsed(orig));
            }
            Ok(acc)
        },
    }
}

} // verus!
