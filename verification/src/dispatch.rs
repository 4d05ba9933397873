//! The dispatcher and the result reassembler: interchangeable strategies
//! feed requests to the kernel and hand back one result per request, in
//! the order the requests were submitted.
//!
//! Every strategy ensures the same thing: the returned sequence is
//! [`dispatch_results`], the kernel's output for each request in
//! submission order. That single shared contract is the
//! strategy-equivalence guarantee: any two strategies' outputs on the same
//! input are equal, element for element. The parallel strategy is covered
//! by its pieces: [`build_queues`] splits the requests by section,
//! [`run_section`] is one worker's whole job, and [`reassemble_sums`]
//! restores submission order from the per-section streams —
//! [`lemma_section_outputs_as_walks`] ties a worker's stream to exactly
//! the stream the reassembler needs.

use crate::kernel::{handle_request, lemma_walk_bounds, walk};
use crate::partition::{address_mask, is_address_mask, lemma_address_mask, num_to_bitmask};
use crate::{Config, Request};
use vstd::arithmetic::mul::lemma_mul_inequality;
use vstd::prelude::*;
use vstd::slice::{slice_index_get, slice_subrange};

verus! {

/// The bytes of section `s` in a buffer of `bps`-byte sections: section `s`
/// occupies `[s * bps, (s + 1) * bps)`, so sections are equal, contiguous
/// and disjoint.
pub open spec fn section_slice(set: Seq<u8>, s: int, bps: int) -> Seq<u8> {
    set.subrange(s * bps, s * bps + bps)
}

/// The kernel's output for one request: a walk over the request's section,
/// from the request's start, under the configuration's mask and iteration
/// count.
pub open spec fn request_result(set: Seq<u8>, rq: Request, cfg: Config) -> u8 {
    walk(
        section_slice(set, rq.section as int, cfg.num_bytes_per_section as int),
        rq.start as int,
        address_mask(cfg.num_bytes_per_section as nat) as int,
        cfg.num_iterations as nat,
    ) as u8
}

/// The canonical output of one dispatch call: the kernel's result for each
/// request, in submission order. Every strategy returns exactly this
/// sequence.
pub open spec fn dispatch_results(set: Seq<u8>, requests: Seq<Request>, cfg: Config) -> Seq<u8> {
    Seq::new(requests.len(), |i: int| request_result(set, requests[i], cfg))
}

/// The caller's side of the contract: every request names a section that
/// exists.
pub open spec fn requests_in_range(requests: Seq<Request>, num_sections: int) -> bool {
    forall|i: int| 0 <= i < requests.len() ==> (#[trigger] requests[i]).section < num_sections
}

/// Order preservation: the canonical output holds one result per request,
/// and its `i`-th element is the kernel's output for the `i`-th request —
/// under every strategy, since each strategy returns this sequence.
pub proof fn lemma_order_preservation(set: Seq<u8>, requests: Seq<Request>, cfg: Config)
    ensures
        dispatch_results(set, requests, cfg).len() == requests.len(),
        forall|i: int|
            0 <= i < requests.len() ==> dispatch_results(set, requests, cfg)[i] == request_result(
                set,
                requests[i],
                cfg,
            ),
{
}

/// Facts every strategy needs about one in-range request: its section
/// slice lies inside the buffer, and the derived mask fits in it.
proof fn lemma_section_arithmetic(cfg: Config, section: int, set_len: int)
    requires
        cfg.wf(),
        0 <= section < cfg.num_sections,
        set_len == cfg.spec_total_bytes(),
    ensures
        0 <= section * cfg.num_bytes_per_section,
        section * cfg.num_bytes_per_section + cfg.num_bytes_per_section <= set_len,
        address_mask(cfg.num_bytes_per_section as nat) < cfg.num_bytes_per_section,
{
    let bps = cfg.num_bytes_per_section as int;
    vstd::arithmetic::mul::lemma_mul_nonnegative(section, bps);
    lemma_mul_inequality(section + 1, cfg.num_sections as int, bps);
    vstd::arithmetic::mul::lemma_mul_is_distributive_add_other_way(bps, section, 1);
    vstd::arithmetic::mul::lemma_mul_is_commutative(cfg.num_sections as int, bps);
    let e = lemma_address_mask(cfg.num_bytes_per_section as nat);
}

/// One kernel invocation against the request's section slice.
fn run_request(
    set: &[u8],
    start: usize,
    section: usize,
    mask: usize,
    cfg: Config,
) -> (sum: u8)
    requires
        cfg.wf(),
        section < cfg.num_sections,
        set@.len() == cfg.spec_total_bytes(),
        mask == address_mask(cfg.num_bytes_per_section as nat),
    ensures
        sum == request_result(set@, Request { start, section }, cfg),
{
    proof {
        lemma_section_arithmetic(cfg, section as int, set@.len() as int);
        let e = lemma_address_mask(cfg.num_bytes_per_section as nat);
        assert(is_address_mask(mask as nat));
    }
    let section_start = section * cfg.num_bytes_per_section;
    let sec = slice_subrange(set, section_start, section_start + cfg.num_bytes_per_section);
    let sum = handle_request(sec, start, mask, cfg.num_iterations);
    proof {
        lemma_walk_bounds(
            sec@,
            start as int,
            mask as int,
            cfg.num_iterations as nat,
        );
    }
    sum
}

/// Handles all requests on a single thread, in submission order.
pub fn singlethreaded(set: &'static [u8], requests: &[Request], cfg: Config) -> (sums: Vec<u8>)
    requires
        cfg.wf(),
        set@.len() == cfg.spec_total_bytes(),
        requests_in_range(requests@, cfg.num_sections as int),
    ensures
        sums@ == dispatch_results(set@, requests@, cfg),
{
    let mut sums: Vec<u8> = Vec::new();
    let mask = num_to_bitmask(cfg.num_bytes_per_section);
    let mut idx: usize = 0;
    while idx < requests.len()
        invariant
            cfg.wf(),
            set@.len() == cfg.spec_total_bytes(),
            requests_in_range(requests@, cfg.num_sections as int),
            mask == address_mask(cfg.num_bytes_per_section as nat),
            idx <= requests@.len(),
            sums@.len() == idx,
            forall|j: int|
                0 <= j < idx ==> sums@[j] == request_result(set@, requests@[j], cfg),
        decreases requests@.len() - idx,
    {
        let rq = slice_index_get(requests, idx);
        let sum = run_request(set, rq.start, rq.section, mask, cfg);
        sums.push(sum);
        idx = idx + 1;
    }
    proof {
        assert(sums@ =~= dispatch_results(set@, requests@, cfg));
    }
    sums
}

/// Membership test that groups requests by their target section.
pub open spec fn in_section(s: int) -> spec_fn(Request) -> bool {
    |rq: Request| rq.section as int == s
}

/// The requests bound to section `s`, in their submitted relative order
/// (stable partitioning: never sorted or shuffled).
pub open spec fn requests_for(requests: Seq<Request>, s: int) -> Seq<Request> {
    requests.filter(in_section(s))
}

/// The ordered result stream one section produces: the kernel's output for
/// that section's requests, in the order they were submitted.
pub open spec fn section_outputs(set: Seq<u8>, requests: Seq<Request>, cfg: Config, s: int) -> Seq<
    u8,
> {
    dispatch_results(set, requests_for(requests, s), cfg)
}

/// Taking one more request extends exactly its own section's group, at the
/// end, and leaves every other section's group unchanged.
proof fn lemma_requests_for_take_step(requests: Seq<Request>, s: int, i: int)
    requires
        0 <= i < requests.len(),
    ensures
        requests_for(requests.take(i + 1), s) == if requests[i].section as int == s {
            requests_for(requests.take(i), s).push(requests[i])
        } else {
            requests_for(requests.take(i), s)
        },
{
    reveal_with_fuel(Seq::<_>::filter, 2);
    let t = requests.take(i + 1);
    assert(t.drop_last() =~= requests.take(i));
    assert(t.last() == requests[i]);
    assert(t.filter(in_section(s)) == if in_section(s)(t.last()) {
        t.drop_last().filter(in_section(s)).push(t.last())
    } else {
        t.drop_last().filter(in_section(s))
    });
}

/// A prefix of the request list contributes a prefix of each section's
/// group.
proof fn lemma_requests_for_prefix(requests: Seq<Request>, s: int, i: int)
    requires
        0 <= i <= requests.len(),
    ensures
        requests_for(requests.take(i), s).len() <= requests_for(requests, s).len(),
        forall|k: int|
            0 <= k < requests_for(requests.take(i), s).len() ==> requests_for(requests, s)[k]
                == #[trigger] requests_for(requests.take(i), s)[k],
{
    assert(requests =~= requests.take(i) + requests.skip(i));
    Seq::filter_distributes_over_add(requests.take(i), requests.skip(i), in_section(s));
}

/// The cursor can never outrun the request list.
proof fn lemma_requests_for_len(requests: Seq<Request>, s: int)
    ensures
        requests_for(requests, s).len() <= requests.len(),
{
    requests.lemma_filter_len(in_section(s));
}

/// Restores the caller's submission order from per-section result streams:
/// one read cursor per section; each request in original order takes the
/// next unread result of its target section.
///
/// This depends on the stable-partitioning invariant: each section's
/// stream holds the kernel outputs of that section's requests in submitted
/// relative order — exactly what `section_outputs` states.
pub fn reassemble_sums(
    set: &[u8],
    requests: &[Request],
    cfg: Config,
    vec_of_sums: &Vec<Vec<u8>>,
) -> (sums: Vec<u8>)
    requires
        cfg.wf(),
        requests_in_range(requests@, cfg.num_sections as int),
        vec_of_sums@.len() == cfg.num_sections,
        forall|s: int|
            0 <= s < cfg.num_sections ==> (#[trigger] vec_of_sums@[s])@ == section_outputs(
                set@,
                requests@,
                cfg,
                s,
            ),
    ensures
        sums@ == dispatch_results(set@, requests@, cfg),
{
    let mut idxs: Vec<usize> = Vec::new();
    let mut s: usize = 0;
    while s < cfg.num_sections
        invariant
            s <= cfg.num_sections,
            idxs@.len() == s,
            forall|t: int| 0 <= t < s ==> idxs@[t] == 0,
        decreases cfg.num_sections - s,
    {
        idxs.push(0);
        s = s + 1;
    }

    let mut sums: Vec<u8> = Vec::new();
    let mut i: usize = 0;
    proof {
        assert(forall|t: int|
            0 <= t < cfg.num_sections ==> requests_for(requests@.take(0), t) =~= Seq::empty());
    }
    while i < requests.len()
        invariant
            cfg.wf(),
            requests_in_range(requests@, cfg.num_sections as int),
            vec_of_sums@.len() == cfg.num_sections,
            forall|t: int|
                0 <= t < cfg.num_sections ==> (#[trigger] vec_of_sums@[t])@ == section_outputs(
                    set@,
                    requests@,
                    cfg,
                    t,
                ),
            i <= requests@.len(),
            idxs@.len() == cfg.num_sections,
            forall|t: int|
                0 <= t < cfg.num_sections ==> (#[trigger] idxs@[t]) as int == requests_for(
                    requests@.take(i as int),
                    t,
                ).len(),
            sums@.len() == i,
            forall|j: int| 0 <= j < i ==> sums@[j] == request_result(set@, requests@[j], cfg),
        decreases requests@.len() - i,
    {
        let ghost i0 = i as int;
        let rq = slice_index_get(requests, i);
        let section = rq.section;
        let ghost sec = section as int;
        proof {
            lemma_requests_for_len(requests@.take(i0), sec);
        }
        let idx = idxs[section];
        proof {
            lemma_requests_for_take_step(requests@, sec, i0);
            lemma_requests_for_prefix(requests@, sec, i0 + 1);
            assert(requests_for(requests@.take(i0 + 1), sec)[idx as int] == requests@[i0]);
            assert(requests_for(requests@, sec)[idx as int] == requests@[i0]);
            assert(idx < vec_of_sums@[sec]@.len());
        }
        let val = vec_of_sums[section][idx];
        sums.push(val);
        idxs.set(section, idx + 1);
        i = i + 1;
        proof {
            assert forall|t: int| 0 <= t < cfg.num_sections implies (#[trigger] idxs@[t]) as int
                == requests_for(requests@.take(i as int), t).len() by {
                lemma_requests_for_take_step(requests@, t, i0);
            }
        }
    }
    proof {
        assert(sums@ =~= dispatch_results(set@, requests@, cfg));
    }
    sums
}

/// Handles all requests on a single thread, batched by target section: an
/// outer pass over section IDs, an inner pass taking that section's
/// requests in submitted relative order, then reassembly into submission
/// order.
pub fn singlethreaded_batched(set: &'static [u8], requests: &[Request], cfg: Config) -> (sums: Vec<
    u8,
>)
    requires
        cfg.wf(),
        set@.len() == cfg.spec_total_bytes(),
        requests_in_range(requests@, cfg.num_sections as int),
    ensures
        sums@ == dispatch_results(set@, requests@, cfg),
{
    let mask = num_to_bitmask(cfg.num_bytes_per_section);
    let mut vec_of_sums: Vec<Vec<u8>> = Vec::new();
    let mut thread: usize = 0;
    while thread < cfg.num_sections
        invariant
            cfg.wf(),
            set@.len() == cfg.spec_total_bytes(),
            requests_in_range(requests@, cfg.num_sections as int),
            mask == address_mask(cfg.num_bytes_per_section as nat),
            thread <= cfg.num_sections,
            vec_of_sums@.len() == thread,
            forall|t: int|
                0 <= t < thread ==> (#[trigger] vec_of_sums@[t])@ == section_outputs(
                    set@,
                    requests@,
                    cfg,
                    t,
                ),
        decreases cfg.num_sections - thread,
    {
        let ghost sec = thread as int;
        let mut section_sums: Vec<u8> = Vec::new();
        let mut j: usize = 0;
        proof {
            assert(requests_for(requests@.take(0), sec) =~= Seq::empty());
        }
        while j < requests.len()
            invariant
                cfg.wf(),
                set@.len() == cfg.spec_total_bytes(),
                requests_in_range(requests@, cfg.num_sections as int),
                mask == address_mask(cfg.num_bytes_per_section as nat),
                thread < cfg.num_sections,
                sec == thread as int,
                j <= requests@.len(),
                section_sums@ == dispatch_results(
                    set@,
                    requests_for(requests@.take(j as int), sec),
                    cfg,
                ),
            decreases requests@.len() - j,
        {
            let ghost j0 = j as int;
            let rq = slice_index_get(requests, j);
            proof {
                lemma_requests_for_take_step(requests@, sec, j0);
            }
            if rq.section == thread {
                let sum = run_request(set, rq.start, rq.section, mask, cfg);
                section_sums.push(sum);
                proof {
                    assert(section_sums@ =~= dispatch_results(
                        set@,
                        requests_for(requests@.take(j0 + 1), sec),
                        cfg,
                    ));
                }
            } else {
                proof {
                    assert(section_sums@ =~= dispatch_results(
                        set@,
                        requests_for(requests@.take(j0 + 1), sec),
                        cfg,
                    ));
                }
            }
            j = j + 1;
        }
        proof {
            assert(requests@.take(requests@.len() as int) =~= requests@);
        }
        vec_of_sums.push(section_sums);
        thread = thread + 1;
    }
    reassemble_sums(set, requests, cfg, &vec_of_sums)
}

/// The starting offsets of section `s`'s requests, in submitted relative
/// order: one worker's queue.
pub open spec fn starts_for(requests: Seq<Request>, s: int) -> Seq<usize> {
    requests_for(requests, s).map_values(|rq: Request| rq.start)
}

/// The kernel's outputs for a queue of walks over one section slice, in
/// queue order.
pub open spec fn walks_of(sec: Seq<u8>, starts: Seq<usize>, mask: int, iters: nat) -> Seq<u8> {
    Seq::new(starts.len(), |k: int| walk(sec, starts[k] as int, mask, iters) as u8)
}

/// What one worker computes from its queue is exactly its section's
/// ordered result stream.
pub proof fn lemma_section_outputs_as_walks(set: Seq<u8>, requests: Seq<Request>, cfg: Config, s: int)
    ensures
        section_outputs(set, requests, cfg, s) == walks_of(
            section_slice(set, s, cfg.num_bytes_per_section as int),
            starts_for(requests, s),
            address_mask(cfg.num_bytes_per_section as nat) as int,
            cfg.num_iterations as nat,
        ),
{
    let filtered = requests_for(requests, s);
    assert forall|k: int| 0 <= k < filtered.len() implies (#[trigger] filtered[k]).section as int
        == s by {
        requests.lemma_filter_pred(in_section(s), k);
    }
    assert(section_outputs(set, requests, cfg, s) =~= walks_of(
        section_slice(set, s, cfg.num_bytes_per_section as int),
        starts_for(requests, s),
        address_mask(cfg.num_bytes_per_section as nat) as int,
        cfg.num_iterations as nat,
    ));
}

/// One worker's whole job: runs the kernel once per queued start, in queue
/// order, against its own section slice.
pub fn run_section(
    set: &'static [u8],
    section: usize,
    starts: &Vec<usize>,
    mask: usize,
    cfg: Config,
) -> (out: Vec<u8>)
    requires
        cfg.wf(),
        section < cfg.num_sections,
        set@.len() == cfg.spec_total_bytes(),
        mask == address_mask(cfg.num_bytes_per_section as nat),
    ensures
        out@ == walks_of(
            section_slice(set@, section as int, cfg.num_bytes_per_section as int),
            starts@,
            mask as int,
            cfg.num_iterations as nat,
        ),
{
    let ghost goal = walks_of(
        section_slice(set@, section as int, cfg.num_bytes_per_section as int),
        starts@,
        mask as int,
        cfg.num_iterations as nat,
    );
    let mut out: Vec<u8> = Vec::new();
    let mut k: usize = 0;
    while k < starts.len()
        invariant
            cfg.wf(),
            section < cfg.num_sections,
            set@.len() == cfg.spec_total_bytes(),
            mask == address_mask(cfg.num_bytes_per_section as nat),
            goal == walks_of(
                section_slice(set@, section as int, cfg.num_bytes_per_section as int),
                starts@,
                mask as int,
                cfg.num_iterations as nat,
            ),
            k <= starts@.len(),
            out@.len() == k,
            forall|t: int| 0 <= t < k ==> out@[t] == goal[t],
        decreases starts@.len() - k,
    {
        let sum = run_request(set, starts[k], section, mask, cfg);
        out.push(sum);
        k = k + 1;
    }
    proof {
        assert(out@ =~= goal);
    }
    out
}

/// Splits the requests into one queue of starting offsets per section,
/// each queue keeping the submitted relative order of its members (stable
/// partitioning).
pub fn build_queues(requests: &[Request], cfg: Config) -> (queues: Vec<Vec<usize>>)
    requires
        requests_in_range(requests@, cfg.num_sections as int),
    ensures
        queues@.len() == cfg.num_sections,
        forall|t: int|
            0 <= t < cfg.num_sections ==> (#[trigger] queues@[t])@ == starts_for(requests@, t),
{
    let mut queues: Vec<Vec<usize>> = Vec::new();
    let mut s: usize = 0;
    while s < cfg.num_sections
        invariant
            requests_in_range(requests@, cfg.num_sections as int),
            s <= cfg.num_sections,
            queues@.len() == s,
            forall|t: int| 0 <= t < s ==> (#[trigger] queues@[t])@ == starts_for(requests@, t),
        decreases cfg.num_sections - s,
    {
        let ghost sec = s as int;
        let mut q: Vec<usize> = Vec::new();
        let mut j: usize = 0;
        proof {
            assert(requests_for(requests@.take(0), sec) =~= Seq::empty());
            assert(q@ =~= starts_for(requests@.take(0), sec));
        }
        while j < requests.len()
            invariant
                requests_in_range(requests@, cfg.num_sections as int),
                sec == s as int,
                j <= requests@.len(),
                q@ == starts_for(requests@.take(j as int), sec),
            decreases requests@.len() - j,
        {
            let ghost j0 = j as int;
            let rq = slice_index_get(requests, j);
            proof {
                lemma_requests_for_take_step(requests@, sec, j0);
            }
            if rq.section == s {
                q.push(rq.start);
            }
            proof {
                assert(q@ =~= starts_for(requests@.take(j0 + 1), sec));
            }
            j = j + 1;
        }
        proof {
            assert(requests@.take(requests@.len() as int) =~= requests@);
        }
        queues.push(q);
        s = s + 1;
    }
    queues
}

} // verus!
