//! Partition of the port space across scan workers.
//!
//! Worker `i` of `n` probes the interleaved stride `i+1, i+1+n, i+1+2n, ...`
//! up to the highest port. The lemmas here show that the strides cover every
//! port exactly once, and that the covered set does not depend on the worker
//! count.

use vstd::prelude::*;

verus! {

use vstd::arithmetic::div_mod::lemma_fundamental_div_mod;
use vstd::arithmetic::div_mod::lemma_mod_bound;
use vstd::arithmetic::div_mod::lemma_mod_multiples_vanish;
use vstd::arithmetic::div_mod::lemma_small_mod;
use vstd::arithmetic::mul::lemma_mul_inequality;
use vstd::arithmetic::mul::lemma_mul_strict_inequality;

/// Highest TCP port number that a scan probes.
pub const MAX_PORT: u16 = 65535;

/// Port `p` belongs to worker `i` out of `n`: the strides are interleaved,
/// so worker `i` owns exactly the ports congruent to `i + 1` modulo `n`.
pub open spec fn assigned(p: u16, i: u16, n: u16) -> bool {
    &&& 1 <= p
    &&& i < n
    &&& (p as int - 1) % (n as int) == i as int
}

/// The full stride of worker `i` out of `n`, in increasing order: every port
/// assigned to the worker appears, and nothing else.
pub fn worker_ports(i: u16, n: u16) -> (ports: Vec<u16>)
    requires
        1 <= n,
        i < n,
    ensures
        forall|k: int| 0 <= k < ports@.len() ==> assigned(#[trigger] ports@[k], i, n),
        forall|p: u16| assigned(p, i, n) ==> ports@.contains(p),
        forall|k1: int, k2: int| 0 <= k1 < k2 < ports@.len() ==> ports@[k1] < ports@[k2],
{
    let mut ports: Vec<u16> = Vec::new();
    let mut port: u32 = i as u32 + 1;
    proof {
        vstd::arithmetic::mul::lemma_mul_basics(n as int);
    }
    while port <= MAX_PORT as u32
        invariant
            1 <= n,
            i < n,
            port as int == i + 1 + ports@.len() * (n as int),
            port as int <= MAX_PORT as int + n as int,
            forall|k: int|
                0 <= k < ports@.len() ==> (#[trigger] ports@[k]) as int == i + 1 + k * (n as int),
        decreases MAX_PORT as int + n as int - port as int,
    {
        ports.push(port as u16);
        port = port + n as u32;
        proof {
            assert(port as int == i + 1 + ports@.len() * (n as int)) by (nonlinear_arith)
                requires
                    port as int == i + 1 + (ports@.len() - 1) * (n as int) + n as int,
            ;
        }
    }
    proof {
        let gi = i as int;
        let gn = n as int;
        let len = ports@.len() as int;
        assert forall|k: int| 0 <= k < len implies assigned(ports@[k], i, n) by {
            let p = ports@[k] as int;
            assert(p - 1 == gn * k + gi) by (nonlinear_arith)
                requires
                    p == gi + 1 + k * gn,
            ;
            lemma_mod_multiples_vanish(k, gi, gn);
            lemma_small_mod(gi as nat, gn as nat);
        }
        assert forall|p: u16| assigned(p, i, n) implies ports@.contains(p) by {
            lemma_fundamental_div_mod(p as int - 1, gn);
            let q = (p as int - 1) / gn;
            assert(p as int == gi + 1 + q * gn) by (nonlinear_arith)
                requires
                    p as int - 1 == gn * q + gi,
            ;
            lemma_mod_bound(p as int - 1, gn);
            assert(q >= 0) by (nonlinear_arith)
                requires
                    p as int - 1 >= 0,
                    gn >= 1,
                    p as int - 1 == gn * q + gi,
                    0 <= gi < gn,
            ;
            if q >= len {
                lemma_mul_inequality(len, q, gn);
                assert(p as int >= port as int);
                assert(false);
            }
            assert(ports@[q] as int == gi + 1 + q * gn);
            assert(ports@[q] == p);
        }
        assert forall|k1: int, k2: int| 0 <= k1 < k2 < len implies ports@[k1] < ports@[k2] by {
            lemma_mul_strict_inequality(k1, k2, gn);
        }
    }
    ports
}

/// Partition completeness and disjointness: every port from 1 up to the
/// highest is assigned to exactly one worker, for every worker count.
pub proof fn lemma_stride_partitions_ports(p: u16, n: u16)
    requires
        1 <= p,
        1 <= n,
    ensures
        assigned(p, (((p as int - 1) % (n as int)) as u16), n),
        forall|i1: u16, i2: u16| assigned(p, i1, n) && assigned(p, i2, n) ==> i1 == i2,
{
    lemma_mod_bound(p as int - 1, n as int);
}

/// The set of ports covered by some worker is the same for every worker
/// count: changing the worker count never changes which ports are probed.
pub proof fn lemma_coverage_independent_of_workers(p: u16, n1: u16, n2: u16)
    requires
        1 <= n1,
        1 <= n2,
    ensures
        (exists|i: u16| assigned(p, i, n1)) <==> (exists|i: u16| assigned(p, i, n2)),
{
    if p >= 1 {
        lemma_stride_partitions_ports(p, n1);
        lemma_stride_partitions_ports(p, n2);
    }
}

/// Which ports a scan can discover depends only on which ports are open,
/// never on the worker count: the same open set gives the same discovery set.
pub proof fn lemma_discoveries_independent_of_workers(open: Set<u16>, n1: u16, n2: u16)
    requires
        1 <= n1,
        1 <= n2,
    ensures
        Set::new(|p: u16| open.contains(p) && exists|i: u16| assigned(p, i, n1)) == Set::new(
            |p: u16| open.contains(p) && exists|i: u16| assigned(p, i, n2),
        ),
{
    let d1 = Set::new(|p: u16| open.contains(p) && exists|i: u16| assigned(p, i, n1));
    let d2 = Set::new(|p: u16| open.contains(p) && exists|i: u16| assigned(p, i, n2));
    assert forall|p: u16| d1.contains(p) <==> d2.contains(p) by {
        lemma_coverage_independent_of_workers(p, n1, n2);
    }
    assert(d1 =~= d2);
}

} // verus!
