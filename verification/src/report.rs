//! The final scan report.
//!
//! After every worker has finished, the collected open ports are sorted
//! ascending and printed one line per port. Because the strides partition the
//! port space disjointly, the collected sequence never holds a duplicate, and
//! the sorted report is then strictly ascending.

use vstd::prelude::*;

verus! {

use vstd::seq_lib::to_multiset_update;
use vstd::string::StringExecFns;
use crate::digits::dec_rep;
use crate::digits::u16_to_dec;

/// `s` is in ascending order.
pub open spec fn sorted(s: Seq<u16>) -> bool {
    forall|a: int, b: int| 0 <= a <= b < s.len() ==> s[a] <= s[b]
}

/// `s` is strictly ascending: ascending and free of duplicates.
pub open spec fn strictly_ascending(s: Seq<u16>) -> bool {
    forall|a: int, b: int| 0 <= a < b < s.len() ==> s[a] < s[b]
}

/// Sort the collected ports ascending, keeping exactly the same multiset of
/// ports: nothing is lost, nothing is duplicated.
pub fn sort_ports(v: &mut Vec<u16>)
    ensures
        sorted(final(v)@),
        final(v)@.to_multiset() == old(v)@.to_multiset(),
        final(v)@.len() == old(v)@.len(),
{
    broadcast use vstd::seq::Seq::to_multiset_ensures;

    let mut i: usize = 0;
    while i < v.len()
        invariant
            i <= v@.len(),
            v@.len() == old(v)@.len(),
            v@.to_multiset() == old(v)@.to_multiset(),
            sorted(v@.take(i as int)),
        decreases v@.len() - i,
    {
        let mut j: usize = i;
        proof {
            assert forall|a: int, b: int| 0 <= a <= b <= i && a != j && b != j implies v@[a]
                <= v@[b] by {
                assert(v@.take(i as int)[a] == v@[a]);
                assert(v@.take(i as int)[b] == v@[b]);
            }
        }
        while j > 0 && v[j - 1] > v[j]
            invariant
                j <= i < v@.len(),
                v@.len() == old(v)@.len(),
                v@.to_multiset() == old(v)@.to_multiset(),
                forall|a: int, b: int|
                    0 <= a <= b <= i && a != j && b != j ==> v@[a] <= v@[b],
                forall|b: int| j < b <= i ==> v@[j as int] <= #[trigger] v@[b],
            decreases j,
        {
            let lo = v[j - 1];
            let hi = v[j];
            let ghost pre = v@;
            v.set(j - 1, hi);
            v.set(j, lo);
            proof {
                broadcast use vstd::multiset::group_multiset_axioms;
                broadcast use vstd::seq_lib::group_to_multiset_ensures;
                broadcast use to_multiset_update;

                assert(pre.update(j - 1, hi).to_multiset() == pre.to_multiset().insert(
                    hi,
                ).remove(lo));
                assert(v@ == pre.update(j - 1, hi).update(j as int, lo));
                assert(pre.update(j - 1, hi)[j as int] == hi);
                assert(v@.to_multiset() == pre.update(j - 1, hi).to_multiset().insert(lo).remove(
                    hi,
                ));
                assert(pre.contains(lo)) by {
                    assert(pre[j - 1] == lo);
                }
                assert(pre.to_multiset().count(lo) > 0);
                assert(v@.to_multiset() =~= pre.to_multiset());
            }
            j = j - 1;
        }
        proof {
            assert(sorted(v@.take(i + 1)));
        }
        i = i + 1;
    }
    proof {
        assert(v@.take(v@.len() as int) =~= v@);
    }
}

/// Sorting a duplicate-free collection yields a strictly ascending report:
/// any sorted rearrangement of a sequence without duplicates is strictly
/// ascending and still free of duplicates.
pub proof fn lemma_report_strictly_ascending(collected: Seq<u16>, report: Seq<u16>)
    requires
        collected.no_duplicates(),
        report.to_multiset() == collected.to_multiset(),
        sorted(report),
    ensures
        strictly_ascending(report),
        report.no_duplicates(),
{
    collected.lemma_multiset_has_no_duplicates();
    report.lemma_multiset_has_no_duplicates_conv();
}

/// The sorted report is determined by what was collected: two sorted
/// sequences over the same multiset of ports are the same sequence. Together
/// with the coverage lemmas this says that runs which discover the same open
/// ports print the identical final report, whatever the worker count and
/// whatever order the outcomes arrived in.
pub proof fn lemma_sorted_report_unique(a: Seq<u16>, b: Seq<u16>)
    requires
        sorted(a),
        sorted(b),
        a.to_multiset() == b.to_multiset(),
    ensures
        a == b,
    decreases a.len(),
{
    broadcast use vstd::seq_lib::group_to_multiset_ensures;

    assert(a.to_multiset().len() == b.to_multiset().len());
    assert(a.len() == a.to_multiset().len());
    assert(b.len() == b.to_multiset().len());
    if a.len() == 0 {
        assert(a =~= b);
    } else {
        assert(b.contains(b[0]));
        assert(b.to_multiset().count(b[0]) > 0);
        assert(a.to_multiset().count(b[0]) > 0);
        assert(a.contains(b[0]));
        let i = choose|i: int| 0 <= i < a.len() && a[i] == b[0];
        assert(a[0] <= b[0]);
        assert(a.contains(a[0]));
        assert(a.to_multiset().count(a[0]) > 0);
        assert(b.to_multiset().count(a[0]) > 0);
        assert(b.contains(a[0]));
        let j = choose|j: int| 0 <= j < b.len() && b[j] == a[0];
        assert(b[0] <= a[0]);
        assert(a[0] == b[0]);
        assert(a.remove(0) =~= a.drop_first());
        assert(b.remove(0) =~= b.drop_first());
        assert(a.drop_first().to_multiset() =~= a.to_multiset().remove(a[0]));
        assert(b.drop_first().to_multiset() =~= b.to_multiset().remove(b[0]));
        assert(forall|p: int, q: int|
            0 <= p <= q < a.drop_first().len() ==> #[trigger] a.drop_first()[p] <= #[trigger] a
                .drop_first()[q]);
        assert(forall|p: int, q: int|
            0 <= p <= q < b.drop_first().len() ==> #[trigger] b.drop_first()[p] <= #[trigger] b
                .drop_first()[q]);
        lemma_sorted_report_unique(a.drop_first(), b.drop_first());
        assert forall|k: int| 0 <= k < a.len() implies a[k] == b[k] by {
            if k > 0 {
                assert(a.drop_first()[k - 1] == a[k]);
                assert(b.drop_first()[k - 1] == b[k]);
            }
        }
        assert(a =~= b);
    }
}

/// The report line for one open port.
pub open spec fn spec_port_line(p: u16) -> Seq<char> {
    "Port "@ + dec_rep(p as int) + " is open"@
}

/// Render the report line for one open port.
pub fn port_line(p: u16) -> (s: String)
    ensures
        s@ == spec_port_line(p),
{
    let mut s = "Port ".to_owned();
    let digits = u16_to_dec(p);
    s.append(digits.as_str());
    s.append(" is open");
    s
}

/// Render one report line per port, in the order given.
pub fn render_report(ports: &Vec<u16>) -> (lines: Vec<String>)
    ensures
        lines@.len() == ports@.len(),
        forall|k: int| 0 <= k < lines@.len() ==> (#[trigger] lines@[k])@ == spec_port_line(
            ports@[k],
        ),
{
    let mut lines: Vec<String> = Vec::new();
    let mut k: usize = 0;
    while k < ports.len()
        invariant
            k <= ports@.len(),
            lines@.len() == k,
            forall|a: int| 0 <= a < k ==> (#[trigger] lines@[a])@ == spec_port_line(ports@[a]),
        decreases ports@.len() - k,
    {
        lines.push(port_line(ports[k]));
        k = k + 1;
    }
    lines
}

/// The banner printed after the last worker finishes, before the report.
pub fn scan_complete_line() -> (s: String)
    ensures
        s@ == "\nScan complete!"@,
{
    "\nScan complete!".to_owned()
}

} // verus!
