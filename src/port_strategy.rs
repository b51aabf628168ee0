//! Chooses, from the resolved inputs, how the ports are ordered, and produces
//! that order.
use crate::input::{PortRange, ScanOrder};
use crate::range_walk::{random_permutation, span_ports};
use crate::rng::shuffle_ports;
use vstd::prelude::*;

verus! {

/// Every interval is well formed: its start does not exceed its end.
pub open spec fn spans_ok(ranges: Seq<(u16, u16)>) -> bool {
    forall|i: int| 0 <= i < ranges.len() ==> ranges[i].0 <= ranges[i].1
}

/// The ascending sweep of each interval, concatenated in the given order.
pub open spec fn sweep(ranges: Seq<(u16, u16)>) -> Seq<u16>
    decreases ranges.len(),
{
    if ranges.len() == 0 {
        Seq::empty()
    } else {
        sweep(ranges.drop_last()) + span_ports(ranges.last().0, ranges.last().1)
    }
}

fn copy_spans(v: &Vec<(u16, u16)>) -> (r: Vec<(u16, u16)>)
    ensures
        r@ == v@,
{
    let mut r: Vec<(u16, u16)> = Vec::new();
    let mut i: usize = 0;
    while i < v.len()
        invariant
            0 <= i <= v.len(),
            r@ == v@.take(i as int),
        decreases v.len() - i,
    {
        r.push(v[i]);
        i = i + 1;
        proof {
            assert(r@ =~= v@.take(i as int));
        }
    }
    proof {
        assert(r@ =~= v@);
    }
    r
}

/// Sweeps each interval in ascending order.
#[derive(Debug)]
pub struct SerialRange {
    ranges: Vec<(u16, u16)>,
}

impl SerialRange {
    /// The intervals, in the order they were given.
    pub closed spec fn spans(&self) -> Seq<(u16, u16)> {
        self.ranges@
    }

    /// Every port of each interval, ascending, interval after interval.
    pub fn generate(&self) -> (r: Vec<u16>)
        requires
            spans_ok(self.spans()),
        ensures
            r@ == sweep(self.spans()),
    {
        let mut out: Vec<u16> = Vec::new();
        let mut i: usize = 0;
        while i < self.ranges.len()
            invariant
                0 <= i <= self.ranges.len(),
                spans_ok(self.ranges@),
                out@ == sweep(self.ranges@.take(i as int)),
            decreases self.ranges.len() - i,
        {
            let (start, end) = self.ranges[i];
            let ghost before = out@;
            let mut p: u32 = start as u32;
            while p <= end as u32
                invariant
                    start <= end,
                    start <= p <= end as u32 + 1,
                    out@ == before + span_ports(start, end).take(p - start),
                decreases end as u32 + 1 - p,
            {
                out.push(p as u16);
                p = p + 1;
                proof {
                    assert(out@ =~= before + span_ports(start, end).take(p - start));
                }
            }
            proof {
                let t = self.ranges@.take(i as int + 1);
                assert(t.drop_last() =~= self.ranges@.take(i as int));
                assert(span_ports(start, end).take(p - start) =~= span_ports(start, end));
            }
            i = i + 1;
        }
        proof {
            assert(self.ranges@.take(i as int) =~= self.ranges@);
        }
        out
    }
}

/// Walks each interval in pseudo-random order, then shuffles the whole.
#[derive(Debug)]
pub struct RandomRange {
    ranges: Vec<(u16, u16)>,
}

impl RandomRange {
    /// The intervals, in the order they were given.
    pub closed spec fn spans(&self) -> Seq<(u16, u16)> {
        self.ranges@
    }

    /// Every port of each interval exactly once, in a random order.
    pub fn generate(&self) -> (r: Vec<u16>)
        requires
            spans_ok(self.spans()),
        ensures
            r@.to_multiset() == sweep(self.spans()).to_multiset(),
    {
        let mut all: Vec<u16> = Vec::new();
        let mut i: usize = 0;
        while i < self.ranges.len()
            invariant
                0 <= i <= self.ranges.len(),
                spans_ok(self.ranges@),
                all@.to_multiset() == sweep(self.ranges@.take(i as int)).to_multiset(),
            decreases self.ranges.len() - i,
        {
            let (start, end) = self.ranges[i];
            let ghost before = all@;
            let mut part = random_permutation(start, end);
            let ghost walked = part@;
            all.append(&mut part);
            proof {
                let t = self.ranges@.take(i as int + 1);
                assert(t.drop_last() =~= self.ranges@.take(i as int));
                let prev = sweep(self.ranges@.take(i as int));
                vstd::seq_lib::lemma_multiset_commutative(before, walked);
                vstd::seq_lib::lemma_multiset_commutative(prev, span_ports(start, end));
            }
            i = i + 1;
        }
        proof {
            assert(self.ranges@.take(i as int) =~= self.ranges@);
        }
        shuffle_ports(&mut all);
        all
    }
}

/// How the ports of a scan are ordered.
#[derive(Debug)]
pub enum PortStrategy {
    Manual(Vec<u16>),
    Serial(SerialRange),
    Random(RandomRange),
}

impl PortStrategy {
    /// The intervals a sweeping strategy holds are well formed.
    pub open spec fn wf(&self) -> bool {
        match self {
            PortStrategy::Manual(_) => true,
            PortStrategy::Serial(s) => spans_ok(s.spans()),
            PortStrategy::Random(s) => spans_ok(s.spans()),
        }
    }

    /// `r` is an order this strategy may produce: the list itself, the
    /// ascending sweep, or any permutation of the sweep.
    pub open spec fn is_order(&self, r: Seq<u16>) -> bool {
        match self {
            PortStrategy::Manual(ports) => r == ports@,
            PortStrategy::Serial(s) => r == sweep(s.spans()),
            PortStrategy::Random(s) => r.to_multiset() == sweep(s.spans()).to_multiset(),
        }
    }

    /// `st` is what `pick` builds from these inputs: an explicit list is kept
    /// as it is for a serial order and permuted for a random one; otherwise
    /// the intervals are kept, in order, for a sweep of the asked kind.
    pub open spec fn picked(
        range: Option<PortRange>,
        ports: Option<Vec<u16>>,
        order: ScanOrder,
        st: PortStrategy,
    ) -> bool {
        match ports {
            Some(p) => st is Manual && match order {
                ScanOrder::Serial => st->Manual_0@ == p@,
                ScanOrder::Random => st->Manual_0@.to_multiset() == p@.to_multiset(),
            },
            None => match order {
                ScanOrder::Serial => st is Serial && st->Serial_0.spans() == range->0.ranges@,
                ScanOrder::Random => st is Random && st->Random_0.spans() == range->0.ranges@,
            },
        }
    }

    /// Builds the strategy: an explicit list wins over ranges, and is
    /// shuffled once here when a random order is asked for.
    pub fn pick(range: &Option<PortRange>, ports: Option<Vec<u16>>, order: ScanOrder) -> (r: Self)
        requires
            ports is Some || range is Some,
            ports is None ==> spans_ok(range->0.ranges@),
        ensures
            r.wf(),
            Self::picked(*range, ports, order, r),
    {
        match ports {
            None => {
                let range = range.as_ref().unwrap();
                let ranges = copy_spans(&range.ranges);
                match order {
                    ScanOrder::Serial => PortStrategy::Serial(SerialRange { ranges }),
                    ScanOrder::Random => PortStrategy::Random(RandomRange { ranges }),
                }
            },
            Some(ports) => match order {
                ScanOrder::Serial => PortStrategy::Manual(ports),
                ScanOrder::Random => {
                    let mut ports = ports;
                    shuffle_ports(&mut ports);
                    PortStrategy::Manual(ports)
                },
            },
        }
    }

    /// The full order in which the ports are to be probed.
    pub fn order(&self) -> (r: Vec<u16>)
        requires
            self.wf(),
        ensures
            self.is_order(r@),
    {
        match self {
            PortStrategy::Manual(ports) => {
                let r = ports.clone();
                proof {
                    assert(r@ =~= ports@);
                }
                r
            },
            PortStrategy::Serial(range) => range.generate(),
            PortStrategy::Random(range) => range.generate(),
        }
    }
}

/// A single interval swept in serial order comes out as the ascending list
/// `start, start + 1, ..., end`.
pub proof fn lemma_serial_range_ascending(
    start: u16,
    end: u16,
    range: PortRange,
    st: PortStrategy,
    r: Seq<u16>,
)
    requires
        start <= end,
        range.ranges@ == seq![(start, end)],
        PortStrategy::picked(Some(range), None, ScanOrder::Serial, st),
        st.is_order(r),
    ensures
        r == span_ports(start, end),
        r.len() == end - start + 1,
        forall|i: int| 0 <= i < r.len() ==> r[i] == start + i,
{
    let rs = seq![(start, end)];
    assert(rs.drop_last() =~= Seq::<(u16, u16)>::empty());
    assert(sweep(rs.drop_last()) == Seq::<u16>::empty());
    assert(rs.last() == (start, end));
    assert(sweep(rs) =~= span_ports(start, end));
}

/// A single interval swept in random order comes out as a permutation of the
/// ascending list: every port of the interval exactly once, nothing else.
pub proof fn lemma_random_range_permutes(
    start: u16,
    end: u16,
    range: PortRange,
    st: PortStrategy,
    r: Seq<u16>,
)
    requires
        start <= end,
        range.ranges@ == seq![(start, end)],
        PortStrategy::picked(Some(range), None, ScanOrder::Random, st),
        st.is_order(r),
    ensures
        r.to_multiset() == span_ports(start, end).to_multiset(),
        r.len() == end - start + 1,
        r.no_duplicates(),
        forall|p: u16| r.contains(p) <==> start <= p <= end,
{
    broadcast use vstd::seq_lib::group_to_multiset_ensures;

    let rs = seq![(start, end)];
    assert(rs.drop_last() =~= Seq::<(u16, u16)>::empty());
    assert(sweep(rs.drop_last()) == Seq::<u16>::empty());
    assert(rs.last() == (start, end));
    assert(sweep(rs) =~= span_ports(start, end));
    let asc = span_ports(start, end);
    crate::range_walk::lemma_span_ports(start, end);
    asc.lemma_multiset_has_no_duplicates();
    assert(r.len() == r.to_multiset().len());
    assert(asc.len() == asc.to_multiset().len());
    assert forall|p: u16| r.contains(p) <==> start <= p <= end by {
        assert(r.contains(p) <==> r.to_multiset().count(p) > 0);
        assert(asc.contains(p) <==> asc.to_multiset().count(p) > 0);
    }
    r.lemma_multiset_has_no_duplicates_conv();
}

/// An explicit list in serial order is probed exactly as given.
pub proof fn lemma_listed_ports_kept(ports: Vec<u16>, st: PortStrategy, r: Seq<u16>)
    requires
        PortStrategy::picked(None, Some(ports), ScanOrder::Serial, st),
        st.is_order(r),
    ensures
        r == ports@,
{
}

/// An explicit list in random order is probed as a permutation of it.
pub proof fn lemma_listed_ports_permuted(ports: Vec<u16>, st: PortStrategy, r: Seq<u16>)
    requires
        PortStrategy::picked(None, Some(ports), ScanOrder::Random, st),
        st.is_order(r),
    ensures
        r.to_multiset() == ports@.to_multiset(),
        r.len() == ports.len(),
{
    broadcast use vstd::seq_lib::group_to_multiset_ensures;

    assert(r.len() == r.to_multiset().len());
    assert(ports@.len() == ports@.to_multiset().len());
}

/// A one-port interval `(k, k)` gives `[k]` whatever the order asked for.
pub proof fn lemma_single_port_range(
    k: u16,
    range: PortRange,
    order: ScanOrder,
    st: PortStrategy,
    r: Seq<u16>,
)
    requires
        range.ranges@ == seq![(k, k)],
        PortStrategy::picked(Some(range), None, order, st),
        st.is_order(r),
    ensures
        r == seq![k],
{
    match order {
        ScanOrder::Serial => {
            lemma_serial_range_ascending(k, k, range, st, r);
            assert(r =~= seq![k]);
        },
        ScanOrder::Random => {
            lemma_random_range_permutes(k, k, range, st, r);
            assert(r.contains(k));
            assert(r =~= seq![k]);
        },
    }
}

} // verus!
