//! Pure view-layer helpers: protocol filtering and pagination over a
//! scanned port list. These never mutate the underlying records.

use vstd::prelude::*;

use crate::records::{PortInfo, ProtocolFilter, RecordModel};
use crate::strutil::str_eq;

verus! {

/// Whether a record passes the protocol filter.
pub open spec fn filter_matches(f: ProtocolFilter, r: RecordModel) -> bool {
    match f {
        ProtocolFilter::All => true,
        ProtocolFilter::Tcp => r.protocol == "tcp"@,
        ProtocolFilter::Udp => r.protocol == "udp"@,
    }
}

/// Executable test matching `filter_matches`.
fn matches_filter(p: &PortInfo, f: ProtocolFilter) -> (r: bool)
    ensures
        r == filter_matches(f, p@),
{
    match f {
        ProtocolFilter::All => true,
        ProtocolFilter::Tcp => str_eq(p.protocol.as_str(), "tcp"),
        ProtocolFilter::Udp => str_eq(p.protocol.as_str(), "udp"),
    }
}

/// The ports that pass the protocol filter, in their input order.
pub fn filter_ports(ports: &[PortInfo], filter: ProtocolFilter) -> (r: Vec<PortInfo>)
    ensures
        r.deep_view() == ports.deep_view().filter(|m: RecordModel| filter_matches(filter, m)),
{
    let ghost pred = |m: RecordModel| filter_matches(filter, m);
    let n = ports.len();
    let mut r: Vec<PortInfo> = Vec::new();
    let mut i: usize = 0;
    proof {
        assert(ports.deep_view().take(0) =~= Seq::<RecordModel>::empty());
        assert(Seq::<RecordModel>::empty().filter(pred) =~= Seq::<RecordModel>::empty()) by {
            reveal(Seq::filter);
        }
        assert(r.deep_view() =~= Seq::<RecordModel>::empty());
    }
    while i < n
        invariant
            i <= n,
            n == ports@.len(),
            ports.deep_view().len() == n,
            pred == (|m: RecordModel| filter_matches(filter, m)),
            r.deep_view() == ports.deep_view().take(i as int).filter(pred),
        decreases n - i,
    {
        let ghost dv = ports.deep_view();
        let ghost pre = r.deep_view();
        let keep = matches_filter(&ports[i], filter);
        proof {
            assert(dv[i as int] == ports@[i as int]@);
            assert(dv.take(i as int + 1) =~= dv.take(i as int) + seq![dv[i as int]]);
            Seq::<RecordModel>::filter_distributes_over_add(
                dv.take(i as int),
                seq![dv[i as int]],
                pred,
            );
            assert(seq![dv[i as int]].filter(pred) =~= if pred(dv[i as int]) {
                seq![dv[i as int]]
            } else {
                Seq::<RecordModel>::empty()
            }) by {
                reveal_with_fuel(Seq::filter, 2);
                assert(seq![dv[i as int]].drop_last() =~= Seq::<RecordModel>::empty());
            }
        }
        if keep {
            let item = ports[i].clone();
            r.push(item);
            proof {
                assert(r.deep_view() =~~= pre.push(dv[i as int]));
                assert(r.deep_view() =~= dv.take(i as int + 1).filter(pred));
            }
        } else {
            proof {
                assert(r.deep_view() =~= dv.take(i as int + 1).filter(pred));
            }
        }
        i = i + 1;
    }
    proof {
        assert(ports.deep_view().take(n as int) =~= ports.deep_view());
    }
    r
}

/// The number of pages needed for `total_items` at `page_size` per page,
/// never less than one.
pub open spec fn spec_total_pages(total_items: nat, page_size: nat) -> nat {
    if total_items == 0 || page_size == 0 {
        1
    } else {
        ((total_items - 1) / page_size as int + 1) as nat
    }
}

/// Total number of pages for the pagination (at least 1).
pub fn total_pages(total_items: usize, page_size: usize) -> (r: usize)
    ensures
        r == spec_total_pages(total_items as nat, page_size as nat),
{
    if total_items == 0 || page_size == 0 {
        return 1;
    }
    (total_items - 1) / page_size + 1
}

/// An empty page count is still one page.
pub proof fn lemma_total_pages_empty(page_size: nat)
    ensures
        spec_total_pages(0, page_size) == 1,
{
}

/// The records of page `page` (0-based) at `page_size` per page: the
/// window starting at `page * page_size`, empty when the start lies
/// beyond the list or the page size is zero.
pub open spec fn page_spec(s: Seq<RecordModel>, page: nat, page_size: nat) -> Seq<RecordModel> {
    if page_size == 0 || page * page_size >= s.len() {
        Seq::empty()
    } else {
        let start = (page * page_size) as int;
        let end = if start + page_size <= s.len() {
            start + page_size
        } else {
            s.len() as int
        };
        s.subrange(start, end)
    }
}

/// One page of ports for the menu.
pub fn get_page(ports: &[PortInfo], page: usize, page_size: usize) -> (r: Vec<PortInfo>)
    ensures
        r.deep_view() == page_spec(ports.deep_view(), page as nat, page_size as nat),
{
    let ghost dv = ports.deep_view();
    let n = ports.len();
    proof {
        assert(dv.len() == ports@.len());
    }
    if page_size == 0 {
        let r: Vec<PortInfo> = Vec::new();
        proof {
            assert(r.deep_view() =~= Seq::<RecordModel>::empty());
        }
        return r;
    }
    let start = match page.checked_mul(page_size) {
        Some(s) => s,
        None => {
            let r: Vec<PortInfo> = Vec::new();
            proof {
                assert(page * page_size > usize::MAX >= n >= ports@.len());
                assert(r.deep_view() =~= Seq::<RecordModel>::empty());
            }
            return r;
        },
    };
    if start >= n {
        let r: Vec<PortInfo> = Vec::new();
        proof {
            assert(r.deep_view() =~= Seq::<RecordModel>::empty());
        }
        return r;
    }
    let end = if page_size <= n - start {
        start + page_size
    } else {
        n
    };
    let mut r: Vec<PortInfo> = Vec::new();
    let mut i: usize = start;
    proof {
        assert(r.deep_view() =~= dv.subrange(start as int, start as int));
    }
    while i < end
        invariant
            start <= i <= end <= ports@.len(),
            dv == ports.deep_view(),
            dv.len() == ports@.len(),
            r.deep_view() == dv.subrange(start as int, i as int),
        decreases end - i,
    {
        let ghost pre = r.deep_view();
        let item = ports[i].clone();
        r.push(item);
        proof {
            assert(r.deep_view() =~~= pre.push(dv[i as int]));
            assert(r.deep_view() =~= dv.subrange(start as int, i as int + 1));
        }
        i = i + 1;
    }
    proof {
        assert(r.deep_view() =~= page_spec(dv, page as nat, page_size as nat));
    }
    r
}

/// A page index at or beyond the page count yields an empty page.
pub proof fn lemma_page_beyond_range(s: Seq<RecordModel>, page: nat, page_size: nat)
    requires
        page_size > 0,
        page >= spec_total_pages(s.len(), page_size),
    ensures
        page_spec(s, page, page_size) == Seq::<RecordModel>::empty(),
{
    if s.len() == 0 {
        assert(page * page_size >= 0) by (nonlinear_arith);
    } else {
        let pages = ((s.len() - 1) / page_size as int + 1);
        assert(pages * page_size >= s.len()) by (nonlinear_arith)
            requires
                pages == (s.len() - 1) / page_size as int + 1,
                page_size > 0,
                s.len() > 0,
        ;
        assert(page * page_size >= pages * page_size) by (nonlinear_arith)
            requires
                page >= pages,
                page_size > 0,
        ;
    }
}

} // verus!
