//! The query engine: every chain of relocations that passes through an
//! address, found by walking the eras backward and forward from each era in
//! which the address took part in a move.
use crate::era::{build_from, era_views, replay, seal, AddrSize, EraView, GC, TraceRecord};
use vstd::prelude::*;

verus! {

/// One movement chain: the queried location, the era (from 0) at which the
/// path starts, and the addresses that the object held, oldest first.
#[derive(Debug, PartialEq, Eq)]
pub struct Moves {
    pub loc: u64,
    pub first_move: usize,
    pub moves: Vec<u64>,
}

impl View for Moves {
    type V = (u64, int, Seq<u64>);

    open spec fn view(&self) -> (u64, int, Seq<u64>) {
        (self.loc, self.first_move as int, self.moves@)
    }
}

pub open spec fn moves_views(v: Seq<Moves>) -> Seq<(u64, int, Seq<u64>)> {
    v.map_values(|m: Moves| m@)
}

/// The two states of the scan over the eras: look at both roles of the
/// address, or skip its role as a source in this era because the previous
/// era's chain, which ended at the address, has already followed it forward.
#[derive(Clone, Copy, Debug, PartialEq, Eq, Structural)]
pub enum ScanState {
    Normal,
    SkipSource,
}

/// Where the object at `a` went, era after era from era `i` on, until an era
/// does not move it.
pub open spec fn chain_fwd(s: Seq<EraView>, i: int, a: u64) -> Seq<u64>
    decreases s.len() - i,
{
    if 0 <= i < s.len() && s[i].fwd.contains_key(a) {
        seq![s[i].fwd[a].addr] + chain_fwd(s, i + 1, s[i].fwd[a].addr)
    } else {
        seq![]
    }
}

/// Where the object at `a` came from, era after era from era `i - 1` down,
/// until an era did not move it there; newest first.
pub open spec fn chain_bwd(s: Seq<EraView>, i: int, a: u64) -> Seq<u64>
    decreases i,
{
    if 0 < i <= s.len() && s[i - 1].bwd.contains_key(a) {
        seq![s[i - 1].bwd[a].addr] + chain_bwd(s, i - 1, s[i - 1].bwd[a].addr)
    } else {
        seq![]
    }
}

/// The chain through the move `from -> to` of era `e`, reported for `loc`.
pub open spec fn chain_through(s: Seq<EraView>, e: int, from: u64, to: u64, loc: u64) -> (
    u64,
    int,
    Seq<u64>,
) {
    let back = chain_bwd(s, e, from);
    (loc, e - back.len(), back.reverse() + seq![from, to] + chain_fwd(s, e + 1, to))
}

/// The chains that era `e` contributes for `a`: the one where `a` is the
/// source of a move (unless skipped), then the one where `a` is its
/// destination.
pub open spec fn era_chains(s: Seq<EraView>, e: int, a: u64, st: ScanState) -> Seq<
    (u64, int, Seq<u64>),
> {
    (if st is Normal && s[e].fwd.contains_key(a) {
        seq![chain_through(s, e, a, s[e].fwd[a].addr, a)]
    } else {
        seq![]
    }) + (if s[e].bwd.contains_key(a) {
        seq![chain_through(s, e, s[e].bwd[a].addr, a, a)]
    } else {
        seq![]
    })
}

/// The state for the era after `e`.
pub open spec fn next_state(s: Seq<EraView>, e: int, a: u64) -> ScanState {
    if s[e].bwd.contains_key(a) {
        ScanState::SkipSource
    } else {
        ScanState::Normal
    }
}

/// The state in which era `e` is scanned.
pub open spec fn state_at(s: Seq<EraView>, e: int, a: u64) -> ScanState {
    if e <= 0 {
        ScanState::Normal
    } else {
        next_state(s, e - 1, a)
    }
}

/// The chains that the first `n` eras contribute for `a`, in era order.
pub open spec fn chains_upto(s: Seq<EraView>, n: int, a: u64) -> Seq<(u64, int, Seq<u64>)>
    decreases n,
{
    if n <= 0 {
        seq![]
    } else {
        chains_upto(s, n - 1, a) + era_chains(s, n - 1, a, state_at(s, n - 1, a))
    }
}

/// Every chain through `a` in the store `s`.
pub open spec fn all_chains(s: Seq<EraView>, a: u64) -> Seq<(u64, int, Seq<u64>)> {
    chains_upto(s, s.len() as int, a)
}

proof fn lemma_chain_bwd_len(s: Seq<EraView>, i: int, a: u64)
    ensures
        chain_bwd(s, i, a).len() <= if i < 0 {
            0
        } else {
            i
        },
    decreases i,
{
    if 0 < i <= s.len() && s[i - 1].bwd.contains_key(a) {
        lemma_chain_bwd_len(s, i - 1, s[i - 1].bwd[a].addr);
    }
}

/// The addresses that the object at `addr` moves to, from era `start` on.
fn follow_fwd(gcs: &[GC], start: usize, addr: u64) -> (r: Vec<u64>)
    ensures
        r@ == chain_fwd(era_views(gcs@), start as int, addr),
{
    let ghost s = era_views(gcs@);
    let mut r: Vec<u64> = Vec::new();
    let mut i: usize = start;
    let mut cur: u64 = addr;
    while i < gcs.len()
        invariant
            s == era_views(gcs@),
            start <= i,
            r@ + chain_fwd(s, i as int, cur) == chain_fwd(s, start as int, addr),
        ensures
            r@ == chain_fwd(s, start as int, addr),
        decreases gcs.len() - i,
    {
        assert(gcs@[i as int]@ == s[i as int]);
        match gcs[i].forward(cur) {
            None => {
                assert(r@ =~= r@ + chain_fwd(s, i as int, cur));
                break;
            },
            Some(next) => {
                assert(r@.push(next.addr) + chain_fwd(s, i + 1, next.addr) =~= r@ + chain_fwd(
                    s,
                    i as int,
                    cur,
                ));
                r.push(next.addr);
                cur = next.addr;
                i = i + 1;
            },
        }
    }
    proof {
        if i >= gcs.len() {
            assert(r@ =~= r@ + chain_fwd(s, i as int, cur));
        }
    }
    r
}

/// The addresses that the object at `addr` came from, from era `end - 1`
/// down, newest first.
fn follow_bwd(gcs: &[GC], end: usize, addr: u64) -> (r: Vec<u64>)
    requires
        end <= gcs.len(),
    ensures
        r@ == chain_bwd(era_views(gcs@), end as int, addr),
{
    let ghost s = era_views(gcs@);
    let mut r: Vec<u64> = Vec::new();
    let mut i: usize = end;
    let mut cur: u64 = addr;
    while i > 0
        invariant
            s == era_views(gcs@),
            i <= end <= gcs.len(),
            r@ + chain_bwd(s, i as int, cur) == chain_bwd(s, end as int, addr),
        ensures
            r@ == chain_bwd(s, end as int, addr),
        decreases i,
    {
        assert(gcs@[i - 1]@ == s[i - 1]);
        match gcs[i - 1].backward(cur) {
            None => {
                assert(r@ =~= r@ + chain_bwd(s, i as int, cur));
                break;
            },
            Some(prev) => {
                assert(r@.push(prev.addr) + chain_bwd(s, i - 1, prev.addr) =~= r@ + chain_bwd(
                    s,
                    i as int,
                    cur,
                ));
                r.push(prev.addr);
                cur = prev.addr;
                i = i - 1;
            },
        }
    }
    proof {
        if i == 0 {
            assert(r@ =~= r@ + chain_bwd(s, i as int, cur));
        }
    }
    r
}

/// The chain through the move `from -> to` of era `e`, reported for `loc`.
fn build_chain(gcs: &[GC], e: usize, from: u64, to: u64, loc: u64) -> (r: Moves)
    requires
        e < gcs.len(),
    ensures
        r@ == chain_through(era_views(gcs@), e as int, from, to, loc),
{
    let ghost s = era_views(gcs@);
    let back = follow_bwd(gcs, e, from);
    proof {
        lemma_chain_bwd_len(s, e as int, from);
    }
    let first_move = e - back.len();
    let mut path: Vec<u64> = Vec::new();
    let mut j: usize = back.len();
    while j > 0
        invariant
            j <= back.len(),
            path@ == back@.reverse().subrange(0, (back.len() - j) as int),
        decreases j,
    {
        j = j - 1;
        let ghost before = path@;
        path.push(back[j]);
        assert(path@ =~= back@.reverse().subrange(0, (back.len() - j) as int)) by {
            assert(before.push(back@[j as int]) =~= back@.reverse().subrange(
                0,
                (back.len() - j) as int,
            ));
        }
    }
    assert(path@ =~= back@.reverse());
    path.push(from);
    path.push(to);
    let fwd = follow_fwd(gcs, e + 1, to);
    let ghost mid = path@;
    let mut k: usize = 0;
    while k < fwd.len()
        invariant
            k <= fwd.len(),
            path@ == mid + fwd@.subrange(0, k as int),
        decreases fwd.len() - k,
    {
        path.push(fwd[k]);
        k = k + 1;
        assert(path@ =~= mid + fwd@.subrange(0, k as int));
    }
    assert(fwd@.subrange(0, fwd.len() as int) =~= fwd@);
    assert(path@ =~= back@.reverse() + seq![from, to] + fwd@);
    Moves { loc, first_move, moves: path }
}

/// Scans era `e` in state `st`: appends to `out` the chains that the era
/// contributes for `addr` and returns the state for the next era.
pub fn scan_era(gcs: &[GC], e: usize, addr: u64, st: ScanState, out: &mut Vec<Moves>) -> (r:
    ScanState)
    requires
        e < gcs.len(),
    ensures
        moves_views(final(out)@) == moves_views(old(out)@) + era_chains(
            era_views(gcs@),
            e as int,
            addr,
            st,
        ),
        r == next_state(era_views(gcs@), e as int, addr),
{
    let ghost s = era_views(gcs@);
    let ghost start = moves_views(out@);
    assert(gcs@[e as int]@ == s[e as int]);
    let ghost first_part: Seq<(u64, int, Seq<u64>)> = if st is Normal && s[e as int].fwd.contains_key(addr) {
        seq![chain_through(s, e as int, addr, s[e as int].fwd[addr].addr, addr)]
    } else {
        seq![]
    };
    if st == ScanState::Normal {
        match gcs[e].forward(addr) {
            Some(next) => {
                let m = build_chain(gcs, e, addr, next.addr, addr);
                let ghost before = out@;
                out.push(m);
                assert(moves_views(out@) =~= moves_views(before).push(m@));
            },
            None => {},
        }
    }
    assert(moves_views(out@) =~= start + first_part);
    match gcs[e].backward(addr) {
        Some(prev) => {
            let m = build_chain(gcs, e, prev.addr, addr, addr);
            let ghost before = out@;
            out.push(m);
            assert(moves_views(out@) =~= moves_views(before).push(m@));
            assert(moves_views(out@) =~= start + era_chains(s, e as int, addr, st));
            ScanState::SkipSource
        },
        None => {
            assert(moves_views(out@) =~= start + era_chains(s, e as int, addr, st));
            ScanState::Normal
        },
    }
}

/// Finds every chain of moves that passes through `addr`, in the era order
/// of the move that revealed each chain.
pub fn find_moves(gcs: &[GC], addr: u64) -> (r: Vec<Moves>)
    ensures
        moves_views(r@) == all_chains(era_views(gcs@), addr),
{
    let ghost s = era_views(gcs@);
    let mut ret: Vec<Moves> = Vec::new();
    let mut st = ScanState::Normal;
    let mut e: usize = 0;
    assert(moves_views(ret@) =~= seq![]);
    while e < gcs.len()
        invariant
            s == era_views(gcs@),
            e <= gcs.len(),
            st == state_at(s, e as int, addr),
            moves_views(ret@) == chains_upto(s, e as int, addr),
        decreases gcs.len() - e,
    {
        st = scan_era(gcs, e, addr, st, &mut ret);
        e = e + 1;
    }
    ret
}

/// Era `e` moved the object at `x` to `y`, as both of its indexes record.
pub open spec fn link(s: Seq<EraView>, e: int, x: u64, y: u64) -> bool {
    &&& 0 <= e < s.len()
    &&& s[e].fwd.contains_key(x)
    &&& s[e].fwd[x].addr == y
    &&& s[e].bwd.contains_key(y)
    &&& s[e].bwd[y].addr == x
}

/// The `k`-th and `k + 1`-th addresses of the chain `c` are linked by a
/// move of the era between them.
pub open spec fn step_linked(s: Seq<EraView>, c: (u64, int, Seq<u64>), k: int) -> bool {
    link(s, c.1 + k, c.2[k], c.2[k + 1])
}

/// Every two consecutive addresses of the chain `c` are linked, so a forward
/// lookup from each address but the last gives its successor and a backward
/// lookup from each but the first gives its predecessor.
pub open spec fn linked(s: Seq<EraView>, c: (u64, int, Seq<u64>)) -> bool {
    &&& c.2.len() >= 2
    &&& forall|k: int| 0 <= k < c.2.len() - 1 ==> #[trigger] step_linked(s, c, k)
}

pub open spec fn all_inverse(s: Seq<EraView>) -> bool {
    forall|i: int| 0 <= i < s.len() ==> #[trigger] s[i].inverse()
}

proof fn lemma_fwd_links(s: Seq<EraView>, i: int, a: u64)
    requires
        all_inverse(s),
        0 <= i,
    ensures
        forall|k: int|
            0 <= k < chain_fwd(s, i, a).len() ==> link(
                s,
                i + k,
                #[trigger] (seq![a] + chain_fwd(s, i, a))[k],
                (seq![a] + chain_fwd(s, i, a))[k + 1],
            ),
    decreases s.len() - i,
{
    if 0 <= i < s.len() && s[i].fwd.contains_key(a) {
        let n = s[i].fwd[a].addr;
        lemma_fwd_links(s, i + 1, n);
        let p = seq![a] + chain_fwd(s, i, a);
        let q = seq![n] + chain_fwd(s, i + 1, n);
        assert(s[i].inverse());
        assert forall|k: int| 0 <= k < chain_fwd(s, i, a).len() implies link(
            s,
            i + k,
            #[trigger] p[k],
            p[k + 1],
        ) by {
            if k > 0 {
                assert(p[k] == q[k - 1]);
                assert(p[k + 1] == q[k]);
                assert(link(s, i + 1 + (k - 1), q[k - 1], q[k - 1 + 1]));
            }
        }
    }
}

proof fn lemma_bwd_links(s: Seq<EraView>, i: int, a: u64)
    requires
        all_inverse(s),
    ensures
        forall|k: int|
            0 <= k < chain_bwd(s, i, a).len() ==> link(
                s,
                i - 1 - k,
                (seq![a] + chain_bwd(s, i, a))[k + 1],
                #[trigger] (seq![a] + chain_bwd(s, i, a))[k],
            ),
    decreases i,
{
    if 0 < i <= s.len() && s[i - 1].bwd.contains_key(a) {
        let n = s[i - 1].bwd[a].addr;
        lemma_bwd_links(s, i - 1, n);
        let p = seq![a] + chain_bwd(s, i, a);
        let q = seq![n] + chain_bwd(s, i - 1, n);
        assert(s[i - 1].inverse());
        assert forall|k: int| 0 <= k < chain_bwd(s, i, a).len() implies link(
            s,
            i - 1 - k,
            p[k + 1],
            #[trigger] p[k],
        ) by {
            if k > 0 {
                assert(p[k] == q[k - 1]);
                assert(p[k + 1] == q[k]);
                assert(link(s, i - 1 - 1 - (k - 1), q[k - 1 + 1], q[k - 1]));
            }
        }
    }
}

proof fn lemma_through_linked(s: Seq<EraView>, e: int, from: u64, to: u64, loc: u64)
    requires
        all_inverse(s),
        link(s, e, from, to),
    ensures
        linked(s, chain_through(s, e, from, to, loc)),
{
    let back = chain_bwd(s, e, from);
    let fwd = chain_fwd(s, e + 1, to);
    let c = chain_through(s, e, from, to, loc);
    let b = back.len() as int;
    lemma_chain_bwd_len(s, e, from);
    lemma_bwd_links(s, e, from);
    lemma_fwd_links(s, e + 1, to);
    let pb = seq![from] + back;
    let pf = seq![to] + fwd;
    assert(c.1 == e - b);
    assert forall|k: int| 0 <= k < c.2.len() - 1 implies #[trigger] step_linked(s, c, k) by {
        if k < b {
            let j = b - 1 - k;
            assert(c.2[k] == back[j]);
            assert(c.2[k] == pb[j + 1]);
            assert(c.2[k + 1] == pb[j]);
            assert(link(s, e - 1 - j, pb[j + 1], pb[j]));
        } else if k == b {
            assert(c.2[k] == from);
            assert(c.2[k + 1] == to);
        } else {
            let j = k - b - 1;
            assert(c.2[k] == pf[j]);
            assert(c.2[k + 1] == pf[j + 1]);
            assert(link(s, e + 1 + j, pf[j], pf[j + 1]));
        }
    }
}

/// In a store whose eras index their moves both ways, every chain that
/// `find_moves` reports is linked: from each address but the last a forward
/// lookup in its era gives the next one, and from each but the first a
/// backward lookup gives the one before.
pub proof fn lemma_chains_linked(s: Seq<EraView>, a: u64)
    requires
        all_inverse(s),
    ensures
        forall|j: int|
            0 <= j < all_chains(s, a).len() ==> linked(s, #[trigger] all_chains(s, a)[j]),
{
    lemma_chains_upto_linked(s, s.len() as int, a);
}

proof fn lemma_chains_upto_linked(s: Seq<EraView>, n: int, a: u64)
    requires
        all_inverse(s),
        n <= s.len(),
    ensures
        forall|j: int|
            0 <= j < chains_upto(s, n, a).len() ==> linked(s, #[trigger] chains_upto(s, n, a)[j]),
    decreases n,
{
    if n > 0 {
        lemma_chains_upto_linked(s, n - 1, a);
        let e = n - 1;
        let prev = chains_upto(s, n - 1, a);
        let here = era_chains(s, e, a, state_at(s, e, a));
        assert(s[e].inverse());
        if s[e].fwd.contains_key(a) {
            lemma_through_linked(s, e, a, s[e].fwd[a].addr, a);
        }
        if s[e].bwd.contains_key(a) {
            lemma_through_linked(s, e, s[e].bwd[a].addr, a, a);
        }
        assert forall|j: int| 0 <= j < chains_upto(s, n, a).len() implies linked(
            s,
            #[trigger] chains_upto(s, n, a)[j],
        ) by {
            if j < prev.len() {
                assert(chains_upto(s, n, a)[j] == prev[j]);
            } else {
                assert(chains_upto(s, n, a)[j] == here[j - prev.len()]);
            }
        }
    }
}

/// An era that records no move.
pub open spec fn unmoved(e: EraView) -> bool {
    e.fwd.dom() == Set::<u64>::empty() && e.bwd.dom() == Set::<u64>::empty()
}

proof fn lemma_unmoved_upto(s: Seq<EraView>, n: int, a: u64)
    requires
        n <= s.len(),
        forall|i: int| 0 <= i < s.len() ==> #[trigger] unmoved(s[i]),
    ensures
        chains_upto(s, n, a) == Seq::<(u64, int, Seq<u64>)>::empty(),
    decreases n,
{
    if n > 0 {
        lemma_unmoved_upto(s, n - 1, a);
        assert(unmoved(s[n - 1]));
        assert(!s[n - 1].fwd.dom().contains(a));
        assert(!s[n - 1].bwd.dom().contains(a));
        assert(chains_upto(s, n, a) =~= Seq::<(u64, int, Seq<u64>)>::empty());
    }
}

proof fn lemma_starts_only(recs: Seq<TraceRecord>)
    requires
        forall|i: int| 0 <= i < recs.len() ==> #[trigger] recs[i] is EraStart,
    ensures
        replay(recs) matches Ok((sealed, cur)) && (forall|i: int|
            0 <= i < seal(sealed, cur).len() ==> #[trigger] unmoved(seal(sealed, cur)[i])),
    decreases recs.len(),
{
    if recs.len() > 0 {
        let prev = recs.drop_last();
        assert forall|i: int| 0 <= i < prev.len() implies #[trigger] prev[i] is EraStart by {
            assert(prev[i] == recs[i]);
        }
        lemma_starts_only(prev);
        assert(recs[recs.len() - 1] is EraStart);
        let (sealed, cur) = replay(prev)->Ok_0;
        let major = recs.last()->major;
        let s1 = seal(sealed, cur);
        let s2 = s1.push(EraView::empty(major));
        assert(unmoved(EraView::empty(major))) by {
            assert(Map::<u64, AddrSize>::empty().dom() =~= Set::<u64>::empty());
        }
        assert forall|i: int| 0 <= i < s2.len() implies #[trigger] unmoved(s2[i]) by {
            if i < s1.len() {
                assert(s2[i] == s1[i]);
            }
        }
    }
}

/// A store built from records without a single move (no records at all, or
/// only era starts) answers every query with no chain.
pub proof fn lemma_no_moves_no_chains(recs: Seq<TraceRecord>, a: u64)
    requires
        forall|i: int| 0 <= i < recs.len() ==> #[trigger] recs[i] is EraStart,
    ensures
        build_from(recs) is Ok,
        all_chains(build_from(recs)->Ok_0, a) == Seq::<(u64, int, Seq<u64>)>::empty(),
{
    lemma_starts_only(recs);
    let s = build_from(recs)->Ok_0;
    lemma_unmoved_upto(s, s.len() as int, a);
}

} // verus!
