//! Collection cycles ("eras") and the builder that groups a stream of trace
//! records into the ordered store of eras.
use std::collections::HashMap;
use vstd::prelude::*;

verus! {

/// The other end of a relocation, and the size of the object moved.
#[derive(Clone, Copy, Debug, PartialEq, Eq, Structural)]
pub struct AddrSize {
    pub addr: u64,
    pub size: u64,
}

/// One logged relocation: an object of `size` bytes moved from `from` to `to`.
#[derive(Clone, Copy, Debug, PartialEq, Eq, Structural)]
pub struct MoveEvent {
    pub from: u64,
    pub to: u64,
    pub size: u64,
}

/// One line-level record of a trace.
#[derive(Clone, Copy, Debug, PartialEq, Eq, Structural)]
pub enum TraceRecord {
    /// A collection starts; `major` tells a full collection from a partial one.
    EraStart { major: bool },
    /// A relocation within the current collection.
    Move(MoveEvent),
}

/// Why a trace cannot be read.
#[derive(Clone, Copy, Debug, PartialEq, Eq, Structural)]
pub enum Fault {
    /// A trace line lacks a word that its kind needs.
    MissingField,
    /// An address is not `0x` followed by a hexadecimal number.
    BadAddress,
    /// A size is not a decimal number.
    BadSize,
    /// The flag after `GC` is not a small decimal number.
    BadFlag,
    /// A relocation comes before the first collection starts.
    NoActiveEra,
    /// The collection already moved an object away from this source.
    DuplicateSource,
    /// The collection already moved an object to this destination.
    DuplicateDestination,
}

/// A fault, with the index (from 0) of the line or record where it was met.
#[derive(Clone, Copy, Debug, PartialEq, Eq, Structural)]
pub struct TraceError {
    pub line: usize,
    pub fault: Fault,
}

/// What an era holds: its kind and its moves, indexed both ways.
pub struct EraView {
    pub major: bool,
    pub fwd: Map<u64, AddrSize>,
    pub bwd: Map<u64, AddrSize>,
}

impl EraView {
    pub open spec fn empty(major: bool) -> EraView {
        EraView { major, fwd: Map::empty(), bwd: Map::empty() }
    }

    /// `fwd` and `bwd` hold the same moves, each seen from its other end.
    pub open spec fn inverse(self) -> bool {
        &&& forall|f: u64| #[trigger]
            self.fwd.contains_key(f) ==> self.bwd.contains_key(self.fwd[f].addr)
                && self.bwd[self.fwd[f].addr] == (AddrSize { addr: f, size: self.fwd[f].size })
        &&& forall|t: u64| #[trigger]
            self.bwd.contains_key(t) ==> self.fwd.contains_key(self.bwd[t].addr)
                && self.fwd[self.bwd[t].addr] == (AddrSize { addr: t, size: self.bwd[t].size })
    }

    /// The era with one more move, or the fault if a place is taken already:
    /// within one collection a location is left at most once and receives at
    /// most one object.
    pub open spec fn add(self, m: MoveEvent) -> Result<EraView, Fault> {
        if self.fwd.contains_key(m.from) {
            Err(Fault::DuplicateSource)
        } else if self.bwd.contains_key(m.to) {
            Err(Fault::DuplicateDestination)
        } else {
            Ok(
                EraView {
                    major: self.major,
                    fwd: self.fwd.insert(m.from, AddrSize { addr: m.to, size: m.size }),
                    bwd: self.bwd.insert(m.to, AddrSize { addr: m.from, size: m.size }),
                },
            )
        }
    }
}

/// One collection cycle: the moves it made, by source and by destination.
#[derive(Debug)]
pub struct GC {
    major: bool,
    moves_fwd: HashMap<u64, AddrSize>,
    moves_bwd: HashMap<u64, AddrSize>,
}

impl View for GC {
    type V = EraView;

    closed spec fn view(&self) -> EraView {
        EraView { major: self.major, fwd: self.moves_fwd@, bwd: self.moves_bwd@ }
    }
}

impl GC {
    pub fn new(major: bool) -> (r: GC)
        ensures
            r@ == EraView::empty(major),
    {
        let r = GC { major, moves_fwd: HashMap::new(), moves_bwd: HashMap::new() };
        assert(r@.fwd =~= Map::empty());
        assert(r@.bwd =~= Map::empty());
        r
    }

    pub fn is_major(&self) -> (r: bool)
        ensures
            r == self@.major,
    {
        self.major
    }

    /// Where this collection moved the object at `from`, if it did.
    pub fn forward(&self, from: u64) -> (r: Option<AddrSize>)
        ensures
            r == (if self@.fwd.contains_key(from) {
                Some(self@.fwd[from])
            } else {
                None
            }),
    {
        match self.moves_fwd.get(&from) {
            Some(v) => Some(*v),
            None => None,
        }
    }

    /// Where the object that this collection moved to `to` came from, if any.
    pub fn backward(&self, to: u64) -> (r: Option<AddrSize>)
        ensures
            r == (if self@.bwd.contains_key(to) {
                Some(self@.bwd[to])
            } else {
                None
            }),
    {
        match self.moves_bwd.get(&to) {
            Some(v) => Some(*v),
            None => None,
        }
    }

    /// Records a move, refusing one whose source or destination this
    /// collection has used already; a refused move leaves the era as it was.
    pub fn insert_move(&mut self, m: MoveEvent) -> (r: Result<(), Fault>)
        ensures
            match old(self)@.add(m) {
                Ok(e) => r is Ok && final(self)@ == e,
                Err(f) => r == Err::<(), Fault>(f) && final(self)@ == old(self)@,
            },
    {
        if self.moves_fwd.contains_key(&m.from) {
            return Err(Fault::DuplicateSource);
        }
        if self.moves_bwd.contains_key(&m.to) {
            return Err(Fault::DuplicateDestination);
        }
        self.moves_fwd.insert(m.from, AddrSize { addr: m.to, size: m.size });
        self.moves_bwd.insert(m.to, AddrSize { addr: m.from, size: m.size });
        Ok(())
    }
}

/// The eras of a finished trace: the sealed ones, then the open one, if any.
pub open spec fn seal(sealed: Seq<EraView>, cur: Option<EraView>) -> Seq<EraView> {
    match cur {
        Some(e) => sealed.push(e),
        None => sealed,
    }
}

/// One step of the builder: a start seals the open era and opens a new one;
/// a move goes into the open era.
pub open spec fn build_step(sealed: Seq<EraView>, cur: Option<EraView>, rec: TraceRecord) -> Result<
    (Seq<EraView>, Option<EraView>),
    Fault,
> {
    match rec {
        TraceRecord::EraStart { major } => Ok((seal(sealed, cur), Some(EraView::empty(major)))),
        TraceRecord::Move(m) => match cur {
            None => Err(Fault::NoActiveEra),
            Some(e) => match e.add(m) {
                Ok(e2) => Ok((sealed, Some(e2))),
                Err(f) => Err(f),
            },
        },
    }
}

/// The builder's state after the records `recs`, or the first fault with the
/// index of its record.
pub open spec fn replay(recs: Seq<TraceRecord>) -> Result<
    (Seq<EraView>, Option<EraView>),
    TraceError,
>
    decreases recs.len(),
{
    if recs.len() == 0 {
        Ok((seq![], None))
    } else {
        match replay(recs.drop_last()) {
            Err(e) => Err(e),
            Ok((sealed, cur)) => match build_step(sealed, cur, recs.last()) {
                Ok(st) => Ok(st),
                Err(f) => Err(TraceError { line: (recs.len() - 1) as usize, fault: f }),
            },
        }
    }
}

/// The store of eras that the records `recs` build.
pub open spec fn build_from(recs: Seq<TraceRecord>) -> Result<Seq<EraView>, TraceError> {
    match replay(recs) {
        Err(e) => Err(e),
        Ok((sealed, cur)) => Ok(seal(sealed, cur)),
    }
}

pub open spec fn era_views(s: Seq<GC>) -> Seq<EraView> {
    s.map_values(|g: GC| g@)
}

/// How many records of `recs` start an era.
pub open spec fn era_starts(recs: Seq<TraceRecord>) -> nat
    decreases recs.len(),
{
    if recs.len() == 0 {
        0
    } else {
        era_starts(recs.drop_last()) + if recs.last() is EraStart {
            1nat
        } else {
            0nat
        }
    }
}

/// The number, counted from 1, of the last major era of `s`; 0 where no era
/// is major.
pub open spec fn last_major(s: Seq<EraView>) -> nat
    decreases s.len(),
{
    if s.len() == 0 {
        0
    } else if s.last().major {
        s.len()
    } else {
        last_major(s.drop_last())
    }
}

/// The number, counted from 1, of the last major collection in `gcs`, or 0.
pub fn last_major_era(gcs: &[GC]) -> (r: usize)
    ensures
        r == last_major(era_views(gcs@)),
{
    let ghost s = era_views(gcs@);
    let mut i: usize = gcs.len();
    assert(s.take(i as int) =~= s);
    while i > 0
        invariant
            i <= gcs.len(),
            s == era_views(gcs@),
            last_major(s) == last_major(s.take(i as int)),
        decreases i,
    {
        assert(s.take(i as int).drop_last() =~= s.take(i - 1));
        assert(s.take(i as int).last() == gcs@[i - 1]@);
        if gcs[i - 1].is_major() {
            return i;
        }
        i = i - 1;
    }
    0
}

/// Accumulates trace records into eras: the sealed ones and the open one.
pub struct EraBuilder {
    eras: Vec<GC>,
    current: Option<GC>,
}

impl EraBuilder {
    pub closed spec fn sealed(&self) -> Seq<EraView> {
        era_views(self.eras@)
    }

    pub closed spec fn open_era(&self) -> Option<EraView> {
        match self.current {
            Some(g) => Some(g@),
            None => None,
        }
    }

    pub fn new() -> (r: EraBuilder)
        ensures
            r.sealed() == Seq::<EraView>::empty(),
            r.open_era() is None,
    {
        let r = EraBuilder { eras: Vec::new(), current: None };
        assert(r.sealed() =~= Seq::<EraView>::empty());
        r
    }

    /// Takes one record; on a fault the builder is left as it was.
    pub fn add(&mut self, rec: TraceRecord) -> (r: Result<(), Fault>)
        ensures
            match build_step(old(self).sealed(), old(self).open_era(), rec) {
                Ok((sealed, cur)) => r is Ok && final(self).sealed() == sealed
                    && final(self).open_era() == cur,
                Err(f) => r == Err::<(), Fault>(f) && final(self).sealed() == old(self).sealed()
                    && final(self).open_era() == old(self).open_era(),
            },
    {
        match rec {
            TraceRecord::EraStart { major } => {
                let prev = self.current.take();
                match prev {
                    Some(g) => {
                        let ghost before = self.eras@;
                        self.eras.push(g);
                        assert(era_views(self.eras@) =~= era_views(before).push(g@));
                    },
                    None => {},
                }
                self.current = Some(GC::new(major));
                Ok(())
            },
            TraceRecord::Move(m) => match &mut self.current {
                None => Err(Fault::NoActiveEra),
                Some(g) => g.insert_move(m),
            },
        }
    }

    /// Seals the open era and hands out all eras, earliest first.
    pub fn finish(self) -> (r: Vec<GC>)
        ensures
            era_views(r@) == seal(self.sealed(), self.open_era()),
    {
        let mut eras = self.eras;
        match self.current {
            Some(g) => {
                let ghost before = eras@;
                eras.push(g);
                assert(era_views(eras@) =~= era_views(before).push(g@));
            },
            None => {},
        }
        eras
    }
}

/// Builds the store of eras from a stream of records.
pub fn build_store(records: &Vec<TraceRecord>) -> (r: Result<Vec<GC>, TraceError>)
    ensures
        match build_from(records@) {
            Ok(eras) => r is Ok && era_views(r->Ok_0@) == eras,
            Err(e) => r == Err::<Vec<GC>, TraceError>(e),
        },
{
    let mut b = EraBuilder::new();
    let mut i: usize = 0;
    assert(records@.take(0) =~= Seq::<TraceRecord>::empty());
    while i < records.len()
        invariant
            i <= records.len(),
            replay(records@.take(i as int)) == Ok::<(Seq<EraView>, Option<EraView>), TraceError>(
                (b.sealed(), b.open_era()),
            ),
        decreases records.len() - i,
    {
        let rec = records[i];
        assert(records@.take(i + 1).drop_last() =~= records@.take(i as int));
        match b.add(rec) {
            Ok(()) => {},
            Err(f) => {
                proof {
                    lemma_replay_err_stays(records@, i + 1);
                    assert(records@.take(records@.len() as int) =~= records@);
                }
                return Err(TraceError { line: i, fault: f });
            },
        }
        i = i + 1;
    }
    assert(records@.take(records@.len() as int) =~= records@);
    Ok(b.finish())
}

/// Once the records fail, more records do not mend them.
pub proof fn lemma_replay_err_stays(recs: Seq<TraceRecord>, n: int)
    requires
        0 <= n <= recs.len(),
        replay(recs.take(n)) is Err,
    ensures
        replay(recs) == replay(recs.take(n)),
    decreases recs.len() - n,
{
    if n < recs.len() {
        assert(recs.take(n + 1).drop_last() =~= recs.take(n));
        lemma_replay_err_stays(recs, n + 1);
    } else {
        assert(recs.take(n) =~= recs);
    }
}

proof fn lemma_add_keeps_inverse(e: EraView, m: MoveEvent)
    requires
        e.inverse(),
        e.add(m) is Ok,
    ensures
        e.add(m)->Ok_0.inverse(),
{
    let n = e.add(m)->Ok_0;
    assert forall|f: u64| #[trigger] n.fwd.contains_key(f) implies n.bwd.contains_key(n.fwd[f].addr)
        && n.bwd[n.fwd[f].addr] == (AddrSize { addr: f, size: n.fwd[f].size }) by {
        if f != m.from {
            assert(e.fwd.contains_key(f));
            assert(e.bwd.contains_key(e.fwd[f].addr));
        }
    }
    assert forall|t: u64| #[trigger] n.bwd.contains_key(t) implies n.fwd.contains_key(n.bwd[t].addr)
        && n.fwd[n.bwd[t].addr] == (AddrSize { addr: t, size: n.bwd[t].size }) by {
        if t != m.to {
            assert(e.bwd.contains_key(t));
            assert(e.fwd.contains_key(e.bwd[t].addr));
        }
    }
}

proof fn lemma_replay_facts(recs: Seq<TraceRecord>)
    ensures
        replay(recs) matches Ok((sealed, cur)) ==> {
            &&& seal(sealed, cur).len() == era_starts(recs)
            &&& forall|i: int| 0 <= i < seal(sealed, cur).len() ==> #[trigger] seal(
                sealed,
                cur,
            )[i].inverse()
        },
    decreases recs.len(),
{
    if recs.len() > 0 {
        lemma_replay_facts(recs.drop_last());
        if let Ok((sealed, cur)) = replay(recs.drop_last()) {
            if let TraceRecord::Move(m) = recs.last() {
                if let Some(e) = cur {
                    if e.add(m) is Ok {
                        assert(seal(sealed, cur).last() == e);
                        lemma_add_keeps_inverse(e, m);
                        let s2 = seal(sealed, Some(e.add(m)->Ok_0));
                        assert forall|i: int| 0 <= i < s2.len() implies #[trigger] s2[i].inverse() by {
                            if i < sealed.len() {
                                assert(s2[i] == seal(sealed, cur)[i]);
                            }
                        }
                    }
                }
            } else {
                let s1 = seal(sealed, cur);
                let s2 = s1.push(EraView::empty(recs.last()->major));
                assert(EraView::empty(recs.last()->major).inverse());
                assert forall|i: int| 0 <= i < s2.len() implies #[trigger] s2[i].inverse() by {
                    if i < s1.len() {
                        assert(s2[i] == s1[i]);
                    }
                }
            }
        }
    }
}

/// A built store holds one era for each record that starts one: no more, no
/// fewer.
pub proof fn lemma_one_era_per_start(recs: Seq<TraceRecord>)
    ensures
        build_from(recs) is Ok ==> build_from(recs)->Ok_0.len() == era_starts(recs),
{
    lemma_replay_facts(recs);
}

/// In every era of a built store, each forward entry `from -> (to, size)` is
/// matched by the backward entry `to -> (from, size)`, and the other way round.
pub proof fn lemma_eras_inverse(recs: Seq<TraceRecord>)
    ensures
        build_from(recs) is Ok ==> forall|i: int|
            0 <= i < build_from(recs)->Ok_0.len() ==> #[trigger] build_from(recs)->Ok_0[i].inverse(),
{
    lemma_replay_facts(recs);
}

proof fn lemma_source_stays_taken(recs: Seq<TraceRecord>, i: int, j: int, x: u64, n: int)
    requires
        0 <= i < n <= j < recs.len(),
        recs[i] is Move,
        recs[i]->Move_0.from == x,
        forall|k: int| i < k < j ==> !(#[trigger] recs[k] is EraStart),
    ensures
        replay(recs.take(n)) is Err || (replay(recs.take(n)) matches Ok((_, Some(e)))
            && e.fwd.contains_key(x)),
    decreases n,
{
    assert(recs.take(n).drop_last() =~= recs.take(n - 1));
    assert(recs.take(n).last() == recs[n - 1]);
    if n > i + 1 {
        lemma_source_stays_taken(recs, i, j, x, n - 1);
    }
}

/// Two moves from the same source within one era make the whole build fail.
pub proof fn lemma_same_source_fails(recs: Seq<TraceRecord>, i: int, j: int)
    requires
        0 <= i < j < recs.len(),
        recs[i] is Move,
        recs[j] is Move,
        recs[i]->Move_0.from == recs[j]->Move_0.from,
        forall|k: int| i < k < j ==> !(#[trigger] recs[k] is EraStart),
    ensures
        build_from(recs) is Err,
{
    lemma_source_stays_taken(recs, i, j, recs[i]->Move_0.from, j);
    assert(recs.take(j + 1).drop_last() =~= recs.take(j));
    assert(recs.take(j + 1).last() == recs[j]);
    lemma_replay_err_stays(recs, j + 1);
}

} // verus!
