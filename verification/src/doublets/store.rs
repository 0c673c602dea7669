//! The store of links over a flat array of records.

use vstd::prelude::*;
use crate::doublets::error::Error;
use crate::doublets::handler::{Flow, ReadHandler, WriteHandler};
use crate::doublets::link::{Index, Link};
use crate::doublets::traits::{
    Links, changed, endpoints, fits, is_link, matching, vacant, values,
};

verus! {

/// The mark of a freed record.
pub const FREE: usize = usize::MAX;

/// The number of records that a new store has room for.
pub const FIRST_ROOM: usize = 1024;

/// One record of the array: the ends of a link or, for a freed record, the
/// index that was freed before it.
#[derive(Debug, Clone, Copy, PartialEq, Eq)]
pub struct RawLink {
    pub source: usize,
    pub target: usize,
    pub is_free: usize,
}

impl RawLink {
    /// The record of all zeros.
    pub open spec fn zeroed() -> Self {
        RawLink { source: 0, target: 0, is_free: 0 }
    }
}

impl Default for RawLink {
    fn default() -> (r: Self)
        ensures
            r == RawLink::zeroed(),
    {
        RawLink { source: 0, target: 0, is_free: 0 }
    }
}

/// A store of links in a growing array. Record 0 stands for no link; the
/// records from 1 up to `allocated` are links or freed.
pub struct Store<L: Index> {
    mem: Vec<RawLink>,
    allocated: usize,
    free_count: usize,
    first_free: Option<usize>,
    free: Ghost<Seq<nat>>,
    _phantom: core::marker::PhantomData<L>,
}

/// Whether record `i` of `mem` is a link.
pub open spec fn live(mem: Seq<RawLink>, allocated: nat, i: nat) -> bool {
    1 <= i < allocated && i < mem.len() && mem[i as int].is_free != FREE
}

/// The links among the records.
pub open spec fn links_of(mem: Seq<RawLink>, allocated: nat) -> Map<nat, (nat, nat)> {
    Map::new(
        |i: nat| live(mem, allocated, i),
        |i: nat| (mem[i as int].source as nat, mem[i as int].target as nat),
    )
}

/// The freed records are chained from `first_free`, each holding the index
/// of the next in its source, and `free` lists exactly them.
pub open spec fn chained(
    mem: Seq<RawLink>,
    allocated: nat,
    first_free: Option<usize>,
    free: Seq<nat>,
) -> bool {
    &&& free.no_duplicates()
    &&& forall|j: int|
        0 <= j < free.len() ==> {
            &&& 1 <= #[trigger] free[j] < allocated
            &&& mem[free[j] as int].is_free == FREE
            &&& mem[free[j] as int].source == (if j + 1 < free.len() {
                free[j + 1]
            } else {
                0
            })
        }
    &&& forall|i: nat|
        1 <= i < allocated && (#[trigger] mem[i as int]).is_free == FREE ==> free.contains(i)
    &&& first_free == (if free.len() > 0 {
        Some(free[0] as usize)
    } else {
        None
    })
}

impl<L: Index> Store<L> {
    /// An empty store with room for the first links.
    pub fn new() -> (r: Result<Self, Error<L>>)
        ensures
            match r {
                Ok(store) => {
                    &&& store.wf()
                    &&& store@ == Map::<nat, (nat, nat)>::empty()
                    &&& store.freed() == Seq::<nat>::empty()
                    &&& store.bound() == 1
                },
                Err(_) => false,
            },
    {
        let mut mem: Vec<RawLink> = Vec::new();
        let mut i: usize = 0;
        while i < FIRST_ROOM
            invariant
                i <= FIRST_ROOM,
                mem@.len() == i,
            decreases FIRST_ROOM - i,
        {
            mem.push(RawLink { source: 0, target: 0, is_free: 0 });
            i = i + 1;
        }
        let r = Store {
            mem,
            allocated: 1,
            free_count: 0,
            first_free: None,
            free: Ghost(Seq::empty()),
            _phantom: core::marker::PhantomData,
        };
        proof {
            assert(r@.dom() =~= Set::<nat>::empty());
            assert(r@ =~= Map::<nat, (nat, nat)>::empty());
        }
        Ok(r)
    }

    /// Whether `index` is the index of a link.
    fn holds(&self, index: L) -> (r: bool)
        requires
            self.wf(),
        ensures
            r == self@.dom().contains(index.value()),
    {
        let idx = index.as_usize();
        if index.is_zero() || idx >= self.allocated {
            return false;
        }
        self.mem[idx].is_free != FREE
    }

    /// The number of links.
    fn count_total(&self) -> (r: usize)
        requires
            self.wf(),
        ensures
            r == self@.dom().len(),
    {
        self.allocated - self.free_count - 1
    }

    /// Whether record `i` is a link that answers `query`.
    fn answers(&self, query: &[L], i: usize) -> (r: bool)
        requires
            self.wf(),
            1 <= i < self.bound(),
        ensures
            r == (self@.dom().contains(i as nat) && fits(
                values(query@),
                i as nat,
                self@[i as nat].0,
                self@[i as nat].1,
            )),
    {
        let raw = self.mem[i];
        if raw.is_free == FREE {
            return false;
        }
        let n = query.len();
        (n < 1 || query[0].as_usize() == 0 || query[0].as_usize() == i) && (n < 2
            || query[1].as_usize() == 0 || query[1].as_usize() == raw.source) && (n < 3
            || query[2].as_usize() == 0 || query[2].as_usize() == raw.target)
    }

    /// Makes room for as many records again as there are.
    fn grow(&mut self)
        requires
            old(self).wf(),
            old(self).mem@.len() * 2 <= usize::MAX,
        ensures
            final(self).mem@.len() == 2 * old(self).mem@.len(),
            forall|i: int| 0 <= i < old(self).mem@.len() ==> final(self).mem@[i] == old(self).mem@[i],
            final(self).allocated == old(self).allocated,
            final(self).free_count == old(self).free_count,
            final(self).first_free == old(self).first_free,
            final(self).free == old(self).free,
    {
        let n = self.mem.len();
        let mut i: usize = 0;
        while i < n
            invariant
                i <= n,
                n * 2 <= usize::MAX,
                n == old(self).mem@.len(),
                self.mem@.len() == n + i,
                forall|j: int| 0 <= j < n ==> self.mem@[j] == old(self).mem@[j],
                self.allocated == old(self).allocated,
                self.free_count == old(self).free_count,
                self.first_free == old(self).first_free,
                self.free == old(self).free,
            decreases n - i,
        {
            self.mem.push(RawLink { source: 0, target: 0, is_free: 0 });
            i = i + 1;
        }
    }

    /// Takes the index for the next link: the one that was freed last or,
    /// where none is free, the first that was never taken.
    fn allocate_index(&mut self) -> (r: Result<L, Error<L>>)
        requires
            old(self).wf(),
        ensures
            final(self).wf(),
            r is Err <==> old(self).freed().len() == 0 && old(self).full(),
            match r {
                Ok(index) => {
                    &&& index.value() == vacant(old(self).freed(), old(self).bound())
                    &&& final(self)@.dom() == old(self)@.dom().insert(index.value())
                    &&& forall|i: nat| old(self)@.dom().contains(i) ==> final(self)@[i] == old(self)@[i]
                    &&& final(self).freed() == (if old(self).freed().len() > 0 {
                        old(self).freed().drop_first()
                    } else {
                        old(self).freed()
                    })
                    &&& final(self).bound() == (if old(self).freed().len() > 0 {
                        old(self).bound()
                    } else {
                        old(self).bound() + 1
                    })
                },
                Err(e) => {
                    &&& e == Error::<L>::AllocationFailed
                    &&& final(self)@ == old(self)@
                    &&& final(self).freed() == old(self).freed()
                    &&& final(self).bound() == old(self).bound()
                },
            },
    {
        let ghost fl = self.free@;
        let ghost before = self@;
        match self.first_free {
            Some(free_index) => {
                proof {
                    assert(fl[0] == free_index);
                }
                let raw = self.mem[free_index];
                let next_free = if raw.source == 0 {
                    None
                } else {
                    Some(raw.source)
                };
                let taken = RawLink { source: raw.source, target: raw.target, is_free: 0 };
                proof {
                    lemma_chain_pop(
                        self.mem@,
                        self.allocated as nat,
                        self.first_free,
                        fl,
                        taken,
                    );
                }
                self.mem.set(free_index, taken);
                self.first_free = next_free;
                self.free_count = self.free_count - 1;
                self.free = Ghost(fl.drop_first());
                Ok(L::from_usize(free_index))
            },
            None => {
                let index = self.allocated;
                let len = self.mem.len();
                if index + 1 >= len {
                    if len > usize::MAX / 2 {
                        return Err(Error::AllocationFailed);
                    }
                    self.grow();
                }
                self.allocated = index + 1;
                self.mem.set(index, RawLink { source: 0, target: 0, is_free: 0 });
                proof {
                    assert(self@.dom() =~= before.dom().insert(index as nat));
                }
                Ok(L::from_usize(index))
            },
        }
    }

    /// Writes the ends of the link in record `idx`.
    fn write_ends(&mut self, idx: usize, source: usize, target: usize)
        requires
            old(self).wf(),
            old(self)@.dom().contains(idx as nat),
        ensures
            final(self).wf(),
            final(self)@ == old(self)@.insert(idx as nat, (source as nat, target as nat)),
            final(self).freed() == old(self).freed(),
            final(self).bound() == old(self).bound(),
            final(self).full() == old(self).full(),
    {
        let ghost before = self@;
        proof {
            assert(!self.free@.contains(idx as nat));
        }
        self.mem.set(idx, RawLink { source, target, is_free: 0 });
        proof {
            assert(self@.dom() =~= before.dom());
            assert(self@ =~= before.insert(idx as nat, (source as nat, target as nat)));
        }
    }

    /// Frees the index of the link `index`.
    fn free_index(&mut self, index: L)
        requires
            old(self).wf(),
            old(self)@.dom().contains(index.value()),
        ensures
            final(self).wf(),
            final(self)@ == old(self)@.remove(index.value()),
            final(self).freed() == seq![index.value()] + old(self).freed(),
            final(self).bound() == old(self).bound(),
    {
        let ghost fl = self.free@;
        let ghost before = self.mem@;
        let idx = index.as_usize();
        let next_free = match self.first_free {
            Some(f) => f,
            None => 0,
        };
        let freed = RawLink { source: next_free, target: 0, is_free: FREE };
        proof {
            lemma_chain_push(before, self.allocated as nat, self.first_free, fl, idx as nat, freed);
        }
        self.mem.set(idx, freed);
        self.first_free = Some(idx);
        self.free_count = self.free_count + 1;
        self.free = Ghost(seq![idx as nat] + fl);
    }
}

/// A link that is freed goes to the head of the chain of freed records, and
/// out of the links.
proof fn lemma_chain_push(
    mem: Seq<RawLink>,
    allocated: nat,
    first_free: Option<usize>,
    free: Seq<nat>,
    idx: nat,
    freed: RawLink,
)
    requires
        chained(mem, allocated, first_free, free),
        allocated <= mem.len(),
        allocated <= usize::MAX,
        live(mem, allocated, idx),
        freed.is_free == FREE,
        freed.source == (match first_free {
            Some(f) => f,
            None => 0,
        }),
    ensures
        chained(mem.update(idx as int, freed), allocated, Some(idx as usize), seq![idx] + free),
        links_of(mem.update(idx as int, freed), allocated) == links_of(mem, allocated).remove(idx),
        (seq![idx] + free).len() == free.len() + 1,
{
    let now = seq![idx] + free;
    let mem2 = mem.update(idx as int, freed);
    assert(!free.contains(idx));
    assert forall|j: int| 0 < j < now.len() implies now[j] == free[j - 1] by {}
    assert(now[0] == idx);
    assert forall|j: int| 0 <= j < now.len() implies {
        &&& 1 <= #[trigger] now[j] < allocated
        &&& mem2[now[j] as int].is_free == FREE
        &&& mem2[now[j] as int].source == (if j + 1 < now.len() {
            now[j + 1]
        } else {
            0
        })
    } by {
        if j > 0 {
            assert(now[j] == free[j - 1]);
            assert(free.contains(free[j - 1]));
            assert(now[j] != idx);
            assert(mem2[now[j] as int] == mem[free[j - 1] as int]);
            if j + 1 < now.len() {
                assert(now[j + 1] == free[j]);
            }
        } else {
            assert(mem2[idx as int] == freed);
            if free.len() > 0 {
                assert(now[1] == free[0]);
                assert(1 <= free[0] < allocated);
                assert(first_free == Some(free[0] as usize));
            }
        }
    }
    assert forall|i: nat|
        1 <= i < allocated && (#[trigger] mem2[i as int]).is_free == FREE implies now.contains(
        i,
    ) by {
        if i == idx {
            assert(now[0] == i);
        } else {
            assert(mem[i as int].is_free == FREE);
            assert(free.contains(i));
            let j = choose|j: int| 0 <= j < free.len() && free[j] == i;
            assert(now[j + 1] == i);
        }
    }
    assert forall|a: int, b: int| 0 <= a < now.len() && 0 <= b < now.len() && a != b implies now[a]
        != now[b] by {
        if a > 0 && b > 0 {
            assert(free[a - 1] != free[b - 1]);
        } else if a > 0 {
            assert(free.contains(free[a - 1]));
        } else {
            assert(free.contains(free[b - 1]));
        }
    }
    assert(links_of(mem2, allocated).dom() =~= links_of(mem, allocated).dom().remove(idx));
    assert(links_of(mem2, allocated) =~= links_of(mem, allocated).remove(idx));
}

/// The record at the head of the chain of freed records leaves the chain
/// and becomes a link.
proof fn lemma_chain_pop(
    mem: Seq<RawLink>,
    allocated: nat,
    first_free: Option<usize>,
    free: Seq<nat>,
    taken: RawLink,
)
    requires
        chained(mem, allocated, first_free, free),
        allocated <= mem.len(),
        allocated <= usize::MAX,
        free.len() > 0,
        taken.is_free == 0,
        taken.source == mem[free[0] as int].source,
        taken.target == mem[free[0] as int].target,
    ensures
        first_free == Some(free[0] as usize),
        1 <= free[0] < allocated,
        chained(
            mem.update(free[0] as int, taken),
            allocated,
            if taken.source == 0 {
                None
            } else {
                Some(taken.source)
            },
            free.drop_first(),
        ),
        links_of(mem.update(free[0] as int, taken), allocated).dom() == links_of(
            mem,
            allocated,
        ).dom().insert(free[0]),
        forall|i: nat|
            links_of(mem, allocated).dom().contains(i) ==> links_of(
                mem.update(free[0] as int, taken),
                allocated,
            )[i] == links_of(mem, allocated)[i],
        !links_of(mem, allocated).dom().contains(free[0]),
        free.drop_first().len() + 1 == free.len(),
{
    let head = free[0];
    let rest = free.drop_first();
    let mem2 = mem.update(head as int, taken);
    assert forall|j: int| 0 <= j < rest.len() implies rest[j] == free[j + 1] && rest[j] != head by {
        assert(rest[j] == free[j + 1]);
    }
    assert forall|j: int| 0 <= j < rest.len() implies {
        &&& 1 <= #[trigger] rest[j] < allocated
        &&& mem2[rest[j] as int].is_free == FREE
        &&& mem2[rest[j] as int].source == (if j + 1 < rest.len() {
            rest[j + 1]
        } else {
            0
        })
    } by {
        assert(rest[j] == free[j + 1]);
        if j + 1 < rest.len() {
            assert(rest[j + 1] == free[j + 2]);
        }
    }
    assert forall|i: nat|
        1 <= i < allocated && (#[trigger] mem2[i as int]).is_free == FREE implies rest.contains(
        i,
    ) by {
        assert(mem[i as int].is_free == FREE);
        assert(free.contains(i));
        let j = choose|j: int| 0 <= j < free.len() && free[j] == i;
        assert(rest[j - 1] == i);
    }
    assert forall|a: int, b: int| 0 <= a < rest.len() && 0 <= b < rest.len() && a != b implies rest[a]
        != rest[b] by {
        assert(free[a + 1] != free[b + 1]);
    }
    if rest.len() > 0 {
        assert(rest[0] == free[1]);
        assert(taken.source == free[1]);
    }
    assert(links_of(mem2, allocated).dom() =~= links_of(mem, allocated).dom().insert(head));
}

impl<L: Index> Links<L> for Store<L> {
    closed spec fn view(&self) -> Map<nat, (nat, nat)> {
        links_of(self.mem@, self.allocated as nat)
    }

    closed spec fn freed(&self) -> Seq<nat> {
        self.free@
    }

    closed spec fn bound(&self) -> nat {
        self.allocated as nat
    }

    closed spec fn full(&self) -> bool {
        self.allocated + 1 >= self.mem@.len() && self.mem@.len() > usize::MAX / 2
    }

    closed spec fn wf(&self) -> bool {
        &&& 1 <= self.allocated < self.mem@.len()
        &&& chained(self.mem@, self.allocated as nat, self.first_free, self.free@)
        &&& self.free_count == self.free@.len()
        &&& self@.dom().finite()
        &&& self@.dom().len() + self.free_count + 1 == self.allocated
    }

    proof fn lemma_wf(&self) {
    }

    fn limit(&self) -> (r: usize) {
        self.allocated
    }

    fn count(&self, query: &[L]) -> (r: L) {
        let ghost q = values(query@);
        let n = query.len();
        proof {
            lemma_matching(self@, q);
        }
        if n == 0 {
            return L::from_usize(self.count_total());
        }
        if n == 1 {
            let index = query[0];
            if index.is_zero() {
                return L::from_usize(self.count_total());
            } else if self.holds(index) {
                return L::one();
            } else {
                return L::zero();
            }
        }
        let end = self.limit();
        let mut count: usize = 0;
        let mut i: usize = 1;
        proof {
            assert(below(self@, q, 1) =~= Set::<nat>::empty());
        }
        while i < end
            invariant
                self.wf(),
                end == self.bound(),
                q == values(query@),
                1 <= i <= end,
                count < i,
                below(self@, q, i as nat).finite(),
                count == below(self@, q, i as nat).len(),
            decreases end - i,
        {
            proof {
                lemma_below_step(self@, q, i as nat);
            }
            if self.answers(query, i) {
                count = count + 1;
            }
            i = i + 1;
        }
        proof {
            self.lemma_wf();
            lemma_below_all(self@, q, end as nat);
        }
        L::from_usize(count)
    }

    fn create<H: WriteHandler<L>>(&mut self, query: &[L], handler: &mut H) -> (r: Result<
        Flow,
        Error<L>,
    >) {
        let ghost q = values(query@);
        let ghost before_links = self@;
        let index = match self.allocate_index() {
            Ok(index) => index,
            Err(e) => {
                return Err(e);
            },
        };
        let n = query.len();
        let (source, target) = if n == 0 {
            (L::zero(), L::zero())
        } else if n == 1 {
            (query[0], query[0])
        } else {
            (query[0], query[1])
        };
        let ghost mid = self@;
        self.write_ends(index.as_usize(), source.as_usize(), target.as_usize());
        proof {
            assert(self@ =~= before_links.insert(index.value(), endpoints(q)));
        }
        let before = Link::nothing();
        let after = Link::new(index, source, target);
        let flow = handler.handle(before, after);
        proof {
            assert(handler.saw(before, after));
        }
        Ok(flow)
    }

    fn each<H: ReadHandler<L>>(&self, query: &[L], handler: &mut H) -> (r: Flow) {
        let ghost q = values(query@);
        let n = query.len();
        proof {
            self.lemma_wf();
        }
        if n == 1 && !query[0].is_zero() {
            let index = query[0];
            return match self.get(index) {
                Some(link) => {
                    proof {
                        assert(matching(self@, q).contains(index.value()));
                    }
                    handler.handle(link)
                },
                None => {
                    proof {
                        assert(matching(self@, q) =~= Set::<nat>::empty());
                    }
                    Flow::Continue
                },
            };
        }
        let end = self.limit();
        let mut i: usize = 1;
        let mut flow = Flow::Continue;
        while i < end && !flow.is_break()
            invariant
                self.wf(),
                end == self.bound(),
                q == values(query@),
                1 <= i <= end,
                forall|j: nat| #[trigger] self@.dom().contains(j) ==> 1 <= j < end,
                flow == Flow::Break ==> !(below(self@, q, i as nat) =~= Set::<nat>::empty()),
                if below(self@, q, i as nat) =~= Set::<nat>::empty() {
                    *handler == *old(handler)
                } else {
                    exists|link: Link<L>|
                        matching(self@, q).contains(link.index.value()) && is_link(
                            link,
                            link.index.value(),
                            self@[link.index.value()],
                        ) && #[trigger] handler.saw(link)
                },
            decreases end - i, if flow == Flow::Break { 0nat } else { 1nat },
        {
            if self.answers(query, i) {
                let raw = self.mem[i];
                let link = Link::new(
                    L::from_usize(i),
                    L::from_usize(raw.source),
                    L::from_usize(raw.target),
                );
                flow = handler.handle(link);
                proof {
                    assert(matching(self@, q).contains(i as nat));
                    assert(below(self@, q, (i + 1) as nat).contains(i as nat));
                    assert(handler.saw(link));
                }
            } else {
                proof {
                    assert(below(self@, q, (i + 1) as nat) =~= below(self@, q, i as nat));
                }
            }
            i = i + 1;
        }
        proof {
            if below(self@, q, i as nat) =~= Set::<nat>::empty() {
                assert(i == end);
                lemma_below_all(self@, q, end as nat);
            } else {
                let x = choose|x: nat| below(self@, q, i as nat).contains(x);
                assert(matching(self@, q).contains(x));
            }
        }
        flow
    }

    fn update<H: WriteHandler<L>>(&mut self, query: &[L], change: &[L], handler: &mut H) -> (r:
        Result<Flow, Error<L>>) {
        if query.len() == 0 || change.len() == 0 {
            return Err(Error::InvalidQuery);
        }
        let index = query[0];
        let before = match self.get(index) {
            Some(before) => before,
            None => {
                return Err(Error::NotExists(index));
            },
        };
        let ghost c = values(change@);
        let ghost before_links = self@;
        let new_source = if change.len() >= 2 {
            change[1]
        } else {
            before.source
        };
        let new_target = if change.len() >= 3 {
            change[2]
        } else {
            before.target
        };
        self.write_ends(index.as_usize(), new_source.as_usize(), new_target.as_usize());
        let ghost ends = changed(c, before_links[index.value()]);
        proof {
            assert(self@ =~= before_links.insert(index.value(), ends));
        }
        let after = Link::new(index, new_source, new_target);
        let flow = handler.handle(before, after);
        proof {
            assert(handler.saw(before, after));
        }
        Ok(flow)
    }

    fn delete<H: WriteHandler<L>>(&mut self, query: &[L], handler: &mut H) -> (r: Result<
        Flow,
        Error<L>,
    >) {
        if query.len() == 0 {
            return Err(Error::InvalidQuery);
        }
        let index = query[0];
        let before = match self.get(index) {
            Some(before) => before,
            None => {
                return Err(Error::NotExists(index));
            },
        };
        let ghost before_links = self@;
        self.free_index(index);
        let after = Link::nothing();
        let flow = handler.handle(before, after);
        proof {
            assert(handler.saw(before, after));
        }
        Ok(flow)
    }

    fn get(&self, index: L) -> (r: Option<Link<L>>) {
        if !self.holds(index) {
            return None;
        }
        let raw = self.mem[index.as_usize()];
        Some(Link::new(index, L::from_usize(raw.source), L::from_usize(raw.target)))
    }
}

/// The indices under `end` of the links that answer `query`.
pub open spec fn below(links: Map<nat, (nat, nat)>, query: Seq<nat>, end: nat) -> Set<nat> {
    Set::new(
        |i: nat| i < end && links.dom().contains(i) && fits(query, i, links[i].0, links[i].1),
    )
}

/// Where a query names no part, or zero as its only part, every link
/// answers it; where it names an index and nothing else, the link with that
/// index answers it and no other.
pub proof fn lemma_matching(links: Map<nat, (nat, nat)>, query: Seq<nat>)
    ensures
        query.len() == 0 || (query.len() == 1 && query[0] == 0) ==> matching(links, query)
            == links.dom(),
        query.len() == 1 && links.dom().contains(query[0]) && query[0] != 0 ==> matching(
            links,
            query,
        ).len() == 1,
        query.len() == 1 && !links.dom().contains(query[0]) && query[0] != 0 ==> matching(
            links,
            query,
        ).len() == 0,
{
    if query.len() == 0 || (query.len() == 1 && query[0] == 0) {
        assert(matching(links, query) =~= links.dom());
    } else if query.len() == 1 {
        if links.dom().contains(query[0]) {
            assert(matching(links, query) =~= set![query[0]]);
        } else {
            assert(matching(links, query) =~= Set::<nat>::empty());
        }
    }
}

/// The answers under `end + 1` are those under `end`, and `end` if it is
/// one.
pub proof fn lemma_below_step(links: Map<nat, (nat, nat)>, query: Seq<nat>, end: nat)
    requires
        below(links, query, end).finite(),
    ensures
        below(links, query, end + 1).finite(),
        below(links, query, end + 1).len() == below(links, query, end).len() + (if links.dom().contains(
            end,
        ) && fits(query, end, links[end].0, links[end].1) {
            1nat
        } else {
            0nat
        }),
{
    let seen = below(links, query, end);
    if links.dom().contains(end) && fits(query, end, links[end].0, links[end].1) {
        assert(below(links, query, end + 1) =~= seen.insert(end));
    } else {
        assert(below(links, query, end + 1) =~= seen);
    }
}

/// The answers under a bound of all indices are all answers.
pub proof fn lemma_below_all(links: Map<nat, (nat, nat)>, query: Seq<nat>, end: nat)
    requires
        forall|i: nat| #[trigger] links.dom().contains(i) ==> i < end,
    ensures
        below(links, query, end) == matching(links, query),
{
    assert(below(links, query, end) =~= matching(links, query));
}

/// An empty store in memory.
pub fn create_heap_store<L: Index>() -> (r: Result<Store<L>, Error<L>>)
    ensures
        match r {
            Ok(store) => {
                &&& store.wf()
                &&& store@ == Map::<nat, (nat, nat)>::empty()
                &&& store.freed() == Seq::<nat>::empty()
                &&& store.bound() == 1
            },
            Err(_) => false,
        },
{
    Store::new()
}

} // verus!
