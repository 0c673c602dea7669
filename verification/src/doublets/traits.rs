//! What a store of links offers, and what is built on it.

use vstd::prelude::*;
use crate::doublets::error::Error;
use crate::doublets::handler::{Flow, Keep, ReadHandler, WriteHandler};
use crate::doublets::link::{Index, Link};

verus! {

/// The numbers of the identifiers of `q`.
pub open spec fn values<L: Index>(q: Seq<L>) -> Seq<nat> {
    q.map_values(|l: L| l.value())
}

/// Whether the link `index: source target` answers `query`.
///
/// A query names up to three parts, in the order index, source, target; a
/// part that is zero or missing is answered by every link.
pub open spec fn fits(query: Seq<nat>, index: nat, source: nat, target: nat) -> bool {
    &&& (query.len() < 1 || query[0] == 0 || query[0] == index)
    &&& (query.len() < 2 || query[1] == 0 || query[1] == source)
    &&& (query.len() < 3 || query[2] == 0 || query[2] == target)
}

/// The indices of the links that answer `query`.
pub open spec fn matching(links: Map<nat, (nat, nat)>, query: Seq<nat>) -> Set<nat> {
    Set::new(|i: nat| links.dom().contains(i) && fits(query, i, links[i].0, links[i].1))
}

/// The source and target that a creation with `query` gives the new link:
/// the first two parts of the query, the first part twice where there is one
/// part, zero twice where there is none.
pub open spec fn endpoints(query: Seq<nat>) -> (nat, nat) {
    if query.len() == 0 {
        (0, 0)
    } else if query.len() == 1 {
        (query[0], query[0])
    } else {
        (query[0], query[1])
    }
}

/// The source and target that an update with `change` gives a link that had
/// `old`: the second and third part of the change, as far as it has them.
pub open spec fn changed(change: Seq<nat>, old: (nat, nat)) -> (nat, nat) {
    (
        if change.len() >= 2 {
            change[1]
        } else {
            old.0
        },
        if change.len() >= 3 {
            change[2]
        } else {
            old.1
        },
    )
}

/// Whether `link` has the three given numbers.
pub open spec fn is_link<L: Index>(link: Link<L>, index: nat, ends: (nat, nat)) -> bool {
    link.index.value() == index && link.source.value() == ends.0 && link.target.value() == ends.1
}

/// The storage operations of a store of links.
pub trait Links<L: Index>: Sized {
    /// The links of the store: source and target by index.
    spec fn view(&self) -> Map<nat, (nat, nat)>;

    /// The indices that were freed and not taken again, the last freed first.
    spec fn freed(&self) -> Seq<nat>;

    /// The first index that was never taken.
    spec fn bound(&self) -> nat;

    /// Whether the store can take no fresh index.
    spec fn full(&self) -> bool;

    /// What the store keeps true of itself.
    spec fn wf(&self) -> bool;

    /// What follows from `wf`.
    proof fn lemma_wf(&self)
        requires
            self.wf(),
        ensures
            self@.dom().finite(),
            self@.dom().len() + self.freed().len() + 1 == self.bound(),
            self.bound() <= usize::MAX,
            forall|i: nat| self@.dom().contains(i) ==> self@[i].0 <= usize::MAX && self@[i].1 <= usize::MAX,
            forall|i: nat| #[trigger] self@.dom().contains(i) ==> 1 <= i < self.bound(),
            forall|j: int|
                0 <= j < self.freed().len() ==> 1 <= #[trigger] self.freed()[j] < self.bound()
                    && !self@.dom().contains(self.freed()[j]),
    ;

    /// The first index that was never taken.
    fn limit(&self) -> (r: usize)
        requires
            self.wf(),
        ensures
            r == self.bound(),
    ;

    /// The number of links that answer `query`.
    fn count(&self, query: &[L]) -> (r: L)
        requires
            self.wf(),
        ensures
            r.value() == matching(self@, values(query@)).len(),
    ;

    /// Creates a link with the ends that `query` gives, at the index that
    /// was freed last or, where none is free, at the first that was never
    /// taken; tells `handler` of it and hands back what the handler says.
    /// Fails, and changes nothing, only where no index is free and the
    /// store is full.
    fn create<H: WriteHandler<L>>(&mut self, query: &[L], handler: &mut H) -> (r: Result<
        Flow,
        Error<L>,
    >)
        requires
            old(self).wf(),
        ensures
            final(self).wf(),
            r is Err <==> old(self).freed().len() == 0 && old(self).full(),
            match r {
                Ok(_) => {
                    let index = vacant(old(self).freed(), old(self).bound());
                    &&& final(self)@ == old(self)@.insert(index, endpoints(values(query@)))
                    &&& final(self).freed() == (if old(self).freed().len() > 0 {
                        old(self).freed().drop_first()
                    } else {
                        old(self).freed()
                    })
                    &&& final(self).bound() == (if old(self).freed().len() > 0 {
                        old(self).bound()
                    } else {
                        old(self).bound() + 1
                    })
                    &&& exists|b: Link<L>, a: Link<L>|
                        is_link(b, 0, (0, 0)) && is_link(a, index, endpoints(values(query@)))
                            && #[trigger] final(handler).saw(b, a)
                },
                Err(e) => {
                    &&& e == Error::<L>::AllocationFailed
                    &&& final(self)@ == old(self)@
                    &&& final(self).freed() == old(self).freed()
                    &&& final(self).bound() == old(self).bound()
                },
            },
    ;

    /// Tells `handler` of every link that answers `query`, in the order of
    /// the indices, until the handler says to stop; returns `Break` where it
    /// did, `Continue` where the walk came to its end.
    ///
    /// Where no link answers, the handler is left as it was. Else the link
    /// that it was told of last is one that answers.
    fn each<H: ReadHandler<L>>(&self, query: &[L], handler: &mut H) -> (r: Flow)
        requires
            self.wf(),
        ensures
            if matching(self@, values(query@)) =~= Set::<nat>::empty() {
                r == Flow::Continue && *final(handler) == *old(handler)
            } else {
                exists|link: Link<L>|
                    matching(self@, values(query@)).contains(link.index.value()) && is_link(
                        link,
                        link.index.value(),
                        self@[link.index.value()],
                    ) && #[trigger] final(handler).saw(link)
            },
    ;

    /// Gives the link that the first part of `query` names the ends that
    /// `change` gives; tells `handler` of it and hands back what the handler
    /// says. Fails, and changes nothing, where the query or the change is
    /// empty, or there is no such link.
    fn update<H: WriteHandler<L>>(&mut self, query: &[L], change: &[L], handler: &mut H) -> (r:
        Result<Flow, Error<L>>)
        requires
            old(self).wf(),
        ensures
            final(self).wf(),
            final(self).freed() == old(self).freed(),
            final(self).bound() == old(self).bound(),
            match r {
                Ok(_) => {
                    let index = query@[0].value();
                    let ends = changed(values(change@), old(self)@[index]);
                    &&& query@.len() > 0 && change@.len() > 0
                    &&& old(self)@.dom().contains(index)
                    &&& final(self)@ == old(self)@.insert(index, ends)
                    &&& exists|b: Link<L>, a: Link<L>|
                        is_link(b, index, old(self)@[index]) && is_link(a, index, ends)
                            && #[trigger] final(handler).saw(b, a)
                },
                Err(e) => {
                    &&& final(self)@ == old(self)@
                    &&& e == (if query@.len() == 0 || change@.len() == 0 {
                        Error::<L>::InvalidQuery
                    } else {
                        Error::<L>::NotExists(query@[0])
                    })
                    &&& query@.len() == 0 || change@.len() == 0 || !old(self)@.dom().contains(
                        query@[0].value(),
                    )
                },
            },
    ;

    /// Deletes the link that the first part of `query` names and frees its
    /// index; tells `handler` of it and hands back what the handler says.
    /// Fails, and changes nothing, where the query is empty or there is no
    /// such link.
    fn delete<H: WriteHandler<L>>(&mut self, query: &[L], handler: &mut H) -> (r: Result<
        Flow,
        Error<L>,
    >)
        requires
            old(self).wf(),
        ensures
            final(self).wf(),
            final(self).bound() == old(self).bound(),
            match r {
                Ok(_) => {
                    let index = query@[0].value();
                    &&& query@.len() > 0
                    &&& old(self)@.dom().contains(index)
                    &&& final(self)@ == old(self)@.remove(index)
                    &&& final(self).freed() == seq![index] + old(self).freed()
                    &&& exists|b: Link<L>, a: Link<L>|
                        is_link(b, index, old(self)@[index]) && is_link(a, 0, (0, 0))
                            && #[trigger] final(handler).saw(b, a)
                },
                Err(e) => {
                    &&& final(self)@ == old(self)@
                    &&& final(self).freed() == old(self).freed()
                    &&& e == (if query@.len() == 0 {
                        Error::<L>::InvalidQuery
                    } else {
                        Error::<L>::NotExists(query@[0])
                    })
                    &&& query@.len() == 0 || !old(self)@.dom().contains(query@[0].value())
                },
            },
    ;

    /// The link with the index `index`, if there is one.
    fn get(&self, index: L) -> (r: Option<Link<L>>)
        requires
            self.wf(),
        ensures
            match r {
                Some(link) => self@.dom().contains(index.value()) && link.index == index && is_link(
                    link,
                    index.value(),
                    self@[index.value()],
                ),
                None => !self@.dom().contains(index.value()),
            },
    ;
}

/// The index that the next creation takes: the one that was freed last or,
/// where none is free, the first that was never taken.
pub open spec fn vacant(freed: Seq<nat>, bound: nat) -> nat {
    if freed.len() > 0 {
        freed[0]
    } else {
        bound
    }
}

/// The ends of a link after every use of `old` has been pointed to `new`:
/// a target that was `old` becomes `new`; else a source that was `old`
/// becomes `new`.
pub open spec fn rebased(ends: (nat, nat), old: nat, new: nat) -> (nat, nat) {
    if ends.1 == old {
        (ends.0, new)
    } else if ends.0 == old {
        (new, ends.1)
    } else {
        ends
    }
}

/// The links of `links` after every use of `old` by another link has been
/// pointed to `new`.
pub open spec fn rebased_all(links: Map<nat, (nat, nat)>, old: nat, new: nat) -> Map<
    nat,
    (nat, nat),
> {
    Map::new(
        |i: nat| links.dom().contains(i),
        |i: nat|
            if i == old {
                links[i]
            } else {
                rebased(links[i], old, new)
            },
    )
}

/// The links other than `index` that have `index` as their source.
pub open spec fn sourced_at(links: Map<nat, (nat, nat)>, index: nat) -> Set<nat> {
    Set::new(|i: nat| links.dom().contains(i) && i != index && links[i].0 == index)
}

/// The links other than `index` that have `index` as their target.
pub open spec fn targeted_at(links: Map<nat, (nat, nat)>, index: nat) -> Set<nat> {
    Set::new(|i: nat| links.dom().contains(i) && i != index && links[i].1 == index)
}

/// Whether `listed` lists the links of `links` under `end`, each once, in
/// the order of their indices.
pub open spec fn lists<L: Index>(listed: Seq<Link<L>>, links: Map<nat, (nat, nat)>, end: nat) -> bool {
    &&& forall|k: int|
        0 <= k < listed.len() ==> {
            &&& (#[trigger] listed[k]).index.value() < end
            &&& links.dom().contains(listed[k].index.value())
            &&& is_link(listed[k], listed[k].index.value(), links[listed[k].index.value()])
        }
    &&& forall|k: int, m: int|
        0 <= k < m < listed.len() ==> (#[trigger] listed[k]).index.value() < (
        #[trigger] listed[m]).index.value()
    &&& forall|i: nat|
        i < end && #[trigger] links.dom().contains(i) ==> exists|k: int|
            0 <= k < listed.len() && (#[trigger] listed[k]).index.value() == i
}

/// The operations that are built on the storage operations.
pub trait Doublets<L: Index>: Links<L> {
    /// The number of links.
    fn count_all(&self) -> (r: L)
        requires
            self.wf(),
        ensures
            r.value() == self@.dom().len(),
    {
        let query: [L; 0] = [];
        proof {
            assert(matching(self@, values(query@)) =~= self@.dom());
        }
        self.count(query.as_slice())
    }

    /// The number of links that answer `query`.
    fn count_by(&self, query: &[L]) -> (r: L)
        requires
            self.wf(),
        ensures
            r.value() == matching(self@, values(query@)).len(),
    {
        self.count(query)
    }

    /// Creates the link from `source` to `target` and returns its index: the
    /// one that was freed last or, where none is free, the first that was
    /// never taken. Fails, and changes nothing, only where no index is free
    /// and the store is full.
    fn create_link(&mut self, source: L, target: L) -> (r: Result<L, Error<L>>)
        requires
            old(self).wf(),
        ensures
            final(self).wf(),
            r is Err <==> old(self).freed().len() == 0 && old(self).full(),
            match r {
                Ok(index) => {
                    &&& index.value() == vacant(old(self).freed(), old(self).bound())
                    &&& final(self)@ == old(self)@.insert(
                        index.value(),
                        (source.value(), target.value()),
                    )
                },
                Err(e) => e == Error::<L>::AllocationFailed && final(self)@ == old(self)@,
            },
    {
        let mut kept: Keep<L> = Keep::new();
        let query = [source, target];
        match self.create(query.as_slice(), &mut kept) {
            Ok(_) => Ok(kept.after.index),
            Err(e) => Err(e),
        }
    }

    /// Creates a point, a link that is its own source and target, and
    /// returns its index. Fails, and changes nothing, only where no index is
    /// free and the store is full.
    fn create_point(&mut self) -> (r: Result<L, Error<L>>)
        requires
            old(self).wf(),
        ensures
            final(self).wf(),
            r is Err <==> old(self).freed().len() == 0 && old(self).full(),
            match r {
                Ok(index) => {
                    &&& index.value() == vacant(old(self).freed(), old(self).bound())
                    &&& final(self)@ == old(self)@.insert(
                        index.value(),
                        (index.value(), index.value()),
                    )
                },
                Err(e) => e == Error::<L>::AllocationFailed && final(self)@ == old(self)@,
            },
    {
        let mut kept: Keep<L> = Keep::new();
        let none: [L; 0] = [];
        match self.create(none.as_slice(), &mut kept) {
            Ok(_) => {},
            Err(e) => {
                return Err(e);
            },
        }
        let index = kept.after.index;
        let ghost created = self@;
        let query = [index];
        let change = [index, index, index];
        match self.update(query.as_slice(), change.as_slice(), &mut kept) {
            Ok(_) => {
                proof {
                    assert(self@ =~= old(self)@.insert(
                        index.value(),
                        (index.value(), index.value()),
                    ));
                }
                Ok(index)
            },
            Err(e) => Err(e),
        }
    }

    /// Gives the link `index` the source `source` and the target `target`
    /// and returns `index`. Fails with `NotExists`, and changes nothing,
    /// where there is no such link.
    fn update_link(&mut self, index: L, source: L, target: L) -> (r: Result<L, Error<L>>)
        requires
            old(self).wf(),
        ensures
            final(self).wf(),
            final(self).freed() == old(self).freed(),
            final(self).bound() == old(self).bound(),
            r is Ok <==> old(self)@.dom().contains(index.value()),
            match r {
                Ok(i) => i.value() == index.value() && final(self)@ == old(self)@.insert(
                    index.value(),
                    (source.value(), target.value()),
                ),
                Err(e) => e == Error::<L>::NotExists(index) && final(self)@ == old(self)@,
            },
    {
        let mut kept: Keep<L> = Keep::new();
        let query = [index];
        let change = [index, source, target];
        match self.update(query.as_slice(), change.as_slice(), &mut kept) {
            Ok(_) => Ok(kept.after.index),
            Err(e) => Err(e),
        }
    }

    /// Deletes the link `index`, frees its index, and returns it. Fails with
    /// `NotExists`, and changes nothing, where there is no such link.
    fn delete_link(&mut self, index: L) -> (r: Result<L, Error<L>>)
        requires
            old(self).wf(),
        ensures
            final(self).wf(),
            final(self).bound() == old(self).bound(),
            r is Ok <==> old(self)@.dom().contains(index.value()),
            match r {
                Ok(i) => {
                    &&& i.value() == index.value()
                    &&& final(self)@ == old(self)@.remove(index.value())
                    &&& final(self).freed() == seq![index.value()] + old(self).freed()
                },
                Err(e) => {
                    &&& e == Error::<L>::NotExists(index)
                    &&& final(self)@ == old(self)@
                    &&& final(self).freed() == old(self).freed()
                },
            },
    {
        let mut kept: Keep<L> = Keep::new();
        let query = [index];
        match self.delete(query.as_slice(), &mut kept) {
            Ok(_) => Ok(kept.before.index),
            Err(e) => Err(e),
        }
    }

    /// The link of lowest index from `source` to `target`, zero standing for
    /// any source or target; `None` where there is none.
    fn search(&self, source: L, target: L) -> (r: Option<L>)
        requires
            self.wf(),
        ensures
            match r {
                Some(index) => {
                    &&& matching(self@, seq![0nat, source.value(), target.value()]).contains(
                        index.value(),
                    )
                    &&& forall|i: nat|
                        matching(self@, seq![0nat, source.value(), target.value()]).contains(i)
                            ==> index.value() <= i
                },
                None => matching(self@, seq![0nat, source.value(), target.value()])
                    =~= Set::<nat>::empty(),
            },
    {
        let ghost q = seq![0nat, source.value(), target.value()];
        let end = self.limit();
        let s = source.as_usize();
        let t = target.as_usize();
        let mut i: usize = 1;
        proof {
            self.lemma_wf();
        }
        while i < end
            invariant
                self.wf(),
                end == self.bound(),
                1 <= i <= end,
                s == source.value(),
                t == target.value(),
                q == seq![0nat, source.value(), target.value()],
                forall|j: nat| j < i ==> !matching(self@, q).contains(j),
            decreases end - i,
        {
            let index = L::from_usize(i);
            match self.get(index) {
                Some(link) => {
                    if (s == 0 || link.source.as_usize() == s) && (t == 0 || link.target.as_usize()
                        == t) {
                        return Some(index);
                    }
                },
                None => {},
            }
            i = i + 1;
        }
        None
    }

    /// The index of the link from `source` to `target`: that of the one of
    /// lowest index where there is one, that of a new one else.
    fn get_or_create(&mut self, source: L, target: L) -> (r: Result<L, Error<L>>)
        requires
            old(self).wf(),
        ensures
            final(self).wf(),
            match r {
                Ok(index) => if exists|i: nat|
                    matching(old(self)@, seq![0nat, source.value(), target.value()]).contains(i) {
                    &&& final(self)@ == old(self)@
                    &&& matching(old(self)@, seq![0nat, source.value(), target.value()]).contains(
                        index.value(),
                    )
                    &&& forall|i: nat|
                        matching(old(self)@, seq![0nat, source.value(), target.value()]).contains(
                            i,
                        ) ==> index.value() <= i
                } else {
                    &&& index.value() == vacant(old(self).freed(), old(self).bound())
                    &&& final(self)@ == old(self)@.insert(
                        index.value(),
                        (source.value(), target.value()),
                    )
                },
                Err(e) => {
                    &&& e == Error::<L>::AllocationFailed
                    &&& final(self)@ == old(self)@
                    &&& old(self).freed().len() == 0 && old(self).full()
                    &&& !exists|i: nat|
                        matching(old(self)@, seq![0nat, source.value(), target.value()]).contains(i)
                },
            },
    {
        match self.search(source, target) {
            Some(existing) => Ok(existing),
            None => {
                proof {
                    self.lemma_wf();
                }
                self.create_link(source, target)
            },
        }
    }

    /// The number of links other than `index` that have `index` as their
    /// source, and of those that have it as their target, together. Fails
    /// with `NotExists` where there is no link `index`, and with `Overflow`
    /// where the sum is more than a `usize` holds.
    fn count_usages(&self, index: L) -> (r: Result<L, Error<L>>)
        requires
            self.wf(),
        ensures
            match r {
                Ok(n) => self@.dom().contains(index.value()) && n.value() == sourced_at(
                    self@,
                    index.value(),
                ).len() + targeted_at(self@, index.value()).len(),
                Err(e) => if self@.dom().contains(index.value()) {
                    e == Error::<L>::Overflow && sourced_at(self@, index.value()).len()
                        + targeted_at(self@, index.value()).len() > usize::MAX
                } else {
                    e == Error::<L>::NotExists(index)
                },
            },
    {
        let link = match self.get(index) {
            Some(link) => link,
            None => {
                return Err(Error::NotExists(index));
            },
        };
        let any = L::any();
        let as_source = [any, index, any];
        let as_target = [any, any, index];
        proof {
            self.lemma_wf();
            lemma_usages(self@, index.value());
            assert(values(as_source@) =~= seq![0nat, index.value(), 0nat]);
            assert(values(as_target@) =~= seq![0nat, 0nat, index.value()]);
        }
        let mut usage_source = self.count(as_source.as_slice());
        if index.as_usize() == link.source.as_usize() {
            usage_source = match usage_source.checked_sub_one() {
                Some(less) => less,
                None => usage_source,
            };
        }
        let mut usage_target = self.count(as_target.as_slice());
        if index.as_usize() == link.target.as_usize() {
            usage_target = match usage_target.checked_sub_one() {
                Some(less) => less,
                None => usage_target,
            };
        }
        match usage_source.as_usize().checked_add(usage_target.as_usize()) {
            Some(sum) => Ok(L::from_usize(sum)),
            None => Err(Error::Overflow),
        }
    }

    /// Whether another link has `index` as its source or its target. `false`
    /// where there is no link `index`.
    fn has_usages(&self, index: L) -> (r: bool)
        requires
            self.wf(),
        ensures
            r == (self@.dom().contains(index.value()) && sourced_at(self@, index.value()).len()
                + targeted_at(self@, index.value()).len() > 0),
    {
        match self.count_usages(index) {
            Ok(count) => !count.is_zero(),
            Err(e) => match e {
                Error::Overflow => true,
                _ => false,
            },
        }
    }

    /// Points every use of `prev` by another link to `next`, and returns
    /// `next`. Nothing is done where `prev` and `next` are the same. Fails with
    /// `NotExists`, and changes nothing, where they differ and there is no
    /// link `prev`.
    fn rebase(&mut self, prev: L, next: L) -> (r: Result<L, Error<L>>)
        requires
            old(self).wf(),
        ensures
            final(self).wf(),
            final(self).freed() == old(self).freed(),
            final(self).bound() == old(self).bound(),
            r is Ok <==> prev.value() == next.value() || old(self)@.dom().contains(prev.value()),
            match r {
                Ok(n) => n == next && final(self)@ == (if prev.value() == next.value() {
                    old(self)@
                } else {
                    rebased_all(old(self)@, prev.value(), next.value())
                }),
                Err(e) => e == Error::<L>::NotExists(prev) && final(self)@ == old(self)@,
            },
    {
        if prev.as_usize() == next.as_usize() {
            return Ok(next);
        }
        if self.get(prev).is_none() {
            return Err(Error::NotExists(prev));
        }
        let ghost before = self@;
        let ghost o = prev.value();
        let ghost n = next.value();
        let end = self.limit();
        let mut i: usize = 1;
        proof {
            self.lemma_wf();
        }
        while i < end
            invariant
                self.wf(),
                end == self.bound(),
                self.freed() == old(self).freed(),
                self.bound() == old(self).bound(),
                1 <= i <= end,
                o == prev.value(),
                n == next.value(),
                o != n,
                self@.dom() == before.dom(),
                forall|j: nat| before.dom().contains(j) ==> j < end,
                forall|j: nat|
                    before.dom().contains(j) ==> #[trigger] self@[j] == (if j < i && j != o {
                        rebased(before[j], o, n)
                    } else {
                        before[j]
                    }),
            decreases end - i,
        {
            let index = L::from_usize(i);
            if i != prev.as_usize() {
                match self.get(index) {
                    Some(link) => {
                        let ghost now = self@;
                        if link.target.as_usize() == prev.as_usize() {
                            let _ = self.update_link(index, link.source, next);
                        } else if link.source.as_usize() == prev.as_usize() {
                            let _ = self.update_link(index, next, link.target);
                        } else {
                            proof {
                                assert(rebased(before[i as nat], o, n) == before[i as nat]);
                            }
                        }
                        proof {
                            assert(self@.dom() =~= before.dom());
                        }
                    },
                    None => {},
                }
            }
            i = i + 1;
        }
        proof {
            assert(self@ =~= rebased_all(before, o, n));
        }
        Ok(next)
    }

    /// Points every use of `prev` by another link to `next`, then deletes the
    /// link `prev`, and returns its index. Nothing is done, and `next` is
    /// returned, where `prev` and `next` are the same. Fails with `NotExists`,
    /// and changes nothing, where they differ and there is no link `prev`.
    fn rebase_and_delete(&mut self, prev: L, next: L) -> (r: Result<L, Error<L>>)
        requires
            old(self).wf(),
        ensures
            final(self).wf(),
            final(self).bound() == old(self).bound(),
            r is Ok <==> prev.value() == next.value() || old(self)@.dom().contains(prev.value()),
            match r {
                Ok(n) => if prev.value() == next.value() {
                    n == next && final(self)@ == old(self)@
                } else {
                    n.value() == prev.value() && final(self)@ == rebased_all(
                        old(self)@,
                        prev.value(),
                        next.value(),
                    ).remove(prev.value())
                },
                Err(e) => e == Error::<L>::NotExists(prev) && final(self)@ == old(self)@,
            },
    {
        if prev.as_usize() == next.as_usize() {
            Ok(next)
        } else {
            match self.rebase(prev, next) {
                Ok(_) => self.delete_link(prev),
                Err(e) => Err(e),
            }
        }
    }

    /// All links, in the order of their indices.
    fn collect_all(&self) -> (r: Vec<Link<L>>)
        requires
            self.wf(),
        ensures
            lists(r@, self@, self.bound()),
            r@.len() == self@.dom().len(),
    {
        let end = self.limit();
        let mut result: Vec<Link<L>> = Vec::new();
        let mut i: usize = 1;
        proof {
            self.lemma_wf();
            assert(under(self@, 1) =~= Set::<nat>::empty());
        }
        while i < end
            invariant
                self.wf(),
                end == self.bound(),
                1 <= i <= end,
                lists(result@, self@, i as nat),
                forall|j: nat| #[trigger] self@.dom().contains(j) ==> 1 <= j < end,
                under(self@, i as nat).finite(),
                result@.len() == under(self@, i as nat).len(),
            decreases end - i,
        {
            let ghost seen = result@;
            match self.get(L::from_usize(i)) {
                Some(link) => {
                    result.push(link);
                    proof {
                        assert(under(self@, (i + 1) as nat) =~= under(self@, i as nat).insert(
                            i as nat,
                        ));
                        assert forall|j: nat|
                            j < i + 1 && #[trigger] self@.dom().contains(j) implies exists|k: int|
                            0 <= k < result@.len() && (#[trigger] result@[k]).index.value() == j by {
                            if j < i {
                                let k = choose|k: int|
                                    0 <= k < seen.len() && (#[trigger] seen[k]).index.value() == j;
                                assert(result@[k].index.value() == j);
                            } else {
                                assert(result@[seen.len() as int].index.value() == j);
                            }
                        }
                    }
                },
                None => {
                    proof {
                        assert(under(self@, (i + 1) as nat) =~= under(self@, i as nat));
                    }
                },
            }
            i = i + 1;
        }
        proof {
            assert(under(self@, end as nat) =~= self@.dom());
        }
        result
    }

    /// All links, in the order of their indices, one at a time.
    fn iter(&self) -> (r: std::vec::IntoIter<Link<L>>)
        requires
            self.wf(),
        ensures
            lists(vstd::std_specs::vec::into_iter_elts(r), self@, self.bound()),
            vstd::std_specs::vec::into_iter_elts(r).len() == self@.dom().len(),
    {
        let all = self.collect_all();
        proof {
            vstd::std_specs::vec::axiom_spec_into_iter(all);
        }
        all.into_iter()
    }
}

impl<L: Index, S: Links<L>> Doublets<L> for S {

}

/// The indices of the links under `end`.
pub open spec fn under(links: Map<nat, (nat, nat)>, end: nat) -> Set<nat> {
    Set::new(|i: nat| i < end && links.dom().contains(i))
}

/// A link that is its own source, or its own target, is the one answer to
/// the query for that source, or target, that does not count as a use.
pub proof fn lemma_usages(links: Map<nat, (nat, nat)>, index: nat)
    requires
        links.dom().finite(),
        links.dom().contains(index),
        index != 0,
    ensures
        sourced_at(links, index).finite(),
        targeted_at(links, index).finite(),
        matching(links, seq![0nat, index, 0nat]).finite(),
        matching(links, seq![0nat, 0nat, index]).finite(),
        matching(links, seq![0nat, index, 0nat]).len() == sourced_at(links, index).len() + (if links[index].0
            == index {
            1nat
        } else {
            0nat
        }),
        matching(links, seq![0nat, 0nat, index]).len() == targeted_at(links, index).len() + (if links[index].1
            == index {
            1nat
        } else {
            0nat
        }),
{
    let by_source = matching(links, seq![0nat, index, 0nat]);
    let by_target = matching(links, seq![0nat, 0nat, index]);
    vstd::set_lib::lemma_len_subset(by_source, links.dom());
    vstd::set_lib::lemma_len_subset(by_target, links.dom());
    vstd::set_lib::lemma_len_subset(sourced_at(links, index), links.dom());
    vstd::set_lib::lemma_len_subset(targeted_at(links, index), links.dom());
    if links[index].0 == index {
        assert(by_source =~= sourced_at(links, index).insert(index));
    } else {
        assert(by_source =~= sourced_at(links, index));
    }
    if links[index].1 == index {
        assert(by_target =~= targeted_at(links, index).insert(index));
    } else {
        assert(by_target =~= targeted_at(links, index));
    }
}

} // verus!
