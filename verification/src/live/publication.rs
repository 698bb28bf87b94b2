//! What is published: targets of all legs, or none at all.
//!
//! After a lost feed every leg has to be recovered from closed bars before a
//! target of any leg is shown again.

use crate::data::HistoryBar;
use crate::live::model;
use crate::live::model::{CtpdTick, Leg, Portfolio, TargetPosition};
use crate::ordered;
use crate::ordered::TextSet;
use vstd::prelude::*;

verus! {

/// A portfolio, and the legs that were recovered since the feed was lost.
#[derive(Debug)]
pub struct Publication {
    portfolio: Portfolio,
    recovered: TextSet,
}

impl Publication {
    pub closed spec fn portfolio(self) -> Portfolio {
        self.portfolio
    }

    /// Whether a leg was recovered since the feed was lost.
    pub closed spec fn has_recovered(self, id: Seq<char>) -> bool {
        self.recovered.has(id)
    }

    pub closed spec fn well_formed(self) -> bool {
        self.portfolio.well_formed() && self.recovered.well_formed()
    }

    /// Whether every leg was recovered.
    pub open spec fn synchronized(self) -> bool {
        forall|id: Seq<char>| #[trigger]
            self.portfolio().models.has(id) ==> self.has_recovered(id)
    }

    /// The targets that are published.
    pub open spec fn published(self) -> Seq<TargetPosition> {
        if self.synchronized() {
            self.portfolio().targets.values()
        } else {
            Seq::empty()
        }
    }

    /// A portfolio of which no leg was recovered.
    pub fn new(portfolio: Portfolio) -> (r: Self)
        requires
            portfolio.well_formed(),
        ensures
            r.well_formed(),
            r.portfolio() == portfolio,
            forall|id: Seq<char>| !#[trigger] r.has_recovered(id),
    {
        Publication { portfolio, recovered: TextSet::new() }
    }

    /// Whether every leg was recovered.
    pub fn is_synchronized(&self) -> (r: bool)
        requires
            self.well_formed(),
        ensures
            r == self.synchronized(),
    {
        let mut i: usize = 0;
        proof {
            self.portfolio.models.lemma_increasing();
        }
        while i < self.portfolio.models.len()
            invariant
                i <= self.portfolio.models.keys().len(),
                self.well_formed(),
                forall|j: int|
                    0 <= j < i ==> self.recovered.has(
                        (#[trigger] self.portfolio.models.keys()[j])@,
                    ),
            decreases self.portfolio.models.keys().len() - i,
        {
            let id: &String = self.portfolio.models.key(i);
            if !self.recovered.contains(id.as_str()) {
                assert(self.portfolio.models.keys()[i as int]@ == id@);
                assert(self.portfolio().models.has(id@));
                return false;
            }
            i = i + 1;
        }
        assert forall|id: Seq<char>| #[trigger] self.portfolio().models.has(
            id,
        ) implies self.has_recovered(id) by {
            let j = choose|j: int|
                0 <= j < self.portfolio.models.keys().len() && #[trigger]
                    self.portfolio.models.keys()[j]@ == id;
            assert(self.recovered.has(self.portfolio.models.keys()[j]@));
        }
        true
    }

    /// The feed is lost: no target is left, and every leg has to be recovered.
    pub fn lost(&mut self)
        requires
            old(self).well_formed(),
        ensures
            final(self).well_formed(),
            final(self).portfolio().targets.keys() == Seq::<String>::empty(),
            forall|id: Seq<char>| !#[trigger] final(self).has_recovered(id),
            forall|id: Seq<char>| #[trigger]
                final(self).portfolio().models.has(id) == old(self).portfolio().models.has(id),
            forall|id: Seq<char>| #[trigger]
                old(self).portfolio().models.has(id) ==> {
                    let model = final(self).portfolio().models.at(id);
                    model.leg() == Leg::clear() && model.setup() == old(
                        self,
                    ).portfolio().models.at(id).setup()
                },
    {
        self.portfolio.clear_all();
        self.recovered = TextSet::new();
    }

    /// Recovers a leg from its history: one that was not recovered yet, or whose
    /// history has advanced. What cannot be recovered withholds all targets.
    pub fn recover(&mut self, id: &str, history: &[HistoryBar], advanced: bool) -> (r: Result<
        (),
        String,
    >)
        requires
            old(self).well_formed(),
        ensures
            final(self).well_formed(),
            if old(self).portfolio().models.has(id@) && old(self).has_recovered(id@) && !advanced {
                r is Ok && *final(self) == *old(self)
            } else {
                &&& model::is_seeded(
                    old(self).portfolio(),
                    final(self).portfolio(),
                    id@,
                    history@,
                    r,
                )
                &&& forall|other: Seq<char>| #[trigger]
                    final(self).has_recovered(other) <==> r is Ok && (other == id@ || old(
                        self,
                    ).has_recovered(other))
            },
    {
        if self.portfolio.models.contains(id) && self.recovered.contains(id) && !advanced {
            return Ok(());
        }
        match self.portfolio.seed(id, history) {
            Ok(()) => {
                let _new: bool = self.recovered.insert(id.to_owned());
                proof {
                    assert forall|other: Seq<char>| #[trigger] self.has_recovered(other) <==> other
                        == id@ || old(self).has_recovered(other) by {
                        assert(self.recovered.has(other) <==> other == id@ || old(
                            self,
                        ).recovered.has(other));
                    }
                }
                Ok(())
            },
            Err(error) => {
                self.recovered = TextSet::new();
                Err(error)
            },
        }
    }

    /// Takes a tick in.
    pub fn ingest(&mut self, tick: CtpdTick) -> (r: Result<(), String>)
        requires
            old(self).well_formed(),
        ensures
            final(self).well_formed(),
            exists|now_ms: i64| #[trigger]
                model::is_ingested(
                    old(self).portfolio(),
                    final(self).portfolio(),
                    tick,
                    now_ms,
                    r,
                ),
            forall|id: Seq<char>| #[trigger]
                final(self).has_recovered(id) == old(self).has_recovered(id),
    {
        let ghost before = self.portfolio;
        let r: Result<(), String> = self.portfolio.ingest(tick);
        proof {
            let now_ms = choose|now_ms: i64| #[trigger]
                model::is_ingested(before, self.portfolio, tick, now_ms, r);
            assert(model::is_ingested(
                old(self).portfolio(),
                self.portfolio(),
                tick,
                now_ms,
                r,
            ));
        }
        r
    }

    /// Takes a tick in at a given time.
    pub fn ingest_at(&mut self, tick: CtpdTick, updated_at_ms: i64) -> (r: Result<(), String>)
        requires
            old(self).well_formed(),
        ensures
            final(self).well_formed(),
            model::is_ingested(
                old(self).portfolio(),
                final(self).portfolio(),
                tick,
                updated_at_ms,
                r,
            ),
            forall|id: Seq<char>| #[trigger]
                final(self).has_recovered(id) == old(self).has_recovered(id),
    {
        self.portfolio.ingest_at(tick, updated_at_ms)
    }

    /// The targets that are published: those of all legs, or none.
    pub fn targets(&self) -> (r: Vec<TargetPosition>)
        requires
            self.well_formed(),
        ensures
            r@ == self.published(),
    {
        if self.is_synchronized() {
            self.portfolio.targets()
        } else {
            Vec::new()
        }
    }

    /// The legs, in the order of their identifiers.
    pub fn leg_ids(&self) -> (r: Vec<String>)
        requires
            self.well_formed(),
        ensures
            ordered::increasing(r@),
            forall|id: Seq<char>| #[trigger]
                ordered::occurs(r@, id) <==> self.portfolio().models.has(id),
    {
        let mut ids: Vec<String> = Vec::new();
        proof {
            self.portfolio.models.lemma_increasing();
        }
        while ids.len() < self.portfolio.models.len()
            invariant
                self.portfolio.models.well_formed(),
                ids@.len() <= self.portfolio.models.keys().len(),
                ids@ == self.portfolio.models.keys().take(ids@.len() as int),
            decreases self.portfolio.models.keys().len() - ids@.len(),
        {
            let ghost count = ids@.len() as int;
            ids.push(self.portfolio.models.key(ids.len()).clone());
            assert(ids@ =~= self.portfolio.models.keys().take(count + 1));
        }
        assert(ids@ =~= self.portfolio.models.keys());
        ids
    }

    /// The number of legs.
    pub fn legs(&self) -> (r: usize)
        requires
            self.well_formed(),
        ensures
            r == self.portfolio().models.keys().len(),
    {
        self.portfolio.models.len()
    }
}

/// Nothing is published while a leg waits to be recovered.
pub proof fn law_targets_wait_for_every_leg(publication: Publication, id: Seq<char>)
    requires
        publication.portfolio().models.has(id),
        !publication.has_recovered(id),
    ensures
        publication.published() == Seq::<TargetPosition>::empty(),
{
}

/// No tick recovers a leg: while one waits to be recovered, ticks of any leg
/// publish nothing.
pub proof fn law_ticks_publish_nothing_before_recovery(
    before: Publication,
    after: Publication,
    tick: CtpdTick,
    now_ms: i64,
    r: Result<(), String>,
    id: Seq<char>,
)
    requires
        before.portfolio().models.has(id),
        !before.has_recovered(id),
        model::is_ingested(before.portfolio(), after.portfolio(), tick, now_ms, r),
        after.has_recovered(id) == before.has_recovered(id),
    ensures
        after.published() == Seq::<TargetPosition>::empty(),
{
    if id != tick.instrument_id@ {
        assert(model::alike(after.portfolio().models, before.portfolio().models, id));
    }
    assert(after.portfolio().models.has(id));
}

/// Once every leg is recovered all targets are published.
pub proof fn law_recovered_targets_are_published(publication: Publication, id: Seq<char>)
    requires
        publication.well_formed(),
        forall|leg: Seq<char>| #[trigger]
            publication.portfolio().models.has(leg) ==> publication.has_recovered(leg),
        publication.portfolio().targets.has(id),
    ensures
        publication.published().contains(publication.portfolio().targets.at(id)),
{
    let targets = publication.portfolio().targets;
    targets.lemma_increasing();
    let i = choose|i: int| 0 <= i < targets.keys().len() && #[trigger] targets.keys()[i]@ == id;
    crate::ordered::lemma_place(targets.keys(), i);
    assert(publication.published()[i] == targets.at(id));
}

} // verus!
