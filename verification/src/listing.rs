//! What queries read of a list of quads.

use crate::attachment::{attached, nothing_waits, refilled, waiting_for};
use crate::bag::{
    concat, count, filter_map, is, lemma_count_unique, lemma_filter_map_same_bag,
    lemma_filter_map_weight, lemma_weight_add, lemma_weight_same, same_bag, through,
};
use crate::delta::Delta;
use crate::numeric_encoder::EncodedQuad;
use crate::replay::played;
use crate::source::{leads_to, presence, InternalQuad, LiveQuadDeltaSource};
use crate::storage::{waiting_changes, Storage};
use crate::streams::{led_to, source_goal, to_internal};
use crate::table::{selects, QuadPattern};
use vstd::prelude::*;

verus! {

/// Whether a list holds the quads of a set, each once.
pub open spec fn lists_quads(listing: Seq<EncodedQuad>, quads: Set<EncodedQuad>) -> bool {
    &&& listing.no_duplicates()
    &&& forall|quad: EncodedQuad| #[trigger] listing.contains(quad) <==> quads.contains(quad)
}

/// A quad, if a pattern selects it.
pub open spec fn if_selected(pattern: QuadPattern) -> spec_fn(EncodedQuad) -> Option<EncodedQuad> {
    |quad: EncodedQuad|
        if selects(pattern, quad) {
            Some(quad)
        } else {
            None
        }
}

/// What a pattern selects of a list of quads, as queries see it.
pub open spec fn picked(listing: Seq<EncodedQuad>, pattern: QuadPattern) -> Seq<InternalQuad> {
    filter_map(filter_map(listing, if_selected(pattern)), to_internal())
}

/// The patterns of sources.
pub open spec fn patterns_of(sources: Seq<LiveQuadDeltaSource>) -> Seq<QuadPattern> {
    sources.map_values(|source: LiveQuadDeltaSource| source.pattern())
}

/// What patterns select of a list of quads, one after the other.
pub open spec fn all_picked(listing: Seq<EncodedQuad>, patterns: Seq<QuadPattern>) -> Seq<
    InternalQuad,
> {
    concat(patterns, |pattern: QuadPattern| picked(listing, pattern))
}

/// Whether sources lead to what their patterns select of a list of quads.
pub open spec fn lead_to(sources: Seq<LiveQuadDeltaSource>, listing: Seq<EncodedQuad>) -> bool {
    forall|i: int|
        0 <= i < sources.len() ==> same_bag(
            source_goal()(#[trigger] sources[i]),
            picked(listing, sources[i].pattern()),
        )
}

/// Changes that lead to the quads of a pattern lead to what the pattern selects of a list.
pub proof fn lemma_leads_to_picked(
    source: LiveQuadDeltaSource,
    quads: Set<EncodedQuad>,
    listing: Seq<EncodedQuad>,
)
    requires
        lists_quads(listing, quads),
        leads_to(source.held(), source.events(), quads, source.pattern()),
    ensures
        same_bag(source_goal()(source), picked(listing, source.pattern())),
{
    let pattern = source.pattern();
    let goal = played(source.held(), source.events());
    let chosen = filter_map(listing, if_selected(pattern));
    assert forall|quad: EncodedQuad| #[trigger] count(goal, quad) == count(chosen, quad) by {
        assert(count(goal, quad) == presence(quads, pattern, quad));
        lemma_filter_map_weight(listing, if_selected(pattern), is(quad));
        lemma_count_unique(listing, quad);
        assert(listing.contains(quad) <==> quads.contains(quad));
        let g = through(if_selected(pattern), is(quad));
        if selects(pattern, quad) {
            lemma_weight_same(listing, g, is(quad));
        } else {
            lemma_weight_same(listing, g, |other: EncodedQuad| 0int);
            crate::bag::lemma_weight_zero(listing);
        }
    }
    lemma_filter_map_same_bag(goal, chosen, to_internal());
}

/// What sources lead to together is what their patterns select together.
pub proof fn lemma_led_to_picked(sources: Seq<LiveQuadDeltaSource>, listing: Seq<EncodedQuad>)
    requires
        lead_to(sources, listing),
    ensures
        same_bag(led_to(sources), all_picked(listing, patterns_of(sources))),
    decreases sources.len(),
{
    let patterns = patterns_of(sources);
    let g = |pattern: QuadPattern| picked(listing, pattern);
    if sources.len() > 0 {
        let front = sources.drop_last();
        let last = sources.len() - 1;
        assert forall|i: int| 0 <= i < front.len() implies same_bag(
            source_goal()(#[trigger] front[i]),
            picked(listing, front[i].pattern()),
        ) by {
            assert(front[i] == sources[i]);
        }
        lemma_led_to_picked(front, listing);
        assert(patterns.drop_last() =~= patterns_of(front));
        assert forall|quad: InternalQuad| #[trigger]
            count(led_to(sources), quad) == count(all_picked(listing, patterns), quad) by {
            let a = source_goal()(sources[last]);
            let b = picked(listing, sources[last].pattern());
            assert(same_bag(a, b));
            assert(count(a, quad) == count(b, quad));
            lemma_weight_add(led_to(front), a, is(quad));
            lemma_weight_add(all_picked(listing, patterns_of(front)), b, is(quad));
            assert(count(led_to(front), quad) == count(
                all_picked(listing, patterns_of(front)),
                quad,
            ));
        }
    }
}

/// Sources that follow a store, while nothing waits for them there, lead to what their
/// patterns select of the committed quads.
pub proof fn lemma_up_to_date_sources_lead_to(
    sources: Seq<LiveQuadDeltaSource>,
    storage: Storage,
    listing: Seq<EncodedQuad>,
)
    requires
        lists_quads(listing, storage.table().quads()),
        attached(sources, storage),
        nothing_waits(sources, storage),
        forall|i: int|
            0 <= i < sources.len() ==> (#[trigger] sources[i]).subscription() is Some,
    ensures
        lead_to(sources, listing),
{
    assert forall|i: int| 0 <= i < sources.len() implies same_bag(
        source_goal()(#[trigger] sources[i]),
        picked(listing, sources[i].pattern()),
    ) by {
        let source = sources[i];
        let id = source.subscription()->0;
        assert(source.follows(storage));
        let waiting = storage.subscribers()[id].changes;
        assert(waiting_changes(storage.subscribers(), id).len() == 0);
        assert(waiting =~= Seq::empty());
        assert(source.events() + waiting =~= source.events());
        lemma_leads_to_picked(source, storage.table().quads(), listing);
    }
}

/// Sources without a subscription stay what they are.
pub proof fn lemma_refilled_quiet(
    before: Seq<LiveQuadDeltaSource>,
    after: Seq<LiveQuadDeltaSource>,
    old_storage: Storage,
    new_storage: Storage,
)
    requires
        refilled(before, after, old_storage, new_storage),
        forall|i: int|
            0 <= i < before.len() ==> (#[trigger] before[i]).subscription() is None,
    ensures
        led_to(after) == led_to(before),
{
    assert forall|i: int| 0 <= i < before.len() implies (#[trigger] after[i]).held()
        == before[i].held() && after[i].events() == before[i].events() by {
        assert(crate::attachment::separate(before));
        assert(crate::attachment::extended(
            before[i],
            after[i],
            waiting_for(before[i], old_storage),
        ));
        assert(before[i].subscription() is None);
        assert(before[i].events() + Seq::<Delta<EncodedQuad>>::empty() =~= before[i].events());
    }
    lemma_led_to_same(before, after);
}

/// Sources lead to the same where they hold and have to hand out the same.
pub proof fn lemma_led_to_same(
    before: Seq<LiveQuadDeltaSource>,
    after: Seq<LiveQuadDeltaSource>,
)
    requires
        after.len() == before.len(),
        forall|i: int|
            0 <= i < before.len() ==> (#[trigger] after[i]).held() == before[i].held()
                && after[i].events() == before[i].events(),
    ensures
        led_to(after) == led_to(before),
    decreases before.len(),
{
    if before.len() > 0 {
        let last = before.len() - 1;
        assert(after[last].held() == before[last].held());
        assert forall|i: int| 0 <= i < before.drop_last().len() implies (
        #[trigger] after.drop_last()[i]).held() == before.drop_last()[i].held()
            && after.drop_last()[i].events() == before.drop_last()[i].events() by {
            assert(after[i].held() == before[i].held());
        }
        lemma_led_to_same(before.drop_last(), after.drop_last());
    }
}

} // verus!
