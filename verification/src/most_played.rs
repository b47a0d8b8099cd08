//! Folding the listing's records into per-set summaries, ordered by plays.
use crate::model::OutputBeatmap;
use crate::model::OutputBeatmapSet;
use crate::model::OutputBeatmapSetView;
use crate::model::OutputBeatmapView;
use crate::model::ReplayCount;
use crate::model::ReplayCountView;
use crate::cli::BeatmapMode;
use crate::utils::all_or_modes_to_api_values;
use crate::utils::api_values_of;
use crate::utils::PrebuiltFilter;
use std::collections::HashMap;
use vstd::prelude::*;

verus! {

/// Whether `sets` holds the summary of the set `set_id`.
pub open spec fn has_set(sets: Seq<OutputBeatmapSetView>, set_id: u32) -> bool {
    exists|i: int| 0 <= i < sets.len() && (#[trigger] sets[i]).set_id == set_id
}

/// Where in `sets` the summary of the set `set_id` stands, if it is there.
pub open spec fn position_of(sets: Seq<OutputBeatmapSetView>, set_id: u32) -> int {
    choose|i: int| 0 <= i < sets.len() && (#[trigger] sets[i]).set_id == set_id
}

impl OutputBeatmapSetView {
    /// Whether the breakdown already has a difficulty of this star rating.
    pub open spec fn has_difficulty(self, difficulty_rating: u32) -> bool {
        exists|i: int|
            0 <= i < self.beatmap_breakdown.len() && (
            #[trigger] self.beatmap_breakdown[i]).difficulty_rating == difficulty_rating
    }

    /// The summary once `record`, a record of this set, has been taken in: a
    /// difficulty that the breakdown already has changes nothing; a new one
    /// is appended and its plays are added.
    pub open spec fn with_difficulty(self, record: ReplayCountView) -> Self {
        if self.has_difficulty(record.beatmap.difficulty_rating) {
            self
        } else {
            OutputBeatmapSetView {
                play_count: self.play_count + record.count as nat,
                beatmap_breakdown: self.beatmap_breakdown.push(record.breakdown_entry()),
                ..self
            }
        }
    }
}

/// The summaries once `record` has been taken in: a record of a set not yet
/// met opens a summary behind the others; one of a known set goes into that
/// set's summary.
pub open spec fn absorb(
    sets: Seq<OutputBeatmapSetView>,
    record: ReplayCountView,
) -> Seq<OutputBeatmapSetView> {
    if has_set(sets, record.beatmapset.id) {
        let at = position_of(sets, record.beatmapset.id);
        sets.update(at, sets[at].with_difficulty(record))
    } else {
        sets.push(record.fresh_set())
    }
}

/// The summaries of `records`, taken in one by one in their order. The sets
/// stand in the order in which they were first met.
pub open spec fn aggregate(records: Seq<ReplayCountView>) -> Seq<OutputBeatmapSetView>
    decreases records.len(),
{
    if records.len() == 0 {
        Seq::empty()
    } else {
        absorb(aggregate(records.drop_last()), records.last())
    }
}

/// Those of `items` whose flag in `keep` is set, in their order.
pub open spec fn kept<A>(items: Seq<A>, keep: Seq<bool>) -> Seq<A>
    recommends
        items.len() == keep.len(),
    decreases items.len(),
{
    if items.len() == 0 {
        items
    } else {
        let earlier = kept(items.drop_last(), keep.drop_last());
        if keep.last() {
            earlier.push(items.last())
        } else {
            earlier
        }
    }
}

/// `keep` holds, for each of `data`, an answer that `filter` may give for it.
pub open spec fn decided_by<F: Fn(&ReplayCount) -> bool>(
    filter: F,
    data: Seq<ReplayCount>,
    keep: Seq<bool>,
) -> bool {
    &&& keep.len() == data.len()
    &&& forall|i: int| 0 <= i < data.len() ==> call_ensures(filter, (&data[i],), #[trigger] keep[i])
}

/// No two summaries are of the same set.
pub open spec fn distinct_sets(sets: Seq<OutputBeatmapSetView>) -> bool {
    forall|i: int, j: int|
        0 <= i < j < sets.len() ==> (#[trigger] sets[i]).set_id != (#[trigger] sets[j]).set_id
}

/// No two entries have the same star rating.
pub open spec fn distinct_difficulties(breakdown: Seq<OutputBeatmapView>) -> bool {
    forall|i: int, j: int|
        0 <= i < j < breakdown.len() ==> (#[trigger] breakdown[i]).difficulty_rating != (
        #[trigger] breakdown[j]).difficulty_rating
}

/// The plays of all entries together.
pub open spec fn total_plays(breakdown: Seq<OutputBeatmapView>) -> nat
    decreases breakdown.len(),
{
    if breakdown.len() == 0 {
        0
    } else {
        total_plays(breakdown.drop_last()) + breakdown.last().play_count as nat
    }
}

impl OutputBeatmapSetView {
    /// The summary counts each of its difficulties once, and its plays are
    /// those of its entries together.
    pub open spec fn consistent(self) -> bool {
        &&& distinct_difficulties(self.beatmap_breakdown)
        &&& self.play_count == total_plays(self.beatmap_breakdown)
        &&& self.beatmap_breakdown.len() > 0
    }
}

/// Every set has one summary, and every summary is consistent.
pub open spec fn well_formed(sets: Seq<OutputBeatmapSetView>) -> bool {
    &&& distinct_sets(sets)
    &&& forall|i: int| 0 <= i < sets.len() ==> (#[trigger] sets[i]).consistent()
}

/// An entry's plays never exceed this.
pub open spec fn entry_limit() -> nat {
    0xffff_ffff
}

/// Numbers of 32 bits of which no two are the same are at most as many as
/// there are such numbers.
pub proof fn lemma_distinct_numbers_len(numbers: Seq<u32>)
    requires
        numbers.no_duplicates(),
    ensures
        numbers.len() <= 0x1_0000_0000,
{
    let values = numbers.map_values(|number: u32| number as int);
    assert(values.no_duplicates());
    values.unique_seq_to_set();
    vstd::set_lib::lemma_int_range(0, 0x1_0000_0000);
    assert(values.to_set().subset_of(vstd::set_lib::set_int_range(0, 0x1_0000_0000))) by {
        assert forall|value: int| values.to_set().contains(value) implies 0 <= value
            < 0x1_0000_0000 by {
            let i = choose|i: int| 0 <= i < values.len() && values[i] == value;
            assert(values[i] == numbers[i] as int);
        }
    }
    vstd::set_lib::lemma_len_subset(
        values.to_set(),
        vstd::set_lib::set_int_range(0, 0x1_0000_0000),
    );
}

/// Entries of distinct star ratings are at most as many as there are star
/// ratings, which bounds their plays together.
pub proof fn lemma_total_plays_bounded(breakdown: Seq<OutputBeatmapView>)
    requires
        distinct_difficulties(breakdown),
    ensures
        breakdown.len() <= 0x1_0000_0000,
        total_plays(breakdown) <= breakdown.len() * entry_limit(),
        total_plays(breakdown) <= 0xffff_ffff_0000_0000,
{
    lemma_total_plays_by_length(breakdown);
    let ratings = breakdown.map_values(|entry: OutputBeatmapView| entry.difficulty_rating);
    assert(ratings.no_duplicates()) by {
        assert forall|i: int, j: int|
            0 <= i < ratings.len() && 0 <= j < ratings.len() && i != j implies ratings[i]
            != ratings[j] by {
            if i < j {
                assert(breakdown[i].difficulty_rating != breakdown[j].difficulty_rating);
            } else {
                assert(breakdown[j].difficulty_rating != breakdown[i].difficulty_rating);
            }
        }
    }
    lemma_distinct_numbers_len(ratings);
    assert(breakdown.len() * entry_limit() <= 0x1_0000_0000 * entry_limit()) by (nonlinear_arith)
        requires
            breakdown.len() <= 0x1_0000_0000,
    ;
}

/// Summaries of distinct sets are at most as many as there are sets.
pub proof fn lemma_distinct_sets_len(sets: Seq<OutputBeatmapSetView>)
    requires
        distinct_sets(sets),
    ensures
        sets.len() <= 0x1_0000_0000,
{
    let ids = sets.map_values(|set: OutputBeatmapSetView| set.set_id);
    assert(ids.no_duplicates()) by {
        assert forall|i: int, j: int|
            0 <= i < ids.len() && 0 <= j < ids.len() && i != j implies ids[i] != ids[j] by {
            if i < j {
                assert(sets[i].set_id != sets[j].set_id);
            } else {
                assert(sets[j].set_id != sets[i].set_id);
            }
        }
    }
    lemma_distinct_numbers_len(ids);
}

/// The plays of some entries together are at most as many times the most
/// that one entry can have.
pub proof fn lemma_total_plays_by_length(breakdown: Seq<OutputBeatmapView>)
    ensures
        total_plays(breakdown) <= breakdown.len() * entry_limit(),
    decreases breakdown.len(),
{
    if breakdown.len() > 0 {
        lemma_total_plays_by_length(breakdown.drop_last());
        assert((breakdown.len() - 1) * entry_limit() + entry_limit() == breakdown.len()
            * entry_limit()) by (nonlinear_arith);
    }
}

/// Taking in a record keeps the summaries well formed.
pub proof fn lemma_absorb_well_formed(sets: Seq<OutputBeatmapSetView>, record: ReplayCountView)
    requires
        well_formed(sets),
    ensures
        well_formed(absorb(sets, record)),
{
    let after = absorb(sets, record);
    if has_set(sets, record.beatmapset.id) {
        let at = position_of(sets, record.beatmapset.id);
        let before = sets[at];
        let merged = before.with_difficulty(record);
        assert(merged.set_id == before.set_id);
        if !before.has_difficulty(record.beatmap.difficulty_rating) {
            assert(merged.beatmap_breakdown.drop_last() =~= before.beatmap_breakdown);
            assert(distinct_difficulties(merged.beatmap_breakdown)) by {
                assert forall|i: int, j: int|
                    0 <= i < j < merged.beatmap_breakdown.len() implies (
                #[trigger] merged.beatmap_breakdown[i]).difficulty_rating != (
                #[trigger] merged.beatmap_breakdown[j]).difficulty_rating by {
                    if j < before.beatmap_breakdown.len() {
                        assert(before.beatmap_breakdown[i].difficulty_rating
                            != before.beatmap_breakdown[j].difficulty_rating);
                    } else {
                        assert(before.beatmap_breakdown[i].difficulty_rating
                            != record.beatmap.difficulty_rating);
                    }
                }
            }
        }
        assert(merged.consistent());
        assert forall|i: int| 0 <= i < after.len() implies (#[trigger] after[i]).consistent() by {
            if i != at {
                assert(sets[i].consistent());
            }
        }
        assert(distinct_sets(after)) by {
            assert forall|i: int, j: int| 0 <= i < j < after.len() implies (
            #[trigger] after[i]).set_id != (#[trigger] after[j]).set_id by {
                assert(sets[i].set_id != sets[j].set_id);
            }
        }
    } else {
        let fresh = record.fresh_set();
        assert(fresh.beatmap_breakdown.drop_last() =~= Seq::<OutputBeatmapView>::empty());
        assert(total_plays(fresh.beatmap_breakdown) == record.count as nat) by {
            assert(total_plays(fresh.beatmap_breakdown.drop_last()) == 0);
        }
        assert(fresh.consistent());
        assert forall|i: int| 0 <= i < after.len() implies (#[trigger] after[i]).consistent() by {
            if i < sets.len() {
                assert(sets[i].consistent());
            }
        }
        assert(distinct_sets(after)) by {
            assert forall|i: int, j: int| 0 <= i < j < after.len() implies (
            #[trigger] after[i]).set_id != (#[trigger] after[j]).set_id by {
                if j < sets.len() {
                    assert(sets[i].set_id != sets[j].set_id);
                } else {
                    assert(sets[i].set_id != record.beatmapset.id);
                }
            }
        }
    }
}

/// The summaries of any records are well formed: one summary for each set,
/// each difficulty counted once, and each set's plays the plays of its
/// entries together.
pub proof fn lemma_aggregate_well_formed(records: Seq<ReplayCountView>)
    ensures
        well_formed(aggregate(records)),
    decreases records.len(),
{
    if records.len() > 0 {
        lemma_aggregate_well_formed(records.drop_last());
        lemma_absorb_well_formed(aggregate(records.drop_last()), records.last());
    }
}

/// The sets that `records` are of.
pub open spec fn set_ids(records: Seq<ReplayCountView>) -> Set<u32> {
    Set::new(
        |id: u32| exists|k: int| 0 <= k < records.len() && (#[trigger] records[k]).beatmapset.id == id,
    )
}

/// Whether some summary in `sets` is of the set `set_id` and has a
/// difficulty of this star rating.
pub open spec fn counted(sets: Seq<OutputBeatmapSetView>, set_id: u32, difficulty_rating: u32) -> bool {
    exists|i: int|
        0 <= i < sets.len() && (#[trigger] sets[i]).set_id == set_id && sets[i].has_difficulty(
            difficulty_rating,
        )
}

/// Taking in a record forgets no difficulty and counts that of the record.
pub proof fn lemma_absorb_counts(
    sets: Seq<OutputBeatmapSetView>,
    record: ReplayCountView,
    set_id: u32,
    difficulty_rating: u32,
)
    requires
        counted(sets, set_id, difficulty_rating) || (set_id == record.beatmapset.id
            && difficulty_rating == record.beatmap.difficulty_rating),
    ensures
        counted(absorb(sets, record), set_id, difficulty_rating),
{
    let after = absorb(sets, record);
    if has_set(sets, record.beatmapset.id) {
        let at = position_of(sets, record.beatmapset.id);
        let merged = sets[at].with_difficulty(record);
        assert(after[at] == merged);
        if !sets[at].has_difficulty(record.beatmap.difficulty_rating) {
            assert(merged.beatmap_breakdown[sets[at].beatmap_breakdown.len() as int].difficulty_rating
                == record.beatmap.difficulty_rating);
        }
        assert(merged.has_difficulty(record.beatmap.difficulty_rating));
        if counted(sets, set_id, difficulty_rating) {
            let i = choose|i: int|
                0 <= i < sets.len() && (#[trigger] sets[i]).set_id == set_id
                    && sets[i].has_difficulty(difficulty_rating);
            if i == at {
                let k = choose|k: int|
                    0 <= k < sets[at].beatmap_breakdown.len() && (
                    #[trigger] sets[at].beatmap_breakdown[k]).difficulty_rating
                        == difficulty_rating;
                assert(merged.beatmap_breakdown[k].difficulty_rating == difficulty_rating);
                assert(after[at].set_id == set_id && after[at].has_difficulty(difficulty_rating));
            } else {
                assert(after[i].set_id == set_id && after[i].has_difficulty(difficulty_rating));
            }
        } else {
            assert(after[at].set_id == set_id && after[at].has_difficulty(difficulty_rating));
        }
    } else {
        let fresh = record.fresh_set();
        assert(fresh.beatmap_breakdown[0].difficulty_rating == record.beatmap.difficulty_rating);
        if counted(sets, set_id, difficulty_rating) {
            let i = choose|i: int|
                0 <= i < sets.len() && (#[trigger] sets[i]).set_id == set_id
                    && sets[i].has_difficulty(difficulty_rating);
            assert(after[i].set_id == set_id && after[i].has_difficulty(difficulty_rating));
        } else {
            assert(after[sets.len() as int].set_id == set_id && after[sets.len() as int].has_difficulty(
                difficulty_rating,
            ));
        }
    }
}

/// The summaries count the difficulty of every record taken in.
pub proof fn lemma_aggregate_counts_every_record(records: Seq<ReplayCountView>, k: int)
    requires
        0 <= k < records.len(),
    ensures
        counted(
            aggregate(records),
            records[k].beatmapset.id,
            records[k].beatmap.difficulty_rating,
        ),
    decreases records.len(),
{
    let earlier = records.drop_last();
    if k < earlier.len() {
        lemma_aggregate_counts_every_record(earlier, k);
        assert(earlier[k] == records[k]);
    }
    lemma_absorb_counts(
        aggregate(earlier),
        records.last(),
        records[k].beatmapset.id,
        records[k].beatmap.difficulty_rating,
    );
}

/// A record that repeats the set and the star rating of one taken in before
/// changes nothing: no plays are added and no entry is appended.
pub proof fn lemma_repeat_is_ignored(records: Seq<ReplayCountView>, repeat: ReplayCountView)
    requires
        exists|k: int|
            0 <= k < records.len() && (#[trigger] records[k]).beatmapset.id == repeat.beatmapset.id
                && records[k].beatmap.difficulty_rating == repeat.beatmap.difficulty_rating,
    ensures
        aggregate(records.push(repeat)) == aggregate(records),
{
    let k = choose|k: int|
        0 <= k < records.len() && (#[trigger] records[k]).beatmapset.id == repeat.beatmapset.id
            && records[k].beatmap.difficulty_rating == repeat.beatmap.difficulty_rating;
    let sets = aggregate(records);
    lemma_aggregate_counts_every_record(records, k);
    lemma_aggregate_well_formed(records);
    let i = choose|i: int|
        0 <= i < sets.len() && (#[trigger] sets[i]).set_id == repeat.beatmapset.id
            && sets[i].has_difficulty(repeat.beatmap.difficulty_rating);
    let at = position_of(sets, repeat.beatmapset.id);
    assert(at == i) by {
        if at < i {
            assert(sets[at].set_id != sets[i].set_id);
        } else if i < at {
            assert(sets[i].set_id != sets[at].set_id);
        }
    }
    assert(records.push(repeat).drop_last() =~= records);
    assert(sets.update(at, sets[at]) =~= sets);
}

/// Two records of one set with different star ratings give one summary,
/// with both entries and the plays of both together.
pub proof fn lemma_two_difficulties_add_up(first: ReplayCountView, second: ReplayCountView)
    requires
        first.beatmapset.id == second.beatmapset.id,
        first.beatmap.difficulty_rating != second.beatmap.difficulty_rating,
    ensures
        aggregate(seq![first, second]) == seq![
            OutputBeatmapSetView {
                play_count: first.count as nat + second.count as nat,
                beatmap_breakdown: seq![first.breakdown_entry(), second.breakdown_entry()],
                ..first.fresh_set()
            },
        ],
{
    let both = seq![first, second];
    let one = both.drop_last();
    assert(one =~= seq![first]);
    assert(one.drop_last() =~= Seq::<ReplayCountView>::empty());
    assert(aggregate(one.drop_last()) == Seq::<OutputBeatmapSetView>::empty());
    let opened = aggregate(one);
    assert(opened =~= seq![first.fresh_set()]);
    assert(opened[0].set_id == second.beatmapset.id);
    assert(position_of(opened, second.beatmapset.id) == 0);
    assert(!opened[0].has_difficulty(second.beatmap.difficulty_rating));
    let merged = opened[0].with_difficulty(second);
    assert(merged.beatmap_breakdown =~= seq![first.breakdown_entry(), second.breakdown_entry()]);
    assert(both.last() == second);
    assert(aggregate(both) == opened.update(0, merged));
    assert(aggregate(both) =~= seq![
        OutputBeatmapSetView {
            play_count: first.count as nat + second.count as nat,
            beatmap_breakdown: seq![first.breakdown_entry(), second.breakdown_entry()],
            ..first.fresh_set()
        },
    ]);
}

/// There is one summary for each set that the records are of.
pub proof fn lemma_aggregate_one_per_set(records: Seq<ReplayCountView>)
    ensures
        set_ids(records).finite(),
        aggregate(records).len() == set_ids(records).len(),
        forall|id: u32| has_set(aggregate(records), id) <==> set_ids(records).contains(id),
    decreases records.len(),
{
    if records.len() == 0 {
        assert(set_ids(records) =~= Set::<u32>::empty());
        assert forall|id: u32| !has_set(aggregate(records), id) by {}
    } else {
        let earlier = records.drop_last();
        let last = records.last();
        lemma_aggregate_one_per_set(earlier);
        let before = aggregate(earlier);
        let after = aggregate(records);
        assert(set_ids(records) =~= set_ids(earlier).insert(last.beatmapset.id)) by {
            assert forall|id: u32| set_ids(records).contains(id) <==> set_ids(earlier).insert(
                last.beatmapset.id,
            ).contains(id) by {
                if set_ids(records).contains(id) {
                    let k = choose|k: int|
                        0 <= k < records.len() && (#[trigger] records[k]).beatmapset.id == id;
                    if k < earlier.len() {
                        assert(earlier[k].beatmapset.id == id);
                    }
                }
                if set_ids(earlier).contains(id) {
                    let k = choose|k: int|
                        0 <= k < earlier.len() && (#[trigger] earlier[k]).beatmapset.id == id;
                    assert(records[k].beatmapset.id == id);
                }
                if id == last.beatmapset.id {
                    assert(records[records.len() - 1].beatmapset.id == id);
                }
            }
        }
        if has_set(before, last.beatmapset.id) {
            let at = position_of(before, last.beatmapset.id);
            assert(before[at].with_difficulty(last).set_id == before[at].set_id);
            lemma_same_sets(before, after);
        } else {
            lemma_one_more_set(before, last.fresh_set());
        }
    }
}

/// Summaries of the same sets at the same places hold the same sets.
proof fn lemma_same_sets(before: Seq<OutputBeatmapSetView>, after: Seq<OutputBeatmapSetView>)
    requires
        before.len() == after.len(),
        forall|i: int| 0 <= i < before.len() ==> (#[trigger] before[i]).set_id == after[i].set_id,
    ensures
        forall|id: u32| has_set(before, id) <==> has_set(after, id),
{
    assert forall|id: u32| has_set(before, id) <==> has_set(after, id) by {
        if has_set(before, id) {
            let i = position_of(before, id);
            assert(after[i].set_id == id);
        }
        if has_set(after, id) {
            let i = position_of(after, id);
            assert(before[i].set_id == id);
        }
    }
}

/// With one more summary, exactly one more set is held.
proof fn lemma_one_more_set(before: Seq<OutputBeatmapSetView>, fresh: OutputBeatmapSetView)
    ensures
        forall|id: u32|
            has_set(before.push(fresh), id) <==> has_set(before, id) || id == fresh.set_id,
{
    let after = before.push(fresh);
    assert forall|id: u32| has_set(after, id) <==> has_set(before, id) || id
        == fresh.set_id by {
        if has_set(before, id) {
            let i = position_of(before, id);
            assert(after[i].set_id == id);
        }
        if id == fresh.set_id {
            assert(after[before.len() as int].set_id == id);
        }
        if has_set(after, id) {
            let i = position_of(after, id);
            if i < before.len() {
                assert(before[i].set_id == id);
            }
        }
    }
}

/// Whether the breakdown of `set` already has a difficulty of this star
/// rating.
fn has_difficulty(set: &OutputBeatmapSet, difficulty_rating: u32) -> (found: bool)
    ensures
        found == set@.has_difficulty(difficulty_rating),
{
    let mut i: usize = 0;
    while i < set.beatmap_breakdown.len()
        invariant
            i <= set.beatmap_breakdown.len(),
            forall|k: int|
                0 <= k < i ==> (#[trigger] set@.beatmap_breakdown[k]).difficulty_rating
                    != difficulty_rating,
        decreases set.beatmap_breakdown.len() - i,
    {
        if set.beatmap_breakdown[i].difficulty_rating == difficulty_rating {
            assert(set@.beatmap_breakdown[i as int].difficulty_rating == difficulty_rating);
            return true;
        }
        i += 1;
    }
    false
}

/// Folds the records that `filter` lets through into one summary for each
/// beatmap set, in the order in which the sets are first met. A difficulty
/// that its set's summary already has is passed over, so that a record which
/// the listing repeats is counted once.
pub fn aggregate_difficulties_with_filter<F: Fn(&ReplayCount) -> bool>(
    data: Vec<ReplayCount>,
    filter: F,
) -> (sets: Vec<OutputBeatmapSet>)
    requires
        forall|i: int| 0 <= i < data.len() ==> call_requires(filter, (&#[trigger] data[i],)),
    ensures
        exists|keep: Seq<bool>| #[trigger]
            decided_by(filter, data@, keep) && sets.deep_view() == aggregate(
                kept(data.deep_view(), keep),
            ),
{
    let mut sets: Vec<OutputBeatmapSet> = Vec::new();
    let mut positions: HashMap<u32, usize> = HashMap::new();
    let ghost mut keep: Seq<bool> = Seq::empty();
    let mut i: usize = 0;
    assert(data.deep_view().take(0) =~= Seq::empty());
    while i < data.len()
        invariant
            i <= data.len(),
            keep.len() == i,
            forall|k: int| 0 <= k < data.len() ==> call_requires(filter, (&#[trigger] data[k],)),
            forall|k: int| 0 <= k < i ==> call_ensures(filter, (&data[k],), #[trigger] keep[k]),
            sets.deep_view() == aggregate(kept(data.deep_view().take(i as int), keep)),
            forall|id: u32| positions@.contains_key(id) <==> has_set(sets.deep_view(), id),
            forall|id: u32|
                positions@.contains_key(id) ==> (#[trigger] positions@[id]) < sets.len()
                    && sets[positions@[id] as int].set_id == id,
        decreases data.len() - i,
    {
        let replay_info = &data[i];
        let admitted = filter(replay_info);
        let ghost before = sets.deep_view();
        let ghost seen = data.deep_view().take(i as int);
        let ghost seen_keep = keep;
        proof {
            keep = keep.push(admitted);
            let now_seen = data.deep_view().take(i + 1);
            assert(now_seen.drop_last() =~= seen);
            assert(keep.drop_last() =~= seen_keep);
            assert(now_seen.last() == replay_info@);
            lemma_aggregate_well_formed(kept(seen, seen_keep));
            lemma_aggregate_well_formed(kept(now_seen, keep));
            if admitted {
                assert(kept(now_seen, keep).drop_last() =~= kept(seen, seen_keep));
                assert(aggregate(kept(now_seen, keep)) == absorb(before, replay_info@));
            }
        }
        if admitted {
            let set_id = replay_info.beatmapset.id;
            match positions.get(&set_id) {
                Some(position) => {
                    let at: usize = *position;
                    assert(before[at as int].set_id == set_id);
                    assert(position_of(before, set_id) == at);
                    if !has_difficulty(&sets[at], replay_info.beatmap.difficulty_rating) {
                        let entry = OutputBeatmap::from(replay_info);
                        let ghost merged = before[at as int].with_difficulty(replay_info@);
                        proof {
                            assert(absorb(before, replay_info@)[at as int] == merged);
                            assert(merged.consistent());
                            lemma_total_plays_bounded(merged.beatmap_breakdown);
                            assert(sets[at as int]@ == before[at as int]);
                        }
                        let set = &mut sets[at];
                        set.play_count = set.play_count + replay_info.count as u64;
                        set.beatmap_breakdown.push(entry);
                        assert(sets[at as int]@.beatmap_breakdown =~= merged.beatmap_breakdown);
                        assert(sets[at as int]@ == merged);
                    }
                    assert(sets.deep_view() =~= absorb(before, replay_info@));
                    proof {
                        lemma_same_sets(before, sets.deep_view());
                    }
                },
                None => {
                    let ghost known = positions@;
                    positions.insert(set_id, sets.len());
                    sets.push(OutputBeatmapSet::from(replay_info));
                    assert(sets.deep_view() =~= absorb(before, replay_info@));
                    proof {
                        lemma_one_more_set(before, replay_info@.fresh_set());
                        assert forall|id: u32| positions@.contains_key(id) <==> has_set(
                            sets.deep_view(),
                            id,
                        ) by {
                            assert(known.contains_key(id) <==> has_set(before, id));
                        }
                    }
                },
            }
        }
        i += 1;
    }
    assert(data.deep_view().take(i as int) =~= data.deep_view());
    assert(decided_by(filter, data@, keep));
    sets
}

/// How many summaries at the front of `sets` have more than `plays` plays.
pub open spec fn lead(sets: Seq<OutputBeatmapSetView>, plays: nat) -> nat
    decreases sets.len(),
{
    if sets.len() == 0 || sets.first().play_count <= plays {
        0
    } else {
        1 + lead(sets.drop_first(), plays)
    }
}

/// `ranking` with `set` put in behind the summaries at its front that have
/// more plays, and so in front of any that has as many.
pub open spec fn place(
    set: OutputBeatmapSetView,
    ranking: Seq<OutputBeatmapSetView>,
) -> Seq<OutputBeatmapSetView> {
    ranking.insert(lead(ranking, set.play_count) as int, set)
}

/// `sets` by falling plays. Summaries with equally many plays keep the
/// order that they have in `sets`.
pub open spec fn ranked(sets: Seq<OutputBeatmapSetView>) -> Seq<OutputBeatmapSetView>
    decreases sets.len(),
{
    if sets.len() == 0 {
        sets
    } else {
        place(sets.first(), ranked(sets.drop_first()))
    }
}

/// No summary has more plays than one in front of it.
pub open spec fn descending(sets: Seq<OutputBeatmapSetView>) -> bool {
    forall|i: int, j: int|
        0 <= i <= j < sets.len() ==> (#[trigger] sets[i]).play_count >= (
        #[trigger] sets[j]).play_count
}

/// The first `limit` of `sets`, or all of them where there are fewer or no
/// limit is given.
pub open spec fn limited(
    sets: Seq<OutputBeatmapSetView>,
    limit: Option<u64>,
) -> Seq<OutputBeatmapSetView> {
    match limit {
        Some(most) => if most < sets.len() {
            sets.take(most as int)
        } else {
            sets
        },
        None => sets,
    }
}

/// The records whose mode is one of those asked for by `modes`.
pub open spec fn of_modes(
    records: Seq<ReplayCountView>,
    modes: Seq<BeatmapMode>,
) -> Seq<ReplayCountView> {
    records.filter(|record: ReplayCountView| api_values_of(modes).contains(record.beatmap.mode))
}

/// What a caller is shown of `records`: the summaries of the sets played in
/// one of `modes`, by falling plays, and no more than `limit` of them.
pub open spec fn summary(
    records: Seq<ReplayCountView>,
    limit: Option<u64>,
    modes: Seq<BeatmapMode>,
) -> Seq<OutputBeatmapSetView> {
    limited(ranked(aggregate(of_modes(records, modes))), limit)
}

/// The place that `lead` counts up to is the first that does not have more
/// plays.
pub proof fn lemma_lead_is_first_not_above(
    sets: Seq<OutputBeatmapSetView>,
    plays: nat,
    at: int,
)
    requires
        0 <= at <= sets.len(),
        forall|k: int| 0 <= k < at ==> (#[trigger] sets[k]).play_count > plays,
        at < sets.len() ==> sets[at].play_count <= plays,
    ensures
        lead(sets, plays) == at,
    decreases at,
{
    if at > 0 {
        assert(sets[0].play_count > plays);
        let rest = sets.drop_first();
        assert forall|k: int| 0 <= k < at - 1 implies (#[trigger] rest[k]).play_count > plays by {
            assert(sets[k + 1].play_count > plays);
        }
        lemma_lead_is_first_not_above(rest, plays, at - 1);
    }
}

/// `lead` stops within the summaries, in front of one that does not have
/// more plays, and behind those that have.
pub proof fn lemma_lead_bounds(sets: Seq<OutputBeatmapSetView>, plays: nat)
    ensures
        lead(sets, plays) <= sets.len(),
        forall|k: int| 0 <= k < lead(sets, plays) ==> (#[trigger] sets[k]).play_count > plays,
        lead(sets, plays) < sets.len() ==> sets[lead(sets, plays) as int].play_count <= plays,
    decreases sets.len(),
{
    if !(sets.len() == 0 || sets.first().play_count <= plays) {
        let rest = sets.drop_first();
        lemma_lead_bounds(rest, plays);
        assert forall|k: int| 0 <= k < lead(sets, plays) implies (#[trigger] sets[k]).play_count
            > plays by {
            if k > 0 {
                assert(rest[k - 1].play_count > plays);
            }
        }
    }
}

/// Ranking loses and adds no summary.
pub proof fn lemma_ranked_same_summaries(sets: Seq<OutputBeatmapSetView>)
    ensures
        ranked(sets).len() == sets.len(),
        ranked(sets).to_multiset() == sets.to_multiset(),
    decreases sets.len(),
{
    broadcast use vstd::seq_lib::group_to_multiset_ensures;

    if sets.len() > 0 {
        let rest = ranked(sets.drop_first());
        lemma_ranked_same_summaries(sets.drop_first());
        lemma_lead_bounds(rest, sets.first().play_count);
        let at = lead(rest, sets.first().play_count) as int;
        let front = rest.take(at);
        let back = rest.skip(at);
        assert(rest =~= front + back);
        assert(ranked(sets) =~= front.push(sets.first()) + back);
        vstd::seq_lib::lemma_multiset_commutative(front, back);
        vstd::seq_lib::lemma_multiset_commutative(front.push(sets.first()), back);
        assert(sets =~= seq![sets.first()] + sets.drop_first());
        vstd::seq_lib::lemma_multiset_commutative(seq![sets.first()], sets.drop_first());
        assert(seq![sets.first()] =~= Seq::empty().push(sets.first()));
        assert(ranked(sets).to_multiset() =~= sets.to_multiset());
    }
}

/// A ranking is in the order of falling plays.
pub proof fn lemma_ranked_descending(sets: Seq<OutputBeatmapSetView>)
    ensures
        descending(ranked(sets)),
    decreases sets.len(),
{
    if sets.len() > 0 {
        let rest = ranked(sets.drop_first());
        let set = sets.first();
        lemma_ranked_descending(sets.drop_first());
        lemma_lead_bounds(rest, set.play_count);
        let at = lead(rest, set.play_count) as int;
        let all = ranked(sets);
        assert forall|i: int, j: int| 0 <= i <= j < all.len() implies (#[trigger] all[i]).play_count
            >= (#[trigger] all[j]).play_count by {
            if i < at && j > at {
                assert(rest[i].play_count >= rest[j - 1].play_count);
            } else if i < at && j < at {
                assert(rest[i].play_count >= rest[j].play_count);
            } else if i < at && j == at {
                assert(rest[i].play_count > set.play_count);
            } else if i == at && j > at {
                assert(rest[at].play_count >= rest[j - 1].play_count);
            } else if i > at {
                assert(rest[i - 1].play_count >= rest[j - 1].play_count);
            }
        }
    }
}

/// Putting the summary of one more set into well-formed summaries leaves
/// them well formed.
pub proof fn lemma_place_well_formed(
    set: OutputBeatmapSetView,
    ranking: Seq<OutputBeatmapSetView>,
)
    requires
        well_formed(ranking),
        set.consistent(),
        !has_set(ranking, set.set_id),
    ensures
        well_formed(place(set, ranking)),
        forall|id: u32| has_set(place(set, ranking), id) <==> has_set(ranking, id) || id == set.set_id,
{
    lemma_lead_bounds(ranking, set.play_count);
    let at = lead(ranking, set.play_count) as int;
    let all = place(set, ranking);
    assert forall|i: int| 0 <= i < all.len() implies (#[trigger] all[i]).consistent() by {
        if i < at {
            assert(ranking[i].consistent());
        } else if i > at {
            assert(ranking[i - 1].consistent());
        }
    }
    assert forall|i: int, j: int| 0 <= i < j < all.len() implies (#[trigger] all[i]).set_id != (
    #[trigger] all[j]).set_id by {
        let a = if i < at {
            i
        } else {
            i - 1
        };
        let b = if j < at {
            j
        } else {
            j - 1
        };
        if i == at {
            assert(ranking[b].set_id != set.set_id);
        } else if j == at {
            assert(ranking[a].set_id != set.set_id);
        } else {
            assert(ranking[a].set_id != ranking[b].set_id);
        }
    }
    assert forall|id: u32| has_set(all, id) <==> has_set(ranking, id) || id == set.set_id by {
        if has_set(ranking, id) {
            let k = position_of(ranking, id);
            if k < at {
                assert(all[k].set_id == id);
            } else {
                assert(all[k + 1].set_id == id);
            }
        }
        if id == set.set_id {
            assert(all[at].set_id == id);
        }
        if has_set(all, id) {
            let k = position_of(all, id);
            if k < at {
                assert(ranking[k].set_id == id);
            } else if k > at {
                assert(ranking[k - 1].set_id == id);
            }
        }
    }
}

/// Ranking well-formed summaries leaves them well formed, and summaries of
/// the same sets.
pub proof fn lemma_ranked_well_formed(sets: Seq<OutputBeatmapSetView>)
    requires
        well_formed(sets),
    ensures
        well_formed(ranked(sets)),
        forall|id: u32| has_set(ranked(sets), id) <==> has_set(sets, id),
    decreases sets.len(),
{
    if sets.len() > 0 {
        let rest = sets.drop_first();
        assert(well_formed(rest)) by {
            assert forall|i: int| 0 <= i < rest.len() implies (#[trigger] rest[i]).consistent() by {
                assert(sets[i + 1].consistent());
            }
            assert forall|i: int, j: int| 0 <= i < j < rest.len() implies (
            #[trigger] rest[i]).set_id != (#[trigger] rest[j]).set_id by {
                assert(sets[i + 1].set_id != sets[j + 1].set_id);
            }
        }
        lemma_ranked_well_formed(rest);
        assert(!has_set(rest, sets.first().set_id)) by {
            if has_set(rest, sets.first().set_id) {
                let k = position_of(rest, sets.first().set_id);
                assert(sets[0].set_id != sets[k + 1].set_id);
            }
        }
        assert(sets[0].consistent());
        lemma_place_well_formed(sets.first(), ranked(rest));
        assert forall|id: u32| has_set(ranked(sets), id) <==> has_set(sets, id) by {
            if has_set(rest, id) {
                let k = position_of(rest, id);
                assert(sets[k + 1].set_id == id);
            }
            if id == sets.first().set_id {
                assert(sets[0].set_id == id);
            }
            if has_set(sets, id) {
                let k = position_of(sets, id);
                if k > 0 {
                    assert(rest[k - 1].set_id == id);
                }
            }
        }
    } else {
        assert forall|id: u32| has_set(ranked(sets), id) <==> has_set(sets, id) by {}
    }
}

/// A limit leaves the first of the summaries, as many as it allows.
pub proof fn lemma_limited_len(sets: Seq<OutputBeatmapSetView>, limit: Option<u64>)
    ensures
        limited(sets, limit).len() == match limit {
            Some(most) => if most < sets.len() {
                most as nat
            } else {
                sets.len()
            },
            None => sets.len(),
        },
        descending(sets) ==> descending(limited(sets, limit)),
        well_formed(sets) ==> well_formed(limited(sets, limit)),
{
    let shown = limited(sets, limit);
    if well_formed(sets) {
        assert forall|i: int| 0 <= i < shown.len() implies (#[trigger] shown[i]).consistent() by {
            assert(sets[i].consistent());
        }
        assert forall|i: int, j: int| 0 <= i < j < shown.len() implies (
        #[trigger] shown[i]).set_id != (#[trigger] shown[j]).set_id by {
            assert(sets[i].set_id != sets[j].set_id);
        }
    }
    if descending(sets) {
        assert forall|i: int, j: int| 0 <= i <= j < shown.len() implies (
        #[trigger] shown[i]).play_count >= (#[trigger] shown[j]).play_count by {
            assert(sets[i].play_count >= sets[j].play_count);
        }
    }
}

/// Flags that answer a test say which items the test lets through.
pub proof fn lemma_kept_is_filter<A>(items: Seq<A>, keep: Seq<bool>, test: spec_fn(A) -> bool)
    requires
        keep.len() == items.len(),
        forall|i: int| 0 <= i < items.len() ==> keep[i] == test(#[trigger] items[i]),
    ensures
        kept(items, keep) == items.filter(test),
    decreases items.len(),
{
    reveal(Seq::filter);
    if items.len() > 0 {
        lemma_kept_is_filter(items.drop_last(), keep.drop_last(), test);
    }
}

/// Brings `sets` into the order of falling plays. Summaries with equally
/// many plays keep their order.
pub fn sort_by_play_count(sets: Vec<OutputBeatmapSet>) -> (ranking: Vec<OutputBeatmapSet>)
    ensures
        ranking.deep_view() == ranked(sets.deep_view()),
        descending(ranking.deep_view()),
        ranking.len() == sets.len(),
{
    let ghost all = sets.deep_view();
    let mut sets = sets;
    let mut ranking: Vec<OutputBeatmapSet> = Vec::new();
    assert(all.skip(all.len() as int) =~= Seq::empty());
    while sets.len() > 0
        invariant
            sets.deep_view() == all.take(sets.len() as int),
            sets.len() <= all.len(),
            ranking.deep_view() == ranked(all.skip(sets.len() as int)),
        decreases sets.len(),
    {
        let ghost done = all.skip(sets.len() as int);
        let ghost before = ranking.deep_view();
        let ghost prior = sets.deep_view();
        let set = sets.pop().unwrap();
        assert(set@ == prior[sets.len() as int]);
        assert(sets.deep_view() =~= all.take(sets.len() as int));
        let mut at: usize = 0;
        while at < ranking.len() && ranking[at].play_count > set.play_count
            invariant
                at <= ranking.len(),
                forall|k: int| 0 <= k < at ==> (#[trigger] ranking[k]).play_count > set.play_count,
            decreases ranking.len() - at,
        {
            at += 1;
        }
        proof {
            assert forall|k: int| 0 <= k < at implies (#[trigger] before[k]).play_count
                > set@.play_count by {
                assert(ranking[k].play_count > set.play_count);
            }
            lemma_lead_is_first_not_above(before, set@.play_count, at as int);
        }
        ranking.insert(at, set);
        proof {
            let now = all.skip(sets.len() as int);
            assert(now.drop_first() =~= done);
            assert(ranking.deep_view() =~= place(now.first(), before));
        }
    }
    proof {
        assert(all.skip(0) =~= all);
        lemma_ranked_descending(all);
        lemma_ranked_same_summaries(all);
    }
    ranking
}

/// Keeps the first `limit` of `target`, or all of it where it has fewer or
/// no limit is given.
pub fn try_limit_output(target: Vec<OutputBeatmapSet>, limit: Option<u64>) -> (kept: Vec<
    OutputBeatmapSet,
>)
    ensures
        kept.deep_view() == limited(target.deep_view(), limit),
{
    let mut target = target;
    if let Some(most) = limit {
        if most < target.len() as u64 {
            let ghost whole = target.deep_view();
            target.truncate(most as usize);
            assert(target.deep_view() =~= whole.take(most as int));
        }
    }
    target
}

/// The summaries of the sets that `data` shows played in one of `modes`
/// (in any mode, where `modes` is empty), by falling plays, and no more than
/// `limit` of them.
pub fn summarize_most_played(
    data: Vec<ReplayCount>,
    limit: Option<u64>,
    modes: &Vec<BeatmapMode>,
) -> (shown: Vec<OutputBeatmapSet>)
    ensures
        shown.deep_view() == summary(data.deep_view(), limit, modes@),
        descending(shown.deep_view()),
        well_formed(shown.deep_view()),
        shown.len() == match limit {
            Some(most) => vstd::math::min(
                most as int,
                set_ids(of_modes(data.deep_view(), modes@)).len() as int,
            ),
            None => set_ids(of_modes(data.deep_view(), modes@)).len() as int,
        },
{
    let mode_filter = PrebuiltFilter::allow_values(all_or_modes_to_api_values(modes));
    let ghost records = data.deep_view();
    let ghost raw = data@;
    let by_mode = |x: &ReplayCount| -> (admitted: bool)
        ensures
            admitted == mode_filter.admits(x.beatmap.mode@),
        { mode_filter.allows(&x.beatmap.mode) };
    let result = aggregate_difficulties_with_filter(data, by_mode);
    proof {
        let keep = choose|keep: Seq<bool>| #[trigger]
            decided_by(by_mode, raw, keep) && result.deep_view() == aggregate(kept(records, keep));
        let wanted = |record: ReplayCountView|
            api_values_of(modes@).contains(record.beatmap.mode);
        assert forall|i: int| 0 <= i < records.len() implies keep[i] == wanted(
            #[trigger] records[i],
        ) by {
            assert(call_ensures(by_mode, (&raw[i],), keep[i]));
        }
        lemma_kept_is_filter(records, keep, wanted);
        let sets = aggregate(of_modes(records, modes@));
        lemma_aggregate_well_formed(of_modes(records, modes@));
        lemma_ranked_well_formed(sets);
        lemma_limited_len(ranked(sets), limit);
        lemma_aggregate_one_per_set(of_modes(records, modes@));
    }
    let result = sort_by_play_count(result);
    try_limit_output(result, limit)
}

/// The plays of all of `sets` together.
pub open spec fn plays_of_all(sets: Seq<OutputBeatmapSetView>) -> nat
    decreases sets.len(),
{
    if sets.len() == 0 {
        0
    } else {
        plays_of_all(sets.drop_last()) + sets.last().play_count
    }
}

/// The star ratings of the entries, in ten-thousandths of a star, each
/// counted once for each of its plays.
pub open spec fn rated_plays(breakdown: Seq<OutputBeatmapView>) -> nat
    decreases breakdown.len(),
{
    if breakdown.len() == 0 {
        0
    } else {
        rated_plays(breakdown.drop_last()) + breakdown.last().difficulty_rating as nat
            * breakdown.last().play_count as nat
    }
}

/// The star ratings of all entries of `sets`, in ten-thousandths of a star,
/// each counted once for each of its plays.
pub open spec fn rated_plays_of_all(sets: Seq<OutputBeatmapSetView>) -> nat
    decreases sets.len(),
{
    if sets.len() == 0 {
        0
    } else {
        rated_plays_of_all(sets.drop_last()) + rated_plays(sets.last().beatmap_breakdown)
    }
}

/// What a report says of all the summaries together.
#[derive(Copy, Clone, PartialEq, Eq, Structural, Debug)]
pub struct PlayTotals {
    /// The plays of all sets together.
    pub total_plays: u128,
    /// The number of sets.
    pub total_beatmapsets: usize,
    /// The star ratings of all entries, in ten-thousandths of a star, each
    /// counted once for each of its plays. Divided by `total_plays` it is
    /// the star rating of the average play.
    pub rated_plays: u128,
}

/// The most that the rated plays of one entry can be.
pub open spec fn rated_entry_limit() -> nat {
    0xffff_ffff * 0xffff_ffff
}

/// The rated plays of some entries are at most as many times the most that
/// one entry can have.
pub proof fn lemma_rated_plays_by_length(breakdown: Seq<OutputBeatmapView>)
    ensures
        rated_plays(breakdown) <= breakdown.len() * rated_entry_limit(),
    decreases breakdown.len(),
{
    if breakdown.len() > 0 {
        lemma_rated_plays_by_length(breakdown.drop_last());
        let last = breakdown.last();
        assert(last.difficulty_rating as nat * last.play_count as nat <= rated_entry_limit())
            by (nonlinear_arith)
            requires
                last.difficulty_rating <= 0xffff_ffff,
                last.play_count <= 0xffff_ffff,
        ;
        assert((breakdown.len() - 1) * rated_entry_limit() + rated_entry_limit()
            == breakdown.len() * rated_entry_limit()) by (nonlinear_arith);
    }
}

/// Well-formed summaries have plays and rated plays that fit into 128 bits,
/// with room to spare for one more set.
pub proof fn lemma_totals_bounded(sets: Seq<OutputBeatmapSetView>)
    requires
        forall|i: int| 0 <= i < sets.len() ==> (#[trigger] sets[i]).consistent(),
    ensures
        plays_of_all(sets) <= sets.len() * 0xffff_ffff_0000_0000,
        rated_plays_of_all(sets) <= sets.len() * (0x1_0000_0000 * rated_entry_limit()),
    decreases sets.len(),
{
    if sets.len() > 0 {
        let earlier = sets.drop_last();
        assert forall|i: int| 0 <= i < earlier.len() implies (#[trigger] earlier[i]).consistent() by {
            assert(sets[i].consistent());
        }
        lemma_totals_bounded(earlier);
        let last = sets.last();
        assert(sets[sets.len() - 1].consistent());
        lemma_total_plays_bounded(last.beatmap_breakdown);
        lemma_rated_plays_by_length(last.beatmap_breakdown);
        assert(last.beatmap_breakdown.len() * rated_entry_limit() <= 0x1_0000_0000
            * rated_entry_limit()) by (nonlinear_arith)
            requires
                last.beatmap_breakdown.len() <= 0x1_0000_0000,
        ;
        assert((sets.len() - 1) * 0xffff_ffff_0000_0000 + 0xffff_ffff_0000_0000 == sets.len()
            * 0xffff_ffff_0000_0000) by (nonlinear_arith);
        assert((sets.len() - 1) * (0x1_0000_0000 * rated_entry_limit()) + (0x1_0000_0000
            * rated_entry_limit()) == sets.len() * (0x1_0000_0000 * rated_entry_limit()))
            by (nonlinear_arith);
    }
}

/// The rated plays of the entries of one summary.
fn rated_plays_of(set: &OutputBeatmapSet) -> (rated: u128)
    requires
        set@.consistent(),
    ensures
        rated == rated_plays(set@.beatmap_breakdown),
{
    let ghost breakdown = set@.beatmap_breakdown;
    let mut rated: u128 = 0;
    let mut i: usize = 0;
    assert(breakdown.take(0) =~= Seq::empty());
    proof {
        lemma_total_plays_bounded(breakdown);
    }
    while i < set.beatmap_breakdown.len()
        invariant
            i <= set.beatmap_breakdown.len(),
            breakdown == set@.beatmap_breakdown,
            breakdown.len() <= 0x1_0000_0000,
            rated == rated_plays(breakdown.take(i as int)),
        decreases set.beatmap_breakdown.len() - i,
    {
        let entry = &set.beatmap_breakdown[i];
        proof {
            let longer = breakdown.take(i + 1);
            assert(longer.drop_last() =~= breakdown.take(i as int));
            assert(longer.last() == entry@);
            lemma_rated_plays_by_length(longer);
            assert(longer.len() * rated_entry_limit() <= 0x1_0000_0000 * rated_entry_limit())
                by (nonlinear_arith)
                requires
                    longer.len() <= 0x1_0000_0000,
            ;
            assert(entry.difficulty_rating as nat * entry.play_count as nat <= rated_entry_limit())
                by (nonlinear_arith)
                requires
                    entry.difficulty_rating <= 0xffff_ffff,
                    entry.play_count <= 0xffff_ffff,
            ;
        }
        rated = rated + entry.difficulty_rating as u128 * entry.play_count as u128;
        i += 1;
    }
    assert(breakdown.take(i as int) =~= breakdown);
    rated
}

/// What a report says of all of `data` together: the plays, the number of
/// sets, and the rated plays from which the star rating of the average play
/// follows.
pub fn play_totals(data: &Vec<OutputBeatmapSet>) -> (totals: PlayTotals)
    requires
        well_formed(data.deep_view()),
    ensures
        totals.total_plays == plays_of_all(data.deep_view()),
        totals.total_beatmapsets == data.len(),
        totals.rated_plays == rated_plays_of_all(data.deep_view()),
{
    let ghost sets = data.deep_view();
    let mut total_plays: u128 = 0;
    let mut rated: u128 = 0;
    let mut i: usize = 0;
    assert(sets.take(0) =~= Seq::empty());
    proof {
        lemma_distinct_sets_len(sets);
    }
    while i < data.len()
        invariant
            i <= data.len(),
            sets == data.deep_view(),
            well_formed(sets),
            sets.len() <= 0x1_0000_0000,
            total_plays == plays_of_all(sets.take(i as int)),
            rated == rated_plays_of_all(sets.take(i as int)),
        decreases data.len() - i,
    {
        let set = &data[i];
        proof {
            let longer = sets.take(i + 1);
            assert(longer.drop_last() =~= sets.take(i as int));
            assert(longer.last() == set@);
            assert(sets[i as int].consistent());
            assert forall|k: int| 0 <= k < longer.len() implies (#[trigger] longer[k]).consistent() by {
                assert(sets[k].consistent());
            }
            lemma_totals_bounded(longer);
            assert(longer.len() * 0xffff_ffff_0000_0000 <= 0x1_0000_0000 * 0xffff_ffff_0000_0000)
                by (nonlinear_arith)
                requires
                    longer.len() <= 0x1_0000_0000,
            ;
            assert(longer.len() * (0x1_0000_0000 * rated_entry_limit()) <= 0x1_0000_0000 * (
            0x1_0000_0000 * rated_entry_limit())) by (nonlinear_arith)
                requires
                    longer.len() <= 0x1_0000_0000,
            ;
        }
        total_plays = total_plays + set.play_count as u128;
        rated = rated + rated_plays_of(set);
        i += 1;
    }
    assert(sets.take(i as int) =~= sets);
    PlayTotals { total_plays, total_beatmapsets: data.len(), rated_plays: rated }
}

} // verus!
