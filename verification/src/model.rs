//! The records that the play-count listing is made of, and the summaries
//! built from them.
//!
//! Star ratings are held in ten-thousandths of a star: that is the
//! resolution at which two difficulties of one beatmap set are told apart.
use vstd::prelude::*;

verus! {

/// One playable difficulty of a beatmap set.
#[derive(Debug)]
pub struct Beatmap {
    /// Star rating, in ten-thousandths of a star.
    pub difficulty_rating: u32,
    pub id: u32,
    /// Play mode, as the service names it.
    pub mode: String,
    pub status: String,
}

/// A bundle of difficulties of one song.
#[derive(Debug)]
pub struct BeatmapSet {
    pub id: u32,
    pub artist: String,
    pub artist_unicode: String,
    pub creator: String,
    pub title: String,
    pub title_unicode: String,
}

/// One item of the listing: how often the user played one difficulty.
#[derive(Debug)]
pub struct ReplayCount {
    pub beatmap_id: u32,
    pub count: u32,
    pub beatmap: Beatmap,
    pub beatmapset: BeatmapSet,
}

/// What one difficulty adds to the summary of its set.
#[derive(Debug)]
pub struct OutputBeatmap {
    pub id: u32,
    /// Star rating, in ten-thousandths of a star.
    pub difficulty_rating: u32,
    pub mode: String,
    pub status: String,
    pub play_count: u32,
}

/// The summary of one beatmap set: its plays over all its difficulties.
#[derive(Debug)]
pub struct OutputBeatmapSet {
    pub set_id: u32,
    pub artist: String,
    pub creator: String,
    pub title: String,
    pub play_count: u64,
    pub beatmap_breakdown: Vec<OutputBeatmap>,
}

/// The value of a [`Beatmap`].
pub struct BeatmapView {
    pub difficulty_rating: u32,
    pub id: u32,
    pub mode: Seq<char>,
    pub status: Seq<char>,
}

/// The value of a [`BeatmapSet`].
pub struct BeatmapSetView {
    pub id: u32,
    pub artist: Seq<char>,
    pub artist_unicode: Seq<char>,
    pub creator: Seq<char>,
    pub title: Seq<char>,
    pub title_unicode: Seq<char>,
}

/// The value of a [`ReplayCount`].
pub struct ReplayCountView {
    pub beatmap_id: u32,
    pub count: u32,
    pub beatmap: BeatmapView,
    pub beatmapset: BeatmapSetView,
}

/// The value of an [`OutputBeatmap`].
pub struct OutputBeatmapView {
    pub id: u32,
    pub difficulty_rating: u32,
    pub mode: Seq<char>,
    pub status: Seq<char>,
    pub play_count: u32,
}

/// The value of an [`OutputBeatmapSet`].
pub struct OutputBeatmapSetView {
    pub set_id: u32,
    pub artist: Seq<char>,
    pub creator: Seq<char>,
    pub title: Seq<char>,
    pub play_count: nat,
    pub beatmap_breakdown: Seq<OutputBeatmapView>,
}

impl View for Beatmap {
    type V = BeatmapView;

    open spec fn view(&self) -> BeatmapView {
        BeatmapView {
            difficulty_rating: self.difficulty_rating,
            id: self.id,
            mode: self.mode@,
            status: self.status@,
        }
    }
}

impl DeepView for Beatmap {
    type V = BeatmapView;

    open spec fn deep_view(&self) -> BeatmapView {
        self@
    }
}

impl View for BeatmapSet {
    type V = BeatmapSetView;

    open spec fn view(&self) -> BeatmapSetView {
        BeatmapSetView {
            id: self.id,
            artist: self.artist@,
            artist_unicode: self.artist_unicode@,
            creator: self.creator@,
            title: self.title@,
            title_unicode: self.title_unicode@,
        }
    }
}

impl DeepView for BeatmapSet {
    type V = BeatmapSetView;

    open spec fn deep_view(&self) -> BeatmapSetView {
        self@
    }
}

impl View for ReplayCount {
    type V = ReplayCountView;

    open spec fn view(&self) -> ReplayCountView {
        ReplayCountView {
            beatmap_id: self.beatmap_id,
            count: self.count,
            beatmap: self.beatmap@,
            beatmapset: self.beatmapset@,
        }
    }
}

impl DeepView for ReplayCount {
    type V = ReplayCountView;

    open spec fn deep_view(&self) -> ReplayCountView {
        self@
    }
}

impl View for OutputBeatmap {
    type V = OutputBeatmapView;

    open spec fn view(&self) -> OutputBeatmapView {
        OutputBeatmapView {
            id: self.id,
            difficulty_rating: self.difficulty_rating,
            mode: self.mode@,
            status: self.status@,
            play_count: self.play_count,
        }
    }
}

impl DeepView for OutputBeatmap {
    type V = OutputBeatmapView;

    open spec fn deep_view(&self) -> OutputBeatmapView {
        self@
    }
}

impl View for OutputBeatmapSet {
    type V = OutputBeatmapSetView;

    open spec fn view(&self) -> OutputBeatmapSetView {
        OutputBeatmapSetView {
            set_id: self.set_id,
            artist: self.artist@,
            creator: self.creator@,
            title: self.title@,
            play_count: self.play_count as nat,
            beatmap_breakdown: self.beatmap_breakdown.deep_view(),
        }
    }
}

impl DeepView for OutputBeatmapSet {
    type V = OutputBeatmapSetView;

    open spec fn deep_view(&self) -> OutputBeatmapSetView {
        self@
    }
}

impl ReplayCountView {
    /// The breakdown entry that this record stands for.
    pub open spec fn breakdown_entry(self) -> OutputBeatmapView {
        OutputBeatmapView {
            id: self.beatmap_id,
            difficulty_rating: self.beatmap.difficulty_rating,
            mode: self.beatmap.mode,
            status: self.beatmap.status,
            play_count: self.count,
        }
    }

    /// The summary of this record's set when this record is all that is known
    /// of the set.
    pub open spec fn fresh_set(self) -> OutputBeatmapSetView {
        OutputBeatmapSetView {
            set_id: self.beatmapset.id,
            artist: self.beatmapset.artist,
            creator: self.beatmapset.creator,
            title: self.beatmapset.title,
            play_count: self.count as nat,
            beatmap_breakdown: seq![self.breakdown_entry()],
        }
    }
}

impl OutputBeatmap {
    /// The breakdown entry for the difficulty that `replay` counts.
    pub fn from(replay: &ReplayCount) -> (entry: Self)
        ensures
            entry@ == replay@.breakdown_entry(),
    {
        OutputBeatmap {
            status: replay.beatmap.status.clone(),
            difficulty_rating: replay.beatmap.difficulty_rating,
            id: replay.beatmap_id,
            mode: replay.beatmap.mode.clone(),
            play_count: replay.count,
        }
    }
}

impl OutputBeatmapSet {
    /// The summary of the set of `replay`, with the difficulty that `replay`
    /// counts as its only entry.
    pub fn from(replay: &ReplayCount) -> (set: Self)
        ensures
            set@ == replay@.fresh_set(),
    {
        let mut beatmap_breakdown: Vec<OutputBeatmap> = Vec::new();
        beatmap_breakdown.push(OutputBeatmap::from(replay));
        let set = OutputBeatmapSet {
            set_id: replay.beatmapset.id,
            artist: replay.beatmapset.artist.clone(),
            creator: replay.beatmapset.creator.clone(),
            title: replay.beatmapset.title.clone(),
            play_count: replay.count as u64,
            beatmap_breakdown,
        };
        assert(set@.beatmap_breakdown =~= seq![replay@.breakdown_entry()]);
        set
    }
}

} // verus!
