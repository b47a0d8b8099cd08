//! Play modes in the vocabulary of the service, and filters over such names.
use crate::cli::BeatmapMode;
use vstd::prelude::*;

verus! {

impl BeatmapMode {
    /// The name that the service gives this mode.
    pub open spec fn api_value(self) -> Seq<char> {
        match self {
            BeatmapMode::Standard => "osu"@,
            BeatmapMode::Mania => "mania"@,
            BeatmapMode::Taiko => "taiko"@,
            BeatmapMode::Catch => "fruits"@,
        }
    }
}

/// The names that the service gives to the four modes.
pub open spec fn all_api_values() -> Seq<Seq<char>> {
    seq!["osu"@, "mania"@, "taiko"@, "fruits"@]
}

/// The names to filter by when a caller asks for `modes`: every name when
/// none is asked for, else the names of those asked for, in their order.
pub open spec fn api_values_of(modes: Seq<BeatmapMode>) -> Seq<Seq<char>> {
    if modes.len() == 0 {
        all_api_values()
    } else {
        modes.map_values(|mode: BeatmapMode| mode.api_value())
    }
}

/// What a report calls the mode that the service names `mode_data`.
pub open spec fn mode_string_of(mode_data: Seq<char>) -> Seq<char> {
    if mode_data == "osu"@ {
        "standard"@
    } else if mode_data == "taiko"@ || mode_data == "mania"@ {
        mode_data
    } else if mode_data == "fruits"@ {
        "catch"@
    } else {
        "unknown mode"@
    }
}

/// The name that the service gives `mode`.
pub fn mode_to_api_value(mode: &BeatmapMode) -> (value: String)
    ensures
        value@ == mode.api_value(),
{
    match mode {
        BeatmapMode::Standard => "osu".to_string(),
        BeatmapMode::Mania => "mania".to_string(),
        BeatmapMode::Taiko => "taiko".to_string(),
        BeatmapMode::Catch => "fruits".to_string(),
    }
}

/// The names to filter by when a caller asks for `modes`: all four when
/// `modes` is empty.
pub fn all_or_modes_to_api_values(modes: &Vec<BeatmapMode>) -> (values: Vec<String>)
    ensures
        values.deep_view() == api_values_of(modes@),
{
    let mut values: Vec<String> = Vec::new();
    if modes.is_empty() {
        values.push("osu".to_string());
        values.push("mania".to_string());
        values.push("taiko".to_string());
        values.push("fruits".to_string());
        assert(values.deep_view() =~= all_api_values());
    } else {
        let mut i: usize = 0;
        while i < modes.len()
            invariant
                i <= modes.len(),
                values.len() == i,
                forall|k: int| 0 <= k < i ==> (#[trigger] values[k])@ == modes[k].api_value(),
            decreases modes.len() - i,
        {
            values.push(mode_to_api_value(&modes[i]));
            i += 1;
        }
        assert(values.deep_view() =~= api_values_of(modes@));
    }
    values
}

/// Whether `text` reads `literal`.
fn reads(text: &str, literal: &str) -> (same: bool)
    ensures
        same == (text@ == literal@),
{
    text.to_string() == literal.to_string()
}

/// What a report calls the mode that the service names `mode_data`;
/// "unknown mode" for a name that the service does not use.
pub fn get_mode_string(mode_data: &str) -> (name: String)
    ensures
        name@ == mode_string_of(mode_data@),
{
    if reads(mode_data, "osu") {
        "standard".to_string()
    } else if reads(mode_data, "taiko") || reads(mode_data, "mania") {
        mode_data.to_string()
    } else if reads(mode_data, "fruits") {
        "catch".to_string()
    } else {
        "unknown mode".to_string()
    }
}

/// A list of names that either admits exactly the listed names or exactly
/// the others.
pub struct PrebuiltFilter {
    values: Vec<String>,
    is_values_allowlist: bool,
}

impl PrebuiltFilter {
    /// The listed names.
    pub closed spec fn values(&self) -> Set<Seq<char>> {
        self.values.deep_view().to_set()
    }

    /// Whether the listed names are the admitted ones.
    pub closed spec fn is_allowlist(&self) -> bool {
        self.is_values_allowlist
    }

    /// Whether the filter admits `value`.
    pub open spec fn admits(&self, value: Seq<char>) -> bool {
        self.values().contains(value) == self.is_allowlist()
    }

    /// A filter over `values`, which admits them if `allowlist` is set and
    /// everything but them if not.
    pub fn new(values: Vec<String>, allowlist: bool) -> (filter: Self)
        ensures
            filter.values() == values.deep_view().to_set(),
            filter.is_allowlist() == allowlist,
    {
        PrebuiltFilter { values, is_values_allowlist: allowlist }
    }

    /// A filter that admits exactly `values`.
    pub fn allow_values(values: Vec<String>) -> (filter: Self)
        ensures
            filter.values() == values.deep_view().to_set(),
            filter.is_allowlist(),
    {
        Self::new(values, true)
    }

    /// Whether the filter admits `value`.
    pub fn allows(&self, value: &String) -> (admitted: bool)
        ensures
            admitted == self.admits(value@),
    {
        let mut listed = false;
        let mut i: usize = 0;
        while i < self.values.len()
            invariant
                i <= self.values.len(),
                listed == exists|k: int| 0 <= k < i && (#[trigger] self.values[k])@ == value@,
            decreases self.values.len() - i,
        {
            if self.values[i] == *value {
                listed = true;
            }
            i += 1;
        }
        proof {
            let views = self.values.deep_view();
            if listed {
                let k = choose|k: int| 0 <= k < i && (#[trigger] self.values[k])@ == value@;
                assert(views[k] == value@);
            } else {
                assert forall|k: int| 0 <= k < views.len() implies views[k] != value@ by {
                    assert(self.values[k]@ != value@);
                }
            }
            assert(listed == views.contains(value@));
        }
        !(listed ^ self.is_values_allowlist)
    }
}

} // verus!
