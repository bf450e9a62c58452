//! Samples that are drawn and exported during training.
use crate::ieee::{is_at_most_zero, limit_to_unit, single_at_most_zero, single_limited_to_unit};
use crate::inference::schedule::{
    denoising_schedule as steps_schedule, schedule_for, NoiseFraction, NoiseSchedule,
};
use crate::paths::{final_component, join_path, law_join_keeps_the_name, path_in};
use crate::text::{decimal, law_decimals_read_back, push_decimal};
use crate::train::noise::SampleNoiseKind;
use std::collections::HashSet;
use vstd::prelude::*;

verus! {

broadcast use vstd::std_specs::hash::group_hash_axioms;

/// The noise levels of a sample whose number of steps may be zero: it then goes from
/// all of its noise to none at once.
pub open spec fn sample_schedule_for(start_noise_level: u32, denoising_steps: usize) -> Seq<
    NoiseFraction,
> {
    if denoising_steps == 0 && !single_at_most_zero(start_noise_level) {
        seq![
            NoiseFraction { numerator: 1, denominator: 1 },
            NoiseFraction { numerator: 0, denominator: 1 },
        ]
    } else {
        schedule_for(start_noise_level, denoising_steps)
    }
}

/// The noise levels of a sample, as parts of `start_noise_level` limited to the numbers
/// from zero to one.
pub fn denoising_schedule(start_noise_level: u32, denoising_steps: usize) -> (schedule: NoiseSchedule)
    requires
        denoising_steps < usize::MAX,
    ensures
        schedule.start == single_limited_to_unit(start_noise_level),
        schedule.parts@ == sample_schedule_for(schedule.start, denoising_steps),
{
    if denoising_steps == 0 {
        let start: u32 = limit_to_unit(start_noise_level);
        let zero: bool = is_at_most_zero(start);
        let mut parts: Vec<NoiseFraction> = Vec::new();
        parts.push(NoiseFraction { numerator: if zero { 0 } else { 1 }, denominator: 1 });
        parts.push(NoiseFraction { numerator: 0, denominator: 1 });
        proof {
            assert(parts@ =~= sample_schedule_for(start, denoising_steps));
        }
        return NoiseSchedule { start, parts };
    }
    steps_schedule(start_noise_level, denoising_steps)
}

/// `text` with underscores for dots.
pub open spec fn without_dots(text: Seq<char>) -> Seq<char> {
    text.map_values(|c: char| if c == '.' { '_' } else { c })
}

/// What precedes the noise level in the name of a sample.
pub open spec fn kind_prefix(kind: SampleNoiseKind) -> Seq<char> {
    match kind {
        SampleNoiseKind::Full => ""@,
        SampleNoiseKind::Band => "band-"@,
        SampleNoiseKind::Rectangle => "rectangle-"@,
        SampleNoiseKind::RegionLineClean => "region-line-clean-"@,
    }
}

/// A noise level, given in decimal, as a part of a file name.
pub fn format_noise_level(noise_level: &str) -> (text: String)
    ensures
        text@ == without_dots(noise_level@),
{
    let len: usize = noise_level.unicode_len();
    let mut text: String = String::new();
    let mut index: usize = 0;
    while index < len
        invariant
            index <= len,
            len == noise_level@.len(),
            text@ =~= without_dots(noise_level@.take(index as int)),
        decreases len - index,
    {
        let ghost before = text@;
        if noise_level.get_char(index) == '.' {
            text.append("_");
        } else {
            text.append(noise_level.substring_char(index, index + 1));
        }
        proof {
            reveal_strlit("_");
            assert(text@ =~= before.push(without_dots(noise_level@)[index as int]));
        }
        index = index + 1;
    }
    proof {
        assert(noise_level@.take(len as int) =~= noise_level@);
    }
    text
}

/// The name of a sample, without its extension. `noise_level` is given in decimal.
pub fn sample_filename(kind: SampleNoiseKind, noise_level: &str) -> (name: String)
    ensures
        name@ == kind_prefix(kind) + without_dots(noise_level@),
{
    let prefix: &str = match kind {
        SampleNoiseKind::Full => "",
        SampleNoiseKind::Band => "band-",
        SampleNoiseKind::Rectangle => "rectangle-",
        SampleNoiseKind::RegionLineClean => "region-line-clean-",
    };
    let mut name: String = prefix.to_owned();
    name.append(format_noise_level(noise_level).as_str());
    name
}

/// A sample to be drawn.
#[derive(Clone, Debug, PartialEq, Eq)]
pub struct SampleRequest {
    /// The place of its noise level in the list of levels.
    pub level: usize,
    pub kind: SampleNoiseKind,
    pub filename: String,
}

/// All kinds of samples, in the order in which they are drawn.
pub open spec fn all_kinds() -> Seq<SampleNoiseKind> {
    seq![
        SampleNoiseKind::Full,
        SampleNoiseKind::Band,
        SampleNoiseKind::Rectangle,
        SampleNoiseKind::RegionLineClean,
    ]
}

/// `request` is the one with this number: four kinds for each level.
pub open spec fn is_request(request: SampleRequest, levels: Seq<String>, number: int) -> bool {
    &&& request.level == number / 4
    &&& request.kind == all_kinds()[number % 4]
    &&& request.filename@ == kind_prefix(request.kind) + without_dots(levels[number / 4]@)
}

/// The samples to be drawn: every kind at every noise level, level by level. The
/// levels are given in decimal.
pub fn sample_requests(levels: &Vec<String>) -> (requests: Vec<SampleRequest>)
    requires
        4 * levels@.len() <= usize::MAX,
    ensures
        requests@.len() == 4 * levels@.len(),
        forall|number: int|
            0 <= number < requests@.len() ==> #[trigger] is_request(
                requests@[number],
                levels@,
                number,
            ),
{
    let kinds: [SampleNoiseKind; 4] = [
        SampleNoiseKind::Full,
        SampleNoiseKind::Band,
        SampleNoiseKind::Rectangle,
        SampleNoiseKind::RegionLineClean,
    ];
    proof {
        assert(kinds@ =~= all_kinds());
    }
    let mut requests: Vec<SampleRequest> = Vec::new();
    while requests.len() < 4 * levels.len()
        invariant
            kinds@ == all_kinds(),
            4 * levels@.len() <= usize::MAX,
            requests@.len() <= 4 * levels@.len(),
            forall|number: int|
                0 <= number < requests@.len() ==> #[trigger] is_request(
                    requests@[number],
                    levels@,
                    number,
                ),
        decreases 4 * levels@.len() - requests@.len(),
    {
        let ghost before = requests@;
        let number: usize = requests.len();
        let level: usize = number / 4;
        let kind: SampleNoiseKind = kinds[number % 4];
        let filename: String = sample_filename(kind, levels[level].as_str());
        requests.push(SampleRequest { level, kind, filename });
        proof {
            assert forall|n: int| 0 <= n < requests@.len() implies #[trigger] is_request(
                requests@[n],
                levels@,
                n,
            ) by {
                if n < number {
                    assert(is_request(before[n], levels@, n));
                }
            }
        }
    }
    requests
}

/// Exports samples once in each epoch.
#[derive(Debug)]
pub struct SampleExportMetric {
    pub output_dir: String,
    pub written_epochs: HashSet<usize>,
    pub name: String,
}

/// A number in decimal with at least four digits.
pub open spec fn four_digits(value: nat) -> Seq<char> {
    if value < 10 {
        "000"@ + decimal(value)
    } else if value < 100 {
        "00"@ + decimal(value)
    } else if value < 1000 {
        "0"@ + decimal(value)
    } else {
        decimal(value)
    }
}

/// The directory for the samples of an epoch.
pub open spec fn epoch_path(output_dir: Seq<char>, epoch: nat) -> Seq<char> {
    path_in(output_dir, "epoch-"@ + four_digits(epoch))
}

impl SampleExportMetric {
    /// Nothing is exported yet.
    pub fn new(output_dir: String) -> (metric: Self)
        ensures
            metric.output_dir@ == output_dir@,
            metric.written_epochs@ == Set::<usize>::empty(),
            metric.name@ == "Sample Export"@,
    {
        SampleExportMetric {
            output_dir,
            written_epochs: HashSet::new(),
            name: "Sample Export".to_owned(),
        }
    }

    /// Takes note of samples in an epoch. They are to be exported, to the directory that
    /// is returned, if there are any and none were exported in that epoch before.
    pub fn update(&mut self, epoch: usize, sample_count: usize) -> (directory: Option<String>)
        ensures
            final(self).output_dir == old(self).output_dir,
            final(self).name == old(self).name,
            sample_count > 0 && !old(self).written_epochs@.contains(epoch) ==> {
                &&& directory matches Some(path)
                &&& path@ == epoch_path(old(self).output_dir@, epoch as nat)
                &&& final(self).written_epochs@ == old(self).written_epochs@.insert(epoch)
            },
            sample_count == 0 || old(self).written_epochs@.contains(epoch) ==> {
                &&& directory is None
                &&& final(self).written_epochs@ == old(self).written_epochs@
            },
    {
        if sample_count == 0 {
            return None;
        }
        let fresh: bool = self.written_epochs.insert(epoch);
        if !fresh {
            proof {
                assert(self.written_epochs@ =~= old(self).written_epochs@);
            }
            return None;
        }
        let mut name: String = "epoch-".to_owned();
        if epoch < 10 {
            name.append("000");
        } else if epoch < 100 {
            name.append("00");
        } else if epoch < 1000 {
            name.append("0");
        }
        push_decimal(&mut name, epoch);
        proof {
            assert(name@ =~= "epoch-"@ + four_digits(epoch as nat));
        }
        Some(join_path(self.output_dir.as_str(), name.as_str()))
    }

    /// The file for a sample of an epoch.
    pub fn sample_path(epoch_dir: &str, filename: &str) -> (path: String)
        ensures
            path@ == path_in(epoch_dir@, filename@ + ".png"@),
    {
        let mut name: String = filename.to_owned();
        name.append(".png");
        join_path(epoch_dir, name.as_str())
    }
}

/// Samples of different kinds have different names, as long as their noise levels
/// start with a digit.
pub proof fn law_sample_names_differ(
    kind: SampleNoiseKind,
    level: Seq<char>,
    other_kind: SampleNoiseKind,
    other_level: Seq<char>,
)
    requires
        kind != other_kind,
        level.len() > 0,
        other_level.len() > 0,
        '0' <= level[0] && level[0] <= '9',
        '0' <= other_level[0] && other_level[0] <= '9',
    ensures
        kind_prefix(kind) + without_dots(level) != kind_prefix(other_kind) + without_dots(
            other_level,
        ),
{
    reveal_strlit("");
    reveal_strlit("band-");
    reveal_strlit("rectangle-");
    reveal_strlit("region-line-clean-");
    let name = kind_prefix(kind) + without_dots(level);
    let other_name = kind_prefix(other_kind) + without_dots(other_level);
    assert(without_dots(level)[0] == level[0]);
    assert(without_dots(other_level)[0] == other_level[0]);
    assert(name[0] == match kind {
        SampleNoiseKind::Full => level[0],
        SampleNoiseKind::Band => 'b',
        _ => 'r',
    });
    assert(other_name[0] == match other_kind {
        SampleNoiseKind::Full => other_level[0],
        SampleNoiseKind::Band => 'b',
        _ => 'r',
    });
    if kind == SampleNoiseKind::Rectangle {
        assert(name[2] == 'c');
    }
    if kind == SampleNoiseKind::RegionLineClean {
        assert(name[2] == 'g');
    }
    if other_kind == SampleNoiseKind::Rectangle {
        assert(other_name[2] == 'c');
    }
    if other_kind == SampleNoiseKind::RegionLineClean {
        assert(other_name[2] == 'g');
    }
}

/// Without steps a sample still goes from all of its noise to none, at once; with steps it
/// takes as many as any other.
pub proof fn law_no_steps_are_one_step(start_noise_level: u32, denoising_steps: usize)
    ensures
        denoising_steps > 0 ==> sample_schedule_for(start_noise_level, denoising_steps)
            == schedule_for(start_noise_level, denoising_steps),
        !single_at_most_zero(start_noise_level) ==> sample_schedule_for(start_noise_level, 0)
            == schedule_for(start_noise_level, 1),
        single_at_most_zero(start_noise_level) ==> sample_schedule_for(start_noise_level, 0)
            == schedule_for(start_noise_level, 0),
{
    assert(sample_schedule_for(start_noise_level, 0) =~= sample_schedule_for(
        start_noise_level,
        1,
    ) || single_at_most_zero(start_noise_level));
}

/// Dots in a noise level become underscores, and nothing else changes.
pub proof fn law_only_dots_are_replaced(text: Seq<char>, place: int)
    requires
        0 <= place < text.len(),
    ensures
        without_dots(text).len() == text.len(),
        text[place] == '.' ==> without_dots(text)[place] == '_',
        text[place] != '.' ==> without_dots(text)[place] == text[place],
{
}

/// Samples are requested level by level, and at each level in full, in a band, in a
/// rectangle and with clean lines, under names that say so.
pub proof fn law_every_kind_is_requested_at_every_level(
    requests: Seq<SampleRequest>,
    levels: Seq<String>,
    level: int,
)
    requires
        requests.len() == 4 * levels.len(),
        forall|number: int|
            0 <= number < requests.len() ==> #[trigger] is_request(
                requests[number],
                levels,
                number,
            ),
        0 <= level < levels.len(),
    ensures
        ({
            let name = without_dots(levels[level]@);
            let full = requests[4 * level];
            let band = requests[4 * level + 1];
            let rectangle = requests[4 * level + 2];
            let lines = requests[4 * level + 3];
            &&& full.level == level && full.kind == SampleNoiseKind::Full && full.filename@ == name
            &&& band.level == level && band.kind == SampleNoiseKind::Band && band.filename@
                == "band-"@ + name
            &&& rectangle.level == level && rectangle.kind == SampleNoiseKind::Rectangle
                && rectangle.filename@ == "rectangle-"@ + name
            &&& lines.level == level && lines.kind == SampleNoiseKind::RegionLineClean
                && lines.filename@ == "region-line-clean-"@ + name
        }),
{
    reveal_strlit("");
    let name = without_dots(levels[level]@);
    assert(is_request(requests[4 * level], levels, 4 * level));
    assert(is_request(requests[4 * level + 1], levels, 4 * level + 1));
    assert(is_request(requests[4 * level + 2], levels, 4 * level + 2));
    assert(is_request(requests[4 * level + 3], levels, 4 * level + 3));
    assert(""@ + name =~= name);
}

/// The number of an epoch has at least four digits, is the decimal number behind any zeros
/// that fill it up, and has no others in front.
pub proof fn law_epochs_have_four_digits(value: nat)
    ensures
        ({
            let text = four_digits(value);
            let number = decimal(value);
            let filled = text.len() - number.len();
            &&& 0 <= filled
            &&& text.len() >= 4
            &&& filled > 0 ==> text.len() == 4
            &&& text.skip(filled) == number
            &&& forall|place: int| 0 <= place < filled ==> #[trigger] text[place] == '0'
        }),
{
    reveal_strlit("000");
    reveal_strlit("00");
    reveal_strlit("0");
    reveal_with_fuel(decimal, 4);
    let text = four_digits(value);
    let number = decimal(value);
    if value >= 1000 {
        law_decimals_read_back(value / 10 / 10 / 10);
        assert(number.len() >= 4);
    }
    assert(text.skip(text.len() - number.len()) =~= number);
}

/// The samples of an epoch are written to a directory of their own below the output
/// directory, which is named by the epoch.
pub proof fn law_epochs_have_their_own_directory(output_dir: Seq<char>, epoch: nat)
    ensures
        final_component(epoch_path(output_dir, epoch)) == Some("epoch-"@ + four_digits(epoch)),
        epoch_path(output_dir, epoch) == path_in(output_dir, "epoch-"@ + four_digits(epoch)),
{
    reveal_strlit("epoch-");
    reveal_strlit("");
    reveal_strlit(".");
    reveal_strlit("..");
    let name = "epoch-"@ + four_digits(epoch);
    law_epochs_have_four_digits(epoch);
    law_decimals_read_back(epoch);
    let digits = four_digits(epoch);
    let filled = digits.len() - decimal(epoch).len();
    if name.contains('/') {
        let place = choose|place: int| 0 <= place < name.len() && name[place] == '/';
        if place >= 6 {
            assert(name[place] == digits[place - 6]);
            if place - 6 >= filled {
                assert(digits.skip(filled)[place - 6 - filled] == decimal(epoch)[place - 6
                    - filled]);
            }
        }
    }
    assert(name.len() > 2);
    law_join_keeps_the_name(output_dir, name);
}

} // verus!
