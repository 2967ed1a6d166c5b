//! The text of the filter graph that trims the kept clips out of the source
//! and joins them.

use crate::timeline::clip::Clip;
use vstd::prelude::*;
use vstd::string::StringExecFns;

verus! {

/// The decimal digit `digit` as text.
pub open spec fn digit_text(digit: int) -> Seq<char> {
    if digit == 0 {
        "0"@
    } else if digit == 1 {
        "1"@
    } else if digit == 2 {
        "2"@
    } else if digit == 3 {
        "3"@
    } else if digit == 4 {
        "4"@
    } else if digit == 5 {
        "5"@
    } else if digit == 6 {
        "6"@
    } else if digit == 7 {
        "7"@
    } else if digit == 8 {
        "8"@
    } else {
        "9"@
    }
}

/// `value` in decimal digits, without leading zeros.
pub open spec fn decimal_text(value: nat) -> Seq<char>
    decreases value,
{
    if value < 10 {
        digit_text(value as int)
    } else {
        decimal_text(value / 10) + digit_text((value % 10) as int)
    }
}

/// The last `width` decimal digits of `value`, with leading zeros.
pub open spec fn padded_text(value: nat, width: nat) -> Seq<char>
    decreases width,
{
    if width == 0 {
        Seq::empty()
    } else {
        padded_text(value / 10, (width - 1) as nat) + digit_text((value % 10) as int)
    }
}

/// The digits behind the decimal point of a fraction given as `value` parts
/// in ten to the power of `width`: `width` digits, less the zeros at the end.
pub open spec fn fraction_text(value: nat, width: nat) -> Seq<char>
    decreases width,
{
    if width == 0 {
        Seq::empty()
    } else if value % 10 == 0 {
        fraction_text(value / 10, (width - 1) as nat)
    } else {
        padded_text(value, width)
    }
}

/// A time of `micros` microseconds written in seconds: the whole seconds,
/// and behind a point the fraction as far as it is not zero.
pub open spec fn seconds_text(micros: u64) -> Seq<char> {
    if micros % 1_000_000 == 0 {
        decimal_text((micros / 1_000_000) as nat)
    } else {
        decimal_text((micros / 1_000_000) as nat) + "."@ + fraction_text(
            (micros % 1_000_000) as nat,
            6,
        )
    }
}

/// The filter that trims the picture of the clip at `index` out of the source.
pub open spec fn video_trim(clip: Clip, index: nat) -> Seq<char> {
    "[0:v]trim=start="@ + seconds_text(clip.source_start) + ":end="@ + seconds_text(
        clip.source_end,
    ) + ",setpts=PTS-STARTPTS[v"@ + decimal_text(index) + "];"@
}

/// The filter that trims the sound of the clip at `index` out of the source.
pub open spec fn audio_trim(clip: Clip, index: nat) -> Seq<char> {
    "[0:a]atrim=start="@ + seconds_text(clip.source_start) + ":end="@ + seconds_text(
        clip.source_end,
    ) + ",asetpts=PTS-STARTPTS[a"@ + decimal_text(index) + "];"@
}

/// The names of the trimmed picture and sound of the clip at `index`.
pub open spec fn concat_input(index: nat) -> Seq<char> {
    "[v"@ + decimal_text(index) + "][a"@ + decimal_text(index) + "]"@
}

/// The picture filters of the first `count` clips.
pub open spec fn video_trims(clips: Seq<Clip>, count: nat) -> Seq<char>
    decreases count,
{
    if count == 0 {
        Seq::empty()
    } else {
        video_trims(clips, (count - 1) as nat) + video_trim(clips[count - 1], (count - 1) as nat)
    }
}

/// The sound filters of the first `count` clips.
pub open spec fn audio_trims(clips: Seq<Clip>, count: nat) -> Seq<char>
    decreases count,
{
    if count == 0 {
        Seq::empty()
    } else {
        audio_trims(clips, (count - 1) as nat) + audio_trim(clips[count - 1], (count - 1) as nat)
    }
}

/// The names of the trimmed pictures and sounds of the first `count` clips.
pub open spec fn concat_inputs(count: nat) -> Seq<char>
    decreases count,
{
    if count == 0 {
        Seq::empty()
    } else {
        concat_inputs((count - 1) as nat) + concat_input((count - 1) as nat)
    }
}

/// The whole filter graph: a picture filter for each clip, a sound filter for
/// each clip, and the filter that joins them all in order.
pub open spec fn filter_complex(clips: Seq<Clip>) -> Seq<char> {
    video_trims(clips, clips.len()) + audio_trims(clips, clips.len()) + concat_inputs(clips.len())
        + "concat=n="@ + decimal_text(clips.len()) + ":v=1:a=1[outv][outa]"@
}

/// The text of one decimal digit.
fn digit_str(digit: u64) -> (text: &'static str)
    requires
        digit < 10,
    ensures
        text@ == digit_text(digit as int),
{
    if digit == 0 {
        "0"
    } else if digit == 1 {
        "1"
    } else if digit == 2 {
        "2"
    } else if digit == 3 {
        "3"
    } else if digit == 4 {
        "4"
    } else if digit == 5 {
        "5"
    } else if digit == 6 {
        "6"
    } else if digit == 7 {
        "7"
    } else if digit == 8 {
        "8"
    } else {
        "9"
    }
}

/// Writes `value` in decimal digits behind `out`.
fn push_decimal(out: &mut String, value: u64)
    ensures
        final(out)@ == old(out)@ + decimal_text(value as nat),
    decreases value,
{
    if value >= 10 {
        push_decimal(out, value / 10);
    }
    out.append(digit_str(value % 10));
    assert(out@ =~= old(out)@ + decimal_text(value as nat));
}

/// Writes the last `width` digits of `value` behind `out`.
fn push_padded(out: &mut String, value: u64, width: u8)
    ensures
        final(out)@ == old(out)@ + padded_text(value as nat, width as nat),
    decreases width,
{
    if width > 0 {
        push_padded(out, value / 10, width - 1);
        out.append(digit_str(value % 10));
    }
    assert(out@ =~= old(out)@ + padded_text(value as nat, width as nat));
}

/// Writes a fraction of `value` parts in ten to the power of `width` behind
/// `out`, without the zeros at its end.
fn push_fraction(out: &mut String, value: u64, width: u8)
    ensures
        final(out)@ == old(out)@ + fraction_text(value as nat, width as nat),
    decreases width,
{
    if width == 0 {
        assert(out@ =~= old(out)@ + fraction_text(value as nat, width as nat));
    } else if value % 10 == 0 {
        push_fraction(out, value / 10, width - 1);
    } else {
        push_padded(out, value, width);
    }
}

/// Writes a time in seconds behind `out`.
fn push_seconds(out: &mut String, micros: u64)
    ensures
        final(out)@ == old(out)@ + seconds_text(micros),
{
    push_decimal(out, micros / 1_000_000);
    if micros % 1_000_000 != 0 {
        out.append(".");
        push_fraction(out, micros % 1_000_000, 6);
    }
    assert(out@ =~= old(out)@ + seconds_text(micros));
}

/// Writes one trim filter behind `out`: `head`, the clip's start, its end,
/// `middle`, the clip's index, and the closing bracket.
fn push_trim(out: &mut String, head: &str, middle: &str, clip: &Clip, index: usize)
    ensures
        final(out)@ == old(out)@ + (head@ + seconds_text(clip.source_start) + ":end="@
            + seconds_text(clip.source_end) + middle@ + decimal_text(index as nat) + "];"@),
{
    out.append(head);
    push_seconds(out, clip.source_start);
    out.append(":end=");
    push_seconds(out, clip.source_end);
    out.append(middle);
    push_decimal(out, index as u64);
    out.append("];");
    assert(out@ =~= old(out)@ + (head@ + seconds_text(clip.source_start) + ":end="@ + seconds_text(
        clip.source_end,
    ) + middle@ + decimal_text(index as nat) + "];"@));
}

/// Builds the filter graph that trims each of the clips out of the source,
/// picture and sound, and joins them in order. Times are written in seconds.
pub fn build_filter_complex_from_clips(clips: &[Clip]) -> (result: Result<String, String>)
    ensures
        result matches Ok(filter) && filter@ == filter_complex(clips@),
{
    let mut filter = String::new();
    let mut i: usize = 0;
    while i < clips.len()
        invariant
            i <= clips@.len(),
            filter@ == video_trims(clips@, i as nat),
        decreases clips@.len() - i,
    {
        push_trim(&mut filter, "[0:v]trim=start=", ",setpts=PTS-STARTPTS[v", &clips[i], i);
        i += 1;
    }
    let ghost video = filter@;
    i = 0;
    while i < clips.len()
        invariant
            i <= clips@.len(),
            filter@ == video + audio_trims(clips@, i as nat),
        decreases clips@.len() - i,
    {
        push_trim(&mut filter, "[0:a]atrim=start=", ",asetpts=PTS-STARTPTS[a", &clips[i], i);
        assert(filter@ =~= video + audio_trims(clips@, (i + 1) as nat));
        i += 1;
    }
    let ghost trims = filter@;
    i = 0;
    while i < clips.len()
        invariant
            i <= clips@.len(),
            filter@ == trims + concat_inputs(i as nat),
        decreases clips@.len() - i,
    {
        let ghost before = filter@;
        filter.append("[v");
        push_decimal(&mut filter, i as u64);
        filter.append("][a");
        push_decimal(&mut filter, i as u64);
        filter.append("]");
        assert(filter@ =~= before + concat_input(i as nat));
        assert(filter@ =~= trims + concat_inputs((i + 1) as nat));
        i += 1;
    }
    let ghost inputs = filter@;
    filter.append("concat=n=");
    push_decimal(&mut filter, clips.len() as u64);
    filter.append(":v=1:a=1[outv][outa]");
    assert(filter@ =~= filter_complex(clips@));
    Ok(filter)
}

} // verus!
