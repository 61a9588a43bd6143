//! Encoding a rebuilt symbol for saving, and the four-colour comparison view.
use vstd::prelude::*;
use vstd::string::*;
use crate::clean::qr::{invert, negative};
use crate::codec::picture::{encode_png, png_of_gray};
use crate::render::exact::{
    as_luma, is_drawable, law_modules_are_drawn_where_they_stand, side, Reconstructed,
};
use crate::text::{decimal, law_padding_only_leads_with_zeros, padded, spelled, write_padded};
use crate::Symbology;

verus! {

/// How a module in the rebuild relates to what the camera actually saw.
#[derive(Clone, Copy, Debug, PartialEq, Eq, Structural)]
pub enum ModuleVerdict {
    /// Matched the scan, and is light.
    MatchedLight,
    /// Matched the scan, and is dark.
    MatchedDark,
    /// Recovered (the scan disagreed), and the true value is light.
    RecoveredLight,
    /// Recovered, and the true value is dark.
    RecoveredDark,
    /// No comparison was possible: shown as the plain symbol, light module.
    PlainLight,
    /// No comparison was possible: plain symbol, dark module.
    PlainDark,
}

impl ModuleVerdict {
    pub fn recovered(self) -> (r: bool)
        ensures
            r <==> self == ModuleVerdict::RecoveredLight || self == ModuleVerdict::RecoveredDark,
    {
        matches!(self, ModuleVerdict::RecoveredLight | ModuleVerdict::RecoveredDark)
    }

    /// Whether this verdict carries a comparison at all.
    pub fn compared(self) -> (r: bool)
        ensures
            r <==> self != ModuleVerdict::PlainLight && self != ModuleVerdict::PlainDark,
    {
        !matches!(self, ModuleVerdict::PlainLight | ModuleVerdict::PlainDark)
    }

    /// Green and blue for modules the scan had right, yellow and red for recovered ones, white and
    /// black where nothing was compared; of each pair the first for a light module.
    pub open spec fn spec_rgb(self) -> (u8, u8, u8) {
        match self {
            ModuleVerdict::MatchedLight => (0, 255, 0),
            ModuleVerdict::MatchedDark => (0, 0, 255),
            ModuleVerdict::RecoveredLight => (255, 255, 0),
            ModuleVerdict::RecoveredDark => (255, 0, 0),
            ModuleVerdict::PlainLight => (255, 255, 255),
            ModuleVerdict::PlainDark => (0, 0, 0),
        }
    }

    /// Display colour as `(r, g, b)`.
    pub fn rgb(self) -> (r: (u8, u8, u8))
        ensures
            r == self.spec_rgb(),
            self == ModuleVerdict::MatchedLight ==> r == (0u8, 255u8, 0u8),
            self == ModuleVerdict::MatchedDark ==> r == (0u8, 0u8, 255u8),
            self == ModuleVerdict::RecoveredLight ==> r == (255u8, 255u8, 0u8),
            self == ModuleVerdict::RecoveredDark ==> r == (255u8, 0u8, 0u8),
            self == ModuleVerdict::PlainLight ==> r == (255u8, 255u8, 255u8),
            self == ModuleVerdict::PlainDark ==> r == (0u8, 0u8, 0u8),
    {
        match self {
            ModuleVerdict::MatchedLight => (0, 255, 0),
            ModuleVerdict::MatchedDark => (0, 0, 255),
            ModuleVerdict::RecoveredLight => (255, 255, 0),
            ModuleVerdict::RecoveredDark => (255, 0, 0),
            ModuleVerdict::PlainLight => (255, 255, 255),
            ModuleVerdict::PlainDark => (0, 0, 0),
        }
    }
}

/// The verdict on a module that truly is `truth` and was seen as `seen`.
pub open spec fn verdict_of(truth: bool, seen: bool) -> ModuleVerdict {
    if truth == seen {
        if truth {
            ModuleVerdict::MatchedDark
        } else {
            ModuleVerdict::MatchedLight
        }
    } else {
        if truth {
            ModuleVerdict::RecoveredDark
        } else {
            ModuleVerdict::RecoveredLight
        }
    }
}

/// Whether a verdict tells what a module truly is and whether it was seen so: it is one of the four compared
/// ones, recovered exactly when truth and sight differ, and dark exactly when the truth is.
pub open spec fn tells(truth: bool, seen: bool, verdict: ModuleVerdict) -> bool {
    &&& verdict != ModuleVerdict::PlainLight && verdict != ModuleVerdict::PlainDark
    &&& truth != seen <==> verdict == ModuleVerdict::RecoveredLight || verdict
        == ModuleVerdict::RecoveredDark
    &&& truth <==> verdict == ModuleVerdict::MatchedDark || verdict == ModuleVerdict::RecoveredDark
}

/// A verdict tells whether the scan was right, and what is.
pub proof fn law_verdicts_tell_what_was_seen(truth: bool, seen: bool)
    ensures
        tells(truth, seen, verdict_of(truth, seen)),
        verdict_of(truth, seen) == ModuleVerdict::MatchedDark ==> truth && seen,
        verdict_of(truth, seen) == ModuleVerdict::MatchedLight ==> !truth && !seen,
        verdict_of(truth, seen) == ModuleVerdict::RecoveredDark ==> truth && !seen,
        verdict_of(truth, seen) == ModuleVerdict::RecoveredLight ==> !truth && seen,
{
}

/// The comparison can be read off the colours. Where something was compared, red is full exactly for what
/// was recovered: green and blue is what the scan had right, yellow and red what it had not, and of each
/// pair the first is light. Where nothing was compared there is white for light and black for dark. No two
/// verdicts share a colour.
pub proof fn law_recovered_modules_show_red(verdict: ModuleVerdict, other: ModuleVerdict)
    ensures
        verdict.spec_rgb() == other.spec_rgb() ==> verdict == other,
        verdict == ModuleVerdict::MatchedLight <==> verdict.spec_rgb() == (0u8, 255u8, 0u8),
        verdict == ModuleVerdict::MatchedDark <==> verdict.spec_rgb() == (0u8, 0u8, 255u8),
        verdict == ModuleVerdict::RecoveredLight <==> verdict.spec_rgb() == (255u8, 255u8, 0u8),
        verdict == ModuleVerdict::RecoveredDark <==> verdict.spec_rgb() == (255u8, 0u8, 0u8),
        verdict == ModuleVerdict::PlainLight <==> verdict.spec_rgb() == (255u8, 255u8, 255u8),
        verdict == ModuleVerdict::PlainDark <==> verdict.spec_rgb() == (0u8, 0u8, 0u8),
        verdict != ModuleVerdict::PlainLight && verdict != ModuleVerdict::PlainDark ==> (
        verdict.spec_rgb().0 == 255 <==> verdict == ModuleVerdict::RecoveredLight || verdict
            == ModuleVerdict::RecoveredDark),
{
}

/// Compares a rebuild against the modules the camera sampled.
///
/// Returns `None` if the two are not the same size, which would make any comparison meaningless.
pub fn compare(rebuilt: &Reconstructed, sampled: &[bool]) -> (r: Option<Vec<ModuleVerdict>>)
    ensures
        r is Some <==> sampled@.len() == rebuilt@.len(),
        r is Some ==> r->0@ == Seq::new(
            rebuilt@.len(),
            |i: int| verdict_of(rebuilt@[i], sampled@[i]),
        ),
        r is Some ==> forall|i: int|
            0 <= i < rebuilt@.len() ==> tells(rebuilt@[i], sampled@[i], #[trigger] r->0@[i]),
{
    if sampled.len() != rebuilt.modules.len() {
        return None;
    }
    let mut out: Vec<ModuleVerdict> = Vec::with_capacity(sampled.len());
    for i in 0..sampled.len()
        invariant
            sampled@.len() == rebuilt@.len(),
            out@.len() == i,
            forall|k: int|
                0 <= k < i ==> #[trigger] out@[k] == verdict_of(rebuilt@[k], sampled@[k]),
    {
        let truth: bool = rebuilt.modules[i];
        let verdict = match (truth == sampled[i], truth) {
            (true, false) => ModuleVerdict::MatchedLight,
            (true, true) => ModuleVerdict::MatchedDark,
            (false, false) => ModuleVerdict::RecoveredLight,
            (false, true) => ModuleVerdict::RecoveredDark,
        };
        out.push(verdict);
    }
    assert forall|i: int| 0 <= i < rebuilt@.len() implies tells(
        rebuilt@[i],
        sampled@[i],
        #[trigger] out@[i],
    ) by {
        law_verdicts_tell_what_was_seen(rebuilt@[i], sampled@[i]);
    }
    assert(out@ =~= Seq::new(rebuilt@.len(), |i: int| verdict_of(rebuilt@[i], sampled@[i])));
    Some(out)
}

/// The quiet zone of a symbology, in modules.
pub open spec fn quiet_zone_of(symbology: Symbology) -> int {
    match symbology {
        Symbology::QrCode => 4,
        Symbology::Aztec => 4,
        Symbology::DataMatrix => 1,
        Symbology::Pdf417 => 2,
    }
}

/// The quiet zone a symbology requires, in modules.
///
/// A detector locates a symbol by finding its finder patterns against clear surroundings; exported
/// flush to its edge a symbol would be harder to scan than the damaged original.
pub fn quiet_zone_modules(symbology: Symbology) -> (r: usize)
    ensures
        r == quiet_zone_of(symbology),
        symbology == Symbology::QrCode || symbology == Symbology::Aztec ==> r == 4,
        symbology == Symbology::Pdf417 ==> r == 2,
        symbology == Symbology::DataMatrix ==> r == 1,
{
    match symbology {
        Symbology::QrCode => 4,
        Symbology::Aztec => 4,
        Symbology::DataMatrix => 1,
        Symbology::Pdf417 => 2,
    }
}

/// At least one pixel per module.
pub open spec fn at_least_one(scale: int) -> int {
    if scale >= 1 {
        scale
    } else {
        1
    }
}

/// The pixels of an exported symbol: black on white, or white on black when the source was.
pub open spec fn exported_luma(
    rebuilt: Reconstructed,
    symbology: Symbology,
    scale: int,
    inverted: bool,
) -> Seq<u8> {
    let plain = as_luma(
        rebuilt@,
        rebuilt.dimension as int,
        rebuilt.height as int,
        at_least_one(scale),
        quiet_zone_of(symbology),
    );
    if inverted {
        negative(plain)
    } else {
        plain
    }
}

/// Encodes a rebuilt symbol as a black-and-white PNG.
///
/// Every pixel is 0 or 255. `scale` is pixels per module. The polarity of the source is kept: a code
/// printed light-on-dark is restored light-on-dark.
pub fn to_png(rebuilt: &Reconstructed, symbology: Symbology, scale: usize, inverted: bool) -> (r:
    Result<Vec<u8>, String>)
    requires
        rebuilt.wf(),
        is_drawable(
            rebuilt.dimension as int,
            rebuilt.height as int,
            at_least_one(scale as int),
            quiet_zone_of(symbology),
            u32::MAX as int,
        ),
    ensures
        ({
            let file = png_of_gray(
                exported_luma(*rebuilt, symbology, scale as int, inverted),
                side(
                    rebuilt.dimension as int,
                    at_least_one(scale as int),
                    quiet_zone_of(symbology),
                ) as u32,
                side(
                    rebuilt.height as int,
                    at_least_one(scale as int),
                    quiet_zone_of(symbology),
                ) as u32,
            );
            match r {
                Ok(bytes) => file == Ok::<Seq<u8>, Seq<char>>(bytes@),
                Err(why) => file == Err::<Seq<u8>, Seq<char>>(why@),
            }
        }),
{
    let quiet: usize = quiet_zone_modules(symbology);
    let scale: usize = if scale >= 1 { scale } else { 1 };
    let (plain, w, h) = rebuilt.to_luma(scale, quiet);
    let luma = if inverted { invert(plain.as_slice()) } else { plain };
    encode_png(luma, w as u32, h as u32)
}

/// Every pixel of an export is black or white, and the inverted export is the exact negative.
pub proof fn law_exports_are_two_valued(
    rebuilt: Reconstructed,
    symbology: Symbology,
    scale: int,
    inverted: bool,
    i: int,
)
    requires
        0 <= i < exported_luma(rebuilt, symbology, scale, inverted).len(),
    ensures
        exported_luma(rebuilt, symbology, scale, inverted)[i] == 0 || exported_luma(
            rebuilt,
            symbology,
            scale,
            inverted,
        )[i] == 255,
        exported_luma(rebuilt, symbology, scale, true)[i] == 255 - exported_luma(
            rebuilt,
            symbology,
            scale,
            false,
        )[i],
{
}

/// A year in four places, the sign taking one of them.
pub open spec fn year_text(year: int) -> Seq<char> {
    if year < 0 {
        "-"@ + padded((-year) as nat, 3)
    } else {
        padded(year as nat, 4)
    }
}

/// Filename for a save, in the format `2016-08-10 14:33:48.png`.
///
/// Takes the parts rather than reading a clock: the phone knows what local time is, this does not.
pub fn timestamped_name(year: i32, month: u32, day: u32, hour: u32, minute: u32, second: u32) -> (r:
    String)
    ensures
        r@ == year_text(year as int) + "-"@ + padded(month as nat, 2) + "-"@ + padded(day as nat, 2)
            + " "@ + padded(hour as nat, 2) + ":"@ + padded(minute as nat, 2) + ":"@ + padded(
            second as nat,
            2,
        ) + ".png"@,
        0 <= year <= 9999 && month <= 99 && day <= 99 && hour <= 99 && minute <= 99 && second <= 99
            ==> names_moment(
            r@,
            year as int,
            month as int,
            day as int,
            hour as int,
            minute as int,
            second as int,
        ),
{
    let mut out: String = String::new();
    if year < 0 {
        out.append("-");
        write_padded(&mut out, (-(year as i64)) as u64, 3);
        assert(out@ =~= year_text(year as int));
    } else {
        write_padded(&mut out, year as u64, 4);
        assert(out@ =~= year_text(year as int));
    }
    out.append("-");
    write_padded(&mut out, month as u64, 2);
    out.append("-");
    write_padded(&mut out, day as u64, 2);
    out.append(" ");
    write_padded(&mut out, hour as u64, 2);
    out.append(":");
    write_padded(&mut out, minute as u64, 2);
    out.append(":");
    write_padded(&mut out, second as u64, 2);
    out.append(".png");
    proof {
        if 0 <= year <= 9999 && month <= 99 && day <= 99 && hour <= 99 && minute <= 99 && second
            <= 99 {
            lemma_parts_name_the_moment(
                year as nat,
                month as nat,
                day as nat,
                hour as nat,
                minute as nat,
                second as nat,
            );
        }
    }
    out
}

/// Exports show every module as a square of one tone, the light ones and what is around them in the
/// other: black for the dark modules of a plain export, white for those of an inverted one.
pub proof fn law_exports_show_every_module(
    rebuilt: Reconstructed,
    symbology: Symbology,
    scale: int,
    mx: int,
    my: int,
    dx: int,
    dy: int,
)
    requires
        rebuilt.wf(),
        scale >= 1,
        0 <= mx < rebuilt.dimension,
        0 <= my < rebuilt.height,
        0 <= dx < scale,
        0 <= dy < scale,
    ensures
        ({
            let quiet: int = match symbology {
                Symbology::QrCode => 4,
                Symbology::Aztec => 4,
                Symbology::DataMatrix => 1,
                Symbology::Pdf417 => 2,
            };
            let across = (quiet + rebuilt.dimension + quiet) * scale;
            let at = ((quiet + my) * scale + dy) * across + ((quiet + mx) * scale + dx);
            let dark = rebuilt@[my * rebuilt.dimension + mx];
            let plain = exported_luma(rebuilt, symbology, scale, false);
            let inverted = exported_luma(rebuilt, symbology, scale, true);
            &&& plain.len() == inverted.len() == across * ((quiet + rebuilt.height + quiet) * scale)
            &&& dark ==> plain[at] == 0 && inverted[at] == 255
            &&& !dark ==> plain[at] == 255 && inverted[at] == 0
        }),
{
    law_modules_are_drawn_where_they_stand(
        rebuilt@,
        rebuilt.dimension as int,
        rebuilt.height as int,
        scale,
        quiet_zone_of(symbology),
        mx,
        my,
        dx,
        dy,
    );
}

/// A scale under one pixel per module exports as one pixel per module does.
pub proof fn law_exports_have_a_pixel_for_every_module(
    rebuilt: Reconstructed,
    symbology: Symbology,
    scale: int,
    inverted: bool,
)
    requires
        scale <= 1,
    ensures
        exported_luma(rebuilt, symbology, scale, inverted) == exported_luma(
            rebuilt,
            symbology,
            1,
            inverted,
        ),
{
}

/// Whether a name is that of a moment: the year in four digits, the other parts in two, each in its
/// place and with its mark between.
pub open spec fn names_moment(
    name: Seq<char>,
    year: int,
    month: int,
    day: int,
    hour: int,
    minute: int,
    second: int,
) -> bool {
    &&& name.len() == 23
    &&& spelled(name.subrange(0, 4)) == year
    &&& spelled(name.subrange(5, 7)) == month
    &&& spelled(name.subrange(8, 10)) == day
    &&& spelled(name.subrange(11, 13)) == hour
    &&& spelled(name.subrange(14, 16)) == minute
    &&& spelled(name.subrange(17, 19)) == second
    &&& name[4] == '-' && name[7] == '-' && name[10] == ' ' && name[13] == ':' && name[16] == ':'
    &&& name.subrange(19, 23) == seq!['.', 'p', 'n', 'g']
}

/// The name that the parts of a moment make up, one after the other, is that of the moment.
proof fn lemma_parts_name_the_moment(
    year: nat,
    month: nat,
    day: nat,
    hour: nat,
    minute: nat,
    second: nat,
)
    requires
        year <= 9999,
        month <= 99,
        day <= 99,
        hour <= 99,
        minute <= 99,
        second <= 99,
    ensures
        names_moment(
            padded(year, 4) + "-"@ + padded(month, 2) + "-"@ + padded(day, 2) + " "@ + padded(
                hour,
                2,
            ) + ":"@ + padded(minute, 2) + ":"@ + padded(second, 2) + ".png"@,
            year as int,
            month as int,
            day as int,
            hour as int,
            minute as int,
            second as int,
        ),
{
    reveal_strlit("-");
    reveal_strlit(" ");
    reveal_strlit(":");
    reveal_strlit(".png");
    lemma_width(year, 4);
    lemma_width(month, 2);
    lemma_width(day, 2);
    lemma_width(hour, 2);
    lemma_width(minute, 2);
    lemma_width(second, 2);
    let name = padded(year, 4) + "-"@ + padded(month, 2) + "-"@ + padded(day, 2) + " "@ + padded(
        hour,
        2,
    ) + ":"@ + padded(minute, 2) + ":"@ + padded(second, 2) + ".png"@;
    assert(name.subrange(0, 4) =~= padded(year, 4));
    assert(name.subrange(5, 7) =~= padded(month, 2));
    assert(name.subrange(8, 10) =~= padded(day, 2));
    assert(name.subrange(11, 13) =~= padded(hour, 2));
    assert(name.subrange(14, 16) =~= padded(minute, 2));
    assert(name.subrange(17, 19) =~= padded(second, 2));
    assert(name.subrange(19, 23) =~= seq!['.', 'p', 'n', 'g']);
}

/// Two digits hold what is under a hundred, four what is under ten thousand.
proof fn lemma_width(n: nat, width: nat)
    requires
        width == 2 && n <= 99 || width == 4 && n <= 9999,
    ensures
        padded(n, width).len() == width,
        spelled(padded(n, width)) == n,
{
    law_padding_only_leads_with_zeros(n, width);
    reveal_with_fuel(decimal, 5);
}

} // verus!
