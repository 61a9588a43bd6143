//! Occlusion-aware cleaning of two-dimensional barcodes.
//!
//! Reed-Solomon corrects `t` errors (unknown position, unknown value) where `2t <= n - k`, and `e`
//! erasures (known position, unknown value) where `e <= n - k`: knowing *where* the damage is doubles
//! what can be repaired. The library finds out where a logo sits, declares the codewords under it
//! erased, and rebuilds the symbol that was there from the corrected codewords.
//!
//! - [`sample`]: what the pixels said about each module, and the occlusion mask drawn from it.
//! - [`clean`]: the correction budget, the Reed-Solomon codes, the bootstrap loop that finds damage by
//!   what survives it, and the restoration of each symbology.
//! - [`render`]: rebuilding symbols from corrected codewords, comparing them with what was sampled,
//!   and exporting them.
//! - [`codec`]: the symbologies as the `rxing` and `image` crates know them, behind contracts.
//! - [`camera`], [`feed`], [`paint`], [`ui`], [`app`]: lenses, frames, pixels, touches and the state of
//!   the application.
//! - [`corpus`]: symbols, occlusions and captures to grade the library on.
//! - [`order`], [`bits`], [`float`], [`text`]: ranking, binary words, numbers held by their bit
//!   patterns, and numerals.
use vstd::prelude::*;

pub mod app;
pub mod bits;
pub mod camera;
pub mod clean;
pub mod codec;
pub mod corpus;
pub mod feed;
pub mod float;
pub mod order;
pub mod paint;
pub mod render;
pub mod sample;
pub mod scan;
pub mod text;
pub mod ui;

verus! {

/// The four symbologies that are cleaned.
#[derive(Clone, Copy, Debug, PartialEq, Eq, Hash, Structural)]
pub enum Symbology {
    QrCode,
    Aztec,
    Pdf417,
    DataMatrix,
}

impl Symbology {
    /// Every symbology, once.
    pub const ALL: [Symbology; 4] = [
        Symbology::QrCode,
        Symbology::Aztec,
        Symbology::Pdf417,
        Symbology::DataMatrix,
    ];

    /// The name shown to people.
    pub open spec fn spec_name(self) -> Seq<char> {
        match self {
            Symbology::QrCode => "QR Code"@,
            Symbology::Aztec => "Aztec"@,
            Symbology::Pdf417 => "PDF417"@,
            Symbology::DataMatrix => "DataMatrix"@,
        }
    }

    pub fn name(self) -> (r: &'static str)
        ensures
            r@ == self.spec_name(),
    {
        match self {
            Symbology::QrCode => "QR Code",
            Symbology::Aztec => "Aztec",
            Symbology::Pdf417 => "PDF417",
            Symbology::DataMatrix => "DataMatrix",
        }
    }

    /// Whether a centre occlusion threatens *detection* rather than merely correction.
    ///
    /// Aztec is the odd one out: its finder **is** the centre bullseye, so a logo over the middle
    /// removes the thing the detector locks onto.
    pub fn centre_occlusion_breaks_detection(self) -> (r: bool)
        ensures
            r <==> self == Symbology::Aztec,
    {
        matches!(self, Symbology::Aztec)
    }
}

/// Every symbology is listed, once, and goes by a name of its own.
pub proof fn law_symbologies_are_told_apart(a: Symbology, b: Symbology)
    ensures
        exists|i: int| 0 <= i < 4 && #[trigger] Symbology::ALL@[i] == a,
        forall|i: int, j: int|
            0 <= i < 4 && 0 <= j < 4 && #[trigger] Symbology::ALL@[i] == #[trigger] Symbology::ALL@[j]
                ==> i == j,
        a != b ==> a.spec_name() != b.spec_name(),
        Symbology::QrCode.spec_name() == seq!['Q', 'R', ' ', 'C', 'o', 'd', 'e'],
        Symbology::Aztec.spec_name() == seq!['A', 'z', 't', 'e', 'c'],
        Symbology::Pdf417.spec_name() == seq!['P', 'D', 'F', '4', '1', '7'],
        Symbology::DataMatrix.spec_name() == seq![
            'D',
            'a',
            't',
            'a',
            'M',
            'a',
            't',
            'r',
            'i',
            'x',
        ],
{
    reveal_strlit("QR Code");
    reveal_strlit("Aztec");
    reveal_strlit("PDF417");
    reveal_strlit("DataMatrix");
    assert(Symbology::QrCode.spec_name() =~= seq!['Q', 'R', ' ', 'C', 'o', 'd', 'e']);
    assert(Symbology::Aztec.spec_name() =~= seq!['A', 'z', 't', 'e', 'c']);
    assert(Symbology::Pdf417.spec_name() =~= seq!['P', 'D', 'F', '4', '1', '7']);
    assert(Symbology::DataMatrix.spec_name() =~= seq![
        'D',
        'a',
        't',
        'a',
        'M',
        'a',
        't',
        'r',
        'i',
        'x',
    ]);
    let (na, nb) = (a.spec_name(), b.spec_name());
    if a != b {
        assert(na.len() != nb.len() || na[0] != nb[0]);
    }
    let all = Symbology::ALL@;
    assert(all[0] == Symbology::QrCode && all[1] == Symbology::Aztec && all[2] == Symbology::Pdf417
        && all[3] == Symbology::DataMatrix);
}

} // verus!
