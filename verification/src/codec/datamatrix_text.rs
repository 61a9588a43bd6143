//! The encodations of a DataMatrix stream, and which streams can be handed to `rxing` for their text.
//!
//! A stream starts in ASCII. A latch leads to another encodation, which comes back to ASCII by itself.
use vstd::prelude::*;
use crate::codec::datamatrix::{dm_text, parse_text};

verus! {

/// How the codewords from a place on are to be read.
#[derive(Clone, Copy, Debug, PartialEq, Eq, Structural)]
pub enum Encodation {
    Ascii,
    /// Three characters in two codewords: C40, Text and ANSI X12.
    Triplets,
    Edifact,
    Base256,
    Eci,
}

/// What a latch codeword leads to; ASCII for every codeword that is none.
pub open spec fn latched(codeword: u8) -> Encodation {
    if codeword == 230 || codeword == 238 || codeword == 239 {
        Encodation::Triplets
    } else if codeword == 231 {
        Encodation::Base256
    } else if codeword == 240 {
        Encodation::Edifact
    } else if codeword == 241 {
        Encodation::Eci
    } else {
        Encodation::Ascii
    }
}

/// Whether a codeword ends a stream in ASCII: padding, and what means nothing.
pub open spec fn is_final(codeword: u8) -> bool {
    codeword == 0 || codeword == 129 || codeword >= 242
}

/// How many codewords a character or a function takes in ASCII: structured append has three more.
pub open spec fn ascii_long(codeword: u8) -> int {
    if codeword == 233 {
        4
    } else {
        1
    }
}

/// After how many of three codewords EDIFACT is left, which is at the end of the codeword that the sign
/// for it ends in; none where it goes on.
pub open spec fn edifact_unlatch(a: u8, b: u8, c: u8) -> Option<int> {
    if a / 4 == 31 {
        Some(1)
    } else if (a % 4) * 16 + b / 16 == 31 {
        Some(2)
    } else if (b % 16) * 4 + c / 64 == 31 || c % 64 == 31 {
        Some(3)
    } else {
        None
    }
}

/// What a codeword of Base 256 stands for in a place, counted from one: the codewords are scrambled by
/// their places.
pub open spec fn unscrambled(codeword: u8, place: int) -> int {
    let by = (149 * place) % 255 + 1;
    if codeword >= by {
        codeword - by
    } else {
        codeword - by + 256
    }
}

/// Where a Base 256 field ends; none where its length is missing.
pub open spec fn base256_end(data: Seq<u8>, pos: int) -> Option<int> {
    let first = unscrambled(data[pos], pos + 1);
    if first == 0 {
        Some(data.len() as int)
    } else if first < 250 {
        Some(pos + 1 + first)
    } else if pos + 1 < data.len() {
        Some(pos + 2 + 250 * (first - 249) + unscrambled(data[pos + 1], pos + 2))
    } else {
        None
    }
}

/// How many codewords there are from a place on.
pub open spec fn left_from(data: Seq<u8>, pos: int) -> int {
    if pos < data.len() {
        data.len() - pos
    } else {
        0
    }
}

/// Whether the rest of a stream can be handed to the parser, when it is to be read in an encodation.
///
/// The parser counts down from what it reads: two codewords of triplets may not both be zero, nor the
/// first codeword of an ECI designator, nor the second of one that has three.
pub open spec fn is_parsable_from(data: Seq<u8>, reading: Encodation, pos: int) -> bool
    decreases left_from(data, pos), if reading == Encodation::Ascii { 0int } else { 1int },
{
    if !(0 <= pos < data.len()) {
        true
    } else {
        match reading {
            Encodation::Ascii => is_final(data[pos]) || is_parsable_from(
                data,
                latched(data[pos]),
                pos + ascii_long(data[pos]),
            ),
            Encodation::Triplets => if pos + 1 == data.len() {
                is_parsable_from(data, Encodation::Ascii, pos)
            } else if data[pos] == 254 {
                is_parsable_from(data, Encodation::Ascii, pos + 1)
            } else {
                !(data[pos] == 0 && data[pos + 1] == 0) && is_parsable_from(
                    data,
                    Encodation::Triplets,
                    pos + 2,
                )
            },
            Encodation::Edifact => if data.len() - pos <= 2 {
                is_parsable_from(data, Encodation::Ascii, pos)
            } else {
                match edifact_unlatch(data[pos], data[pos + 1], data[pos + 2]) {
                    Some(n) => if n > 0 {
                        is_parsable_from(data, Encodation::Ascii, pos + n)
                    } else {
                        true
                    },
                    None => is_parsable_from(data, Encodation::Edifact, pos + 3),
                }
            },
            Encodation::Base256 => match base256_end(data, pos) {
                Some(end) => if end > pos {
                    is_parsable_from(data, Encodation::Ascii, end)
                } else {
                    true
                },
                None => true,
            },
            Encodation::Eci => if data[pos] == 0 {
                false
            } else if data[pos] <= 127 {
                is_parsable_from(data, Encodation::Ascii, pos + 1)
            } else if data[pos] <= 191 {
                is_parsable_from(data, Encodation::Ascii, pos + 2)
            } else if pos + 2 < data.len() && data[pos + 1] == 0 {
                false
            } else {
                is_parsable_from(data, Encodation::Ascii, pos + 3)
            },
        }
    }
}

/// More codewords than any symbol has.
pub const LONGEST_STREAM: usize = 0x1_0000;

/// Whether a stream can be handed to the parser.
pub open spec fn is_parsable(data: Seq<u8>) -> bool {
    data.len() <= LONGEST_STREAM && is_parsable_from(data, Encodation::Ascii, 0)
}

fn unscramble(codeword: u8, place: usize) -> (r: usize)
    requires
        place <= LONGEST_STREAM + 2,
    ensures
        r == unscrambled(codeword, place as int),
        r < 256,
{
    let by: usize = (149 * place) % 255 + 1;
    let codeword: usize = codeword as usize;
    if codeword >= by {
        codeword - by
    } else {
        codeword + 256 - by
    }
}

/// The encodation to go on with and the place to go on at; nothing where the stream ends, or cannot be
/// handed to the parser (`false`).
enum Step {
    On(Encodation, usize),
    End(bool),
}

fn step(data: &[u8], reading: Encodation, pos: usize) -> (r: Step)
    requires
        pos < data@.len() <= LONGEST_STREAM,
    ensures
        match r {
            Step::On(next, at) => is_parsable_from(data@, reading, pos as int) == is_parsable_from(
                data@,
                next,
                at as int,
            ) && (at > pos || at == pos && next == Encodation::Ascii && reading != next),
            Step::End(safe) => is_parsable_from(data@, reading, pos as int) == safe,
        },
{
    let n: usize = data.len();
    let first: u8 = data[pos];
    match reading {
        Encodation::Ascii => {
            if first == 0 || first == 129 || first >= 242 {
                return Step::End(true);
            }
            let next = if first == 230 || first == 238 || first == 239 {
                Encodation::Triplets
            } else if first == 231 {
                Encodation::Base256
            } else if first == 240 {
                Encodation::Edifact
            } else if first == 241 {
                Encodation::Eci
            } else {
                Encodation::Ascii
            };
            Step::On(
                next,
                if first == 233 {
                    pos + 4
                } else {
                    pos + 1
                },
            )
        },
        Encodation::Triplets => {
            if pos + 1 == n {
                return Step::On(Encodation::Ascii, pos);
            }
            if first == 254 {
                return Step::On(Encodation::Ascii, pos + 1);
            }
            if first == 0 && data[pos + 1] == 0 {
                return Step::End(false);
            }
            Step::On(Encodation::Triplets, pos + 2)
        },
        Encodation::Edifact => {
            if n - pos <= 2 {
                return Step::On(Encodation::Ascii, pos);
            }
            let second: u8 = data[pos + 1];
            let third: u8 = data[pos + 2];
            if first / 4 == 31 {
                return Step::On(Encodation::Ascii, pos + 1);
            }
            if (first % 4) * 16 + second / 16 == 31 {
                return Step::On(Encodation::Ascii, pos + 2);
            }
            if (second % 16) * 4 + third / 64 == 31 || third % 64 == 31 {
                return Step::On(Encodation::Ascii, pos + 3);
            }
            Step::On(Encodation::Edifact, pos + 3)
        },
        Encodation::Base256 => {
            let length: usize = unscramble(first, pos + 1);
            if length == 0 {
                return Step::On(Encodation::Ascii, n);
            }
            if length < 250 {
                return Step::On(Encodation::Ascii, pos + 1 + length);
            }
            if pos + 1 >= n {
                return Step::End(true);
            }
            let rest: usize = unscramble(data[pos + 1], pos + 2);
            Step::On(Encodation::Ascii, pos + 2 + 250 * (length - 249) + rest)
        },
        Encodation::Eci => {
            if first == 0 {
                return Step::End(false);
            }
            if first <= 127 {
                return Step::On(Encodation::Ascii, pos + 1);
            }
            if first <= 191 {
                return Step::On(Encodation::Ascii, pos + 2);
            }
            if pos + 2 < n && data[pos + 1] == 0 {
                return Step::End(false);
            }
            Step::On(Encodation::Ascii, pos + 3)
        },
    }
}

fn can_parse(data: &[u8]) -> (r: bool)
    ensures
        r == is_parsable(data@),
{
    if data.len() > LONGEST_STREAM {
        return false;
    }
    let mut reading = Encodation::Ascii;
    let mut pos: usize = 0;
    while pos < data.len()
        invariant
            data@.len() <= LONGEST_STREAM,
            is_parsable(data@) == is_parsable_from(data@, reading, pos as int),
        decreases left_from(data@, pos as int), if reading == Encodation::Ascii { 0int } else { 1int },
    {
        match step(data, reading, pos) {
            Step::On(next, at) => {
                reading = next;
                pos = at;
            },
            Step::End(safe) => {
                return safe;
            },
        }
    }
    true
}

/// The text of a stream: what the parser reads in it, where it can be handed to the parser.
pub open spec fn dm_message(data: Seq<u8>) -> Option<Seq<char>> {
    if is_parsable(data) {
        dm_text(data)
    } else {
        None
    }
}

/// Reads the text of a stream.
pub(crate) fn read_message(data: &[u8]) -> (r: Option<String>)
    ensures
        r is Some <==> dm_message(data@) is Some,
        r is Some ==> dm_message(data@) == Some(r->0@),
{
    if !can_parse(data) {
        return None;
    }
    parse_text(data)
}

} // verus!
