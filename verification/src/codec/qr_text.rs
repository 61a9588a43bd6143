//! The segments of a QR stream, and which streams can be handed to `rxing` for their text.
//!
//! A stream is a row of segments: four bits for the mode, for most modes a count, and what is counted.
use vstd::prelude::*;
use crate::bits::word_limit;
use crate::codec::qr::{is_version, parse_text, qr_text};

verus! {

/// The bit in a place of a stream, most significant first.
pub open spec fn stream_bit(data: Seq<u8>, i: int) -> int {
    let byte = data[i / 8] as int;
    let place = i % 8;
    if place == 0 {
        byte / 128
    } else if place == 1 {
        (byte / 64) % 2
    } else if place == 2 {
        (byte / 32) % 2
    } else if place == 3 {
        (byte / 16) % 2
    } else if place == 4 {
        (byte / 8) % 2
    } else if place == 5 {
        (byte / 4) % 2
    } else if place == 6 {
        (byte / 2) % 2
    } else {
        byte % 2
    }
}

/// The number that `n` bits of a stream spell.
pub open spec fn stream_number(data: Seq<u8>, pos: int, n: nat) -> int
    decreases n,
{
    if n == 0 {
        0
    } else {
        2 * stream_number(data, pos, (n - 1) as nat) + stream_bit(data, pos + n - 1)
    }
}

/// Bits spell no more than as many bits can.
proof fn lemma_number_limit(data: Seq<u8>, pos: int, n: nat)
    requires
        n <= 16,
    ensures
        0 <= stream_number(data, pos, n) < word_limit(n) <= 0x1_0000,
    decreases n,
{
    reveal_with_fuel(word_limit, 17);
    if n > 0 {
        lemma_number_limit(data, pos, (n - 1) as nat);
    }
}

fn bit_at(data: &[u8], i: usize) -> (r: u32)
    requires
        i < 8 * data@.len(),
    ensures
        r == stream_bit(data@, i as int),
        r <= 1,
{
    let byte: u8 = data[i / 8];
    let place: usize = i % 8;
    let bit: u8 = if place == 0 {
        byte / 128
    } else if place == 1 {
        (byte / 64) % 2
    } else if place == 2 {
        (byte / 32) % 2
    } else if place == 3 {
        (byte / 16) % 2
    } else if place == 4 {
        (byte / 8) % 2
    } else if place == 5 {
        (byte / 4) % 2
    } else if place == 6 {
        (byte / 2) % 2
    } else {
        byte % 2
    };
    bit as u32
}

fn number_at(data: &[u8], pos: usize, n: usize) -> (r: u32)
    requires
        n <= 16,
        pos + n <= 8 * data@.len(),
        8 * data@.len() <= usize::MAX,
    ensures
        r == stream_number(data@, pos as int, n as nat),
        r < 0x1_0000,
{
    let mut r: u32 = 0;
    let mut k: usize = 0;
    while k < n
        invariant
            k <= n <= 16,
            pos + n <= 8 * data@.len(),
            8 * data@.len() <= usize::MAX,
            r == stream_number(data@, pos as int, k as nat),
            r < 0x1_0000,
        decreases n - k,
    {
        r = 2 * r + bit_at(data, pos + k);
        k = k + 1;
        proof {
            lemma_number_limit(data@, pos as int, k as nat);
        }
    }
    r
}

/// What the modes are called in a stream.
pub const NUMERIC: u32 = 1;

pub const ALPHANUMERIC: u32 = 2;

pub const STRUCTURED_APPEND: u32 = 3;

pub const BYTE: u32 = 4;

pub const FNC1_FIRST: u32 = 5;

pub const ECI: u32 = 7;

pub const KANJI: u32 = 8;

pub const FNC1_SECOND: u32 = 9;

pub const HANZI: u32 = 13;

/// How many bits the count of a mode takes: it grows with the version, in three steps.
pub open spec fn count_bits(mode: int, version: int) -> nat {
    let step = if version <= 9 {
        0int
    } else if version <= 26 {
        1
    } else {
        2
    };
    if mode == NUMERIC {
        (10 + 2 * step) as nat
    } else if mode == ALPHANUMERIC {
        (9 + 2 * step) as nat
    } else if mode == BYTE {
        if step == 0 {
            8
        } else {
            16
        }
    } else {
        (8 + 2 * step) as nat
    }
}

fn bits_of_count(mode: u32, version: u32) -> (r: usize)
    ensures
        r == count_bits(mode as int, version as int),
        8 <= r <= 16,
{
    let step: usize = if version <= 9 {
        0
    } else if version <= 26 {
        1
    } else {
        2
    };
    if mode == NUMERIC {
        10 + 2 * step
    } else if mode == ALPHANUMERIC {
        9 + 2 * step
    } else if mode == BYTE {
        if step == 0 {
            8
        } else {
            16
        }
    } else {
        8 + 2 * step
    }
}

/// How many bits a count of characters takes in a mode.
pub open spec fn content_bits(mode: int, count: int) -> int {
    if mode == NUMERIC {
        10 * (count / 3) + if count % 3 == 2 {
            7int
        } else if count % 3 == 1 {
            4
        } else {
            0
        }
    } else if mode == ALPHANUMERIC {
        11 * (count / 2) + 6 * (count % 2)
    } else if mode == BYTE {
        8 * count
    } else {
        13 * count
    }
}

fn bits_of_content(mode: u32, count: usize) -> (r: usize)
    requires
        count < 0x1_0000,
    ensures
        r == content_bits(mode as int, count as int),
        r < 0x10_0000,
{
    if mode == NUMERIC {
        10 * (count / 3) + if count % 3 == 2 {
            7
        } else if count % 3 == 1 {
            4
        } else {
            0
        }
    } else if mode == ALPHANUMERIC {
        11 * (count / 2) + 6 * (count % 2)
    } else if mode == BYTE {
        8 * count
    } else {
        13 * count
    }
}

/// A segment of a stream.
#[derive(Clone, Copy, Debug, PartialEq, Eq, Structural)]
pub struct Segment {
    pub mode: u32,
    /// How many characters it holds; none where the mode counts nothing.
    pub count: usize,
    /// The place of the first bit behind the count.
    pub start: usize,
    /// The place of the first bit behind the segment.
    pub end: usize,
}

/// The segment that starts in a place of a stream; none where the stream ends there, or says nothing that
/// can be read.
pub open spec fn segment_at(data: Seq<u8>, version: int, pos: int) -> Option<(int, int, int, int)> {
    let total = 8 * data.len();
    let mode = stream_number(data, pos, 4);
    let start = pos + 4;
    if total - pos < 4 {
        None
    } else if mode == FNC1_FIRST || mode == FNC1_SECOND {
        Some((mode, 0, start, start))
    } else if mode == STRUCTURED_APPEND {
        if total - start < 16 {
            None
        } else {
            Some((mode, 0, start, start + 16))
        }
    } else if mode == ECI {
        let first = stream_number(data, start, 8);
        let long = if first < 128 {
            8int
        } else if first < 192 {
            16
        } else {
            24
        };
        if total - start < 8 || first >= 224 || total - start < long {
            None
        } else {
            Some((mode, 0, start, start + long))
        }
    } else if mode == NUMERIC || mode == ALPHANUMERIC || mode == BYTE || mode == KANJI || mode
        == HANZI {
        let at = if mode == HANZI {
            start + 4
        } else {
            start
        };
        let long = count_bits(mode, version);
        let count = stream_number(data, at, long);
        let content = at + long;
        if total - at < long {
            None
        } else if mode == HANZI && stream_number(data, start, 4) != 1 {
            Some((mode, 0, content, content))
        } else if total - content < content_bits(mode, count) {
            None
        } else {
            Some((mode, count, content, content + content_bits(mode, count)))
        }
    } else {
        None
    }
}

/// Reads the segment that starts in a place of a stream.
pub fn next_segment(data: &[u8], version: u32, pos: usize) -> (r: Option<Segment>)
    requires
        pos <= 8 * data@.len(),
        data@.len() <= LONGEST_STREAM,
    ensures
        match segment_at(data@, version as int, pos as int) {
            Some((mode, count, start, end)) => r is Some && r->0.mode == mode && r->0.count == count
                && r->0.start == start && r->0.end == end,
            None => r is None,
        },
        r is Some ==> pos < r->0.start <= r->0.end <= 8 * data@.len(),
        r is Some ==> r->0.count < 0x1_0000,
        r is Some && r->0.mode == ALPHANUMERIC ==> r->0.start + content_bits(
            ALPHANUMERIC as int,
            r->0.count as int,
        ) == r->0.end,
{
    proof {
        assert(data@.len() == data.len());
    }
    let total: usize = 8 * data.len();
    if total - pos < 4 {
        return None;
    }
    let mode: u32 = number_at(data, pos, 4);
    let start: usize = pos + 4;
    if mode == FNC1_FIRST || mode == FNC1_SECOND {
        return Some(Segment { mode, count: 0, start, end: start });
    }
    if mode == STRUCTURED_APPEND {
        if total - start < 16 {
            return None;
        }
        return Some(Segment { mode, count: 0, start, end: start + 16 });
    }
    if mode == ECI {
        if total - start < 8 {
            return None;
        }
        let first: u32 = number_at(data, start, 8);
        let long: usize = if first < 128 {
            8
        } else if first < 192 {
            16
        } else {
            24
        };
        if first >= 224 || total - start < long {
            return None;
        }
        return Some(Segment { mode, count: 0, start, end: start + long });
    }
    if mode == NUMERIC || mode == ALPHANUMERIC || mode == BYTE || mode == KANJI || mode == HANZI {
        let at: usize = if mode == HANZI {
            start + 4
        } else {
            start
        };
        let long: usize = bits_of_count(mode, version);
        if total < at || total - at < long {
            return None;
        }
        let count: usize = number_at(data, at, long) as usize;
        let content: usize = at + long;
        if mode == HANZI && number_at(data, start, 4) != 1 {
            return Some(Segment { mode, count: 0, start: content, end: content });
        }
        let size: usize = bits_of_content(mode, count);
        if total - content < size {
            return None;
        }
        return Some(Segment { mode, count, start: content, end: content + size });
    }
    None
}

/// The number of the percent sign among the alphanumeric characters.
pub const PERCENT: u32 = 38;

/// The number of the character in a place of an alphanumeric segment: two take eleven bits, a last one
/// six.
pub open spec fn alphanumeric(data: Seq<u8>, start: int, count: int, k: int) -> int {
    let pair = start + 11 * (k / 2);
    if k % 2 == 0 && k + 1 == count {
        stream_number(data, pair, 6)
    } else if k % 2 == 0 {
        stream_number(data, pair, 11) / 45
    } else {
        stream_number(data, pair, 11) % 45
    }
}

/// Whether an alphanumeric segment has a percent sign in it.
pub open spec fn has_percent(data: Seq<u8>, start: int, count: int) -> bool {
    exists|k: int| 0 <= k < count && #[trigger] alphanumeric(data, start, count, k) == PERCENT
}

fn find_percent(data: &[u8], start: usize, count: usize) -> (r: bool)
    requires
        count < 0x1_0000,
        start + content_bits(ALPHANUMERIC as int, count as int) <= 8 * data@.len(),
        8 * data@.len() <= usize::MAX,
    ensures
        r == has_percent(data@, start as int, count as int),
{
    let mut k: usize = 0;
    while k < count
        invariant
            k <= count < 0x1_0000,
            start + content_bits(ALPHANUMERIC as int, count as int) <= 8 * data@.len(),
            8 * data@.len() <= usize::MAX,
            forall|j: int|
                0 <= j < k ==> #[trigger] alphanumeric(data@, start as int, count as int, j)
                    != PERCENT,
        decreases count - k,
    {
        assert(k % 2 == 0 && k + 1 == count ==> k / 2 == count / 2 && count % 2 == 1);
        assert(!(k % 2 == 0 && k + 1 == count) ==> k / 2 + 1 <= count / 2);
        let pair: usize = start + 11 * (k / 2);
        let value: u32 = if k % 2 == 0 && k + 1 == count {
            number_at(data, pair, 6)
        } else if k % 2 == 0 {
            number_at(data, pair, 11) / 45
        } else {
            number_at(data, pair, 11) % 45
        };
        assert(value == alphanumeric(data@, start as int, count as int, k as int));
        if value == PERCENT {
            return true;
        }
        k = k + 1;
    }
    false
}

/// Whether the rest of a stream can be handed to the parser, when an FNC1 mode is in effect or not, and
/// nothing was read so far or something was.
///
/// The parser looks at what comes before a percent sign that stands for a separator, and there must be
/// something: under an FNC1 mode, the first characters may not be an alphanumeric segment with a percent
/// sign in it.
pub open spec fn is_parsable_from(
    data: Seq<u8>,
    version: int,
    pos: int,
    fnc1: bool,
    nothing: bool,
) -> bool
    decreases 8 * data.len() - pos,
{
    match segment_at(data, version, pos) {
        None => true,
        Some((mode, count, start, end)) => if mode == ALPHANUMERIC && fnc1 && nothing && has_percent(
            data,
            start,
            count,
        ) {
            false
        } else if pos < end <= 8 * data.len() {
            is_parsable_from(
                data,
                version,
                end,
                fnc1 || mode == FNC1_FIRST || mode == FNC1_SECOND,
                nothing && count == 0,
            )
        } else {
            true
        },
    }
}

/// More bytes than the stream of any symbol has.
pub const LONGEST_STREAM: usize = 0x1_0000;

/// Whether a stream can be handed to the parser.
pub open spec fn is_parsable(data: Seq<u8>, version: int) -> bool {
    data.len() <= LONGEST_STREAM && is_parsable_from(data, version, 0, false, true)
}

fn can_parse(data: &[u8], version: u32) -> (r: bool)
    ensures
        r == is_parsable(data@, version as int),
{
    if data.len() > LONGEST_STREAM {
        return false;
    }
    let mut pos: usize = 0;
    let mut fnc1: bool = false;
    let mut nothing: bool = true;
    loop
        invariant
            data@.len() <= LONGEST_STREAM,
            pos <= 8 * data@.len(),
            is_parsable(data@, version as int) == is_parsable_from(
                data@,
                version as int,
                pos as int,
                fnc1,
                nothing,
            ),
        decreases 8 * data@.len() - pos,
    {
        let segment = match next_segment(data, version, pos) {
            Some(segment) => segment,
            None => {
                return true;
            },
        };
        if segment.mode == ALPHANUMERIC && fnc1 && nothing && find_percent(
            data,
            segment.start,
            segment.count,
        ) {
            return false;
        }
        fnc1 = fnc1 || segment.mode == FNC1_FIRST || segment.mode == FNC1_SECOND;
        nothing = nothing && segment.count == 0;
        pos = segment.end;
    }
}

/// The text of a stream: what the parser reads in it, where it can be handed to the parser.
pub open spec fn qr_message(data: Seq<u8>, version: u32, ec: u8) -> Option<Seq<char>> {
    if is_parsable(data, version as int) {
        qr_text(data, version, ec)
    } else {
        None
    }
}

/// Reads the text of a stream.
pub(crate) fn read_message(data: &[u8], version: u32, ec: u8) -> (r: Option<String>)
    requires
        is_version(version as int),
        ec < 4,
    ensures
        r is Some <==> qr_message(data@, version, ec) is Some,
        r is Some ==> qr_message(data@, version, ec) == Some(r->0@),
{
    if !can_parse(data, version) {
        return None;
    }
    parse_text(data, version, ec)
}

} // verus!
