//! Which texts the DataMatrix encoder of `rxing` can be handed.
//!
//! The encoder looks up symbols for as many codewords as it has written so far, and takes back characters at
//! the end of a text. It does not say so where there is no such symbol, or more to take back than it has. So
//! the encoder is followed here without writing anything: how far it is in the text, how many codewords it
//! has written, and what room it counts on.
use vstd::prelude::*;
use vstd::string::*;
use rxing::datamatrix::encoder::high_level_encoder::lookAheadTest;
use rxing::datamatrix::encoder::SymbolInfoLookup;

verus! {

/// The encodations, by their numbers.
pub const ASCII: u32 = 0;

pub const C40: u32 = 1;

pub const TEXT: u32 = 2;

pub const X12: u32 = 3;

pub const EDIFACT: u32 = 4;

pub const BASE256: u32 = 5;

/// The most codewords that a symbol has room for.
pub const MOST_ROOM: usize = 1558;

/// More characters than a symbol holds.
pub const LONGEST_MESSAGE: usize = 8192;

/// The encodation that the encoder holds best from a place of a text on, when it is in another.
pub uninterp spec fn dm_next(text: Seq<char>, pos: nat, encodation: nat) -> nat;

/// Calls `rxing::datamatrix::encoder::high_level_encoder::lookAheadTest`.
///
/// There are six encodations.
#[verifier::external_body]
fn look_ahead(text: &str, pos: u32, encodation: u32) -> (r: u32)
    requires
        pos <= text@.len() <= LONGEST_MESSAGE,
        encodation <= BASE256,
    ensures
        r == dm_next(text@, pos as nat, encodation as nat),
        r <= BASE256,
{
    lookAheadTest(text, pos, encodation) as u32
}

/// The room of the smallest symbol for a number of codewords.
pub uninterp spec fn dm_room(codewords: nat) -> Option<nat>;

/// Calls `rxing::datamatrix::encoder::SymbolInfoLookup::lookup`, and takes how many codewords the symbol
/// has room for.
///
/// There is a symbol for every number up to the most. It has room enough, and no more than the largest.
#[verifier::external_body]
fn room_for(codewords: u32) -> (r: Option<u32>)
    ensures
        r is Some <==> codewords <= MOST_ROOM,
        match r {
            Some(room) => dm_room(codewords as nat) == Some(room as nat) && codewords <= room
                && room <= MOST_ROOM,
            None => dm_room(codewords as nat) is None,
        },
{
    SymbolInfoLookup::new().lookup(codewords).ok()?.map(|symbol| symbol.getDataCapacity())
}

// ---- characters ----
pub open spec fn is_digit(c: char) -> bool {
    '0' <= c <= '9'
}

pub open spec fn is_upper(c: char) -> bool {
    'A' <= c <= 'Z'
}

pub open spec fn is_lower(c: char) -> bool {
    'a' <= c <= 'z'
}

/// How many values an ASCII character takes in C40 or in Text.
pub open spec fn ascii_values(encodation: nat, c: char) -> nat {
    if c == ' ' || is_digit(c) || encodation == C40 && is_upper(c) || encodation != C40 && is_lower(
        c,
    ) {
        1
    } else {
        2
    }
}

/// How many values a character takes in C40 or in Text.
pub open spec fn values_of(encodation: nat, c: char) -> nat {
    if c as u32 <= 127 {
        ascii_values(encodation, c)
    } else {
        2 + ascii_values(encodation, (c as u32 - 128) as char)
    }
}

/// Whether X12 has a character.
pub open spec fn in_x12(c: char) -> bool {
    c == '\r' || c == '*' || c == '>' || c == ' ' || is_digit(c) || is_upper(c)
}

/// Whether EDIFACT has a character.
pub open spec fn in_edifact(c: char) -> bool {
    ' ' <= c <= '^'
}

fn count_values(encodation: u32, c: char) -> (r: usize)
    requires
        c as u32 <= 255,
    ensures
        r == values_of(encodation as nat, c),
        1 <= r <= 4,
{
    let code: u32 = c as u32;
    let (shift, low): (usize, u8) = if code <= 127 {
        (0, code as u8)
    } else {
        (2, (code - 128) as u8)
    };
    let c: char = low as char;
    if c == ' ' || '0' <= c && c <= '9' || encodation == C40 && 'A' <= c && c <= 'Z' || encodation
        != C40 && 'a' <= c && c <= 'z' {
        shift + 1
    } else {
        shift + 2
    }
}

// ---- following the encoder ----
/// Where the encoder is.
pub struct At {
    pub encodation: nat,
    /// The place in the text of the next character.
    pub pos: nat,
    /// How many codewords are written.
    pub written: nat,
    /// The room of the symbol that the encoder counts on, if it has looked one up.
    pub room: Option<nat>,
    /// How many values, or characters, are held back for the next codewords.
    pub held: nat,
}

/// The room that the encoder counts on once it needs room for `n` codewords; none where there is no symbol
/// for as many.
pub open spec fn roomy(room: Option<nat>, n: nat) -> Option<nat> {
    match room {
        Some(room) if n <= room => Some(room),
        _ => dm_room(n),
    }
}

/// One character on, in ASCII: two digits go together, and where another encodation is better the encoder
/// goes there.
pub open spec fn ascii_step(text: Seq<char>, end: nat, at: At) -> Option<At> {
    let c = text[at.pos as int];
    let next = dm_next(text, at.pos, ASCII as nat);
    if at.pos + 1 < end && is_digit(c) && is_digit(text[(at.pos + 1) as int]) {
        Some(At { pos: at.pos + 2, written: at.written + 1, ..at })
    } else if next != ASCII {
        Some(At { encodation: next, written: at.written + 1, ..at })
    } else {
        Some(
            At {
                pos: at.pos + 1,
                written: at.written + if c as u32 > 127 {
                    2nat
                } else {
                    1
                },
                ..at
            },
        )
    }
}

/// Back in ASCII, at the end of what C40 or Text had of a text.
pub open spec fn values_done(end: nat, at: At) -> Option<At> {
    let whole = 2 * (at.held / 3);
    let more = if at.pos < end {
        1nat
    } else {
        0
    };
    match roomy(at.room, at.written + whole) {
        None => None,
        Some(room) => {
            let available = room - (at.written + whole);
            let back = At { encodation: ASCII as nat, room: Some(room), held: 0, ..at };
            if at.held % 3 == 2 {
                Some(At { written: at.written + whole + 2 + more, ..back })
            } else if at.held % 3 == 0 {
                Some(
                    At {
                        written: at.written + whole + if available > 0 || more > 0 {
                            1nat
                        } else {
                            0
                        },
                        ..back
                    },
                )
            } else if available == 1 && at.pos > 0 {
                Some(At { written: at.written + whole + more, pos: (at.pos - 1) as nat, ..back })
            } else {
                None
            }
        },
    }
}

/// A character taken back, of which the encoder thinks that it took `last` values; none where it took more
/// than there are.
pub open spec fn taken_back(at: At, last: nat) -> Option<At> {
    if at.held < last || at.pos == 0 {
        None
    } else {
        Some(At { pos: (at.pos - 1) as nat, room: None, held: (at.held - last) as nat, ..at })
    }
}

/// Characters taken back for as long as one value is left over.
pub open spec fn cut_back(text: Seq<char>, at: At, last: nat, available: int) -> Option<At>
    decreases at.pos,
{
    if at.held % 3 == 1 && (last > 3 || available != 1) {
        match taken_back(at, last) {
            Some(less) if less.pos < at.pos => cut_back(
                text,
                less,
                values_of(at.encodation, text[less.pos as int]),
                available,
            ),
            _ => None,
        }
    } else {
        Some(at)
    }
}

/// Characters taken back at the end of a text, so that no value is left over.
pub open spec fn trimmed(text: Seq<char>, at: At, last: nat, available: int) -> Option<At> {
    if at.held % 3 == 2 && available != 2 {
        match taken_back(at, last) {
            Some(less) => cut_back(
                text,
                less,
                values_of(at.encodation, text[less.pos as int]),
                available,
            ),
            None => None,
        }
    } else {
        cut_back(text, at, last, available)
    }
}

/// One character on, in C40 or Text.
pub open spec fn values_step(text: Seq<char>, end: nat, at: At) -> Option<At> {
    let last = values_of(at.encodation, text[at.pos as int]);
    let held = at.held + last;
    let needed = at.written + 2 * (held / 3);
    match roomy(at.room, needed) {
        None => None,
        Some(room) => {
            let next = At { pos: at.pos + 1, room: Some(room), held, ..at };
            if next.pos >= end {
                match trimmed(text, next, last, room - needed) {
                    Some(less) => values_done(end, less),
                    None => None,
                }
            } else if held % 3 == 0 && dm_next(text, next.pos, at.encodation) != at.encodation {
                values_done(end, next)
            } else {
                Some(next)
            }
        },
    }
}

/// Back in ASCII, at the end of what X12 had of a text.
pub open spec fn x12_done(end: nat, at: At) -> Option<At> {
    match roomy(at.room, at.written) {
        None => None,
        Some(room) => {
            let available = room - at.written;
            let pos = at.pos - at.held;
            let remaining = end - pos;
            if pos < 0 {
                None
            } else {
                Some(
                    At {
                        encodation: ASCII as nat,
                        pos: pos as nat,
                        written: at.written + if remaining > 1 || available > 1 || remaining
                            != available {
                            1nat
                        } else {
                            0
                        },
                        room: Some(room),
                        held: 0,
                    },
                )
            }
        },
    }
}

/// One character on, in X12.
pub open spec fn x12_step(text: Seq<char>, end: nat, at: At) -> Option<At> {
    if !in_x12(text[at.pos as int]) {
        None
    } else {
        let next = At { pos: at.pos + 1, held: at.held + 1, ..at };
        if next.held % 3 == 0 {
            let next = At { written: at.written + 2, held: 0, ..next };
            if dm_next(text, next.pos, X12 as nat) != X12 || next.pos >= end {
                x12_done(end, next)
            } else {
                Some(next)
            }
        } else if next.pos >= end {
            x12_done(end, next)
        } else {
            Some(next)
        }
    }
}

/// Back in ASCII, at the end of what EDIFACT had of a text, where it has to be said.
pub open spec fn edifact_left(end: nat, at: At) -> Option<At> {
    let back = At { encodation: ASCII as nat, held: 0, ..at };
    let spelled = if at.held + 1 < 3 {
        at.held + 1
    } else {
        3nat
    };
    if at.held > 2 {
        Some(At { written: at.written + spelled, ..back })
    } else {
        match roomy(at.room, at.written + at.held) {
            None => None,
            Some(room) => if room - at.written >= 3 {
                match roomy(Some(room), at.written + spelled) {
                    None => None,
                    Some(room) => Some(
                        At { written: at.written + spelled, room: Some(room), ..back },
                    ),
                }
            } else if at.pos >= end {
                if at.held <= at.pos {
                    Some(At { pos: (at.pos - at.held) as nat, room: None, ..back })
                } else {
                    None
                }
            } else {
                Some(At { written: at.written + spelled, room: Some(room), ..back })
            },
        }
    }
}

/// Back in ASCII, at the end of what EDIFACT had of a text.
pub open spec fn edifact_done(end: nat, at: At) -> Option<At> {
    if at.held > 0 {
        edifact_left(end, at)
    } else {
        let remaining = end - at.pos;
        match roomy(at.room, at.written) {
            None => None,
            Some(room) => match if remaining > room - at.written {
                roomy(Some(room), at.written + 1)
            } else {
                Some(room)
            } {
                None => None,
                Some(room) => {
                    let at = At { room: Some(room), ..at };
                    if remaining <= room - at.written && room - at.written <= 2 {
                        Some(At { encodation: ASCII as nat, ..at })
                    } else {
                        edifact_left(end, at)
                    }
                },
            },
        }
    }
}

/// One character on, in EDIFACT.
pub open spec fn edifact_step(text: Seq<char>, end: nat, at: At) -> Option<At> {
    if !in_edifact(text[at.pos as int]) {
        None
    } else {
        let next = At { pos: at.pos + 1, held: at.held + 1, ..at };
        if next.held >= 4 {
            let next = At { written: at.written + 3, held: 0, ..next };
            if dm_next(text, next.pos, EDIFACT as nat) != EDIFACT || next.pos >= end {
                edifact_done(end, next)
            } else {
                Some(next)
            }
        } else if next.pos >= end {
            edifact_done(end, next)
        } else {
            Some(next)
        }
    }
}

/// At the end of what Base 256 had of a text: what is held back is written, behind its length.
pub open spec fn base256_done(end: nat, at: At, encodation: nat) -> Option<At> {
    let size = at.written + at.held + 1;
    match roomy(at.room, size) {
        None => None,
        Some(room) => {
            let said = at.pos < end || room > size;
            if said && at.held > 1555 {
                None
            } else {
                Some(
                    At {
                        encodation,
                        written: size + if said && at.held > 249 {
                            1nat
                        } else {
                            0
                        },
                        room: Some(room),
                        held: 0,
                        ..at
                    },
                )
            }
        },
    }
}

/// One character on, in Base 256.
pub open spec fn base256_step(text: Seq<char>, end: nat, at: At) -> Option<At> {
    let next = At { pos: at.pos + 1, held: at.held + 1, ..at };
    if dm_next(text, next.pos, BASE256 as nat) != BASE256 {
        base256_done(end, next, ASCII as nat)
    } else if next.pos >= end {
        base256_done(end, next, BASE256 as nat)
    } else {
        Some(next)
    }
}

/// One character on.
pub open spec fn step(text: Seq<char>, end: nat, at: At) -> Option<At> {
    if at.encodation == ASCII {
        ascii_step(text, end, at)
    } else if at.encodation == C40 || at.encodation == TEXT {
        values_step(text, end, at)
    } else if at.encodation == X12 {
        x12_step(text, end, at)
    } else if at.encodation == EDIFACT {
        edifact_step(text, end, at)
    } else {
        base256_step(text, end, at)
    }
}

/// More than the encoder ever holds back.
pub const MOST_HELD: usize = 0x1_0000;

/// The room of the symbol with which the encoder comes to the end of a text within so many steps, if it
/// does.
pub open spec fn arrival(text: Seq<char>, end: nat, at: At, steps: nat) -> Option<nat>
    decreases steps,
{
    if at.written > MOST_ROOM || at.held >= MOST_HELD {
        None
    } else if at.pos >= end {
        roomy(at.room, at.written)
    } else if steps == 0 {
        None
    } else {
        match step(text, end, at) {
            Some(next) => arrival(text, end, next, (steps - 1) as nat),
            None => None,
        }
    }
}

/// How many characters stand before and behind the body of a text that a codeword stands for as a whole.
pub const HEADER: usize = 7;

pub const TRAILER: usize = 2;

/// Whether a text has one of the two headers, and the trailer, that a codeword stands for.
pub open spec fn is_macro(text: Seq<char>) -> bool {
    let n = text.len();
    &&& n >= HEADER + TRAILER
    &&& text[0] == '['
    &&& text[1] == ')'
    &&& text[2] == '>'
    &&& text[3] as u32 == 0x1E
    &&& text[4] == '0'
    &&& text[5] == '5' || text[5] == '6'
    &&& text[6] as u32 == 0x1D
    &&& text[n - 2] as u32 == 0x1E
    &&& text[n - 1] as u32 == 0x04
}

/// How many data codewords the symbol has that the encoder makes of a text; none where it does not make one.
///
/// There is none for characters beyond Latin-1. The encoder takes at most two steps for a character, but for
/// a few at the end.
pub open spec fn room_taken(text: Seq<char>) -> Option<nat> {
    let (start, end) = if is_macro(text) {
        (
            At { encodation: ASCII as nat, pos: HEADER as nat, written: 1, room: None, held: 0 },
            (text.len() - TRAILER) as nat,
        )
    } else {
        (At { encodation: ASCII as nat, pos: 0, written: 0, room: None, held: 0 }, text.len())
    };
    if text.len() <= LONGEST_MESSAGE && forall|i: int|
        0 <= i < text.len() ==> #[trigger] text[i] as u32 <= 255 {
        arrival(text, end, start, (4 * text.len() + 64) as nat)
    } else {
        None
    }
}

// ---- the same, run ----
/// Where the encoder is, in machine numbers.
struct Place {
    encodation: u32,
    pos: usize,
    written: usize,
    room: Option<usize>,
    held: usize,
}

impl Place {
    spec fn at(self) -> At {
        At {
            encodation: self.encodation as nat,
            pos: self.pos as nat,
            written: self.written as nat,
            room: match self.room {
                Some(room) => Some(room as nat),
                None => None,
            },
            held: self.held as nat,
        }
    }

    /// Whether the numbers are small enough to be counted on.
    spec fn is_small(self, end: usize) -> bool {
        &&& self.encodation <= BASE256
        &&& self.pos <= end <= LONGEST_MESSAGE
        &&& self.written <= 0x1_0000
        &&& self.held <= 0x1_0000
        &&& self.room is Some ==> self.room->0 <= MOST_ROOM
    }
}

/// Whether this is where a step leads.
spec fn leads_to(r: Option<Place>, at: Option<At>) -> bool {
    match at {
        Some(at) => r is Some && r->0.at() == at,
        None => r is None,
    }
}

fn look_up(room: Option<usize>, n: usize) -> (r: Option<usize>)
    requires
        n <= 0x10_0000,
        room is Some ==> room->0 <= MOST_ROOM,
    ensures
        match roomy(
            match room {
                Some(room) => Some(room as nat),
                None => None,
            },
            n as nat,
        ) {
            Some(room) => r is Some && r->0 == room && n <= room <= MOST_ROOM,
            None => r is None,
        },
{
    if let Some(room) = room {
        if n <= room {
            return Some(room);
        }
    }
    match room_for(n as u32) {
        Some(room) => Some(room as usize),
        None => None,
    }
}

fn go_ascii(text: &str, chars: &[char], end: usize, p: Place) -> (r: Option<Place>)
    requires
        chars@ == text@,
        end <= chars@.len() <= LONGEST_MESSAGE,
        p.is_small(end),
        p.pos < end,
        p.written <= MOST_ROOM,
    ensures
        leads_to(r, ascii_step(text@, end as nat, p.at())),
        r is Some ==> r->0.is_small(end),
{
    let c: char = chars[p.pos];
    if p.pos + 1 < end && '0' <= c && c <= '9' && '0' <= chars[p.pos + 1] && chars[p.pos + 1]
        <= '9' {
        return Some(Place { pos: p.pos + 2, written: p.written + 1, ..p });
    }
    let next: u32 = look_ahead(text, p.pos as u32, ASCII);
    if next != ASCII {
        return Some(Place { encodation: next, written: p.written + 1, ..p });
    }
    let long: usize = if c as u32 > 127 {
        2
    } else {
        1
    };
    Some(Place { pos: p.pos + 1, written: p.written + long, ..p })
}

fn end_values(end: usize, p: Place) -> (r: Option<Place>)
    requires
        p.is_small(end),
        p.written <= MOST_ROOM,
    ensures
        leads_to(r, values_done(end as nat, p.at())),
        r is Some ==> r->0.is_small(end),
{
    let whole: usize = 2 * (p.held / 3);
    let more: usize = if p.pos < end {
        1
    } else {
        0
    };
    let room: usize = look_up(p.room, p.written + whole)?;
    let available: usize = room - (p.written + whole);
    let back = Place { encodation: ASCII, room: Some(room), held: 0, ..p };
    if p.held % 3 == 2 {
        Some(Place { written: p.written + whole + 2 + more, ..back })
    } else if p.held % 3 == 0 {
        let left: usize = if available > 0 || more > 0 {
            1
        } else {
            0
        };
        Some(Place { written: p.written + whole + left, ..back })
    } else if available == 1 && p.pos > 0 {
        Some(Place { written: p.written + whole + more, pos: p.pos - 1, ..back })
    } else {
        None
    }
}

fn cut(chars: &[char], end: usize, p: Place, last: usize, available: usize) -> (r: Option<Place>)
    requires
        end <= chars@.len(),
        forall|i: int| 0 <= i < chars@.len() ==> #[trigger] chars@[i] as u32 <= 255,
        p.is_small(end),
        1 <= last <= 4,
    ensures
        leads_to(r, cut_back(chars@, p.at(), last as nat, available as int)),
        r is Some ==> r->0.is_small(end) && r->0.written == p.written && r->0.encodation
            == p.encodation,
    decreases p.pos,
{
    if p.held % 3 == 1 && (last > 3 || available != 1) {
        if p.held < last || p.pos == 0 {
            return None;
        }
        let less = Place { pos: p.pos - 1, room: None, held: p.held - last, ..p };
        let next: usize = count_values(p.encodation, chars[p.pos - 1]);
        assert(taken_back(p.at(), last as nat) == Some(less.at()));
        cut(chars, end, less, next, available)
    } else {
        Some(p)
    }
}

fn trim(chars: &[char], end: usize, p: Place, last: usize, available: usize) -> (r: Option<Place>)
    requires
        end <= chars@.len(),
        forall|i: int| 0 <= i < chars@.len() ==> #[trigger] chars@[i] as u32 <= 255,
        p.is_small(end),
        1 <= last <= 4,
    ensures
        leads_to(r, trimmed(chars@, p.at(), last as nat, available as int)),
        r is Some ==> r->0.is_small(end) && r->0.written == p.written && r->0.encodation
            == p.encodation,
{
    if p.held % 3 == 2 && available != 2 {
        if p.held < last || p.pos == 0 {
            return None;
        }
        let less = Place { pos: p.pos - 1, room: None, held: p.held - last, ..p };
        let next: usize = count_values(p.encodation, chars[p.pos - 1]);
        assert(taken_back(p.at(), last as nat) == Some(less.at()));
        cut(chars, end, less, next, available)
    } else {
        cut(chars, end, p, last, available)
    }
}

fn go_values(text: &str, chars: &[char], end: usize, p: Place) -> (r: Option<Place>)
    requires
        chars@ == text@,
        end <= chars@.len() <= LONGEST_MESSAGE,
        forall|i: int| 0 <= i < chars@.len() ==> #[trigger] chars@[i] as u32 <= 255,
        p.is_small(end),
        p.pos < end,
        p.written <= MOST_ROOM,
    ensures
        leads_to(r, values_step(text@, end as nat, p.at())),
        r is Some ==> r->0.is_small(end),
{
    let last: usize = count_values(p.encodation, chars[p.pos]);
    let held: usize = p.held + last;
    let needed: usize = p.written + 2 * (held / 3);
    let room: usize = look_up(p.room, needed)?;
    let next = Place { pos: p.pos + 1, room: Some(room), held, ..p };
    if next.pos >= end {
        let less = trim(chars, end, next, last, room - needed)?;
        return end_values(end, less);
    }
    if held % 3 == 0 && look_ahead(text, next.pos as u32, p.encodation) != p.encodation {
        return end_values(end, next);
    }
    Some(next)
}

fn end_x12(end: usize, p: Place) -> (r: Option<Place>)
    requires
        p.is_small(end),
    ensures
        leads_to(r, x12_done(end as nat, p.at())),
        r is Some ==> r->0.is_small(end),
{
    let room: usize = look_up(p.room, p.written)?;
    let available: usize = room - p.written;
    if p.pos < p.held {
        return None;
    }
    let pos: usize = p.pos - p.held;
    let remaining: usize = end - pos;
    let left: usize = if remaining > 1 || available > 1 || remaining != available {
        1
    } else {
        0
    };
    Some(Place { encodation: ASCII, pos, written: p.written + left, room: Some(room), held: 0 })
}

fn go_x12(text: &str, chars: &[char], end: usize, p: Place) -> (r: Option<Place>)
    requires
        chars@ == text@,
        end <= chars@.len() <= LONGEST_MESSAGE,
        p.is_small(end),
        p.pos < end,
        p.written <= MOST_ROOM,
        p.held < 0x1_0000,
    ensures
        leads_to(r, x12_step(text@, end as nat, p.at())),
        r is Some ==> r->0.is_small(end),
{
    let c: char = chars[p.pos];
    if !(c == '\r' || c == '*' || c == '>' || c == ' ' || '0' <= c && c <= '9' || 'A' <= c && c
        <= 'Z') {
        return None;
    }
    let next = Place { pos: p.pos + 1, held: p.held + 1, ..p };
    if next.held % 3 == 0 {
        let next = Place { written: p.written + 2, held: 0, ..next };
        if look_ahead(text, next.pos as u32, X12) != X12 || next.pos >= end {
            return end_x12(end, next);
        }
        return Some(next);
    }
    if next.pos >= end {
        return end_x12(end, next);
    }
    Some(next)
}

fn leave_edifact(end: usize, p: Place) -> (r: Option<Place>)
    requires
        p.is_small(end),
        p.written <= MOST_ROOM + 3,
    ensures
        leads_to(r, edifact_left(end as nat, p.at())),
        r is Some ==> r->0.is_small(end),
{
    let spelled: usize = if p.held + 1 < 3 {
        p.held + 1
    } else {
        3
    };
    let back = Place { encodation: ASCII, held: 0, ..p };
    if p.held > 2 {
        return Some(Place { written: p.written + spelled, ..back });
    }
    let room: usize = look_up(p.room, p.written + p.held)?;
    if room - p.written >= 3 {
        let room: usize = look_up(Some(room), p.written + spelled)?;
        return Some(Place { written: p.written + spelled, room: Some(room), ..back });
    }
    if p.pos >= end {
        if p.held > p.pos {
            return None;
        }
        return Some(Place { pos: p.pos - p.held, room: None, ..back });
    }
    Some(Place { written: p.written + spelled, room: Some(room), ..back })
}

fn end_edifact(end: usize, p: Place) -> (r: Option<Place>)
    requires
        p.is_small(end),
        p.written <= MOST_ROOM + 3,
    ensures
        leads_to(r, edifact_done(end as nat, p.at())),
        r is Some ==> r->0.is_small(end),
{
    if p.held > 0 {
        return leave_edifact(end, p);
    }
    let remaining: usize = end - p.pos;
    let first: usize = look_up(p.room, p.written)?;
    let room: usize = if remaining > first - p.written {
        look_up(Some(first), p.written + 1)?
    } else {
        first
    };
    let p = Place { room: Some(room), ..p };
    if remaining <= room - p.written && room - p.written <= 2 {
        return Some(Place { encodation: ASCII, ..p });
    }
    leave_edifact(end, p)
}

fn go_edifact(text: &str, chars: &[char], end: usize, p: Place) -> (r: Option<Place>)
    requires
        chars@ == text@,
        end <= chars@.len() <= LONGEST_MESSAGE,
        p.is_small(end),
        p.pos < end,
        p.written <= MOST_ROOM,
        p.held < 0x1_0000,
    ensures
        leads_to(r, edifact_step(text@, end as nat, p.at())),
        r is Some ==> r->0.is_small(end),
{
    let c: char = chars[p.pos];
    if !(' ' <= c && c <= '^') {
        return None;
    }
    let next = Place { pos: p.pos + 1, held: p.held + 1, ..p };
    if next.held >= 4 {
        let next = Place { written: p.written + 3, held: 0, ..next };
        if look_ahead(text, next.pos as u32, EDIFACT) != EDIFACT || next.pos >= end {
            return end_edifact(end, next);
        }
        return Some(next);
    }
    if next.pos >= end {
        return end_edifact(end, next);
    }
    Some(next)
}

fn end_base256(end: usize, p: Place, encodation: u32) -> (r: Option<Place>)
    requires
        p.is_small(end),
        p.written <= MOST_ROOM,
        encodation <= BASE256,
    ensures
        leads_to(r, base256_done(end as nat, p.at(), encodation as nat)),
        r is Some ==> r->0.is_small(end),
{
    let size: usize = p.written + p.held + 1;
    let room: usize = look_up(p.room, size)?;
    let said: bool = p.pos < end || room > size;
    if said && p.held > 1555 {
        return None;
    }
    let long: usize = if said && p.held > 249 {
        1
    } else {
        0
    };
    Some(Place { encodation, written: size + long, room: Some(room), held: 0, ..p })
}

fn go_base256(text: &str, end: usize, p: Place) -> (r: Option<Place>)
    requires
        end <= text@.len() <= LONGEST_MESSAGE,
        p.is_small(end),
        p.pos < end,
        p.written <= MOST_ROOM,
        p.held < 0x1_0000,
    ensures
        leads_to(r, base256_step(text@, end as nat, p.at())),
        r is Some ==> r->0.is_small(end),
{
    let next = Place { pos: p.pos + 1, held: p.held + 1, ..p };
    if look_ahead(text, next.pos as u32, BASE256) != BASE256 {
        return end_base256(end, next, ASCII);
    }
    if next.pos >= end {
        return end_base256(end, next, BASE256);
    }
    Some(next)
}

fn go(text: &str, chars: &[char], end: usize, p: Place) -> (r: Option<Place>)
    requires
        chars@ == text@,
        end <= chars@.len() <= LONGEST_MESSAGE,
        forall|i: int| 0 <= i < chars@.len() ==> #[trigger] chars@[i] as u32 <= 255,
        p.is_small(end),
        p.pos < end,
        p.written <= MOST_ROOM,
        p.held < MOST_HELD,
    ensures
        leads_to(r, step(text@, end as nat, p.at())),
        r is Some ==> r->0.is_small(end),
{
    if p.encodation == ASCII {
        go_ascii(text, chars, end, p)
    } else if p.encodation == C40 || p.encodation == TEXT {
        go_values(text, chars, end, p)
    } else if p.encodation == X12 {
        go_x12(text, chars, end, p)
    } else if p.encodation == EDIFACT {
        go_edifact(text, chars, end, p)
    } else {
        go_base256(text, end, p)
    }
}

fn follow(text: &str, chars: &[char], end: usize, start: Place, steps: usize) -> (r: Option<usize>)
    requires
        chars@ == text@,
        end <= chars@.len() <= LONGEST_MESSAGE,
        forall|i: int| 0 <= i < chars@.len() ==> #[trigger] chars@[i] as u32 <= 255,
        start.is_small(end),
    ensures
        match arrival(text@, end as nat, start.at(), steps as nat) {
            Some(room) => r is Some && r->0 == room,
            None => r is None,
        },
{
    let mut p = start;
    let mut left: usize = steps;
    loop
        invariant
            chars@ == text@,
            end <= chars@.len() <= LONGEST_MESSAGE,
            forall|i: int| 0 <= i < chars@.len() ==> #[trigger] chars@[i] as u32 <= 255,
            p.is_small(end),
            arrival(text@, end as nat, start.at(), steps as nat) == arrival(
                text@,
                end as nat,
                p.at(),
                left as nat,
            ),
        decreases left,
    {
        if p.written > MOST_ROOM || p.held >= MOST_HELD {
            return None;
        }
        if p.pos >= end {
            return look_up(p.room, p.written);
        }
        if left == 0 {
            return None;
        }
        match go(text, chars, end, p) {
            Some(next) => {
                p = next;
                left = left - 1;
            },
            None => {
                return None;
            },
        }
    }
}

fn has_macro(chars: &[char]) -> (r: bool)
    ensures
        r == is_macro(chars@),
{
    let n: usize = chars.len();
    n >= HEADER + TRAILER && chars[0] == '[' && chars[1] == ')' && chars[2] == '>' && chars[3] as u32
        == 0x1E && chars[4] == '0' && (chars[5] == '5' || chars[5] == '6') && chars[6] as u32 == 0x1D
        && chars[n - 2] as u32 == 0x1E && chars[n - 1] as u32 == 0x04
}

/// How many data codewords the symbol has that the encoder makes of a text.
pub fn room_of(text: &str) -> (r: Option<usize>)
    ensures
        match room_taken(text@) {
            Some(room) => r is Some && r->0 == room,
            None => r is None,
        },
{
    let n: usize = text.unicode_len();
    if n > LONGEST_MESSAGE {
        return None;
    }
    let mut chars: Vec<char> = Vec::new();
    for i in 0..n
        invariant
            n == text@.len(),
            chars@.len() == i,
            forall|k: int| 0 <= k < i ==> #[trigger] chars@[k] == text@[k],
            forall|k: int| 0 <= k < i ==> #[trigger] text@[k] as u32 <= 255,
    {
        let c: char = text.get_char(i);
        if c as u32 > 255 {
            return None;
        }
        chars.push(c);
    }
    assert(chars@ =~= text@);
    if has_macro(chars.as_slice()) {
        let start = Place { encodation: ASCII, pos: HEADER, written: 1, room: None, held: 0 };
        follow(text, chars.as_slice(), n - TRAILER, start, 4 * n + 64)
    } else {
        let start = Place { encodation: ASCII, pos: 0, written: 0, room: None, held: 0 };
        follow(text, chars.as_slice(), n, start, 4 * n + 64)
    }
}

} // verus!
