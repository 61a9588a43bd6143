//! How codewords are dealt out to Reed-Solomon blocks.
//!
//! A block is given by the number of its data codewords and by the places that its codewords have in
//! the stream, data codewords first.
use vstd::prelude::*;

verus! {

/// Whether some codeword of some block has the place `g`.
pub open spec fn is_placed(blocks: Seq<(nat, Seq<nat>)>, g: int) -> bool {
    exists|b: int, i: int|
        #![trigger blocks[b].1[i]]
        0 <= b < blocks.len() && 0 <= i < blocks[b].1.len() && blocks[b].1[i] == g
}

/// Whether the blocks take up a stream of `n` codewords: each place in it belongs to one codeword of
/// one block, no block is longer than a Reed-Solomon word over bytes can be, and none holds more data
/// than it has codewords.
pub open spec fn blocks_tile(blocks: Seq<(nat, Seq<nat>)>, n: int) -> bool {
    &&& blocks.len() > 0
    &&& forall|b: int|
        0 <= b < blocks.len() ==> (#[trigger] blocks[b]).0 <= blocks[b].1.len() <= 255
    &&& forall|b: int, i: int|
        #![trigger blocks[b].1[i]]
        0 <= b < blocks.len() && 0 <= i < blocks[b].1.len() ==> blocks[b].1[i] < n
    &&& forall|b: int, i: int, c: int, j: int|
        #![trigger blocks[b].1[i], blocks[c].1[j]]
        0 <= b < blocks.len() && 0 <= i < blocks[b].1.len() && 0 <= c < blocks.len() && 0 <= j
            < blocks[c].1.len() && blocks[b].1[i] == blocks[c].1[j] ==> b == c && i == j
    &&& forall|g: int| 0 <= g < n ==> #[trigger] is_placed(blocks, g)
}

/// Whether `dealt` holds the codewords of each block of a stream.
pub open spec fn deals(
    blocks: Seq<(nat, Seq<nat>)>,
    raw: Seq<u8>,
    dealt: Seq<(usize, Vec<u8>)>,
) -> bool {
    &&& dealt.len() == blocks.len()
    &&& forall|b: int|
        0 <= b < dealt.len() ==> {
            &&& (#[trigger] dealt[b]).0 == blocks[b].0
            &&& dealt[b].1@ == blocks[b].1.map_values(|g: nat| raw[g as int])
        }
}

/// How many data codewords the first `n` blocks have.
pub open spec fn data_count(blocks: Seq<(nat, Seq<nat>)>, n: nat) -> nat
    decreases n,
{
    if n == 0 {
        0
    } else {
        data_count(blocks, (n - 1) as nat) + blocks[n - 1].0
    }
}

/// Whether a stream of `total` codewords begins with the data codewords of all blocks.
pub open spec fn leads_with_data(blocks: Seq<(nat, Seq<nat>)>, total: int) -> bool {
    &&& data_count(blocks, blocks.len()) <= total
    &&& forall|b: int, i: int|
        #![trigger blocks[b].1[i]]
        0 <= b < blocks.len() && 0 <= i < blocks[b].1.len() ==> (i < blocks[b].0
            <==> blocks[b].1[i] < data_count(blocks, blocks.len()))
}

/// Fewer blocks have no more data codewords.
pub proof fn lemma_data_count(blocks: Seq<(nat, Seq<nat>)>, m: nat, n: nat)
    requires
        m <= n,
    ensures
        data_count(blocks, m) <= data_count(blocks, n),
    decreases n,
{
    if m < n {
        lemma_data_count(blocks, m, (n - 1) as nat);
    }
}

/// Counts the data codewords of all blocks.
pub(crate) fn count_data(
    places: &[(usize, Vec<usize>)],
    total: usize,
    Ghost(blocks): Ghost<Seq<(nat, Seq<nat>)>>,
) -> (r: usize)
    requires
        are_places(blocks, places@),
        leads_with_data(blocks, total as int),
    ensures
        r == data_count(blocks, blocks.len()),
        r <= total,
{
    let mut sum: usize = 0;
    for b in 0..places.len()
        invariant
            are_places(blocks, places@),
            leads_with_data(blocks, total as int),
            sum == data_count(blocks, b as nat),
    {
        proof {
            lemma_data_count(blocks, (b + 1) as nat, blocks.len());
            assert(places@[b as int].0 == blocks[b as int].0);
        }
        sum = sum + places[b].0;
    }
    sum
}

/// Whether `places` holds the blocks as machine numbers.
pub open spec fn are_places(
    blocks: Seq<(nat, Seq<nat>)>,
    places: Seq<(usize, Vec<usize>)>,
) -> bool {
    &&& places.len() == blocks.len()
    &&& forall|b: int|
        0 <= b < places.len() ==> {
            &&& (#[trigger] places[b]).0 == blocks[b].0
            &&& places[b].1@.len() == blocks[b].1.len()
        }
    &&& forall|b: int, i: int|
        #![trigger places[b].1@[i]]
        0 <= b < places.len() && 0 <= i < places[b].1@.len() ==> places[b].1@[i] == blocks[b].1[i]
}

/// Whether two streams hold the low and the high bytes of their places.
pub open spec fn are_index_bytes(low: Seq<u8>, high: Seq<u8>, total: int) -> bool {
    &&& low.len() == total
    &&& high.len() == total
    &&& forall|k: int| 0 <= k < total ==> #[trigger] low[k] == k % 256
    &&& forall|k: int| 0 <= k < total ==> #[trigger] high[k] == k / 256
}

/// Streams that hold, in place of codewords, the low and the high bytes of their own places: dealt
/// out to blocks, they say which places each block has.
pub fn index_bytes(total: usize) -> (r: (Vec<u8>, Vec<u8>))
    requires
        total <= 65536,
    ensures
        are_index_bytes(r.0@, r.1@, total as int),
{
    let mut low: Vec<u8> = Vec::new();
    let mut high: Vec<u8> = Vec::new();
    let mut g: usize = 0;
    while g < total
        invariant
            total <= 65536,
            g <= total,
            are_index_bytes(low@, high@, g as int),
        decreases total - g,
    {
        low.push((g % 256) as u8);
        high.push((g / 256) as u8);
        g = g + 1;
    }
    (low, high)
}

/// Joins the low and the high bytes of the places of each block.
pub(crate) fn join_places(
    lows: &[(usize, Vec<u8>)],
    highs: &[(usize, Vec<u8>)],
    total: usize,
    Ghost(blocks): Ghost<Seq<(nat, Seq<nat>)>>,
    Ghost(low): Ghost<Seq<u8>>,
    Ghost(high): Ghost<Seq<u8>>,
) -> (out: Vec<(usize, Vec<usize>)>)
    requires
        total <= 65536,
        blocks_tile(blocks, total as int),
        are_index_bytes(low, high, total as int),
        deals(blocks, low, lows@),
        deals(blocks, high, highs@),
    ensures
        are_places(blocks, out@),
{
    let mut out: Vec<(usize, Vec<usize>)> = Vec::new();
    let mut b: usize = 0;
    while b < lows.len()
        invariant
            total <= 65536,
            blocks_tile(blocks, total as int),
            are_index_bytes(low, high, total as int),
            deals(blocks, low, lows@),
            deals(blocks, high, highs@),
            b <= lows@.len(),
            out@.len() == b,
            forall|k: int|
                0 <= k < b ==> {
                    &&& (#[trigger] out@[k]).0 == blocks[k].0
                    &&& out@[k].1@.len() == blocks[k].1.len()
                },
            forall|k: int, i: int|
                #![trigger out@[k].1@[i]]
                0 <= k < b && 0 <= i < out@[k].1@.len() ==> out@[k].1@[i] == blocks[k].1[i],
        decreases lows@.len() - b,
    {
        let low_block = &lows[b].1;
        let high_block = &highs[b].1;
        let ghost places = blocks[b as int].1;
        assert(lows@[b as int].1@ == places.map_values(|g: nat| low[g as int]));
        assert(highs@[b as int].1@ == places.map_values(|g: nat| high[g as int]));
        let mut own: Vec<usize> = Vec::new();
        let mut i: usize = 0;
        while i < low_block.len()
            invariant
                blocks_tile(blocks, total as int),
                total <= 65536,
                are_index_bytes(low, high, total as int),
                0 <= b < blocks.len(),
                places == blocks[b as int].1,
                low_block@ == places.map_values(|g: nat| low[g as int]),
                high_block@ == places.map_values(|g: nat| high[g as int]),
                i <= low_block@.len(),
                own@.len() == i,
                forall|k: int| 0 <= k < i ==> #[trigger] own@[k] == places[k],
            decreases low_block@.len() - i,
        {
            let ghost place = places[i as int];
            assert(blocks[b as int].1[i as int] < total);
            assert(low_block@[i as int] == low[place as int]);
            assert(high_block@[i as int] == high[place as int]);
            own.push(high_block[i] as usize * 256 + low_block[i] as usize);
            i = i + 1;
        }
        out.push((lows[b].0, own));
        b = b + 1;
    }
    out
}

} // verus!
