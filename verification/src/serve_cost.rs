//! What serving one `/get` fetch costs the heap.
//!
//! A served fetch is framed, encrypted and cut into parts. These formulas give
//! the bytes that are live at once, and the largest response a given amount of
//! free heap can pay for.
use vstd::prelude::*;

verus! {

/// Bytes of MessagePack and request-ID framing around a response.
pub const RESPONSE_FRAME_BYTES: usize = 19;

/// Bytes of random prefix in front of a transfer.
pub const RESOURCE_RANDOM_HASH_SIZE: usize = 4;

/// Bytes of one entry of a resource hash map.
pub const RESOURCE_HASHMAP_LEN: usize = 4;

/// Bookkeeping that each part of a transfer costs beside its payload: a vector
/// header, two hash-map entries and the allocator's own overhead.
pub const PART_BOOKKEEPING_BYTES: usize = 24 + 2 * RESOURCE_HASHMAP_LEN + 8;

pub open spec fn sdu_of(resource_sdu: int) -> int {
    if resource_sdu == 0 {
        1
    } else {
        resource_sdu
    }
}

/// Bytes of a framed response.
pub open spec fn framed(cap: int) -> int {
    cap + RESPONSE_FRAME_BYTES
}

/// Bytes of the plaintext handed to the cipher.
pub open spec fn plaintext(cap: int) -> int {
    RESOURCE_RANDOM_HASH_SIZE + framed(cap)
}

/// Bytes of the encrypted transfer: an initialisation vector, the padded
/// blocks and an authentication code.
pub open spec fn transfer(cap: int) -> int {
    16 + (plaintext(cap) / 16 + 1) * 16 + 32
}

pub open spec fn part_count(cap: int, sdu: int) -> int {
    (transfer(cap) + sdu - 1) / sdu
}

/// Bytes of all parts with their bookkeeping.
pub open spec fn parts(cap: int, sdu: int) -> int {
    transfer(cap) + part_count(cap, sdu) * PART_BOOKKEEPING_BYTES
}

pub open spec fn smaller(a: int, b: int) -> int {
    if a < b {
        a
    } else {
        b
    }
}

pub open spec fn larger(a: int, b: int) -> int {
    if a > b {
        a
    } else {
        b
    }
}

/// Bytes live at once while a fetch of `cap` bytes is streamed: one record, the
/// read buffer and the parts.
pub open spec fn peak(cap: int, resource_sdu: int) -> int {
    let sdu = sdu_of(resource_sdu);
    cap + smaller(sdu, framed(cap)) + parts(cap, sdu)
}

/// Bytes live at once while a fetch of `cap` bytes is built as a whole first.
pub open spec fn buffered_peak(cap: int, resource_sdu: int) -> int {
    2 * cap + framed(cap) + plaintext(cap) + transfer(cap) + parts(cap, sdu_of(resource_sdu))
}

/// The largest single allocation of a streamed fetch.
pub open spec fn largest_block(cap: int, resource_sdu: int) -> int {
    let sdu = sdu_of(resource_sdu);
    larger(
        larger(cap, smaller(sdu, framed(cap))),
        smaller(transfer(cap), sdu) + PART_BOOKKEEPING_BYTES,
    )
}

/// A fetch of `cap` bytes can be paid for.
pub open spec fn affordable(cap: int, free: int, largest: int, resource_sdu: int) -> bool {
    peak(cap, resource_sdu) <= free && largest_block(cap, resource_sdu) <= largest
}

/// `cap` is the largest response that can be paid for, or zero where none can.
pub open spec fn funded(cap: int, free: int, largest: int, resource_sdu: int) -> bool {
    &&& 0 <= cap <= free
    &&& cap > 0 ==> affordable(cap, free, largest, resource_sdu)
    &&& forall|c: int| c > cap ==> !#[trigger] affordable(c, free, largest, resource_sdu)
}

proof fn lemma_part_count(t: int, sdu: int)
    requires
        t >= 0,
        sdu >= 1,
    ensures
        0 <= (t + sdu - 1) / sdu <= t,
{
    assert((t + sdu - 1) / sdu <= t && 0 <= (t + sdu - 1) / sdu) by (nonlinear_arith)
        requires
            t >= 0,
            sdu >= 1,
    ;
}

/// A larger response never costs less.
pub proof fn law_cost_is_monotone(a: int, b: int, resource_sdu: int)
    requires
        0 <= a <= b,
        resource_sdu >= 0,
    ensures
        peak(a, resource_sdu) <= peak(b, resource_sdu),
        largest_block(a, resource_sdu) <= largest_block(b, resource_sdu),
        buffered_peak(a, resource_sdu) <= buffered_peak(b, resource_sdu),
{
    let sdu = sdu_of(resource_sdu);
    assert(transfer(a) <= transfer(b));
    vstd::arithmetic::div_mod::lemma_div_is_ordered(
        transfer(a) + sdu - 1,
        transfer(b) + sdu - 1,
        sdu,
    );
    vstd::arithmetic::mul::lemma_mul_inequality(
        part_count(a, sdu),
        part_count(b, sdu),
        PART_BOOKKEEPING_BYTES as int,
    );
}

proof fn lemma_peak_bounds(cap: int, resource_sdu: int)
    requires
        cap >= 0,
        resource_sdu >= 0,
    ensures
        cap < peak(cap, resource_sdu),
        transfer(cap) <= peak(cap, resource_sdu),
        0 <= part_count(cap, sdu_of(resource_sdu)) <= transfer(cap),
        transfer(cap) <= cap + 87,
        transfer(cap) >= cap + 71,
{
    lemma_part_count(transfer(cap), sdu_of(resource_sdu));
}

fn transfer_bytes(cap: usize) -> (r: u128)
    ensures
        r == transfer(cap as int),
        r <= cap + 87,
{
    let plain: u128 = RESOURCE_RANDOM_HASH_SIZE as u128 + (cap as u128 + RESPONSE_FRAME_BYTES as u128);
    16 + (plain / 16 + 1) * 16 + 32
}

fn parts_bytes(cap: usize, sdu: usize) -> (r: u128)
    requires
        sdu >= 1,
    ensures
        r == parts(cap as int, sdu as int),
        r <= 41 * (cap + 87),
{
    let t: u128 = transfer_bytes(cap);
    proof {
        lemma_part_count(t as int, sdu as int);
    }
    let n: u128 = (t + sdu as u128 - 1) / sdu as u128;
    assert(n * PART_BOOKKEEPING_BYTES == n * 40);
    t + n * PART_BOOKKEEPING_BYTES as u128
}

fn peak_bytes(cap: usize, resource_sdu: usize) -> (r: u128)
    ensures
        r == peak(cap as int, resource_sdu as int),
{
    let framed: u128 = cap as u128 + RESPONSE_FRAME_BYTES as u128;
    let sdu: usize = if resource_sdu == 0 {
        1
    } else {
        resource_sdu
    };
    let scratch: u128 = if (sdu as u128) < framed {
        sdu as u128
    } else {
        framed
    };
    cap as u128 + scratch + parts_bytes(cap, sdu)
}

fn largest_bytes_of(cap: usize, resource_sdu: usize) -> (r: u128)
    ensures
        r == largest_block(cap as int, resource_sdu as int),
{
    let framed: u128 = cap as u128 + RESPONSE_FRAME_BYTES as u128;
    let sdu: u128 = if resource_sdu == 0 {
        1
    } else {
        resource_sdu as u128
    };
    let scratch: u128 = if sdu < framed {
        sdu
    } else {
        framed
    };
    let transfer: u128 = transfer_bytes(cap);
    let payload: u128 = if transfer < sdu {
        transfer
    } else {
        sdu
    };
    let part: u128 = payload + PART_BOOKKEEPING_BYTES as u128;
    let mut largest: u128 = cap as u128;
    if scratch > largest {
        largest = scratch;
    }
    if part > largest {
        largest = part;
    }
    largest
}

/// Bytes live at once while a fetch of at most `cap_bytes` is streamed.
pub fn serve_peak_bytes(cap_bytes: usize, resource_sdu: usize) -> (r: usize)
    requires
        peak(cap_bytes as int, resource_sdu as int) <= usize::MAX,
    ensures
        r == peak(cap_bytes as int, resource_sdu as int),
{
    peak_bytes(cap_bytes, resource_sdu) as usize
}

/// Bytes live at once on the path that builds the whole response first.
pub fn serve_buffered_peak_bytes(cap_bytes: usize, resource_sdu: usize) -> (r: usize)
    requires
        buffered_peak(cap_bytes as int, resource_sdu as int) <= usize::MAX,
    ensures
        r == buffered_peak(cap_bytes as int, resource_sdu as int),
{
    let framed: u128 = cap_bytes as u128 + RESPONSE_FRAME_BYTES as u128;
    let plain: u128 = RESOURCE_RANDOM_HASH_SIZE as u128 + framed;
    let sdu: usize = if resource_sdu == 0 {
        1
    } else {
        resource_sdu
    };
    let total: u128 = 2 * cap_bytes as u128 + framed + plain + transfer_bytes(cap_bytes)
        + parts_bytes(cap_bytes, sdu);
    total as usize
}

/// The largest single allocation of a streamed fetch.
pub fn serve_largest_block_bytes(cap_bytes: usize, resource_sdu: usize) -> (r: usize)
    requires
        largest_block(cap_bytes as int, resource_sdu as int) <= usize::MAX,
    ensures
        r == largest_block(cap_bytes as int, resource_sdu as int),
{
    largest_bytes_of(cap_bytes, resource_sdu) as usize
}

/// The largest response that a budget of live bytes pays for.
pub fn serve_cap_for_peak(budget_bytes: usize, resource_sdu: usize) -> (r: usize)
    ensures
        funded(r as int, budget_bytes as int, usize::MAX as int, resource_sdu as int),
{
    serve_cap_for_heap(budget_bytes, usize::MAX, resource_sdu)
}

/// The largest response that free heap and its largest block pay for.
pub fn serve_cap_for_heap(free_bytes: usize, largest_bytes: usize, resource_sdu: usize) -> (r:
    usize)
    ensures
        funded(r as int, free_bytes as int, largest_bytes as int, resource_sdu as int),
{
    let ghost free = free_bytes as int;
    let ghost largest = largest_bytes as int;
    let ghost sdu = resource_sdu as int;
    let mut low: usize = 0;
    let mut high: usize = free_bytes;
    proof {
        assert forall|c: int| c > high implies !#[trigger] affordable(c, free, largest, sdu) by {
            lemma_peak_bounds(c, sdu);
        }
    }
    while low < high
        invariant
            low <= high <= free_bytes,
            free == free_bytes,
            largest == largest_bytes,
            sdu == resource_sdu,
            low > 0 ==> affordable(low as int, free, largest, sdu),
            forall|c: int| c > high ==> !#[trigger] affordable(c, free, largest, sdu),
        decreases high - low,
    {
        let gap: usize = high - low;
        let mid: usize = low + (gap - gap / 2);
        if peak_bytes(mid, resource_sdu) <= free_bytes as u128 && largest_bytes_of(
            mid,
            resource_sdu,
        ) <= largest_bytes as u128 {
            low = mid;
        } else {
            proof {
                assert(!affordable(mid as int, free, largest, sdu));
                assert forall|c: int| c > mid - 1 implies !#[trigger] affordable(
                    c,
                    free,
                    largest,
                    sdu,
                ) by {
                    law_cost_is_monotone(mid as int, c, sdu);
                }
            }
            high = mid - 1;
        }
    }
    low
}

/// The cap for this moment: what the live heap funds beyond a margin, and never
/// less than what was funded at start.
pub fn serve_cap_for_live_heap(
    boot_cap: usize,
    free_bytes: usize,
    largest_bytes: usize,
    margin_bytes: usize,
    resource_sdu: usize,
) -> (r: usize)
    ensures
        exists|f: int| #[trigger]
            funded(
                f,
                larger(free_bytes - margin_bytes, 0),
                larger(largest_bytes - margin_bytes, 0),
                resource_sdu as int,
            ) && r == larger(f, boot_cap as int),
{
    let free: usize = if free_bytes > margin_bytes {
        free_bytes - margin_bytes
    } else {
        0
    };
    let largest: usize = if largest_bytes > margin_bytes {
        largest_bytes - margin_bytes
    } else {
        0
    };
    let funded_cap: usize = serve_cap_for_heap(free, largest, resource_sdu);
    assert(funded(
        funded_cap as int,
        larger(free_bytes - margin_bytes, 0),
        larger(largest_bytes - margin_bytes, 0),
        resource_sdu as int,
    ));
    if funded_cap > boot_cap {
        funded_cap
    } else {
        boot_cap
    }
}

/// The funded cap is determined: two caps that are both the largest are equal.
pub proof fn law_funded_unique(a: int, b: int, free: int, largest: int, resource_sdu: int)
    requires
        funded(a, free, largest, resource_sdu),
        funded(b, free, largest, resource_sdu),
    ensures
        a == b,
{
    if a < b {
        assert(!affordable(b, free, largest, resource_sdu));
    } else if b < a {
        assert(!affordable(a, free, largest, resource_sdu));
    }
}

} // verus!
