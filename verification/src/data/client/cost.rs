//! What an upload would cost, estimated from the quotes for a few chunks.

use vstd::prelude::*;
use vstd::string::*;

use crate::chunked::{lower, part_count, parts_are_just_enough};
use crate::data::client::merkle::{merkle_applies, should_use_merkle, PaymentMode};
use crate::data::client::merkle_pool::MAX_LEAVES;
use crate::data::client::payment::{
    amounts_sum, offered_price, offers, payment_costs_triple_median, prepared_from,
    recognised_issuer_is_paid, PreparedPayment,
};
use crate::data::client::quote::{StoreQuote, MEDIAN_QUOTE_INDEX};
use crate::data::client::selection::{paid_median, price_key};
use crate::data::error::Error;
use crate::order::{
    lemma_sort_map, sort_by_keys, sorted_place_is_the_rank, stable_sort,
    stable_sort_orders_and_keeps,
};
use crate::protocol::format_amount;
use crate::text::{decimal, decimal_text, push_decimal};
use crate::uint256::{two128, Amount, U256};

verus! {

/// Number of chunks per upload wave.
pub const UPLOAD_WAVE_SIZE: usize = 64;

/// Most chunks that are asked about for a representative quote.
pub const ESTIMATE_SAMPLE_CAP: usize = 5;

/// Gas of one transaction that pays for a wave of chunks.
pub const GAS_PER_WAVE_TX: u128 = 1_500_000;

/// Gas of one merkle batch payment.
pub const GAS_PER_MERKLE_TX: u128 = 500_000;

/// Advisory price of gas, in wei.
pub const ARBITRUM_GAS_PRICE_WEI: u128 = 100_000_000;

/// Fewest bytes that can be self-encrypted.
pub const MIN_FILE_SIZE: u64 = 3;

/// Estimated cost of uploading a file.
pub struct UploadCostEstimate {
    /// Original file size in bytes.
    pub file_size: u64,
    /// Number of chunks the file would be split into (data chunks only).
    pub chunk_count: usize,
    /// Estimated total storage cost in atto (token smallest unit).
    pub storage_cost_atto: String,
    /// Estimated gas cost in wei: a rough heuristic, not a live price.
    pub estimated_gas_cost_wei: String,
    /// Payment mode that would be used.
    pub payment_mode: PaymentMode,
}

/// Tests that a file is large enough to be encrypted.
pub fn check_file_size(file_size: u64) -> (r: Result<(), Error>)
    ensures
        r is Ok <==> file_size >= MIN_FILE_SIZE,
        r matches Err(e) ==> e matches Error::InvalidData(m) && m@
            == "File too small: self-encryption requires at least 3 bytes"@,
{
    if file_size < MIN_FILE_SIZE {
        return Err(
            Error::InvalidData(
                "File too small: self-encryption requires at least 3 bytes".to_owned(),
            ),
        );
    }
    Ok(())
}

/// The search for a chunk that is not stored yet, whose quotes stand for all.
pub struct CostSampling {
    /// Chunks of the file.
    pub chunk_count: usize,
    /// Chunks that were asked about.
    pub sampled: usize,
}

/// What follows a sample.
pub enum SampleStep {
    /// Ask about the chunk at this position.
    Ask(usize),
    /// The quotes of a chunk that is not stored.
    Quoted(Vec<StoreQuote>),
    /// All samples are stored.
    AllStored,
}

impl CostSampling {
    /// Number of chunks that are asked about at most.
    pub open spec fn limit(&self) -> int {
        lower(self.chunk_count as int, ESTIMATE_SAMPLE_CAP as int)
    }

    pub open spec fn wf(&self) -> bool {
        self.sampled <= self.limit()
    }

    pub fn new(chunk_count: usize) -> (r: CostSampling)
        ensures
            r.wf(),
            r.chunk_count == chunk_count,
            r.sampled == 0,
    {
        CostSampling { chunk_count, sampled: 0 }
    }

    /// The next chunk to ask about, as long as the limit allows one.
    pub fn next(&mut self) -> (r: SampleStep)
        requires
            old(self).wf(),
        ensures
            final(self).wf(),
            final(self).chunk_count == old(self).chunk_count,
            if old(self).sampled < old(self).limit() {
                &&& r == SampleStep::Ask(old(self).sampled)
                &&& final(self).sampled == old(self).sampled + 1
            } else {
                &&& r is AllStored
                &&& final(self).sampled == old(self).sampled
            },
    {
        let limit: usize = if self.chunk_count <= ESTIMATE_SAMPLE_CAP {
            self.chunk_count
        } else {
            ESTIMATE_SAMPLE_CAP
        };
        if self.sampled < limit {
            let at: usize = self.sampled;
            self.sampled = at + 1;
            SampleStep::Ask(at)
        } else {
            SampleStep::AllStored
        }
    }

    /// Takes an answer into account: quotes end the search, a stored chunk says
    /// nothing about the rest, and any other failure is passed on.
    pub fn on_answer(&mut self, result: Result<Vec<StoreQuote>, Error>) -> (r: Result<
        SampleStep,
        Error,
    >)
        requires
            old(self).wf(),
        ensures
            final(self).wf(),
            final(self).chunk_count == old(self).chunk_count,
            match result {
                Ok(quotes) => {
                    &&& r == Ok::<SampleStep, Error>(SampleStep::Quoted(quotes))
                    &&& *final(self) == *old(self)
                },
                Err(Error::AlreadyStored) => if old(self).sampled < old(self).limit() {
                    &&& r == Ok::<SampleStep, Error>(SampleStep::Ask(old(self).sampled))
                    &&& final(self).sampled == old(self).sampled + 1
                } else {
                    &&& r == Ok::<SampleStep, Error>(SampleStep::AllStored)
                    &&& final(self).sampled == old(self).sampled
                },
                Err(e) => r == Err::<SampleStep, Error>(e) && *final(self) == *old(self),
            },
    {
        match result {
            Ok(quotes) => Ok(SampleStep::Quoted(quotes)),
            Err(Error::AlreadyStored) => {
                let step = self.next();
                Ok(step)
            },
            Err(e) => Err(e),
        }
    }
}

/// The prices of quotes.
pub open spec fn quoted_prices(quotes: Seq<StoreQuote>) -> Seq<Amount> {
    quotes.map_values(|q: StoreQuote| q.3)
}

/// The value of an amount.
pub open spec fn amount_value() -> spec_fn(Amount) -> nat {
    |a: Amount| a.value()
}

/// The price in the middle of all, the upper one of two; zero where there is
/// none.
pub open spec fn median_price(prices: Seq<Amount>) -> nat {
    if prices.len() == 0 {
        0
    } else {
        stable_sort(prices, amount_value())[prices.len() as int / 2].value()
    }
}

/// The storage cost of all chunks at the median price: a payment is three times
/// the median.
pub open spec fn storage_estimate(prices: Seq<Amount>, chunk_count: nat) -> nat {
    (median_price(prices) * 3 * chunk_count) % (two128() * two128())
}

/// The gas that the transactions of an upload use, at the advisory price.
pub open spec fn gas_estimate(chunk_count: int, merkle: bool) -> int {
    if merkle {
        part_count(chunk_count, MAX_LEAVES as int) * GAS_PER_MERKLE_TX * ARBITRUM_GAS_PRICE_WEI
    } else {
        part_count(chunk_count, UPLOAD_WAVE_SIZE as int) * GAS_PER_WAVE_TX * ARBITRUM_GAS_PRICE_WEI
    }
}

/// The payment mode of an upload of so many chunks.
pub open spec fn mode_used(chunk_count: int, mode: PaymentMode) -> PaymentMode {
    if merkle_applies(chunk_count, mode) {
        PaymentMode::Merkle
    } else {
        PaymentMode::Single
    }
}

fn find_median_price(quotes: &Vec<StoreQuote>) -> (r: Amount)
    ensures
        r.value() == median_price(quoted_prices(quotes@)),
{
    let ghost prices = quoted_prices(quotes@);
    let ghost key = amount_value();
    let n: usize = quotes.len();
    if n == 0 {
        return U256::zero();
    }
    let mut items: Vec<U256> = Vec::new();
    let mut keys: Vec<U256> = Vec::new();
    let mut i: usize = 0;
    while i < n
        invariant
            i <= n,
            n == quotes.len(),
            prices == quoted_prices(quotes@),
            key == amount_value(),
            items@ =~= prices.take(i as int),
            keys@ =~= prices.take(i as int),
        decreases n - i,
    {
        items.push(quotes[i].3);
        keys.push(quotes[i].3);
        i = i + 1;
    }
    assert(items@ =~= prices);
    let sorted = sort_by_keys(items, &keys, Ghost(key));
    proof {
        stable_sort_orders_and_keeps(prices, key);
    }
    sorted[n / 2]
}

fn round_up_division(n: usize, size: usize) -> (r: u128)
    requires
        size > 0,
    ensures
        r == part_count(n as int, size as int),
        r <= n,
{
    let whole: usize = n / size;
    let extra: usize = if n % size == 0 {
        0
    } else {
        1
    };
    proof {
        vstd::arithmetic::div_mod::lemma_fundamental_div_mod(n as int, size as int);
        assert(whole <= n && (extra == 1 ==> whole < n)) by (nonlinear_arith)
            requires
                n == size * whole + n % size,
                size > 0,
                extra == (if n % size == 0 { 0int } else { 1int }),
        ;
        if extra == 0 {
            assert((n + size - 1) / size as int == whole) by {
                vstd::arithmetic::div_mod::lemma_fundamental_div_mod_converse(
                    n + size - 1,
                    size as int,
                    whole as int,
                    size - 1,
                );
            }
        } else {
            assert((n + size - 1) / size as int == whole + 1) by {
                assert(n + size - 1 == size * (whole + 1) + (n % size - 1)) by (nonlinear_arith)
                    requires
                        n == size * whole + n % size,
                ;
                vstd::arithmetic::div_mod::lemma_fundamental_div_mod_converse(
                    n + size - 1,
                    size as int,
                    whole + 1,
                    n % size - 1,
                );
            }
        }
    }
    (whole as u128) + (extra as u128)
}

/// The estimate, from the quotes of a chunk that is not stored, or from the
/// fact that every sample is stored: only where these are all chunks is the
/// upload free.
pub fn estimate_cost(
    file_size: u64,
    chunk_count: usize,
    mode: PaymentMode,
    sampled: usize,
    quotes: Option<Vec<StoreQuote>>,
) -> (r: Result<UploadCostEstimate, Error>)
    ensures
        match quotes {
            Some(q) => r matches Ok(cost) && {
                &&& cost.file_size == file_size
                &&& cost.chunk_count == chunk_count
                &&& cost.storage_cost_atto@ == decimal_text(
                    storage_estimate(quoted_prices(q@), chunk_count as nat),
                )
                &&& cost.estimated_gas_cost_wei@ == decimal_text(
                    gas_estimate(
                        chunk_count as int,
                        merkle_applies(chunk_count as int, mode),
                    ) as nat,
                )
                &&& cost.payment_mode == mode_used(chunk_count as int, mode)
            },
            None => if sampled == chunk_count {
                r matches Ok(cost) && {
                    &&& cost.file_size == file_size
                    &&& cost.chunk_count == chunk_count
                    &&& cost.storage_cost_atto@ == "0"@
                    &&& cost.estimated_gas_cost_wei@ == "0"@
                    &&& cost.payment_mode == mode_used(chunk_count as int, mode)
                }
            } else {
                r matches Err(Error::CostEstimationInconclusive(m)) && m@ == "sampled "@
                    + decimal_text(sampled as nat) + " chunk addresses out of "@ + decimal_text(
                    chunk_count as nat,
                ) + " and every one reported AlreadyStored; cannot infer a representative price for the remaining chunks"@
            },
        },
{
    let uses_merkle = should_use_merkle(chunk_count, mode);
    let payment_mode = if uses_merkle {
        PaymentMode::Merkle
    } else {
        PaymentMode::Single
    };
    let quotes = match quotes {
        Some(q) => q,
        None => {
            if sampled == chunk_count {
                return Ok(
                    UploadCostEstimate {
                        file_size,
                        chunk_count,
                        storage_cost_atto: "0".to_owned(),
                        estimated_gas_cost_wei: "0".to_owned(),
                        payment_mode,
                    },
                );
            }
            let mut m = "sampled ".to_owned();
            push_decimal(&mut m, sampled as u128);
            m.append(" chunk addresses out of ");
            push_decimal(&mut m, chunk_count as u128);
            m.append(
                " and every one reported AlreadyStored; cannot infer a representative price for the remaining chunks",
            );
            return Err(Error::CostEstimationInconclusive(m));
        },
    };
    let median = find_median_price(&quotes);
    let per_chunk = median.wrapping_times(3);
    let total = per_chunk.wrapping_times(chunk_count as u64);
    proof {
        let modulus: int = (two128() * two128()) as int;
        let p = median_price(quoted_prices(quotes@));
        vstd::arithmetic::div_mod::lemma_mul_mod_noop_left(
            (p * 3) as int,
            chunk_count as int,
            modulus,
        );
        assert(total.value() == storage_estimate(quoted_prices(quotes@), chunk_count as nat));
    }
    let waves: u128 = round_up_division(chunk_count, UPLOAD_WAVE_SIZE);
    let batches: u128 = round_up_division(chunk_count, MAX_LEAVES);
    let gas: u128 = if uses_merkle {
        batches * GAS_PER_MERKLE_TX * ARBITRUM_GAS_PRICE_WEI
    } else {
        waves * GAS_PER_WAVE_TX * ARBITRUM_GAS_PRICE_WEI
    };
    Ok(
        UploadCostEstimate {
            file_size,
            chunk_count,
            storage_cost_atto: format_amount(&total),
            estimated_gas_cost_wei: decimal(gas),
            payment_mode,
        },
    )
}

/// The price that the estimate rests on is a median of the quoted ones: it is one of
/// them, no more than half of them are lower, and fewer than half of them, or half of
/// them, are higher.
pub proof fn estimated_price_is_a_median(prices: Seq<Amount>)
    requires
        prices.len() > 0,
    ensures
        exists|i: int|
            0 <= i < prices.len() && (#[trigger] prices[i]).value() == median_price(prices),
        2 * prices.filter(|a: Amount| a.value() < median_price(prices)).len() <= prices.len(),
        2 * prices.filter(|a: Amount| a.value() > median_price(prices)).len() <= prices.len() - 1,
{
    let n = prices.len() as int;
    let key = amount_value();
    let m = median_price(prices);
    let x = stable_sort(prices, key)[n / 2];
    sorted_place_is_the_rank(prices, key, n / 2);
    let i = choose|i: int| 0 <= i < prices.len() && prices[i] == x;
    assert(prices[i].value() == m);
    assert((|y: Amount| key(y) < key(x)) =~= (|a: Amount| a.value() < m));
    assert((|y: Amount| key(y) > key(x)) =~= (|a: Amount| a.value() > m));
}

/// For one close group of quotes the estimate is what the payments of all chunks
/// charge, at the price of the quote that a payment pays.
pub proof fn estimate_is_what_payments_charge(
    p: PreparedPayment,
    quotes: Seq<StoreQuote>,
    chunk_count: nat,
)
    requires
        prepared_from(p, quotes),
    ensures
        median_price(quoted_prices(quotes)) == paid_median(quotes).3.value(),
        storage_estimate(quoted_prices(quotes), chunk_count) == (amounts_sum(p.payment.quotes@)
            * chunk_count) % (two128() * two128()),
{
    let f = |q: StoreQuote| q.3;
    lemma_sort_map(quotes, f, price_key(), amount_value());
    stable_sort_orders_and_keeps(quotes, price_key());
    let sorted = stable_sort(quotes, price_key());
    assert(quoted_prices(quotes) =~= quotes.map_values(f));
    assert(stable_sort(quoted_prices(quotes), amount_value())[MEDIAN_QUOTE_INDEX as int] == f(
        sorted[MEDIAN_QUOTE_INDEX as int],
    ));
    recognised_issuer_is_paid(p, quotes);
    let listed = stable_sort(offers(quotes), offered_price());
    payment_costs_triple_median(p.payment, listed);
    let at = MEDIAN_QUOTE_INDEX as int;
    assert(crate::data::client::payment::pays(p.payment.quotes@[at], listed, at));
    let m = median_price(quoted_prices(quotes));
    assert(m * 3 * chunk_count == (3 * m) * chunk_count) by (nonlinear_arith);
}

/// Nothing quoted costs nothing, and as long as the cost fits, twice the chunks cost
/// twice as much.
pub proof fn estimate_grows_with_the_chunks(prices: Seq<Amount>, a: nat, b: nat)
    requires
        median_price(prices) * 3 * (a + b) < two128() * two128(),
    ensures
        storage_estimate(prices, 0) == 0,
        storage_estimate(prices, a + b) == storage_estimate(prices, a) + storage_estimate(
            prices,
            b,
        ),
        storage_estimate(prices, 1) == 3 * median_price(prices) || a + b == 0,
{
    let t = median_price(prices) * 3;
    let m = (two128() * two128()) as int;
    assert(t * (a + b) == t * a + t * b) by (nonlinear_arith);
    assert(t * 0 == 0 && t * 1 == t) by (nonlinear_arith);
    assert(t * a >= 0 && t * b >= 0) by (nonlinear_arith);
    if a + b > 0 {
        assert(t <= t * (a + b)) by (nonlinear_arith)
            requires
                a + b >= 1,
        ;
        vstd::arithmetic::div_mod::lemma_small_mod(t, m as nat);
    }
    vstd::arithmetic::div_mod::lemma_small_mod((t * (a + b)) as nat, m as nat);
    vstd::arithmetic::div_mod::lemma_small_mod((t * a) as nat, m as nat);
    vstd::arithmetic::div_mod::lemma_small_mod((t * b) as nat, m as nat);
    vstd::arithmetic::div_mod::lemma_small_mod(0, m as nat);
}

/// The gas is that of just as many transactions as it takes to pay for all chunks:
/// one for each wave, or one for each merkle tree.
pub proof fn gas_is_that_of_the_transactions(chunk_count: int, merkle: bool) -> (transactions: int)
    requires
        chunk_count >= 0,
    ensures
        ({
            let room = if merkle {
                MAX_LEAVES as int
            } else {
                UPLOAD_WAVE_SIZE as int
            };
            let each = if merkle {
                GAS_PER_MERKLE_TX as int
            } else {
                GAS_PER_WAVE_TX as int
            };
            &&& transactions * room >= chunk_count
            &&& chunk_count > 0 ==> (transactions - 1) * room < chunk_count
            &&& chunk_count == 0 ==> transactions == 0
            &&& gas_estimate(chunk_count, merkle) == transactions * (each
                * ARBITRUM_GAS_PRICE_WEI as int)
        }),
{
    let room = if merkle {
        MAX_LEAVES as int
    } else {
        UPLOAD_WAVE_SIZE as int
    };
    parts_are_just_enough(chunk_count, room);
    let t = part_count(chunk_count, room);
    let g = ARBITRUM_GAS_PRICE_WEI as int;
    let each = if merkle {
        GAS_PER_MERKLE_TX as int
    } else {
        GAS_PER_WAVE_TX as int
    };
    assert(t * each * g == t * (each * g)) by (nonlinear_arith);
    t
}

/// An upload is not paid by a tree against the user's wish or with a single chunk, and
/// is where the user asks for it and there are chunks enough.
pub proof fn mode_is_the_requested_one(chunk_count: int)
    ensures
        mode_used(chunk_count, PaymentMode::Single) == PaymentMode::Single,
        mode_used(chunk_count, PaymentMode::Merkle) == PaymentMode::Merkle <==> chunk_count >= 2,
        mode_used(chunk_count, PaymentMode::Auto) == PaymentMode::Merkle ==> chunk_count >= 2,
        !(mode_used(chunk_count, PaymentMode::Auto) is Auto),
{
}

} // verus!
