//! Paying for the storage of one chunk.

use ant_protocol::evm;
use ant_protocol::evm::Amount as EvmAmount;
use std::time::{Duration, UNIX_EPOCH};
use vstd::prelude::*;
use vstd::string::*;
use xor_name::XorName;

use crate::collections::address_views;
use crate::data::client::quote::{StoreQuote, MEDIAN_QUOTE_INDEX};
use crate::data::client::selection::{
    median_paid_quote_issuer, paid_median, price_key,
};
use crate::data::error::{gives_reason, joined, Error};
use crate::order::{lemma_sort_map, stable_sort, stable_sort_orders_and_keeps};
use crate::protocol::{
    peer_quote_views, quote_hash, serialize_single_node_proof, single_node_proof,
    PaymentQuote, CLOSE_GROUP_SIZE, PROOF_TAG_SINGLE_NODE,
};
use crate::text::decimal_text;
use crate::uint256::{be_value, two128, Amount, U256};
use crate::xor::PeerId;

verus! {

/// What one quote is paid.
#[derive(Clone, Copy, Debug)]
pub struct QuotePaymentInfo {
    /// Hash of the quote.
    pub quote_hash: [u8; 32],
    /// Account that the payment goes to.
    pub rewards_address: [u8; 20],
    /// The amount to pay.
    pub amount: Amount,
    /// The quoted price.
    pub price: Amount,
}

/// Payment of one chunk: the quotes by ascending price, of which the middle one
/// is paid.
#[derive(Debug)]
pub struct SingleNodePayment {
    pub quotes: Vec<QuotePaymentInfo>,
}

/// Price of a quote that is to be paid.
pub open spec fn offered_price() -> spec_fn((PaymentQuote, Amount)) -> nat {
    |q: (PaymentQuote, Amount)| q.1.value()
}

/// What the payment of a set of quotes holds at position `i`: the quotes by
/// ascending price, three times the price for the middle one, nothing for the
/// others.
pub open spec fn pays(info: QuotePaymentInfo, sorted: Seq<(PaymentQuote, Amount)>, i: int) -> bool {
    &&& info.quote_hash@ == quote_hash(sorted[i].0@)
    &&& info.rewards_address == sorted[i].0.rewards_address
    &&& info.price.value() == sorted[i].1.value()
    &&& info.amount.value() == if i == MEDIAN_QUOTE_INDEX {
        3 * sorted[i].1.value()
    } else {
        0
    }
}

/// What is said of a number of quotes out of which no payment can be made: there
/// is not one close group of them or, where there is, three times the middle
/// price does not fit.
pub open spec fn payment_complaint(count: nat) -> Seq<char> {
    "payment error: "@ + if count != CLOSE_GROUP_SIZE {
        "SingleNode payment requires exactly "@ + decimal_text(CLOSE_GROUP_SIZE as nat)
            + " quotes, got "@ + decimal_text(count)
    } else {
        "Price overflow when calculating 3x median"@
    }
}

/// `SingleNodePayment::from_quotes`: of each quote, by ascending price and equal
/// prices in their order, its hash, its account, what it is paid and its price.
/// The quote in the middle is paid three times its price, the others nothing.
/// There has to be one close group of quotes, and the amount has to fit. The
/// times of the quotes have to be ones that a clock can show.
#[verifier::external_body]
fn pay_middle_quote(quotes: Vec<(PaymentQuote, Amount)>) -> (r: Result<
    Vec<([u8; 32], [u8; 20], [u8; 32], [u8; 32])>,
    String,
>)
    requires
        forall|i: int| 0 <= i < quotes@.len() ==> (#[trigger] quotes@[i]).0.timely(),
    ensures
        ({
            let sorted = stable_sort(quotes@, offered_price());
            let due = 3 * sorted[MEDIAN_QUOTE_INDEX as int].1.value();
            match r {
                Ok(paid) => {
                    &&& quotes@.len() == CLOSE_GROUP_SIZE && due < two128() * two128()
                    &&& paid@.len() == CLOSE_GROUP_SIZE
                    &&& forall|i: int|
                        0 <= i < paid@.len() ==> {
                            &&& (#[trigger] paid@[i]).0@ == quote_hash(sorted[i].0@)
                            &&& paid@[i].1 == sorted[i].0.rewards_address
                            &&& be_value(paid@[i].2@) == if i == MEDIAN_QUOTE_INDEX {
                                due
                            } else {
                                0
                            }
                            &&& be_value(paid@[i].3@) == sorted[i].1.value()
                        }
                },
                Err(m) => {
                    &&& quotes@.len() == CLOSE_GROUP_SIZE ==> due >= two128() * two128()
                    &&& m@ == payment_complaint(quotes@.len())
                },
            }
        }),
{
    let offers = quotes.into_iter().map(|(q, price)| (evm::PaymentQuote {
        content: XorName(q.content),
        timestamp: UNIX_EPOCH + Duration::new(q.timestamp_secs, q.timestamp_nanos),
        price: EvmAmount::from_be_bytes(q.price.to_be_bytes()),
        rewards_address: q.rewards_address.into(),
        pub_key: q.pub_key, signature: q.signature,
        committed_key_count: q.committed_key_count, commitment_pin: q.commitment_pin,
    }, EvmAmount::from_be_bytes(price.to_be_bytes()))).collect();
    let paid = ant_protocol::SingleNodePayment::from_quotes(offers).map_err(|e| e.to_string())?;
    Ok(paid.quotes.into_iter().map(|i| (i.quote_hash.0, i.rewards_address.into_array(),
        i.amount.to_be_bytes(), i.price.to_be_bytes())).collect())
}

impl SingleNodePayment {
    /// The payment of one close group of quotes, or why there can be none.
    pub fn from_quotes(quotes: Vec<(PaymentQuote, Amount)>) -> (r: Result<
        SingleNodePayment,
        String,
    >)
        requires
            forall|i: int| 0 <= i < quotes@.len() ==> (#[trigger] quotes@[i]).0.timely(),
        ensures
            ({
                let sorted = stable_sort(quotes@, offered_price());
                let due = 3 * sorted[MEDIAN_QUOTE_INDEX as int].1.value();
                match r {
                    Ok(payment) => {
                        &&& quotes@.len() == CLOSE_GROUP_SIZE && due < two128() * two128()
                        &&& payment.quotes@.len() == CLOSE_GROUP_SIZE
                        &&& forall|i: int|
                            0 <= i < payment.quotes@.len() ==> pays(
                                #[trigger] payment.quotes@[i],
                                sorted,
                                i,
                            )
                    },
                    Err(m) => {
                        &&& quotes@.len() == CLOSE_GROUP_SIZE ==> due >= two128() * two128()
                        &&& m@ == payment_complaint(quotes@.len())
                    },
                }
            }),
    {
        let ghost sorted = stable_sort(quotes@, offered_price());
        let paid = match pay_middle_quote(quotes) {
            Ok(paid) => paid,
            Err(m) => {
                return Err(m);
            },
        };
        let mut infos: Vec<QuotePaymentInfo> = Vec::new();
        let mut i: usize = 0;
        while i < paid.len()
            invariant
                i <= paid.len(),
                infos.len() == i,
                forall|k: int|
                    0 <= k < paid@.len() ==> {
                        &&& (#[trigger] paid@[k]).0@ == quote_hash(sorted[k].0@)
                        &&& paid@[k].1 == sorted[k].0.rewards_address
                        &&& be_value(paid@[k].2@) == if k == MEDIAN_QUOTE_INDEX {
                            3 * sorted[k].1.value()
                        } else {
                            0
                        }
                        &&& be_value(paid@[k].3@) == sorted[k].1.value()
                    },
                forall|k: int| 0 <= k < i ==> pays(#[trigger] infos[k], sorted, k),
            decreases paid.len() - i,
        {
            let amount = U256::from_be_bytes(&paid[i].2);
            let price = U256::from_be_bytes(&paid[i].3);
            infos.push(
                QuotePaymentInfo {
                    quote_hash: paid[i].0,
                    rewards_address: paid[i].1,
                    amount,
                    price,
                },
            );
            assert(pays(infos[i as int], sorted, i as int));
            i = i + 1;
        }
        Ok(SingleNodePayment { quotes: infos })
    }
}

/// Adding to a remainder is adding to the number.
pub(crate) proof fn lemma_sum_mod(a: nat, b: nat)
    ensures
        (a % (two128() * two128()) + b) % (two128() * two128()) == (a + b) % (two128() * two128()),
{
    let m = (two128() * two128()) as int;
    vstd::arithmetic::div_mod::lemma_add_mod_noop(a as int, b as int, m);
    vstd::arithmetic::div_mod::lemma_add_mod_noop((a as int) % m, b as int, m);
    vstd::arithmetic::div_mod::lemma_mod_twice(a as int, m);
}

/// The sum of the amounts.
pub open spec fn amounts_sum(infos: Seq<QuotePaymentInfo>) -> nat
    decreases infos.len(),
{
    if infos.len() == 0 {
        0
    } else {
        amounts_sum(infos.drop_last()) + infos.last().amount.value()
    }
}

proof fn lemma_amounts_of_one(infos: Seq<QuotePaymentInfo>, at: int)
    requires
        0 <= at,
        forall|i: int|
            0 <= i < infos.len() && i != at ==> (#[trigger] infos[i]).amount.value() == 0,
    ensures
        amounts_sum(infos) == if at < infos.len() {
            infos[at].amount.value()
        } else {
            0
        },
    decreases infos.len(),
{
    if infos.len() > 0 {
        lemma_amounts_of_one(infos.drop_last(), at);
    }
}

/// A payment costs exactly three times the price of the quote in the middle.
pub proof fn payment_costs_triple_median(
    payment: SingleNodePayment,
    sorted: Seq<(PaymentQuote, Amount)>,
)
    requires
        payment.quotes@.len() == CLOSE_GROUP_SIZE,
        forall|i: int|
            0 <= i < payment.quotes@.len() ==> pays(#[trigger] payment.quotes@[i], sorted, i),
    ensures
        amounts_sum(payment.quotes@) == 3 * sorted[MEDIAN_QUOTE_INDEX as int].1.value(),
{
    assert forall|i: int|
        0 <= i < payment.quotes@.len() && i != MEDIAN_QUOTE_INDEX implies (
    #[trigger] payment.quotes@[i]).amount.value() == 0 by {
        assert(pays(payment.quotes@[i], sorted, i));
    }
    lemma_amounts_of_one(payment.quotes@, MEDIAN_QUOTE_INDEX as int);
    assert(pays(payment.quotes@[MEDIAN_QUOTE_INDEX as int], sorted, MEDIAN_QUOTE_INDEX as int));
}

/// Where a chunk is sent once it is paid.
pub type QuotedPeers = Vec<(PeerId, Vec<ant_protocol::transport::MultiAddr>)>;

/// What stands ready to be paid for one chunk.
pub struct PreparedPayment {
    /// The issuers of the quotes and where they are reached.
    pub quoted_peers: QuotedPeers,
    pub payment: SingleNodePayment,
    /// The quotes with their issuers, for the proof.
    pub peer_quotes: Vec<([u8; 32], PaymentQuote)>,
}

/// The quotes and prices of a set of store quotes.
pub open spec fn offers(quotes: Seq<StoreQuote>) -> Seq<(PaymentQuote, Amount)> {
    quotes.map_values(|q: StoreQuote| (q.2, q.3))
}

/// The quotes all bear times that a clock can show.
pub open spec fn all_timely(quotes: Seq<StoreQuote>) -> bool {
    forall|i: int| 0 <= i < quotes.len() ==> (#[trigger] quotes[i]).2.timely()
}

/// The prepared payment belongs to these quotes.
pub open spec fn prepared_from(p: PreparedPayment, quotes: Seq<StoreQuote>) -> bool {
    &&& quotes.len() == CLOSE_GROUP_SIZE
    &&& p.quoted_peers@ == quotes.map_values(|q: StoreQuote| (q.0, q.1))
    &&& p.peer_quotes@.len() == quotes.len()
    &&& forall|i: int|
        0 <= i < quotes.len() ==> (#[trigger] p.peer_quotes@[i]).0 == quotes[i].0.0
            && p.peer_quotes@[i].1@ == quotes[i].2@ && p.peer_quotes@[i].1.timely()
    &&& p.payment.quotes@.len() == CLOSE_GROUP_SIZE
    &&& forall|i: int|
        0 <= i < p.payment.quotes@.len() ==> pays(
            #[trigger] p.payment.quotes@[i],
            stable_sort(offers(quotes), offered_price()),
            i,
        )
}

/// Why a payment cannot be prepared from these quotes.
pub open spec fn unpayable(e: Error, quotes: Seq<StoreQuote>) -> bool {
    let sorted = stable_sort(offers(quotes), offered_price());
    &&& quotes.len() == CLOSE_GROUP_SIZE ==> 3 * sorted[MEDIAN_QUOTE_INDEX as int].1.value()
        >= two128() * two128()
    &&& e matches Error::Payment(m) && m@ == "Failed to create payment: "@ + payment_complaint(
        quotes.len(),
    )
}

/// Prepares the payment of a chunk from its quotes.
pub fn prepare_payment(quotes: Vec<StoreQuote>) -> (r: Result<PreparedPayment, Error>)
    requires
        all_timely(quotes@),
    ensures
        match r {
            Ok(p) => prepared_from(p, quotes@),
            Err(e) => unpayable(e, quotes@),
        },
{
    let ghost given = quotes@;
    let mut rest = quotes;
    let n: usize = rest.len();
    let mut quoted_peers: QuotedPeers = Vec::new();
    let mut peer_quotes: Vec<([u8; 32], PaymentQuote)> = Vec::new();
    let mut for_payment: Vec<(PaymentQuote, Amount)> = Vec::new();
    let mut i: usize = 0;
    let ghost pair = |q: StoreQuote| (q.0, q.1);
    assert(given.skip(0) =~= given);
    assert(quoted_peers@ =~= given.map_values(pair).take(0));
    assert(for_payment@ =~= offers(given).take(0));
    while i < n
        invariant
            i <= n,
            n == given.len(),
            rest@ == given.skip(i as int),
            all_timely(given),
            pair == (|q: StoreQuote| (q.0, q.1)),
            quoted_peers@ == given.map_values(pair).take(i as int),
            for_payment@ == offers(given).take(i as int),
            peer_quotes.len() == i,
            forall|k: int|
                0 <= k < i ==> (#[trigger] peer_quotes@[k]).0 == given[k].0.0
                    && peer_quotes@[k].1@ == given[k].2@ && peer_quotes@[k].1.timely(),
        decreases n - i,
    {
        let (peer_id, addrs, quote, price) = rest.remove(0);
        proof {
            assert((peer_id, addrs, quote, price) == given[i as int]);
            assert(given[i as int].2.timely());
            assert(rest@ =~= given.skip(i + 1));
            assert(given.map_values(pair).take(i + 1) =~= given.map_values(pair).take(
                i as int,
            ).push((peer_id, addrs)));
            assert(offers(given).take(i + 1) =~= offers(given).take(i as int).push(
                (quote, price),
            ));
        }
        quoted_peers.push((peer_id, addrs));
        peer_quotes.push((peer_id.0, quote.duplicate()));
        for_payment.push((quote, price));
        i = i + 1;
    }
    proof {
        assert(given.map_values(pair).take(n as int) =~= given.map_values(pair));
        assert(offers(given).take(n as int) =~= offers(given));
        assert forall|k: int| 0 <= k < for_payment@.len() implies (#[trigger] for_payment@[k]).0.timely() by {
            assert(offers(given)[k].0 == given[k].2);
            assert(given[k].2.timely());
        }
    }
    match SingleNodePayment::from_quotes(for_payment) {
        Ok(payment) => Ok(PreparedPayment { quoted_peers, payment, peer_quotes }),
        Err(m) => Err(Error::Payment(joined("Failed to create payment: ", m.as_str()))),
    }
}

/// The issuer that is recognised as the paid one is the issuer whose quote is
/// paid.
pub proof fn recognised_issuer_is_paid(p: PreparedPayment, quotes: Seq<StoreQuote>)
    requires
        prepared_from(p, quotes),
    ensures
        ({
            let info = p.payment.quotes@[MEDIAN_QUOTE_INDEX as int];
            let paid = paid_median(quotes);
            &&& info.quote_hash@ == quote_hash(paid.2@)
            &&& info.price.value() == paid.3.value()
            &&& info.amount.value() == 3 * paid.3.value()
        }),
{
    let f = |q: StoreQuote| (q.2, q.3);
    lemma_sort_map(quotes, f, price_key(), offered_price());
    stable_sort_orders_and_keeps(quotes, price_key());
    let sorted = stable_sort(offers(quotes), offered_price());
    assert(offers(quotes) =~= quotes.map_values(f));
    assert(sorted[MEDIAN_QUOTE_INDEX as int] == f(paid_median(quotes)));
    assert(pays(p.payment.quotes@[MEDIAN_QUOTE_INDEX as int], sorted, MEDIAN_QUOTE_INDEX as int));
}

/// Tests that there is a wallet to pay with.
pub fn require_wallet(configured: bool) -> (r: Result<(), Error>)
    ensures
        r is Ok <==> configured,
        r matches Err(e) ==> e matches Error::Payment(m) && m@
            == "Wallet not configured — call with_wallet() first"@,
{
    if configured {
        Ok(())
    } else {
        Err(Error::Payment("Wallet not configured — call with_wallet() first".to_owned()))
    }
}

/// The error where the payment contract may not be allowed to spend tokens.
pub fn approval_error(reason: &str) -> (r: Error)
    ensures
        r matches Error::Payment(m) && m@ == "Token approval failed: "@ + reason@,
{
    Error::Payment(joined("Token approval failed: ", reason))
}

/// Plans the payment of one chunk from its quotes.
pub fn plan_storage_payment(quotes: Vec<StoreQuote>) -> (r: Result<PreparedPayment, Error>)
    requires
        all_timely(quotes@),
    ensures
        match r {
            Ok(p) => prepared_from(p, quotes@),
            Err(e) => if quotes@.len() <= MEDIAN_QUOTE_INDEX {
                e matches Error::Payment(m) && m@
                    == "Failed to select median quote issuer from witnessed quotes"@
            } else {
                unpayable(e, quotes@)
            },
        },
{
    if median_paid_quote_issuer(&quotes).is_none() {
        return Err(
            Error::Payment(
                "Failed to select median quote issuer from witnessed quotes".to_owned(),
            ),
        );
    }
    prepare_payment(quotes)
}

/// Whether an error says that a proof of payment has no wire form.
pub open spec fn proof_unwritten(e: Error) -> bool {
    e matches Error::Serialization(m) && gives_reason(m@, "Failed to serialize payment proof: "@)
}

/// Builds the proof that a chunk was paid for.
pub fn payment_proof(
    peer_quotes: Vec<([u8; 32], PaymentQuote)>,
    tx_hashes: Vec<[u8; 32]>,
) -> (r: Result<Vec<u8>, Error>)
    requires
        forall|i: int| 0 <= i < peer_quotes@.len() ==> (#[trigger] peer_quotes@[i]).1.timely(),
    ensures
        match r {
            Ok(bytes) => single_node_proof(
                peer_quote_views(peer_quotes@),
                address_views(tx_hashes@),
            ) == Some(bytes@) && bytes@.len() > 0 && bytes@[0] == PROOF_TAG_SINGLE_NODE,
            Err(e) => proof_unwritten(e) && single_node_proof(
                peer_quote_views(peer_quotes@),
                address_views(tx_hashes@),
            ) is None,
        },
{
    match serialize_single_node_proof(peer_quotes, tx_hashes) {
        Ok(bytes) => Ok(bytes),
        Err(e) => Err(
            Error::Serialization(joined("Failed to serialize payment proof: ", e.as_str())),
        ),
    }
}

/// Ends the payment of one chunk with what the wallet answered: the proof for
/// its storers, and the peers that quoted for it.
pub fn storage_receipt(prepared: PreparedPayment, paid: Result<Vec<[u8; 32]>, String>) -> (r:
    Result<(Vec<u8>, QuotedPeers), Error>)
    requires
        forall|i: int|
            0 <= i < prepared.peer_quotes@.len() ==> (#[trigger] prepared.peer_quotes@[i]).1.timely(),
    ensures
        match paid {
            Err(reason) => r matches Err(Error::Payment(m)) && m@ == "On-chain payment failed: "@
                + reason@,
            Ok(tx_hashes) => ({
                let proof = single_node_proof(
                    peer_quote_views(prepared.peer_quotes@),
                    address_views(tx_hashes@),
                );
                match r {
                    Ok((bytes, peers)) => proof == Some(bytes@) && peers == prepared.quoted_peers
                        && bytes@.len() > 0 && bytes@[0] == PROOF_TAG_SINGLE_NODE,
                    Err(e) => proof_unwritten(e) && proof is None,
                }
            }),
        },
{
    match paid {
        Err(reason) => Err(Error::Payment(joined("On-chain payment failed: ", reason.as_str()))),
        Ok(tx_hashes) => match payment_proof(prepared.peer_quotes, tx_hashes) {
            Ok(bytes) => Ok((bytes, prepared.quoted_peers)),
            Err(e) => Err(e),
        },
    }
}

/// Amounts add up: what two lists pay together is what they pay one by one, and a list
/// of one pays what that one is paid.
pub proof fn amounts_add_up(a: Seq<QuotePaymentInfo>, b: Seq<QuotePaymentInfo>)
    ensures
        amounts_sum(a + b) == amounts_sum(a) + amounts_sum(b),
        forall|i: QuotePaymentInfo| amounts_sum(#[trigger] seq![i]) == i.amount.value(),
        amounts_sum(Seq::empty()) == 0,
    decreases b.len(),
{
    if b.len() == 0 {
        assert(a + b =~= a);
    } else {
        assert((a + b).drop_last() =~= a + b.drop_last());
        amounts_add_up(a, b.drop_last());
    }
    assert forall|i: QuotePaymentInfo| amounts_sum(#[trigger] seq![i]) == i.amount.value() by {
        assert(seq![i].drop_last() =~= Seq::empty());
        assert(amounts_sum(Seq::empty()) == 0);
    }
}

/// The payment of a chunk pays one quote: that of the issuer whose quote is in the
/// middle, three times its price, to the account that this quote names. Every other
/// entry pays nothing. Each entry is that of one of the quotes, with its hash, its
/// account and its price.
pub proof fn one_issuer_is_paid(p: PreparedPayment, quotes: Seq<StoreQuote>)
    requires
        prepared_from(p, quotes),
    ensures
        ({
            let infos = p.payment.quotes@;
            let paid = paid_median(quotes);
            let at = CLOSE_GROUP_SIZE as int / 2;
            &&& infos.len() == quotes.len()
            &&& infos[at].quote_hash@ == quote_hash(paid.2@)
            &&& infos[at].rewards_address == paid.2.rewards_address
            &&& infos[at].amount.value() == 3 * paid.3.value()
            &&& forall|i: int|
                0 <= i < infos.len() && i != at ==> (#[trigger] infos[i]).amount.value() == 0
            &&& forall|i: int|
                0 <= i < infos.len() ==> exists|k: int|
                    {
                        &&& 0 <= k < quotes.len()
                        &&& (#[trigger] infos[i]).quote_hash@ == quote_hash(
                            (#[trigger] quotes[k]).2@,
                        )
                        &&& infos[i].rewards_address == quotes[k].2.rewards_address
                        &&& infos[i].price.value() == quotes[k].3.value()
                    }
            &&& forall|i: int, j: int|
                0 <= i < j < infos.len() ==> (#[trigger] infos[i]).price.value() <= (
                #[trigger] infos[j]).price.value()
        }),
{
    let f = |q: StoreQuote| (q.2, q.3);
    let infos = p.payment.quotes@;
    let by_price = stable_sort(quotes, price_key());
    lemma_sort_map(quotes, f, price_key(), offered_price());
    stable_sort_orders_and_keeps(quotes, price_key());
    let sorted = stable_sort(offers(quotes), offered_price());
    assert(offers(quotes) =~= quotes.map_values(f));
    assert(sorted == by_price.map_values(f));
    let at = MEDIAN_QUOTE_INDEX as int;
    assert(sorted[at] == f(paid_median(quotes)));
    assert(pays(infos[at], sorted, at));
    assert forall|i: int| 0 <= i < infos.len() && i != at implies (
    #[trigger] infos[i]).amount.value() == 0 by {
        assert(pays(infos[i], sorted, i));
    }
    assert forall|i: int| 0 <= i < infos.len() implies exists|k: int|
        {
            &&& 0 <= k < quotes.len()
            &&& (#[trigger] infos[i]).quote_hash@ == quote_hash((#[trigger] quotes[k]).2@)
            &&& infos[i].rewards_address == quotes[k].2.rewards_address
            &&& infos[i].price.value() == quotes[k].3.value()
        } by {
        assert(pays(infos[i], sorted, i));
        assert(sorted[i] == f(by_price[i]));
        assert(by_price.contains(by_price[i]));
        crate::order::lemma_stable_sort_contains(quotes, price_key(), by_price[i]);
        let k = choose|k: int| 0 <= k < quotes.len() && quotes[k] == by_price[i];
        assert(infos[i].quote_hash@ == quote_hash(quotes[k].2@));
    }
    assert forall|i: int, j: int| 0 <= i < j < infos.len() implies (
    #[trigger] infos[i]).price.value() <= (#[trigger] infos[j]).price.value() by {
        assert(pays(infos[i], sorted, i) && pays(infos[j], sorted, j));
        assert(price_key()(by_price[i]) <= price_key()(by_price[j]));
        assert(sorted[i] == f(by_price[i]) && sorted[j] == f(by_price[j]));
    }
}

} // verus!
