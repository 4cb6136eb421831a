//! What the compact form gives, one pass gives too.

use vstd::prelude::*;
use vstd::string::StringSliceAdditionalSpecFns;

use crate::bytes;
use crate::vector::compact;
use crate::vector::compact::State;
use crate::vector::helpers;
use crate::vector::numeral;
use crate::vector::scan;
use crate::vector::single_pass;
use crate::vector::single_pass::Field;
use crate::vector::single_pass::Progress;
use crate::vector::single_pass::Section;
use crate::vector::single_pass::Step;
use crate::SCALE;

verus! {

/// A quoted name without escapes stands in `s` at `at`, and a colon behind it.
spec fn names(s: Seq<u8>, at: int, name: Seq<u8>) -> bool {
    let n = name.len() as int;
    &&& 0 <= at
    &&& at + n + 3 <= s.len()
    &&& s[at] == '"' as u8
    &&& s.subrange(at + 1, at + 1 + n) == name
    &&& s[at + 1 + n] == '"' as u8
    &&& s[at + 2 + n] == ':' as u8
    &&& forall|k: int| 0 <= k < n ==> #[trigger] name[k] != '"' as u8 && name[k] != '\\' as u8
}

/// What stands in a part of a text stands in the text.
proof fn lemma_names_carry(json: Seq<u8>, part: Seq<u8>, at: int, k: int, name: Seq<u8>)
    requires
        bytes::occurs_at(json, part, at),
        names(part, k, name),
    ensures
        names(json, at + k, name),
{
    let n = name.len() as int;
    assert(json.subrange(at, at + part.len())[k] == json[at + k]);
    assert(json.subrange(at, at + part.len())[k + 1 + n] == json[at + k + 1 + n]);
    assert(json.subrange(at, at + part.len())[k + 2 + n] == json[at + k + 2 + n]);
    assert(json.subrange(at + k + 1, at + k + 1 + n) =~= json.subrange(
        at,
        at + part.len(),
    ).subrange(k + 1, k + 1 + n));
}

/// Byte `k` of a part of a text is a byte of the text.
proof fn lemma_byte_carries(json: Seq<u8>, part: Seq<u8>, at: int, k: int)
    requires
        bytes::occurs_at(json, part, at),
        0 <= k < part.len(),
    ensures
        scan::byte_at(json, at + k, part[k]),
{
    assert(json.subrange(at, at + part.len())[k] == json[at + k]);
}

proof fn lemma_expect_id(json: Seq<u8>, s: State)
    requires
        s.expect(json, "{\"id\":\"".spec_bytes()).error is None,
    ensures
        s.error is None,
        0 <= s.at,
        s.at + 7 <= json.len(),
        s.expect(json, "{\"id\":\"".spec_bytes()) == (State { at: s.at + 7, ..s }),
        "id".spec_bytes().len() == 2,
        names(json, s.at + 1, "id".spec_bytes()),
        scan::byte_at(json, s.at, '{' as u8),
        scan::byte_at(json, s.at + 6, '"' as u8),
{
    reveal_strlit("{\"id\":\"");
    reveal_strlit("id");
    assert(vstd::string::is_ascii("{\"id\":\""));
    assert(vstd::string::is_ascii("id"));
    let t = "{\"id\":\"".spec_bytes();
    assert(t.subrange(2, 4) =~= "id".spec_bytes());
    lemma_names_carry(json, t, s.at, 1, "id".spec_bytes());
    lemma_byte_carries(json, t, s.at, 0);
    lemma_byte_carries(json, t, s.at, 6);
}

proof fn lemma_expect_amount(json: Seq<u8>, s: State)
    requires
        s.expect(json, ",\"transaction\":{\"amount\":".spec_bytes()).error is None,
    ensures
        s.error is None,
        0 <= s.at,
        s.at + 25 <= json.len(),
        s.expect(json, ",\"transaction\":{\"amount\":".spec_bytes()) == (State { at: s.at + 25, ..s }),
        "transaction".spec_bytes().len() == 11,
        names(json, s.at + 1, "transaction".spec_bytes()),
        "amount".spec_bytes().len() == 6,
        names(json, s.at + 16, "amount".spec_bytes()),
        scan::byte_at(json, s.at, ',' as u8),
        scan::byte_at(json, s.at + 15, '{' as u8),
{
    reveal_strlit(",\"transaction\":{\"amount\":");
    reveal_strlit("transaction");
    reveal_strlit("amount");
    assert(vstd::string::is_ascii(",\"transaction\":{\"amount\":"));
    assert(vstd::string::is_ascii("transaction"));
    assert(vstd::string::is_ascii("amount"));
    let t = ",\"transaction\":{\"amount\":".spec_bytes();
    assert(t.subrange(2, 13) =~= "transaction".spec_bytes());
    assert(t.subrange(17, 23) =~= "amount".spec_bytes());
    lemma_names_carry(json, t, s.at, 1, "transaction".spec_bytes());
    lemma_names_carry(json, t, s.at, 16, "amount".spec_bytes());
    lemma_byte_carries(json, t, s.at, 0);
    lemma_byte_carries(json, t, s.at, 15);
}

proof fn lemma_expect_installments(json: Seq<u8>, s: State)
    requires
        s.expect(json, ",\"installments\":".spec_bytes()).error is None,
    ensures
        s.error is None,
        0 <= s.at,
        s.at + 16 <= json.len(),
        s.expect(json, ",\"installments\":".spec_bytes()) == (State { at: s.at + 16, ..s }),
        "installments".spec_bytes().len() == 12,
        names(json, s.at + 1, "installments".spec_bytes()),
        scan::byte_at(json, s.at, ',' as u8),
{
    reveal_strlit(",\"installments\":");
    reveal_strlit("installments");
    assert(vstd::string::is_ascii(",\"installments\":"));
    assert(vstd::string::is_ascii("installments"));
    let t = ",\"installments\":".spec_bytes();
    assert(t.subrange(2, 14) =~= "installments".spec_bytes());
    lemma_names_carry(json, t, s.at, 1, "installments".spec_bytes());
    lemma_byte_carries(json, t, s.at, 0);
}

proof fn lemma_expect_requested_at(json: Seq<u8>, s: State)
    requires
        s.expect(json, ",\"requested_at\":\"".spec_bytes()).error is None,
    ensures
        s.error is None,
        0 <= s.at,
        s.at + 17 <= json.len(),
        s.expect(json, ",\"requested_at\":\"".spec_bytes()) == (State { at: s.at + 17, ..s }),
        "requested_at".spec_bytes().len() == 12,
        names(json, s.at + 1, "requested_at".spec_bytes()),
        scan::byte_at(json, s.at, ',' as u8),
        scan::byte_at(json, s.at + 16, '"' as u8),
{
    reveal_strlit(",\"requested_at\":\"");
    reveal_strlit("requested_at");
    assert(vstd::string::is_ascii(",\"requested_at\":\""));
    assert(vstd::string::is_ascii("requested_at"));
    let t = ",\"requested_at\":\"".spec_bytes();
    assert(t.subrange(2, 14) =~= "requested_at".spec_bytes());
    lemma_names_carry(json, t, s.at, 1, "requested_at".spec_bytes());
    lemma_byte_carries(json, t, s.at, 0);
    lemma_byte_carries(json, t, s.at, 16);
}

proof fn lemma_expect_customer(json: Seq<u8>, s: State)
    requires
        s.expect(json, "},\"customer\":{\"avg_amount\":".spec_bytes()).error is None,
    ensures
        s.error is None,
        0 <= s.at,
        s.at + 27 <= json.len(),
        s.expect(json, "},\"customer\":{\"avg_amount\":".spec_bytes()) == (State { at: s.at + 27, ..s }),
        "customer".spec_bytes().len() == 8,
        names(json, s.at + 2, "customer".spec_bytes()),
        "avg_amount".spec_bytes().len() == 10,
        names(json, s.at + 14, "avg_amount".spec_bytes()),
        scan::byte_at(json, s.at, '}' as u8),
        scan::byte_at(json, s.at + 1, ',' as u8),
        scan::byte_at(json, s.at + 13, '{' as u8),
{
    reveal_strlit("},\"customer\":{\"avg_amount\":");
    reveal_strlit("customer");
    reveal_strlit("avg_amount");
    assert(vstd::string::is_ascii("},\"customer\":{\"avg_amount\":"));
    assert(vstd::string::is_ascii("customer"));
    assert(vstd::string::is_ascii("avg_amount"));
    let t = "},\"customer\":{\"avg_amount\":".spec_bytes();
    assert(t.subrange(3, 11) =~= "customer".spec_bytes());
    assert(t.subrange(15, 25) =~= "avg_amount".spec_bytes());
    lemma_names_carry(json, t, s.at, 2, "customer".spec_bytes());
    lemma_names_carry(json, t, s.at, 14, "avg_amount".spec_bytes());
    lemma_byte_carries(json, t, s.at, 0);
    lemma_byte_carries(json, t, s.at, 1);
    lemma_byte_carries(json, t, s.at, 13);
}

proof fn lemma_expect_tx_count(json: Seq<u8>, s: State)
    requires
        s.expect(json, ",\"tx_count_24h\":".spec_bytes()).error is None,
    ensures
        s.error is None,
        0 <= s.at,
        s.at + 16 <= json.len(),
        s.expect(json, ",\"tx_count_24h\":".spec_bytes()) == (State { at: s.at + 16, ..s }),
        "tx_count_24h".spec_bytes().len() == 12,
        names(json, s.at + 1, "tx_count_24h".spec_bytes()),
        scan::byte_at(json, s.at, ',' as u8),
{
    reveal_strlit(",\"tx_count_24h\":");
    reveal_strlit("tx_count_24h");
    assert(vstd::string::is_ascii(",\"tx_count_24h\":"));
    assert(vstd::string::is_ascii("tx_count_24h"));
    let t = ",\"tx_count_24h\":".spec_bytes();
    assert(t.subrange(2, 14) =~= "tx_count_24h".spec_bytes());
    lemma_names_carry(json, t, s.at, 1, "tx_count_24h".spec_bytes());
    lemma_byte_carries(json, t, s.at, 0);
}

proof fn lemma_expect_known(json: Seq<u8>, s: State)
    requires
        s.expect(json, ",\"known_merchants\":".spec_bytes()).error is None,
    ensures
        s.error is None,
        0 <= s.at,
        s.at + 19 <= json.len(),
        s.expect(json, ",\"known_merchants\":".spec_bytes()) == (State { at: s.at + 19, ..s }),
        "known_merchants".spec_bytes().len() == 15,
        names(json, s.at + 1, "known_merchants".spec_bytes()),
        scan::byte_at(json, s.at, ',' as u8),
{
    reveal_strlit(",\"known_merchants\":");
    reveal_strlit("known_merchants");
    assert(vstd::string::is_ascii(",\"known_merchants\":"));
    assert(vstd::string::is_ascii("known_merchants"));
    let t = ",\"known_merchants\":".spec_bytes();
    assert(t.subrange(2, 17) =~= "known_merchants".spec_bytes());
    lemma_names_carry(json, t, s.at, 1, "known_merchants".spec_bytes());
    lemma_byte_carries(json, t, s.at, 0);
}

proof fn lemma_expect_merchant(json: Seq<u8>, s: State)
    requires
        s.expect(json, "},\"merchant\":{\"id\":\"".spec_bytes()).error is None,
    ensures
        s.error is None,
        0 <= s.at,
        s.at + 20 <= json.len(),
        s.expect(json, "},\"merchant\":{\"id\":\"".spec_bytes()) == (State { at: s.at + 20, ..s }),
        "merchant".spec_bytes().len() == 8,
        names(json, s.at + 2, "merchant".spec_bytes()),
        "id".spec_bytes().len() == 2,
        names(json, s.at + 14, "id".spec_bytes()),
        scan::byte_at(json, s.at, '}' as u8),
        scan::byte_at(json, s.at + 1, ',' as u8),
        scan::byte_at(json, s.at + 13, '{' as u8),
        scan::byte_at(json, s.at + 19, '"' as u8),
{
    reveal_strlit("},\"merchant\":{\"id\":\"");
    reveal_strlit("merchant");
    reveal_strlit("id");
    assert(vstd::string::is_ascii("},\"merchant\":{\"id\":\""));
    assert(vstd::string::is_ascii("merchant"));
    assert(vstd::string::is_ascii("id"));
    let t = "},\"merchant\":{\"id\":\"".spec_bytes();
    assert(t.subrange(3, 11) =~= "merchant".spec_bytes());
    assert(t.subrange(15, 17) =~= "id".spec_bytes());
    lemma_names_carry(json, t, s.at, 2, "merchant".spec_bytes());
    lemma_names_carry(json, t, s.at, 14, "id".spec_bytes());
    lemma_byte_carries(json, t, s.at, 0);
    lemma_byte_carries(json, t, s.at, 1);
    lemma_byte_carries(json, t, s.at, 13);
    lemma_byte_carries(json, t, s.at, 19);
}

proof fn lemma_expect_mcc(json: Seq<u8>, s: State)
    requires
        s.expect(json, ",\"mcc\":\"".spec_bytes()).error is None,
    ensures
        s.error is None,
        0 <= s.at,
        s.at + 8 <= json.len(),
        s.expect(json, ",\"mcc\":\"".spec_bytes()) == (State { at: s.at + 8, ..s }),
        "mcc".spec_bytes().len() == 3,
        names(json, s.at + 1, "mcc".spec_bytes()),
        scan::byte_at(json, s.at, ',' as u8),
        scan::byte_at(json, s.at + 7, '"' as u8),
{
    reveal_strlit(",\"mcc\":\"");
    reveal_strlit("mcc");
    assert(vstd::string::is_ascii(",\"mcc\":\""));
    assert(vstd::string::is_ascii("mcc"));
    let t = ",\"mcc\":\"".spec_bytes();
    assert(t.subrange(2, 5) =~= "mcc".spec_bytes());
    lemma_names_carry(json, t, s.at, 1, "mcc".spec_bytes());
    lemma_byte_carries(json, t, s.at, 0);
    lemma_byte_carries(json, t, s.at, 7);
}

proof fn lemma_expect_average(json: Seq<u8>, s: State)
    requires
        s.expect(json, ",\"avg_amount\":".spec_bytes()).error is None,
    ensures
        s.error is None,
        0 <= s.at,
        s.at + 14 <= json.len(),
        s.expect(json, ",\"avg_amount\":".spec_bytes()) == (State { at: s.at + 14, ..s }),
        "avg_amount".spec_bytes().len() == 10,
        names(json, s.at + 1, "avg_amount".spec_bytes()),
        scan::byte_at(json, s.at, ',' as u8),
{
    reveal_strlit(",\"avg_amount\":");
    reveal_strlit("avg_amount");
    assert(vstd::string::is_ascii(",\"avg_amount\":"));
    assert(vstd::string::is_ascii("avg_amount"));
    let t = ",\"avg_amount\":".spec_bytes();
    assert(t.subrange(2, 12) =~= "avg_amount".spec_bytes());
    lemma_names_carry(json, t, s.at, 1, "avg_amount".spec_bytes());
    lemma_byte_carries(json, t, s.at, 0);
}

proof fn lemma_expect_terminal(json: Seq<u8>, s: State)
    requires
        s.expect(json, "},\"terminal\":{\"is_online\":".spec_bytes()).error is None,
    ensures
        s.error is None,
        0 <= s.at,
        s.at + 26 <= json.len(),
        s.expect(json, "},\"terminal\":{\"is_online\":".spec_bytes()) == (State { at: s.at + 26, ..s }),
        "terminal".spec_bytes().len() == 8,
        names(json, s.at + 2, "terminal".spec_bytes()),
        "is_online".spec_bytes().len() == 9,
        names(json, s.at + 14, "is_online".spec_bytes()),
        scan::byte_at(json, s.at, '}' as u8),
        scan::byte_at(json, s.at + 1, ',' as u8),
        scan::byte_at(json, s.at + 13, '{' as u8),
{
    reveal_strlit("},\"terminal\":{\"is_online\":");
    reveal_strlit("terminal");
    reveal_strlit("is_online");
    assert(vstd::string::is_ascii("},\"terminal\":{\"is_online\":"));
    assert(vstd::string::is_ascii("terminal"));
    assert(vstd::string::is_ascii("is_online"));
    let t = "},\"terminal\":{\"is_online\":".spec_bytes();
    assert(t.subrange(3, 11) =~= "terminal".spec_bytes());
    assert(t.subrange(15, 24) =~= "is_online".spec_bytes());
    lemma_names_carry(json, t, s.at, 2, "terminal".spec_bytes());
    lemma_names_carry(json, t, s.at, 14, "is_online".spec_bytes());
    lemma_byte_carries(json, t, s.at, 0);
    lemma_byte_carries(json, t, s.at, 1);
    lemma_byte_carries(json, t, s.at, 13);
}

proof fn lemma_expect_card_present(json: Seq<u8>, s: State)
    requires
        s.expect(json, ",\"card_present\":".spec_bytes()).error is None,
    ensures
        s.error is None,
        0 <= s.at,
        s.at + 16 <= json.len(),
        s.expect(json, ",\"card_present\":".spec_bytes()) == (State { at: s.at + 16, ..s }),
        "card_present".spec_bytes().len() == 12,
        names(json, s.at + 1, "card_present".spec_bytes()),
        scan::byte_at(json, s.at, ',' as u8),
{
    reveal_strlit(",\"card_present\":");
    reveal_strlit("card_present");
    assert(vstd::string::is_ascii(",\"card_present\":"));
    assert(vstd::string::is_ascii("card_present"));
    let t = ",\"card_present\":".spec_bytes();
    assert(t.subrange(2, 14) =~= "card_present".spec_bytes());
    lemma_names_carry(json, t, s.at, 1, "card_present".spec_bytes());
    lemma_byte_carries(json, t, s.at, 0);
}

proof fn lemma_expect_km_from_home(json: Seq<u8>, s: State)
    requires
        s.expect(json, ",\"km_from_home\":".spec_bytes()).error is None,
    ensures
        s.error is None,
        0 <= s.at,
        s.at + 16 <= json.len(),
        s.expect(json, ",\"km_from_home\":".spec_bytes()) == (State { at: s.at + 16, ..s }),
        "km_from_home".spec_bytes().len() == 12,
        names(json, s.at + 1, "km_from_home".spec_bytes()),
        scan::byte_at(json, s.at, ',' as u8),
{
    reveal_strlit(",\"km_from_home\":");
    reveal_strlit("km_from_home");
    assert(vstd::string::is_ascii(",\"km_from_home\":"));
    assert(vstd::string::is_ascii("km_from_home"));
    let t = ",\"km_from_home\":".spec_bytes();
    assert(t.subrange(2, 14) =~= "km_from_home".spec_bytes());
    lemma_names_carry(json, t, s.at, 1, "km_from_home".spec_bytes());
    lemma_byte_carries(json, t, s.at, 0);
}

proof fn lemma_expect_last(json: Seq<u8>, s: State)
    requires
        s.expect(json, "},\"last_transaction\":".spec_bytes()).error is None,
    ensures
        s.error is None,
        0 <= s.at,
        s.at + 21 <= json.len(),
        s.expect(json, "},\"last_transaction\":".spec_bytes()) == (State { at: s.at + 21, ..s }),
        "last_transaction".spec_bytes().len() == 16,
        names(json, s.at + 2, "last_transaction".spec_bytes()),
        scan::byte_at(json, s.at, '}' as u8),
        scan::byte_at(json, s.at + 1, ',' as u8),
{
    reveal_strlit("},\"last_transaction\":");
    reveal_strlit("last_transaction");
    assert(vstd::string::is_ascii("},\"last_transaction\":"));
    assert(vstd::string::is_ascii("last_transaction"));
    let t = "},\"last_transaction\":".spec_bytes();
    assert(t.subrange(3, 19) =~= "last_transaction".spec_bytes());
    lemma_names_carry(json, t, s.at, 2, "last_transaction".spec_bytes());
    lemma_byte_carries(json, t, s.at, 0);
    lemma_byte_carries(json, t, s.at, 1);
}

proof fn lemma_expect_timestamp(json: Seq<u8>, s: State)
    requires
        s.expect(json, "{\"timestamp\":\"".spec_bytes()).error is None,
    ensures
        s.error is None,
        0 <= s.at,
        s.at + 14 <= json.len(),
        s.expect(json, "{\"timestamp\":\"".spec_bytes()) == (State { at: s.at + 14, ..s }),
        "timestamp".spec_bytes().len() == 9,
        names(json, s.at + 1, "timestamp".spec_bytes()),
        scan::byte_at(json, s.at, '{' as u8),
        scan::byte_at(json, s.at + 13, '"' as u8),
{
    reveal_strlit("{\"timestamp\":\"");
    reveal_strlit("timestamp");
    assert(vstd::string::is_ascii("{\"timestamp\":\""));
    assert(vstd::string::is_ascii("timestamp"));
    let t = "{\"timestamp\":\"".spec_bytes();
    assert(t.subrange(2, 11) =~= "timestamp".spec_bytes());
    lemma_names_carry(json, t, s.at, 1, "timestamp".spec_bytes());
    lemma_byte_carries(json, t, s.at, 0);
    lemma_byte_carries(json, t, s.at, 13);
}

proof fn lemma_expect_km_from_current(json: Seq<u8>, s: State)
    requires
        s.expect(json, ",\"km_from_current\":".spec_bytes()).error is None,
    ensures
        s.error is None,
        0 <= s.at,
        s.at + 19 <= json.len(),
        s.expect(json, ",\"km_from_current\":".spec_bytes()) == (State { at: s.at + 19, ..s }),
        "km_from_current".spec_bytes().len() == 15,
        names(json, s.at + 1, "km_from_current".spec_bytes()),
        scan::byte_at(json, s.at, ',' as u8),
{
    reveal_strlit(",\"km_from_current\":");
    reveal_strlit("km_from_current");
    assert(vstd::string::is_ascii(",\"km_from_current\":"));
    assert(vstd::string::is_ascii("km_from_current"));
    let t = ",\"km_from_current\":".spec_bytes();
    assert(t.subrange(2, 17) =~= "km_from_current".spec_bytes());
    lemma_names_carry(json, t, s.at, 1, "km_from_current".spec_bytes());
    lemma_byte_carries(json, t, s.at, 0);
}

proof fn lemma_expect_end(json: Seq<u8>, s: State)
    requires
        s.expect(json, "}}".spec_bytes()).error is None,
    ensures
        s.error is None,
        0 <= s.at,
        s.at + 2 <= json.len(),
        s.expect(json, "}}".spec_bytes()) == (State { at: s.at + 2, ..s }),
        scan::byte_at(json, s.at, '}' as u8),
        scan::byte_at(json, s.at + 1, '}' as u8),
{
    reveal_strlit("}}");
    assert(vstd::string::is_ascii("}}"));
    let t = "}}".spec_bytes();
    lemma_byte_carries(json, t, s.at, 0);
    lemma_byte_carries(json, t, s.at, 1);
}

proof fn lemma_field_names()
    ensures
        single_pass::field_named(Section::Transaction, "amount".spec_bytes()) == Some(Field::Amount),
        single_pass::field_named(Section::Transaction, "installments".spec_bytes()) == Some(Field::Installments),
        single_pass::field_named(Section::Transaction, "requested_at".spec_bytes()) == Some(Field::RequestedAt),
        single_pass::field_named(Section::Customer, "avg_amount".spec_bytes()) == Some(Field::CustomerAverage),
        single_pass::field_named(Section::Customer, "tx_count_24h".spec_bytes()) == Some(Field::TxCount),
        single_pass::field_named(Section::Customer, "known_merchants".spec_bytes()) == Some(Field::KnownMerchants),
        single_pass::field_named(Section::Merchant, "id".spec_bytes()) == Some(Field::MerchantId),
        single_pass::field_named(Section::Merchant, "mcc".spec_bytes()) == Some(Field::Mcc),
        single_pass::field_named(Section::Merchant, "avg_amount".spec_bytes()) == Some(Field::MerchantAverage),
        single_pass::field_named(Section::Terminal, "is_online".spec_bytes()) == Some(Field::IsOnline),
        single_pass::field_named(Section::Terminal, "card_present".spec_bytes()) == Some(Field::CardPresent),
        single_pass::field_named(Section::Terminal, "km_from_home".spec_bytes()) == Some(Field::KmFromHome),
        single_pass::field_named(Section::LastTransaction, "timestamp".spec_bytes()) == Some(Field::Timestamp),
        single_pass::field_named(Section::LastTransaction, "km_from_current".spec_bytes()) == Some(Field::KmFromCurrent),
{
    reveal(single_pass::field_named);
    reveal_strlit("amount");
    reveal_strlit("avg_amount");
    reveal_strlit("card_present");
    reveal_strlit("id");
    reveal_strlit("installments");
    reveal_strlit("is_online");
    reveal_strlit("km_from_current");
    reveal_strlit("km_from_home");
    reveal_strlit("known_merchants");
    reveal_strlit("mcc");
    reveal_strlit("requested_at");
    reveal_strlit("timestamp");
    reveal_strlit("tx_count_24h");
    assert(vstd::string::is_ascii("amount"));
    assert(vstd::string::is_ascii("avg_amount"));
    assert(vstd::string::is_ascii("card_present"));
    assert(vstd::string::is_ascii("id"));
    assert(vstd::string::is_ascii("installments"));
    assert(vstd::string::is_ascii("is_online"));
    assert(vstd::string::is_ascii("km_from_current"));
    assert(vstd::string::is_ascii("km_from_home"));
    assert(vstd::string::is_ascii("known_merchants"));
    assert(vstd::string::is_ascii("mcc"));
    assert(vstd::string::is_ascii("requested_at"));
    assert(vstd::string::is_ascii("timestamp"));
    assert(vstd::string::is_ascii("tx_count_24h"));
    assert("installments".spec_bytes()[0] != "requested_at".spec_bytes()[0]);
    assert("card_present".spec_bytes()[0] != "km_from_home".spec_bytes()[0]);
}

proof fn lemma_section_names()
    ensures
        single_pass::section_named("id".spec_bytes()) is None,
        single_pass::section_named("transaction".spec_bytes()) == Some(Section::Transaction),
        single_pass::section_named("customer".spec_bytes()) == Some(Section::Customer),
        single_pass::section_named("merchant".spec_bytes()) == Some(Section::Merchant),
        single_pass::section_named("terminal".spec_bytes()) == Some(Section::Terminal),
        single_pass::section_named("last_transaction".spec_bytes()) == Some(
            Section::LastTransaction,
        ),
{
    reveal_strlit("id");
    reveal_strlit("transaction");
    reveal_strlit("customer");
    reveal_strlit("merchant");
    reveal_strlit("terminal");
    reveal_strlit("last_transaction");
    assert(vstd::string::is_ascii("id"));
    assert(vstd::string::is_ascii("transaction"));
    assert(vstd::string::is_ascii("customer"));
    assert(vstd::string::is_ascii("merchant"));
    assert(vstd::string::is_ascii("terminal"));
    assert(vstd::string::is_ascii("last_transaction"));
    assert("customer".spec_bytes()[0] != "merchant".spec_bytes()[0]);
    assert("customer".spec_bytes()[0] != "terminal".spec_bytes()[0]);
    assert("merchant".spec_bytes()[0] != "terminal".spec_bytes()[0]);
}

/// A string without escapes ends at its closing quote.
proof fn lemma_plain_string(json: Seq<u8>, i: int)
    requires
        0 <= i,
    ensures
        compact::plain_end(json, i) matches Some(close) ==> scan::closing_quote(json, i) == close
            && i <= close < json.len() && json[close] == '"' as u8,
    decreases json.len() - i,
{
    if i < json.len() && json[i] != '\\' as u8 && json[i] != '"' as u8 {
        lemma_plain_string(json, i + 1);
    }
}

/// Nothing between `i` and a quote at `j` is quoted or escaped.
proof fn lemma_closing_quote_at(json: Seq<u8>, i: int, j: int)
    requires
        0 <= i <= j < json.len(),
        json[j] == '"' as u8,
        forall|k: int| i <= k < j ==> #[trigger] json[k] != '"' as u8 && json[k] != '\\' as u8,
    ensures
        scan::closing_quote(json, i) == j,
    decreases j - i,
{
    if i < j {
        lemma_closing_quote_at(json, i + 1, j);
    }
}

/// A member starts where its name stands.
proof fn lemma_member_step(json: Seq<u8>, i: int, name: Seq<u8>)
    requires
        names(json, i, name),
        i + name.len() + 3 < json.len(),
        !scan::is_space(json[i + name.len() + 3]),
    ensures
        single_pass::step_at(json, i) == (Step::Member {
            from: i,
            to: i + name.len() + 2,
            value: i + name.len() + 3,
        }),
        json.subrange(i + 1, i + name.len() + 1) == name,
{
    let n = name.len() as int;
    assert forall|k: int| i + 1 <= k < i + 1 + n implies #[trigger] json[k] != '"' as u8 && json[k]
        != '\\' as u8 by {
        assert(json.subrange(i + 1, i + 1 + n)[k - i - 1] == json[k]);
        assert(name[k - i - 1] == json[k]);
    }
    lemma_closing_quote_at(json, i + 1, i + 1 + n);
}

/// A string in the compact form is a string in any form.
proof fn lemma_string_value(json: Seq<u8>, v: int)
    requires
        scan::byte_at(json, v, '"' as u8),
        compact::plain_end(json, v + 1) is Some,
    ensures
        ({
            let close = compact::plain_end(json, v + 1).unwrap();
            &&& v < close < json.len()
            &&& scan::string_end(json, v) == Ok::<int, crate::vector::ParseError>(close + 1)
            &&& scan::value_end(json, v) == Ok::<int, crate::vector::ParseError>(close + 1)
            &&& numeral::string_at(json, v) == Ok::<Seq<u8>, crate::vector::ParseError>(
                json.subrange(v + 1, close),
            )
        }),
{
    lemma_plain_string(json, v + 1);
}

/// A number in the compact form is a number in any form, unless it starts with its point.
proof fn lemma_number_value(json: Seq<u8>, s: State)
    requires
        s.error is None,
        0 <= s.at <= json.len(),
        s.number(json).0.error is None,
        !scan::byte_at(json, s.at, '.' as u8),
        scan::byte_at(json, s.number(json).0.at, ',' as u8) || scan::byte_at(
            json,
            s.number(json).0.at,
            '}' as u8,
        ),
    ensures
        s.at < s.number(json).0.at < json.len(),
        !scan::is_space(json[s.at]),
        numeral::double_at(json, s.at) == Ok::<_, crate::vector::ParseError>(s.number(json).1),
        scan::value_end(json, s.at) == Ok::<int, crate::vector::ParseError>(s.number(json).0.at),
{
    let end = scan::significand_end(json, s.at);
    scan::lemma_number_end(json, s.at);
    assert(end == s.number(json).0.at);
    assert(scan::number_end(json, s.at) == end);
}

/// Digits without a point behind them.
proof fn lemma_only_digits(json: Seq<u8>, i: int)
    requires
        0 <= i <= json.len(),
        !scan::byte_at(json, scan::digits_end(json, i), '.' as u8),
    ensures
        scan::mantissa_end(json, i, false) == scan::digits_end(json, i),
    decreases json.len() - i,
{
    if i < json.len() && bytes::is_digit(json[i]) {
        lemma_only_digits(json, i + 1);
    }
}

/// An integer in the compact form is an integer in any form.
proof fn lemma_integer_value(json: Seq<u8>, v: int)
    requires
        0 <= v <= json.len(),
        numeral::int_at(json, v) is Ok,
        scan::byte_at(json, scan::digits_end(json, numeral::past_minus(json, v)), ',' as u8),
    ensures
        v < scan::digits_end(json, numeral::past_minus(json, v)) < json.len(),
        !scan::is_space(json[v]),
        scan::value_end(json, v) == Ok::<int, crate::vector::ParseError>(
            scan::digits_end(json, numeral::past_minus(json, v)),
        ),
{
    let from = numeral::past_minus(json, v);
    let to = scan::digits_end(json, from);
    scan::lemma_digits_end(json, from);
    assert(bytes::is_digit(json[from]));
    assert(scan::past_sign(json, v) == from);
    lemma_only_digits(json, from);
    assert(scan::digit_between(json, from, to));
}

/// A boolean in the compact form is a boolean in any form.
proof fn lemma_boolean_value(json: Seq<u8>, s: State)
    requires
        s.error is None,
        s.boolean(json).0.error is None,
    ensures
        s.at < s.boolean(json).0.at <= json.len(),
        !scan::is_space(json[s.at]),
        numeral::bool_at(json, s.at) == Ok::<bool, crate::vector::ParseError>(s.boolean(json).1),
        scan::value_end(json, s.at) == Ok::<int, crate::vector::ParseError>(
            s.boolean(json).0.at,
        ),
{
    reveal_strlit("true");
    reveal_strlit("false");
    assert(vstd::string::is_ascii("true"));
    assert(vstd::string::is_ascii("false"));
    if bytes::occurs_at(json, "true".spec_bytes(), s.at) {
        lemma_byte_carries(json, "true".spec_bytes(), s.at, 0);
    } else {
        lemma_byte_carries(json, "false".spec_bytes(), s.at, 0);
    }
}

/// A byte that is no quote does not matter between names.
proof fn lemma_between_names(json: Seq<u8>, i: int, end: int, known: Seq<u64>)
    requires
        0 <= i < end <= json.len(),
        json[i] != '"' as u8,
    ensures
        single_pass::quoted_between(json, i, end, known) == single_pass::quoted_between(
            json,
            i + 1,
            end,
            known,
        ),
{
    let rest = json.subrange(i, end);
    let tail = json.subrange(i + 1, end);
    assert(rest.drop_first() =~= tail);
    assert(bytes::first_index(rest, '"' as u8) == 1 + bytes::first_index(tail, '"' as u8));
    if i + 1 < end {
        reveal_with_fuel(single_pass::quoted_between, 2);
    } else {
        assert(tail.len() == 0);
    }
}

/// No closing bracket stands in `json[from..to]`.
pub open spec fn no_bracket(json: Seq<u8>, from: int, to: int) -> bool {
    forall|k: int| from <= k < to ==> #[trigger] json[k] != ']' as u8
}

/// A string without escapes holds no quote.
proof fn lemma_plain_bytes(json: Seq<u8>, i: int)
    requires
        0 <= i,
        compact::plain_end(json, i) is Some,
    ensures
        forall|k: int|
            i <= k < compact::plain_end(json, i).unwrap() ==> #[trigger] json[k] != '"' as u8,
    decreases json.len() - i,
{
    if i < json.len() && json[i] != '\\' as u8 && json[i] != '"' as u8 {
        lemma_plain_bytes(json, i + 1);
    }
}

/// Names between commas up to a bracket: both forms find the same ones, and the same end.
proof fn lemma_merchants(json: Seq<u8>, i: int, known: Seq<u64>)
    requires
        0 <= i,
        compact::merchants_from(json, i, known) is Some,
        no_bracket(json, i, compact::merchants_from(json, i, known).unwrap().1 - 1),
    ensures
        ({
            let (all, end) = compact::merchants_from(json, i, known).unwrap();
            &&& i + 2 < end <= json.len()
            &&& json[end - 1] == ']' as u8
            &&& scan::nested_end(json, i, 1, '[' as u8, ']' as u8) == Ok::<
                int,
                crate::vector::ParseError,
            >(end)
            &&& single_pass::quoted_between(json, i, end - 1, known) == Ok::<
                Seq<u64>,
                crate::vector::ParseError,
            >(all)
        }),
    decreases json.len() - i,
{
    let (all, end) = compact::merchants_from(json, i, known).unwrap();
    let close = compact::plain_end(json, i + 1).unwrap();
    lemma_plain_string(json, i + 1);
    lemma_plain_bytes(json, i + 1);
    let next = if known.len() < compact::MAX_KNOWN {
        known.push(helpers::hash_of(json.subrange(i + 1, close)))
    } else {
        known
    };
    assert(scan::string_end(json, i) == Ok::<int, crate::vector::ParseError>(close + 1));
    assert(scan::nested_end(json, i, 1, '[' as u8, ']' as u8) == scan::nested_end(
        json,
        close + 1,
        1,
        '[' as u8,
        ']' as u8,
    ));
    if scan::byte_at(json, close + 1, ',' as u8) {
        assert(compact::merchants_from(json, close + 2, next) == Some((all, end)));
        assert(close + 4 < end) by {
            lemma_merchants_end(json, close + 2, next);
        }
        lemma_merchants(json, close + 2, next);
        lemma_between_names(json, close + 1, end - 1, next);
        assert(scan::nested_end(json, close + 1, 1, '[' as u8, ']' as u8) == scan::nested_end(
            json,
            close + 2,
            1,
            '[' as u8,
            ']' as u8,
        ));
    } else {
        assert(end == close + 2 && all == next);
        reveal_with_fuel(scan::nested_end, 3);
        assert(single_pass::quoted_between(json, close + 1, end - 1, next) == Ok::<
            Seq<u64>,
            crate::vector::ParseError,
        >(next));
    }
    let rest = json.subrange(i, end - 1);
    bytes::lemma_first_index_is(rest, '"' as u8, 0);
    let behind = json.subrange(i + 1, end - 1);
    assert forall|k: int| 0 <= k < close - i - 1 implies #[trigger] behind[k] != '"' as u8 by {
        assert(json[i + 1 + k] != '"' as u8);
    }
    bytes::lemma_first_index_is(behind, '"' as u8, close - i - 1);
    assert(single_pass::quoted_between(json, i, end - 1, known)
        == single_pass::quoted_between(json, close + 1, end - 1, next));
}

/// A list of names takes at least three bytes.
proof fn lemma_merchants_end(json: Seq<u8>, i: int, known: Seq<u64>)
    requires
        0 <= i,
        compact::merchants_from(json, i, known) is Some,
    ensures
        i + 2 < compact::merchants_from(json, i, known).unwrap().1 <= json.len(),
    decreases json.len() - i,
{
    let close = compact::plain_end(json, i + 1).unwrap();
    lemma_plain_string(json, i + 1);
    let next = if known.len() < compact::MAX_KNOWN {
        known.push(helpers::hash_of(json.subrange(i + 1, close)))
    } else {
        known
    };
    if scan::byte_at(json, close + 1, ',' as u8) {
        lemma_merchants_end(json, close + 2, next);
    }
}

/// A list of names with a bracket in one of them is refused in one pass, which takes that bracket for
/// the end of the list.
proof fn lemma_bracket_in_name(json: Seq<u8>, i: int, known: Seq<u64>, e: int)
    requires
        0 <= i <= e,
        compact::merchants_from(json, i, known) is Some,
        e < compact::merchants_from(json, i, known).unwrap().1 - 1,
        json[e] == ']' as u8,
        forall|k: int| i <= k < e ==> #[trigger] json[k] != ']' as u8,
    ensures
        single_pass::quoted_between(json, i, e, known) is Err,
    decreases json.len() - i,
{
    let (all, end) = compact::merchants_from(json, i, known).unwrap();
    lemma_merchants_end(json, i, known);
    let close = compact::plain_end(json, i + 1).unwrap();
    lemma_plain_string(json, i + 1);
    lemma_plain_bytes(json, i + 1);
    let next = if known.len() < compact::MAX_KNOWN {
        known.push(helpers::hash_of(json.subrange(i + 1, close)))
    } else {
        known
    };
    assert(json[i] == '"' as u8);
    assert(i < e);
    let rest = json.subrange(i, e);
    bytes::lemma_first_index_is(rest, '"' as u8, 0);
    let behind = json.subrange(i + 1, e);
    if e < close {
        assert forall|k: int| 0 <= k < behind.len() implies #[trigger] behind[k] != '"' as u8 by {
            assert(json[i + 1 + k] != '"' as u8);
        }
        bytes::lemma_first_index_is(behind, '"' as u8, behind.len() as int);
    } else {
        assert(json[close] == '"' as u8);
        assert(close < e);
        if scan::byte_at(json, close + 1, ',' as u8) {
            assert(close + 1 < e);
            lemma_merchants_end(json, close + 2, next);
            lemma_bracket_in_name(json, close + 2, next, e);
            lemma_between_names(json, close + 1, e, next);
        } else {
            assert(end == close + 2);
        }
        assert forall|k: int| 0 <= k < close - i - 1 implies #[trigger] behind[k] != '"' as u8 by {
            assert(json[i + 1 + k] != '"' as u8);
        }
        bytes::lemma_first_index_is(behind, '"' as u8, close - i - 1);
        assert(single_pass::quoted_between(json, i, e, known) == single_pass::quoted_between(
            json,
            close + 1,
            e,
            next,
        ));
    }
}

/// The first bracket from `from` on.
proof fn lemma_first_bracket(json: Seq<u8>, from: int, to: int) -> (e: int)
    requires
        !no_bracket(json, from, to),
    ensures
        from <= e < to,
        json[e] == ']' as u8,
        forall|k: int| from <= k < e ==> #[trigger] json[k] != ']' as u8,
    decreases to - from,
{
    if json[from] == ']' as u8 {
        from
    } else {
        assert(!no_bracket(json, from + 1, to)) by {
            let k = choose|k: int| from <= k < to && #[trigger] json[k] == ']' as u8;
            assert(k != from);
        }
        let e = lemma_first_bracket(json, from + 1, to);
        assert forall|k: int| from <= k < e implies #[trigger] json[k] != ']' as u8 by {}
        e
    }
}

/// A list of known merchants that both forms take holds no bracket in a name.
proof fn lemma_known_without_brackets(json: Seq<u8>, v: int)
    requires
        0 <= v,
        compact::merchants_at(json, v) is Some,
        single_pass::known_at(json, v) is Ok,
    ensures
        no_bracket(json, v, compact::merchants_at(json, v).unwrap().1 - 1),
{
    let (known, end) = compact::merchants_at(json, v).unwrap();
    if !no_bracket(json, v, end - 1) {
        let e = lemma_first_bracket(json, v, end - 1);
        if !scan::byte_at(json, v + 1, ']' as u8) {
            lemma_merchants_end(json, v + 1, Seq::empty());
            assert(json[v] == '[' as u8);
            let rest = json.subrange(v, json.len() as int);
            assert forall|k: int| 0 <= k < e - v implies #[trigger] rest[k] != ']' as u8 by {
                assert(json[v + k] != ']' as u8);
            }
            bytes::lemma_first_index_is(rest, ']' as u8, e - v);
            lemma_bracket_in_name(json, v + 1, Seq::empty(), e);
        }
    }
}

/// The list of known merchants in the compact form is the same list in any form, unless a name
/// holds a closing bracket.
proof fn lemma_known_value(json: Seq<u8>, v: int)
    requires
        0 <= v,
        compact::merchants_at(json, v) is Some,
        no_bracket(json, v, compact::merchants_at(json, v).unwrap().1 - 1),
    ensures
        ({
            let (known, end) = compact::merchants_at(json, v).unwrap();
            &&& v + 1 < end <= json.len()
            &&& !scan::is_space(json[v])
            &&& single_pass::known_at(json, v) == Ok::<Seq<u64>, crate::vector::ParseError>(known)
            &&& scan::value_end(json, v) == Ok::<int, crate::vector::ParseError>(end)
        }),
{
    let (known, end) = compact::merchants_at(json, v).unwrap();
    if scan::byte_at(json, v + 1, ']' as u8) {
        reveal_with_fuel(scan::nested_end, 3);
    } else {
        lemma_merchants(json, v + 1, Seq::empty());
    }
    let rest = json.subrange(v, json.len() as int);
    assert forall|k: int| 0 <= k < end - 1 - v implies #[trigger] rest[k] != ']' as u8 by {
        assert(json[v + k] != ']' as u8);
    }
    bytes::lemma_first_index_is(rest, ']' as u8, end - 1 - v);
}

/// A member whose value starts with a point is refused in one pass.
proof fn lemma_point_is_refused(
    json: Seq<u8>,
    i: int,
    section: Section,
    name: Seq<u8>,
    p: Progress,
)
    requires
        names(json, i, name),
        scan::byte_at(json, i + name.len() + 3, '.' as u8),
    ensures
        single_pass::members(json, i, section, p).1 is Err,
{
    lemma_member_step(json, i, name);
}

/// A list of known merchants with a bracket in a name is refused in one pass.
proof fn lemma_bracket_is_refused(
    json: Seq<u8>,
    i: int,
    section: Section,
    name: Seq<u8>,
    p: Progress,
)
    requires
        names(json, i, name),
        single_pass::field_named(section, name) == Some(Field::KnownMerchants),
        compact::merchants_at(json, i + name.len() + 3) is Some,
        !no_bracket(
            json,
            i + name.len() + 3,
            compact::merchants_at(json, i + name.len() + 3).unwrap().1 - 1,
        ),
    ensures
        single_pass::members(json, i, section, p).1 is Err,
{
    let v = i + name.len() + 3;
    if single_pass::known_at(json, v) is Ok {
        lemma_known_without_brackets(json, v);
    }
    assert(scan::byte_at(json, v, '[' as u8));
    lemma_member_step(json, i, name);
    assert(p.store(Field::KnownMerchants, json, v).1 is Some) by {
        reveal(Progress::store);
    }
}

/// Where one pass takes the payload from an object on, it takes the object.
proof fn lemma_section_taken(
    json: Seq<u8>,
    i: int,
    section: Section,
    name: Seq<u8>,
    p: Progress,
)
    requires
        names(json, i, name),
        scan::byte_at(json, i + name.len() + 3, '{' as u8),
        single_pass::section_named(name) == Some(section),
        single_pass::sections(json, i, p).1 is None,
    ensures
        section != Section::LastTransaction ==> single_pass::members(
            json,
            i + name.len() + 4,
            section,
            p,
        ).1 is Ok,
        section == Section::LastTransaction ==> single_pass::members(
            json,
            i + name.len() + 4,
            section,
            Progress { seen_last_transaction: true, ..p },
        ).1 is Ok,
{
    lemma_member_step(json, i, name);
}

/// A member that is not the last one of its object.
proof fn lemma_field_step(
    json: Seq<u8>,
    i: int,
    section: Section,
    name: Seq<u8>,
    field: Field,
    p: Progress,
    end: int,
)
    requires
        names(json, i, name),
        i + name.len() + 3 < json.len(),
        !scan::is_space(json[i + name.len() + 3]),
        single_pass::field_named(section, name) == Some(field),
        p.store(field, json, i + name.len() + 3).1 is None,
        scan::value_end(json, i + name.len() + 3) == Ok::<int, crate::vector::ParseError>(end),
        scan::byte_at(json, end, ',' as u8),
    ensures
        single_pass::members(json, i, section, p) == single_pass::members(
            json,
            end + 1,
            section,
            p.store(field, json, i + name.len() + 3).0,
        ),
{
    lemma_member_step(json, i, name);
}

/// The last member of an object.
proof fn lemma_last_field_step(
    json: Seq<u8>,
    i: int,
    section: Section,
    name: Seq<u8>,
    field: Field,
    p: Progress,
    end: int,
)
    requires
        names(json, i, name),
        i + name.len() + 3 < json.len(),
        !scan::is_space(json[i + name.len() + 3]),
        single_pass::field_named(section, name) == Some(field),
        p.store(field, json, i + name.len() + 3).1 is None,
        scan::value_end(json, i + name.len() + 3) == Ok::<int, crate::vector::ParseError>(end),
        scan::byte_at(json, end, '}' as u8),
    ensures
        single_pass::members(json, i, section, p).0 == p.store(
            field,
            json,
            i + name.len() + 3,
        ).0,
        single_pass::members(json, i, section, p).1 == Ok::<int, crate::vector::ParseError>(
            end + 1,
        ),
{
    lemma_member_step(json, i, name);
    let q = p.store(field, json, i + name.len() + 3).0;
    assert(single_pass::after_value(json, end) == end);
    assert(single_pass::step_at(json, end) == (Step::End { at: end }));
    assert(single_pass::members(json, end, section, q).0 == q);
}

/// An object of the payload that is not the last one.
proof fn lemma_section_step(
    json: Seq<u8>,
    i: int,
    section: Section,
    name: Seq<u8>,
    p: Progress,
    q: Progress,
    end: int,
)
    requires
        names(json, i, name),
        scan::byte_at(json, i + name.len() + 3, '{' as u8),
        single_pass::section_named(name) == Some(section),
        section != Section::LastTransaction,
        single_pass::members(json, i + name.len() + 4, section, p).0 == q,
        single_pass::members(json, i + name.len() + 4, section, p).1 == Ok::<
            int,
            crate::vector::ParseError,
        >(end),
        scan::byte_at(json, end, ',' as u8),
    ensures
        single_pass::sections(json, i, p) == single_pass::sections(json, end + 1, q),
{
    lemma_member_step(json, i, name);
    assert(single_pass::after_value(json, end) == end + 1);
}

/// What was read in one pass is what was read in the compact form.
spec fn agrees(p: Progress, s: State) -> bool {
    &&& p.out == s.out
    &&& p.out.len() == 16
    &&& p.amount == s.amount
    &&& p.average == s.average
    &&& p.merchant == s.merchant
    &&& p.known == s.known
    &&& p.requested_minute == s.requested_minute
}

/// Behind the transaction.
#[verifier::opaque]
pub open spec fn behind_transaction(json: Seq<u8>) -> State {
    compact::after_transaction(json)
}

/// Behind the customer.
#[verifier::opaque]
pub open spec fn behind_customer(json: Seq<u8>) -> State {
    compact::after_customer(json, behind_transaction(json))
}

/// Behind the merchant.
#[verifier::opaque]
pub open spec fn behind_merchant(json: Seq<u8>) -> State {
    compact::after_merchant(json, behind_customer(json))
}

/// Behind the terminal.
#[verifier::opaque]
pub open spec fn behind_terminal(json: Seq<u8>) -> State {
    compact::after_terminal(json, behind_merchant(json))
}

/// Before the amount.
#[verifier::opaque]
pub open spec fn at_amount(json: Seq<u8>) -> State {
    State::start().expect(json, "{\"id\":\"".spec_bytes()).text(json).0.expect(
        json,
        ",\"transaction\":{\"amount\":".spec_bytes(),
    )
}

/// Before the customer's average amount.
#[verifier::opaque]
pub open spec fn at_average(json: Seq<u8>) -> State {
    behind_transaction(json).expect(json, "},\"customer\":{\"avg_amount\":".spec_bytes())
}

/// Before the known merchants.
#[verifier::opaque]
pub open spec fn at_known(json: Seq<u8>) -> State {
    at_average(json).take_average(json).expect(json, ",\"tx_count_24h\":".spec_bytes()).integer_slot(
        json,
        8,
        20,
    ).expect(json, ",\"known_merchants\":".spec_bytes())
}

/// Before the merchant's average amount.
#[verifier::opaque]
pub open spec fn at_merchant_average(json: Seq<u8>) -> State {
    behind_customer(json).expect(
        json,
        "},\"merchant\":{\"id\":\"".spec_bytes(),
    ).take_merchant(json).expect(json, ",\"mcc\":\"".spec_bytes()).take_mcc(json).expect(
        json,
        ",\"avg_amount\":".spec_bytes(),
    )
}

/// Before the distance from home.
#[verifier::opaque]
pub open spec fn at_km_from_home(json: Seq<u8>) -> State {
    behind_merchant(json).expect(
        json,
        "},\"terminal\":{\"is_online\":".spec_bytes(),
    ).boolean_slot(json, 9).expect(json, ",\"card_present\":".spec_bytes()).boolean_slot(
        json,
        10,
    ).expect(json, ",\"km_from_home\":".spec_bytes())
}

/// Before the last transaction.
#[verifier::opaque]
pub open spec fn at_last_transaction(json: Seq<u8>) -> State {
    behind_terminal(json).expect(json, "},\"last_transaction\":".spec_bytes())
}

/// Before the distance from the last transaction.
#[verifier::opaque]
pub open spec fn at_km_from_current(json: Seq<u8>) -> State {
    at_last_transaction(json).expect(json, "{\"timestamp\":\"".spec_bytes()).take_timestamp(
        json,
    ).expect(json, ",\"km_from_current\":".spec_bytes())
}

/// The value that ends at `end` is the last one of its object, or is not.
spec fn ends(json: Seq<u8>, end: int, last: bool) -> bool {
    scan::byte_at(
        json,
        end,
        if last {
            '}' as u8
        } else {
            ',' as u8
        },
    )
}

/// The member at `i`, whose value ends at `end`, takes the progress from `p` to `q`.
spec fn moves_on(
    json: Seq<u8>,
    i: int,
    section: Section,
    p: Progress,
    q: Progress,
    end: int,
    last: bool,
) -> bool {
    if last {
        single_pass::members(json, i, section, p).0 == q && single_pass::members(
            json,
            i,
            section,
            p,
        ).1 == Ok::<int, crate::vector::ParseError>(end + 1)
    } else {
        single_pass::members(json, i, section, p) == single_pass::members(
            json,
            end + 1,
            section,
            q,
        )
    }
}

/// A number.
proof fn lemma_number_field(
    json: Seq<u8>,
    i: int,
    section: Section,
    name: Seq<u8>,
    field: Field,
    p: Progress,
    s: State,
    last: bool,
)
    requires
        names(json, i, name),
        single_pass::field_named(section, name) == Some(field),
        field == Field::Amount || field == Field::CustomerAverage || field == Field::MerchantAverage
            || field == Field::KmFromHome || field == Field::KmFromCurrent,
        s.error is None,
        s.at == i + name.len() + 3,
        0 <= s.at <= json.len(),
        s.number(json).0.error is None,
        !scan::byte_at(json, s.at, '.' as u8) || single_pass::members(json, i, section, p).1 is Ok,
        ends(json, s.number(json).0.at, last),
    ensures
        moves_on(json, i, section, p, p.store_number(field, s.number(json).1), s.number(json).0.at, last),
{
    if scan::byte_at(json, s.at, '.' as u8) {
        lemma_point_is_refused(json, i, section, name, p);
    }
    lemma_number_value(json, s);
    let v = s.at;
    assert(p.store(field, json, v) == (p.store_number(field, s.number(json).1), None::<crate::vector::ParseError>)) by {
        reveal(Progress::store);
    }
    if last {
        lemma_last_field_step(json, i, section, name, field, p, s.number(json).0.at);
    } else {
        lemma_field_step(json, i, section, name, field, p, s.number(json).0.at);
    }
}

/// An integer.
proof fn lemma_integer_field(
    json: Seq<u8>,
    i: int,
    section: Section,
    name: Seq<u8>,
    field: Field,
    p: Progress,
    s: State,
    last: bool,
)
    requires
        names(json, i, name),
        single_pass::field_named(section, name) == Some(field),
        field == Field::Installments || field == Field::TxCount,
        s.error is None,
        s.at == i + name.len() + 3,
        0 <= s.at <= json.len(),
        s.integer(json).0.error is None,
        !last,
        ends(json, s.integer(json).0.at, last),
    ensures
        moves_on(json, i, section, p, p.store_integer(field, s.integer(json).1), s.integer(json).0.at, last),
{
    lemma_integer_value(json, s.at);
    let v = s.at;
    assert(p.store(field, json, v) == (p.store_integer(field, s.integer(json).1), None::<crate::vector::ParseError>)) by {
        reveal(Progress::store);
    }
    if last {
        lemma_last_field_step(json, i, section, name, field, p, s.integer(json).0.at);
    } else {
        lemma_field_step(json, i, section, name, field, p, s.integer(json).0.at);
    }
}

/// A boolean.
proof fn lemma_boolean_field(
    json: Seq<u8>,
    i: int,
    section: Section,
    name: Seq<u8>,
    field: Field,
    p: Progress,
    s: State,
    last: bool,
)
    requires
        names(json, i, name),
        single_pass::field_named(section, name) == Some(field),
        field == Field::IsOnline || field == Field::CardPresent,
        s.error is None,
        s.at == i + name.len() + 3,
        s.boolean(json).0.error is None,
        ends(json, s.boolean(json).0.at, last),
    ensures
        moves_on(json, i, section, p, p.store_flag(field, s.boolean(json).1), s.boolean(json).0.at, last),
{
    lemma_boolean_value(json, s);
    let v = s.at;
    assert(p.store(field, json, v) == (p.store_flag(field, s.boolean(json).1), None::<crate::vector::ParseError>)) by {
        reveal(Progress::store);
    }
    if last {
        lemma_last_field_step(json, i, section, name, field, p, s.boolean(json).0.at);
    } else {
        lemma_field_step(json, i, section, name, field, p, s.boolean(json).0.at);
    }
}

/// A text; its opening quote is behind `s`.
proof fn lemma_text_field(
    json: Seq<u8>,
    i: int,
    section: Section,
    name: Seq<u8>,
    field: Field,
    p: Progress,
    s: State,
    last: bool,
)
    requires
        names(json, i, name),
        single_pass::field_named(section, name) == Some(field),
        field == Field::MerchantId || field == Field::Mcc,
        s.error is None,
        s.at == i + name.len() + 4,
        scan::byte_at(json, s.at - 1, '"' as u8),
        s.text(json).0.error is None,
        ends(json, s.text(json).0.at, last),
    ensures
        moves_on(json, i, section, p, p.store_text(field, s.text(json).1), s.text(json).0.at, last),
{
    lemma_string_value(json, s.at - 1);
    let v = s.at - 1;
    assert(p.store(field, json, v) == (p.store_text(field, s.text(json).1), None::<crate::vector::ParseError>)) by {
        reveal(Progress::store);
    }
    if last {
        lemma_last_field_step(json, i, section, name, field, p, s.text(json).0.at);
    } else {
        lemma_field_step(json, i, section, name, field, p, s.text(json).0.at);
    }
}

/// A point in time; its opening quote is behind `s`.
proof fn lemma_time_field(
    json: Seq<u8>,
    i: int,
    section: Section,
    name: Seq<u8>,
    field: Field,
    p: Progress,
    s: State,
    last: bool,
)
    requires
        names(json, i, name),
        single_pass::field_named(section, name) == Some(field),
        field == Field::RequestedAt || field == Field::Timestamp,
        s.error is None,
        s.at == i + name.len() + 4,
        scan::byte_at(json, s.at - 1, '"' as u8),
        s.text(json).0.error is None,
        helpers::datetime_of(s.text(json).1) is Ok,
        ends(json, s.text(json).0.at, last),
    ensures
        moves_on(json, i, section, p, p.store_time(field, helpers::datetime_of(s.text(json).1)->Ok_0), s.text(json).0.at, last),
{
    lemma_string_value(json, s.at - 1);
    let v = s.at - 1;
    assert(p.store(field, json, v) == (p.store_time(field, helpers::datetime_of(s.text(json).1)->Ok_0), None::<crate::vector::ParseError>)) by {
        reveal(Progress::store);
    }
    if last {
        lemma_last_field_step(json, i, section, name, field, p, s.text(json).0.at);
    } else {
        lemma_field_step(json, i, section, name, field, p, s.text(json).0.at);
    }
}

/// The known merchants.
proof fn lemma_known_field(
    json: Seq<u8>,
    i: int,
    section: Section,
    name: Seq<u8>,
    field: Field,
    p: Progress,
    s: State,
    last: bool,
)
    requires
        names(json, i, name),
        single_pass::field_named(section, name) == Some(field),
        field == Field::KnownMerchants,
        s.error is None,
        s.at == i + name.len() + 3,
        0 <= s.at,
        compact::merchants_at(json, s.at) is Some,
        no_bracket(json, s.at, compact::merchants_at(json, s.at).unwrap().1 - 1)
            || single_pass::members(json, i, section, p).1 is Ok,
        ends(json, compact::merchants_at(json, s.at).unwrap().1, last),
    ensures
        moves_on(json, i, section, p, p.store_known(compact::merchants_at(json, s.at).unwrap().0), compact::merchants_at(json, s.at).unwrap().1, last),
{
    if !no_bracket(json, s.at, compact::merchants_at(json, s.at).unwrap().1 - 1) {
        lemma_bracket_is_refused(json, i, section, name, p);
    }
    lemma_known_value(json, s.at);
    let v = s.at;
    assert(p.store(field, json, v) == (p.store_known(compact::merchants_at(json, s.at).unwrap().0), None::<crate::vector::ParseError>)) by {
        reveal(Progress::store);
    }
    if last {
        lemma_last_field_step(json, i, section, name, field, p, compact::merchants_at(json, s.at).unwrap().1);
    } else {
        lemma_field_step(json, i, section, name, field, p, compact::merchants_at(json, s.at).unwrap().1);
    }
}

/// The transaction, behind the identifier.
spec fn transaction_from(json: Seq<u8>, s: State) -> State {
    s.expect(json, ",\"transaction\":{\"amount\":".spec_bytes()).take_amount(json).expect(
        json,
        ",\"installments\":".spec_bytes(),
    ).integer_slot(json, 1, 12).expect(json, ",\"requested_at\":\"".spec_bytes()).take_requested_at(
        json,
    )
}

/// An object of the payload starts behind `s`, after the end of another one or a text.
spec fn object_follows(json: Seq<u8>, at: int, name: Seq<u8>) -> bool {
    &&& names(json, at, name)
    &&& scan::byte_at(json, at + name.len() + 3, '{' as u8)
}

proof fn lemma_transaction_starts(json: Seq<u8>, s: State)
    requires
        transaction_from(json, s).error is None,
    ensures
        s.error is None,
        scan::byte_at(json, s.at, ',' as u8),
        object_follows(json, s.at + 1, "transaction".spec_bytes()),
        "transaction".spec_bytes().len() == 11,
{
    let s3 = s.expect(json, ",\"transaction\":{\"amount\":".spec_bytes());
    let s5 = s3.take_amount(json).expect(json, ",\"installments\":".spec_bytes());
    let s7 = s5.integer_slot(json, 1, 12).expect(json, ",\"requested_at\":\"".spec_bytes());
    assert(s7.error is None && s5.error is None && s3.error is None);
    lemma_expect_amount(json, s);
}

proof fn lemma_customer_starts(json: Seq<u8>, s: State)
    requires
        compact::after_customer(json, s).error is None,
    ensures
        s.error is None,
        scan::byte_at(json, s.at, '}' as u8),
        scan::byte_at(json, s.at + 1, ',' as u8),
        object_follows(json, s.at + 2, "customer".spec_bytes()),
        "customer".spec_bytes().len() == 8,
{
    let s1 = s.expect(json, "},\"customer\":{\"avg_amount\":".spec_bytes());
    let s3 = s1.take_average(json).expect(json, ",\"tx_count_24h\":".spec_bytes());
    let s5 = s3.integer_slot(json, 8, 20).expect(json, ",\"known_merchants\":".spec_bytes());
    assert(s5.error is None && s3.error is None && s1.error is None);
    lemma_expect_customer(json, s);
}

proof fn lemma_merchant_starts(json: Seq<u8>, s: State)
    requires
        compact::after_merchant(json, s).error is None,
    ensures
        s.error is None,
        scan::byte_at(json, s.at, '}' as u8),
        scan::byte_at(json, s.at + 1, ',' as u8),
        object_follows(json, s.at + 2, "merchant".spec_bytes()),
        "merchant".spec_bytes().len() == 8,
{
    let s1 = s.expect(json, "},\"merchant\":{\"id\":\"".spec_bytes());
    let s3 = s1.take_merchant(json).expect(json, ",\"mcc\":\"".spec_bytes());
    let s5 = s3.take_mcc(json).expect(json, ",\"avg_amount\":".spec_bytes());
    assert(s5.error is None && s3.error is None && s1.error is None);
    lemma_expect_merchant(json, s);
}

proof fn lemma_terminal_starts(json: Seq<u8>, s: State)
    requires
        compact::after_terminal(json, s).error is None,
    ensures
        s.error is None,
        scan::byte_at(json, s.at, '}' as u8),
        scan::byte_at(json, s.at + 1, ',' as u8),
        object_follows(json, s.at + 2, "terminal".spec_bytes()),
        "terminal".spec_bytes().len() == 8,
{
    let s1 = s.expect(json, "},\"terminal\":{\"is_online\":".spec_bytes());
    let s3 = s1.boolean_slot(json, 9).expect(json, ",\"card_present\":".spec_bytes());
    let s5 = s3.boolean_slot(json, 10).expect(json, ",\"km_from_home\":".spec_bytes());
    assert(s5.error is None && s3.error is None && s1.error is None);
    lemma_expect_terminal(json, s);
}

/// The transaction's members.
proof fn lemma_transaction_members(json: Seq<u8>, s: State, p: Progress) -> (q: Progress)
    requires
        agrees(p, s),
        transaction_from(json, s).error is None,
        scan::byte_at(json, transaction_from(json, s).at, '}' as u8),
        !scan::byte_at(
            json,
            s.expect(json, ",\"transaction\":{\"amount\":".spec_bytes()).at,
            '.' as u8,
        ) || single_pass::members(json, s.at + 16, Section::Transaction, p).1 is Ok,
    ensures
        moves_on(json, s.at + 16, Section::Transaction, p, q, transaction_from(json, s).at, true),
        agrees(q, transaction_from(json, s)),
        q.seen == p.seen.insert(Field::Amount).insert(Field::Installments).insert(Field::RequestedAt),
        q.last_minute == p.last_minute,
        q.last_km == p.last_km,
        q.seen_last_transaction == p.seen_last_transaction,
{
    let a0 = s.expect(json, ",\"transaction\":{\"amount\":".spec_bytes());
    let b0 = a0.take_amount(json);
    let a1 = b0.expect(json, ",\"installments\":".spec_bytes());
    let b1 = a1.integer_slot(json, 1, 12);
    let a2 = b1.expect(json, ",\"requested_at\":\"".spec_bytes());
    let b2 = a2.take_requested_at(json);
    assert(b2 == transaction_from(json, s));
    assert(a2.error is None);
    lemma_expect_requested_at(json, b1);
    assert(a1.error is None);
    lemma_expect_installments(json, b0);
    assert(a0.error is None);
    lemma_expect_amount(json, s);
    lemma_field_names();
    let q0 = p.store_number(Field::Amount, a0.number(json).1);
    lemma_number_field(
        json,
        s.at + 16,
        Section::Transaction,
        "amount".spec_bytes(),
        Field::Amount,
        p,
        a0,
        false,
    );
    assert(agrees(q0, b0));
    let q1 = q0.store_integer(Field::Installments, a1.integer(json).1);
    lemma_integer_field(
        json,
        b0.at + 1,
        Section::Transaction,
        "installments".spec_bytes(),
        Field::Installments,
        q0,
        a1,
        false,
    );
    assert(agrees(q1, b1));
    let q2 = q1.store_time(Field::RequestedAt, helpers::datetime_of(a2.text(json).1)->Ok_0);
    lemma_time_field(
        json,
        b1.at + 1,
        Section::Transaction,
        "requested_at".spec_bytes(),
        Field::RequestedAt,
        q1,
        a2,
        true,
    );
    assert(agrees(q2, b2));
    q2
}

/// The customer's members.
proof fn lemma_customer_members(json: Seq<u8>, s: State, p: Progress) -> (q: Progress)
    requires
        agrees(p, s),
        compact::after_customer(json, s).error is None,
        scan::byte_at(json, compact::after_customer(json, s).at, '}' as u8),
        (!scan::byte_at(
            json,
            s.expect(json, "},\"customer\":{\"avg_amount\":".spec_bytes()).at,
            '.' as u8,
        ) && no_bracket(
            json,
            s.expect(json, "},\"customer\":{\"avg_amount\":".spec_bytes()).take_average(
                json,
            ).expect(json, ",\"tx_count_24h\":".spec_bytes()).integer_slot(json, 8, 20).expect(
                json,
                ",\"known_merchants\":".spec_bytes(),
            ).at,
            compact::after_customer(json, s).at - 1,
        )) || single_pass::members(json, s.at + 14, Section::Customer, p).1 is Ok,
    ensures
        moves_on(json, s.at + 14, Section::Customer, p, q, compact::after_customer(json, s).at, true),
        agrees(q, compact::after_customer(json, s)),
        q.seen == p.seen.insert(Field::CustomerAverage).insert(Field::TxCount).insert(Field::KnownMerchants),
        q.last_minute == p.last_minute,
        q.last_km == p.last_km,
        q.seen_last_transaction == p.seen_last_transaction,
{
    let a0 = s.expect(json, "},\"customer\":{\"avg_amount\":".spec_bytes());
    let b0 = a0.take_average(json);
    let a1 = b0.expect(json, ",\"tx_count_24h\":".spec_bytes());
    let b1 = a1.integer_slot(json, 8, 20);
    let a2 = b1.expect(json, ",\"known_merchants\":".spec_bytes());
    let b2 = a2.take_known(json);
    assert(b2 == compact::after_customer(json, s));
    assert(a2.error is None);
    lemma_expect_known(json, b1);
    assert(a1.error is None);
    lemma_expect_tx_count(json, b0);
    assert(a0.error is None);
    lemma_expect_customer(json, s);
    lemma_field_names();
    let q0 = p.store_number(Field::CustomerAverage, a0.number(json).1);
    lemma_number_field(
        json,
        s.at + 14,
        Section::Customer,
        "avg_amount".spec_bytes(),
        Field::CustomerAverage,
        p,
        a0,
        false,
    );
    assert(agrees(q0, b0));
    let q1 = q0.store_integer(Field::TxCount, a1.integer(json).1);
    lemma_integer_field(
        json,
        b0.at + 1,
        Section::Customer,
        "tx_count_24h".spec_bytes(),
        Field::TxCount,
        q0,
        a1,
        false,
    );
    assert(agrees(q1, b1));
    let q2 = q1.store_known(compact::merchants_at(json, a2.at).unwrap().0);
    lemma_known_field(
        json,
        b1.at + 1,
        Section::Customer,
        "known_merchants".spec_bytes(),
        Field::KnownMerchants,
        q1,
        a2,
        true,
    );
    assert(agrees(q2, b2));
    q2
}

/// The merchant's members.
proof fn lemma_merchant_members(json: Seq<u8>, s: State, p: Progress) -> (q: Progress)
    requires
        agrees(p, s),
        compact::after_merchant(json, s).error is None,
        scan::byte_at(json, compact::after_merchant(json, s).at, '}' as u8),
        !scan::byte_at(
            json,
            s.expect(json, "},\"merchant\":{\"id\":\"".spec_bytes()).take_merchant(json).expect(
                json,
                ",\"mcc\":\"".spec_bytes(),
            ).take_mcc(json).expect(json, ",\"avg_amount\":".spec_bytes()).at,
            '.' as u8,
        ) || single_pass::members(json, s.at + 14, Section::Merchant, p).1 is Ok,
    ensures
        moves_on(json, s.at + 14, Section::Merchant, p, q, compact::after_merchant(json, s).at, true),
        agrees(q, compact::after_merchant(json, s)),
        q.seen == p.seen.insert(Field::MerchantId).insert(Field::Mcc).insert(Field::MerchantAverage),
        q.last_minute == p.last_minute,
        q.last_km == p.last_km,
        q.seen_last_transaction == p.seen_last_transaction,
{
    let a0 = s.expect(json, "},\"merchant\":{\"id\":\"".spec_bytes());
    let b0 = a0.take_merchant(json);
    let a1 = b0.expect(json, ",\"mcc\":\"".spec_bytes());
    let b1 = a1.take_mcc(json);
    let a2 = b1.expect(json, ",\"avg_amount\":".spec_bytes());
    let b2 = a2.number_slot(json, 13, 10_000);
    assert(b2 == compact::after_merchant(json, s));
    assert(a2.error is None);
    lemma_expect_average(json, b1);
    assert(a1.error is None);
    lemma_expect_mcc(json, b0);
    assert(a0.error is None);
    lemma_expect_merchant(json, s);
    lemma_field_names();
    let q0 = p.store_text(Field::MerchantId, a0.text(json).1);
    lemma_text_field(
        json,
        s.at + 14,
        Section::Merchant,
        "id".spec_bytes(),
        Field::MerchantId,
        p,
        a0,
        false,
    );
    assert(agrees(q0, b0));
    let q1 = q0.store_text(Field::Mcc, a1.text(json).1);
    lemma_text_field(
        json,
        b0.at + 1,
        Section::Merchant,
        "mcc".spec_bytes(),
        Field::Mcc,
        q0,
        a1,
        false,
    );
    assert(agrees(q1, b1));
    let q2 = q1.store_number(Field::MerchantAverage, a2.number(json).1);
    lemma_number_field(
        json,
        b1.at + 1,
        Section::Merchant,
        "avg_amount".spec_bytes(),
        Field::MerchantAverage,
        q1,
        a2,
        true,
    );
    assert(agrees(q2, b2));
    q2
}

/// The terminal's members.
proof fn lemma_terminal_members(json: Seq<u8>, s: State, p: Progress) -> (q: Progress)
    requires
        agrees(p, s),
        compact::after_terminal(json, s).error is None,
        scan::byte_at(json, compact::after_terminal(json, s).at, '}' as u8),
        !scan::byte_at(
            json,
            s.expect(json, "},\"terminal\":{\"is_online\":".spec_bytes()).boolean_slot(
                json,
                9,
            ).expect(json, ",\"card_present\":".spec_bytes()).boolean_slot(json, 10).expect(
                json,
                ",\"km_from_home\":".spec_bytes(),
            ).at,
            '.' as u8,
        ) || single_pass::members(json, s.at + 14, Section::Terminal, p).1 is Ok,
    ensures
        moves_on(json, s.at + 14, Section::Terminal, p, q, compact::after_terminal(json, s).at, true),
        agrees(q, compact::after_terminal(json, s)),
        q.seen == p.seen.insert(Field::IsOnline).insert(Field::CardPresent).insert(Field::KmFromHome),
        q.last_minute == p.last_minute,
        q.last_km == p.last_km,
        q.seen_last_transaction == p.seen_last_transaction,
{
    let a0 = s.expect(json, "},\"terminal\":{\"is_online\":".spec_bytes());
    let b0 = a0.boolean_slot(json, 9);
    let a1 = b0.expect(json, ",\"card_present\":".spec_bytes());
    let b1 = a1.boolean_slot(json, 10);
    let a2 = b1.expect(json, ",\"km_from_home\":".spec_bytes());
    let b2 = a2.number_slot(json, 7, 1000);
    assert(b2 == compact::after_terminal(json, s));
    assert(a2.error is None);
    lemma_expect_km_from_home(json, b1);
    assert(a1.error is None);
    lemma_expect_card_present(json, b0);
    assert(a0.error is None);
    lemma_expect_terminal(json, s);
    lemma_field_names();
    let q0 = p.store_flag(Field::IsOnline, a0.boolean(json).1);
    lemma_boolean_field(
        json,
        s.at + 14,
        Section::Terminal,
        "is_online".spec_bytes(),
        Field::IsOnline,
        p,
        a0,
        false,
    );
    assert(agrees(q0, b0));
    let q1 = q0.store_flag(Field::CardPresent, a1.boolean(json).1);
    lemma_boolean_field(
        json,
        b0.at + 1,
        Section::Terminal,
        "card_present".spec_bytes(),
        Field::CardPresent,
        q0,
        a1,
        false,
    );
    assert(agrees(q1, b1));
    let q2 = q1.store_number(Field::KmFromHome, a2.number(json).1);
    lemma_number_field(
        json,
        b1.at + 1,
        Section::Terminal,
        "km_from_home".spec_bytes(),
        Field::KmFromHome,
        q1,
        a2,
        true,
    );
    assert(agrees(q2, b2));
    q2
}

/// No number starts with its point, and no known merchant's name holds a closing bracket.
pub open spec fn is_regular(json: Seq<u8>) -> bool {
    &&& !scan::byte_at(json, at_amount(json).at, '.' as u8)
    &&& !scan::byte_at(json, at_average(json).at, '.' as u8)
    &&& !scan::byte_at(json, at_merchant_average(json).at, '.' as u8)
    &&& !scan::byte_at(json, at_km_from_home(json).at, '.' as u8)
    &&& !scan::byte_at(json, at_km_from_current(json).at, '.' as u8)
    &&& no_bracket(
        json,
        at_known(json).at,
        behind_customer(json).at - 1,
    )
}

/// The identifier.
proof fn lemma_identifier(json: Seq<u8>, s: State, p: Progress)
    requires
        s.at == 0,
        ({
            let s2 = s.expect(json, "{\"id\":\"".spec_bytes()).text(json).0;
            s2.error is None && scan::byte_at(json, s2.at, ',' as u8)
        }),
    ensures
        scan::byte_at(json, 0, '{' as u8),
        single_pass::sections(json, 1, p) == single_pass::sections(
            json,
            s.expect(json, "{\"id\":\"".spec_bytes()).text(json).0.at + 1,
            p,
        ),
{
    let s1 = s.expect(json, "{\"id\":\"".spec_bytes());
    let s2 = s1.text(json).0;
    assert(s1.error is None);
    lemma_expect_id(json, s);
    lemma_string_value(json, 6);
    lemma_member_step(json, 1, "id".spec_bytes());
    lemma_section_names();
    assert(single_pass::after_value(json, s2.at) == s2.at + 1);
}

/// The last transaction is missing.
proof fn lemma_no_last_transaction(json: Seq<u8>, e: State, p: Progress)
    requires
        e.expect(json, "},\"last_transaction\":".spec_bytes()).error is None,
        bytes::occurs_at(
            json,
            "null}".spec_bytes(),
            e.expect(json, "},\"last_transaction\":".spec_bytes()).at,
        ),
    ensures
        single_pass::sections(json, e.at + 2, p) == (
            Progress { seen_last_transaction: true, ..p },
            None::<crate::vector::ParseError>,
        ),
{
    lemma_expect_last(json, e);
    lemma_section_names();
    let v = e.at + 21;
    let t = "null}".spec_bytes();
    reveal_strlit("null}");
    reveal_strlit("null");
    assert(vstd::string::is_ascii("null}"));
    assert(vstd::string::is_ascii("null"));
    lemma_byte_carries(json, t, v, 0);
    lemma_byte_carries(json, t, v, 4);
    assert(json.subrange(v, v + 4) =~= json.subrange(v, v + 5).subrange(0, 4));
    assert(t.subrange(0, 4) =~= "null".spec_bytes());
    lemma_member_step(json, e.at + 2, "last_transaction".spec_bytes());
    let q = Progress { seen_last_transaction: true, ..p };
    assert(scan::value_end(json, v) == Ok::<int, crate::vector::ParseError>(v + 4));
    assert(single_pass::after_value(json, v + 4) == v + 4);
    assert(single_pass::step_at(json, v + 4) == (Step::End { at: v + 4 }));
    assert(single_pass::sections(json, v + 4, q) == (q, None::<crate::vector::ParseError>));
}

/// The last transaction's members.
#[verifier::rlimit(40)]
proof fn lemma_last_members(json: Seq<u8>, l: State, p: Progress) -> (q: Progress)
    requires
        agrees(p, l),
        l.error is None,
        !bytes::occurs_at(json, "null}".spec_bytes(), l.at),
        l.take_last_transaction(json).error is None,
        !scan::byte_at(
            json,
            l.expect(json, "{\"timestamp\":\"".spec_bytes()).take_timestamp(json).expect(
                json,
                ",\"km_from_current\":".spec_bytes(),
            ).at,
            '.' as u8,
        ) || single_pass::members(json, l.at + 1, Section::LastTransaction, p).1 is Ok,
    ensures
        scan::byte_at(json, l.at, '{' as u8),
        moves_on(
            json,
            l.at + 1,
            Section::LastTransaction,
            p,
            q,
            l.take_last_transaction(json).at - 2,
            true,
        ),
        scan::byte_at(json, l.take_last_transaction(json).at - 1, '}' as u8),
        agrees(q, l),
        q.seen == p.seen.insert(Field::Timestamp).insert(Field::KmFromCurrent),
        q.seen_last_transaction == p.seen_last_transaction,
        q.last_minute is Some,
        q.last_km is Some,
        ({
            let f = l.take_last_transaction(json);
            &&& f.out == l.out.update(
                5,
                helpers::scaled_integer(l.requested_minute - q.last_minute.unwrap(), 1440),
            ).update(6, helpers::scaled(q.last_km.unwrap(), 1000))
            &&& f.amount == l.amount
            &&& f.average == l.average
            &&& f.merchant == l.merchant
            &&& f.known == l.known
        }),
{
    let a0 = l.expect(json, "{\"timestamp\":\"".spec_bytes());
    let b0 = a0.take_timestamp(json);
    let a1 = b0.expect(json, ",\"km_from_current\":".spec_bytes());
    let b1 = a1.number_slot(json, 6, 1000);
    let f = b1.expect(json, "}}".spec_bytes());
    assert(f == l.take_last_transaction(json));
    lemma_expect_end(json, b1);
    assert(a1.error is None);
    lemma_expect_km_from_current(json, b0);
    assert(a0.error is None);
    lemma_expect_timestamp(json, l);
    lemma_field_names();
    let time = helpers::datetime_of(a0.text(json).1);
    let q0 = p.store_time(Field::Timestamp, time->Ok_0);
    lemma_time_field(
        json,
        l.at + 1,
        Section::LastTransaction,
        "timestamp".spec_bytes(),
        Field::Timestamp,
        p,
        a0,
        false,
    );
    let q1 = q0.store_number(Field::KmFromCurrent, a1.number(json).1);
    lemma_number_field(
        json,
        b0.at + 1,
        Section::LastTransaction,
        "km_from_current".spec_bytes(),
        Field::KmFromCurrent,
        q0,
        a1,
        true,
    );
    q1
}

/// What is not missing is an object.
proof fn lemma_object_behind(json: Seq<u8>, l: State)
    requires
        l.error is None,
        !bytes::occurs_at(json, "null}".spec_bytes(), l.at),
        l.take_last_transaction(json).error is None,
    ensures
        scan::byte_at(json, l.at, '{' as u8),
{
    let a0 = l.expect(json, "{\"timestamp\":\"".spec_bytes());
    let b0 = a0.take_timestamp(json);
    let a1 = b0.expect(json, ",\"km_from_current\":".spec_bytes());
    let b1 = a1.number_slot(json, 6, 1000);
    let f = b1.expect(json, "}}".spec_bytes());
    assert(f == l.take_last_transaction(json));
    lemma_expect_end(json, b1);
    assert(a1.error is None);
    lemma_expect_km_from_current(json, b0);
    assert(a0.error is None);
    lemma_expect_timestamp(json, l);
}

/// The last transaction.
#[verifier::rlimit(40)]
proof fn lemma_last_transaction(json: Seq<u8>, e: State, p: Progress) -> (q: Progress)
    requires
        agrees(p, e),
        p.last_minute is None,
        p.last_km is None,
        ({
            let l = e.expect(json, "},\"last_transaction\":".spec_bytes());
            &&& l.take_last_transaction(json).error is None
            &&& !scan::byte_at(
                json,
                l.expect(json, "{\"timestamp\":\"".spec_bytes()).take_timestamp(json).expect(
                    json,
                    ",\"km_from_current\":".spec_bytes(),
                ).at,
                '.' as u8,
            ) || single_pass::sections(json, e.at + 2, p).1 is None
        }),
    ensures
        single_pass::sections(json, e.at + 2, p) == (q, None::<crate::vector::ParseError>),
        q.seen_last_transaction,
        forall|field: Field| p.seen.contains(field) ==> q.seen.contains(field),
        ({
            let f = e.expect(
                json,
                "},\"last_transaction\":".spec_bytes(),
            ).take_last_transaction(json);
            &&& q.last_minute is Some == q.last_km is Some
            &&& q.vector() == helpers::finished(f.out, f.amount, f.average, f.merchant, f.known)
        }),
{
    let l = e.expect(json, "},\"last_transaction\":".spec_bytes());
    assert(l.error is None);
    lemma_expect_last(json, e);
    let f = l.take_last_transaction(json);
    let begun = Progress { seen_last_transaction: true, ..p };
    if bytes::occurs_at(json, "null}".spec_bytes(), l.at) {
        lemma_no_last_transaction(json, e, p);
        let none = (-SCALE) as i16;
        assert(begun.vector() =~= helpers::finished(
            l.out.update(5, none).update(6, none),
            l.amount,
            l.average,
            l.merchant,
            l.known,
        ));
        begun
    } else {
        lemma_section_names();
        if single_pass::sections(json, e.at + 2, p).1 is None {
            lemma_object_behind(json, l);
            lemma_section_taken(
                json,
                e.at + 2,
                Section::LastTransaction,
                "last_transaction".spec_bytes(),
                p,
            );
        }
        let q = lemma_last_members(json, l, begun);
        lemma_member_step(json, e.at + 2, "last_transaction".spec_bytes());
        let end = f.at - 1;
        assert(single_pass::after_value(json, end) == end);
        assert(single_pass::step_at(json, end) == (Step::End { at: end }));
        assert(single_pass::sections(json, end, q) == (q, None::<crate::vector::ParseError>));
        assert(q.vector() =~= helpers::finished(f.out, f.amount, f.average, f.merchant, f.known));
        q
    }
}

/// The identifier and the transaction.
proof fn lemma_transaction(json: Seq<u8>) -> (q: Progress)
    requires
        behind_customer(json).error is None,
        !scan::byte_at(json, at_amount(json).at, '.' as u8) || single_pass::sections(
            json,
            1,
            Progress::start(),
        ).1 is None,
    ensures
        scan::byte_at(json, 0, '{' as u8),
        single_pass::sections(json, 1, Progress::start()) == single_pass::sections(
            json,
            behind_transaction(json).at + 2,
            q,
        ),
        agrees(q, behind_transaction(json)),
        q.seen == Set::<Field>::empty().insert(Field::Amount).insert(Field::Installments).insert(
            Field::RequestedAt,
        ),
        q.last_minute is None,
        q.last_km is None,
{
    reveal(at_amount);
    reveal(behind_transaction);
    reveal(behind_customer);
    let s = State::start();
    let i = s.expect(json, "{\"id\":\"".spec_bytes()).text(json).0;
    let t = transaction_from(json, i);
    assert(t == behind_transaction(json));
    lemma_customer_starts(json, t);
    lemma_transaction_starts(json, i);
    let p = Progress::start();
    lemma_identifier(json, s, p);
    assert(p.out =~= s.out);
    lemma_section_names();
    if single_pass::sections(json, i.at + 1, p).1 is None {
        lemma_section_taken(json, i.at + 1, Section::Transaction, "transaction".spec_bytes(), p);
    }
    let q = lemma_transaction_members(json, i, p);
    lemma_section_step(
        json,
        i.at + 1,
        Section::Transaction,
        "transaction".spec_bytes(),
        p,
        q,
        t.at + 1,
    );
    q
}

/// The customer.
proof fn lemma_customer(json: Seq<u8>, p: Progress) -> (q: Progress)
    requires
        behind_merchant(json).error is None,
        (!scan::byte_at(json, at_average(json).at, '.' as u8) && no_bracket(
            json,
            at_known(json).at,
            behind_customer(json).at - 1,
        )) || single_pass::sections(json, behind_transaction(json).at + 2, p).1 is None,
        agrees(p, behind_transaction(json)),
    ensures
        single_pass::sections(json, behind_transaction(json).at + 2, p) == single_pass::sections(
            json,
            behind_customer(json).at + 2,
            q,
        ),
        agrees(q, behind_customer(json)),
        q.seen == p.seen.insert(Field::CustomerAverage).insert(Field::TxCount).insert(Field::KnownMerchants),
        q.last_minute == p.last_minute,
        q.last_km == p.last_km,
{
    reveal(at_average);
    reveal(at_known);
    reveal(behind_customer);
    reveal(behind_merchant);
    let s = behind_transaction(json);
    let a = behind_customer(json);
    lemma_merchant_starts(json, a);
    lemma_customer_starts(json, s);
    lemma_section_names();
    if single_pass::sections(json, s.at + 2, p).1 is None {
        lemma_section_taken(json, s.at + 2, Section::Customer, "customer".spec_bytes(), p);
    }
    let q = lemma_customer_members(json, s, p);
    lemma_section_step(json, s.at + 2, Section::Customer, "customer".spec_bytes(), p, q, a.at + 1);
    q
}

/// The merchant.
proof fn lemma_merchant(json: Seq<u8>, p: Progress) -> (q: Progress)
    requires
        behind_terminal(json).error is None,
        !scan::byte_at(json, at_merchant_average(json).at, '.' as u8) || single_pass::sections(
            json,
            behind_customer(json).at + 2,
            p,
        ).1 is None,
        agrees(p, behind_customer(json)),
    ensures
        single_pass::sections(json, behind_customer(json).at + 2, p) == single_pass::sections(
            json,
            behind_merchant(json).at + 2,
            q,
        ),
        agrees(q, behind_merchant(json)),
        q.seen == p.seen.insert(Field::MerchantId).insert(Field::Mcc).insert(Field::MerchantAverage),
        q.last_minute == p.last_minute,
        q.last_km == p.last_km,
{
    reveal(at_merchant_average);
    reveal(behind_merchant);
    reveal(behind_terminal);
    let s = behind_customer(json);
    let a = behind_merchant(json);
    lemma_terminal_starts(json, a);
    lemma_merchant_starts(json, s);
    lemma_section_names();
    if single_pass::sections(json, s.at + 2, p).1 is None {
        lemma_section_taken(json, s.at + 2, Section::Merchant, "merchant".spec_bytes(), p);
    }
    let q = lemma_merchant_members(json, s, p);
    lemma_section_step(json, s.at + 2, Section::Merchant, "merchant".spec_bytes(), p, q, a.at + 1);
    q
}

/// The terminal.
proof fn lemma_terminal(json: Seq<u8>, p: Progress) -> (q: Progress)
    requires
        at_last_transaction(json).error is None,
        !scan::byte_at(json, at_km_from_home(json).at, '.' as u8) || single_pass::sections(
            json,
            behind_merchant(json).at + 2,
            p,
        ).1 is None,
        agrees(p, behind_merchant(json)),
    ensures
        single_pass::sections(json, behind_merchant(json).at + 2, p) == single_pass::sections(
            json,
            behind_terminal(json).at + 2,
            q,
        ),
        agrees(q, behind_terminal(json)),
        q.seen == p.seen.insert(Field::IsOnline).insert(Field::CardPresent).insert(Field::KmFromHome),
        q.last_minute == p.last_minute,
        q.last_km == p.last_km,
{
    reveal(at_km_from_home);
    reveal(behind_terminal);
    reveal(at_last_transaction);
    let s = behind_merchant(json);
    let a = behind_terminal(json);
    lemma_expect_last(json, a);
    lemma_terminal_starts(json, s);
    lemma_section_names();
    if single_pass::sections(json, s.at + 2, p).1 is None {
        lemma_section_taken(json, s.at + 2, Section::Terminal, "terminal".spec_bytes(), p);
    }
    let q = lemma_terminal_members(json, s, p);
    lemma_section_step(json, s.at + 2, Section::Terminal, "terminal".spec_bytes(), p, q, a.at + 1);
    q
}

/// The whole payload, from one object to the next.
proof fn lemma_compact_outcome(json: Seq<u8>)
    ensures
        compact::compact_outcome(json) == at_last_transaction(json).take_last_transaction(
            json,
        ).finish(json),
{
    reveal(behind_transaction);
    reveal(behind_customer);
    reveal(behind_merchant);
    reveal(behind_terminal);
    reveal(at_last_transaction);
}

/// What is right up to the last transaction was right before.
proof fn lemma_right_before(json: Seq<u8>)
    requires
        at_last_transaction(json).error is None,
    ensures
        behind_terminal(json).error is None,
        behind_merchant(json).error is None,
        behind_customer(json).error is None,
{
    assert(behind_terminal(json).error is None) by {
        reveal(at_last_transaction);
        lemma_expect_last(json, behind_terminal(json));
    }
    assert(behind_merchant(json).error is None) by {
        reveal(behind_terminal);
        lemma_terminal_starts(json, behind_merchant(json));
    }
    assert(behind_customer(json).error is None) by {
        reveal(behind_merchant);
        lemma_merchant_starts(json, behind_customer(json));
    }
}

/// A compact payload starts with the brace that opens it.
proof fn lemma_opening(json: Seq<u8>)
    requires
        behind_customer(json).error is None,
    ensures
        scan::byte_at(json, 0, '{' as u8),
        scan::ws_end(json, 0) == 0,
{
    reveal(behind_transaction);
    reveal(behind_customer);
    let s = State::start();
    let i = s.expect(json, "{\"id\":\"".spec_bytes()).text(json).0;
    let t = transaction_from(json, i);
    assert(t == behind_transaction(json));
    lemma_customer_starts(json, t);
    lemma_transaction_starts(json, i);
    lemma_identifier(json, s, Progress::start());
}

/// Both forms give the same where the payload is regular, or where one pass takes it.
#[verifier::rlimit(40)]
proof fn lemma_forms_agree(json: Seq<u8>)
    requires
        compact::compact_outcome(json).error is None,
        is_regular(json) || single_pass::sections(json, 1, Progress::start()).1 is None,
    ensures
        single_pass::single_pass_outcome(json) == (
            compact::compact_outcome(json).out,
            Ok::<(), crate::vector::ParseError>(()),
        ),
{
    lemma_compact_outcome(json);
    let e = behind_terminal(json);
    let l = at_last_transaction(json);
    let f = l.take_last_transaction(json);
    assert(f.error is None && l.error is None);
    lemma_right_before(json);
    let p1 = lemma_transaction(json);
    let p2 = lemma_customer(json, p1);
    let p3 = lemma_merchant(json, p2);
    let p4 = lemma_terminal(json, p3);
    assert(l == e.expect(json, "},\"last_transaction\":".spec_bytes())) by {
        reveal(at_last_transaction);
    }
    reveal(at_km_from_current);
    let q = lemma_last_transaction(json, e, p4);
    assert(single_pass::sections(json, 1, Progress::start()) == (
        q,
        None::<crate::vector::ParseError>,
    ));
    assert(q.complete());
}

/// What the compact form gives, one pass gives too, unless a number starts with its point or a known
/// merchant's name holds a closing bracket.
pub proof fn law_one_pass_gives_what_the_compact_form_gives(json: Seq<u8>)
    requires
        compact::compact_outcome(json).error is None,
        is_regular(json),
    ensures
        single_pass::single_pass_outcome(json) == (
            compact::compact_outcome(json).out,
            Ok::<(), crate::vector::ParseError>(()),
        ),
{
    lemma_forms_agree(json);
}

/// A payload that is taken both in the compact form and in one pass has the same vector in both.
pub proof fn law_both_forms_give_the_same_vector(json: Seq<u8>)
    requires
        compact::compact_outcome(json).error is None,
        single_pass::single_pass_outcome(json).1 is Ok,
    ensures
        single_pass::single_pass_outcome(json).0 == compact::compact_outcome(json).out,
{
    lemma_compact_outcome(json);
    lemma_right_before(json);
    lemma_opening(json);
    lemma_forms_agree(json);
}

} // verus!
