//! Transactions that are written out.

use vstd::prelude::*;
use vstd::string::StringSliceAdditionalSpecFns;

use crate::vector;
use crate::vector::agreement;
use crate::vector::compact;
use crate::vector::dimensions;
use crate::vector::dimensions::is_flag;
use crate::vector::dimensions::is_part;
use crate::vector::dimensions::is_ratio;
use crate::vector::dimensions::is_risk;
use crate::vector::dimensions::is_share;
use crate::vector::helpers;
use crate::vector::numeral;
use crate::vector::order;
use crate::vector::reorder;
use crate::vector::reorder::Part;
use crate::vector::scan;
use crate::vector::single_pass;
use crate::vector::single_pass::Field;
use crate::vector::single_pass::Progress;
use crate::vector::single_pass::Section;
use crate::vector::spelled;
use crate::PACKED_DIMS;
use crate::SCALE;

verus! {

/// A transaction, value by value as it is written.
pub struct Written {
    pub amount: Seq<u8>,
    pub installments: Seq<u8>,
    pub requested_at: Seq<u8>,
    pub customer_average: Seq<u8>,
    pub tx_count: Seq<u8>,
    pub known_merchants: Seq<u8>,
    pub merchant_id: Seq<u8>,
    pub mcc: Seq<u8>,
    pub merchant_average: Seq<u8>,
    pub is_online: Seq<u8>,
    pub card_present: Seq<u8>,
    pub km_from_home: Seq<u8>,
    /// Its time, and how far away it was.
    pub last_transaction: Option<(Seq<u8>, Seq<u8>)>,
}

impl Written {
    pub open spec fn transaction(self) -> Seq<(Seq<u8>, Seq<u8>)> {
        seq![
            ("amount".spec_bytes(), self.amount),
            ("installments".spec_bytes(), self.installments),
            ("requested_at".spec_bytes(), self.requested_at),
        ]
    }

    pub open spec fn customer(self) -> Seq<(Seq<u8>, Seq<u8>)> {
        seq![
            ("avg_amount".spec_bytes(), self.customer_average),
            ("tx_count_24h".spec_bytes(), self.tx_count),
            ("known_merchants".spec_bytes(), self.known_merchants),
        ]
    }

    pub open spec fn merchant(self) -> Seq<(Seq<u8>, Seq<u8>)> {
        seq![
            ("id".spec_bytes(), self.merchant_id),
            ("mcc".spec_bytes(), self.mcc),
            ("avg_amount".spec_bytes(), self.merchant_average),
        ]
    }

    pub open spec fn terminal(self) -> Seq<(Seq<u8>, Seq<u8>)> {
        seq![
            ("is_online".spec_bytes(), self.is_online),
            ("card_present".spec_bytes(), self.card_present),
            ("km_from_home".spec_bytes(), self.km_from_home),
        ]
    }

    pub open spec fn last(self) -> Part {
        match self.last_transaction {
            Some((timestamp, km)) => Part::Object(
                seq![("timestamp".spec_bytes(), timestamp), ("km_from_current".spec_bytes(), km)],
            ),
            None => Part::Text("null".spec_bytes()),
        }
    }

    /// The members of the payload.
    pub open spec fn parts(self) -> Seq<(Seq<u8>, Part)> {
        seq![
            ("transaction".spec_bytes(), Part::Object(self.transaction())),
            ("customer".spec_bytes(), Part::Object(self.customer())),
            ("merchant".spec_bytes(), Part::Object(self.merchant())),
            ("terminal".spec_bytes(), Part::Object(self.terminal())),
            ("last_transaction".spec_bytes(), self.last()),
        ]
    }

    /// Every value is one that can be read: numbers, integers, truth values, texts, times in texts, and
    /// a list of texts.
    pub open spec fn is_readable(self) -> bool {
        &&& is_number(self.amount)
        &&& is_integer(self.installments)
        &&& is_time(self.requested_at)
        &&& is_number(self.customer_average)
        &&& is_integer(self.tx_count)
        &&& is_list(self.known_merchants)
        &&& is_text(self.merchant_id)
        &&& is_text(self.mcc)
        &&& is_number(self.merchant_average)
        &&& is_truth(self.is_online)
        &&& is_truth(self.card_present)
        &&& is_number(self.km_from_home)
        &&& self.last_transaction matches Some((timestamp, km)) ==> is_time(timestamp)
            && is_number(km)
    }
}

#[verifier::opaque]
pub open spec fn is_number(text: Seq<u8>) -> bool {
    spelled::is_value(text) && numeral::double_at(text, 0) is Ok
}

#[verifier::opaque]
pub open spec fn is_integer(text: Seq<u8>) -> bool {
    spelled::is_value(text) && numeral::int_at(text, 0) is Ok
}

#[verifier::opaque]
pub open spec fn is_text(text: Seq<u8>) -> bool {
    spelled::is_value(text) && numeral::string_at(text, 0) is Ok
}

#[verifier::opaque]
pub open spec fn is_time(text: Seq<u8>) -> bool {
    is_text(text) && helpers::datetime_of(numeral::string_at(text, 0)->Ok_0) is Ok
}

#[verifier::opaque]
pub open spec fn is_truth(text: Seq<u8>) -> bool {
    spelled::is_value(text) && numeral::bool_at(text, 0) is Ok
}

/// A list of texts.
#[verifier::opaque]
pub open spec fn is_list(text: Seq<u8>) -> bool {
    spelled::is_value(text) && single_pass::known_at(text, 0) is Ok
}

/// What the names of a payload stand for.
proof fn lemma_sections()
    ensures
        single_pass::section_named("transaction".spec_bytes()) == Some(Section::Transaction),
        single_pass::section_named("customer".spec_bytes()) == Some(Section::Customer),
        single_pass::section_named("merchant".spec_bytes()) == Some(Section::Merchant),
        single_pass::section_named("terminal".spec_bytes()) == Some(Section::Terminal),
        single_pass::section_named("last_transaction".spec_bytes()) == Some(
            Section::LastTransaction,
        ),
        is_name("transaction".spec_bytes()),
        is_name("customer".spec_bytes()),
        is_name("merchant".spec_bytes()),
        is_name("terminal".spec_bytes()),
        is_name("last_transaction".spec_bytes()),
{
    reveal(is_name);
    reveal_strlit("transaction");
    reveal_strlit("customer");
    reveal_strlit("merchant");
    reveal_strlit("terminal");
    reveal_strlit("last_transaction");
    assert(vstd::string::is_ascii("transaction"));
    assert(vstd::string::is_ascii("customer"));
    assert(vstd::string::is_ascii("merchant"));
    assert(vstd::string::is_ascii("terminal"));
    assert(vstd::string::is_ascii("last_transaction"));
    assert("transaction".spec_bytes().len() == 11);
    assert("customer".spec_bytes()[0] == 99);
    assert("merchant".spec_bytes()[0] == 109);
    assert("terminal".spec_bytes()[0] == 116);
    assert("last_transaction".spec_bytes().len() == 16);
}

proof fn lemma_fields()
    ensures
        single_pass::field_named(Section::Transaction, "amount".spec_bytes()) == Some(
            Field::Amount,
        ),
        single_pass::field_named(Section::Transaction, "installments".spec_bytes()) == Some(
            Field::Installments,
        ),
        single_pass::field_named(Section::Transaction, "requested_at".spec_bytes()) == Some(
            Field::RequestedAt,
        ),
        single_pass::field_named(Section::Customer, "avg_amount".spec_bytes()) == Some(
            Field::CustomerAverage,
        ),
        single_pass::field_named(Section::Customer, "tx_count_24h".spec_bytes()) == Some(
            Field::TxCount,
        ),
        single_pass::field_named(Section::Customer, "known_merchants".spec_bytes()) == Some(
            Field::KnownMerchants,
        ),
        single_pass::field_named(Section::Merchant, "id".spec_bytes()) == Some(Field::MerchantId),
        single_pass::field_named(Section::Merchant, "mcc".spec_bytes()) == Some(Field::Mcc),
        single_pass::field_named(Section::Merchant, "avg_amount".spec_bytes()) == Some(
            Field::MerchantAverage,
        ),
        single_pass::field_named(Section::Terminal, "is_online".spec_bytes()) == Some(
            Field::IsOnline,
        ),
        single_pass::field_named(Section::Terminal, "card_present".spec_bytes()) == Some(
            Field::CardPresent,
        ),
        single_pass::field_named(Section::Terminal, "km_from_home".spec_bytes()) == Some(
            Field::KmFromHome,
        ),
        single_pass::field_named(Section::LastTransaction, "timestamp".spec_bytes()) == Some(
            Field::Timestamp,
        ),
        single_pass::field_named(Section::LastTransaction, "km_from_current".spec_bytes()) == Some(
            Field::KmFromCurrent,
        ),
{
    reveal(single_pass::field_named);
    reveal_strlit("amount");
    reveal_strlit("installments");
    reveal_strlit("requested_at");
    reveal_strlit("avg_amount");
    reveal_strlit("tx_count_24h");
    reveal_strlit("known_merchants");
    reveal_strlit("id");
    reveal_strlit("mcc");
    reveal_strlit("is_online");
    reveal_strlit("card_present");
    reveal_strlit("km_from_home");
    reveal_strlit("timestamp");
    reveal_strlit("km_from_current");
    assert(vstd::string::is_ascii("amount"));
    assert(vstd::string::is_ascii("installments"));
    assert(vstd::string::is_ascii("requested_at"));
    assert(vstd::string::is_ascii("avg_amount"));
    assert(vstd::string::is_ascii("tx_count_24h"));
    assert(vstd::string::is_ascii("known_merchants"));
    assert(vstd::string::is_ascii("id"));
    assert(vstd::string::is_ascii("mcc"));
    assert(vstd::string::is_ascii("is_online"));
    assert(vstd::string::is_ascii("card_present"));
    assert(vstd::string::is_ascii("km_from_home"));
    assert(vstd::string::is_ascii("timestamp"));
    assert(vstd::string::is_ascii("km_from_current"));
    assert("amount".spec_bytes().len() == 6);
    assert("installments".spec_bytes()[0] == 105);
    assert("requested_at".spec_bytes()[0] == 114);
    assert("avg_amount".spec_bytes().len() == 10);
    assert("tx_count_24h".spec_bytes().len() == 12);
    assert("known_merchants".spec_bytes().len() == 15);
    assert("id".spec_bytes().len() == 2);
    assert("mcc".spec_bytes().len() == 3);
    assert("is_online".spec_bytes().len() == 9);
    assert("card_present".spec_bytes()[0] == 99);
    assert("km_from_home".spec_bytes()[0] == 107);
    assert("timestamp".spec_bytes().len() == 9);
    assert("km_from_current".spec_bytes().len() == 15);
}

proof fn lemma_plain_names()
    ensures
        is_name("amount".spec_bytes()),
        is_name("installments".spec_bytes()),
        is_name("requested_at".spec_bytes()),
        is_name("avg_amount".spec_bytes()),
        is_name("tx_count_24h".spec_bytes()),
        is_name("known_merchants".spec_bytes()),
        is_name("id".spec_bytes()),
        is_name("mcc".spec_bytes()),
        is_name("is_online".spec_bytes()),
        is_name("card_present".spec_bytes()),
        is_name("km_from_home".spec_bytes()),
        is_name("timestamp".spec_bytes()),
        is_name("km_from_current".spec_bytes()),
{
    reveal(is_name);
    reveal_strlit("amount");
    reveal_strlit("installments");
    reveal_strlit("requested_at");
    reveal_strlit("avg_amount");
    reveal_strlit("tx_count_24h");
    reveal_strlit("known_merchants");
    reveal_strlit("id");
    reveal_strlit("mcc");
    reveal_strlit("is_online");
    reveal_strlit("card_present");
    reveal_strlit("km_from_home");
    reveal_strlit("timestamp");
    reveal_strlit("km_from_current");
    assert(vstd::string::is_ascii("amount"));
    assert(vstd::string::is_ascii("installments"));
    assert(vstd::string::is_ascii("requested_at"));
    assert(vstd::string::is_ascii("avg_amount"));
    assert(vstd::string::is_ascii("tx_count_24h"));
    assert(vstd::string::is_ascii("known_merchants"));
    assert(vstd::string::is_ascii("id"));
    assert(vstd::string::is_ascii("mcc"));
    assert(vstd::string::is_ascii("is_online"));
    assert(vstd::string::is_ascii("card_present"));
    assert(vstd::string::is_ascii("km_from_home"));
    assert(vstd::string::is_ascii("timestamp"));
    assert(vstd::string::is_ascii("km_from_current"));
}

proof fn lemma_nothing()
    ensures
        spelled::is_value("null".spec_bytes()),
        "null".spec_bytes()[0] == 110,
{
    reveal_strlit("null");
    assert(vstd::string::is_ascii("null"));
    let text = "null".spec_bytes();
    assert(text.len() == 4 && text[0] == 110);
    assert(text.subrange(0, 4) =~= text);
    assert(scan::ws_end(text, 0) == 0);
}

/// A member can be written.
#[verifier::opaque]
spec fn is_member(member: (Seq<u8>, Seq<u8>)) -> bool {
    spelled::is_plain(member.0) && spelled::is_value(member.1)
}

proof fn lemma_member(name: Seq<u8>, text: Seq<u8>)
    requires
        is_name(name),
        is_number(text) || is_integer(text) || is_text(text) || is_time(text) || is_truth(text)
            || is_list(text),
    ensures
        is_member((name, text)),
{
    reveal(is_name);
    reveal(is_member);
    reveal(is_number);
    reveal(is_integer);
    reveal(is_text);
    reveal(is_time);
    reveal(is_truth);
    reveal(is_list);
}

/// A name can be written.
#[verifier::opaque]
spec fn is_name(name: Seq<u8>) -> bool {
    spelled::is_plain(name)
}

/// A member of the payload can be written.
#[verifier::opaque]
spec fn is_good(part: (Seq<u8>, Part)) -> bool {
    spelled::is_part(part)
}

proof fn lemma_members(members: Seq<(Seq<u8>, Seq<u8>)>)
    requires
        forall|k: int| 0 <= k < members.len() ==> is_member(#[trigger] members[k]),
    ensures
        spelled::are_members(members),
{
    reveal(is_member);
}

proof fn lemma_object(name: Seq<u8>, members: Seq<(Seq<u8>, Seq<u8>)>)
    requires
        is_name(name),
        single_pass::section_named(name) is Some,
        forall|k: int| 0 <= k < members.len() ==> is_member(#[trigger] members[k]),
    ensures
        is_good((name, Part::Object(members))),
{
    reveal(is_good);
    reveal(is_name);
    lemma_members(members);
}

proof fn lemma_no_last(name: Seq<u8>)
    requires
        is_name(name),
        single_pass::section_named(name) == Some(Section::LastTransaction),
    ensures
        is_good((name, Part::Text("null".spec_bytes()))),
{
    reveal(is_good);
    reveal(is_name);
    lemma_nothing();
}

proof fn lemma_last_part(w: Written)
    requires
        w.is_readable(),
    ensures
        is_good(("last_transaction".spec_bytes(), w.last())),
{
    lemma_sections();
    match w.last_transaction {
        Some((timestamp, km)) => {
            lemma_plain_names();
            lemma_member("timestamp".spec_bytes(), timestamp);
            lemma_member("km_from_current".spec_bytes(), km);
            let members = w.last()->Object_0;
            assert forall|k: int| 0 <= k < members.len() implies is_member(
                #[trigger] members[k],
            ) by {
                assert(k == 0 || k == 1);
            }
            lemma_object("last_transaction".spec_bytes(), members);
        },
        None => {
            lemma_no_last("last_transaction".spec_bytes());
        },
    }
}

proof fn lemma_written_members(w: Written)
    requires
        w.is_readable(),
    ensures
        forall|k: int| 0 <= k < 3 ==> is_member(#[trigger] w.transaction()[k]),
        forall|k: int| 0 <= k < 3 ==> is_member(#[trigger] w.customer()[k]),
        forall|k: int| 0 <= k < 3 ==> is_member(#[trigger] w.merchant()[k]),
        forall|k: int| 0 <= k < 3 ==> is_member(#[trigger] w.terminal()[k]),
{
    lemma_plain_names();
    lemma_member("amount".spec_bytes(), w.amount);
    lemma_member("installments".spec_bytes(), w.installments);
    lemma_member("requested_at".spec_bytes(), w.requested_at);
    lemma_member("avg_amount".spec_bytes(), w.customer_average);
    lemma_member("tx_count_24h".spec_bytes(), w.tx_count);
    lemma_member("known_merchants".spec_bytes(), w.known_merchants);
    lemma_member("id".spec_bytes(), w.merchant_id);
    lemma_member("mcc".spec_bytes(), w.mcc);
    lemma_member("avg_amount".spec_bytes(), w.merchant_average);
    lemma_member("is_online".spec_bytes(), w.is_online);
    lemma_member("card_present".spec_bytes(), w.card_present);
    lemma_member("km_from_home".spec_bytes(), w.km_from_home);
}

/// A written transaction is a payload that can be written.
proof fn lemma_are_parts(w: Written)
    requires
        w.is_readable(),
    ensures
        spelled::are_parts(w.parts()),
{
    lemma_sections();
    lemma_written_members(w);
    lemma_object("transaction".spec_bytes(), w.transaction());
    lemma_object("customer".spec_bytes(), w.customer());
    lemma_object("merchant".spec_bytes(), w.merchant());
    lemma_object("terminal".spec_bytes(), w.terminal());
    lemma_last_part(w);
    lemma_five(w.parts());
}

proof fn lemma_five(parts: Seq<(Seq<u8>, Part)>)
    requires
        parts.len() == 5,
        is_good(parts[0]),
        is_good(parts[1]),
        is_good(parts[2]),
        is_good(parts[3]),
        is_good(parts[4]),
    ensures
        spelled::are_parts(parts),
{
    reveal(is_good);
    assert forall|k: int| 0 <= k < parts.len() implies spelled::is_part(#[trigger] parts[k]) by {
        assert(k == 0 || k == 1 || k == 2 || k == 3 || k == 4);
    }
}

proof fn lemma_texts_of_three(
    members: Seq<(Seq<u8>, Seq<u8>)>,
    section: Section,
    a: Field,
    b: Field,
    c: Field,
)
    requires
        members.len() == 3,
        single_pass::field_named(section, members[0].0) == Some(a),
        single_pass::field_named(section, members[1].0) == Some(b),
        single_pass::field_named(section, members[2].0) == Some(c),
    ensures
        reorder::field_texts(members, section) == seq![
            (a, members[0].1),
            (b, members[1].1),
            (c, members[2].1),
        ],
{
    let one = members.drop_first();
    let two = one.drop_first();
    let three = two.drop_first();
    assert(one[0] == members[1] && two[0] == members[2]);
    assert(reorder::field_texts(three, section) =~= Seq::<(Field, Seq<u8>)>::empty());
    assert(reorder::field_texts(two, section) =~= seq![(c, members[2].1)]);
    assert(reorder::field_texts(one, section) =~= seq![(b, members[1].1), (c, members[2].1)]);
    assert(reorder::field_texts(members, section) =~= seq![
        (a, members[0].1),
        (b, members[1].1),
        (c, members[2].1),
    ]);
}

proof fn lemma_texts_of_two(
    members: Seq<(Seq<u8>, Seq<u8>)>,
    section: Section,
    a: Field,
    b: Field,
)
    requires
        members.len() == 2,
        single_pass::field_named(section, members[0].0) == Some(a),
        single_pass::field_named(section, members[1].0) == Some(b),
    ensures
        reorder::field_texts(members, section) == seq![(a, members[0].1), (b, members[1].1)],
{
    let one = members.drop_first();
    let two = one.drop_first();
    assert(one[0] == members[1]);
    assert(reorder::field_texts(two, section) =~= Seq::<(Field, Seq<u8>)>::empty());
    assert(reorder::field_texts(one, section) =~= seq![(b, members[1].1)]);
    assert(reorder::field_texts(members, section) =~= seq![(a, members[0].1), (b, members[1].1)]);
}

impl Written {
    /// The fields, each with its text.
    pub open spec fn texts(self) -> Seq<(Field, Seq<u8>)> {
        seq![
            (Field::Amount, self.amount),
            (Field::Installments, self.installments),
            (Field::RequestedAt, self.requested_at),
            (Field::CustomerAverage, self.customer_average),
            (Field::TxCount, self.tx_count),
            (Field::KnownMerchants, self.known_merchants),
            (Field::MerchantId, self.merchant_id),
            (Field::Mcc, self.mcc),
            (Field::MerchantAverage, self.merchant_average),
            (Field::IsOnline, self.is_online),
            (Field::CardPresent, self.card_present),
            (Field::KmFromHome, self.km_from_home),
        ] + match self.last_transaction {
            Some((timestamp, km)) => seq![
                (Field::Timestamp, timestamp),
                (Field::KmFromCurrent, km),
            ],
            None => Seq::empty(),
        }
    }

    /// The text of a field.
    pub open spec fn text_of(self, field: Field) -> Seq<u8> {
        match field {
            Field::Amount => self.amount,
            Field::Installments => self.installments,
            Field::RequestedAt => self.requested_at,
            Field::CustomerAverage => self.customer_average,
            Field::TxCount => self.tx_count,
            Field::KnownMerchants => self.known_merchants,
            Field::MerchantId => self.merchant_id,
            Field::Mcc => self.mcc,
            Field::MerchantAverage => self.merchant_average,
            Field::IsOnline => self.is_online,
            Field::CardPresent => self.card_present,
            Field::KmFromHome => self.km_from_home,
            Field::Timestamp => self.last_transaction.unwrap().0,
            Field::KmFromCurrent => self.last_transaction.unwrap().1,
        }
    }

    /// The field is there.
    pub open spec fn has(self, field: Field) -> bool {
        field == Field::Timestamp || field == Field::KmFromCurrent ==> self.last_transaction is Some
    }
}

/// The fields of a written transaction are its values.
proof fn lemma_texts(w: Written)
    ensures
        reorder::payload_texts(w.parts()) == w.texts(),
        reorder::has_last(w.parts()),
{
    lemma_sections();
    lemma_fields();
    let parts = w.parts();
    let one = parts.drop_first();
    let two = one.drop_first();
    let three = two.drop_first();
    let four = three.drop_first();
    let none = four.drop_first();
    assert(one[0] == parts[1] && two[0] == parts[2] && three[0] == parts[3] && four[0] == parts[4]);
    assert(none.len() == 0);
    lemma_texts_of_three(
        w.transaction(),
        Section::Transaction,
        Field::Amount,
        Field::Installments,
        Field::RequestedAt,
    );
    lemma_texts_of_three(
        w.customer(),
        Section::Customer,
        Field::CustomerAverage,
        Field::TxCount,
        Field::KnownMerchants,
    );
    lemma_texts_of_three(
        w.merchant(),
        Section::Merchant,
        Field::MerchantId,
        Field::Mcc,
        Field::MerchantAverage,
    );
    lemma_texts_of_three(
        w.terminal(),
        Section::Terminal,
        Field::IsOnline,
        Field::CardPresent,
        Field::KmFromHome,
    );
    let (a, b, c, d, e) = (
        reorder::part_texts(parts[0]),
        reorder::part_texts(parts[1]),
        reorder::part_texts(parts[2]),
        reorder::part_texts(parts[3]),
        reorder::part_texts(parts[4]),
    );
    if let Some((timestamp, km)) = w.last_transaction {
        lemma_texts_of_two(
            w.last()->Object_0,
            Section::LastTransaction,
            Field::Timestamp,
            Field::KmFromCurrent,
        );
        assert(e =~= seq![(Field::Timestamp, timestamp), (Field::KmFromCurrent, km)]);
    } else {
        assert(e =~= Seq::<(Field, Seq<u8>)>::empty());
    }
    assert(reorder::payload_texts(none) =~= Seq::<(Field, Seq<u8>)>::empty());
    assert(reorder::payload_texts(four) =~= e);
    assert(reorder::payload_texts(three) =~= d + e);
    assert(reorder::payload_texts(two) =~= c + (d + e));
    assert(reorder::payload_texts(one) =~= b + (c + (d + e)));
    assert(reorder::payload_texts(parts) =~= a + (b + (c + (d + e))));
    assert(a + (b + (c + (d + e))) =~= w.texts());
    assert(single_pass::section_named(parts[4].0) == Some(Section::LastTransaction));
}

proof fn lemma_text_of(w: Written, field: Field, text: Seq<u8>)
    ensures
        w.texts().contains((field, text)) <==> w.has(field) && text == w.text_of(field),
{
    let texts = w.texts();
    if texts.contains((field, text)) {
        let k = choose|k: int| 0 <= k < texts.len() && texts[k] == (field, text);
        assert(k == 0 || k == 1 || k == 2 || k == 3 || k == 4 || k == 5 || k == 6 || k == 7 || k == 8
            || k == 9 || k == 10 || k == 11 || k == 12 || k == 13);
    }
    if w.has(field) && text == w.text_of(field) {
        assert(texts[0] == (Field::Amount, w.amount));
        assert(texts[1] == (Field::Installments, w.installments));
        assert(texts[2] == (Field::RequestedAt, w.requested_at));
        assert(texts[3] == (Field::CustomerAverage, w.customer_average));
        assert(texts[4] == (Field::TxCount, w.tx_count));
        assert(texts[5] == (Field::KnownMerchants, w.known_merchants));
        assert(texts[6] == (Field::MerchantId, w.merchant_id));
        assert(texts[7] == (Field::Mcc, w.mcc));
        assert(texts[8] == (Field::MerchantAverage, w.merchant_average));
        assert(texts[9] == (Field::IsOnline, w.is_online));
        assert(texts[10] == (Field::CardPresent, w.card_present));
        assert(texts[11] == (Field::KmFromHome, w.km_from_home));
        if w.last_transaction is Some {
            assert(texts[12] == (Field::Timestamp, w.last_transaction.unwrap().0));
            assert(texts[13] == (Field::KmFromCurrent, w.last_transaction.unwrap().1));
        }
    }
}

proof fn lemma_text_reads(w: Written, field: Field)
    requires
        w.is_readable(),
        w.has(field),
    ensures
        reorder::text_reads(field, w.text_of(field)),
{
    reveal(Progress::store);
    reveal(is_number);
    reveal(is_integer);
    reveal(is_text);
    reveal(is_time);
    reveal(is_truth);
    reveal(is_list);
}

/// The fields of the payload have the values that are written.
proof fn lemma_values(w: Written, json: Seq<u8>)
    requires
        w.is_readable(),
        json == spelled::payload_text(w.parts()),
    ensures
        order::fields_read(json) is Some,
        order::fields_read(json).unwrap().1,
        forall|field: Field| #[trigger]
            order::value_of(json, field) == (if w.has(field) {
                Some(Progress::start().store(field, w.text_of(field), 0).0)
            } else {
                None
            }),
{
    let texts = w.texts();
    lemma_are_parts(w);
    spelled::law_written_members_read_back(w.parts());
    lemma_texts(w);
    assert forall|k: int| 0 <= k < texts.len() implies reorder::text_reads(
        (#[trigger] texts[k]).0,
        texts[k].1,
    ) by {
        let (field, text) = texts[k];
        assert(texts.contains((field, text)));
        lemma_text_of(w, field, text);
        lemma_text_reads(w, field);
    }
    reorder::lemma_fields_from_texts(json, w.parts());
    assert forall|field: Field| #[trigger]
        order::value_of(json, field) == (if w.has(field) {
            Some(Progress::start().store(field, w.text_of(field), 0).0)
        } else {
            None
        }) by {
        lemma_text_of(w, field, w.text_of(field));
        if let Some(p) = order::value_of(json, field) {
            let text = choose|text: Seq<u8>| #[trigger]
                texts.contains((field, text)) && p == Progress::start().store(field, text, 0).0;
            lemma_text_of(w, field, text);
        }
    }
}

/// The vector says what is written.
pub open spec fn says_written(v: Seq<i16>, w: Written) -> bool {
    let amount = numeral::double_at(w.amount, 0)->Ok_0;
    let requested = helpers::datetime_of(numeral::string_at(w.requested_at, 0)->Ok_0)->Ok_0;
    &&& v.len() == PACKED_DIMS
    &&& is_part(v[0], amount, 10_000)
    &&& is_share(v[1], numeral::int_at(w.installments, 0)->Ok_0 as int, 12)
    &&& is_ratio(v[2], amount, numeral::double_at(w.customer_average, 0)->Ok_0)
    &&& is_share(v[3], requested.hour as int, 23)
    &&& is_share(v[4], requested.day_of_week as int, 6)
    &&& w.last_transaction is None ==> v[5] == -SCALE && v[6] == -SCALE
    &&& w.last_transaction matches Some((timestamp, km)) ==> {
        let time = helpers::datetime_of(numeral::string_at(timestamp, 0)->Ok_0)->Ok_0;
        &&& is_share(v[5], requested.epoch_minute - time.epoch_minute, 1440)
        &&& is_part(v[6], numeral::double_at(km, 0)->Ok_0, 1000)
    }
    &&& is_part(v[7], numeral::double_at(w.km_from_home, 0)->Ok_0, 1000)
    &&& is_share(v[8], numeral::int_at(w.tx_count, 0)->Ok_0 as int, 20)
    &&& is_flag(v[9], numeral::bool_at(w.is_online, 0)->Ok_0)
    &&& is_flag(v[10], numeral::bool_at(w.card_present, 0)->Ok_0)
    &&& is_flag(
        v[11],
        !(single_pass::known_at(w.known_merchants, 0)->Ok_0).contains(
            helpers::hash_of(numeral::string_at(w.merchant_id, 0)->Ok_0),
        ),
    )
    &&& is_risk(v[12], numeral::string_at(w.mcc, 0)->Ok_0)
    &&& is_part(v[13], numeral::double_at(w.merchant_average, 0)->Ok_0, 10_000)
}

/// What a field of a written transaction makes of an empty vector.
#[verifier::opaque]
spec fn field_says(p: Progress, w: Written, field: Field) -> bool {
    dimensions::makes(p, w.text_of(field), 0, field)
}

proof fn lemma_field_says(w: Written, json: Seq<u8>, field: Field)
    requires
        w.is_readable(),
        w.has(field),
        order::value_of(json, field) == Some(
            Progress::start().store(field, w.text_of(field), 0).0,
        ),
    ensures
        field_says(order::value_of(json, field).unwrap(), w, field),
{
    reveal(field_says);
    lemma_text_reads(w, field);
    dimensions::lemma_stored(w.text_of(field), 0, field);
}

proof fn lemma_numbers_said(
    w: Written,
    a: Progress,
    i: Progress,
    c: Progress,
    h: Progress,
    t: Progress,
    m: Progress,
)
    requires
        field_says(a, w, Field::Amount),
        field_says(i, w, Field::Installments),
        field_says(c, w, Field::CustomerAverage),
        field_says(h, w, Field::KmFromHome),
        field_says(t, w, Field::TxCount),
        field_says(m, w, Field::MerchantAverage),
    ensures
        is_part(a.out[0], numeral::double_at(w.amount, 0)->Ok_0, 10_000),
        is_share(i.out[1], numeral::int_at(w.installments, 0)->Ok_0 as int, 12),
        is_ratio(
            helpers::amount_ratio(a.amount, c.average),
            numeral::double_at(w.amount, 0)->Ok_0,
            numeral::double_at(w.customer_average, 0)->Ok_0,
        ),
        is_part(h.out[7], numeral::double_at(w.km_from_home, 0)->Ok_0, 1000),
        is_share(t.out[8], numeral::int_at(w.tx_count, 0)->Ok_0 as int, 20),
        is_part(m.out[13], numeral::double_at(w.merchant_average, 0)->Ok_0, 10_000),
{
    reveal(field_says);
    dimensions::lemma_part(numeral::double_at(w.amount, 0)->Ok_0, 10_000);
    dimensions::lemma_part(numeral::double_at(w.km_from_home, 0)->Ok_0, 1000);
    dimensions::lemma_part(numeral::double_at(w.merchant_average, 0)->Ok_0, 10_000);
    dimensions::lemma_share(numeral::int_at(w.installments, 0)->Ok_0 as int, 12);
    dimensions::lemma_share(numeral::int_at(w.tx_count, 0)->Ok_0 as int, 20);
    dimensions::lemma_ratio(
        numeral::double_at(w.amount, 0)->Ok_0,
        numeral::double_at(w.customer_average, 0)->Ok_0,
    );
}

proof fn lemma_texts_said(
    w: Written,
    o: Progress,
    c: Progress,
    r: Progress,
    m: Progress,
    k: Progress,
)
    requires
        field_says(o, w, Field::IsOnline),
        field_says(c, w, Field::CardPresent),
        field_says(r, w, Field::Mcc),
        field_says(m, w, Field::MerchantId),
        field_says(k, w, Field::KnownMerchants),
    ensures
        is_flag(o.out[9], numeral::bool_at(w.is_online, 0)->Ok_0),
        is_flag(c.out[10], numeral::bool_at(w.card_present, 0)->Ok_0),
        is_risk(r.out[12], numeral::string_at(w.mcc, 0)->Ok_0),
        m.merchant == helpers::hash_of(numeral::string_at(w.merchant_id, 0)->Ok_0),
        k.known == single_pass::known_at(w.known_merchants, 0)->Ok_0,
{
    reveal(field_says);
    dimensions::law_categories_are_rated(numeral::string_at(w.mcc, 0)->Ok_0);
}

proof fn lemma_times_said(w: Written, r: Progress)
    requires
        field_says(r, w, Field::RequestedAt),
    ensures
        ({
            let time = helpers::datetime_of(numeral::string_at(w.requested_at, 0)->Ok_0)->Ok_0;
            &&& is_share(r.out[3], time.hour as int, 23)
            &&& is_share(r.out[4], time.day_of_week as int, 6)
            &&& r.requested_minute == time.epoch_minute
            &&& -0x1_0000_0000_0000 <= time.epoch_minute <= 0x1_0000_0000_0000
        }),
{
    reveal(field_says);
    let text = numeral::string_at(w.requested_at, 0)->Ok_0;
    let time = helpers::datetime_of(text)->Ok_0;
    dimensions::lemma_share(time.hour as int, 23);
    dimensions::lemma_share(time.day_of_week as int, 6);
    dimensions::lemma_times_are_near(text);
}

proof fn lemma_last_said(w: Written, l: Progress, k: Progress, requested_minute: int)
    requires
        w.last_transaction is Some,
        field_says(l, w, Field::Timestamp),
        field_says(k, w, Field::KmFromCurrent),
        -0x1_0000_0000_0000 <= requested_minute <= 0x1_0000_0000_0000,
    ensures
        ({
            let (timestamp, km) = w.last_transaction.unwrap();
            let time = helpers::datetime_of(numeral::string_at(timestamp, 0)->Ok_0)->Ok_0;
            &&& l.last_minute is Some
            &&& k.last_km is Some
            &&& is_share(
                helpers::scaled_integer(requested_minute - l.last_minute.unwrap(), 1440),
                requested_minute - time.epoch_minute,
                1440,
            )
            &&& is_part(
                helpers::scaled(k.last_km.unwrap(), 1000),
                numeral::double_at(km, 0)->Ok_0,
                1000,
            )
        }),
{
    reveal(field_says);
    let (timestamp, km) = w.last_transaction.unwrap();
    let text = numeral::string_at(timestamp, 0)->Ok_0;
    let time = helpers::datetime_of(text)->Ok_0;
    dimensions::lemma_times_are_near(text);
    dimensions::lemma_share(requested_minute - time.epoch_minute, 1440);
    dimensions::lemma_part(numeral::double_at(km, 0)->Ok_0, 1000);
}

/// A transaction that is written out under the documented names gets a vector, and every dimension of
/// it is the value that is written for it, on the scale.
#[verifier::spinoff_prover]
pub proof fn law_written_transactions_are_measured(w: Written)
    requires
        w.is_readable(),
    ensures
        vector::query_outcome(spelled::payload_text(w.parts())).1 is Ok,
        says_written(vector::query_outcome(spelled::payload_text(w.parts())).0, w),
{
    let json = spelled::payload_text(w.parts());
    lemma_values(w, json);
    assert(order::value_of(json, Field::Timestamp) is Some <==> order::value_of(
        json,
        Field::KmFromCurrent,
    ) is Some);
    order::lemma_one_pass_takes(json);
    let q = order::lemma_one_pass_values(json);
    if compact::compact_outcome(json).error is None {
        agreement::law_both_forms_give_the_same_vector(json);
    }
    reveal(vector::query_outcome);
    assert(vector::query_outcome(json) == single_pass::single_pass_outcome(json));
    dimensions::lemma_slots(q);
    lemma_field_says(w, json, Field::Amount);
    lemma_field_says(w, json, Field::Installments);
    lemma_field_says(w, json, Field::RequestedAt);
    lemma_field_says(w, json, Field::CustomerAverage);
    lemma_field_says(w, json, Field::TxCount);
    lemma_field_says(w, json, Field::KnownMerchants);
    lemma_field_says(w, json, Field::MerchantId);
    lemma_field_says(w, json, Field::Mcc);
    lemma_field_says(w, json, Field::MerchantAverage);
    lemma_field_says(w, json, Field::IsOnline);
    lemma_field_says(w, json, Field::CardPresent);
    lemma_field_says(w, json, Field::KmFromHome);
    lemma_numbers_said(
        w,
        order::value_of(json, Field::Amount).unwrap(),
        order::value_of(json, Field::Installments).unwrap(),
        order::value_of(json, Field::CustomerAverage).unwrap(),
        order::value_of(json, Field::KmFromHome).unwrap(),
        order::value_of(json, Field::TxCount).unwrap(),
        order::value_of(json, Field::MerchantAverage).unwrap(),
    );
    lemma_texts_said(
        w,
        order::value_of(json, Field::IsOnline).unwrap(),
        order::value_of(json, Field::CardPresent).unwrap(),
        order::value_of(json, Field::Mcc).unwrap(),
        order::value_of(json, Field::MerchantId).unwrap(),
        order::value_of(json, Field::KnownMerchants).unwrap(),
    );
    lemma_times_said(w, order::value_of(json, Field::RequestedAt).unwrap());
    if w.last_transaction is Some {
        lemma_field_says(w, json, Field::Timestamp);
        lemma_field_says(w, json, Field::KmFromCurrent);
        lemma_last_said(
            w,
            order::value_of(json, Field::Timestamp).unwrap(),
            order::value_of(json, Field::KmFromCurrent).unwrap(),
            q.requested_minute,
        );
    } else {
        assert(order::value_of(json, Field::Timestamp) is None);
        assert(order::value_of(json, Field::KmFromCurrent) is None);
    }
}

} // verus!
