//! Checks a request body against the mock body of its endpoint.
//!
//! Both bodies are read as JSON objects and compared by `serde_json_diff`.
//! Of what the comparison reports only the keys that the request lacks are
//! kept, at the top and inside nested objects, each by its own name.

use crate::composite_objects::RequestObject;
use crate::json::{Json, JsonModel};
use crate::json_text::{from_outside, json_parse, read_json, to_outside};
use crate::path_key::texts;
use vstd::prelude::*;

verus! {

/// `serde_json_diff::Difference`, named so that the conversions below can
/// take it.  Nothing is known of what such a value holds.
#[verifier::external_type_specification]
#[verifier::external_body]
pub struct ExDifference(serde_json_diff::Difference);

/// `serde_json_diff::EntryDifference`, named in the same way.
#[verifier::external_type_specification]
#[verifier::external_body]
pub struct ExEntryDifference(serde_json_diff::EntryDifference);

/// How the values at one key of two objects differ.
#[derive(Debug, PartialEq, Eq)]
pub enum EntryDiscrepancy {
    /// The first object lacks the key that the second has.
    Missing { value: Json },
    /// The first object has the key and the second lacks it.
    Extra,
    /// Both have the key, with different values.
    Value { value_diff: Discrepancy },
}

/// One key at which two objects differ.
#[derive(Debug, PartialEq, Eq)]
pub struct DiscrepantEntry {
    pub key: String,
    pub entry: EntryDiscrepancy,
}

/// How two JSON values differ.  Only the difference of two objects is kept
/// in full; of the others the kind alone.
#[derive(Debug, PartialEq, Eq)]
pub enum Discrepancy {
    Scalar,
    Type,
    Array,
    Object { different_entries: Vec<DiscrepantEntry> },
}

/// Why a request body was turned down.
#[derive(Clone, Copy, Debug, PartialEq, Eq, Structural)]
pub enum ValidationFailure {
    /// One of the two bodies is missing, is not JSON, or is not an object.
    MalformedBody,
    /// The request lacks keys that the mock body has.
    MissingKeys,
}

/// A request body that was turned down.
#[derive(Clone, Debug, PartialEq, Eq)]
pub struct ValidationError {
    pub kind: ValidationFailure,
    /// The keys that the request lacks, in the order in which they were met.
    pub missing_keys: Vec<String>,
    pub error_message: String,
}

/// The view of an [`EntryDiscrepancy`].
pub enum EntryDiscrepancyModel {
    Missing { value: JsonModel },
    Extra,
    Value { value_diff: DiscrepancyModel },
}

/// The view of a [`DiscrepantEntry`].
pub struct DiscrepantEntryModel {
    pub key: Seq<char>,
    pub entry: EntryDiscrepancyModel,
}

/// The view of a [`Discrepancy`].
pub enum DiscrepancyModel {
    Scalar,
    Type,
    Array,
    Object { different_entries: Seq<DiscrepantEntryModel> },
}

/// The view of a difference.
pub open spec fn discrepancy_model(diff: Discrepancy) -> DiscrepancyModel
    decreases diff, 0int,
{
    match diff {
        Discrepancy::Scalar => DiscrepancyModel::Scalar,
        Discrepancy::Type => DiscrepancyModel::Type,
        Discrepancy::Array => DiscrepancyModel::Array,
        Discrepancy::Object { different_entries } => DiscrepancyModel::Object {
            different_entries: entries_model_to(
                different_entries@,
                different_entries@.len() as int,
            ),
        },
    }
}

/// The views of the first `count` entries.
pub open spec fn entries_model_to(entries: Seq<DiscrepantEntry>, count: int) -> Seq<
    DiscrepantEntryModel,
>
    decreases entries, count,
{
    if 0 < count <= entries.len() {
        entries_model_to(entries, count - 1).push(
            DiscrepantEntryModel {
                key: entries[count - 1].key@,
                entry: entry_model(entries[count - 1].entry),
            },
        )
    } else {
        Seq::empty()
    }
}

/// The view of the difference at one key.
pub open spec fn entry_model(entry: EntryDiscrepancy) -> EntryDiscrepancyModel
    decreases entry, 0int,
{
    match entry {
        EntryDiscrepancy::Missing { value } => EntryDiscrepancyModel::Missing { value: value@ },
        EntryDiscrepancy::Extra => EntryDiscrepancyModel::Extra,
        EntryDiscrepancy::Value { value_diff } => EntryDiscrepancyModel::Value {
            value_diff: discrepancy_model(value_diff),
        },
    }
}

impl View for Discrepancy {
    type V = DiscrepancyModel;

    open spec fn view(&self) -> DiscrepancyModel {
        discrepancy_model(*self)
    }
}

/// The view of an optional difference.
pub open spec fn difference_model(diff: Option<Discrepancy>) -> Option<DiscrepancyModel> {
    match diff {
        Some(d) => Some(d@),
        None => None,
    }
}

/// The views of the first `count` entries, one by one.
pub proof fn lemma_entries_model(entries: Seq<DiscrepantEntry>, count: int)
    requires
        0 <= count <= entries.len(),
    ensures
        entries_model_to(entries, count).len() == count,
        forall|i: int|
            0 <= i < count ==> (#[trigger] entries_model_to(entries, count)[i]).key
                == entries[i].key@ && entries_model_to(entries, count)[i].entry == entry_model(
                entries[i].entry,
            ),
        count > 0 ==> entries_model_to(entries, count).take(count - 1) == entries_model_to(
            entries,
            count - 1,
        ),
    decreases count,
{
    if count > 0 {
        lemma_entries_model(entries, count - 1);
        assert(entries_model_to(entries, count).take(count - 1) =~= entries_model_to(
            entries,
            count - 1,
        ));
    }
}

/// The difference that `serde_json_diff::values` reports between two values,
/// `None` where it reports none.
pub uninterp spec fn json_difference(source: JsonModel, target: JsonModel) -> Option<
    DiscrepancyModel,
>;

/// Builds the entry difference of the library from that of `serde_json_diff`.
#[verifier::external_body]
fn entry_from_outside(entry: &serde_json_diff::EntryDifference) -> EntryDiscrepancy {
    match entry {
        serde_json_diff::EntryDifference::Missing { value } => EntryDiscrepancy::Missing {
            value: from_outside(value),
        },
        serde_json_diff::EntryDifference::Extra => EntryDiscrepancy::Extra,
        serde_json_diff::EntryDifference::Value { value_diff } => EntryDiscrepancy::Value {
            value_diff: difference_from_outside(value_diff),
        },
    }
}

/// Builds the difference of the library from that of `serde_json_diff`: the
/// entries of an object difference in their order, of the others the kind.
#[verifier::external_body]
fn difference_from_outside(diff: &serde_json_diff::Difference) -> Discrepancy {
    match diff {
        serde_json_diff::Difference::Scalar(_) => Discrepancy::Scalar,
        serde_json_diff::Difference::Type { .. } => Discrepancy::Type,
        serde_json_diff::Difference::Array(_) => Discrepancy::Array,
        serde_json_diff::Difference::Object { different_entries } => Discrepancy::Object {
            different_entries: different_entries.0.iter().map(
                |(key, entry)| DiscrepantEntry { key: key.clone(), entry: entry_from_outside(entry) },
            ).collect(),
        },
    }
}

/// Calls `serde_json_diff::values` on the two values.  The contract claims
/// that the view of the difference is a function of the views of the two
/// values, and gives it its name.
#[verifier::external_body]
pub(crate) fn difference(source: &Json, target: &Json) -> (diff: Option<Discrepancy>)
    ensures
        difference_model(diff) == json_difference(source@, target@),
{
    serde_json_diff::values(to_outside(source), to_outside(target)).map(
        |d| difference_from_outside(&d),
    )
}

/// The keys that a difference reports as missing: of an object difference,
/// entry by entry, the key of a missing entry and the missing keys of the
/// difference of two values; of any other difference none.
pub open spec fn missing_names(diff: DiscrepancyModel) -> Seq<Seq<char>>
    decreases diff, 0int,
{
    match diff {
        DiscrepancyModel::Object { different_entries } => missing_among(
            different_entries,
            different_entries.len() as int,
        ),
        _ => Seq::empty(),
    }
}

/// The keys that the first `count` entries report as missing.
pub open spec fn missing_among(entries: Seq<DiscrepantEntryModel>, count: int) -> Seq<Seq<char>>
    decreases entries, count,
{
    if 0 < count <= entries.len() {
        missing_among(entries, count - 1) + match entries[count - 1].entry {
            EntryDiscrepancyModel::Missing { .. } => seq![entries[count - 1].key],
            EntryDiscrepancyModel::Extra => Seq::empty(),
            EntryDiscrepancyModel::Value { value_diff } => missing_names(value_diff),
        }
    } else {
        Seq::empty()
    }
}

/// Appends to `missing_keys` the keys that the difference reports as missing.
pub fn check_difference(diff: &Discrepancy, missing_keys: &mut Vec<String>)
    ensures
        texts(final(missing_keys)@) == texts(old(missing_keys)@) + missing_names(diff@),
    decreases diff,
{
    let ghost before = texts(missing_keys@);
    match diff {
        Discrepancy::Object { different_entries } => {
            let ghost all = entries_model_to(different_entries@, different_entries@.len() as int);
            proof {
                lemma_entries_model(different_entries@, different_entries@.len() as int);
                assert(diff@ == DiscrepancyModel::Object { different_entries: all });
            }
            let mut i: usize = 0;
            assert(texts(missing_keys@) =~= before + missing_among(all, 0));
            while i < different_entries.len()
                invariant
                    i <= different_entries.len(),
                    decreases_to!(diff => different_entries),
                    all == entries_model_to(different_entries@, different_entries@.len() as int),
                    all.len() == different_entries@.len(),
                    forall|k: int|
                        0 <= k < all.len() ==> (#[trigger] all[k]).key == different_entries@[k].key@
                            && all[k].entry == entry_model(different_entries@[k].entry),
                    texts(missing_keys@) == before + missing_among(all, i as int),
                decreases different_entries.len() - i,
            {
                let ghost so_far = texts(missing_keys@);
                match &different_entries[i].entry {
                    EntryDiscrepancy::Missing { .. } => {
                        let key = different_entries[i].key.clone();
                        missing_keys.push(key);
                        assert(texts(missing_keys@) =~= so_far + seq![key@]);
                    },
                    EntryDiscrepancy::Value { value_diff } => {
                        assert(decreases_to!(different_entries => different_entries@[i as int].entry));
                        check_difference(value_diff, missing_keys);
                    },
                    EntryDiscrepancy::Extra => {
                        assert(texts(missing_keys@) =~= so_far + Seq::<Seq<char>>::empty());
                    },
                }
                proof {
                    assert(all[i as int].entry == entry_model(different_entries@[i as int].entry));
                }
                i += 1;
                assert(texts(missing_keys@) =~= before + missing_among(all, i as int));
            }
        },
        _ => {
            assert(texts(missing_keys@) =~= before + Seq::<Seq<char>>::empty());
        },
    }
}

/// The names, separated by a comma and a space.
pub open spec fn joined(names: Seq<Seq<char>>) -> Seq<char>
    decreases names.len(),
{
    if names.len() == 0 {
        Seq::empty()
    } else if names.len() == 1 {
        names[0]
    } else {
        joined(names.drop_last()) + seq![',', ' '] + names.last()
    }
}

/// The message that lists the missing keys: `Missing keys: k1, k2`.
pub open spec fn missing_keys_message(names: Seq<Seq<char>>) -> Seq<char> {
    "Missing keys: "@ + joined(names)
}

/// The message of a body that could not be read.
pub open spec fn malformed_body_message() -> Seq<char> {
    "Malformed body"@
}

/// The names, separated by a comma and a space.
pub fn join_names(names: &Vec<String>) -> (text: String)
    ensures
        text@ == joined(texts(names@)),
{
    let mut text = String::new();
    let mut i: usize = 0;
    proof {
        reveal_strlit(", ");
        assert(texts(names@).take(0) =~= Seq::<Seq<char>>::empty());
    }
    while i < names.len()
        invariant
            i <= names.len(),
            ", "@ == seq![',', ' '],
            text@ == joined(texts(names@).take(i as int)),
        decreases names.len() - i,
    {
        let ghost before = text@;
        let ghost upto = texts(names@).take(i + 1);
        proof {
            assert(upto.drop_last() =~= texts(names@).take(i as int));
            assert(upto.last() == names@[i as int]@);
        }
        if i > 0 {
            text.append(", ");
        }
        text.append(names[i].as_str());
        proof {
            if i == 0 {
                assert(before =~= Seq::<char>::empty());
                assert(text@ =~= names@[0]@);
            } else {
                assert(text@ =~= before + seq![',', ' '] + names@[i as int]@);
            }
        }
        i += 1;
    }
    assert(texts(names@).take(i as int) =~= texts(names@));
    text
}

/// What is said of a request whose difference from the mock body is `diff`.
pub open spec fn verdict_holds(
    diff: Option<DiscrepancyModel>,
    verdict: Result<bool, ValidationError>,
) -> bool {
    let names = match diff {
        Some(d) => missing_names(d),
        None => Seq::empty(),
    };
    if names.len() == 0 {
        verdict == Ok::<bool, ValidationError>(true)
    } else {
        &&& verdict matches Err(error)
        &&& error.kind == ValidationFailure::MissingKeys
        &&& texts(error.missing_keys@) == names
        &&& error.error_message@ == missing_keys_message(names)
    }
}

/// Judges a request by the difference between its body and the mock body:
/// accepted where the difference reports no missing key, else turned down
/// with the list of the missing keys.
pub fn judge_difference(diff: &Option<Discrepancy>) -> (verdict: Result<bool, ValidationError>)
    ensures
        verdict_holds(difference_model(*diff), verdict),
{
    match diff {
        Some(d) => {
            let mut missing_keys: Vec<String> = Vec::new();
            assert(texts(missing_keys@) =~= Seq::<Seq<char>>::empty());
            check_difference(d, &mut missing_keys);
            assert(texts(missing_keys@) =~= missing_names(d@));
            if missing_keys.len() > 0 {
                let mut error_message = String::from_str("Missing keys: ");
                let list = join_names(&missing_keys);
                error_message.append(list.as_str());
                Err(
                    ValidationError {
                        kind: ValidationFailure::MissingKeys,
                        missing_keys,
                        error_message,
                    },
                )
            } else {
                Ok(true)
            }
        },
        None => Ok(true),
    }
}

/// The object that a text holds, `None` where the text is not JSON or holds
/// another kind of value.
pub open spec fn object_in(text: Seq<char>) -> Option<JsonModel> {
    match json_parse(text) {
        Some(JsonModel::Object(entries)) => Some(JsonModel::Object(entries)),
        _ => None,
    }
}

/// Reads a text that must hold a JSON object.
pub fn read_object(text: &str) -> (object: Option<Json>)
    ensures
        match object {
            Some(value) => object_in(text@) == Some(value@),
            None => object_in(text@) is None,
        },
{
    match read_json(text) {
        Some(Json::Object(entries)) => Some(Json::Object(entries)),
        _ => None,
    }
}

/// Checks the body of a request against the mock body of the endpoint.
///
/// Both are read as JSON objects.  Where one cannot be read, the request is
/// turned down as malformed.  Otherwise the request is judged by the
/// difference that `serde_json_diff` reports between its body and the mock
/// body.
pub fn validate_request(request_object: &RequestObject, body: String) -> (verdict: Result<
    bool,
    ValidationError,
>)
    ensures
        match (request_object.body, object_in(body@)) {
            (Some(expected_text), Some(actual)) => match object_in(expected_text@) {
                Some(expected) => verdict_holds(json_difference(actual, expected), verdict),
                None => malformed(verdict),
            },
            _ => malformed(verdict),
        },
{
    let actual = match read_object(body.as_str()) {
        Some(actual) => actual,
        None => {
            return Err(malformed_body());
        },
    };
    let expected = match &request_object.body {
        Some(text) => match read_object(text.as_str()) {
            Some(expected) => expected,
            None => {
                return Err(malformed_body());
            },
        },
        None => {
            return Err(malformed_body());
        },
    };
    let diff = difference(&actual, &expected);
    judge_difference(&diff)
}

/// Whether the verdict turns the request down as malformed.
pub open spec fn malformed(verdict: Result<bool, ValidationError>) -> bool {
    &&& verdict matches Err(error)
    &&& error.kind == ValidationFailure::MalformedBody
    &&& error.missing_keys@.len() == 0
    &&& error.error_message@ == malformed_body_message()
}

/// The error of a body that could not be read.
pub fn malformed_body() -> (error: ValidationError)
    ensures
        malformed(Err(error)),
{
    ValidationError {
        kind: ValidationFailure::MalformedBody,
        missing_keys: Vec::new(),
        error_message: String::from_str("Malformed body"),
    }
}

} // verus!
