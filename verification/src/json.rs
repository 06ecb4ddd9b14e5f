//! Records in JSON texts.

use serde_json::Value;
use vstd::prelude::*;

use crate::text::names;

verus! {

/// What a field of a JSON object can be read as: a number without sign and
/// fraction, a text, and the bits of a floating-point number.
#[derive(Clone, Debug)]
pub struct JsonField {
    pub whole: Option<u64>,
    pub text: Option<String>,
    pub float_bits: Option<u64>,
}

/// The readings of a field.
pub open spec fn field_of(f: JsonField) -> (Option<u64>, Option<Seq<char>>, Option<u64>) {
    (
        f.whole,
        match f.text {
            Some(t) => Some(t@),
            None => None,
        },
        f.float_bits,
    )
}

/// The readings of the fields of a record.
pub open spec fn record_of(v: Seq<JsonField>) -> Seq<(Option<u64>, Option<Seq<char>>, Option<u64>)> {
    v.map_values(|f: JsonField| field_of(f))
}

/// The readings of the fields of records.
pub open spec fn records_of(v: Seq<Vec<JsonField>>) -> Seq<
    Seq<(Option<u64>, Option<Seq<char>>, Option<u64>)>,
> {
    v.map_values(|r: Vec<JsonField>| record_of(r@))
}

/// The asked-for fields of every element of a list in a JSON object; `Ok(None)`
/// where the object has no such list, and an error where the text is no JSON.
pub uninterp spec fn json_records(json: Seq<char>, list: Seq<char>, fields: Seq<Seq<char>>) -> Result<
    Option<Seq<Seq<(Option<u64>, Option<Seq<char>>, Option<u64>)>>>,
    Seq<char>,
>;

/// `serde_json::from_str` into a `serde_json::Value`, of which the list named
/// `list` is taken, and of each of its elements the named fields, each read by
/// `as_u64`, `as_str` and `as_f64`. The result depends on the arguments alone;
/// every record has as many fields as were asked for. What a text holds is left
/// unsaid.
#[verifier::external_body]
pub(crate) fn read_records(json: &str, list: &str, fields: &Vec<&'static str>) -> (r: Result<
    Option<Vec<Vec<JsonField>>>,
    String,
>)
    ensures
        match r {
            Ok(Some(records)) => json_records(json@, list@, names(fields@)) == Ok::<
                Option<Seq<Seq<(Option<u64>, Option<Seq<char>>, Option<u64>)>>>,
                Seq<char>,
            >(Some(records_of(records@))) && forall|i: int|
                0 <= i < records@.len() ==> (#[trigger] records@[i])@.len() == fields@.len(),
            Ok(None) => json_records(json@, list@, names(fields@)) == Ok::<
                Option<Seq<Seq<(Option<u64>, Option<Seq<char>>, Option<u64>)>>>,
                Seq<char>,
            >(None),
            Err(e) => json_records(json@, list@, names(fields@)) == Err::<
                Option<Seq<Seq<(Option<u64>, Option<Seq<char>>, Option<u64>)>>>,
                Seq<char>,
            >(e@),
        },
{
    let value: Value = serde_json::from_str(json).map_err(|e| e.to_string())?;
    let read = |v: Option<&Value>| JsonField {
        whole: v.and_then(Value::as_u64),
        text: v.and_then(Value::as_str).map(|t| t.to_string()),
        float_bits: v.and_then(Value::as_f64).map(|n| n.to_bits()),
    };
    let items = value.get(list).and_then(Value::as_array);
    let record = |item: &Value| fields.iter().map(|f| read(item.get(*f))).collect();
    Ok(items.map(|all| all.iter().map(record).collect()))
}

} // verus!
