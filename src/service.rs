use vstd::prelude::*;
use crate::category::{TrainType, TypeView};
use crate::codec::{
    DecodeError, FieldsView, TrainFields, TypeField, TypeFieldView, decode_fields, decode_spec,
    message_of, view_result,
};
use crate::json::{
    inner_str, json_accepts, json_inner_str, json_member_len, json_num_member, json_quoted,
    json_str_member, member_len, num_member, parse_value, quote, str_member,
};
use crate::speed::speed_text;
use crate::train::{Train, TrainView};

verus! {

/// The members that decoding reads from a JSON text.
pub open spec fn fields_read(text: Seq<char>) -> FieldsView {
    FieldsView {
        name: json_str_member(text, "name"@),
        speed: json_num_member(text, "speed"@),
        type_: match json_str_member(text, "type_"@) {
            Some(u) => TypeFieldView::Unit(u),
            None => if json_member_len(text, "type_"@) == Some(1nat) {
                match json_inner_str(text, "type_"@, "Regional"@) {
                    Some(label) => TypeFieldView::Regional(label),
                    None => TypeFieldView::Other,
                }
            } else {
                TypeFieldView::Other
            },
        },
    }
}

/// What decoding a JSON text gives.
pub open spec fn decoded(text: Seq<char>) -> Result<TrainView, DecodeError> {
    if json_accepts(text) {
        decode_spec(fields_read(text))
    } else {
        Err(DecodeError::MalformedJson)
    }
}

/// Reads the members that a train is decoded from.
pub fn fields_of(text: &str) -> (r: TrainFields)
    ensures
        r@ == fields_read(text@),
{
    proof {
        reveal_strlit("name");
        reveal_strlit("speed");
        reveal_strlit("type_");
        reveal_strlit("Regional");
    }
    let name = str_member(text, "name");
    let speed = num_member(text, "speed");
    let type_ = match str_member(text, "type_") {
        Some(u) => TypeField::Unit(u),
        None => match member_len(text, "type_") {
            Some(n) => if n == 1 {
                match inner_str(text, "type_", "Regional") {
                    Some(label) => TypeField::Regional(label),
                    None => TypeField::Other,
                }
            } else {
                TypeField::Other
            },
            None => TypeField::Other,
        },
    };
    let r = TrainFields { name, speed, type_ };
    assert(r@.name == fields_read(text@).name);
    assert(r@.speed == fields_read(text@).speed);
    r
}

/// Decodes a JSON document into a train: `MalformedJson` exactly when the
/// text is no JSON document, else the train that its members `name`,
/// `speed` and `type_` describe, or `SchemaMismatch`.
pub fn decode(text: &str) -> (r: Result<Train, DecodeError>)
    ensures
        view_result(r) == decoded(text@),
        r matches Ok(t) ==> t@.wf(),
{
    match parse_value(text) {
        Ok(_) => decode_fields(fields_of(text)),
        Err(_) => Err(DecodeError::MalformedJson),
    }
}

/// What reading the train's resource gave.
#[derive(Clone, Debug, PartialEq, Eq)]
pub enum ReadOutcome {
    /// The resource does not exist or cannot be opened.
    NotFound,
    /// Reading it failed part way.
    Failed,
    /// Its whole content.
    Text(String),
}

/// Loads a train from what reading its resource gave: each failure of the
/// read keeps its own error, and a text is decoded.
pub fn load(input: ReadOutcome) -> (r: Result<Train, DecodeError>)
    ensures
        input is NotFound ==> r == Err::<Train, DecodeError>(DecodeError::ResourceNotFound),
        input is Failed ==> r == Err::<Train, DecodeError>(DecodeError::ReadFailure),
        input matches ReadOutcome::Text(s) ==> view_result(r) == decoded(s@),
        r matches Ok(t) ==> t@.wf(),
{
    match input {
        ReadOutcome::NotFound => Err(DecodeError::ResourceNotFound),
        ReadOutcome::Failed => Err(DecodeError::ReadFailure),
        ReadOutcome::Text(s) => decode(s.as_str()),
    }
}

/// The JSON that encoding writes for a category.
pub open spec fn type_json(t: TypeView) -> Seq<char> {
    match t {
        TypeView::ICE => json_quoted("ICE"@),
        TypeView::IC => json_quoted("IC"@),
        TypeView::S => json_quoted("S"@),
        TypeView::Regional(label) => "{"@ + json_quoted("Regional"@) + ":"@ + json_quoted(label)
            + "}"@,
    }
}

/// The JSON object that encoding writes for a train.
pub open spec fn json_text(t: TrainView) -> Seq<char> {
    "{\"name\":"@ + json_quoted(t.name) + ",\"speed\":"@ + speed_text(t.speed) + ",\"type_\":"@
        + type_json(t.type_) + "}"@
}

fn quoted(s: &str) -> (r: Result<String, DecodeError>)
    ensures
        r matches Ok(q) && q@ == json_quoted(s@),
{
    match quote(s) {
        Ok(q) => Ok(q),
        Err(_) => Err(DecodeError::SerializationFailure),
    }
}

fn encode_type(t: &TrainType) -> (r: Result<String, DecodeError>)
    ensures
        r matches Ok(s) && s@ == type_json(t@),
{
    proof {
        reveal_strlit("ICE");
        reveal_strlit("IC");
        reveal_strlit("S");
        reveal_strlit("Regional");
        reveal_strlit("{");
        reveal_strlit(":");
        reveal_strlit("}");
    }
    match t {
        TrainType::ICE => quoted("ICE"),
        TrainType::IC => quoted("IC"),
        TrainType::S => quoted("S"),
        TrainType::Regional(label) => {
            let mut r = String::from_str("{");
            let key = quoted("Regional")?;
            r.append(key.as_str());
            r.append(":");
            let value = quoted(label.as_str())?;
            r.append(value.as_str());
            r.append("}");
            Ok(r)
        },
    }
}

/// Writes a train as a JSON object with the members `name`, `speed` and
/// `type_`. A failure of serde_json would come back as `SerializationFailure`;
/// quoting a string does not fail.
pub fn encode(t: &Train) -> (r: Result<String, DecodeError>)
    ensures
        r matches Ok(s) && s@ == json_text(t@),
{
    proof {
        reveal_strlit("{\"name\":");
        reveal_strlit(",\"speed\":");
        reveal_strlit(",\"type_\":");
        reveal_strlit("}");
    }
    let mut r = String::from_str("{\"name\":");
    let name = quoted(t.name.as_str())?;
    r.append(name.as_str());
    r.append(",\"speed\":");
    let speed = t.speed.to_text();
    r.append(speed.as_str());
    r.append(",\"type_\":");
    let type_ = encode_type(&t.type_)?;
    r.append(type_.as_str());
    r.append("}");
    assert(r@ =~= json_text(t@));
    Ok(r)
}

/// The answer to a query: an HTTP status and its body.
#[derive(Clone, Debug, PartialEq, Eq)]
pub struct Reply {
    pub status: u16,
    pub body: String,
}

/// The status that answers each error: 404 for a missing resource, 500
/// for any other.
pub open spec fn status_of(e: DecodeError) -> u16 {
    match e {
        DecodeError::ResourceNotFound => 404,
        _ => 500,
    }
}

/// Answers a query from what loading the train gave: 200 with the train's
/// JSON, or the error's status with its message.
pub fn handle_query(loaded: Result<Train, DecodeError>) -> (r: Reply)
    ensures
        loaded matches Ok(t) ==> r.status == 200 && r.body@ == json_text(t@),
        loaded matches Err(e) ==> r.status == status_of(e) && r.body@ == message_of(e),
{
    let outcome = match loaded {
        Ok(t) => encode(&t),
        Err(e) => Err(e),
    };
    match outcome {
        Ok(body) => Reply { status: 200, body },
        Err(e) => {
            let status: u16 = match e {
                DecodeError::ResourceNotFound => 404,
                _ => 500,
            };
            Reply { status, body: e.message() }
        },
    }
}

} // verus!
