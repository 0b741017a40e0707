use vstd::prelude::*;
use crate::category::{TrainType, TypeView};
use crate::speed::{Speed, parse_spec, speed_text, lemma_text_round_trip};
use crate::train::{Train, TrainView};

verus! {

/// Why a train could not be had.
#[derive(Clone, Copy, Debug, PartialEq, Eq, Structural)]
pub enum DecodeError {
    /// The named resource does not exist or cannot be opened.
    ResourceNotFound,
    /// Reading the resource failed part way.
    ReadFailure,
    /// The content is not one JSON document.
    MalformedJson,
    /// Valid JSON, but a required member is missing or has the wrong type.
    SchemaMismatch,
    /// A train could not be written out as JSON.
    SerializationFailure,
}

/// The words that describe each error.
pub open spec fn message_of(e: DecodeError) -> Seq<char> {
    match e {
        DecodeError::ResourceNotFound => "resource not found"@,
        DecodeError::ReadFailure => "read failure"@,
        DecodeError::MalformedJson => "malformed JSON"@,
        DecodeError::SchemaMismatch => "schema mismatch"@,
        DecodeError::SerializationFailure => "serialization failure"@,
    }
}

impl DecodeError {
    /// A short human-readable description of the error.
    pub fn message(&self) -> (r: String)
        ensures
            r@ == message_of(*self),
    {
        proof {
            reveal_strlit("resource not found");
            reveal_strlit("read failure");
            reveal_strlit("malformed JSON");
            reveal_strlit("schema mismatch");
            reveal_strlit("serialization failure");
        }
        match self {
            DecodeError::ResourceNotFound => String::from_str("resource not found"),
            DecodeError::ReadFailure => String::from_str("read failure"),
            DecodeError::MalformedJson => String::from_str("malformed JSON"),
            DecodeError::SchemaMismatch => String::from_str("schema mismatch"),
            DecodeError::SerializationFailure => String::from_str("serialization failure"),
        }
    }
}

/// The `type_` member of a JSON train, as far as decoding reads it.
#[derive(Clone, Debug, PartialEq, Eq)]
pub enum TypeField {
    /// A JSON string: the name of a category without payload.
    Unit(String),
    /// An object whose one member is `Regional`, with a string value.
    Regional(String),
    /// Missing, or any other JSON value.
    Other,
}

pub enum TypeFieldView {
    Unit(Seq<char>),
    Regional(Seq<char>),
    Other,
}

impl View for TypeField {
    type V = TypeFieldView;

    open spec fn view(&self) -> TypeFieldView {
        match self {
            TypeField::Unit(u) => TypeFieldView::Unit(u@),
            TypeField::Regional(l) => TypeFieldView::Regional(l@),
            TypeField::Other => TypeFieldView::Other,
        }
    }
}

/// The members of a JSON train, as far as decoding reads them.
#[derive(Clone, Debug, PartialEq, Eq)]
pub struct TrainFields {
    /// `name`, when it is a JSON string.
    pub name: Option<String>,
    /// The text of `speed`, when it is a JSON number.
    pub speed: Option<String>,
    pub type_: TypeField,
}

pub struct FieldsView {
    pub name: Option<Seq<char>>,
    pub speed: Option<Seq<char>>,
    pub type_: TypeFieldView,
}

impl View for TrainFields {
    type V = FieldsView;

    open spec fn view(&self) -> FieldsView {
        FieldsView {
            name: match self.name {
                Some(n) => Some(n@),
                None => None,
            },
            speed: match self.speed {
                Some(s) => Some(s@),
                None => None,
            },
            type_: self.type_@,
        }
    }
}

/// The category that a `type_` member names, if any.
pub open spec fn type_spec(f: TypeFieldView) -> Option<TypeView> {
    match f {
        TypeFieldView::Unit(u) => if u == "ICE"@ {
            Some(TypeView::ICE)
        } else if u == "IC"@ {
            Some(TypeView::IC)
        } else if u == "S"@ {
            Some(TypeView::S)
        } else {
            None
        },
        TypeFieldView::Regional(label) => Some(TypeView::Regional(label)),
        TypeFieldView::Other => None,
    }
}

/// The train that the members describe, or `SchemaMismatch`: the name must
/// be a non-empty string, the speed a decimal number, the type a category.
pub open spec fn decode_spec(f: FieldsView) -> Result<TrainView, DecodeError> {
    match (f.name, f.speed) {
        (Some(name), Some(speed)) => match (parse_spec(speed), type_spec(f.type_)) {
            (Some(s), Some(t)) => if name.len() > 0 {
                Ok(TrainView { name: name, speed: s, type_: t })
            } else {
                Err(DecodeError::SchemaMismatch)
            },
            _ => Err(DecodeError::SchemaMismatch),
        },
        _ => Err(DecodeError::SchemaMismatch),
    }
}

/// A decoding result, with the train seen through its view.
pub open spec fn view_result(r: Result<Train, DecodeError>) -> Result<TrainView, DecodeError> {
    match r {
        Ok(t) => Ok(t@),
        Err(e) => Err(e),
    }
}

/// The members hold what encoding the train writes: its name as a string,
/// its speed's decimal text as a number, its category as a string or, for a
/// regional train, as a one-member object.
pub open spec fn encodes(f: FieldsView, t: TrainView) -> bool {
    &&& f.name == Some(t.name)
    &&& f.speed == Some(speed_text(t.speed))
    &&& f.type_ == match t.type_ {
        TypeView::ICE => TypeFieldView::Unit("ICE"@),
        TypeView::IC => TypeFieldView::Unit("IC"@),
        TypeView::S => TypeFieldView::Unit("S"@),
        TypeView::Regional(label) => TypeFieldView::Regional(label),
    }
}

/// Decoding the members that encoding a well-formed train writes gives back
/// that train, equal in every field.
pub proof fn lemma_decode_encoded(f: FieldsView, t: TrainView)
    requires
        t.wf(),
        encodes(f, t),
    ensures
        decode_spec(f) == Ok::<TrainView, DecodeError>(t),
{
    lemma_text_round_trip(t.speed);
    reveal_strlit("ICE");
    reveal_strlit("IC");
    reveal_strlit("S");
    assert("ICE"@.len() == 3 && "IC"@.len() == 2 && "S"@.len() == 1);
    assert(type_spec(f.type_) == Some(t.type_));
}

fn decode_type(f: TypeField) -> (r: Option<TrainType>)
    ensures
        match r {
            Some(t) => type_spec(f@) == Some(t@),
            None => type_spec(f@) is None,
        },
{
    proof {
        reveal_strlit("ICE");
        reveal_strlit("IC");
        reveal_strlit("S");
    }
    match f {
        TypeField::Unit(u) => {
            if u == String::from_str("ICE") {
                Some(TrainType::ICE)
            } else if u == String::from_str("IC") {
                Some(TrainType::IC)
            } else if u == String::from_str("S") {
                Some(TrainType::S)
            } else {
                None
            }
        },
        TypeField::Regional(label) => Some(TrainType::Regional(label)),
        TypeField::Other => None,
    }
}

/// Builds the train that the members describe; `SchemaMismatch` when a
/// member is missing, has the wrong type, the name is empty, or the type
/// names no category.
pub fn decode_fields(f: TrainFields) -> (r: Result<Train, DecodeError>)
    ensures
        view_result(r) == decode_spec(f@),
        r matches Ok(t) ==> t@.wf(),
{
    let TrainFields { name, speed, type_ } = f;
    let name = match name {
        Some(n) => n,
        None => return Err(DecodeError::SchemaMismatch),
    };
    let speed = match speed {
        Some(s) => s,
        None => return Err(DecodeError::SchemaMismatch),
    };
    let speed = match Speed::parse(speed.as_str()) {
        Some(s) => s,
        None => return Err(DecodeError::SchemaMismatch),
    };
    match decode_type(type_) {
        Some(t) => if name.as_str().is_empty() {
            Err(DecodeError::SchemaMismatch)
        } else {
            Ok(Train { name, speed, type_: t })
        },
        None => Err(DecodeError::SchemaMismatch),
    }
}

} // verus!
