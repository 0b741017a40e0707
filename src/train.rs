use vstd::prelude::*;
use crate::category::{TrainType, TypeView, label_of};
use crate::speed::{Speed, speed_text};

verus! {

/// One transit vehicle: its name, its speed, and its category.
#[derive(Clone, Debug, PartialEq, Eq)]
pub struct Train {
    pub name: String,
    pub speed: Speed,
    pub type_: TrainType,
}

pub struct TrainView {
    pub name: Seq<char>,
    pub speed: Speed,
    pub type_: TypeView,
}

impl View for Train {
    type V = TrainView;

    open spec fn view(&self) -> TrainView {
        TrainView { name: self.name@, speed: self.speed, type_: self.type_@ }
    }
}

impl TrainView {
    /// A train has a non-empty name and a well-formed speed.
    pub open spec fn wf(self) -> bool {
        self.name.len() > 0 && self.speed.wf()
    }
}

pub open spec fn sentence_head() -> Seq<char> {
    "A train named "@
}

pub open spec fn sentence_mid() -> Seq<char> {
    " has entered; its type is "@
}

pub open spec fn sentence_tail() -> Seq<char> {
    " and its speed is "@
}

/// The sentence that describes a train: its name, its label, its speed.
pub open spec fn sentence(t: TrainView) -> Seq<char> {
    sentence_head() + t.name + sentence_mid() + label_of(t.type_) + sentence_tail() + speed_text(
        t.speed,
    ) + seq!['.']
}

impl Train {
    /// `A train named {name} has entered; its type is {label} and its speed is {speed}.`
    pub fn format(&self) -> (r: String)
        ensures
            r@ == sentence(self@),
    {
        proof {
            reveal_strlit("A train named ");
            reveal_strlit(" has entered; its type is ");
            reveal_strlit(" and its speed is ");
            reveal_strlit(".");
        }
        let mut r = String::from_str("A train named ");
        r.append(self.name.as_str());
        r.append(" has entered; its type is ");
        let label = self.type_.render();
        r.append(label.as_str());
        r.append(" and its speed is ");
        let speed = self.speed.to_text();
        r.append(speed.as_str());
        r.append(".");
        assert(r@ =~= sentence(self@));
        r
    }
}

/// The sentence of every train holds its name verbatim, right after the
/// opening words.
pub proof fn lemma_sentence_has_name(t: TrainView)
    ensures
        sentence(t).subrange(
            sentence_head().len() as int,
            (sentence_head().len() + t.name.len()) as int,
        ) == t.name,
        exists|i: int|
            0 <= i && i + t.name.len() <= sentence(t).len() && #[trigger] sentence(t).subrange(
                i,
                i + t.name.len(),
            ) == t.name,
{
    let h = sentence_head().len() as int;
    assert(sentence(t).subrange(h, h + t.name.len()) =~= t.name);
}

} // verus!
