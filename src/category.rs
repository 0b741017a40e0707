use vstd::prelude::*;

verus! {

/// The closed set of train categories.
#[allow(non_camel_case_types)]
#[derive(Clone, Debug, PartialEq, Eq)]
pub enum TrainType {
    ICE,
    IC,
    /// A regional train, with its line label (for instance `S-7`).
    Regional(String),
    S,
}

/// What a category is, with the line label as a sequence of characters.
pub enum TypeView {
    ICE,
    IC,
    Regional(Seq<char>),
    S,
}

impl View for TrainType {
    type V = TypeView;

    open spec fn view(&self) -> TypeView {
        match self {
            TrainType::ICE => TypeView::ICE,
            TrainType::IC => TypeView::IC,
            TrainType::Regional(name) => TypeView::Regional(name@),
            TrainType::S => TypeView::S,
        }
    }
}

/// The display label of each category.
pub open spec fn label_of(t: TypeView) -> Seq<char> {
    match t {
        TypeView::ICE => seq!['I', 'C', 'E'],
        TypeView::IC => seq!['I', 'C'],
        TypeView::Regional(name) => seq!['R', 'e', 'g', 'i', 'o', 'n', 'a', 'l', ' '] + name,
        TypeView::S => seq!['S', '-', 'B', 'a', 'h', 'n'],
    }
}

impl TrainType {
    /// The display label: `ICE`, `IC`, `S-Bahn`, or `Regional ` followed by the
    /// line label (just `Regional ` when that label is empty).
    pub fn render(&self) -> (r: String)
        ensures
            r@ == label_of(self@),
    {
        match self {
            TrainType::ICE => {
                proof {
                    reveal_strlit("ICE");
                }
                String::from_str("ICE")
            },
            TrainType::IC => {
                proof {
                    reveal_strlit("IC");
                }
                String::from_str("IC")
            },
            TrainType::Regional(name) => {
                proof {
                    reveal_strlit("Regional ");
                }
                let mut r = String::from_str("Regional ");
                r.append(name.as_str());
                r
            },
            TrainType::S => {
                proof {
                    reveal_strlit("S-Bahn");
                }
                String::from_str("S-Bahn")
            },
        }
    }
}

/// Every category has a non-empty label, and equal categories have equal
/// labels: rendering depends on the category alone.
pub proof fn lemma_render_total(a: TypeView, b: TypeView)
    requires
        a == b,
    ensures
        label_of(a).len() > 0,
        label_of(a) == label_of(b),
{
}

/// A regional train renders as `Regional ` followed by its line label,
/// whatever that label is.
pub proof fn lemma_render_regional(name: Seq<char>)
    ensures
        label_of(TypeView::Regional(name)) == seq!['R', 'e', 'g', 'i', 'o', 'n', 'a', 'l', ' ']
            + name,
        name.len() == 0 ==> label_of(TypeView::Regional(name)) =~= seq![
            'R',
            'e',
            'g',
            'i',
            'o',
            'n',
            'a',
            'l',
            ' ',
        ],
{
}

} // verus!
