use vstd::prelude::*;

pub mod render;
pub mod serialization;
pub mod vli;

verus! {

/// Why a buffer failed to decode. Decoding is all-or-nothing: no
/// partial result accompanies an error.
#[derive(Clone, Copy, PartialEq, Eq, Structural, Debug)]
pub enum DecodeError {
    /// A read ran past the end of the available bytes.
    TruncatedInput,
    /// A reference targets an index out of range for its table, or a
    /// node references its own index or a higher one.
    InvalidReference,
}

/// Binary S-expression: the in-memory value type.
/// - An atom holds an opaque byte string.
/// - A list holds an ordered sequence of sub-expressions, by value.
#[derive(Debug, PartialEq, Eq)]
pub enum BSExp {
    Atom(Vec<u8>),
    List(Vec<BSExp>),
}

/// Mathematical model of a `BSExp`: atoms become byte sequences,
/// lists become sequences of models. Equality on `Expr` is the
/// structural equality that the contracts speak of.
pub enum Expr {
    Atom(Seq<u8>),
    List(Seq<Expr>),
}

impl View for BSExp {
    type V = Expr;

    open spec fn view(&self) -> Expr
        decreases self,
    {
        match self {
            BSExp::Atom(bytes) => Expr::Atom(bytes@),
            BSExp::List(items) => Expr::List(
                Seq::new(
                    items@.len(),
                    |i: int|
                        if 0 <= i < items@.len() {
                            items@[i]@
                        } else {
                            Expr::List(Seq::empty())
                        },
                ),
            ),
        }
    }
}

impl DeepView for BSExp {
    type V = Expr;

    open spec fn deep_view(&self) -> Expr {
        self@
    }
}

/// The model of a list expression is the deep view of its item vector.
pub proof fn lemma_list_view(items: Vec<BSExp>)
    ensures
        BSExp::List(items)@ == Expr::List(items.deep_view()),
{
    let v = BSExp::List(items)@;
    assert(v->List_0 =~= items.deep_view());
}

impl Clone for BSExp {
    /// A deep copy: the copy has the same model.
    fn clone(&self) -> (res: Self)
        ensures
            res@ == self@,
        decreases crate::serialization::expr_size(self@),
    {
        match self {
            BSExp::Atom(bytes) => BSExp::Atom(bytes.clone()),
            BSExp::List(items) => {
                let ghost cs = self@->List_0;
                proof {
                    assert(cs.len() == items@.len());
                    assert(forall|l: int| 0 <= l < cs.len() ==> cs[l] == #[trigger] items@[l]@);
                }
                let mut copied: Vec<BSExp> = Vec::new();
                let mut k: usize = 0;
                while k < items.len()
                    invariant
                        k <= items@.len(),
                        copied@.len() == k,
                        cs.len() == items@.len(),
                        self@ == Expr::List(cs),
                        forall|l: int| 0 <= l < cs.len() ==> cs[l] == #[trigger] items@[l]@,
                        forall|l: int| 0 <= l < k ==> (#[trigger] copied@[l])@ == cs[l],
                    decreases items@.len() - k,
                {
                    proof {
                        crate::serialization::lemma_exprs_size_elem(cs, 0, k as int);
                    }
                    let c = items[k].clone();
                    copied.push(c);
                    k = k + 1;
                }
                proof {
                    lemma_list_view(copied);
                    assert(copied.deep_view() =~= cs);
                }
                BSExp::List(copied)
            },
        }
    }
}

impl BSExp {
    /// Build an atom from its bytes.
    pub fn atom(value: Vec<u8>) -> (r: Self)
        ensures
            r@ == Expr::Atom(value@),
    {
        BSExp::Atom(value)
    }

    /// Build a list from its items.
    pub fn list(value: Vec<BSExp>) -> (r: Self)
        ensures
            r@ == Expr::List(value.deep_view()),
    {
        proof {
            lemma_list_view(value);
        }
        BSExp::List(value)
    }
}

} // verus!
