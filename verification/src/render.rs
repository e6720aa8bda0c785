use vstd::prelude::*;

verus! {

use crate::{BSExp, Expr};
use crate::serialization::{expr_size, lemma_exprs_size_elem};

// Textual rendering. An atom prints as its bytes when they are valid
// UTF-8, else as space-separated decimal byte values; a list prints
// as its items, space-separated, in parentheses. The pretty form
// keeps a list on one line while its flat form stays under the width
// limit, and otherwise breaks it one item per line at increasing
// indent, keeping a leading atom on the opening line.

/// Whether a byte string is valid UTF-8: what `str::from_utf8`
/// accepts.
pub uninterp spec fn utf8_ok(bytes: Seq<u8>) -> bool;

/// Relies on str::from_utf8: whether it accepts the bytes depends on
/// the bytes alone.
#[verifier::external_body]
fn check_utf8(b: &Vec<u8>) -> (r: bool)
    ensures
        r == utf8_ok(b@),
{
    std::str::from_utf8(b.as_slice()).is_ok()
}

/// The text a rendered byte string holds.
pub uninterp spec fn text_of(bytes: Seq<u8>) -> Seq<char>;

/// Relies on String::from_utf8_lossy: the text depends on the bytes
/// alone.
#[verifier::external_body]
fn bytes_to_text(b: Vec<u8>) -> (r: String)
    ensures
        r@ == text_of(b@),
{
    String::from_utf8_lossy(&b).into_owned()
}

/// Decimal digits of one byte value, most significant first.
pub open spec fn dec_bytes(b: u8) -> Seq<u8> {
    if b < 10 {
        seq![(48 + b) as u8]
    } else if b < 100 {
        seq![(48 + b / 10) as u8, (48 + b % 10) as u8]
    } else {
        seq![(48 + b / 100) as u8, (48 + (b / 10) % 10) as u8, (48 + b % 10) as u8]
    }
}

/// The bytes of an atom's decimal fallback form, from byte `i` on.
pub open spec fn dec_list(bytes: Seq<u8>, i: int) -> Seq<u8>
    decreases bytes.len() - i,
{
    if i < 0 || i >= bytes.len() {
        Seq::empty()
    } else {
        (if i == 0 {
            Seq::<u8>::empty()
        } else {
            seq![32u8]
        }) + dec_bytes(bytes[i]) + dec_list(bytes, i + 1)
    }
}

/// The flat form of one atom.
pub open spec fn atom_text(bytes: Seq<u8>) -> Seq<u8> {
    if utf8_ok(bytes) {
        bytes
    } else {
        dec_list(bytes, 0)
    }
}

/// The flat form of one expression.
pub open spec fn plain_text(e: Expr) -> Seq<u8>
    decreases e, 0int,
{
    match e {
        Expr::Atom(b) => atom_text(b),
        Expr::List(cs) => seq![40u8] + plain_items(cs, 0) + seq![41u8],
    }
}

/// The flat forms of `cs[i..]`, space-separated.
pub open spec fn plain_items(cs: Seq<Expr>, i: int) -> Seq<u8>
    decreases cs, cs.len() - i,
{
    if i < 0 || i >= cs.len() {
        Seq::empty()
    } else {
        (if i == 0 {
            Seq::<u8>::empty()
        } else {
            seq![32u8]
        }) + plain_text(cs[i]) + plain_items(cs, i + 1)
    }
}

/// `n` spaces.
pub open spec fn indent_text(n: int) -> Seq<u8> {
    Seq::new(
        if n < 0 {
            0
        } else {
            n as nat
        },
        |k: int| 32u8,
    )
}

/// The pretty form of one expression at the given indent.
pub open spec fn pretty_text(e: Expr, indent: int, width: int) -> Seq<u8>
    decreases e, 1int,
{
    match e {
        Expr::Atom(b) => indent_text(indent) + atom_text(b),
        Expr::List(cs) => {
            let flat = plain_text(e);
            if flat.len() < width {
                indent_text(indent) + flat
            } else {
                indent_text(indent) + seq![40u8] + pretty_head(cs, indent, width) + pretty_rest(
                    cs,
                    1,
                    indent,
                    width,
                ) + seq![41u8]
            }
        },
    }
}

/// The opening-line part of a broken list: a leading atom stays on
/// the line with the parenthesis; anything else moves to its own line.
pub open spec fn pretty_head(cs: Seq<Expr>, indent: int, width: int) -> Seq<u8>
    decreases cs, 0int,
{
    if cs.len() == 0 {
        Seq::empty()
    } else {
        match cs[0] {
            Expr::Atom(b) => atom_text(b),
            Expr::List(_) => seq![10u8] + pretty_text(cs[0], indent + 1, width),
        }
    }
}

/// The remaining items of a broken list, one per line.
pub open spec fn pretty_rest(cs: Seq<Expr>, i: int, indent: int, width: int) -> Seq<u8>
    decreases cs, cs.len() - i + 1,
{
    if i < 1 || i >= cs.len() {
        Seq::empty()
    } else {
        seq![10u8] + pretty_text(cs[i], indent + 1, width) + pretty_rest(cs, i + 1, indent, width)
    }
}

#[verifier::loop_isolation(false)]
fn push_all(out: &mut Vec<u8>, b: &Vec<u8>)
    ensures
        final(out)@ == old(out)@ + b@,
{
    let mut k: usize = 0;
    while k < b.len()
        invariant
            k <= b@.len(),
            out@ == old(out)@ + b@.take(k as int),
        decreases b@.len() - k,
    {
        out.push(b[k]);
        proof {
            assert(old(out)@ + b@.take(k + 1 as int) =~= (old(out)@ + b@.take(k as int)).push(
                b@[k as int],
            ));
        }
        k = k + 1;
    }
    proof {
        assert(b@.take(b@.len() as int) =~= b@);
    }
}

fn push_dec(out: &mut Vec<u8>, b: u8)
    ensures
        final(out)@ == old(out)@ + dec_bytes(b),
{
    if b < 10 {
        out.push(48 + b);
        proof {
            assert(old(out)@ + dec_bytes(b) =~= old(out)@.push((48 + b) as u8));
        }
    } else if b < 100 {
        out.push(48 + b / 10);
        out.push(48 + b % 10);
        proof {
            assert(old(out)@ + dec_bytes(b) =~= old(out)@.push((48 + b / 10) as u8).push(
                (48 + b % 10) as u8,
            ));
        }
    } else {
        out.push(48 + b / 100);
        out.push(48 + (b / 10) % 10);
        out.push(48 + b % 10);
        proof {
            assert(old(out)@ + dec_bytes(b) =~= old(out)@.push((48 + b / 100) as u8).push(
                (48 + (b / 10) % 10) as u8,
            ).push((48 + b % 10) as u8));
        }
    }
}

#[verifier::loop_isolation(false)]
fn push_atom_text(out: &mut Vec<u8>, bytes: &Vec<u8>)
    ensures
        final(out)@ == old(out)@ + atom_text(bytes@),
{
    if check_utf8(bytes) {
        push_all(out, bytes);
    } else {
        let mut k: usize = 0;
        while k < bytes.len()
            invariant
                k <= bytes@.len(),
                old(out)@ + dec_list(bytes@, 0) == out@ + dec_list(bytes@, k as int),
            decreases bytes@.len() - k,
        {
            let ghost before = out@;
            let ghost sep = if k == 0 {
                Seq::<u8>::empty()
            } else {
                seq![32u8]
            };
            if k > 0 {
                out.push(32);
                proof {
                    assert(out@ =~= before + sep);
                }
            } else {
                proof {
                    assert(out@ =~= before + sep);
                }
            }
            push_dec(out, bytes[k]);
            proof {
                assert(dec_list(bytes@, k as int) == sep + dec_bytes(bytes@[k as int]) + dec_list(
                    bytes@,
                    k as int + 1,
                ));
                assert(before + (sep + dec_bytes(bytes@[k as int]) + dec_list(bytes@, k as int + 1))
                    =~= ((before + sep) + dec_bytes(bytes@[k as int])) + dec_list(
                    bytes@,
                    k as int + 1,
                ));
            }
            k = k + 1;
        }
        proof {
            assert(dec_list(bytes@, bytes@.len() as int) =~= Seq::<u8>::empty());
            assert(out@ + Seq::<u8>::empty() =~= out@);
        }
    }
}

/// Write the flat form of `e`.
#[verifier::loop_isolation(false)]
fn push_plain(out: &mut Vec<u8>, e: &BSExp)
    ensures
        final(out)@ == old(out)@ + plain_text(e@),
    decreases expr_size(e@),
{
    match e {
        BSExp::Atom(bytes) => push_atom_text(out, bytes),
        BSExp::List(items) => {
            let ghost cs = e@->List_0;
            proof {
                assert(cs.len() == items@.len());
                assert(forall|l: int| 0 <= l < cs.len() ==> cs[l] == #[trigger] items@[l]@);
                assert(e@ == Expr::List(cs));
            }
            let ghost start = out@;
            out.push(40);
            let mut k: usize = 0;
            while k < items.len()
                invariant
                    k <= items@.len(),
                    start.push(40u8) + plain_items(cs, 0) == out@ + plain_items(cs, k as int),
                decreases items@.len() - k,
            {
                let ghost before = out@;
                let ghost sep = if k == 0 {
                    Seq::<u8>::empty()
                } else {
                    seq![32u8]
                };
                if k > 0 {
                    out.push(32);
                    proof {
                        assert(out@ =~= before + sep);
                    }
                } else {
                    proof {
                        assert(out@ =~= before + sep);
                    }
                }
                proof {
                    lemma_exprs_size_elem(cs, 0, k as int);
                }
                push_plain(out, &items[k]);
                proof {
                    assert(plain_items(cs, k as int) == sep + plain_text(cs[k as int])
                        + plain_items(cs, k as int + 1));
                    assert(before + (sep + plain_text(cs[k as int]) + plain_items(
                        cs,
                        k as int + 1,
                    )) =~= ((before + sep) + plain_text(cs[k as int])) + plain_items(
                        cs,
                        k as int + 1,
                    ));
                }
                k = k + 1;
            }
            out.push(41);
            proof {
                assert(plain_items(cs, cs.len() as int) =~= Seq::<u8>::empty());
                assert(out@ =~= start + plain_text(e@));
            }
        },
    }
}

#[verifier::loop_isolation(false)]
fn push_indent(out: &mut Vec<u8>, n: usize)
    ensures
        final(out)@ == old(out)@ + indent_text(n as int),
{
    let mut k: usize = 0;
    while k < n
        invariant
            k <= n,
            out@ == old(out)@ + indent_text(k as int),
        decreases n - k,
    {
        out.push(32);
        proof {
            assert(old(out)@ + indent_text(k as int + 1) =~= (old(out)@ + indent_text(
                k as int,
            )).push(32u8));
        }
        k = k + 1;
    }
}

/// Write the pretty form of `e` at the given indent.
#[verifier::loop_isolation(false)]
fn push_pretty(out: &mut Vec<u8>, e: &BSExp, indent: usize, width: usize)
    requires
        indent + expr_size(e@) <= usize::MAX,
    ensures
        final(out)@ == old(out)@ + pretty_text(e@, indent as int, width as int),
    decreases expr_size(e@),
{
    match e {
        BSExp::Atom(bytes) => {
            push_indent(out, indent);
            push_atom_text(out, bytes);
        },
        BSExp::List(items) => {
            let ghost cs = e@->List_0;
            proof {
                assert(cs.len() == items@.len());
                assert(forall|l: int| 0 <= l < cs.len() ==> cs[l] == #[trigger] items@[l]@);
                assert(e@ == Expr::List(cs));
            }
            let mut flat: Vec<u8> = Vec::new();
            push_plain(&mut flat, e);
            proof {
                assert(Seq::<u8>::empty() + plain_text(e@) =~= plain_text(e@));
            }
            let ghost start = out@;
            push_indent(out, indent);
            if flat.len() < width {
                push_all(out, &flat);
                proof {
                    assert(out@ =~= start + pretty_text(e@, indent as int, width as int));
                }
            } else {
                out.push(40);
                let ghost after_open = out@;
                if items.len() > 0 {
                    proof {
                        lemma_exprs_size_elem(cs, 0, 0);
                    }
                    let first = &items[0];
                    match first {
                        BSExp::Atom(bytes) => {
                            push_atom_text(out, bytes);
                            proof {
                                assert(cs[0] == items@[0 as int]@);
                                assert(cs[0] == Expr::Atom(bytes@));
                                assert(pretty_head(cs, indent as int, width as int) == atom_text(
                                    bytes@,
                                ));
                            }
                        },
                        BSExp::List(_) => {
                            out.push(10);
                            push_pretty(out, first, indent + 1, width);
                            proof {
                                let ptext = pretty_text(
                                    cs[0],
                                    indent as int + 1,
                                    width as int,
                                );
                                assert(pretty_head(cs, indent as int, width as int) == seq![10u8]
                                    + ptext);
                                assert(after_open.push(10u8) =~= after_open + seq![10u8]);
                                assert(after_open + (seq![10u8] + ptext) =~= (after_open
                                    + seq![10u8]) + ptext);
                            }
                        },
                    }
                } else {
                    proof {
                        assert(pretty_head(cs, indent as int, width as int)
                            =~= Seq::<u8>::empty());
                        assert(after_open + Seq::<u8>::empty() =~= after_open);
                    }
                }
                proof {
                    assert(out@ =~= after_open + pretty_head(cs, indent as int, width as int));
                }
                let ghost after_head = out@;
                let mut k: usize = 1;
                while k < items.len()
                    invariant
                        1 <= k,
                        k <= items@.len() || k == 1,
                        after_head + pretty_rest(cs, 1, indent as int, width as int) == out@
                            + pretty_rest(cs, k as int, indent as int, width as int),
                    decreases items@.len() - k,
                {
                    let ghost before = out@;
                    out.push(10);
                    proof {
                        lemma_exprs_size_elem(cs, 0, k as int);
                        assert(out@ =~= before.push(10u8));
                    }
                    push_pretty(out, &items[k], indent + 1, width);
                    proof {
                        assert(pretty_rest(cs, k as int, indent as int, width as int) == seq![10u8]
                            + pretty_text(cs[k as int], indent as int + 1, width as int)
                            + pretty_rest(cs, k as int + 1, indent as int, width as int));
                        assert(before + (seq![10u8] + pretty_text(
                            cs[k as int],
                            indent as int + 1,
                            width as int,
                        ) + pretty_rest(cs, k as int + 1, indent as int, width as int)) =~= ((before
                            + seq![10u8]) + pretty_text(
                            cs[k as int],
                            indent as int + 1,
                            width as int,
                        )) + pretty_rest(cs, k as int + 1, indent as int, width as int));
                        assert(before.push(10u8) =~= before + seq![10u8]);
                    }
                    k = k + 1;
                }
                out.push(41);
                proof {
                    assert(pretty_rest(cs, items@.len() as int, indent as int, width as int)
                        =~= Seq::<u8>::empty());
                    assert(pretty_rest(cs, 1, indent as int, width as int) == pretty_rest(
                        cs,
                        k as int,
                        indent as int,
                        width as int,
                    ) || k as int <= cs.len());
                    assert(out@ =~= start + pretty_text(e@, indent as int, width as int));
                }
            }
        },
    }
}

impl BSExp {
    /// The flat textual form: atoms as text or decimal bytes, lists
    /// parenthesized and space-separated.
    pub fn render(&self) -> (r: String)
        ensures
            r@ == text_of(plain_text(self@)),
    {
        let mut out: Vec<u8> = Vec::new();
        push_plain(&mut out, self);
        proof {
            assert(Seq::<u8>::empty() + plain_text(self@) =~= plain_text(self@));
        }
        bytes_to_text(out)
    }

    /// The pretty form: lists whose flat form reaches the width break
    /// one item per line at increasing indent.
    pub fn render_pretty(&self, width: usize) -> (r: String)
        requires
            expr_size(self@) <= usize::MAX,
        ensures
            r@ == text_of(pretty_text(self@, 0, width as int)),
    {
        let mut out: Vec<u8> = Vec::new();
        push_pretty(&mut out, self, 0, width);
        proof {
            assert(Seq::<u8>::empty() + pretty_text(self@, 0, width as int) =~= pretty_text(
                self@,
                0,
                width as int,
            ));
        }
        bytes_to_text(out)
    }
}

} // verus!
