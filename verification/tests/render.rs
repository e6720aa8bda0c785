use bsexp::BSExp;

fn atom(s: &str) -> BSExp {
    BSExp::atom(s.as_bytes().to_vec())
}

#[test]
fn test_bsexp_format() {
    let fib = BSExp::list(vec![
        atom("define"),
        BSExp::list(vec![atom("fibonacci"), atom("n")]),
        BSExp::list(vec![
            atom("define"),
            BSExp::list(vec![atom("fib-iter"), atom("a"), atom("b"), atom("count")]),
            BSExp::list(vec![
                atom("if"),
                BSExp::list(vec![atom("="), atom("count"), atom("0")]),
                atom("a"),
                BSExp::list(vec![
                    atom("fib-iter"),
                    atom("b"),
                    BSExp::list(vec![atom("+"), atom("a"), atom("b")]),
                    BSExp::list(vec![atom("-"), atom("count"), atom("1")]),
                ]),
            ]),
        ]),
        BSExp::list(vec![atom("fib-iter"), atom("0"), atom("1"), atom("n")]),
    ]);
    assert_eq!(
        fib.render_pretty(60),
        "(define\n (fibonacci n)\n (define\n  (fib-iter a b count)\n  (if (= count 0) a (fib-iter b (+ a b) (- count 1))))\n (fib-iter 0 1 n))"
    );
}

#[test]
fn render_plain_forms() {
    let e = BSExp::list(vec![atom("a"), BSExp::list(vec![atom("b"), atom("c")])]);
    assert_eq!(e.render(), "(a (b c))");
    assert_eq!(atom("x").render(), "x");
    assert_eq!(BSExp::list(vec![]).render(), "()");
}

#[test]
fn render_non_utf8_atom_as_decimal_bytes() {
    let e = BSExp::atom(vec![0xff, 65, 0]);
    assert_eq!(e.render(), "255 65 0");
    let nested = BSExp::list(vec![BSExp::atom(vec![0x80]), atom("ok")]);
    assert_eq!(nested.render(), "(128 ok)");
}

#[test]
fn short_list_stays_on_one_line() {
    let e = BSExp::list(vec![atom("a"), atom("b")]);
    assert_eq!(e.render_pretty(60), "(a b)");
}
