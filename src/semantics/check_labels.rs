use vstd::prelude::*;

use crate::lex::Identifier;
use crate::parse::{BlockItem, Function, Label, Program, Statement};

verus! {

/// What is wrong with the labels of a function.
#[derive(Debug, PartialEq, Eq, Clone, Copy, Structural)]
pub enum Error {
    RedefinedLabel,
    ClashedLabel,
    UndefinedLabel,
}

pub open spec fn names_of(v: Seq<Identifier>) -> Seq<Seq<u8>> {
    v.map_values(|i: Identifier| i@)
}

/// The labels that `s` defines, in the order of the source.
pub open spec fn labels_in(s: Statement) -> Seq<Seq<u8>>
    decreases s,
{
    match s {
        Statement::Label(Label::C23(l)) => seq![l@],
        Statement::Label(Label::C17 { label, body }) => seq![label@] + labels_in(*body),
        Statement::If { then, otherwise, .. } => labels_in(*then) + match otherwise {
            Some(e) => labels_in(*e),
            None => Seq::empty(),
        },
        _ => Seq::empty(),
    }
}

/// The labels that the `goto` statements of `s` name, in the order of the
/// source.
pub open spec fn gotos_in(s: Statement) -> Seq<Seq<u8>>
    decreases s,
{
    match s {
        Statement::Goto(l) => seq![l@],
        Statement::Label(Label::C17 { body, .. }) => gotos_in(*body),
        Statement::If { then, otherwise, .. } => gotos_in(*then) + match otherwise {
            Some(e) => gotos_in(*e),
            None => Seq::empty(),
        },
        _ => Seq::empty(),
    }
}

pub open spec fn block_labels(b: Seq<BlockItem>) -> Seq<Seq<u8>>
    decreases b.len(),
{
    if b.len() == 0 {
        Seq::empty()
    } else {
        match b[0] {
            BlockItem::S(s) => labels_in(s) + block_labels(b.drop_first()),
            BlockItem::D(_) => block_labels(b.drop_first()),
        }
    }
}

pub open spec fn block_gotos(b: Seq<BlockItem>) -> Seq<Seq<u8>>
    decreases b.len(),
{
    if b.len() == 0 {
        Seq::empty()
    } else {
        match b[0] {
            BlockItem::S(s) => gotos_in(s) + block_gotos(b.drop_first()),
            BlockItem::D(_) => block_gotos(b.drop_first()),
        }
    }
}

/// The first fault among the labels `ls`, defined in order after `seen`: a
/// label that is also a variable, or one defined twice.
pub open spec fn label_error(ls: Seq<Seq<u8>>, vars: Seq<Seq<u8>>, seen: Seq<Seq<u8>>) -> Option<Error>
    decreases ls.len(),
{
    if ls.len() == 0 {
        None
    } else if vars.contains(ls[0]) {
        Some(Error::ClashedLabel)
    } else if seen.contains(ls[0]) {
        Some(Error::RedefinedLabel)
    } else {
        label_error(ls.drop_first(), vars, seen.push(ls[0]))
    }
}

/// Whether every label in `gs` is among `labels`.
pub open spec fn all_defined(gs: Seq<Seq<u8>>, labels: Seq<Seq<u8>>) -> bool {
    forall|k: int| 0 <= k < gs.len() ==> labels.contains(#[trigger] gs[k])
}

/// What checking a function body gives: the first fault among its labels,
/// else an undefined label if a `goto` names one, else success.
pub open spec fn body_result(b: Seq<BlockItem>, vars: Seq<Seq<u8>>) -> Result<(), Error> {
    match label_error(block_labels(b), vars, Seq::empty()) {
        Some(e) => Err(e),
        None => if all_defined(block_gotos(b), block_labels(b)) {
            Ok(())
        } else {
            Err(Error::UndefinedLabel)
        },
    }
}

proof fn lemma_label_error_append(a: Seq<Seq<u8>>, b: Seq<Seq<u8>>, vars: Seq<Seq<u8>>, seen: Seq<Seq<u8>>)
    ensures
        label_error(a + b, vars, seen) == match label_error(a, vars, seen) {
            Some(e) => Some(e),
            None => label_error(b, vars, seen + a),
        },
    decreases a.len(),
{
    if a.len() == 0 {
        assert(a + b =~= b);
        assert(seen + a =~= seen);
    } else {
        assert((a + b)[0] == a[0]);
        assert((a + b).drop_first() =~= a.drop_first() + b);
        lemma_label_error_append(a.drop_first(), b, vars, seen.push(a[0]));
        assert(seen.push(a[0]) + a.drop_first() =~= seen + a);
    }
}

proof fn lemma_all_defined_append(a: Seq<Seq<u8>>, b: Seq<Seq<u8>>, labels: Seq<Seq<u8>>)
    ensures
        all_defined(a + b, labels) == (all_defined(a, labels) && all_defined(b, labels)),
{
    if all_defined(a + b, labels) {
        assert forall|k: int| 0 <= k < a.len() implies labels.contains(#[trigger] a[k]) by {
            assert((a + b)[k] == a[k]);
        }
        assert forall|k: int| 0 <= k < b.len() implies labels.contains(#[trigger] b[k]) by {
            assert((a + b)[a.len() + k] == b[k]);
        }
    }
    if all_defined(a, labels) && all_defined(b, labels) {
        assert forall|k: int| 0 <= k < (a + b).len() implies labels.contains(#[trigger] (a + b)[k]) by {
            if k >= a.len() {
                assert((a + b)[k] == b[k - a.len()]);
            }
        }
    }
}

fn contains(v: &Vec<Identifier>, name: &Identifier) -> (r: bool)
    ensures
        r == names_of(v@).contains(name@),
{
    let mut i: usize = 0;
    while i < v.len()
        invariant
            i <= v@.len(),
            forall|k: int| 0 <= k < i ==> v@[k]@ != name@,
        decreases v@.len() - i,
    {
        if v[i].same(name) {
            assert(names_of(v@)[i as int] == name@);
            return true;
        }
        i = i + 1;
    }
    assert forall|k: int| 0 <= k < names_of(v@).len() implies names_of(v@)[k] != name@ by {
        assert(names_of(v@)[k] == v@[k]@);
    }
    false
}

/// Records the label `label`, unless it is a variable or already defined.
fn define_label(label: &Identifier, vars: &Vec<Identifier>, labels: &mut Vec<Identifier>) -> (r: Result<(), Error>)
    ensures
        match r {
            Ok(()) => label_error(seq![label@], names_of(vars@), names_of(old(labels)@)) is None
                && names_of(final(labels)@) == names_of(old(labels)@).push(label@),
            Err(e) => label_error(seq![label@], names_of(vars@), names_of(old(labels)@)) == Some(e),
        },
{
    let ghost one = seq![label@];
    assert(one[0] == label@);
    assert(one.drop_first().len() == 0);
    if contains(vars, label) {
        Err(Error::ClashedLabel)
    } else if contains(labels, label) {
        Err(Error::RedefinedLabel)
    } else {
        let ghost before = labels@;
        assert(label_error(one.drop_first(), names_of(vars@), names_of(before).push(label@)) is None);
        labels.push(Identifier::new(label.0.as_slice()));
        assert(names_of(labels@) =~= names_of(before).push(label@));
        Ok(())
    }
}

fn check_labels(statement: &Statement, vars: &Vec<Identifier>, labels: &mut Vec<Identifier>) -> (r: Result<(), Error>)
    ensures
        match r {
            Ok(()) => label_error(labels_in(*statement), names_of(vars@), names_of(old(labels)@)) is None
                && names_of(final(labels)@) == names_of(old(labels)@) + labels_in(*statement),
            Err(e) => label_error(labels_in(*statement), names_of(vars@), names_of(old(labels)@)) == Some(e),
        },
    decreases statement,
{
    let ghost v = names_of(vars@);
    let ghost seen = names_of(labels@);
    match statement {
        Statement::Label(Label::C23(label)) => {
            let r = define_label(label, vars, labels);
            assert(seen.push(label@) =~= seen + seq![label@]);
            r
        },
        Statement::Label(Label::C17 { label, body }) => {
            proof {
                lemma_label_error_append(seq![label@], labels_in(**body), v, seen);
            }
            define_label(label, vars, labels)?;
            assert(seen.push(label@) =~= seen + seq![label@]);
            let ghost mid = names_of(labels@);
            let r = check_labels(body, vars, labels);
            assert(mid + labels_in(**body) =~= seen + (seq![label@] + labels_in(**body)));
            r
        },
        Statement::If { then, otherwise, .. } => {
            let ghost rest = match otherwise {
                Some(e) => labels_in(**e),
                None => Seq::<Seq<u8>>::empty(),
            };
            proof {
                lemma_label_error_append(labels_in(**then), rest, v, seen);
            }
            check_labels(then, vars, labels)?;
            let ghost mid = names_of(labels@);
            match otherwise {
                Some(e) => {
                    let r = check_labels(e, vars, labels);
                    assert(mid + labels_in(**e) =~= seen + (labels_in(**then) + rest));
                    r
                },
                None => {
                    assert(mid =~= seen + (labels_in(**then) + rest));
                    Ok(())
                },
            }
        },
        _ => {
            assert(names_of(labels@) =~= seen + labels_in(*statement));
            Ok(())
        },
    }
}

fn check_gotos(statement: &Statement, labels: &Vec<Identifier>) -> (r: Result<(), Error>)
    ensures
        r == if all_defined(gotos_in(*statement), names_of(labels@)) {
            Ok::<(), Error>(())
        } else {
            Err(Error::UndefinedLabel)
        },
    decreases statement,
{
    let ghost ls = names_of(labels@);
    match statement {
        Statement::Goto(goto) => {
            let found = contains(labels, goto);
            assert(seq![goto@][0] == goto@);
            if found {
                Ok(())
            } else {
                Err(Error::UndefinedLabel)
            }
        },
        Statement::If { then, otherwise, .. } => {
            let ghost rest = match otherwise {
                Some(e) => gotos_in(**e),
                None => Seq::<Seq<u8>>::empty(),
            };
            proof {
                lemma_all_defined_append(gotos_in(**then), rest, ls);
            }
            check_gotos(then, labels)?;
            match otherwise {
                Some(e) => check_gotos(e, labels),
                None => Ok(()),
            }
        },
        Statement::Label(Label::C17 { body, .. }) => check_gotos(body, labels),
        _ => Ok(()),
    }
}

fn check_body(block: &Vec<BlockItem>, vars: &Vec<Identifier>) -> (r: Result<(), Error>)
    ensures
        r == body_result(block@, names_of(vars@)),
{
    let ghost b = block@;
    let ghost v = names_of(vars@);
    let mut labels: Vec<Identifier> = Vec::new();
    let mut i: usize = 0;
    assert(b.skip(0) =~= b);
    assert(names_of(labels@) =~= Seq::<Seq<u8>>::empty());
    assert(Seq::<Seq<u8>>::empty() + block_labels(b) =~= block_labels(b));
    while i < block.len()
        invariant
            i <= b.len(),
            b == block@,
            v == names_of(vars@),
            block_labels(b) == names_of(labels@) + block_labels(b.skip(i as int)),
            label_error(block_labels(b), v, Seq::empty()) == label_error(
                block_labels(b.skip(i as int)),
                v,
                names_of(labels@),
            ),
        decreases b.len() - i,
    {
        let ghost seen = names_of(labels@);
        assert(b.skip(i as int).drop_first() =~= b.skip(i + 1));
        assert(b.skip(i as int)[0] == b[i as int]);
        if let BlockItem::S(statement) = &block[i] {
            let ghost rest = block_labels(b.skip(i + 1));
            proof {
                lemma_label_error_append(labels_in(*statement), rest, v, seen);
            }
            let r = check_labels(statement, vars, &mut labels);
            if let Err(e) = r {
                return Err(e);
            }
            assert(seen + (labels_in(*statement) + rest) =~= names_of(labels@) + rest);
        }
        i = i + 1;
    }
    assert(b.skip(i as int) =~= Seq::<BlockItem>::empty());
    assert(names_of(labels@) + Seq::<Seq<u8>>::empty() =~= names_of(labels@));
    let ghost all = names_of(labels@);
    assert(label_error(block_labels(b), v, Seq::empty()) is None);
    assert(all == block_labels(b));
    let mut j: usize = 0;
    while j < block.len()
        invariant
            j <= b.len(),
            b == block@,
            all == names_of(labels@),
            v == names_of(vars@),
            all == block_labels(b),
            label_error(block_labels(b), v, Seq::empty()) is None,
            all_defined(block_gotos(b), all) == all_defined(block_gotos(b.skip(j as int)), all),
        decreases b.len() - j,
    {
        assert(b.skip(j as int).drop_first() =~= b.skip(j + 1));
        assert(b.skip(j as int)[0] == b[j as int]);
        if let BlockItem::S(statement) = &block[j] {
            proof {
                lemma_all_defined_append(gotos_in(*statement), block_gotos(b.skip(j + 1)), all);
            }
            check_gotos(statement, &labels)?;
        }
        j = j + 1;
    }
    assert(b.skip(j as int) =~= Seq::<BlockItem>::empty());
    Ok(())
}

fn check_function(function: &Function, vars: &Vec<Identifier>) -> (r: Result<(), Error>)
    ensures
        r == body_result(function.body@, names_of(vars@)),
{
    check_body(&function.body, vars)
}

/// Checks the labels of `program`: no label is also one of the variables
/// `vars`, none is defined twice, and every `goto` names a defined label.
/// The first fault in source order decides the error.
pub fn check(program: &Program, vars: &Vec<Identifier>) -> (r: Result<(), Error>)
    ensures
        r == body_result(program.0.body@, names_of(vars@)),
{
    check_function(&program.0, vars)
}

} // verus!
