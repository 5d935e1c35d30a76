//! The equations as text: numbers, terms, expressions and assignments.

use crate::term::{Term, Variable};
use crate::terms::{descending, Terms};
use vstd::prelude::*;

verus! {

/// The character of one decimal digit.
pub open spec fn digit(d: nat) -> char {
    if d == 0 {
        '0'
    } else if d == 1 {
        '1'
    } else if d == 2 {
        '2'
    } else if d == 3 {
        '3'
    } else if d == 4 {
        '4'
    } else if d == 5 {
        '5'
    } else if d == 6 {
        '6'
    } else if d == 7 {
        '7'
    } else if d == 8 {
        '8'
    } else {
        '9'
    }
}

/// A number in decimal, without leading zeros.
pub open spec fn decimal(n: nat) -> Seq<char>
    decreases n,
{
    if n < 10 {
        seq![digit(n)]
    } else {
        decimal(n / 10).push(digit(n % 10))
    }
}

/// The name of a variable in the equations.
pub open spec fn variable_text(variable: Variable) -> Seq<char> {
    match variable {
        Variable::InitialState => "i"@,
        Variable::Data => "d"@,
    }
}

/// A term as it is written: the variable's name and the index in square
/// brackets.
pub open spec fn term_text(term: Term) -> Seq<char> {
    variable_text(term.variable) + "["@ + decimal(term.index as nat) + "]"@
}

/// The terms of `listed`, in that order, with ` ^ ` between them. No terms
/// give the empty text.
pub open spec fn joined(listed: Seq<Term>) -> Seq<char>
    decreases listed.len(),
{
    if listed.len() == 0 {
        Seq::<char>::empty()
    } else if listed.len() == 1 {
        term_text(listed[0])
    } else {
        joined(listed.drop_last()) + " ^ "@ + term_text(listed.last())
    }
}

/// An expression as it is written: its terms from the highest down, so data
/// bits before bits of the initial state and, within one variable, high
/// indices before low ones. Constant zero is written as the empty text.
pub open spec fn expression_text(terms: Set<Term>) -> Seq<char> {
    joined(descending(terms))
}

/// The assignment of an expression to state bit `k`.
pub open spec fn assignment_text(k: nat, terms: Set<Term>) -> Seq<char> {
    "c["@ + decimal(k) + "] = "@ + expression_text(terms)
}

/// The assignments to all state bits, one per line, from bit 0 up, with a
/// line break between two of them and none at the end.
pub open spec fn state_text(state: Seq<Set<Term>>) -> Seq<char>
    decreases state.len(),
{
    if state.len() == 0 {
        Seq::<char>::empty()
    } else if state.len() == 1 {
        assignment_text(0, state[0])
    } else {
        state_text(state.drop_last()) + "\n"@ + assignment_text(
            (state.len() - 1) as nat,
            state.last(),
        )
    }
}

/// One port of the module with the comment line above it. A port of
/// `width` bits has the bits from `width - 1` down to 0.
pub open spec fn port_text(
    comment: Seq<char>,
    direction: Seq<char>,
    width: nat,
    name: Seq<char>,
) -> Seq<char> {
    "    // "@ + comment + "\n"@ + "    "@ + direction + " logic ["@ + decimal(
        (width - 1) as nat,
    ) + ":0] "@ + name + ";\n"@
}

/// The head of the module: its name and its ports. The data word comes in
/// as `d`, the initial state, if it is part of the equations, as `i`, and
/// the final state goes out as `c`.
pub open spec fn declaration_text(
    data_size: nat,
    state_size: nat,
    include_initial_state: bool,
) -> Seq<char> {
    let data = port_text("data in"@, "input "@, data_size, "d"@);
    let initial = if include_initial_state {
        port_text("initial state"@, "input "@, state_size, "i"@)
    } else {
        Seq::<char>::empty()
    };
    let state = port_text("final state"@, "output"@, state_size, "c"@);
    "module parallel_lfsr(\n"@ + data + initial + state + ");\n"@
}

/// The body of the module: the assignments to all state bits from bit 0 up,
/// each on a line of its own, indented and closed by a semicolon.
pub open spec fn body_text(state: Seq<Set<Term>>) -> Seq<char>
    decreases state.len(),
{
    if state.len() == 0 {
        Seq::<char>::empty()
    } else {
        body_text(state.drop_last()) + "    "@ + assignment_text(
            (state.len() - 1) as nat,
            state.last(),
        ) + ";\n"@
    }
}

/// The whole module: head, body and the closing line.
pub open spec fn module_text(
    data_size: nat,
    state_size: nat,
    include_initial_state: bool,
    state: Seq<Set<Term>>,
) -> Seq<char> {
    declaration_text(data_size, state_size, include_initial_state) + body_text(state)
        + "endmodule\n"@
}

/// The text of one decimal digit.
fn digit_text(d: usize) -> (text: &'static str)
    requires
        d < 10,
    ensures
        text@ == seq![digit(d as nat)],
{
    proof {
        reveal_strlit("0");
        reveal_strlit("1");
        reveal_strlit("2");
        reveal_strlit("3");
        reveal_strlit("4");
        reveal_strlit("5");
        reveal_strlit("6");
        reveal_strlit("7");
        reveal_strlit("8");
        reveal_strlit("9");
    }
    let text = if d == 0 {
        "0"
    } else if d == 1 {
        "1"
    } else if d == 2 {
        "2"
    } else if d == 3 {
        "3"
    } else if d == 4 {
        "4"
    } else if d == 5 {
        "5"
    } else if d == 6 {
        "6"
    } else if d == 7 {
        "7"
    } else if d == 8 {
        "8"
    } else {
        "9"
    };
    assert(text@ =~= seq![digit(d as nat)]);
    text
}

/// Appends a number in decimal.
pub fn push_decimal(out: &mut String, n: usize)
    ensures
        final(out)@ == old(out)@ + decimal(n as nat),
    decreases n,
{
    if n >= 10 {
        push_decimal(out, n / 10);
    }
    out.append(digit_text(n % 10));
    assert(out@ =~= old(out)@ + decimal(n as nat));
}

/// Appends a term.
pub fn push_term(out: &mut String, term: Term)
    ensures
        final(out)@ == old(out)@ + term_text(term),
{
    match term.variable {
        Variable::InitialState => out.append("i"),
        Variable::Data => out.append("d"),
    }
    out.append("[");
    push_decimal(out, term.index);
    out.append("]");
    assert(out@ =~= old(out)@ + term_text(term));
}

/// Appends an expression.
pub fn push_expression(out: &mut String, terms: &Terms)
    ensures
        final(out)@ == old(out)@ + expression_text(terms@),
{
    let listed = terms.descending();
    let mut i: usize = 0;
    assert(listed@.take(0) =~= Seq::<Term>::empty());
    assert(out@ =~= old(out)@ + joined(listed@.take(0)));
    while i < listed.len()
        invariant
            i <= listed@.len(),
            out@ == old(out)@ + joined(listed@.take(i as int)),
        decreases listed@.len() - i,
    {
        if i > 0 {
            out.append(" ^ ");
        }
        push_term(out, listed[i]);
        proof {
            let next = listed@.take(i + 1);
            assert(next.drop_last() =~= listed@.take(i as int));
            assert(next.last() == listed@[i as int]);
            assert(out@ =~= old(out)@ + joined(next));
        }
        i += 1;
    }
    assert(listed@.take(i as int) =~= listed@);
}

/// Appends the assignment of an expression to state bit `k`.
pub fn push_assignment(out: &mut String, k: usize, terms: &Terms)
    ensures
        final(out)@ == old(out)@ + assignment_text(k as nat, terms@),
{
    out.append("c[");
    push_decimal(out, k);
    out.append("] = ");
    push_expression(out, terms);
    assert(out@ =~= old(out)@ + assignment_text(k as nat, terms@));
}

/// Appends one port of the module with the comment line above it.
pub fn push_port(out: &mut String, comment: &str, direction: &str, width: usize, name: &str)
    requires
        width >= 1,
    ensures
        final(out)@ == old(out)@ + port_text(comment@, direction@, width as nat, name@),
{
    out.append("    // ");
    out.append(comment);
    out.append("\n");
    out.append("    ");
    out.append(direction);
    out.append(" logic [");
    push_decimal(out, width - 1);
    out.append(":0] ");
    out.append(name);
    out.append(";\n");
    assert(out@ =~= old(out)@ + port_text(comment@, direction@, width as nat, name@));
}

/// Appends the head of the module.
pub fn push_declaration(
    out: &mut String,
    data_size: usize,
    state_size: usize,
    include_initial_state: bool,
)
    requires
        data_size >= 1,
        state_size >= 1,
    ensures
        final(out)@ == old(out)@ + declaration_text(
            data_size as nat,
            state_size as nat,
            include_initial_state,
        ),
{
    out.append("module parallel_lfsr(\n");
    push_port(out, "data in", "input ", data_size, "d");
    if include_initial_state {
        push_port(out, "initial state", "input ", state_size, "i");
    }
    push_port(out, "final state", "output", state_size, "c");
    out.append(");\n");
    assert(out@ =~= old(out)@ + declaration_text(
        data_size as nat,
        state_size as nat,
        include_initial_state,
    ));
}

/// Appends the body of the module.
pub fn push_body(out: &mut String, state: &[Terms])
    ensures
        final(out)@ == old(out)@ + body_text(state.deep_view()),
{
    let mut k: usize = 0;
    assert(state.deep_view().take(0) =~= Seq::<Set<Term>>::empty());
    assert(out@ =~= old(out)@ + body_text(state.deep_view().take(0)));
    while k < state.len()
        invariant
            k <= state@.len(),
            out@ == old(out)@ + body_text(state.deep_view().take(k as int)),
        decreases state@.len() - k,
    {
        out.append("    ");
        push_assignment(out, k, &state[k]);
        out.append(";\n");
        proof {
            let next = state.deep_view().take(k + 1);
            assert(next.drop_last() =~= state.deep_view().take(k as int));
            assert(next.last() == state@[k as int]@);
            assert(out@ =~= old(out)@ + body_text(next));
        }
        k += 1;
    }
    assert(state.deep_view().take(k as int) =~= state.deep_view());
}

impl Variable {
    /// The name of the variable in the equations.
    pub fn to_string(&self) -> (text: String)
        ensures
            text@ == variable_text(*self),
    {
        match self {
            Variable::InitialState => String::from_str("i"),
            Variable::Data => String::from_str("d"),
        }
    }
}

impl Term {
    /// The term as it is written in the equations.
    pub fn to_string(&self) -> (text: String)
        ensures
            text@ == term_text(*self),
    {
        let mut text = String::new();
        push_term(&mut text, *self);
        assert(text@ =~= term_text(*self));
        text
    }
}

/// Writes out the assignments to all state bits, one per line.
pub fn state_to_s(state: &[Terms]) -> (text: String)
    ensures
        text@ == state_text(state.deep_view()),
{
    let mut text = String::new();
    let mut k: usize = 0;
    assert(state.deep_view().take(0) =~= Seq::<Set<Term>>::empty());
    while k < state.len()
        invariant
            k <= state@.len(),
            text@ == state_text(state.deep_view().take(k as int)),
        decreases state@.len() - k,
    {
        if k > 0 {
            text.append("\n");
        }
        push_assignment(&mut text, k, &state[k]);
        proof {
            let next = state.deep_view().take(k + 1);
            assert(next.drop_last() =~= state.deep_view().take(k as int));
            assert(next.last() == state@[k as int]@);
            assert(text@ =~= state_text(next));
        }
        k += 1;
    }
    assert(state.deep_view().take(k as int) =~= state.deep_view());
    text
}

} // verus!
