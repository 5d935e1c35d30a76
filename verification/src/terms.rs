//! Expressions over GF(2): sets of terms, merged by XOR.

use crate::term::{Term, Variable};
use vstd::prelude::*;

verus! {

/// The XOR of two expressions: the terms that stand in exactly one of them.
/// A term that both hold cancels.
pub open spec fn xor(a: Set<Term>, b: Set<Term>) -> Set<Term> {
    a.difference(b).union(b.difference(a))
}

/// Whether `listed` runs from the highest term down, each term above the next.
pub open spec fn strictly_descending(listed: Seq<Term>) -> bool {
    forall|i: int, j: int| 0 <= i < j < listed.len() ==> listed[i].above(listed[j])
}

/// The terms of a finite set from the highest down: the one sequence that
/// is strictly descending and holds exactly the terms of the set
/// (`lemma_descending_lists`, `lemma_descending_unique`). This is the order
/// in which an expression is written out.
pub open spec fn descending(terms: Set<Term>) -> Seq<Term> {
    choose|listed: Seq<Term>| strictly_descending(listed) && listed.to_set() == terms
}

/// One boolean expression: the XOR of the terms it holds. A term is either
/// in it or not; it never stands in it twice.
pub struct Terms {
    terms: Vec<Term>,
}

impl View for Terms {
    type V = Set<Term>;

    closed spec fn view(&self) -> Set<Term> {
        self.terms@.to_set()
    }
}

impl DeepView for Terms {
    type V = Set<Term>;

    open spec fn deep_view(&self) -> Set<Term> {
        self.view()
    }
}

impl Terms {
    #[verifier::type_invariant]
    spec fn no_term_twice(&self) -> bool {
        self.terms@.no_duplicates()
    }

    /// The expression without terms: constant zero.
    pub fn new() -> (terms: Terms)
        ensures
            terms@ == Set::<Term>::empty(),
    {
        let terms = Terms { terms: Vec::new() };
        assert(terms@ =~= Set::<Term>::empty());
        terms
    }

    /// The expression that is bit `index` of the initial state.
    pub fn with_initial_state(index: usize) -> (terms: Terms)
        ensures
            terms@ == set![Term { variable: Variable::InitialState, index }],
    {
        let mut terms = Vec::new();
        terms.push(Term { variable: Variable::InitialState, index });
        let terms = Terms { terms };
        assert(terms@ =~= set![Term { variable: Variable::InitialState, index }]) by {
            assert(terms.terms@[0] == Term { variable: Variable::InitialState, index });
        }
        terms
    }

    /// Where `term` stands among the stored terms, if it does.
    fn position(&self, term: Term) -> (found: Option<usize>)
        ensures
            match found {
                Some(i) => i < self.terms@.len() && self.terms@[i as int] == term,
                None => !self@.contains(term),
            },
    {
        let mut i: usize = 0;
        while i < self.terms.len()
            invariant
                i <= self.terms@.len(),
                forall|j: int| 0 <= j < i ==> self.terms@[j] != term,
            decreases self.terms@.len() - i,
        {
            if self.terms[i] == term {
                return Some(i);
            }
            i += 1;
        }
        None
    }

    /// Whether the expression holds `term`.
    pub fn contains(&self, term: Term) -> (held: bool)
        ensures
            held == self@.contains(term),
    {
        self.position(term).is_some()
    }

    /// XOR with one term: takes the term out if the expression holds it, and
    /// puts it in if not.
    pub fn add_term(&mut self, term: Term)
        ensures
            final(self)@ == xor(old(self)@, set![term]),
    {
        proof {
            use_type_invariant(&*self);
        }
        let found = self.position(term);
        // The stored terms are taken out while they change, and put back
        // once no term stands among them twice.
        let mut stored: Vec<Term> = Vec::new();
        std::mem::swap(&mut self.terms, &mut stored);
        match found {
            Some(i) => {
                proof {
                    lemma_swap_remove(stored@, i as int);
                }
                stored.swap_remove(i);
            },
            None => {
                proof {
                    lemma_push(stored@, term);
                }
                stored.push(term);
            },
        }
        self.terms = stored;
        assert(self@ =~= xor(old(self)@, set![term]));
    }

    /// XOR with another expression: afterwards the expression holds the terms
    /// that stood in exactly one of the two.
    pub fn add_terms(&mut self, other: &Terms)
        ensures
            final(self)@ == xor(old(self)@, other@),
            other@ == old(self)@ ==> final(self)@ == Set::<Term>::empty(),
    {
        proof {
            use_type_invariant(other);
            assert(self@ =~= xor(self@, other.terms@.take(0).to_set()));
        }
        let mut i: usize = 0;
        while i < other.terms.len()
            invariant
                i <= other.terms@.len(),
                other.terms@.no_duplicates(),
                self@ == xor(old(self)@, other.terms@.take(i as int).to_set()),
            decreases other.terms@.len() - i,
        {
            proof {
                let merged = other.terms@.take(i as int);
                assert(!merged.to_set().contains(other.terms@[i as int]));
                lemma_push(merged, other.terms@[i as int]);
                assert(merged.push(other.terms@[i as int]) =~= other.terms@.take(i + 1));
            }
            self.add_term(other.terms[i]);
            assert(self@ =~= xor(old(self)@, other.terms@.take(i + 1).to_set()));
            i += 1;
        }
        assert(other.terms@.take(i as int) =~= other.terms@);
        proof {
            lemma_xor_self_cancels(other@);
        }
    }

    /// The number of terms in the expression.
    pub fn len(&self) -> (count: usize)
        ensures
            count == self@.len(),
    {
        proof {
            use_type_invariant(self);
            self.terms@.unique_seq_to_set();
        }
        self.terms.len()
    }

    /// Whether the expression is constant zero.
    pub fn is_empty(&self) -> (empty: bool)
        ensures
            empty == (self@ == Set::<Term>::empty()),
    {
        proof {
            if self.terms@.len() > 0 {
                assert(self@.contains(self.terms@[0]));
            } else {
                assert(self@ =~= Set::<Term>::empty());
            }
        }
        self.terms.len() == 0
    }

    /// The terms of the expression in the order in which it is written out,
    /// from the highest down.
    pub fn descending(&self) -> (listed: Vec<Term>)
        ensures
            listed@ == descending(self@),
    {
        proof {
            use_type_invariant(self);
        }
        let mut listed: Vec<Term> = Vec::new();
        let mut i: usize = 0;
        assert(listed@.to_set() =~= self.terms@.take(0).to_set());
        while i < self.terms.len()
            invariant
                i <= self.terms@.len(),
                self.terms@.no_duplicates(),
                strictly_descending(listed@),
                listed@.to_set() == self.terms@.take(i as int).to_set(),
            decreases self.terms@.len() - i,
        {
            let term = self.terms[i];
            let mut at: usize = 0;
            while at < listed.len() && listed[at].is_above(&term)
                invariant
                    at <= listed@.len(),
                    forall|j: int| 0 <= j < at ==> listed@[j].above(term),
                decreases listed@.len() - at,
            {
                at += 1;
            }
            proof {
                let before = self.terms@.take(i as int);
                assert(!before.to_set().contains(term));
                if at < listed@.len() {
                    assert(listed@.to_set().contains(listed@[at as int]));
                }
                lemma_insert_descending(listed@, at as int, term);
                lemma_push(before, term);
                assert(before.push(term) =~= self.terms@.take(i + 1));
            }
            listed.insert(at, term);
            i += 1;
        }
        proof {
            assert(self.terms@.take(i as int) =~= self.terms@);
            lemma_descending_is(listed@, self@);
        }
        listed
    }

    /// An expression holds finitely many terms.
    pub proof fn lemma_finite(self)
        ensures
            self@.finite(),
    {
        vstd::seq_lib::seq_to_set_is_finite(self.terms@);
    }
}

impl Clone for Terms {
    fn clone(&self) -> (copy: Terms)
        ensures
            copy@ == self@,
    {
        proof {
            use_type_invariant(self);
        }
        let mut terms: Vec<Term> = Vec::new();
        let mut i: usize = 0;
        while i < self.terms.len()
            invariant
                i <= self.terms@.len(),
                terms@ == self.terms@.take(i as int),
            decreases self.terms@.len() - i,
        {
            terms.push(self.terms[i]);
            assert(terms@ =~= self.terms@.take(i + 1));
            i += 1;
        }
        assert(terms@ =~= self.terms@);
        Terms { terms }
    }
}

/// A term cancels itself: the XOR of an expression with itself is constant
/// zero.
pub proof fn lemma_xor_self_cancels(a: Set<Term>)
    ensures
        xor(a, a) == Set::<Term>::empty(),
{
    assert(xor(a, a) =~= Set::<Term>::empty());
}

/// Constant zero is the neutral element of XOR.
pub proof fn lemma_xor_zero(a: Set<Term>)
    ensures
        xor(a, Set::<Term>::empty()) == a,
        xor(Set::<Term>::empty(), a) == a,
{
    assert(xor(a, Set::<Term>::empty()) =~= a);
    assert(xor(Set::<Term>::empty(), a) =~= a);
}

/// XOR does not depend on which expression comes first.
pub proof fn lemma_xor_commutative(a: Set<Term>, b: Set<Term>)
    ensures
        xor(a, b) == xor(b, a),
{
    assert(xor(a, b) =~= xor(b, a));
}

/// XOR does not depend on how three expressions are grouped.
pub proof fn lemma_xor_associative(a: Set<Term>, b: Set<Term>, c: Set<Term>)
    ensures
        xor(xor(a, b), c) == xor(a, xor(b, c)),
{
    assert(xor(xor(a, b), c) =~= xor(a, xor(b, c)));
}

/// Two expressions merged into a third give the same result in either
/// order.
pub proof fn lemma_xor_merge_order(a: Set<Term>, b: Set<Term>, c: Set<Term>)
    ensures
        xor(xor(a, b), c) == xor(xor(a, c), b),
{
    assert(xor(xor(a, b), c) =~= xor(xor(a, c), b));
}

/// The XOR of two finite expressions is finite.
pub proof fn lemma_xor_finite(a: Set<Term>, b: Set<Term>)
    requires
        a.finite(),
        b.finite(),
    ensures
        xor(a, b).finite(),
{
}

/// A set of terms has at most one strictly descending listing.
pub proof fn lemma_descending_unique(a: Seq<Term>, b: Seq<Term>)
    requires
        strictly_descending(a),
        strictly_descending(b),
        a.to_set() == b.to_set(),
    ensures
        a == b,
    decreases a.len(),
{
    if a.len() == 0 {
        if b.len() > 0 {
            assert(b.to_set().contains(b[0]));
            assert(a.to_set().contains(b[0]));
        }
        assert(a =~= b);
    } else {
        assert(a.to_set().contains(a[0]));
        assert(b.to_set().contains(a[0]));
        let j = choose|j: int| 0 <= j < b.len() && b[j] == a[0];
        assert(b.to_set().contains(b[0]));
        assert(a.to_set().contains(b[0]));
        let i = choose|i: int| 0 <= i < a.len() && a[i] == b[0];
        if j > 0 {
            assert(b[0].above(b[j]));
            if i > 0 {
                assert(a[0].above(a[i]));
            }
        }
        assert(a[0] == b[0]);
        let a1 = a.drop_first();
        let b1 = b.drop_first();
        assert(strictly_descending(a1)) by {
            assert forall|x: int, y: int| 0 <= x < y < a1.len() implies a1[x].above(a1[y]) by {
                assert(a[x + 1].above(a[y + 1]));
            }
        }
        assert(strictly_descending(b1)) by {
            assert forall|x: int, y: int| 0 <= x < y < b1.len() implies b1[x].above(b1[y]) by {
                assert(b[x + 1].above(b[y + 1]));
            }
        }
        assert forall|t: Term| a1.to_set().contains(t) <==> b1.to_set().contains(t) by {
            if a1.to_set().contains(t) {
                let k = choose|k: int| 0 <= k < a1.len() && a1[k] == t;
                assert(a[0].above(a[k + 1]));
                assert(a.to_set().contains(a[k + 1]));
                assert(b.to_set().contains(t));
                let m = choose|m: int| 0 <= m < b.len() && b[m] == t;
                assert(b1[m - 1] == t);
            }
            if b1.to_set().contains(t) {
                let k = choose|k: int| 0 <= k < b1.len() && b1[k] == t;
                assert(b[0].above(b[k + 1]));
                assert(b.to_set().contains(b[k + 1]));
                assert(a.to_set().contains(t));
                let m = choose|m: int| 0 <= m < a.len() && a[m] == t;
                assert(a1[m - 1] == t);
            }
        }
        assert(a1.to_set() =~= b1.to_set());
        lemma_descending_unique(a1, b1);
        assert(a =~= seq![a[0]] + a1);
        assert(b =~= seq![b[0]] + b1);
    }
}

/// A strictly descending sequence that holds exactly the terms of a set is
/// the listing of that set.
pub proof fn lemma_descending_is(listed: Seq<Term>, terms: Set<Term>)
    requires
        strictly_descending(listed),
        listed.to_set() == terms,
    ensures
        descending(terms) == listed,
{
    lemma_descending_unique(descending(terms), listed);
}

/// Every finite set of terms has its listing: `descending` is strictly
/// descending and holds exactly the terms of the set.
pub proof fn lemma_descending_lists(terms: Set<Term>)
    requires
        terms.finite(),
    ensures
        strictly_descending(descending(terms)),
        descending(terms).to_set() == terms,
        descending(terms).len() == terms.len(),
    decreases terms.len(),
{
    if terms.len() == 0 {
        let none = Seq::<Term>::empty();
        assert(none.to_set() =~= terms);
        lemma_descending_is(none, terms);
    } else {
        let term = terms.choose();
        let rest = terms.remove(term);
        lemma_descending_lists(rest);
        let listed = descending(rest);
        let at = lemma_place(listed, term);
        lemma_insert_descending(listed, at, term);
        assert(rest.insert(term) =~= terms);
        lemma_descending_is(listed.insert(at, term), terms);
    }
}

/// The place of a term in a listing: below all terms that are above it.
proof fn lemma_place(listed: Seq<Term>, term: Term) -> (at: int)
    ensures
        0 <= at <= listed.len(),
        forall|j: int| 0 <= j < at ==> listed[j].above(term),
        at < listed.len() ==> !listed[at].above(term),
    decreases listed.len(),
{
    if listed.len() == 0 {
        0
    } else {
        let at = lemma_place(listed.drop_last(), term);
        assert forall|j: int| 0 <= j < at implies listed[j].above(term) by {
            assert(listed.drop_last()[j] == listed[j]);
        }
        if at == listed.len() - 1 && listed.last().above(term) {
            listed.len() as int
        } else {
            if at < listed.len() - 1 {
                assert(listed.drop_last()[at] == listed[at]);
            }
            at
        }
    }
}

/// Putting a new term into a strictly descending sequence, below all that
/// are above it, keeps the sequence strictly descending.
proof fn lemma_insert_descending(listed: Seq<Term>, at: int, term: Term)
    requires
        strictly_descending(listed),
        0 <= at <= listed.len(),
        !listed.to_set().contains(term),
        forall|j: int| 0 <= j < at ==> listed[j].above(term),
        at < listed.len() ==> !listed[at].above(term),
    ensures
        strictly_descending(listed.insert(at, term)),
        listed.insert(at, term).to_set() == listed.to_set().insert(term),
{
    let r = listed.insert(at, term);
    assert forall|i: int, j: int| 0 <= i < j < r.len() implies r[i].above(r[j]) by {
        if j == at {
            assert(r[i] == listed[i]);
        } else if i == at {
            assert(r[j] == listed[j - 1]);
            assert(listed.to_set().contains(listed[at]));
            assert(term.above(listed[at]));
            if j - 1 > at {
                assert(listed[at].above(listed[j - 1]));
            }
        } else {
            let i0 = if i < at { i } else { i - 1 };
            let j0 = if j < at { j } else { j - 1 };
            assert(r[i] == listed[i0]);
            assert(r[j] == listed[j0]);
            assert(listed[i0].above(listed[j0]));
        }
    }
    assert forall|t: Term| r.to_set().contains(t) <==> listed.to_set().insert(term).contains(
        t,
    ) by {
        if r.to_set().contains(t) {
            let j = choose|j: int| 0 <= j < r.len() && r[j] == t;
            if j < at {
                assert(listed[j] == t);
            } else if j > at {
                assert(listed[j - 1] == t);
            }
        }
        if listed.to_set().insert(term).contains(t) {
            if t == term {
                assert(r[at] == t);
            } else {
                let j = choose|j: int| 0 <= j < listed.len() && listed[j] == t;
                if j < at {
                    assert(r[j] == t);
                } else {
                    assert(r[j + 1] == t);
                }
            }
        }
    }
    assert(r.to_set() =~= listed.to_set().insert(term));
}

/// Moving the last element into place `i` and dropping the last place takes
/// exactly the element at `i` out.
proof fn lemma_swap_remove(s: Seq<Term>, i: int)
    requires
        s.no_duplicates(),
        0 <= i < s.len(),
    ensures
        s.update(i, s.last()).drop_last().no_duplicates(),
        s.update(i, s.last()).drop_last().to_set() == s.to_set().remove(s[i]),
{
    let r = s.update(i, s.last()).drop_last();
    assert forall|t: Term| r.to_set().contains(t) <==> s.to_set().remove(s[i]).contains(t) by {
        if r.to_set().contains(t) {
            let j = choose|j: int| 0 <= j < r.len() && r[j] == t;
            if j == i {
                assert(s[s.len() - 1] == t);
            } else {
                assert(s[j] == t);
            }
        }
        if s.to_set().remove(s[i]).contains(t) {
            let j = choose|j: int| 0 <= j < s.len() && s[j] == t;
            if j == s.len() - 1 {
                assert(r[i] == t);
            } else {
                assert(r[j] == t);
            }
        }
    }
    assert(r.to_set() =~= s.to_set().remove(s[i]));
}

/// Appending an element that is not yet there puts exactly that element in.
proof fn lemma_push(s: Seq<Term>, term: Term)
    requires
        s.no_duplicates(),
        !s.to_set().contains(term),
    ensures
        s.push(term).no_duplicates(),
        s.push(term).to_set() == s.to_set().insert(term),
{
    let r = s.push(term);
    assert forall|i: int, j: int| 0 <= i < r.len() && 0 <= j < r.len() && i != j implies r[i]
        != r[j] by {
        if i < s.len() {
            assert(s.to_set().contains(s[i]));
        }
        if j < s.len() {
            assert(s.to_set().contains(s[j]));
        }
    }
    assert forall|t: Term| r.to_set().contains(t) <==> s.to_set().insert(term).contains(t) by {
        if r.to_set().contains(t) {
            let j = choose|j: int| 0 <= j < r.len() && r[j] == t;
            if j < s.len() {
                assert(s[j] == t);
            }
        }
        if s.to_set().insert(term).contains(t) {
            if t == term {
                assert(r[s.len() as int] == t);
            } else {
                let j = choose|j: int| 0 <= j < s.len() && s[j] == t;
                assert(r[j] == t);
            }
        }
    }
    assert(r.to_set() =~= s.to_set().insert(term));
}

} // verus!
