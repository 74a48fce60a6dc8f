use vstd::prelude::*;

verus! {

/// The reserved separator that may not occur inside a program name or a
/// locally declared symbol name.  Keeping it out of both inputs is what makes
/// qualified names collision-free across independently compiled programs.
pub open spec fn scope_separator() -> char {
    ':'
}

/// A name is valid as a scope component exactly when it does not contain the
/// reserved separator.
pub open spec fn is_valid_name(s: Seq<char>) -> bool {
    forall|i: int| 0 <= i < s.len() ==> s[i] != scope_separator()
}

/// The qualified key of a symbol `inner` declared by the program `outer`.
pub open spec fn qualified(outer: Seq<char>, inner: Seq<char>) -> Seq<char> {
    outer + seq![scope_separator()] + inner
}

/// Canonicalizes (program identity, local symbol name) into the globally
/// unique key used by the symbol table.
pub fn new_scope(outer: String, inner: String) -> (r: String)
    ensures
        r@ == qualified(outer@, inner@),
{
    proof {
        reveal_strlit(":");
    }
    let mid = outer.concat(":");
    let r = mid.concat(inner.as_str());
    proof {
        assert(r@ =~= qualified(outer@, inner@));
    }
    r
}

/// Law: qualification never collides.  Two distinct (program name, local
/// name) pairs, neither containing the reserved separator, always map to
/// distinct qualified keys; in particular two imported programs may each
/// declare a function of the same local name without clashing in the shared
/// symbol table.
pub proof fn lemma_qualified_injective(o1: Seq<char>, n1: Seq<char>, o2: Seq<char>, n2: Seq<char>)
    requires
        is_valid_name(o1),
        is_valid_name(n1),
        is_valid_name(o2),
        is_valid_name(n2),
        qualified(o1, n1) == qualified(o2, n2),
    ensures
        o1 == o2,
        n1 == n2,
{
    let q1 = qualified(o1, n1);
    let q2 = qualified(o2, n2);
    assert(q1.len() == o1.len() + 1 + n1.len());
    assert(q2.len() == o2.len() + 1 + n2.len());
    if o1.len() < o2.len() {
        assert(q1[o1.len() as int] == scope_separator());
        assert(q2[o1.len() as int] == o2[o1.len() as int]);
        assert(false);
    }
    if o2.len() < o1.len() {
        assert(q2[o2.len() as int] == scope_separator());
        assert(q1[o2.len() as int] == o1[o2.len() as int]);
        assert(false);
    }
    assert(o1.len() == o2.len());
    assert forall|i: int| 0 <= i < o1.len() implies o1[i] == o2[i] by {
        assert(q1[i] == o1[i]);
        assert(q2[i] == o2[i]);
    }
    assert(o1 =~= o2);
    assert(n1.len() == n2.len());
    assert forall|j: int| 0 <= j < n1.len() implies n1[j] == n2[j] by {
        assert(q1[o1.len() + 1 + j] == n1[j]);
        assert(q2[o2.len() + 1 + j] == n2[j]);
    }
    assert(n1 =~= n2);
}

/// Law: cross-program reuse of one local name is never a collision.  If two
/// programs have distinct names, the qualified keys of their same-named
/// definitions are distinct.
pub proof fn lemma_distinct_programs_never_collide(p1: Seq<char>, p2: Seq<char>, n: Seq<char>)
    requires
        is_valid_name(p1),
        is_valid_name(p2),
        is_valid_name(n),
        p1 != p2,
    ensures
        qualified(p1, n) != qualified(p2, n),
{
    if qualified(p1, n) == qualified(p2, n) {
        lemma_qualified_injective(p1, n, p2, n);
    }
}

} // verus!
