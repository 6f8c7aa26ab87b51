//! Passage entre chaînes et suites de symboles.

use vstd::prelude::*;

verus! {

/// S'appuie sur str::eq : deux tranches sont égales exactement quand
/// leurs suites de symboles le sont.
#[verifier::external_body]
pub fn str_egal(a: &str, b: &str) -> (r: bool)
    ensures
        r == (a@ == b@),
{
    a == b
}

/// S'appuie sur String::from_iter : la chaîne bâtie sur une suite de
/// symboles a exactement cette suite pour vue.
#[verifier::external_body]
pub fn chaine_de_chars(v: &Vec<char>) -> (r: String)
    ensures
        r@ == v@,
{
    v.iter().collect()
}

/// Recopie les symboles d'une tranche dans un vecteur.
pub fn vers_chars(s: &str) -> (r: Vec<char>)
    ensures
        r@ == s@,
{
    let mut r: Vec<char> = Vec::new();
    for c in it: s.chars()
        invariant
            it.seq() == s@,
            r@ == it.seq().take(it.index() as int),
    {
        r.push(c);
    }
    proof {
        assert(r@ =~= s@);
    }
    r
}

} // verus!
