//! Moteur morphologique pour racines trilitères.
//!
//! La bibliothèque indexe des racines de trois symboles dans un arbre binaire
//! de recherche, range des schémas de dérivation dans une table de hachage à
//! adressage ouvert, et dérive ou valide des mots à partir d'une racine et
//! d'un schéma.

use vstd::prelude::*;

pub mod arbre;
pub mod hashing;
pub mod morpho_analyzer;
pub mod nombres;
pub mod stockage;
pub mod texte;

verus! {

/// Clé d'une racine : le triplet ordonné de ses trois symboles.
pub type Cle = (char, char, char);

/// Ordre lexicographique des racines, symbole par symbole.
pub open spec fn cle_lt(a: Cle, b: Cle) -> bool {
    ||| a.0 < b.0
    ||| (a.0 == b.0 && a.1 < b.1)
    ||| (a.0 == b.0 && a.1 == b.1 && a.2 < b.2)
}

/// La clé portée par un tableau de trois symboles.
pub open spec fn cle_de(r: [char; 3]) -> Cle {
    (r[0], r[1], r[2])
}

} // verus!
