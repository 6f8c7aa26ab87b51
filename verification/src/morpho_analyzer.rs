//! Moteur de dérivation : engendrer un mot depuis une racine et un schème,
//! et valider un mot candidat contre tous les schèmes connus.

use vstd::prelude::*;
use crate::cle_de;
use crate::arbre::{a_mot, DeriveV, Tree};
use crate::hashing::{SchemeTable, SchemeV};
use crate::texte::{chaine_de_chars, str_egal, vers_chars};

verus! {

/// Le symbole substitué : les trois symboles réservés désignent les trois
/// symboles de la racine, tout autre symbole est recopié tel quel.
pub open spec fn substitue(racine: [char; 3], c: char) -> char {
    if c == 'ف' {
        racine[0]
    } else if c == 'ع' {
        racine[1]
    } else if c == 'ل' {
        racine[2]
    } else {
        c
    }
}

/// Le mot engendré par une racine et un gabarit : la substitution symbole
/// par symbole. Une fonction des seuls arguments : même racine et même
/// gabarit donnent toujours le même mot.
pub open spec fn mot_genere(racine: [char; 3], gabarit: Seq<char>) -> Seq<char> {
    Seq::new(gabarit.len(), |i: int| substitue(racine, gabarit[i]))
}

/// Sur le gabarit fait des trois symboles réservés dans l'ordre, le mot
/// engendré est la racine elle-même, symbole à symbole.
pub proof fn lemma_gabarit_canonique(racine: [char; 3])
    ensures
        mot_genere(racine, seq!['\u{641}', '\u{639}', '\u{644}']) == seq![
            racine[0],
            racine[1],
            racine[2],
        ],
{
    assert(mot_genere(racine, seq!['\u{641}', '\u{639}', '\u{644}']) =~= seq![
        racine[0],
        racine[1],
        racine[2],
    ]);
}

/// Engendre un mot : chaque symbole réservé du schème est remplacé par le
/// symbole correspondant de la racine, le reste est recopié.
pub fn generer_mot(racine: [char; 3], scheme_nom: &str) -> (r: String)
    ensures
        r@ == mot_genere(racine, scheme_nom@),
{
    let gabarit = vers_chars(scheme_nom);
    let n = gabarit.len();
    let mut sortie: Vec<char> = Vec::new();
    let mut i: usize = 0;
    while i < n
        invariant
            n == gabarit@.len(),
            gabarit@ == scheme_nom@,
            0 <= i <= n,
            sortie@ =~= mot_genere(racine, gabarit@.take(i as int)),
        decreases n - i,
    {
        let c = gabarit[i];
        let s = if c == '\u{641}' {
            racine[0]
        } else if c == '\u{639}' {
            racine[1]
        } else if c == '\u{644}' {
            racine[2]
        } else {
            c
        };
        sortie.push(s);
        proof {
            assert(sortie@ =~= mot_genere(racine, gabarit@.take(i + 1)));
        }
        i = i + 1;
    }
    proof {
        assert(gabarit@.take(n as int) =~= scheme_nom@);
        assert(sortie@ =~= mot_genere(racine, scheme_nom@));
    }
    chaine_de_chars(&sortie)
}

/// Le premier schème de la suite dont le mot engendré est le candidat ;
/// rend son nom, ou rien si aucun ne convient.
pub open spec fn premier_valide(racine: [char; 3], mot: Seq<char>, ss: Seq<SchemeV>) -> Option<
    Seq<char>,
>
    decreases ss.len(),
{
    if ss.len() == 0 {
        None
    } else if mot_genere(racine, ss[0].nom) == mot {
        Some(ss[0].nom)
    } else {
        premier_valide(racine, mot, ss.drop_first())
    }
}

/// Loi de la validation : un schème convient exactement quand son mot
/// engendré est le candidat ; le résultat est le nom du premier qui
/// convient, dans l'ordre donné.
pub proof fn lemma_premier_valide(racine: [char; 3], mot: Seq<char>, ss: Seq<SchemeV>)
    ensures
        premier_valide(racine, mot, ss) is Some <==> exists|i: int|
            0 <= i < ss.len() && mot_genere(racine, #[trigger] ss[i].nom) == mot,
        premier_valide(racine, mot, ss) is Some ==> exists|i: int|
            {
                &&& 0 <= i < ss.len()
                &&& mot_genere(racine, #[trigger] ss[i].nom) == mot
                &&& premier_valide(racine, mot, ss) == Some(ss[i].nom)
                &&& forall|j: int| 0 <= j < i ==> mot_genere(racine, #[trigger] ss[j].nom) != mot
            },
    decreases ss.len(),
{
    if ss.len() > 0 {
        if mot_genere(racine, ss[0].nom) == mot {
        } else {
            lemma_premier_valide(racine, mot, ss.drop_first());
            let reste = ss.drop_first();
            assert(forall|i: int| 0 <= i < reste.len() ==> #[trigger] reste[i] == ss[i + 1]);
            if premier_valide(racine, mot, ss) is Some {
                let i = choose|i: int|
                    {
                        &&& 0 <= i < reste.len()
                        &&& mot_genere(racine, #[trigger] reste[i].nom) == mot
                        &&& premier_valide(racine, mot, reste) == Some(reste[i].nom)
                        &&& forall|j: int|
                            0 <= j < i ==> mot_genere(racine, #[trigger] reste[j].nom) != mot
                    };
                assert(mot_genere(racine, ss[i + 1].nom) == mot);
                assert(forall|j: int|
                    1 <= j < i + 1 ==> mot_genere(racine, #[trigger] ss[j].nom) == mot_genere(
                        racine,
                        reste[j - 1].nom,
                    ));
            } else {
                assert(forall|i: int|
                    1 <= i < ss.len() ==> mot_genere(racine, #[trigger] ss[i].nom) == mot_genere(
                        racine,
                        reste[i - 1].nom,
                    ));
            }
        }
    }
}

/// Engendre toute la famille d'une racine : pour chaque schème de la
/// table, dans l'ordre physique des cases, le nom du schème et le mot
/// engendré depuis son nom.
pub fn generer_famille(racine: [char; 3], table: &SchemeTable) -> (r: Vec<(String, String)>)
    ensures
        r@.len() == table.schemas_en_ordre().len(),
        forall|i: int|
            0 <= i < r@.len() ==> {
                let e = #[trigger] r@[i];
                &&& e.0@ == table.schemas_en_ordre()[i].nom
                &&& e.1@ == mot_genere(racine, table.schemas_en_ordre()[i].nom)
            },
{
    let schemes = table.get_all_schemes();
    let n = schemes.len();
    let mut resultats: Vec<(String, String)> = Vec::new();
    let mut i: usize = 0;
    while i < n
        invariant
            n == schemes@.len(),
            n == table.schemas_en_ordre().len(),
            forall|j: int| 0 <= j < n ==> #[trigger] schemes@[j]@ == table.schemas_en_ordre()[j],
            0 <= i <= n,
            resultats@.len() == i,
            forall|j: int|
                0 <= j < i ==> {
                    let e = #[trigger] resultats@[j];
                    &&& e.0@ == table.schemas_en_ordre()[j].nom
                    &&& e.1@ == mot_genere(racine, table.schemas_en_ordre()[j].nom)
                },
        decreases n - i,
    {
        let scheme = schemes[i];
        proof {
            assert(scheme@ == table.schemas_en_ordre()[i as int]);
            assert(scheme.nom@ == table.schemas_en_ordre()[i as int].nom);
        }
        let mot = generer_mot(racine, scheme.nom.as_str());
        resultats.push((scheme.nom.clone(), mot));
        proof {
            assert(resultats@[i as int].0@ == table.schemas_en_ordre()[i as int].nom);
            assert(resultats@[i as int].1@ == mot_genere(
                racine,
                table.schemas_en_ordre()[i as int].nom,
            ));
        }
        i = i + 1;
    }
    resultats
}

/// Valide un mot : essaie chaque schème de la table, dans l'ordre physique
/// des cases, et rend le nom du premier dont le mot engendré est le
/// candidat, ou rien. Quand deux schèmes engendrent le même mot, le
/// premier en ordre de case l'emporte : une ambiguïté assumée.
pub fn valider_mot(mot: &str, racine: [char; 3], table: &SchemeTable) -> (r: (bool, Option<String>))
    ensures
        r.0 == (premier_valide(racine, mot@, table.schemas_en_ordre()) is Some),
        r.0 ==> r.1 is Some && r.1.unwrap()@ == premier_valide(
            racine,
            mot@,
            table.schemas_en_ordre(),
        ).unwrap(),
        !r.0 ==> r.1 is None,
{
    let schemes = table.get_all_schemes();
    let n = schemes.len();
    let ghost ss = table.schemas_en_ordre();
    let mut i: usize = 0;
    proof {
        assert(ss.skip(0) =~= ss);
    }
    while i < n
        invariant
            n == schemes@.len(),
            n == ss.len(),
            ss == table.schemas_en_ordre(),
            forall|j: int| 0 <= j < n ==> #[trigger] schemes@[j]@ == ss[j],
            0 <= i <= n,
            premier_valide(racine, mot@, ss) == premier_valide(racine, mot@, ss.skip(i as int)),
        decreases n - i,
    {
        let scheme = schemes[i];
        proof {
            assert(scheme@ == ss[i as int]);
            assert(scheme.nom@ == ss[i as int].nom);
        }
        let genere = generer_mot(racine, scheme.nom.as_str());
        proof {
            assert(ss.skip(i as int)[0] == ss[i as int]);
            assert(ss.skip(i as int).drop_first() =~= ss.skip(i as int + 1));
        }
        if str_egal(genere.as_str(), mot) {
            proof {
                assert(premier_valide(racine, mot@, ss.skip(i as int)) == Some(ss[i as int].nom));
            }
            return (true, Some(scheme.nom.clone()));
        }
        i = i + 1;
    }
    proof {
        assert(ss.skip(n as int) =~= Seq::<SchemeV>::empty());
    }
    (false, None)
}

/// Un schème n'engendre des dérivés que s'il porte au moins un des trois
/// symboles réservés.
pub fn valider_scheme(nom: &str) -> (r: bool)
    ensures
        r == (nom@.contains('\u{641}') || nom@.contains('\u{639}') || nom@.contains('\u{644}')),
{
    let cs = vers_chars(nom);
    let n = cs.len();
    let mut i: usize = 0;
    while i < n
        invariant
            n == cs@.len(),
            cs@ == nom@,
            0 <= i <= n,
            forall|j: int|
                0 <= j < i ==> #[trigger] cs@[j] != '\u{641}' && cs@[j] != '\u{639}' && cs@[j]
                    != '\u{644}',
        decreases n - i,
    {
        let c = cs[i];
        if c == '\u{641}' || c == '\u{639}' || c == '\u{644}' {
            return true;
        }
        i = i + 1;
    }
    proof {
        assert(!nom@.contains('\u{641}')) by {
            if nom@.contains('\u{641}') {
                let j = choose|j: int| 0 <= j < nom@.len() && nom@[j] == '\u{641}';
                assert(cs@[j] != '\u{641}');
            }
        }
        assert(!nom@.contains('\u{639}')) by {
            if nom@.contains('\u{639}') {
                let j = choose|j: int| 0 <= j < nom@.len() && nom@[j] == '\u{639}';
                assert(cs@[j] != '\u{639}');
            }
        }
        assert(!nom@.contains('\u{644}')) by {
            if nom@.contains('\u{644}') {
                let j = choose|j: int| 0 <= j < nom@.len() && nom@[j] == '\u{644}';
                assert(cs@[j] != '\u{644}');
            }
        }
    }
    false
}


/// La liste des dérivés d'une racine après l'enregistrement d'une suite de
/// schèmes : pour chaque schème, dans l'ordre, le mot engendré est ajouté
/// avec le nom du schème, sauf s'il y figure déjà.
pub open spec fn stocker_suite(ds: Seq<DeriveV>, racine: [char; 3], ss: Seq<SchemeV>) -> Seq<
    DeriveV,
>
    decreases ss.len(),
{
    if ss.len() == 0 {
        ds
    } else {
        let mot = mot_genere(racine, ss[0].nom);
        let ds2 = if a_mot(ds, mot) {
            ds
        } else {
            ds.push((mot, ss[0].nom))
        };
        stocker_suite(ds2, racine, ss.drop_first())
    }
}

/// Le nombre de mots nouveaux du même enregistrement : les doublons par
/// mot ne comptent pas.
pub open spec fn stocker_compte(ds: Seq<DeriveV>, racine: [char; 3], ss: Seq<SchemeV>) -> nat
    decreases ss.len(),
{
    if ss.len() == 0 {
        0
    } else {
        let mot = mot_genere(racine, ss[0].nom);
        if a_mot(ds, mot) {
            stocker_compte(ds, racine, ss.drop_first())
        } else {
            1 + stocker_compte(ds.push((mot, ss[0].nom)), racine, ss.drop_first())
        }
    }
}

/// L'enregistrement d'un schème de plus prolonge celui des précédents.
proof fn lemma_stocker_push(ds: Seq<DeriveV>, racine: [char; 3], ss: Seq<SchemeV>, x: SchemeV)
    ensures
        stocker_suite(ds, racine, ss.push(x)) == {
            let base = stocker_suite(ds, racine, ss);
            let mot = mot_genere(racine, x.nom);
            if a_mot(base, mot) {
                base
            } else {
                base.push((mot, x.nom))
            }
        },
        stocker_compte(ds, racine, ss.push(x)) == stocker_compte(ds, racine, ss) + if a_mot(
            stocker_suite(ds, racine, ss),
            mot_genere(racine, x.nom),
        ) {
            0nat
        } else {
            1nat
        },
    decreases ss.len(),
{
    if ss.len() == 0 {
        assert(ss.push(x)[0] == x);
        assert(ss.push(x).drop_first() =~= Seq::<SchemeV>::empty());
        assert(stocker_suite(ds, racine, ss) == ds);
        assert(stocker_compte(ds, racine, ss) == 0);
        let mot = mot_genere(racine, x.nom);
        let ds2 = if a_mot(ds, mot) {
            ds
        } else {
            ds.push((mot, x.nom))
        };
        assert(stocker_suite(ds, racine, ss.push(x)) == stocker_suite(
            ds2,
            racine,
            ss.push(x).drop_first(),
        ));
        assert(stocker_suite(ds2, racine, ss.push(x).drop_first()) == ds2);
        assert(stocker_compte(ds, racine, ss.push(x)) == if a_mot(ds, mot) {
            stocker_compte(ds, racine, ss.push(x).drop_first())
        } else {
            1nat + stocker_compte(ds2, racine, ss.push(x).drop_first())
        });
    } else {
        assert(ss.push(x)[0] == ss[0]);
        assert(ss.push(x).drop_first() =~= ss.drop_first().push(x));
        let mot = mot_genere(racine, ss[0].nom);
        let ds2 = if a_mot(ds, mot) {
            ds
        } else {
            ds.push((mot, ss[0].nom))
        };
        lemma_stocker_push(ds2, racine, ss.drop_first(), x);
        assert(stocker_suite(ds, racine, ss.push(x)) == stocker_suite(
            ds2,
            racine,
            ss.drop_first().push(x),
        ));
        assert(stocker_suite(ds, racine, ss) == stocker_suite(ds2, racine, ss.drop_first()));
        assert(stocker_compte(ds, racine, ss.push(x)) == if a_mot(ds, mot) {
            stocker_compte(ds2, racine, ss.drop_first().push(x))
        } else {
            1nat + stocker_compte(ds2, racine, ss.drop_first().push(x))
        });
        assert(stocker_compte(ds, racine, ss) == if a_mot(ds, mot) {
            stocker_compte(ds2, racine, ss.drop_first())
        } else {
            1nat + stocker_compte(ds2, racine, ss.drop_first())
        });
    }
}

/// Engendre le dérivé d'un schème donné et le range sous la racine, si
/// elle est dans l'arbre ; rend vrai exactement dans ce cas. Un mot déjà
/// enregistré est laissé tel quel.
pub fn generer_et_stocker_derive(arbre: &mut Tree, racine: [char; 3], schema: &str) -> (r: bool)
    requires
        old(arbre).bien_forme(),
        old(arbre)@.dom().contains(cle_de(racine)) ==> old(arbre)@[cle_de(racine)].len()
            < u32::MAX,
    ensures
        final(arbre).bien_forme(),
        r == old(arbre)@.dom().contains(cle_de(racine)),
        final(arbre)@ == {
            let cle = cle_de(racine);
            let mot = mot_genere(racine, schema@);
            if old(arbre)@.dom().contains(cle) && !a_mot(old(arbre)@[cle], mot) {
                old(arbre)@.insert(cle, old(arbre)@[cle].push((mot, schema@)))
            } else {
                old(arbre)@
            }
        },
{
    if !arbre.verify(racine) {
        return false;
    }
    let mot = generer_mot(racine, schema);
    arbre.ajouter_derive(racine, mot, schema.to_owned())
}

/// Engendre et range les dérivés de tous les schèmes de la table, dans
/// l'ordre physique des cases, pour une racine déjà dans l'arbre ; rend le
/// nombre de dérivés nouveaux, les doublons par mot exclus.
pub fn generer_et_stocker(arbre: &mut Tree, racine: [char; 3], table: &SchemeTable) -> (compteur:
    u32)
    requires
        old(arbre).bien_forme(),
        table.bien_formee(),
        old(arbre)@.dom().contains(cle_de(racine)),
        old(arbre)@[cle_de(racine)].len() + table.schemas_en_ordre().len() < u32::MAX,
    ensures
        final(arbre).bien_forme(),
        final(arbre)@ == old(arbre)@.insert(
            cle_de(racine),
            stocker_suite(old(arbre)@[cle_de(racine)], racine, table.schemas_en_ordre()),
        ),
        compteur as nat == stocker_compte(
            old(arbre)@[cle_de(racine)],
            racine,
            table.schemas_en_ordre(),
        ),
{
    let ghost cle = cle_de(racine);
    let ghost ss = table.schemas_en_ordre();
    let ghost ds0 = old(arbre)@[cle];
    let schemes = table.get_all_schemes();
    let n = schemes.len();
    proof {
        table.lemma_schemas_et_carte();
        table.lemma_bornes();
        assert(ss.take(0) =~= Seq::<SchemeV>::empty());
        assert(old(arbre)@.insert(cle, ds0) =~= old(arbre)@);
    }
    let mut compteur: u32 = 0;
    let mut i: usize = 0;
    while i < n
        invariant
            arbre.bien_forme(),
            n == schemes@.len(),
            n == ss.len(),
            n <= crate::hashing::CAPACITE_MAX,
            ss == table.schemas_en_ordre(),
            cle == cle_de(racine),
            ds0 == old(arbre)@[cle],
            ds0.len() + n < u32::MAX,
            forall|j: int| 0 <= j < n ==> #[trigger] schemes@[j]@ == ss[j],
            0 <= i <= n,
            compteur <= i,
            arbre@ == old(arbre)@.insert(cle, stocker_suite(ds0, racine, ss.take(i as int))),
            arbre@[cle].len() <= ds0.len() + i,
            compteur as nat == stocker_compte(ds0, racine, ss.take(i as int)),
        decreases n - i,
    {
        let scheme = schemes[i];
        proof {
            assert(scheme@ == ss[i as int]);
            assert(ss.take(i + 1).drop_last() =~= ss.take(i as int));
            assert(ss.take(i + 1) =~= ss.take(i as int).push(ss[i as int]));
            lemma_stocker_push(ds0, racine, ss.take(i as int), ss[i as int]);
        }
        let mot = generer_mot(racine, scheme.nom.as_str());
        let nouveau = !arbre.contient_derive(racine, mot.as_str());
        let _ = arbre.ajouter_derive(racine, mot, scheme.nom.clone());
        if nouveau {
            compteur = compteur + 1;
        }
        proof {
            assert(arbre@ == old(arbre)@.insert(
                cle,
                stocker_suite(ds0, racine, ss.take(i + 1)),
            ));
        }
        i = i + 1;
    }
    proof {
        assert(ss.take(n as int) =~= ss);
    }
    compteur
}

/// Valide un mot et, s'il convient, le range sous la racine avec le nom du
/// schème trouvé (sans effet si ce mot y est déjà, ou si la racine est
/// absente) ; l'arbre reste intact quand rien ne convient.
pub fn valider_et_stocker(arbre: &mut Tree, mot: &str, racine: [char; 3], table: &SchemeTable) -> (r:
    (bool, Option<String>))
    requires
        old(arbre).bien_forme(),
        old(arbre)@.dom().contains(cle_de(racine)) ==> old(arbre)@[cle_de(racine)].len()
            < u32::MAX,
    ensures
        final(arbre).bien_forme(),
        r.0 == (premier_valide(racine, mot@, table.schemas_en_ordre()) is Some),
        r.0 ==> r.1 is Some && r.1.unwrap()@ == premier_valide(
            racine,
            mot@,
            table.schemas_en_ordre(),
        ).unwrap(),
        !r.0 ==> r.1 is None,
        final(arbre)@ == {
            let cle = cle_de(racine);
            let choisi = premier_valide(racine, mot@, table.schemas_en_ordre());
            if choisi is Some && old(arbre)@.dom().contains(cle) && !a_mot(old(arbre)@[cle], mot@) {
                old(arbre)@.insert(cle, old(arbre)@[cle].push((mot@, choisi.unwrap())))
            } else {
                old(arbre)@
            }
        },
{
    let (trouve, scheme) = valider_mot(mot, racine, table);
    if trouve {
        match &scheme {
            Some(schema) => {
                let _ = arbre.ajouter_derive(racine, mot.to_owned(), schema.clone());
            },
            None => {},
        }
    }
    (trouve, scheme)
}

} // verus!
