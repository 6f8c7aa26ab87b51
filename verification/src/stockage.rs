//! Instantané de l'index : exporter les racines qui portent au moins un
//! dérivé, et rebâtir l'index depuis un tel relevé.

use vstd::prelude::*;
use crate::{Cle, cle_de};
use crate::arbre::{a_mot, carte_inseree, vue_derives, vue_entrees, DeriveV, EntreeV, Tree};

verus! {

/// Une entrée exportée : la racine et ses paires (mot, nom du schème).
pub type EntreeExport = ([char; 3], Vec<(String, String)>);

/// La vue d'une liste de paires (mot, schème).
pub open spec fn vue_paires(ps: Seq<(String, String)>) -> Seq<DeriveV> {
    ps.map_values(|p: (String, String)| (p.0@, p.1@))
}

/// La vue d'une liste d'entrées exportées.
pub open spec fn vue_exports(es: Seq<EntreeExport>) -> Seq<([char; 3], Seq<DeriveV>)> {
    es.map_values(|e: EntreeExport| (e.0, vue_paires(e.1@)))
}

/// Les entrées à exporter : celles du parcours en ordre qui portent au
/// moins un dérivé, chacune réduite à sa racine et à ses paires.
pub open spec fn entrees_exportees(es: Seq<EntreeV>) -> Seq<([char; 3], Seq<DeriveV>)>
    decreases es.len(),
{
    if es.len() == 0 {
        Seq::empty()
    } else {
        entrees_exportees(es.drop_last()) + if es.last().2.len() > 0 {
            seq![(es.last().0, vue_derives(es.last().2))]
        } else {
            Seq::empty()
        }
    }
}

/// L'ajout d'un dérivé, tel que le fait l'arbre : seulement si la racine
/// est là et que le mot n'y figure pas encore.
pub open spec fn carte_derive_ajoute(
    m: Map<Cle, Seq<DeriveV>>,
    k: Cle,
    mot: Seq<char>,
    schema: Seq<char>,
) -> Map<Cle, Seq<DeriveV>> {
    if m.dom().contains(k) && !a_mot(m[k], mot) {
        m.insert(k, m[k].push((mot, schema)))
    } else {
        m
    }
}

/// Le rejeu des paires d'une entrée, dans l'ordre du relevé.
pub open spec fn carte_paires(m: Map<Cle, Seq<DeriveV>>, k: Cle, ps: Seq<DeriveV>) -> Map<
    Cle,
    Seq<DeriveV>,
>
    decreases ps.len(),
{
    if ps.len() == 0 {
        m
    } else {
        carte_paires(carte_derive_ajoute(m, k, ps[0].0, ps[0].1), k, ps.drop_first())
    }
}

/// Le rejeu d'un relevé entier : chaque racine est insérée puis ses paires
/// rejouées, dans l'ordre.
pub open spec fn carte_importation(
    m: Map<Cle, Seq<DeriveV>>,
    es: Seq<([char; 3], Seq<DeriveV>)>,
) -> Map<Cle, Seq<DeriveV>>
    decreases es.len(),
{
    if es.len() == 0 {
        m
    } else {
        let k = cle_de(es[0].0);
        carte_importation(carte_paires(carte_inseree(m, k), k, es[0].1), es.drop_first())
    }
}

/// Le nombre total de paires d'un relevé.
pub open spec fn somme_paires(es: Seq<([char; 3], Seq<DeriveV>)>) -> nat
    decreases es.len(),
{
    if es.len() == 0 {
        0
    } else {
        es[0].1.len() + somme_paires(es.drop_first())
    }
}

/// Exporte l'index : pour chaque racine portant au moins un dérivé, en
/// ordre croissant des racines, la racine et ses paires (mot, schème)
/// dans l'ordre d'enregistrement. Les racines sans dérivé sont omises.
pub fn exporter_entrees(arbre: &Tree) -> (r: Vec<EntreeExport>)
    ensures
        vue_exports(r@) == entrees_exportees(arbre.entrees_en_ordre()),
{
    let mut tout: Vec<([char; 3], u32, Vec<crate::arbre::Derive>)> = Vec::new();
    arbre.collecter_racines(&mut tout);
    let ghost es = arbre.entrees_en_ordre();
    proof {
        assert(vue_entrees(tout@) == es);
        assert(vue_entrees(tout@).take(0) =~= Seq::<EntreeV>::empty());
        assert(entrees_exportees(es.take(0)) =~= Seq::<([char; 3], Seq<DeriveV>)>::empty());
    }
    let n = tout.len();
    let mut r: Vec<EntreeExport> = Vec::new();
    let mut i: usize = 0;
    while i < n
        invariant
            n == tout@.len(),
            es == vue_entrees(tout@),
            0 <= i <= n,
            vue_exports(r@) =~= entrees_exportees(es.take(i as int)),
        decreases n - i,
    {
        let entree = &tout[i];
        proof {
            assert(es.take(i + 1).drop_last() =~= es.take(i as int));
            assert(es.take(i + 1).last() == es[i as int]);
            assert(es[i as int] == (entree.0, entree.1, entree.2@));
        }
        if entree.2.len() > 0 {
            let m = entree.2.len();
            let mut paires: Vec<(String, String)> = Vec::new();
            let mut j: usize = 0;
            while j < m
                invariant
                    m == entree.2@.len(),
                    0 <= j <= m,
                    paires@.len() == j,
                    forall|t: int|
                        0 <= t < j ==> (#[trigger] paires@[t]).0@ == entree.2@[t].mot@
                            && paires@[t].1@ == entree.2@[t].schema@,
                decreases m - j,
            {
                let d = &entree.2[j];
                paires.push((d.mot.clone(), d.schema.clone()));
                j = j + 1;
            }
            proof {
                assert(vue_paires(paires@) =~= vue_derives(entree.2@));
            }
            r.push((entree.0, paires));
        }
        proof {
            assert(vue_exports(r@) =~~= entrees_exportees(es.take(i + 1)));
        }
        i = i + 1;
    }
    proof {
        assert(es.take(n as int) =~= es);
        assert(vue_exports(r@) =~~= entrees_exportees(es));
    }
    r
}

/// Rebâtit l'index depuis un relevé : l'index est d'abord vidé, puis
/// chaque racine est insérée et ses paires rejouées dans l'ordre du
/// relevé.
pub fn importer_entrees(arbre: &mut Tree, entrees: &Vec<EntreeExport>)
    requires
        somme_paires(vue_exports(entrees@)) < u32::MAX,
    ensures
        final(arbre).bien_forme(),
        final(arbre)@ == carte_importation(
            Map::<Cle, Seq<DeriveV>>::empty(),
            vue_exports(entrees@),
        ),
{
    let ghost es = vue_exports(entrees@);
    let ghost total = somme_paires(es);
    let ghost but = carte_importation(Map::<Cle, Seq<DeriveV>>::empty(), es);
    *arbre = Tree::new();
    proof {
        assert(es.skip(0) =~= es);
    }
    let n = entrees.len();
    let mut i: usize = 0;
    while i < n
        invariant
            arbre.bien_forme(),
            n == entrees@.len(),
            n == es.len(),
            es == vue_exports(entrees@),
            total == somme_paires(es),
            total < u32::MAX,
            but == carte_importation(Map::<Cle, Seq<DeriveV>>::empty(), es),
            0 <= i <= n,
            somme_paires(es.skip(i as int)) <= total,
            but == carte_importation(arbre@, es.skip(i as int)),
            forall|k: Cle| #[trigger]
                arbre@.dom().contains(k) ==> arbre@[k].len() + somme_paires(es.skip(i as int))
                    <= total,
        decreases n - i,
    {
        let entree = &entrees[i];
        let ghost cle = cle_de(entree.0);
        let ghost ps = vue_paires(entree.1@);
        proof {
            assert(es.skip(i as int)[0] == es[i as int]);
            assert(es.skip(i as int).drop_first() =~= es.skip(i as int + 1));
            assert(es[i as int] == (entree.0, ps));
        }
        arbre.insert(entree.0);
        let m = entree.1.len();
        let mut j: usize = 0;
        proof {
            assert(ps.skip(0) =~= ps);
            assert(somme_paires(es.skip(i as int)) == ps.len() + somme_paires(
                es.skip(i as int + 1),
            ));
        }
        while j < m
            invariant
                arbre.bien_forme(),
                m == entree.1@.len(),
                m == ps.len(),
                ps == vue_paires(entree.1@),
                cle == cle_de(entree.0),
                total == somme_paires(es),
                total < u32::MAX,
                but == carte_importation(Map::<Cle, Seq<DeriveV>>::empty(), es),
                0 <= j <= m,
                (ps.len() - j) + somme_paires(es.skip(i as int + 1)) <= total,
                but == carte_importation(
                    carte_paires(arbre@, cle, ps.skip(j as int)),
                    es.skip(i as int + 1),
                ),
                forall|k: Cle| #[trigger]
                    arbre@.dom().contains(k) ==> arbre@[k].len() + (ps.len() - j) + somme_paires(
                        es.skip(i as int + 1),
                    ) <= total,
            decreases m - j,
        {
            let paire = &entree.1[j];
            proof {
                assert(ps.skip(j as int)[0] == ps[j as int]);
                assert(ps.skip(j as int).drop_first() =~= ps.skip(j as int + 1));
                assert(ps[j as int] == (paire.0@, paire.1@));
            }
            let _ = arbre.ajouter_derive(entree.0, paire.0.clone(), paire.1.clone());
            j = j + 1;
        }
        proof {
            assert(ps.skip(m as int) =~= Seq::<DeriveV>::empty());
        }
        i = i + 1;
    }
    proof {
        assert(es.skip(n as int) =~= Seq::<([char; 3], Seq<DeriveV>)>::empty());
    }
}

} // verus!
