use moteur_morpho::arbre::Tree;
use moteur_morpho::arbre::morphologic_cmp;
use moteur_morpho::stockage::{exporter_entrees, importer_entrees};

fn racines_collectees(arbre: &Tree) -> Vec<([char; 3], u32, Vec<moteur_morpho::arbre::Derive>)> {
    let mut tout = Vec::new();
    arbre.collecter_racines(&mut tout);
    tout
}

fn ordre_strictement_croissant(arbre: &Tree) -> bool {
    let tout = racines_collectees(arbre);
    for i in 1..tout.len() {
        if tout[i - 1].0 >= tout[i].0 {
            return false;
        }
    }
    true
}

#[test]
fn comparaison_de_racines() {
    assert_eq!(morphologic_cmp(['a', 'b', 'c'], ['a', 'b', 'c']), 0);
    // La racine cherchée vient avant celle de l'arbre : -1.
    assert_eq!(morphologic_cmp(['b', 'a', 'a'], ['a', 'z', 'z']), -1);
    // La racine cherchée vient après : 1.
    assert_eq!(morphologic_cmp(['a', 'z', 'z'], ['b', 'a', 'a']), 1);
    // Le premier symbole qui diffère décide.
    assert_eq!(morphologic_cmp(['a', 'b', 'a'], ['a', 'b', 'b']), 1);
}

#[test]
fn inserer_puis_verifier() {
    // Chaque racine insérée se retrouve, aucune autre.
    let mut arbre = Tree::new();
    let presentes = [['k', 't', 'b'], ['d', 'r', 's'], ['f', 'h', 'm'], ['a', 'a', 'a']];
    for r in presentes {
        arbre.insert(r);
    }
    for r in presentes {
        assert!(arbre.verify(r));
    }
    assert!(!arbre.verify(['k', 't', 'a']));
    assert!(!arbre.verify(['z', 'z', 'z']));
    assert!(!arbre.verify(['a', 'a', 'b']));
}

#[test]
fn parcours_trie_sans_doublon() {
    let mut arbre = Tree::new();
    let racines = [
        ['m', 'b', 'a'],
        ['a', 'c', 'c'],
        ['z', 'a', 'a'],
        ['a', 'c', 'c'],
        ['m', 'b', 'a'],
        ['b', 'q', 'r'],
    ];
    for r in racines {
        arbre.insert(r);
    }
    let tout = racines_collectees(&arbre);
    assert_eq!(tout.len(), 4);
    assert!(ordre_strictement_croissant(&arbre));
}

#[test]
fn suppression_des_trois_cas() {
    let mut arbre = Tree::new();
    // Une forme qui donne des nœuds à zéro, un et deux enfants.
    let racines = [
        ['m', 'm', 'm'],
        ['d', 'd', 'd'],
        ['t', 't', 't'],
        ['b', 'b', 'b'],
        ['f', 'f', 'f'],
        ['p', 'p', 'p'],
        ['z', 'z', 'z'],
    ];
    for r in racines {
        arbre.insert(r);
    }
    // Feuille.
    assert!(arbre.delete(['b', 'b', 'b']));
    assert!(!arbre.verify(['b', 'b', 'b']));
    // Un seul enfant.
    assert!(arbre.delete(['d', 'd', 'd']));
    assert!(!arbre.verify(['d', 'd', 'd']));
    // Deux enfants : la racine de l'arbre elle-même.
    assert!(arbre.delete(['m', 'm', 'm']));
    assert!(!arbre.verify(['m', 'm', 'm']));
    // Les autres racines sont intactes, dans l'ordre.
    for r in [['t', 't', 't'], ['f', 'f', 'f'], ['p', 'p', 'p'], ['z', 'z', 'z']] {
        assert!(arbre.verify(r));
    }
    assert!(ordre_strictement_croissant(&arbre));
    assert_eq!(racines_collectees(&arbre).len(), 4);
}

#[test]
fn suppression_d_une_racine_absente() {
    let mut arbre = Tree::new();
    arbre.insert(['a', 'b', 'c']);
    let avant = racines_collectees(&arbre);
    assert!(!arbre.delete(['x', 'y', 'z']));
    let apres = racines_collectees(&arbre);
    assert_eq!(avant.len(), apres.len());
    assert!(arbre.verify(['a', 'b', 'c']));
}

#[test]
fn suppression_diminue_le_compte_de_un() {
    let mut arbre = Tree::new();
    let racines = [['c', 'c', 'c'], ['a', 'a', 'a'], ['e', 'e', 'e'], ['d', 'd', 'd']];
    for r in racines {
        arbre.insert(r);
    }
    assert_eq!(racines_collectees(&arbre).len(), 4);
    assert!(arbre.delete(['c', 'c', 'c']));
    assert_eq!(racines_collectees(&arbre).len(), 3);
}

#[test]
fn melange_aleatoire_garde_l_ordre() {
    // Cent suites mêlant insertions et suppressions, y compris de nœuds à
    // deux enfants ; l'ordre strict doit tenir après chaque opération.
    let alphabet = ['a', 'b', 'c', 'd', 'e'];
    let mut graine: u64 = 0x853c49e6748fea9b;
    for _ in 0..100 {
        let mut arbre = Tree::new();
        let mut miroir: Vec<[char; 3]> = Vec::new();
        for _ in 0..60 {
            graine = graine
                .wrapping_mul(6364136223846793005)
                .wrapping_add(1442695040888963407);
            let a = alphabet[(graine >> 33) as usize % 5];
            let b = alphabet[(graine >> 23) as usize % 5];
            let c = alphabet[(graine >> 13) as usize % 5];
            let racine = [a, b, c];
            let suppression = (graine >> 7) % 3 == 0;
            if suppression {
                let present = miroir.contains(&racine);
                assert_eq!(arbre.delete(racine), present);
                miroir.retain(|r| *r != racine);
            } else {
                arbre.insert(racine);
                if !miroir.contains(&racine) {
                    miroir.push(racine);
                }
            }
            assert!(ordre_strictement_croissant(&arbre));
            assert_eq!(racines_collectees(&arbre).len(), miroir.len());
            assert_eq!(arbre.verify(racine), miroir.contains(&racine));
        }
    }
}

#[test]
fn derives_ajout_doublon_et_retrait() {
    let mut arbre = Tree::new();
    let racine = ['k', 't', 'b'];
    // Sans la racine, rien n'est enregistré.
    assert!(!arbre.ajouter_derive(racine, "mot".to_string(), "s1".to_string()));
    arbre.insert(racine);
    assert!(arbre.ajouter_derive(racine, "mot".to_string(), "s1".to_string()));
    // Le même mot sous un autre schème est un doublon, ignoré sans erreur.
    assert!(arbre.ajouter_derive(racine, "mot".to_string(), "s2".to_string()));
    let noeud = arbre.chercher_noeud(racine).unwrap();
    assert_eq!(noeud.frequence, 1);
    assert_eq!(noeud.derives.len(), 1);
    assert_eq!(noeud.derives[0].schema, "s1");
    assert!(arbre.contient_derive(racine, "mot"));
    assert!(!arbre.contient_derive(racine, "autre"));
    // Retrait : présent puis absent.
    assert!(arbre.supprimer_derive(racine, "mot"));
    assert!(!arbre.supprimer_derive(racine, "mot"));
    let noeud = arbre.chercher_noeud(racine).unwrap();
    assert_eq!(noeud.frequence, 0);
}

#[test]
fn chargement_depuis_texte() {
    let mut arbre = Tree::new();
    // Deux lignes bonnes (dont une à recoller), une vide, une trop courte,
    // une trop longue, et un doublon compté mais coalescé.
    let texte = "k t b\n\nd r s\nx y\na b c d\nk t b";
    let compte = arbre.charger_depuis_texte(texte);
    assert_eq!(compte, 3);
    assert!(arbre.verify(['k', 't', 'b']));
    assert!(arbre.verify(['d', 'r', 's']));
    assert!(!arbre.verify(['x', 'y', 'x']));
    assert_eq!(racines_collectees(&arbre).len(), 2);
}

#[test]
fn chargement_texte_vide() {
    let mut arbre = Tree::new();
    assert_eq!(arbre.charger_depuis_texte(""), 0);
    assert_eq!(racines_collectees(&arbre).len(), 0);
}

#[test]
fn export_puis_import() {
    let mut arbre = Tree::new();
    let avec = ['k', 't', 'b'];
    let sans = ['d', 'r', 's'];
    arbre.insert(avec);
    arbre.insert(sans);
    assert!(arbre.ajouter_derive(avec, "katib".to_string(), "fa3il".to_string()));
    assert!(arbre.ajouter_derive(avec, "maktub".to_string(), "maf3ul".to_string()));
    let exporte = exporter_entrees(&arbre);
    // Seule la racine pourvue de dérivés est exportée.
    assert_eq!(exporte.len(), 1);
    assert_eq!(exporte[0].0, avec);
    assert_eq!(exporte[0].1.len(), 2);
    assert_eq!(exporte[0].1[0].0, "katib");
    assert_eq!(exporte[0].1[1].1, "maf3ul");

    let mut rebati = Tree::new();
    rebati.insert(['z', 'z', 'z']);
    importer_entrees(&mut rebati, &exporte);
    // L'import repart de zéro : l'ancien contenu disparaît.
    assert!(!rebati.verify(['z', 'z', 'z']));
    assert!(rebati.verify(avec));
    assert!(!rebati.verify(sans));
    assert!(rebati.contient_derive(avec, "katib"));
    assert!(rebati.contient_derive(avec, "maktub"));
    let noeud = rebati.chercher_noeud(avec).unwrap();
    assert_eq!(noeud.frequence, 2);
    assert_eq!(noeud.derives[0].mot, "katib");
    assert_eq!(noeud.derives[0].schema, "fa3il");
}

#[test]
fn chargement_au_format_arabe() {
    let mut arbre = Tree::new();
    let texte = "ك ت ب\nد ر س\n";
    assert_eq!(arbre.charger_depuis_texte(texte), 2);
    assert!(arbre.verify(['ك', 'ت', 'ب']));
    assert!(arbre.verify(['د', 'ر', 'س']));
}
