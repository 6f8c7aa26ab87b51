use moteur_morpho::arbre::Tree;
use moteur_morpho::hashing::{Scheme, SchemeTable};
use moteur_morpho::morpho_analyzer::{
    generer_et_stocker, generer_et_stocker_derive, generer_famille, generer_mot, valider_et_stocker,
    valider_mot, valider_scheme,
};

fn schema(nom: &str) -> Scheme {
    Scheme {
        nom: nom.to_string(),
        pattern: nom.to_string(),
        description: String::new(),
    }
}

#[test]
fn generation_deterministe() {
    let racine = ['ك', 'ت', 'ب'];
    let un = generer_mot(racine, "فاعل");
    let deux = generer_mot(racine, "فاعل");
    assert_eq!(un, deux);
    assert_eq!(un, "كاتب");
}

#[test]
fn generation_gabarit_canonique() {
    // Le gabarit fait des trois symboles réservés dans l'ordre rend la
    // racine concaténée.
    let racine = ['ك', 'ت', 'ب'];
    assert_eq!(generer_mot(racine, "فعل"), "كتب");
    let latine = ['x', 'y', 'z'];
    assert_eq!(generer_mot(latine, "فعل"), "xyz");
}

#[test]
fn generation_copie_les_litteraux() {
    let racine = ['ك', 'ت', 'ب'];
    // م et و sont des littéraux, recopiés tels quels.
    assert_eq!(generer_mot(racine, "مفعول"), "مكتوب");
    // Un gabarit sans symbole réservé est recopié entier.
    assert_eq!(generer_mot(racine, "abc"), "abc");
    // Un gabarit vide rend le mot vide.
    assert_eq!(generer_mot(racine, ""), "");
}

#[test]
fn scenario_katab() {
    // Le scénario complet : racine (ك, ت, ب), schèmes فاعل et مفعول.
    let racine = ['ك', 'ت', 'ب'];
    let mut table = SchemeTable::new(31);
    assert!(table.insert("فاعل".to_string(), schema("فاعل")).is_ok());
    assert!(table.insert("مفعول".to_string(), schema("مفعول")).is_ok());
    assert_eq!(generer_mot(racine, "فاعل"), "كاتب");
    assert_eq!(generer_mot(racine, "مفعول"), "مكتوب");
    let (trouve, nom) = valider_mot("مكتوب", racine, &table);
    assert!(trouve);
    assert_eq!(nom.unwrap(), "مفعول");
    let (absent, rien) = valider_mot("غير", racine, &table);
    assert!(!absent);
    assert!(rien.is_none());
}

#[test]
fn validation_trouve_exactement_les_mots_engendres() {
    let racine = ['k', 't', 'b'];
    let mut table = SchemeTable::new(31);
    assert!(table.insert("s1".to_string(), schema("فaعbل")).is_ok());
    // Chaque mot de la famille est validé, et rend le nom du schème.
    for (nom, mot) in generer_famille(racine, &table) {
        let (trouve, lequel) = valider_mot(&mot, racine, &table);
        assert!(trouve);
        assert_eq!(lequel.unwrap(), nom);
    }
    // Un mot qu'aucun schème n'engendre est refusé.
    let (trouve, rien) = valider_mot("katb", racine, &table);
    assert!(!trouve);
    assert!(rien.is_none());
}

#[test]
fn famille_suit_la_table() {
    let racine = ['d', 'r', 's'];
    let mut table = SchemeTable::new(31);
    assert!(table.insert("a".to_string(), schema("فعل")).is_ok());
    assert!(table.insert("b".to_string(), schema("مفعل")).is_ok());
    let famille = generer_famille(racine, &table);
    assert_eq!(famille.len(), 2);
    for (nom, mot) in famille {
        assert_eq!(mot, generer_mot(racine, &nom));
    }
}

#[test]
fn stockage_de_toute_la_famille() {
    let racine = ['k', 't', 'b'];
    let mut arbre = Tree::new();
    arbre.insert(racine);
    let mut table = SchemeTable::new(31);
    assert!(table.insert("s1".to_string(), schema("فعل")).is_ok());
    assert!(table.insert("s2".to_string(), schema("مفعل")).is_ok());
    let compte = generer_et_stocker(&mut arbre, racine, &table);
    assert_eq!(compte, 2);
    assert!(arbre.contient_derive(racine, "ktb"));
    assert!(arbre.contient_derive(racine, "مktb"));
    // Rejouer ne stocke rien de neuf.
    assert_eq!(generer_et_stocker(&mut arbre, racine, &table), 0);
}

#[test]
fn stockage_compte_sans_les_doublons() {
    // Deux schèmes distincts qui engendrent le même mot : un seul dérivé
    // est rangé, et le compte vaut un de moins que le nombre de schèmes.
    let racine = ['k', 't', 'b'];
    let mut arbre = Tree::new();
    arbre.insert(racine);
    let mut table = SchemeTable::new(31);
    // Les clés diffèrent mais les noms engendrent le même mot.
    assert!(table.insert("c1".to_string(), schema("فعل")).is_ok());
    assert!(table.insert("c2".to_string(), schema("فعل")).is_ok());
    assert!(table.insert("c3".to_string(), schema("مفعل")).is_ok());
    let compte = generer_et_stocker(&mut arbre, racine, &table);
    assert_eq!(compte, 2);
    let noeud = arbre.chercher_noeud(racine).unwrap();
    assert_eq!(noeud.frequence, 2);
}

#[test]
fn validation_et_stockage() {
    let racine = ['k', 't', 'b'];
    let mut arbre = Tree::new();
    arbre.insert(racine);
    let mut table = SchemeTable::new(31);
    assert!(table.insert("s1".to_string(), schema("فعل")).is_ok());
    let (absent, rien) = valider_et_stocker(&mut arbre, "xyz", racine, &table);
    assert!(!absent);
    assert!(rien.is_none());
    assert_eq!(arbre.chercher_noeud(racine).unwrap().frequence, 0);
    let (trouve, nom) = valider_et_stocker(&mut arbre, "ktb", racine, &table);
    assert!(trouve);
    assert_eq!(nom.unwrap(), "فعل");
    assert!(arbre.contient_derive(racine, "ktb"));
    // Revalider le même mot est sans effet sur le compte.
    let (encore, _) = valider_et_stocker(&mut arbre, "ktb", racine, &table);
    assert!(encore);
    assert_eq!(arbre.chercher_noeud(racine).unwrap().frequence, 1);
}

#[test]
fn stockage_d_un_derive_unique() {
    let racine = ['k', 't', 'b'];
    let mut arbre = Tree::new();
    // La racine absente fait refuser l'enregistrement.
    assert!(!generer_et_stocker_derive(&mut arbre, racine, "فعل"));
    arbre.insert(racine);
    assert!(generer_et_stocker_derive(&mut arbre, racine, "فعل"));
    assert!(arbre.contient_derive(racine, "ktb"));
}

#[test]
fn schemes_recevables() {
    assert!(valider_scheme("فاعل"));
    assert!(valider_scheme("xxعxx"));
    assert!(valider_scheme("ل"));
    assert!(!valider_scheme("abc"));
    assert!(!valider_scheme(""));
}
