use moteur_morpho::hashing::{init_schemes, Scheme, SchemeTable};

fn schema(nom: &str) -> Scheme {
    Scheme {
        nom: nom.to_string(),
        pattern: format!("gabarit de {}", nom),
        description: format!("description de {}", nom),
    }
}

#[test]
fn insertion_puis_recherche() {
    let mut table = SchemeTable::new(31);
    assert!(table.insert("alpha".to_string(), schema("alpha")).is_ok());
    assert!(table.insert("beta".to_string(), schema("beta")).is_ok());
    let trouve = table.get("alpha").unwrap();
    assert_eq!(trouve.nom, "alpha");
    assert_eq!(trouve.description, "description de alpha");
    assert!(table.get("gamma").is_none());
    assert!(table.contains("beta"));
    assert!(!table.contains("gamma"));
}

#[test]
fn insertion_meme_cle_remplace() {
    let mut table = SchemeTable::new(31);
    assert!(table.insert("cle".to_string(), schema("un")).is_ok());
    assert!(table
        .insert(
            "cle".to_string(),
            Scheme {
                nom: "deux".to_string(),
                pattern: "p".to_string(),
                description: "d".to_string(),
            },
        )
        .is_ok());
    assert_eq!(table.get("cle").unwrap().nom, "deux");
    assert_eq!(table.get_all_schemes().len(), 1);
}

#[test]
fn suppression_et_pierre_tombale() {
    // Réinsérer après suppression réemploie la pierre tombale sans abîmer
    // les autres clés rangées entre-temps.
    let mut table = SchemeTable::new(5);
    assert!(table.insert("a".to_string(), schema("a")).is_ok());
    assert!(table.insert("b".to_string(), schema("b")).is_ok());
    assert!(table.insert("c".to_string(), schema("c")).is_ok());
    assert!(table.delete("b"));
    assert!(!table.delete("b"));
    assert!(table.get("b").is_none());
    assert!(table.get("a").is_some());
    assert!(table.get("c").is_some());
    assert!(table.insert("d".to_string(), schema("d")).is_ok());
    assert!(table.insert("b".to_string(), schema("b")).is_ok());
    for cle in ["a", "b", "c", "d"] {
        assert!(table.contains(cle), "cle perdue: {}", cle);
    }
}

#[test]
fn table_pleine_au_debordement() {
    // Sans suppression, la table accepte exactement sa capacité de clés
    // distinctes, puis signale la condition fatale sur l'insertion de trop.
    let mut table = SchemeTable::new(5);
    let cles = ["k1", "k2", "k3", "k4", "k5"];
    for cle in cles {
        assert!(table.insert(cle.to_string(), schema(cle)).is_ok());
    }
    assert!(table.insert("k6".to_string(), schema("k6")).is_err());
    // La table est restée intacte et une clé déjà là se remplace encore.
    for cle in cles {
        assert!(table.contains(cle));
    }
    assert!(!table.contains("k6"));
    assert!(table.insert("k3".to_string(), schema("bis")).is_ok());
    assert_eq!(table.get("k3").unwrap().nom, "bis");
    // Une suppression rouvre une place.
    assert!(table.delete("k1"));
    assert!(table.insert("k6".to_string(), schema("k6")).is_ok());
    assert!(table.contains("k6"));
}

#[test]
fn schemes_initiaux() {
    let table = init_schemes();
    assert_eq!(table.get_all_schemes().len(), 15);
    let participe = table.get("فاعل").unwrap();
    assert_eq!(participe.nom, "فاعل");
    assert_eq!(participe.description, "participe actif");
    let passif = table.get("مفعول").unwrap();
    assert_eq!(passif.pattern, "م-ف-ع-و-ل");
    // La clé de la forme III diffère de son nom.
    let forme3 = table.get("فاعل_III").unwrap();
    assert_eq!(forme3.nom, "فاعل");
    assert_eq!(forme3.description, "verbe forme III");
    assert!(table.get("inconnu").is_none());
}

#[test]
fn chaque_scheme_range_parait_une_fois() {
    let mut table = SchemeTable::new(31);
    let noms = ["un", "deux", "trois", "quatre"];
    for nom in noms {
        assert!(table.insert(nom.to_string(), schema(nom)).is_ok());
    }
    let tous = table.get_all_schemes();
    assert_eq!(tous.len(), 4);
    for nom in noms {
        assert_eq!(tous.iter().filter(|s| s.nom == nom).count(), 1);
    }
}

#[test]
fn plus_petite_capacite() {
    // Capacité 2 : le pas retombe toujours à 1.
    let mut table = SchemeTable::new(2);
    assert!(table.insert("x".to_string(), schema("x")).is_ok());
    assert!(table.insert("y".to_string(), schema("y")).is_ok());
    assert!(table.insert("z".to_string(), schema("z")).is_err());
    assert!(table.contains("x"));
    assert!(table.contains("y"));
}
