//! Arbre binaire de recherche des racines, avec les dérivés validés de
//! chaque racine.
//!
//! L'arbre est vu comme une application finie des clés (triplets de
//! symboles) vers la suite des dérivés enregistrés, dans l'ordre
//! d'insertion. L'arbre n'est pas rééquilibré : la hauteur peut être
//! linéaire, c'est un choix assumé.

use vstd::prelude::*;
use crate::{Cle, cle_de, cle_lt};

verus! {

/// Un dérivé validé : le mot et le nom du schéma qui l'a produit.
pub struct Derive {
    pub mot: String,
    pub schema: String,
}

impl Clone for Derive {
    fn clone(&self) -> (r: Self)
        ensures
            r == *self,
    {
        Derive { mot: self.mot.clone(), schema: self.schema.clone() }
    }
}

/// Vue d'un dérivé : les suites de symboles du mot et du schéma.
pub type DeriveV = (Seq<char>, Seq<char>);

/// Vue d'une entrée du parcours : racine, compteur, dérivés.
pub type EntreeV = ([char; 3], u32, Seq<Derive>);

/// La vue d'un vecteur d'entrées recopiées.
pub open spec fn vue_entrees(es: Seq<([char; 3], u32, Vec<Derive>)>) -> Seq<EntreeV> {
    es.map_values(|e: ([char; 3], u32, Vec<Derive>)| (e.0, e.1, e.2@))
}

/// La vue d'une liste de dérivés.
pub open spec fn vue_derives(ds: Seq<Derive>) -> Seq<DeriveV> {
    ds.map_values(|d: Derive| (d.mot@, d.schema@))
}

/// Un mot figure-t-il déjà parmi les dérivés ?
pub open spec fn a_mot(ds: Seq<DeriveV>, mot: Seq<char>) -> bool {
    exists|i: int| 0 <= i < ds.len() && ds[i].0 == mot
}

/// Les mots d'une liste de dérivés sont deux à deux distincts.
pub open spec fn mots_distincts(ds: Seq<DeriveV>) -> bool {
    forall|i: int, j: int| 0 <= i < j < ds.len() ==> ds[i].0 != ds[j].0
}

/// Un symbole d'espacement, au sens de l'espacement Unicode.
pub open spec fn est_blanc(c: char) -> bool {
    ||| c == ' '
    ||| c == '\t'
    ||| c == '\n'
    ||| c == '\r'
    ||| c == '\u{b}'
    ||| c == '\u{c}'
    ||| c == '\u{85}'
    ||| c == '\u{a0}'
    ||| c == '\u{1680}'
    ||| ('\u{2000}' <= c && c <= '\u{200a}')
    ||| c == '\u{2028}'
    ||| c == '\u{2029}'
    ||| c == '\u{202f}'
    ||| c == '\u{205f}'
    ||| c == '\u{3000}'
}

/// Teste l'espacement d'un symbole.
pub fn blanc(c: char) -> (r: bool)
    ensures
        r == est_blanc(c),
{
    c == ' ' || c == '\t' || c == '\n' || c == '\r' || c == '\u{b}' || c == '\u{c}'
        || c == '\u{85}' || c == '\u{a0}' || c == '\u{1680}' || ('\u{2000}' <= c && c
        <= '\u{200a}') || c == '\u{2028}' || c == '\u{2029}' || c == '\u{202f}' || c == '\u{205f}'
        || c == '\u{3000}'
}

/// Les symboles d'une ligne, l'espacement ôté.
pub open spec fn sans_blancs(ligne: Seq<char>) -> Seq<char> {
    ligne.filter(|c: char| !est_blanc(c))
}

/// Les lignes d'un texte, coupé aux sauts de ligne : `entame` est le début
/// déjà lu de la ligne courante, `reste` ce qui suit. Ce qui suit le
/// dernier saut de ligne ne compte que s'il n'est pas vide.
pub open spec fn lignes_apres(entame: Seq<char>, reste: Seq<char>) -> Seq<Seq<char>>
    decreases reste.len(),
{
    if reste.len() == 0 {
        if entame.len() == 0 {
            Seq::empty()
        } else {
            seq![entame]
        }
    } else if reste[0] == '\n' {
        seq![entame] + lignes_apres(Seq::empty(), reste.drop_first())
    } else {
        lignes_apres(entame.push(reste[0]), reste.drop_first())
    }
}

/// Les lignes d'un texte.
pub open spec fn lignes(s: Seq<char>) -> Seq<Seq<char>> {
    lignes_apres(Seq::empty(), s)
}

/// L'application après insertion d'une racine : une racine déjà présente
/// garde ses dérivés.
pub open spec fn carte_inseree(m: Map<Cle, Seq<DeriveV>>, k: Cle) -> Map<Cle, Seq<DeriveV>> {
    m.insert(
        k,
        if m.dom().contains(k) {
            m[k]
        } else {
            Seq::empty()
        },
    )
}

/// La clé d'une ligne retenue : ses trois symboles.
pub open spec fn cle_de_symboles(f: Seq<char>) -> Cle {
    (f[0], f[1], f[2])
}

/// Le chargement d'une suite de lignes : chaque ligne dont il reste
/// exactement trois symboles une fois l'espacement ôté est insérée et
/// comptée, les autres sont passées.
pub open spec fn chargement(m: Map<Cle, Seq<DeriveV>>, ls: Seq<Seq<char>>) -> (
    Map<Cle, Seq<DeriveV>>,
    nat,
)
    decreases ls.len(),
{
    if ls.len() == 0 {
        (m, 0)
    } else {
        let f = sans_blancs(ls[0]);
        if f.len() == 3 {
            let suite = chargement(carte_inseree(m, cle_de_symboles(f)), ls.drop_first());
            (suite.0, suite.1 + 1)
        } else {
            chargement(m, ls.drop_first())
        }
    }
}

/// Le chargement restant : `entame` porte les symboles non blancs déjà lus
/// de la ligne courante, `reste` le texte qui suit.
pub open spec fn chargement_apres(
    m: Map<Cle, Seq<DeriveV>>,
    entame: Seq<char>,
    reste: Seq<char>,
) -> (Map<Cle, Seq<DeriveV>>, nat)
    decreases reste.len(),
{
    if reste.len() == 0 {
        if entame.len() == 3 {
            (carte_inseree(m, cle_de_symboles(entame)), 1)
        } else {
            (m, 0)
        }
    } else if reste[0] == '\n' {
        let m2 = if entame.len() == 3 {
            carte_inseree(m, cle_de_symboles(entame))
        } else {
            m
        };
        let suite = chargement_apres(m2, Seq::empty(), reste.drop_first());
        if entame.len() == 3 {
            (suite.0, suite.1 + 1)
        } else {
            suite
        }
    } else if est_blanc(reste[0]) {
        chargement_apres(m, entame, reste.drop_first())
    } else {
        chargement_apres(m, entame.push(reste[0]), reste.drop_first())
    }
}

/// Ôter l'espacement commute avec l'ajout d'un symbole en queue.
pub proof fn lemma_sans_blancs_push(s: Seq<char>, c: char)
    ensures
        sans_blancs(s.push(c)) == if est_blanc(c) {
            sans_blancs(s)
        } else {
            sans_blancs(s).push(c)
        },
{
    reveal(Seq::<char>::filter);
    assert(s.push(c).drop_last() =~= s);
    assert(s.push(c).last() == c);
    if est_blanc(c) {
        assert(sans_blancs(s.push(c)) =~= sans_blancs(s));
    } else {
        assert(sans_blancs(s.push(c)) =~= sans_blancs(s).push(c));
    }
}

/// Une suite vide n'a pas de symbole à ôter.
pub proof fn lemma_sans_blancs_vide()
    ensures
        sans_blancs(Seq::<char>::empty()) == Seq::<char>::empty(),
{
    reveal(Seq::<char>::filter);
    assert(sans_blancs(Seq::<char>::empty()) =~= Seq::<char>::empty());
}

/// Le chargement restant est le chargement des lignes restantes, l'entame
/// de la ligne courante comprise.
pub proof fn lemma_chargement_apres(m: Map<Cle, Seq<DeriveV>>, entame: Seq<char>, reste: Seq<char>)
    requires
        sans_blancs(entame) == entame,
    ensures
        chargement_apres(m, entame, reste) == chargement(m, lignes_apres(entame, reste)),
    decreases reste.len(),
{
    if reste.len() == 0 {
        if entame.len() == 0 {
            assert(lignes_apres(entame, reste) =~= Seq::<Seq<char>>::empty());
            assert(chargement_apres(m, entame, reste) == chargement(
                m,
                lignes_apres(entame, reste),
            ));
        } else {
            let ls = lignes_apres(entame, reste);
            assert(ls =~= seq![entame]);
            assert(ls.len() == 1);
            assert(ls[0] == entame);
            assert(ls.drop_first() =~= Seq::<Seq<char>>::empty());
            assert(sans_blancs(ls[0]) == entame);
            if entame.len() == 3 {
                let m2 = carte_inseree(m, cle_de_symboles(entame));
                assert(chargement(m2, ls.drop_first()) == (m2, 0nat));
                assert(chargement(m, ls) == (m2, 1nat));
            } else {
                assert(chargement(m, ls.drop_first()) == (m, 0nat));
                assert(chargement(m, ls) == (m, 0nat));
            }
            assert(chargement_apres(m, entame, reste) == chargement(
                m,
                lignes_apres(entame, reste),
            ));
        }
    } else if reste[0] == '\n' {
        lemma_sans_blancs_vide();
        lemma_chargement_apres(
            if entame.len() == 3 {
                carte_inseree(m, cle_de_symboles(entame))
            } else {
                m
            },
            Seq::empty(),
            reste.drop_first(),
        );
        let ls = lignes_apres(entame, reste);
        assert(ls == seq![entame] + lignes_apres(Seq::empty(), reste.drop_first()));
        assert(ls[0] == entame);
        assert(ls.drop_first() =~= lignes_apres(Seq::empty(), reste.drop_first()));
        assert(chargement_apres(m, entame, reste) == chargement(m, lignes_apres(entame, reste)));
    } else if est_blanc(reste[0]) {
        lemma_sans_blancs_push(entame, reste[0]);
        lemma_chargement_apres(m, entame, reste.drop_first());
        assert(lignes_apres(entame, reste) == lignes_apres(
            entame.push(reste[0]),
            reste.drop_first(),
        ));
        // L'entame garde les blancs dans les lignes, mais leur chargement
        // les ôte : les deux entames donnent la même ligne filtrée.
        lemma_chargement_entames(m, entame, entame.push(reste[0]), reste.drop_first());
        assert(chargement_apres(m, entame, reste) == chargement(m, lignes_apres(entame, reste)));
    } else {
        lemma_sans_blancs_push(entame, reste[0]);
        lemma_chargement_apres(m, entame.push(reste[0]), reste.drop_first());
        assert(chargement_apres(m, entame, reste) == chargement(m, lignes_apres(entame, reste)));
    }
}

/// Deux entames dont les symboles non blancs coïncident chargent les
/// mêmes racines.
pub proof fn lemma_chargement_entames(
    m: Map<Cle, Seq<DeriveV>>,
    e1: Seq<char>,
    e2: Seq<char>,
    reste: Seq<char>,
)
    requires
        sans_blancs(e1) == sans_blancs(e2),
    ensures
        chargement(m, lignes_apres(e1, reste)) == chargement(m, lignes_apres(e2, reste)),
    decreases reste.len(),
{
    lemma_sans_blancs_vide();
    if reste.len() == 0 {
        if e1.len() == 0 && e2.len() == 0 {
        } else if e1.len() == 0 {
            assert(e1 =~= Seq::<char>::empty());
            assert(lignes_apres(e1, reste) =~= Seq::<Seq<char>>::empty());
            let ls2 = lignes_apres(e2, reste);
            assert(ls2 =~= seq![e2]);
            assert(ls2.drop_first() =~= Seq::<Seq<char>>::empty());
            assert(sans_blancs(e2).len() != 3);
        } else if e2.len() == 0 {
            assert(e2 =~= Seq::<char>::empty());
            assert(lignes_apres(e2, reste) =~= Seq::<Seq<char>>::empty());
            let ls1 = lignes_apres(e1, reste);
            assert(ls1 =~= seq![e1]);
            assert(ls1.drop_first() =~= Seq::<Seq<char>>::empty());
            assert(sans_blancs(e1).len() != 3);
        } else {
            let ls1 = lignes_apres(e1, reste);
            let ls2 = lignes_apres(e2, reste);
            assert(ls1 =~= seq![e1]);
            assert(ls2 =~= seq![e2]);
            assert(ls1.drop_first() =~= Seq::<Seq<char>>::empty());
            assert(ls2.drop_first() =~= Seq::<Seq<char>>::empty());
        }
    } else if reste[0] == '\n' {
        let ls1 = lignes_apres(e1, reste);
        let ls2 = lignes_apres(e2, reste);
        assert(ls1[0] == e1);
        assert(ls2[0] == e2);
        assert(ls1.drop_first() =~= lignes_apres(Seq::empty(), reste.drop_first()));
        assert(ls2.drop_first() =~= lignes_apres(Seq::empty(), reste.drop_first()));
    } else {
        lemma_sans_blancs_push(e1, reste[0]);
        lemma_sans_blancs_push(e2, reste[0]);
        lemma_chargement_entames(m, e1.push(reste[0]), e2.push(reste[0]), reste.drop_first());
    }
}

/// Le chargement retient au plus une racine par ligne.
pub proof fn lemma_chargement_compte(m: Map<Cle, Seq<DeriveV>>, ls: Seq<Seq<char>>)
    ensures
        chargement(m, ls).1 <= ls.len(),
    decreases ls.len(),
{
    if ls.len() != 0 {
        let f = sans_blancs(ls[0]);
        if f.len() == 3 {
            lemma_chargement_compte(carte_inseree(m, cle_de_symboles(f)), ls.drop_first());
        } else {
            lemma_chargement_compte(m, ls.drop_first());
        }
    }
}

/// Un texte n'a pas plus de lignes que de symboles, plus une.
pub proof fn lemma_lignes_bornees(entame: Seq<char>, reste: Seq<char>)
    ensures
        lignes_apres(entame, reste).len() <= reste.len() + 1,
    decreases reste.len(),
{
    if reste.len() != 0 {
        if reste[0] == '\n' {
            lemma_lignes_bornees(Seq::empty(), reste.drop_first());
        } else {
            lemma_lignes_bornees(entame.push(reste[0]), reste.drop_first());
        }
    }
}

/// L'application après une suite d'insertions de racines.
pub open spec fn carte_apres_insertions(m: Map<Cle, Seq<DeriveV>>, rs: Seq<[char; 3]>) -> Map<
    Cle,
    Seq<DeriveV>,
>
    decreases rs.len(),
{
    if rs.len() == 0 {
        m
    } else {
        carte_apres_insertions(carte_inseree(m, cle_de(rs[0])), rs.drop_first())
    }
}

/// Loi de l'insertion : après une suite d'insertions, une racine est
/// présente exactement quand elle a été insérée, ou l'était déjà. Sur
/// l'index parti de vide, `verify` répond donc vrai pour chaque racine
/// insérée, et faux pour toute autre.
pub proof fn lemma_racines_inserees(m: Map<Cle, Seq<DeriveV>>, rs: Seq<[char; 3]>)
    ensures
        forall|k: Cle| #[trigger]
            carte_apres_insertions(m, rs).dom().contains(k) <==> (m.dom().contains(k)
                || exists|i: int| 0 <= i < rs.len() && cle_de(#[trigger] rs[i]) == k),
    decreases rs.len(),
{
    if rs.len() > 0 {
        let k0 = cle_de(rs[0]);
        let m2 = carte_inseree(m, k0);
        let reste = rs.drop_first();
        lemma_racines_inserees(m2, reste);
        assert(forall|i: int| 0 <= i < reste.len() ==> #[trigger] reste[i] == rs[i + 1]);
        assert forall|k: Cle| #[trigger]
            carte_apres_insertions(m, rs).dom().contains(k) <==> (m.dom().contains(k)
                || exists|i: int| 0 <= i < rs.len() && cle_de(#[trigger] rs[i]) == k) by {
            assert(carte_apres_insertions(m, rs) == carte_apres_insertions(m2, reste));
            assert(carte_apres_insertions(m2, reste).dom().contains(k) <==> (m2.dom().contains(k)
                || exists|i: int| 0 <= i < reste.len() && cle_de(#[trigger] reste[i]) == k));
            if carte_apres_insertions(m, rs).dom().contains(k) {
                if m2.dom().contains(k) {
                    if k == k0 {
                        assert(cle_de(rs[0]) == k);
                    }
                } else {
                    let i = choose|i: int|
                        0 <= i < reste.len() && cle_de(#[trigger] reste[i]) == k;
                    assert(cle_de(rs[i + 1]) == k);
                }
            }
            if m.dom().contains(k) {
                assert(m2.dom().contains(k));
            }
            if exists|i: int| 0 <= i < rs.len() && cle_de(#[trigger] rs[i]) == k {
                let i = choose|i: int| 0 <= i < rs.len() && cle_de(#[trigger] rs[i]) == k;
                if i == 0 {
                    assert(m2.dom().contains(k));
                } else {
                    assert(cle_de(reste[i - 1]) == k);
                }
            }
        }
    }
}

/// Compare deux racines symbole par symbole : 0 si égales, -1 si la racine
/// cherchée vient avant celle de l'arbre, 1 si elle vient après.
pub fn morphologic_cmp(tree_racine: [char; 3], racine: [char; 3]) -> (r: i8)
    ensures
        r == 0 <==> cle_de(tree_racine) == cle_de(racine),
        r == -1 <==> cle_lt(cle_de(racine), cle_de(tree_racine)),
        r == 1 <==> cle_lt(cle_de(tree_racine), cle_de(racine)),
{
    let mut i: usize = 0;
    while i < 3
        invariant
            0 <= i <= 3,
            forall|j: int| 0 <= j < i ==> tree_racine[j] == racine[j],
        decreases 3 - i,
    {
        if tree_racine[i] == racine[i] {
            i = i + 1;
        } else {
            proof {
                assert(i >= 1 ==> tree_racine[0] == racine[0]);
                assert(i >= 2 ==> tree_racine[1] == racine[1]);
            }
            if tree_racine[i] > racine[i] {
                return -1;
            } else {
                return 1;
            }
        }
    }
    0
}

/// Un nœud de l'arbre : une racine, ses dérivés validés, et les deux
/// sous-arbres.
pub struct RacineNode {
    pub racine: [char; 3],
    pub derives: Vec<Derive>,
    pub frequence: u32,
    pub left: Option<Box<RacineNode>>,
    pub right: Option<Box<RacineNode>>,
}

/// L'arbre des racines ; vide quand il n'a pas de nœud.
pub struct Tree {
    pub racine: Option<Box<RacineNode>>,
}

impl RacineNode {
    /// L'application représentée par un sous-arbre optionnel.
    pub open spec fn carte_opt(node: Option<Box<RacineNode>>) -> Map<Cle, Seq<DeriveV>>
        decreases node,
    {
        match node {
            None => Map::empty(),
            Some(n) => n.carte(),
        }
    }

    /// L'application représentée par le sous-arbre enraciné ici.
    pub open spec fn carte(self) -> Map<Cle, Seq<DeriveV>>
        decreases self,
    {
        Self::carte_opt(self.left).union_prefer_right(Self::carte_opt(self.right)).insert(
            cle_de(self.racine),
            vue_derives(self.derives@),
        )
    }

    /// La liste des dérivés du nœud est cohérente : compteur exact et
    /// mots deux à deux distincts.
    pub open spec fn derives_ok(self) -> bool {
        &&& self.frequence == self.derives@.len()
        &&& mots_distincts(vue_derives(self.derives@))
    }

    /// Bonne formation d'un sous-arbre optionnel.
    pub open spec fn bf_opt(node: Option<Box<RacineNode>>) -> bool
        decreases node,
    {
        match node {
            None => true,
            Some(n) => n.bien_forme(),
        }
    }

    /// Bonne formation : ordre strict des clés et cohérence des dérivés,
    /// récursivement.
    pub open spec fn bien_forme(self) -> bool
        decreases self,
    {
        &&& self.derives_ok()
        &&& forall|k: Cle| #[trigger]
            Self::carte_opt(self.left).dom().contains(k) ==> cle_lt(k, cle_de(self.racine))
        &&& forall|k: Cle| #[trigger]
            Self::carte_opt(self.right).dom().contains(k) ==> cle_lt(cle_de(self.racine), k)
        &&& Self::bf_opt(self.left)
        &&& Self::bf_opt(self.right)
    }

    /// Crée un nœud isolé, sans dérivé ni enfant.
    pub fn new(racine: [char; 3]) -> (n: Self)
        ensures
            n.bien_forme(),
            n.carte() == Map::<Cle, Seq<DeriveV>>::empty().insert(cle_de(racine), Seq::empty()),
            n.racine == racine,
            n.derives@.len() == 0,
            n.frequence == 0,
    {
        let n = RacineNode {
            racine,
            derives: Vec::new(),
            frequence: 0,
            left: None,
            right: None,
        };
        proof {
            assert(vue_derives(n.derives@) =~= Seq::<DeriveV>::empty());
            assert(n.carte() =~= Map::<Cle, Seq<DeriveV>>::empty().insert(
                cle_de(racine),
                Seq::empty(),
            ));
        }
        n
    }

    /// La racine cherchée est-elle dans ce sous-arbre ?
    pub fn verify_node(&self, ch: [char; 3]) -> (r: bool)
        requires
            self.bien_forme(),
        ensures
            r == self.carte().dom().contains(cle_de(ch)),
        decreases *self,
    {
        let cmp = morphologic_cmp(self.racine, ch);
        if cmp == 0 {
            true
        } else if cmp == -1 {
            proof {
                assert(!Self::carte_opt(self.right).dom().contains(cle_de(ch)));
            }
            match &self.left {
                None => false,
                Some(n) => n.verify_node(ch),
            }
        } else {
            proof {
                assert(!Self::carte_opt(self.left).dom().contains(cle_de(ch)));
            }
            match &self.right {
                None => false,
                Some(n) => n.verify_node(ch),
            }
        }
    }

    /// Insère une racine dans un sous-arbre optionnel ; les doublons sont
    /// ignorés sans rien changer.
    fn inserer_opt(node: &mut Option<Box<RacineNode>>, ch: [char; 3])
        requires
            Self::bf_opt(*old(node)),
        ensures
            Self::bf_opt(*final(node)),
            Self::carte_opt(*final(node)) =~= Self::carte_opt(*old(node)).insert(
                cle_de(ch),
                if Self::carte_opt(*old(node)).dom().contains(cle_de(ch)) {
                    Self::carte_opt(*old(node))[cle_de(ch)]
                } else {
                    Seq::empty()
                },
            ),
        decreases *old(node),
    {
        match node.take() {
            None => {
                *node = Some(Box::new(RacineNode::new(ch)));
            },
            Some(mut boite) => {
                (&mut *boite).insert_node(ch);
                *node = Some(boite);
            },
        }
    }

    /// Ajoute un dérivé à ce nœud ; un mot déjà présent est ignoré
    /// (idempotence voulue). Rend vrai si le dérivé est nouveau.
    pub fn ajouter_derive(&mut self, mot: String, schema: String) -> (ajoute: bool)
        requires
            old(self).derives_ok(),
            old(self).derives@.len() < u32::MAX,
        ensures
            final(self).derives_ok(),
            ajoute == !a_mot(vue_derives(old(self).derives@), mot@),
            vue_derives(final(self).derives@) == if ajoute {
                vue_derives(old(self).derives@).push((mot@, schema@))
            } else {
                vue_derives(old(self).derives@)
            },
            final(self).racine == old(self).racine,
            final(self).left == old(self).left,
            final(self).right == old(self).right,
    {
        let n = self.derives.len();
        let mut i: usize = 0;
        while i < n
            invariant
                *self == *old(self),
                old(self).derives_ok(),
                old(self).derives@.len() < u32::MAX,
                n == self.derives@.len(),
                0 <= i <= n,
                forall|j: int| 0 <= j < i ==> self.derives@[j].mot@ != mot@,
            decreases n - i,
        {
            if self.derives[i].mot == mot {
                proof {
                    assert(vue_derives(self.derives@)[i as int].0 == mot@);
                }
                return false;
            }
            i = i + 1;
        }
        proof {
            assert(!a_mot(vue_derives(self.derives@), mot@));
        }
        self.derives.push(Derive { mot, schema });
        self.frequence = self.frequence + 1;
        proof {
            assert(vue_derives(self.derives@) =~= vue_derives(old(self).derives@).push(
                (mot@, schema@),
            ));
        }
        true
    }

    /// Retire le dérivé portant ce mot, s'il existe ; rend vrai si un
    /// dérivé a été retiré.
    pub fn supprimer_derive(&mut self, mot: &str) -> (trouve: bool)
        requires
            old(self).derives_ok(),
        ensures
            final(self).derives_ok(),
            trouve == a_mot(vue_derives(old(self).derives@), mot@),
            !trouve ==> *final(self) == *old(self),
            trouve ==> exists|i: int|
                0 <= i < old(self).derives@.len() && old(self).derives@[i].mot@ == mot@
                    && vue_derives(final(self).derives@) == vue_derives(
                    old(self).derives@,
                ).remove(i),
            final(self).racine == old(self).racine,
            final(self).left == old(self).left,
            final(self).right == old(self).right,
    {
        let n = self.derives.len();
        let mut i: usize = 0;
        while i < n
            invariant
                *self == *old(self),
                old(self).derives_ok(),
                n == self.derives@.len(),
                0 <= i <= n,
                forall|j: int| 0 <= j < i ==> self.derives@[j].mot@ != mot@,
            decreases n - i,
        {
            if crate::texte::str_egal(self.derives[i].mot.as_str(), mot) {
                proof {
                    assert(vue_derives(self.derives@)[i as int].0 == mot@);
                }
                self.derives.remove(i);
                self.frequence = self.frequence - 1;
                proof {
                    let anciens = vue_derives(old(self).derives@);
                    assert(vue_derives(self.derives@) =~= anciens.remove(i as int));
                    assert forall|a: int, b: int|
                        0 <= a < b < anciens.remove(i as int).len() implies anciens.remove(
                        i as int,
                    )[a].0 != anciens.remove(i as int)[b].0 by {
                        let a0 = if a < i { a } else { a + 1 };
                        let b0 = if b < i { b } else { b + 1 };
                        assert(anciens.remove(i as int)[a] == anciens[a0]);
                        assert(anciens.remove(i as int)[b] == anciens[b0]);
                    }
                }
                return true;
            }
            i = i + 1;
        }
        proof {
            assert(!a_mot(vue_derives(self.derives@), mot@));
        }
        false
    }

    /// Le mot figure-t-il parmi les dérivés de ce nœud ?
    pub fn contient_mot(&self, mot: &str) -> (r: bool)
        ensures
            r == a_mot(vue_derives(self.derives@), mot@),
    {
        let n = self.derives.len();
        let mut i: usize = 0;
        while i < n
            invariant
                n == self.derives@.len(),
                0 <= i <= n,
                forall|j: int| 0 <= j < i ==> self.derives@[j].mot@ != mot@,
            decreases n - i,
        {
            if crate::texte::str_egal(self.derives[i].mot.as_str(), mot) {
                proof {
                    assert(vue_derives(self.derives@)[i as int].0 == mot@);
                }
                return true;
            }
            i = i + 1;
        }
        false
    }

    /// Cherche le nœud d'une racine dans ce sous-arbre.
    pub fn chercher(&self, ch: [char; 3]) -> (r: Option<&RacineNode>)
        requires
            self.bien_forme(),
        ensures
            r is Some <==> self.carte().dom().contains(cle_de(ch)),
            r is Some ==> {
                &&& cle_de(r.unwrap().racine) == cle_de(ch)
                &&& vue_derives(r.unwrap().derives@) == self.carte()[cle_de(ch)]
                &&& r.unwrap().derives_ok()
            },
        decreases *self,
    {
        let cmp = morphologic_cmp(self.racine, ch);
        if cmp == 0 {
            proof {
                assert(!Self::carte_opt(self.left).dom().contains(cle_de(ch)));
                assert(!Self::carte_opt(self.right).dom().contains(cle_de(ch)));
            }
            Some(self)
        } else if cmp == -1 {
            proof {
                assert(!Self::carte_opt(self.right).dom().contains(cle_de(ch)));
            }
            match &self.left {
                None => None,
                Some(n) => n.chercher(ch),
            }
        } else {
            proof {
                assert(!Self::carte_opt(self.left).dom().contains(cle_de(ch)));
            }
            match &self.right {
                None => None,
                Some(n) => n.chercher(ch),
            }
        }
    }

    /// Ajoute un dérivé à la racine donnée d'un sous-arbre optionnel.
    /// Rend (racine trouvée, dérivé nouveau).
    fn ajouter_derive_opt(
        node: &mut Option<Box<RacineNode>>,
        ch: [char; 3],
        mot: String,
        schema: String,
    ) -> (r: (bool, bool))
        requires
            Self::bf_opt(*old(node)),
            Self::carte_opt(*old(node)).dom().contains(cle_de(ch)) ==> Self::carte_opt(
                *old(node),
            )[cle_de(ch)].len() < u32::MAX,
        ensures
            Self::bf_opt(*final(node)),
            r.0 == Self::carte_opt(*old(node)).dom().contains(cle_de(ch)),
            r.1 == (r.0 && !a_mot(Self::carte_opt(*old(node))[cle_de(ch)], mot@)),
            Self::carte_opt(*final(node)) =~~= if r.1 {
                Self::carte_opt(*old(node)).insert(
                    cle_de(ch),
                    Self::carte_opt(*old(node))[cle_de(ch)].push((mot@, schema@)),
                )
            } else {
                Self::carte_opt(*old(node))
            },
        decreases *old(node),
    {
        match node.take() {
            None => (false, false),
            Some(mut boite) => {
                let cmp = morphologic_cmp(boite.racine, ch);
                let r: (bool, bool);
                if cmp == 0 {
                    proof {
                        assert(!Self::carte_opt(boite.left).dom().contains(cle_de(ch)));
                        assert(!Self::carte_opt(boite.right).dom().contains(cle_de(ch)));
                    }
                    let ajoute = (&mut *boite).ajouter_derive(mot, schema);
                    r = (true, ajoute);
                } else if cmp == -1 {
                    proof {
                        assert(!Self::carte_opt(boite.right).dom().contains(cle_de(ch)));
                    }
                    r = Self::ajouter_derive_opt(&mut boite.left, ch, mot, schema);
                } else {
                    proof {
                        assert(!Self::carte_opt(boite.left).dom().contains(cle_de(ch)));
                    }
                    r = Self::ajouter_derive_opt(&mut boite.right, ch, mot, schema);
                }
                *node = Some(boite);
                r
            },
        }
    }

    /// Retire un dérivé de la racine donnée d'un sous-arbre optionnel.
    fn supprimer_derive_opt(node: &mut Option<Box<RacineNode>>, ch: [char; 3], mot: &str) -> (r:
        bool)
        requires
            Self::bf_opt(*old(node)),
        ensures
            Self::bf_opt(*final(node)),
            r == (Self::carte_opt(*old(node)).dom().contains(cle_de(ch)) && a_mot(
                Self::carte_opt(*old(node))[cle_de(ch)],
                mot@,
            )),
            !r ==> Self::carte_opt(*final(node)) == Self::carte_opt(*old(node)),
            r ==> exists|i: int|
                {
                    &&& 0 <= i < Self::carte_opt(*old(node))[cle_de(ch)].len()
                    &&& Self::carte_opt(*old(node))[cle_de(ch)][i].0 == mot@
                    &&& Self::carte_opt(*final(node)) =~~= Self::carte_opt(*old(node)).insert(
                        cle_de(ch),
                        Self::carte_opt(*old(node))[cle_de(ch)].remove(i),
                    )
                },
        decreases *old(node),
    {
        match node.take() {
            None => false,
            Some(mut boite) => {
                let cmp = morphologic_cmp(boite.racine, ch);
                let r: bool;
                if cmp == 0 {
                    proof {
                        assert(!Self::carte_opt(boite.left).dom().contains(cle_de(ch)));
                        assert(!Self::carte_opt(boite.right).dom().contains(cle_de(ch)));
                    }
                    r = (&mut *boite).supprimer_derive(mot);
                } else if cmp == -1 {
                    proof {
                        assert(!Self::carte_opt(boite.right).dom().contains(cle_de(ch)));
                    }
                    r = Self::supprimer_derive_opt(&mut boite.left, ch, mot);
                } else {
                    proof {
                        assert(!Self::carte_opt(boite.left).dom().contains(cle_de(ch)));
                    }
                    r = Self::supprimer_derive_opt(&mut boite.right, ch, mot);
                }
                *node = Some(boite);
                r
            },
        }
    }

    /// Les entrées d'un sous-arbre optionnel, dans l'ordre croissant des
    /// racines : (racine, compteur, dérivés).
    pub open spec fn entrees_opt(node: Option<Box<RacineNode>>) -> Seq<EntreeV>
        decreases node,
    {
        match node {
            None => Seq::empty(),
            Some(n) => n.entrees(),
        }
    }

    /// Les entrées du sous-arbre enraciné ici : sous-arbre gauche, nœud,
    /// sous-arbre droit.
    pub open spec fn entrees(self) -> Seq<EntreeV>
        decreases self,
    {
        Self::entrees_opt(self.left) + seq![(self.racine, self.frequence, self.derives@)]
            + Self::entrees_opt(self.right)
    }

    /// Le parcours en ordre d'un sous-arbre bien formé donne des racines
    /// strictement croissantes, exactement celles de l'application, chacune
    /// avec ses dérivés et leur nombre.
    pub proof fn lemma_entrees_opt_ordonnees(node: Option<Box<RacineNode>>)
        requires
            Self::bf_opt(node),
        ensures
            forall|i: int, j: int|
                0 <= i < j < Self::entrees_opt(node).len() ==> cle_lt(
                    cle_de(Self::entrees_opt(node)[i].0),
                    cle_de(Self::entrees_opt(node)[j].0),
                ),
            forall|i: int|
                0 <= i < Self::entrees_opt(node).len() ==> {
                    let e = #[trigger] Self::entrees_opt(node)[i];
                    &&& Self::carte_opt(node).dom().contains(cle_de(e.0))
                    &&& Self::carte_opt(node)[cle_de(e.0)] == vue_derives(e.2)
                    &&& e.1 == e.2.len()
                },
            forall|k: Cle| #[trigger]
                Self::carte_opt(node).dom().contains(k) ==> exists|i: int|
                    0 <= i < Self::entrees_opt(node).len() && cle_de(
                        #[trigger] Self::entrees_opt(node)[i].0,
                    ) == k,
        decreases node,
    {
        match node {
            None => {},
            Some(n) => {
                Self::lemma_entrees_opt_ordonnees(n.left);
                Self::lemma_entrees_opt_ordonnees(n.right);
                let eg = Self::entrees_opt(n.left);
                let ed = Self::entrees_opt(n.right);
                let es = Self::entrees_opt(node);
                let milieu = (n.racine, n.frequence, n.derives@);
                assert(es =~= eg + seq![milieu] + ed);
                assert forall|i: int| 0 <= i < es.len() implies {
                    let e = #[trigger] es[i];
                    &&& Self::carte_opt(node).dom().contains(cle_de(e.0))
                    &&& Self::carte_opt(node)[cle_de(e.0)] == vue_derives(e.2)
                    &&& e.1 == e.2.len()
                } by {
                    if i < eg.len() {
                        assert(es[i] == eg[i]);
                        let k = cle_de(eg[i].0);
                        assert(Self::carte_opt(n.left).dom().contains(k));
                        assert(cle_lt(k, cle_de(n.racine)));
                        assert(!Self::carte_opt(n.right).dom().contains(k));
                        assert(Self::carte_opt(node)[k] == Self::carte_opt(n.left)[k]);
                    } else if i == eg.len() {
                        assert(es[i] == milieu);
                        assert(!Self::carte_opt(n.left).dom().contains(cle_de(n.racine)));
                        assert(!Self::carte_opt(n.right).dom().contains(cle_de(n.racine)));
                        assert(Self::carte_opt(node)[cle_de(n.racine)] == vue_derives(n.derives@));
                    } else {
                        assert(es[i] == ed[i - eg.len() - 1]);
                        let k = cle_de(ed[i - eg.len() - 1].0);
                        assert(Self::carte_opt(n.right).dom().contains(k));
                        assert(cle_lt(cle_de(n.racine), k));
                        assert(k != cle_de(n.racine));
                        assert(Self::carte_opt(node)[k] == Self::carte_opt(n.right)[k]);
                    }
                }
                assert forall|i: int, j: int| 0 <= i < j < es.len() implies cle_lt(
                    cle_de(es[i].0),
                    cle_de(es[j].0),
                ) by {
                    if i < eg.len() {
                        assert(Self::carte_opt(n.left).dom().contains(cle_de(eg[i].0)));
                    }
                    if j > eg.len() {
                        let kd = cle_de(ed[j - eg.len() - 1].0);
                        assert(Self::carte_opt(n.right).dom().contains(kd));
                    }
                }
                assert forall|k: Cle| #[trigger]
                    Self::carte_opt(node).dom().contains(k) implies exists|i: int|
                    0 <= i < es.len() && cle_de(#[trigger] es[i].0) == k by {
                    if k == cle_de(n.racine) {
                        assert(cle_de(es[eg.len() as int].0) == k);
                    } else if Self::carte_opt(n.left).dom().contains(k) {
                        let i = choose|i: int|
                            0 <= i < eg.len() && cle_de(#[trigger] eg[i].0) == k;
                        assert(cle_de(es[i].0) == k);
                    } else {
                        assert(Self::carte_opt(n.right).dom().contains(k));
                        let i = choose|i: int|
                            0 <= i < ed.len() && cle_de(#[trigger] ed[i].0) == k;
                        assert(cle_de(es[i + eg.len() + 1].0) == k);
                    }
                }
            },
        }
    }

    /// Recopie les entrées du sous-arbre, en ordre, à la suite du vecteur.
    pub fn collecter_racines_node(&self, resultat: &mut Vec<([char; 3], u32, Vec<Derive>)>)
        ensures
            vue_entrees(final(resultat)@) == vue_entrees(old(resultat)@) + self.entrees(),
        decreases *self,
    {
        let ghost v0 = resultat@;
        if let Some(gauche) = &self.left {
            gauche.collecter_racines_node(resultat);
        }
        let ghost v1 = resultat@;
        proof {
            assert(vue_entrees(v1) == vue_entrees(v0) + Self::entrees_opt(self.left));
        }
        let d = self.derives.clone();
        proof {
            assert forall|i: int| 0 <= i < d@.len() implies d@[i] == self.derives@[i] by {
                assert(cloned::<Derive>(self.derives@[i], d@[i]));
            }
            assert(d@ =~= self.derives@);
        }
        resultat.push((self.racine, self.frequence, d));
        let ghost v2 = resultat@;
        proof {
            assert(vue_entrees(v2) =~~= vue_entrees(v1).push(
                (self.racine, self.frequence, self.derives@),
            ));
        }
        if let Some(droite) = &self.right {
            droite.collecter_racines_node(resultat);
        }
        proof {
            assert(vue_entrees(resultat@) == vue_entrees(v2) + Self::entrees_opt(self.right));
            assert(vue_entrees(resultat@) =~~= vue_entrees(v0) + self.entrees());
        }
    }

    /// Le domaine de l'application d'un sous-arbre est fini.
    pub proof fn lemma_carte_opt_finie(node: Option<Box<RacineNode>>)
        ensures
            RacineNode::carte_opt(node).dom().finite(),
        decreases node,
    {
        match node {
            None => {
                assert(RacineNode::carte_opt(node).dom() =~= Set::<Cle>::empty());
            },
            Some(n) => {
                Self::lemma_carte_opt_finie(n.left);
                Self::lemma_carte_opt_finie(n.right);
                let gauche = Self::carte_opt(n.left);
                let droite = Self::carte_opt(n.right);
                assert(gauche.union_prefer_right(droite).dom() =~= gauche.dom() + droite.dom());
                assert(n.carte().dom() =~= gauche.dom().union(droite.dom()).insert(
                    cle_de(n.racine),
                ));
            },
        }
    }

    /// Détache le nœud minimal d'un sous-arbre non vide et rend son
    /// contenu : racine, dérivés, compteur.
    fn extraire_min(node: &mut Option<Box<RacineNode>>) -> (min: ([char; 3], Vec<Derive>, u32))
        requires
            old(node).is_some(),
            Self::bf_opt(*old(node)),
        ensures
            Self::bf_opt(*final(node)),
            Self::carte_opt(*old(node)).dom().contains(cle_de(min.0)),
            Self::carte_opt(*old(node))[cle_de(min.0)] == vue_derives(min.1@),
            min.2 == min.1@.len(),
            mots_distincts(vue_derives(min.1@)),
            Self::carte_opt(*final(node)) =~= Self::carte_opt(*old(node)).remove(cle_de(min.0)),
            forall|k: Cle|
                Self::carte_opt(*old(node)).dom().contains(k) && k != cle_de(min.0) ==> cle_lt(
                    cle_de(min.0),
                    k,
                ),
        decreases *old(node),
    {
        let mut boite = node.take().unwrap();
        if boite.left.is_none() {
            proof {
                assert(Self::carte_opt(boite.left) =~= Map::<Cle, Seq<DeriveV>>::empty());
                assert(!Self::carte_opt(boite.right).dom().contains(cle_de(boite.racine)));
            }
            let RacineNode { racine, derives, frequence, left: _, right } = *boite;
            *node = right;
            (racine, derives, frequence)
        } else {
            let min = Self::extraire_min(&mut boite.left);
            proof {
                assert(!Self::carte_opt(boite.right).dom().contains(cle_de(min.0)));
                assert(cle_de(boite.racine) != cle_de(min.0));
            }
            *node = Some(boite);
            min
        }
    }

    /// Supprime une racine d'un sous-arbre optionnel ; rend vrai si un
    /// nœud a été trouvé et retiré.
    fn supprimer_opt(node: &mut Option<Box<RacineNode>>, ch: [char; 3]) -> (trouve: bool)
        requires
            Self::bf_opt(*old(node)),
        ensures
            Self::bf_opt(*final(node)),
            Self::carte_opt(*final(node)) =~= Self::carte_opt(*old(node)).remove(cle_de(ch)),
            trouve == Self::carte_opt(*old(node)).dom().contains(cle_de(ch)),
        decreases *old(node),
    {
        match node.take() {
            None => false,
            Some(mut boite) => {
                let cmp = morphologic_cmp(boite.racine, ch);
                if cmp == 0 {
                    proof {
                        assert(!Self::carte_opt(boite.left).dom().contains(cle_de(ch)));
                        assert(!Self::carte_opt(boite.right).dom().contains(cle_de(ch)));
                    }
                    if boite.left.is_none() {
                        *node = boite.right.take();
                    } else if boite.right.is_none() {
                        *node = boite.left.take();
                    } else {
                        // Deux enfants : le successeur (minimum du
                        // sous-arbre droit) prend la place du nœud.
                        let min = Self::extraire_min(&mut boite.right);
                        boite.racine = min.0;
                        boite.derives = min.1;
                        boite.frequence = min.2;
                        *node = Some(boite);
                    }
                    true
                } else if cmp == -1 {
                    proof {
                        assert(!Self::carte_opt(boite.right).dom().contains(cle_de(ch)));
                    }
                    let trouve = Self::supprimer_opt(&mut boite.left, ch);
                    *node = Some(boite);
                    trouve
                } else {
                    proof {
                        assert(!Self::carte_opt(boite.left).dom().contains(cle_de(ch)));
                    }
                    let trouve = Self::supprimer_opt(&mut boite.right, ch);
                    *node = Some(boite);
                    trouve
                }
            },
        }
    }

    /// Insère une racine sous ce nœud ; sans effet si elle y est déjà.
    pub fn insert_node(&mut self, ch: [char; 3])
        requires
            old(self).bien_forme(),
        ensures
            final(self).bien_forme(),
            final(self).carte() =~= old(self).carte().insert(
                cle_de(ch),
                if old(self).carte().dom().contains(cle_de(ch)) {
                    old(self).carte()[cle_de(ch)]
                } else {
                    Seq::empty()
                },
            ),
        decreases *old(self),
    {
        let cmp = morphologic_cmp(self.racine, ch);
        if cmp == 0 {
            proof {
                assert(!Self::carte_opt(self.left).dom().contains(cle_de(ch)));
                assert(!Self::carte_opt(self.right).dom().contains(cle_de(ch)));
            }
        } else if cmp == -1 {
            proof {
                assert(!Self::carte_opt(self.right).dom().contains(cle_de(ch)));
            }
            Self::inserer_opt(&mut self.left, ch);
        } else {
            proof {
                assert(!Self::carte_opt(self.left).dom().contains(cle_de(ch)));
            }
            Self::inserer_opt(&mut self.right, ch);
        }
    }
}

impl Tree {
    /// L'application des clés vers les dérivés enregistrés.
    pub open spec fn carte(self) -> Map<Cle, Seq<DeriveV>> {
        RacineNode::carte_opt(self.racine)
    }

    /// L'arbre est bien formé.
    pub open spec fn bien_forme(self) -> bool {
        RacineNode::bf_opt(self.racine)
    }

    /// Crée un arbre vide.
    pub fn new() -> (t: Self)
        ensures
            t.bien_forme(),
            t@ == Map::<Cle, Seq<DeriveV>>::empty(),
    {
        Tree { racine: None }
    }

    /// La racine est-elle présente ?
    pub fn verify(&self, ch: [char; 3]) -> (r: bool)
        requires
            self.bien_forme(),
        ensures
            r == self@.dom().contains(cle_de(ch)),
    {
        match &self.racine {
            None => false,
            Some(n) => n.verify_node(ch),
        }
    }

    /// Insère une racine ; les doublons sont ignorés et les dérivés déjà
    /// enregistrés sont conservés.
    pub fn insert(&mut self, ch: [char; 3])
        requires
            old(self).bien_forme(),
        ensures
            final(self).bien_forme(),
            final(self)@ == old(self)@.insert(
                cle_de(ch),
                if old(self)@.dom().contains(cle_de(ch)) {
                    old(self)@[cle_de(ch)]
                } else {
                    Seq::empty()
                },
            ),
    {
        RacineNode::inserer_opt(&mut self.racine, ch);
    }

    /// Supprime une racine ; rend vrai si elle était présente. Ses dérivés
    /// disparaissent avec elle. Une racine absente laisse l'arbre intact.
    pub fn delete(&mut self, ch: [char; 3]) -> (trouve: bool)
        requires
            old(self).bien_forme(),
        ensures
            final(self).bien_forme(),
            final(self)@ == old(self)@.remove(cle_de(ch)),
            trouve == old(self)@.dom().contains(cle_de(ch)),
            !trouve ==> final(self)@ == old(self)@,
            trouve ==> final(self)@.len() == old(self)@.len() - 1,
    {
        proof {
            RacineNode::lemma_carte_opt_finie(self.racine);
        }
        let trouve = RacineNode::supprimer_opt(&mut self.racine, ch);
        proof {
            if !trouve {
                assert(self@ =~= old(self)@);
            } else {
                assert(old(self)@.dom().remove(cle_de(ch)).len() == old(self)@.dom().len() - 1);
            }
        }
        trouve
    }

    /// Cherche le nœud d'une racine ; rend une référence vers lui s'il
    /// existe.
    pub fn chercher_noeud(&self, ch: [char; 3]) -> (r: Option<&RacineNode>)
        requires
            self.bien_forme(),
        ensures
            r is Some <==> self@.dom().contains(cle_de(ch)),
            r is Some ==> {
                &&& cle_de(r.unwrap().racine) == cle_de(ch)
                &&& vue_derives(r.unwrap().derives@) == self@[cle_de(ch)]
                &&& r.unwrap().derives_ok()
            },
    {
        match &self.racine {
            None => None,
            Some(n) => n.chercher(ch),
        }
    }

    /// Ajoute un dérivé à une racine ; rend vrai si la racine est dans
    /// l'arbre. Un mot déjà enregistré sous cette racine est ignoré.
    pub fn ajouter_derive(&mut self, ch: [char; 3], mot: String, schema: String) -> (trouve: bool)
        requires
            old(self).bien_forme(),
            old(self)@.dom().contains(cle_de(ch)) ==> old(self)@[cle_de(ch)].len() < u32::MAX,
        ensures
            final(self).bien_forme(),
            trouve == old(self)@.dom().contains(cle_de(ch)),
            final(self)@ == if trouve && !a_mot(old(self)@[cle_de(ch)], mot@) {
                old(self)@.insert(cle_de(ch), old(self)@[cle_de(ch)].push((mot@, schema@)))
            } else {
                old(self)@
            },
    {
        let r = RacineNode::ajouter_derive_opt(&mut self.racine, ch, mot, schema);
        r.0
    }

    /// Le mot est-il déjà enregistré comme dérivé de cette racine ?
    pub fn contient_derive(&self, ch: [char; 3], mot: &str) -> (r: bool)
        requires
            self.bien_forme(),
        ensures
            r == (self@.dom().contains(cle_de(ch)) && a_mot(self@[cle_de(ch)], mot@)),
    {
        match self.chercher_noeud(ch) {
            None => false,
            Some(n) => n.contient_mot(mot),
        }
    }

    /// Les entrées de l'arbre dans l'ordre croissant des racines.
    pub open spec fn entrees_en_ordre(self) -> Seq<EntreeV> {
        RacineNode::entrees_opt(self.racine)
    }

    /// Loi du parcours ordonné : sur un arbre bien formé, les entrées du
    /// parcours en ordre portent des racines strictement croissantes, donc
    /// sans doublon ; ce sont exactement les racines de l'arbre, chacune
    /// avec ses dérivés et leur nombre.
    pub proof fn lemma_parcours_ordonne(self)
        requires
            self.bien_forme(),
        ensures
            forall|i: int, j: int|
                0 <= i < j < self.entrees_en_ordre().len() ==> cle_lt(
                    cle_de(self.entrees_en_ordre()[i].0),
                    cle_de(self.entrees_en_ordre()[j].0),
                ),
            forall|i: int|
                0 <= i < self.entrees_en_ordre().len() ==> {
                    let e = #[trigger] self.entrees_en_ordre()[i];
                    &&& self@.dom().contains(cle_de(e.0))
                    &&& self@[cle_de(e.0)] == vue_derives(e.2)
                    &&& e.1 == e.2.len()
                },
            forall|k: Cle| #[trigger]
                self@.dom().contains(k) ==> exists|i: int|
                    0 <= i < self.entrees_en_ordre().len() && cle_de(
                        #[trigger] self.entrees_en_ordre()[i].0,
                    ) == k,
    {
        RacineNode::lemma_entrees_opt_ordonnees(self.racine);
        assert forall|k: Cle| #[trigger] self@.dom().contains(k) implies exists|i: int|
            0 <= i < self.entrees_en_ordre().len() && cle_de(
                #[trigger] self.entrees_en_ordre()[i].0,
            ) == k by {
            assert(RacineNode::carte_opt(self.racine).dom().contains(k));
            let i = choose|i: int|
                0 <= i < RacineNode::entrees_opt(self.racine).len() && cle_de(
                    #[trigger] RacineNode::entrees_opt(self.racine)[i].0,
                ) == k;
            assert(cle_de(self.entrees_en_ordre()[i].0) == k);
        }
    }

    /// Recopie toutes les entrées de l'arbre, en ordre croissant des
    /// racines, à la suite du vecteur.
    pub fn collecter_racines(&self, resultat: &mut Vec<([char; 3], u32, Vec<Derive>)>)
        ensures
            vue_entrees(final(resultat)@) == vue_entrees(old(resultat)@) + self.entrees_en_ordre(),
    {
        if let Some(racine) = &self.racine {
            racine.collecter_racines_node(resultat);
        } else {
            proof {
                assert(vue_entrees(resultat@) =~~= vue_entrees(old(resultat)@)
                    + self.entrees_en_ordre());
            }
        }
    }

    /// Charge des racines depuis un texte : une racine par ligne ; sur
    /// chaque ligne, l'espacement est ôté ; s'il reste exactement trois
    /// symboles, la racine est insérée et comptée, sinon la ligne est
    /// passée. Rend le nombre de lignes retenues, doublons compris.
    pub fn charger_depuis_texte(&mut self, contenu: &str) -> (compte: u32)
        requires
            old(self).bien_forme(),
            contenu@.len() < u32::MAX,
        ensures
            final(self).bien_forme(),
            final(self)@ == chargement(old(self)@, lignes(contenu@)).0,
            compte as nat == chargement(old(self)@, lignes(contenu@)).1,
    {
        let cs = crate::texte::vers_chars(contenu);
        let ghost but = chargement(old(self)@, lignes(contenu@));
        proof {
            lemma_sans_blancs_vide();
            assert(cs@.skip(0) =~= cs@);
            lemma_chargement_apres(old(self)@, Seq::empty(), contenu@);
            lemma_chargement_compte(old(self)@, lignes(contenu@));
            lemma_lignes_bornees(Seq::empty(), contenu@);
        }
        let n = cs.len();
        let mut p: usize = 0;
        let mut compte: u32 = 0;
        let mut tampon: Vec<char> = Vec::new();
        proof {
            assert(tampon@ =~= Seq::<char>::empty());
        }
        while p < n
            invariant
                self.bien_forme(),
                n == cs@.len(),
                cs@ == contenu@,
                0 <= p <= n,
                but == chargement(old(self)@, lignes(contenu@)),
                but.1 <= contenu@.len() + 1 < u32::MAX + 1,
                tampon@ == sans_blancs(tampon@),
                compte <= but.1,
                ({
                    let suite = chargement_apres(self@, tampon@, cs@.skip(p as int));
                    but.0 == suite.0 && but.1 == suite.1 + compte
                }),
            decreases n - p,
        {
            let c = cs[p];
            proof {
                assert(cs@.skip(p as int)[0] == c);
                assert(cs@.skip(p as int).drop_first() =~= cs@.skip(p as int + 1));
            }
            if c == '\n' {
                if tampon.len() == 3 {
                    let racine: [char; 3] = [tampon[0], tampon[1], tampon[2]];
                    proof {
                        assert(cle_de(racine) == cle_de_symboles(tampon@));
                    }
                    self.insert(racine);
                    compte = compte + 1;
                }
                tampon = Vec::new();
                proof {
                    lemma_sans_blancs_vide();
                    assert(tampon@ =~= Seq::<char>::empty());
                }
            } else if blanc(c) {
                // L'espacement est ôté.
            } else {
                let ghost avant = tampon@;
                tampon.push(c);
                proof {
                    lemma_sans_blancs_push(avant, c);
                }
            }
            p = p + 1;
        }
        if tampon.len() == 3 {
            let racine: [char; 3] = [tampon[0], tampon[1], tampon[2]];
            proof {
                assert(cle_de(racine) == cle_de_symboles(tampon@));
                assert(cs@.skip(n as int) =~= Seq::<char>::empty());
            }
            self.insert(racine);
            compte = compte + 1;
        } else {
            proof {
                assert(cs@.skip(n as int) =~= Seq::<char>::empty());
            }
        }
        compte
    }

    /// Retire un dérivé d'une racine ; rend vrai si le mot y figurait.
    pub fn supprimer_derive(&mut self, ch: [char; 3], mot: &str) -> (trouve: bool)
        requires
            old(self).bien_forme(),
        ensures
            final(self).bien_forme(),
            trouve == (old(self)@.dom().contains(cle_de(ch)) && a_mot(
                old(self)@[cle_de(ch)],
                mot@,
            )),
            !trouve ==> final(self)@ == old(self)@,
            trouve ==> exists|i: int|
                {
                    &&& 0 <= i < old(self)@[cle_de(ch)].len()
                    &&& old(self)@[cle_de(ch)][i].0 == mot@
                    &&& final(self)@ == old(self)@.insert(
                        cle_de(ch),
                        old(self)@[cle_de(ch)].remove(i),
                    )
                },
    {
        RacineNode::supprimer_derive_opt(&mut self.racine, ch, mot)
    }
}

impl View for Tree {
    type V = Map<Cle, Seq<DeriveV>>;

    open spec fn view(&self) -> Map<Cle, Seq<DeriveV>> {
        self.carte()
    }
}

} // verus!
