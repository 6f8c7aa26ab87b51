//! Table de hachage des schèmes : adressage ouvert à double hachage, avec
//! pierres tombales pour la suppression. Capacité fixe et première, fixée
//! à la construction ; la table ne grandit jamais, c'est un plafond voulu.

use vstd::prelude::*;
use crate::nombres::{est_premier, lemma_sonde_surjective};

verus! {

/// Capacité maximale d'une table ; tient les hachages à l'abri de tout
/// débordement.
pub const CAPACITE_MAX: usize = 100000;

/// Un schème : son nom (aussi la clé de la table), son gabarit d'affichage
/// et sa description.
pub struct Scheme {
    pub nom: String,
    pub pattern: String,
    pub description: String,
}

impl Clone for Scheme {
    fn clone(&self) -> (r: Self)
        ensures
            r == *self,
    {
        Scheme {
            nom: self.nom.clone(),
            pattern: self.pattern.clone(),
            description: self.description.clone(),
        }
    }
}

/// Vue d'un schème : ses trois champs comme suites de symboles.
#[verifier::ext_equal]
pub ghost struct SchemeV {
    pub nom: Seq<char>,
    pub pattern: Seq<char>,
    pub description: Seq<char>,
}

impl View for Scheme {
    type V = SchemeV;

    open spec fn view(&self) -> SchemeV {
        SchemeV { nom: self.nom@, pattern: self.pattern@, description: self.description@ }
    }
}

/// État d'une case : jamais employée (arrête la recherche), pierre tombale
/// (la recherche continue), ou occupée par une clé et son schème.
enum Slot {
    Empty,
    Deleted,
    Occupied(String, Scheme),
}

/// La case est-elle occupée ?
spec fn est_occupe(s: Slot) -> bool {
    s is Occupied
}

/// La case est-elle vierge ?
spec fn est_vide(s: Slot) -> bool {
    s is Empty
}

/// La clé d'une case occupée.
spec fn cle_du(s: Slot) -> Seq<char> {
    match s {
        Slot::Occupied(k, _) => k@,
        _ => Seq::empty(),
    }
}

/// Le schème d'une case occupée.
spec fn schema_du(s: Slot) -> SchemeV {
    match s {
        Slot::Occupied(_, v) => v@,
        _ => SchemeV { nom: Seq::empty(), pattern: Seq::empty(), description: Seq::empty() },
    }
}

/// Hachage polynomial roulant, réduit modulo m à chaque pas.
pub open spec fn hachage(s: Seq<char>, mult: nat, m: nat) -> nat
    decreases s.len(),
{
    if s.len() == 0 {
        0
    } else {
        (hachage(s.drop_last(), mult, m) * mult + (s.last() as u32 as nat)) % m
    }
}

/// Le premier hachage : multiplicateur 31, modulo la capacité.
pub open spec fn h1(s: Seq<char>, m: nat) -> nat {
    hachage(s, 31, m)
}

/// Le pas du double hachage : multiplicateur 37, modulo la capacité moins
/// un, ramené à 1 s'il est nul.
pub open spec fn h2(s: Seq<char>, m: nat) -> nat {
    let t = hachage(s, 37, (m - 1) as nat);
    if t == 0 {
        1
    } else {
        t
    }
}

/// La case visée par la i-ième sonde d'une clé.
pub open spec fn sonde(s: Seq<char>, i: int, m: int) -> int {
    (h1(s, m as nat) + i * h2(s, m as nat)) % m
}

/// Le hachage est borné par son module.
pub proof fn lemma_hachage_borne(s: Seq<char>, mult: nat, m: nat)
    requires
        m > 0,
    ensures
        hachage(s, mult, m) < m,
    decreases s.len(),
{
    if s.len() == 0 {
    } else {
        vstd::arithmetic::div_mod::lemma_mod_division_less_than_divisor(
            (hachage(s.drop_last(), mult, m) * mult + (s.last() as u32 as nat)) as int,
            m as int,
        );
    }
}

/// Bornes des deux hachages : h1 sous la capacité, h2 entre 1 et la
/// capacité exclue.
pub proof fn lemma_hachages_bornes(s: Seq<char>, m: nat)
    requires
        m >= 2,
    ensures
        h1(s, m) < m,
        1 <= h2(s, m) < m,
{
    lemma_hachage_borne(s, 31, m);
    lemma_hachage_borne(s, 37, (m - 1) as nat);
}

/// La sonde tombe toujours dans la table.
pub proof fn lemma_sonde_bornee(s: Seq<char>, i: int, m: int)
    requires
        m >= 2,
    ensures
        0 <= sonde(s, i, m) < m,
{
    vstd::arithmetic::div_mod::lemma_mod_division_less_than_divisor(
        h1(s, m as nat) + i * h2(s, m as nat),
        m,
    );
}

/// Les clés des cases occupées sont deux à deux distinctes.
spec fn cles_distinctes(slots: Seq<Slot>) -> bool {
    forall|t1: int, t2: int|
        #![trigger slots[t1], slots[t2]]
        0 <= t1 < t2 < slots.len() && est_occupe(slots[t1]) && est_occupe(slots[t2]) ==> cle_du(
            slots[t1],
        ) != cle_du(slots[t2])
}

/// Les sondes d'une clé jusqu'à l'indice i exclu ne rencontrent pas de
/// case vierge.
spec fn sondes_pleines(slots: Seq<Slot>, m: int, k: Seq<char>, i: int) -> bool {
    forall|j: int| 0 <= j < i ==> !est_vide(slots[#[trigger] sonde(k, j, m)])
}

/// La clé d'une case occupée s'atteint en suivant ses sondes, sans case
/// vierge sur le chemin.
spec fn chaine_vers(slots: Seq<Slot>, m: int, k: Seq<char>, t: int) -> bool {
    exists|i: int|
        0 <= i < m && #[trigger] sonde(k, i, m) == t && sondes_pleines(slots, m, k, i)
}

/// Toute case occupée est au bout de la chaîne de sondage de sa clé.
spec fn chaines_ok(slots: Seq<Slot>, m: int) -> bool {
    forall|t: int|
        0 <= t < slots.len() && est_occupe(#[trigger] slots[t]) ==> chaine_vers(
            slots,
            m,
            cle_du(slots[t]),
            t,
        )
}

/// L'application portée par les cases occupées.
spec fn carte_slots(slots: Seq<Slot>) -> Map<Seq<char>, SchemeV>
    decreases slots.len(),
{
    if slots.len() == 0 {
        Map::empty()
    } else {
        let m = carte_slots(slots.drop_last());
        if est_occupe(slots.last()) {
            m.insert(cle_du(slots.last()), schema_du(slots.last()))
        } else {
            m
        }
    }
}

/// Les schèmes des cases occupées, dans l'ordre physique des cases.
spec fn schemas_slots(slots: Seq<Slot>) -> Seq<SchemeV>
    decreases slots.len(),
{
    if slots.len() == 0 {
        Seq::empty()
    } else {
        schemas_slots(slots.drop_last()) + if est_occupe(slots.last()) {
            seq![schema_du(slots.last())]
        } else {
            Seq::empty()
        }
    }
}

/// Le nombre de cases occupées.
spec fn compte_occupes(slots: Seq<Slot>) -> nat
    decreases slots.len(),
{
    if slots.len() == 0 {
        0
    } else {
        compte_occupes(slots.drop_last()) + if est_occupe(slots.last()) {
            1nat
        } else {
            0nat
        }
    }
}

/// Une clé est dans l'application exactement quand une case occupée la
/// porte.
proof fn lemma_carte_contient(slots: Seq<Slot>, k: Seq<char>)
    ensures
        carte_slots(slots).dom().contains(k) <==> exists|t: int|
            0 <= t < slots.len() && est_occupe(#[trigger] slots[t]) && cle_du(slots[t]) == k,
    decreases slots.len(),
{
    if slots.len() > 0 {
        lemma_carte_contient(slots.drop_last(), k);
        let fin = (slots.len() - 1) as int;
        if est_occupe(slots.last()) && cle_du(slots.last()) == k {
            assert(est_occupe(slots[fin]) && cle_du(slots[fin]) == k);
        } else {
            if carte_slots(slots).dom().contains(k) {
                let t = choose|t: int|
                    0 <= t < slots.drop_last().len() && est_occupe(
                        #[trigger] slots.drop_last()[t],
                    ) && cle_du(slots.drop_last()[t]) == k;
                assert(slots.drop_last()[t] == slots[t]);
            }
            if exists|t: int|
                0 <= t < slots.len() && est_occupe(#[trigger] slots[t]) && cle_du(slots[t]) == k {
                let t = choose|t: int|
                    0 <= t < slots.len() && est_occupe(#[trigger] slots[t]) && cle_du(slots[t])
                        == k;
                if t < fin {
                    assert(slots.drop_last()[t] == slots[t]);
                }
            }
        }
    }
}

/// La valeur portée par une case occupée est celle de l'application, sous
/// l'unicité des clés.
proof fn lemma_carte_valeur(slots: Seq<Slot>, t: int)
    requires
        cles_distinctes(slots),
        0 <= t < slots.len(),
        est_occupe(slots[t]),
    ensures
        carte_slots(slots).dom().contains(cle_du(slots[t])),
        carte_slots(slots)[cle_du(slots[t])] == schema_du(slots[t]),
    decreases slots.len(),
{
    let fin = (slots.len() - 1) as int;
    if t == fin {
        lemma_carte_contient(slots, cle_du(slots[t]));
    } else {
        assert(cles_distinctes(slots.drop_last())) by {
            assert(forall|t1: int, t2: int|
                #![trigger slots.drop_last()[t1], slots.drop_last()[t2]]
                0 <= t1 < t2 < slots.drop_last().len() ==> slots.drop_last()[t1] == slots[t1]
                    && slots.drop_last()[t2] == slots[t2]);
        }
        assert(slots.drop_last()[t] == slots[t]);
        lemma_carte_valeur(slots.drop_last(), t);
        if est_occupe(slots.last()) {
            assert(cle_du(slots.last()) != cle_du(slots[t]));
        }
    }
}

/// L'application est finie et compte autant d'entrées que de cases
/// occupées.
proof fn lemma_carte_compte(slots: Seq<Slot>)
    requires
        cles_distinctes(slots),
    ensures
        carte_slots(slots).dom().finite(),
        carte_slots(slots).len() == compte_occupes(slots),
    decreases slots.len(),
{
    if slots.len() > 0 {
        assert(cles_distinctes(slots.drop_last())) by {
            assert(forall|t1: int, t2: int|
                #![trigger slots.drop_last()[t1], slots.drop_last()[t2]]
                0 <= t1 < t2 < slots.drop_last().len() ==> slots.drop_last()[t1] == slots[t1]
                    && slots.drop_last()[t2] == slots[t2]);
        }
        lemma_carte_compte(slots.drop_last());
        if est_occupe(slots.last()) {
            let k = cle_du(slots.last());
            lemma_carte_contient(slots.drop_last(), k);
            let fin = (slots.len() - 1) as int;
            assert(!carte_slots(slots.drop_last()).dom().contains(k)) by {
                if exists|t: int|
                    0 <= t < slots.drop_last().len() && est_occupe(
                        #[trigger] slots.drop_last()[t],
                    ) && cle_du(slots.drop_last()[t]) == k {
                    let t = choose|t: int|
                        0 <= t < slots.drop_last().len() && est_occupe(
                            #[trigger] slots.drop_last()[t],
                        ) && cle_du(slots.drop_last()[t]) == k;
                    assert(slots.drop_last()[t] == slots[t]);
                    assert(cle_du(slots[t]) != cle_du(slots[fin]));
                }
            }
            assert(carte_slots(slots).dom() =~= carte_slots(slots.drop_last()).dom().insert(k));
        }
    }
}

/// Le nombre de cases occupées est borné par la taille, avec égalité
/// exactement quand tout est occupé.
proof fn lemma_compte_borne(slots: Seq<Slot>)
    ensures
        compte_occupes(slots) <= slots.len(),
        compte_occupes(slots) == slots.len() <==> forall|t: int|
            0 <= t < slots.len() ==> est_occupe(#[trigger] slots[t]),
    decreases slots.len(),
{
    if slots.len() > 0 {
        lemma_compte_borne(slots.drop_last());
        let fin = (slots.len() - 1) as int;
        assert(forall|t: int| 0 <= t < fin ==> slots.drop_last()[t] == #[trigger] slots[t]);
        if compte_occupes(slots) == slots.len() {
            assert(forall|t: int|
                0 <= t < slots.drop_last().len() ==> est_occupe(
                    #[trigger] slots.drop_last()[t],
                ));
        }
    }
}

/// Écrire un schème dans la case de sa propre clé met l'application à
/// jour, pourvu qu'aucune autre case occupée ne porte cette clé.
proof fn lemma_carte_ecrit(slots: Seq<Slot>, t: int, k: String, sch: Scheme)
    requires
        0 <= t < slots.len(),
        est_occupe(slots[t]) ==> cle_du(slots[t]) == k@,
        forall|t2: int|
            0 <= t2 < slots.len() && t2 != t && est_occupe(#[trigger] slots[t2]) ==> cle_du(
                slots[t2],
            ) != k@,
    ensures
        carte_slots(slots.update(t, Slot::Occupied(k, sch))) == carte_slots(slots).insert(k@, sch@),
    decreases slots.len(),
{
    let slots2 = slots.update(t, Slot::Occupied(k, sch));
    let fin = (slots.len() - 1) as int;
    if t == fin {
        assert(slots2.drop_last() =~= slots.drop_last());
        if est_occupe(slots[fin]) && cle_du(slots[fin]) == k@ {
            lemma_carte_contient(slots.drop_last(), k@);
            assert(!carte_slots(slots.drop_last()).dom().contains(k@)) by {
                if exists|t2: int|
                    0 <= t2 < slots.drop_last().len() && est_occupe(
                        #[trigger] slots.drop_last()[t2],
                    ) && cle_du(slots.drop_last()[t2]) == k@ {
                    let t2 = choose|t2: int|
                        0 <= t2 < slots.drop_last().len() && est_occupe(
                            #[trigger] slots.drop_last()[t2],
                        ) && cle_du(slots.drop_last()[t2]) == k@;
                    assert(slots.drop_last()[t2] == slots[t2]);
                }
            }
            assert(carte_slots(slots2) =~= carte_slots(slots).insert(k@, sch@));
        } else {
            assert(carte_slots(slots2) == carte_slots(slots.drop_last()).insert(k@, sch@));
            assert(carte_slots(slots) == carte_slots(slots.drop_last()));
        }
    } else {
        assert(slots2.drop_last() =~= slots.drop_last().update(t, Slot::Occupied(k, sch)));
        assert(slots2.last() == slots.last());
        assert(forall|t2: int|
            0 <= t2 < slots.drop_last().len() && t2 != t && est_occupe(
                #[trigger] slots.drop_last()[t2],
            ) ==> cle_du(slots.drop_last()[t2]) != k@) by {
            assert(forall|t2: int|
                0 <= t2 < slots.drop_last().len() ==> slots.drop_last()[t2] == #[trigger] slots[t2]);
        }
        lemma_carte_ecrit(slots.drop_last(), t, k, sch);
        if est_occupe(slots.last()) {
            assert(cle_du(slots.last()) != k@);
            assert(carte_slots(slots2) =~= carte_slots(slots).insert(k@, sch@));
        }
    }
}

/// Poser une pierre tombale sur la case d'une clé retire cette clé de
/// l'application, sous l'unicité des clés.
proof fn lemma_carte_efface(slots: Seq<Slot>, t: int)
    requires
        cles_distinctes(slots),
        0 <= t < slots.len(),
        est_occupe(slots[t]),
    ensures
        carte_slots(slots.update(t, Slot::Deleted)) == carte_slots(slots).remove(cle_du(slots[t])),
    decreases slots.len(),
{
    let k = cle_du(slots[t]);
    let slots2 = slots.update(t, Slot::Deleted);
    let fin = (slots.len() - 1) as int;
    if t == fin {
        assert(slots2.drop_last() =~= slots.drop_last());
        lemma_carte_contient(slots.drop_last(), k);
        assert(!carte_slots(slots.drop_last()).dom().contains(k)) by {
            if exists|t2: int|
                0 <= t2 < slots.drop_last().len() && est_occupe(#[trigger] slots.drop_last()[t2])
                    && cle_du(slots.drop_last()[t2]) == k {
                let t2 = choose|t2: int|
                    0 <= t2 < slots.drop_last().len() && est_occupe(
                        #[trigger] slots.drop_last()[t2],
                    ) && cle_du(slots.drop_last()[t2]) == k;
                assert(slots.drop_last()[t2] == slots[t2]);
            }
        }
        assert(carte_slots(slots2) =~= carte_slots(slots).remove(k));
    } else {
        assert(slots2.drop_last() =~= slots.drop_last().update(t, Slot::Deleted));
        assert(slots2.last() == slots.last());
        assert(cles_distinctes(slots.drop_last())) by {
            assert(forall|t1: int, t2: int|
                #![trigger slots.drop_last()[t1], slots.drop_last()[t2]]
                0 <= t1 < t2 < slots.drop_last().len() ==> slots.drop_last()[t1] == slots[t1]
                    && slots.drop_last()[t2] == slots[t2]);
        }
        assert(slots.drop_last()[t] == slots[t]);
        lemma_carte_efface(slots.drop_last(), t);
        if est_occupe(slots.last()) {
            assert(cle_du(slots.last()) != k);
            assert(carte_slots(slots2) =~= carte_slots(slots).remove(k));
        }
    }
}

/// L'échec fatal du plafond de capacité : l'insertion ne peut pas aboutir
/// sans dépasser le nombre de cases de la table.
#[derive(Debug, PartialEq, Eq)]
pub struct TablePleine;

/// Table de hachage des schèmes, à capacité fixe.
pub struct SchemeTable {
    table: Vec<Slot>,
    size: usize,
}

impl View for SchemeTable {
    type V = Map<Seq<char>, SchemeV>;

    closed spec fn view(&self) -> Map<Seq<char>, SchemeV> {
        carte_slots(self.table@)
    }
}

impl SchemeTable {
    /// La capacité de la table : le nombre de ses cases.
    pub closed spec fn capacite(&self) -> nat {
        self.size as nat
    }

    /// Les schèmes présents, dans l'ordre physique des cases. Cet ordre
    /// est un artefact de la table : rien d'autre n'est promis de lui que
    /// de porter chaque schème rangé une fois.
    pub closed spec fn schemas_en_ordre(&self) -> Seq<SchemeV> {
        schemas_slots(self.table@)
    }

    /// Bonne formation : capacité première et bornée, clés uniques, et
    /// chaque clé au bout de sa chaîne de sondage.
    pub closed spec fn bien_formee(&self) -> bool {
        &&& self.table@.len() == self.size
        &&& 2 <= self.size <= CAPACITE_MAX
        &&& est_premier(self.size as int)
        &&& cles_distinctes(self.table@)
        &&& chaines_ok(self.table@, self.size as int)
    }

    /// Une table bien formée porte une application finie, bornée par sa
    /// capacité.
    pub proof fn lemma_bornes(&self)
        requires
            self.bien_formee(),
        ensures
            self@.dom().finite(),
            self@.len() <= self.capacite(),
            2 <= self.capacite() <= CAPACITE_MAX,
    {
        lemma_carte_compte(self.table@);
        lemma_compte_borne(self.table@);
    }

    /// Crée une table vide de la capacité donnée ; la capacité est
    /// première (le sondage doit parcourir toutes les cases) et bornée
    /// (les hachages restent petits).
    pub fn new(size: usize) -> (t: Self)
        requires
            2 <= size <= CAPACITE_MAX,
            est_premier(size as int),
        ensures
            t.bien_formee(),
            t@ == Map::<Seq<char>, SchemeV>::empty(),
            t.capacite() == size,
            t.schemas_en_ordre() == Seq::<SchemeV>::empty(),
    {
        let mut table: Vec<Slot> = Vec::new();
        let mut i: usize = 0;
        while i < size
            invariant
                0 <= i <= size,
                table@.len() == i,
                forall|t: int| 0 <= t < i ==> !est_occupe(#[trigger] table@[t]),
                carte_slots(table@) == Map::<Seq<char>, SchemeV>::empty(),
                schemas_slots(table@) == Seq::<SchemeV>::empty(),
            decreases size - i,
        {
            let ghost avant = table@;
            table.push(Slot::Empty);
            proof {
                assert(table@.drop_last() =~= avant);
            }
            i = i + 1;
        }
        SchemeTable { table, size }
    }

    /// Premier hachage d'une clé : polynôme de multiplicateur 31, réduit
    /// modulo la capacité à chaque pas.
    fn hash1(&self, key: &str) -> (r: usize)
        requires
            self.bien_formee(),
        ensures
            r as nat == h1(key@, self.capacite()),
            r < self.capacite(),
    {
        let cs = crate::texte::vers_chars(key);
        let n = cs.len();
        let mut h: usize = 0;
        let mut i: usize = 0;
        proof {
            assert(cs@.take(0) =~= Seq::<char>::empty());
        }
        while i < n
            invariant
                self.bien_formee(),
                n == cs@.len(),
                0 <= i <= n,
                h as nat == hachage(cs@.take(i as int), 31, self.capacite()),
                h < self.size,
            decreases n - i,
        {
            let c = cs[i];
            let cu = c as u32;
            proof {
                assert(cs@.take(i + 1).drop_last() =~= cs@.take(i as int));
                assert(cs@.take(i + 1).last() == c);
                vstd::utf8::char_is_scalar(c);
                assert(cu <= 0x10FFFF);
                vstd::arithmetic::div_mod::lemma_mod_division_less_than_divisor(
                    h * 31 + (cu as int),
                    self.size as int,
                );
            }
            h = (h * 31 + (cu as usize)) % self.size;
            i = i + 1;
        }
        proof {
            assert(cs@.take(n as int) =~= key@);
        }
        h
    }

    /// Second hachage d'une clé : polynôme de multiplicateur 37, réduit
    /// modulo la capacité moins un, jamais nul.
    fn hash2(&self, key: &str) -> (r: usize)
        requires
            self.bien_formee(),
        ensures
            r as nat == h2(key@, self.capacite()),
            1 <= r < self.capacite(),
    {
        let cs = crate::texte::vers_chars(key);
        let n = cs.len();
        let m = self.size - 1;
        let mut h: usize = 0;
        let mut i: usize = 0;
        proof {
            assert(cs@.take(0) =~= Seq::<char>::empty());
        }
        while i < n
            invariant
                self.bien_formee(),
                m == self.size - 1,
                n == cs@.len(),
                0 <= i <= n,
                h as nat == hachage(cs@.take(i as int), 37, m as nat),
                h < self.size,
            decreases n - i,
        {
            let c = cs[i];
            let cu = c as u32;
            proof {
                assert(cs@.take(i + 1).drop_last() =~= cs@.take(i as int));
                assert(cs@.take(i + 1).last() == c);
                vstd::utf8::char_is_scalar(c);
                assert(cu <= 0x10FFFF);
                vstd::arithmetic::div_mod::lemma_mod_division_less_than_divisor(
                    h * 37 + (cu as int),
                    m as int,
                );
            }
            h = (h * 37 + (cu as usize)) % m;
            i = i + 1;
        }
        proof {
            assert(cs@.take(n as int) =~= key@);
        }
        if h == 0 {
            1
        } else {
            h
        }
    }

    /// Cherche un schème par sa clé : une case vierge arrête la recherche,
    /// une pierre tombale la laisse continuer.
    pub fn get(&self, key: &str) -> (r: Option<&Scheme>)
        requires
            self.bien_formee(),
        ensures
            r is Some <==> self@.dom().contains(key@),
            r is Some ==> r.unwrap()@ == self@[key@],
    {
        let premier = self.hash1(key);
        let pas = self.hash2(key);
        let m = self.size;
        let ghost k = key@;
        proof {
            if self@.dom().contains(k) {
                lemma_carte_contient(self.table@, k);
            }
        }
        proof {
            lemma_hachages_bornes(k, m as nat);
            vstd::arithmetic::div_mod::lemma_small_mod(h1(k, m as nat), m as nat);
            assert(sonde(k, 0, m as int) == h1(k, m as nat));
        }
        let mut index = premier;
        let mut i: usize = 0;
        while i < m
            invariant
                self.bien_formee(),
                m == self.size,
                k == key@,
                premier as nat == h1(k, self.capacite()),
                pas as nat == h2(k, self.capacite()),
                0 <= i <= m,
                index as int == sonde(k, i as int, m as int),
                index < m,
                sondes_pleines(self.table@, m as int, k, i as int),
                forall|j: int|
                    0 <= j < i ==> !(est_occupe(self.table@[#[trigger] sonde(k, j, m as int)])
                        && cle_du(self.table@[sonde(k, j, m as int)]) == k),
            decreases m - i,
        {
            proof {
                lemma_sonde_bornee(k, i as int, m as int);
            }
            let slot = &self.table[index];
            proof {
                assert(*slot == self.table@[index as int]);
            }
            match slot {
                Slot::Empty => {
                    proof {
                        Self::lemma_absente_si_vide(self.table@, m as int, k, i as int);
                    }
                    return None;
                },
                Slot::Deleted => {},
                Slot::Occupied(cle, schema) => {
                    if crate::texte::str_egal(cle.as_str(), key) {
                        proof {
                            lemma_carte_valeur(self.table@, index as int);
                        }
                        return Some(schema);
                    }
                },
            }
            proof {
                assert(!est_vide(self.table@[sonde(k, i as int, m as int)]));
                assert(!(est_occupe(self.table@[sonde(k, i as int, m as int)]) && cle_du(
                    self.table@[sonde(k, i as int, m as int)],
                ) == k));
                assert(forall|j: int|
                    0 <= j < i + 1 ==> !est_vide(self.table@[#[trigger] sonde(k, j, m as int)]));
                Self::lemma_sonde_suivante(k, i as int, m as int, premier as int, pas as int);
            }
            index = (index + pas) % m;
            i = i + 1;
        }
        proof {
            Self::lemma_absente_si_epuise(self.table@, m as int, k);
        }
        None
    }

    /// Une recherche arrêtée sur une case vierge prouve l'absence : une
    /// clé présente aurait sa chaîne sans case vierge jusqu'à elle, et la
    /// sonde est injective sous la capacité première.
    proof fn lemma_absente_si_vide(slots: Seq<Slot>, m: int, k: Seq<char>, i: int)
        requires
            slots.len() == m,
            2 <= m <= CAPACITE_MAX,
            est_premier(m),
            cles_distinctes(slots),
            chaines_ok(slots, m),
            0 <= i < m,
            est_vide(slots[sonde(k, i, m)]),
            sondes_pleines(slots, m, k, i),
            forall|j: int|
                0 <= j < i ==> !(est_occupe(slots[#[trigger] sonde(k, j, m)]) && cle_du(
                    slots[sonde(k, j, m)],
                ) == k),
        ensures
            !carte_slots(slots).dom().contains(k),
    {
        lemma_carte_contient(slots, k);
        if carte_slots(slots).dom().contains(k) {
            let t = choose|t: int|
                0 <= t < slots.len() && est_occupe(#[trigger] slots[t]) && cle_du(slots[t]) == k;
            assert(chaine_vers(slots, m, k, t));
            let it = choose|it: int|
                0 <= it < m && #[trigger] sonde(k, it, m) == t && sondes_pleines(slots, m, k, it);
            lemma_hachages_bornes(k, m as nat);
            if it < i {
                assert(!(est_occupe(slots[sonde(k, it, m)]) && cle_du(slots[sonde(k, it, m)])
                    == k));
            } else if it == i {
                assert(est_vide(slots[t]));
            } else {
                // La case vierge en i précéderait t sur la chaîne de k.
                assert(!est_vide(slots[sonde(k, i, m)]));
            }
        }
    }

    /// Une recherche qui a épuisé toutes les sondes sans trouver la clé
    /// prouve aussi l'absence.
    proof fn lemma_absente_si_epuise(slots: Seq<Slot>, m: int, k: Seq<char>)
        requires
            slots.len() == m,
            2 <= m <= CAPACITE_MAX,
            est_premier(m),
            cles_distinctes(slots),
            chaines_ok(slots, m),
            forall|j: int|
                0 <= j < m ==> !(est_occupe(slots[#[trigger] sonde(k, j, m)]) && cle_du(
                    slots[sonde(k, j, m)],
                ) == k),
        ensures
            !carte_slots(slots).dom().contains(k),
    {
        lemma_carte_contient(slots, k);
        if carte_slots(slots).dom().contains(k) {
            let t = choose|t: int|
                0 <= t < slots.len() && est_occupe(#[trigger] slots[t]) && cle_du(slots[t]) == k;
            assert(chaine_vers(slots, m, k, t));
            let it = choose|it: int|
                0 <= it < m && #[trigger] sonde(k, it, m) == t && sondes_pleines(slots, m, k, it);
            assert(!(est_occupe(slots[sonde(k, it, m)]) && cle_du(slots[sonde(k, it, m)]) == k));
        }
    }

    /// L'indice de la sonde suivante se calcule en ajoutant le pas.
    proof fn lemma_sonde_suivante(k: Seq<char>, i: int, m: int, premier: int, pas: int)
        requires
            2 <= m,
            premier == h1(k, m as nat),
            pas == h2(k, m as nat),
            0 <= i,
        ensures
            (sonde(k, i, m) + pas) % m == sonde(k, i + 1, m),
    {
        let base = premier + i * pas;
        assert(base + pas == premier + (i + 1) * pas) by (nonlinear_arith)
            requires
                base == premier + i * pas,
        ;
        vstd::arithmetic::div_mod::lemma_add_mod_noop(base, pas, m);
        vstd::arithmetic::div_mod::lemma_add_mod_noop_right(base % m, pas, m);
        assert((base % m + pas) % m == (base + pas) % m);
    }

    /// La clé est-elle dans la table ?
    pub fn contains(&self, key: &str) -> (r: bool)
        requires
            self.bien_formee(),
        ensures
            r == self@.dom().contains(key@),
    {
        self.get(key).is_some()
    }

    /// Retire un schème par sa clé ; la case devient pierre tombale, jamais
    /// vierge, pour ne pas rompre les chaînes des autres clés. Rend vrai si
    /// la clé était présente.
    pub fn delete(&mut self, key: &str) -> (trouve: bool)
        requires
            old(self).bien_formee(),
        ensures
            final(self).bien_formee(),
            final(self).capacite() == old(self).capacite(),
            trouve == old(self)@.dom().contains(key@),
            final(self)@ == old(self)@.remove(key@),
            !trouve ==> *final(self) == *old(self),
            trouve ==> final(self)@.len() == old(self)@.len() - 1,
    {
        let premier = self.hash1(key);
        let pas = self.hash2(key);
        let m = self.size;
        let ghost k = key@;
        proof {
            self.lemma_bornes();
        }
        proof {
            lemma_hachages_bornes(k, m as nat);
            vstd::arithmetic::div_mod::lemma_small_mod(h1(k, m as nat), m as nat);
            assert(sonde(k, 0, m as int) == h1(k, m as nat));
        }
        let mut index = premier;
        let mut i: usize = 0;
        while i < m
            invariant
                self.bien_formee(),
                *self == *old(self),
                m == self.size,
                k == key@,
                premier as nat == h1(k, self.capacite()),
                pas as nat == h2(k, self.capacite()),
                0 <= i <= m,
                index as int == sonde(k, i as int, m as int),
                index < m,
                sondes_pleines(self.table@, m as int, k, i as int),
                forall|j: int|
                    0 <= j < i ==> !(est_occupe(self.table@[#[trigger] sonde(k, j, m as int)])
                        && cle_du(self.table@[sonde(k, j, m as int)]) == k),
            decreases m - i,
        {
            proof {
                lemma_sonde_bornee(k, i as int, m as int);
            }
            let trouve_ici = match &self.table[index] {
                Slot::Empty => {
                    proof {
                        Self::lemma_absente_si_vide(self.table@, m as int, k, i as int);
                        vstd::arithmetic::div_mod::lemma_mod_division_less_than_divisor(
                            old(self)@.len() as int,
                            1,
                        );
                        assert(self@ =~= old(self)@.remove(k));
                    }
                    return false;
                },
                Slot::Deleted => false,
                Slot::Occupied(cle, _) => crate::texte::str_egal(cle.as_str(), key),
            };
            if trouve_ici {
                proof {
                    lemma_carte_valeur(self.table@, index as int);
                    lemma_carte_efface(self.table@, index as int);
                    lemma_carte_compte(self.table@);
                }
                let ghost avant = self.table@;
                self.table.set(index, Slot::Deleted);
                proof {
                    assert(self.table@ =~= avant.update(index as int, Slot::Deleted));
                    Self::lemma_moins_vide_conserve(avant, self.table@, m as int);
                    assert(carte_slots(avant).dom().remove(k).len() == carte_slots(
                        avant,
                    ).dom().len() - 1);
                }
                return true;
            }
            proof {
                assert(!est_vide(self.table@[sonde(k, i as int, m as int)]));
                assert(!(est_occupe(self.table@[sonde(k, i as int, m as int)]) && cle_du(
                    self.table@[sonde(k, i as int, m as int)],
                ) == k));
                assert(forall|j: int|
                    0 <= j < i + 1 ==> !est_vide(self.table@[#[trigger] sonde(k, j, m as int)]));
                Self::lemma_sonde_suivante(k, i as int, m as int, premier as int, pas as int);
            }
            index = (index + pas) % m;
            i = i + 1;
        }
        proof {
            Self::lemma_absente_si_epuise(self.table@, m as int, k);
            assert(self@ =~= old(self)@.remove(k));
        }
        false
    }

    /// Écrire une clé absente sur une case non occupée conserve l'unicité
    /// et les chaînes, pourvu que la case soit au bout d'une chaîne de
    /// sondage de la clé écrite.
    proof fn lemma_ecrit_conserve(avant: Seq<Slot>, apres: Seq<Slot>, m: int, pos: int, k: Seq<char>)
        requires
            avant.len() == m,
            apres.len() == m,
            2 <= m,
            cles_distinctes(avant),
            chaines_ok(avant, m),
            0 <= pos < m,
            !est_occupe(avant[pos]),
            est_occupe(apres[pos]),
            cle_du(apres[pos]) == k,
            forall|t: int| 0 <= t < m && t != pos ==> apres[t] == avant[t],
            forall|t: int|
                0 <= t < m && est_occupe(#[trigger] avant[t]) ==> cle_du(avant[t]) != k,
            exists|j: int|
                0 <= j < m && #[trigger] sonde(k, j, m) == pos && sondes_pleines(avant, m, k, j),
        ensures
            cles_distinctes(apres),
            chaines_ok(apres, m),
    {
        assert forall|t: int| 0 <= t < m && est_occupe(#[trigger] apres[t]) implies chaine_vers(
            apres,
            m,
            cle_du(apres[t]),
            t,
        ) by {
            let kt = cle_du(apres[t]);
            if t == pos {
                let j = choose|j: int|
                    0 <= j < m && #[trigger] sonde(k, j, m) == pos && sondes_pleines(
                        avant,
                        m,
                        k,
                        j,
                    );
                assert(sondes_pleines(apres, m, k, j)) by {
                    assert(forall|j2: int|
                        0 <= j2 < j ==> !est_vide(avant[#[trigger] sonde(k, j2, m)]) ==> !est_vide(
                            apres[sonde(k, j2, m)],
                        ));
                }
                assert(sonde(k, j, m) == t);
            } else {
                assert(apres[t] == avant[t]);
                assert(chaine_vers(avant, m, kt, t));
                let i = choose|i: int|
                    0 <= i < m && #[trigger] sonde(kt, i, m) == t && sondes_pleines(
                        avant,
                        m,
                        kt,
                        i,
                    );
                assert(sondes_pleines(apres, m, kt, i)) by {
                    assert(forall|j2: int|
                        0 <= j2 < i ==> !est_vide(avant[#[trigger] sonde(kt, j2, m)]) ==> !est_vide(
                            apres[sonde(kt, j2, m)],
                        ));
                }
                assert(sonde(kt, i, m) == t);
            }
        }
    }

    /// Range un schème sous sa clé. Une clé déjà présente voit son schème
    /// remplacé. La première pierre tombale rencontrée est réemployée.
    /// Échoue, sans toucher la table, exactement quand la clé est absente
    /// et la table pleine : c'est le plafond de capacité, la condition
    /// fatale du contrat à capacité fixe.
    pub fn insert(&mut self, key: String, scheme: Scheme) -> (r: Result<(), TablePleine>)
        requires
            old(self).bien_formee(),
        ensures
            final(self).bien_formee(),
            final(self).capacite() == old(self).capacite(),
            r is Ok <==> (old(self)@.dom().contains(key@) || old(self)@.len() < old(
                self,
            ).capacite()),
            r is Ok ==> final(self)@ == old(self)@.insert(key@, scheme@),
            r is Err ==> *final(self) == *old(self),
    {
        let premier = self.hash1(key.as_str());
        let pas = self.hash2(key.as_str());
        let m = self.size;
        let ghost k = key@;
        proof {
            self.lemma_bornes();
            lemma_carte_compte(self.table@);
            lemma_hachages_bornes(k, m as nat);
            vstd::arithmetic::div_mod::lemma_small_mod(h1(k, m as nat), m as nat);
            assert(sonde(k, 0, m as int) == h1(k, m as nat));
        }
        let mut index = premier;
        let mut i: usize = 0;
        let mut premier_efface: Option<usize> = None;
        while i < m
            invariant
                self.bien_formee(),
                *self == *old(self),
                m == self.size,
                k == key@,
                premier as nat == h1(k, self.capacite()),
                pas as nat == h2(k, self.capacite()),
                0 <= i <= m,
                index as int == sonde(k, i as int, m as int),
                index < m,
                sondes_pleines(self.table@, m as int, k, i as int),
                forall|j: int|
                    0 <= j < i ==> !(est_occupe(self.table@[#[trigger] sonde(k, j, m as int)])
                        && cle_du(self.table@[sonde(k, j, m as int)]) == k),
                premier_efface is None ==> forall|j: int|
                    0 <= j < i ==> !(self.table@[#[trigger] sonde(k, j, m as int)] is Deleted),
                premier_efface is Some ==> {
                    let t = premier_efface.unwrap() as int;
                    &&& 0 <= t < m
                    &&& self.table@[t] is Deleted
                    &&& exists|j: int|
                        0 <= j < i && #[trigger] sonde(k, j, m as int) == t
                },
            decreases m - i,
        {
            proof {
                lemma_sonde_bornee(k, i as int, m as int);
            }
            let slot = &self.table[index];
            let ghost avant = self.table@;
            match slot {
                Slot::Empty => {
                    proof {
                        Self::lemma_absente_si_vide(self.table@, m as int, k, i as int);
                        lemma_carte_contient(self.table@, k);
                        lemma_compte_borne(self.table@);
                        lemma_carte_compte(self.table@);
                        assert(compte_occupes(self.table@) < m);
                    }
                    let pos = match premier_efface {
                        Some(t) => t,
                        None => index,
                    };
                    self.table.set(pos, Slot::Occupied(key, scheme));
                    proof {
                        assert(self.table@ =~= avant.update(pos as int, self.table@[pos as int]));
                        lemma_carte_ecrit(avant, pos as int, key, scheme);
                        Self::lemma_ecrit_conserve(avant, self.table@, m as int, pos as int, k);
                    }
                    return Ok(());
                },
                Slot::Deleted => {
                    if premier_efface.is_none() {
                        premier_efface = Some(index);
                    }
                },
                Slot::Occupied(cle, _) => {
                    if crate::texte::str_egal(cle.as_str(), key.as_str()) {
                        proof {
                            lemma_carte_valeur(self.table@, index as int);
                        }
                        self.table.set(index, Slot::Occupied(key, scheme));
                        proof {
                            assert(self.table@ =~= avant.update(
                                index as int,
                                self.table@[index as int],
                            ));
                            lemma_carte_ecrit(avant, index as int, key, scheme);
                            Self::lemma_moins_vide_conserve(avant, self.table@, m as int);
                        }
                        return Ok(());
                    }
                },
            }
            proof {
                assert(!est_vide(self.table@[sonde(k, i as int, m as int)]));
                assert(!(est_occupe(self.table@[sonde(k, i as int, m as int)]) && cle_du(
                    self.table@[sonde(k, i as int, m as int)],
                ) == k));
                assert(forall|j: int|
                    0 <= j < i + 1 ==> !est_vide(self.table@[#[trigger] sonde(k, j, m as int)]));
                Self::lemma_sonde_suivante(k, i as int, m as int, premier as int, pas as int);
            }
            index = (index + pas) % m;
            i = i + 1;
        }
        proof {
            Self::lemma_absente_si_epuise(self.table@, m as int, k);
            lemma_carte_contient(self.table@, k);
        }
        match premier_efface {
            Some(pos) => {
                let ghost avant = self.table@;
                proof {
                    lemma_compte_borne(self.table@);
                    lemma_carte_compte(self.table@);
                    assert(!est_occupe(self.table@[pos as int]));
                    assert(compte_occupes(self.table@) < m);
                }
                self.table.set(pos, Slot::Occupied(key, scheme));
                proof {
                    assert(self.table@ =~= avant.update(pos as int, self.table@[pos as int]));
                    lemma_carte_ecrit(avant, pos as int, key, scheme);
                    Self::lemma_ecrit_conserve(avant, self.table@, m as int, pos as int, k);
                }
                Ok(())
            },
            None => {
                proof {
                    assert forall|t: int| 0 <= t < m implies est_occupe(
                        #[trigger] self.table@[t],
                    ) by {
                        let j = lemma_sonde_surjective(
                            m as int,
                            h1(k, m as nat) as int,
                            h2(k, m as nat) as int,
                            t,
                        );
                        assert(sonde(k, j, m as int) == t);
                        assert(!est_vide(self.table@[sonde(k, j, m as int)]));
                        assert(!(self.table@[sonde(k, j, m as int)] is Deleted));
                    }
                    lemma_compte_borne(self.table@);
                    lemma_carte_compte(self.table@);
                    assert(old(self)@.len() == self.capacite());
                }
                Err(TablePleine)
            },
        }
    }

    /// Tous les schèmes présents, dans l'ordre physique des cases. Cet
    /// ordre est un artefact de la table, sans autre promesse que de
    /// donner chaque schème rangé une fois.
    pub fn get_all_schemes(&self) -> (r: Vec<&Scheme>)
        ensures
            r@.len() == self.schemas_en_ordre().len(),
            forall|i: int| 0 <= i < r@.len() ==> r@[i]@ == self.schemas_en_ordre()[i],
    {
        let mut r: Vec<&Scheme> = Vec::new();
        let n = self.table.len();
        let mut i: usize = 0;
        proof {
            assert(self.table@.take(0) =~= Seq::<Slot>::empty());
        }
        while i < n
            invariant
                n == self.table@.len(),
                0 <= i <= n,
                r@.len() == schemas_slots(self.table@.take(i as int)).len(),
                forall|j: int|
                    0 <= j < r@.len() ==> r@[j]@ == schemas_slots(self.table@.take(i as int))[j],
            decreases n - i,
        {
            proof {
                assert(self.table@.take(i + 1).drop_last() =~= self.table@.take(i as int));
                assert(self.table@.take(i + 1).last() == self.table@[i as int]);
            }
            match &self.table[i] {
                Slot::Occupied(_, schema) => {
                    r.push(schema);
                },
                _ => {},
            }
            i = i + 1;
        }
        proof {
            assert(self.table@.take(n as int) =~= self.table@);
        }
        r
    }

    /// Les schèmes en ordre physique sont exactement les valeurs de
    /// l'application : autant d'entrées, et les mêmes schèmes des deux
    /// côtés.
    pub proof fn lemma_schemas_et_carte(&self)
        requires
            self.bien_formee(),
        ensures
            self.schemas_en_ordre().len() == self@.len(),
            forall|i: int|
                0 <= i < self.schemas_en_ordre().len() ==> valeur_de_carte(
                    self@,
                    #[trigger] self.schemas_en_ordre()[i],
                ),
            forall|kk: Seq<char>| #[trigger]
                self@.dom().contains(kk) ==> schema_figure(self.schemas_en_ordre(), self@[kk]),
    {
        lemma_schemas_slots(self.table@);
        lemma_carte_compte(self.table@);
    }

    /// Une mise à jour qui ne crée aucune case vierge et garde les clés
    /// des autres cases conserve l'unicité et les chaînes.
    proof fn lemma_moins_vide_conserve(avant: Seq<Slot>, apres: Seq<Slot>, m: int)
        requires
            avant.len() == m,
            apres.len() == m,
            2 <= m,
            cles_distinctes(avant),
            chaines_ok(avant, m),
            forall|t: int| 0 <= t < m && est_vide(#[trigger] apres[t]) ==> est_vide(avant[t]),
            forall|t: int|
                0 <= t < m && est_occupe(#[trigger] apres[t]) ==> est_occupe(avant[t]) && cle_du(
                    apres[t],
                ) == cle_du(avant[t]),
        ensures
            cles_distinctes(apres),
            chaines_ok(apres, m),
    {
        assert forall|t: int| 0 <= t < m && est_occupe(#[trigger] apres[t]) implies chaine_vers(
            apres,
            m,
            cle_du(apres[t]),
            t,
        ) by {
            let k = cle_du(apres[t]);
            assert(est_occupe(avant[t]) && cle_du(avant[t]) == k);
            assert(chaine_vers(avant, m, k, t));
            let i = choose|i: int|
                0 <= i < m && #[trigger] sonde(k, i, m) == t && sondes_pleines(avant, m, k, i);
            assert(sondes_pleines(apres, m, k, i)) by {
                assert(forall|j: int|
                    0 <= j < i ==> !est_vide(apres[#[trigger] sonde(k, j, m)]) || est_vide(
                        avant[sonde(k, j, m)],
                    ));
            }
            assert(sonde(k, i, m) == t);
        }
    }
}


/// La capacité de la table des schèmes usuels : 31, un nombre premier.
pub proof fn lemma_31_premier()
    ensures
        est_premier(31),
{
    assert forall|d: int| 2 <= d < 31 implies #[trigger] (31int % d) != 0 by {
            if d == 2 {
                assert(31int % 2int != 0);
            }
            if d == 3 {
                assert(31int % 3int != 0);
            }
            if d == 4 {
                assert(31int % 4int != 0);
            }
            if d == 5 {
                assert(31int % 5int != 0);
            }
            if d == 6 {
                assert(31int % 6int != 0);
            }
            if d == 7 {
                assert(31int % 7int != 0);
            }
            if d == 8 {
                assert(31int % 8int != 0);
            }
            if d == 9 {
                assert(31int % 9int != 0);
            }
            if d == 10 {
                assert(31int % 10int != 0);
            }
            if d == 11 {
                assert(31int % 11int != 0);
            }
            if d == 12 {
                assert(31int % 12int != 0);
            }
            if d == 13 {
                assert(31int % 13int != 0);
            }
            if d == 14 {
                assert(31int % 14int != 0);
            }
            if d == 15 {
                assert(31int % 15int != 0);
            }
            if d == 16 {
                assert(31int % 16int != 0);
            }
            if d == 17 {
                assert(31int % 17int != 0);
            }
            if d == 18 {
                assert(31int % 18int != 0);
            }
            if d == 19 {
                assert(31int % 19int != 0);
            }
            if d == 20 {
                assert(31int % 20int != 0);
            }
            if d == 21 {
                assert(31int % 21int != 0);
            }
            if d == 22 {
                assert(31int % 22int != 0);
            }
            if d == 23 {
                assert(31int % 23int != 0);
            }
            if d == 24 {
                assert(31int % 24int != 0);
            }
            if d == 25 {
                assert(31int % 25int != 0);
            }
            if d == 26 {
                assert(31int % 26int != 0);
            }
            if d == 27 {
                assert(31int % 27int != 0);
            }
            if d == 28 {
                assert(31int % 28int != 0);
            }
            if d == 29 {
                assert(31int % 29int != 0);
            }
            if d == 30 {
                assert(31int % 30int != 0);
            }
    }
}

/// Les schèmes rangés au départ : les formes dérivées usuelles.
pub open spec fn schemes_initiaux() -> Map<Seq<char>, SchemeV> {
    Map::empty()
        .insert(
            "فاعل"@,
            SchemeV { nom: "فاعل"@, pattern: "ف-ا-ع-ل"@, description: "participe actif"@ },
        )
        .insert(
            "مفعول"@,
            SchemeV { nom: "مفعول"@, pattern: "م-ف-ع-و-ل"@, description: "participe passif"@ },
        )
        .insert(
            "فعل"@,
            SchemeV { nom: "فعل"@, pattern: "ف-ع-ل"@, description: "verbe forme I"@ },
        )
        .insert(
            "فعّل"@,
            SchemeV { nom: "فعّل"@, pattern: "ف-ع-ّ-ل"@, description: "verbe forme II"@ },
        )
        .insert(
            "تفعيل"@,
            SchemeV { nom: "تفعيل"@, pattern: "ت-ف-ع-ي-ل"@, description: "masdar forme II"@ },
        )
        .insert(
            "مفعّل"@,
            SchemeV { nom: "مفعّل"@, pattern: "م-ف-ع-ّ-ل"@, description: "participe actif forme II"@ },
        )
        .insert(
            "فاعل_III"@,
            SchemeV { nom: "فاعل"@, pattern: "ف-ا-ع-ل"@, description: "verbe forme III"@ },
        )
        .insert(
            "مفاعلة"@,
            SchemeV { nom: "مفاعلة"@, pattern: "م-ف-ا-ع-ل-ة"@, description: "masdar forme III"@ },
        )
        .insert(
            "أفعل"@,
            SchemeV { nom: "أفعل"@, pattern: "أ-ف-ع-ل"@, description: "verbe forme IV"@ },
        )
        .insert(
            "إفعال"@,
            SchemeV { nom: "إفعال"@, pattern: "إ-ف-ع-ا-ل"@, description: "masdar forme IV"@ },
        )
        .insert(
            "تفعّل"@,
            SchemeV { nom: "تفعّل"@, pattern: "ت-ف-ع-ّ-ل"@, description: "verbe forme V"@ },
        )
        .insert(
            "افتعل"@,
            SchemeV { nom: "افتعل"@, pattern: "ا-ف-ت-ع-ل"@, description: "verbe forme VIII"@ },
        )
        .insert(
            "مفتعل"@,
            SchemeV { nom: "مفتعل"@, pattern: "م-ف-ت-ع-ل"@, description: "participe forme VIII"@ },
        )
        .insert(
            "استفعل"@,
            SchemeV { nom: "استفعل"@, pattern: "ا-س-ت-ف-ع-ل"@, description: "verbe forme X"@ },
        )
        .insert(
            "مستفعل"@,
            SchemeV { nom: "مستفعل"@, pattern: "م-س-ت-ف-ع-ل"@, description: "participe forme X"@ },
        )
}

/// Prépare la table des schèmes usuels : capacité 31, quinze schèmes.
pub fn init_schemes() -> (t: SchemeTable)
    ensures
        t.bien_formee(),
        t.capacite() == 31,
        t@ == schemes_initiaux(),
{
    proof {
        lemma_31_premier();
    }
    let mut table = SchemeTable::new(31);
    let r = table.insert(
        "فاعل".to_owned(),
        Scheme {
            nom: "فاعل".to_owned(),
            pattern: "ف-ا-ع-ل".to_owned(),
            description: "participe actif".to_owned(),
        },
    );
    proof {
        table.lemma_bornes();
        assert(r is Ok);
    }
    let r = table.insert(
        "مفعول".to_owned(),
        Scheme {
            nom: "مفعول".to_owned(),
            pattern: "م-ف-ع-و-ل".to_owned(),
            description: "participe passif".to_owned(),
        },
    );
    proof {
        table.lemma_bornes();
        assert(r is Ok);
    }
    let r = table.insert(
        "فعل".to_owned(),
        Scheme {
            nom: "فعل".to_owned(),
            pattern: "ف-ع-ل".to_owned(),
            description: "verbe forme I".to_owned(),
        },
    );
    proof {
        table.lemma_bornes();
        assert(r is Ok);
    }
    let r = table.insert(
        "فعّل".to_owned(),
        Scheme {
            nom: "فعّل".to_owned(),
            pattern: "ف-ع-ّ-ل".to_owned(),
            description: "verbe forme II".to_owned(),
        },
    );
    proof {
        table.lemma_bornes();
        assert(r is Ok);
    }
    let r = table.insert(
        "تفعيل".to_owned(),
        Scheme {
            nom: "تفعيل".to_owned(),
            pattern: "ت-ف-ع-ي-ل".to_owned(),
            description: "masdar forme II".to_owned(),
        },
    );
    proof {
        table.lemma_bornes();
        assert(r is Ok);
    }
    let r = table.insert(
        "مفعّل".to_owned(),
        Scheme {
            nom: "مفعّل".to_owned(),
            pattern: "م-ف-ع-ّ-ل".to_owned(),
            description: "participe actif forme II".to_owned(),
        },
    );
    proof {
        table.lemma_bornes();
        assert(r is Ok);
    }
    let r = table.insert(
        "فاعل_III".to_owned(),
        Scheme {
            nom: "فاعل".to_owned(),
            pattern: "ف-ا-ع-ل".to_owned(),
            description: "verbe forme III".to_owned(),
        },
    );
    proof {
        table.lemma_bornes();
        assert(r is Ok);
    }
    let r = table.insert(
        "مفاعلة".to_owned(),
        Scheme {
            nom: "مفاعلة".to_owned(),
            pattern: "م-ف-ا-ع-ل-ة".to_owned(),
            description: "masdar forme III".to_owned(),
        },
    );
    proof {
        table.lemma_bornes();
        assert(r is Ok);
    }
    let r = table.insert(
        "أفعل".to_owned(),
        Scheme {
            nom: "أفعل".to_owned(),
            pattern: "أ-ف-ع-ل".to_owned(),
            description: "verbe forme IV".to_owned(),
        },
    );
    proof {
        table.lemma_bornes();
        assert(r is Ok);
    }
    let r = table.insert(
        "إفعال".to_owned(),
        Scheme {
            nom: "إفعال".to_owned(),
            pattern: "إ-ف-ع-ا-ل".to_owned(),
            description: "masdar forme IV".to_owned(),
        },
    );
    proof {
        table.lemma_bornes();
        assert(r is Ok);
    }
    let r = table.insert(
        "تفعّل".to_owned(),
        Scheme {
            nom: "تفعّل".to_owned(),
            pattern: "ت-ف-ع-ّ-ل".to_owned(),
            description: "verbe forme V".to_owned(),
        },
    );
    proof {
        table.lemma_bornes();
        assert(r is Ok);
    }
    let r = table.insert(
        "افتعل".to_owned(),
        Scheme {
            nom: "افتعل".to_owned(),
            pattern: "ا-ف-ت-ع-ل".to_owned(),
            description: "verbe forme VIII".to_owned(),
        },
    );
    proof {
        table.lemma_bornes();
        assert(r is Ok);
    }
    let r = table.insert(
        "مفتعل".to_owned(),
        Scheme {
            nom: "مفتعل".to_owned(),
            pattern: "م-ف-ت-ع-ل".to_owned(),
            description: "participe forme VIII".to_owned(),
        },
    );
    proof {
        table.lemma_bornes();
        assert(r is Ok);
    }
    let r = table.insert(
        "استفعل".to_owned(),
        Scheme {
            nom: "استفعل".to_owned(),
            pattern: "ا-س-ت-ف-ع-ل".to_owned(),
            description: "verbe forme X".to_owned(),
        },
    );
    proof {
        table.lemma_bornes();
        assert(r is Ok);
    }
    let r = table.insert(
        "مستفعل".to_owned(),
        Scheme {
            nom: "مستفعل".to_owned(),
            pattern: "م-س-ت-ف-ع-ل".to_owned(),
            description: "participe forme X".to_owned(),
        },
    );
    proof {
        table.lemma_bornes();
        assert(r is Ok);
    }
    table
}


/// La valeur v est portée par une clé de l'application.
pub open spec fn valeur_de_carte(m: Map<Seq<char>, SchemeV>, v: SchemeV) -> bool {
    exists|kk: Seq<char>| #[trigger] m.dom().contains(kk) && m[kk] == v
}

/// Le schème v figure dans la suite.
pub open spec fn schema_figure(ss: Seq<SchemeV>, v: SchemeV) -> bool {
    exists|i: int| 0 <= i < ss.len() && #[trigger] ss[i] == v
}

/// Les schèmes en ordre physique portent exactement les valeurs de
/// l'application, sous l'unicité des clés.
proof fn lemma_schemas_slots(slots: Seq<Slot>)
    requires
        cles_distinctes(slots),
    ensures
        schemas_slots(slots).len() == compte_occupes(slots),
        forall|i: int|
            0 <= i < schemas_slots(slots).len() ==> valeur_de_carte(
                carte_slots(slots),
                #[trigger] schemas_slots(slots)[i],
            ),
        forall|kk: Seq<char>| #[trigger]
            carte_slots(slots).dom().contains(kk) ==> schema_figure(
                schemas_slots(slots),
                carte_slots(slots)[kk],
            ),
    decreases slots.len(),
{
    if slots.len() > 0 {
        let reste = slots.drop_last();
        let fin = (slots.len() - 1) as int;
        assert(cles_distinctes(reste)) by {
            assert(forall|t1: int, t2: int|
                #![trigger reste[t1], reste[t2]]
                0 <= t1 < t2 < reste.len() ==> reste[t1] == slots[t1] && reste[t2] == slots[t2]);
        }
        lemma_schemas_slots(reste);
        if est_occupe(slots.last()) {
            let k0 = cle_du(slots.last());
            let v0 = schema_du(slots.last());
            lemma_carte_contient(reste, k0);
            assert(!carte_slots(reste).dom().contains(k0)) by {
                if exists|t: int|
                    0 <= t < reste.len() && est_occupe(#[trigger] reste[t]) && cle_du(reste[t])
                        == k0 {
                    let t = choose|t: int|
                        0 <= t < reste.len() && est_occupe(#[trigger] reste[t]) && cle_du(
                            reste[t],
                        ) == k0;
                    assert(reste[t] == slots[t]);
                }
            }
            let sr = schemas_slots(reste);
            let ss = schemas_slots(slots);
            assert(ss == sr + seq![v0]);
            assert forall|i: int| 0 <= i < ss.len() implies valeur_de_carte(
                carte_slots(slots),
                #[trigger] ss[i],
            ) by {
                if i < sr.len() {
                    assert(ss[i] == sr[i]);
                    assert(valeur_de_carte(carte_slots(reste), sr[i]));
                    let kk = choose|kk: Seq<char>|
                        #[trigger] carte_slots(reste).dom().contains(kk) && carte_slots(reste)[kk]
                            == sr[i];
                    assert(kk != k0);
                    assert(carte_slots(slots).dom().contains(kk) && carte_slots(slots)[kk]
                        == ss[i]);
                } else {
                    assert(ss[i] == v0);
                    assert(carte_slots(slots).dom().contains(k0) && carte_slots(slots)[k0] == v0);
                }
            }
            assert forall|kk: Seq<char>| #[trigger]
                carte_slots(slots).dom().contains(kk) implies schema_figure(
                ss,
                carte_slots(slots)[kk],
            ) by {
                if kk == k0 {
                    assert(ss[sr.len() as int] == carte_slots(slots)[kk]);
                } else {
                    assert(carte_slots(reste).dom().contains(kk));
                    assert(schema_figure(sr, carte_slots(reste)[kk]));
                    let i = choose|i: int|
                        0 <= i < sr.len() && #[trigger] sr[i] == carte_slots(reste)[kk];
                    assert(ss[i] == carte_slots(slots)[kk]);
                }
            }
        } else {
            assert(schemas_slots(slots) == schemas_slots(reste));
            assert forall|i: int| 0 <= i < schemas_slots(slots).len() implies valeur_de_carte(
                carte_slots(slots),
                #[trigger] schemas_slots(slots)[i],
            ) by {
                assert(valeur_de_carte(carte_slots(reste), schemas_slots(reste)[i]));
            }
            assert forall|kk: Seq<char>| #[trigger]
                carte_slots(slots).dom().contains(kk) implies schema_figure(
                schemas_slots(slots),
                carte_slots(slots)[kk],
            ) by {
                assert(schema_figure(schemas_slots(reste), carte_slots(reste)[kk]));
            }
        }
    }
}

} // verus!
