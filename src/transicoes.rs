//! Transitions: grouping a closed item list by the symbol after the dot,
//! and interning the groups into the global pool.
use vstd::prelude::*;

use crate::fecho::{
    completo, contem_item, fecho, item_valido, itens_ok, lemma_universo_finito, proximo, universo,
    ItemLR,
};
use crate::gramatica::Gramatica;

verus! {

/// A transition: its label and the items (before the dot moves) that take it.
pub struct Transicao {
    pub simbolo: String,
    pub itens: Vec<ItemLR>,
}

/// The mathematical value of a transition.
pub struct TransicaoV {
    pub simbolo: Seq<char>,
    pub itens: Seq<ItemLR>,
}

impl View for Transicao {
    type V = TransicaoV;

    open spec fn view(&self) -> TransicaoV {
        TransicaoV { simbolo: self.simbolo@, itens: self.itens@ }
    }
}

pub open spec fn vista_transicoes(ts: Seq<Transicao>) -> Seq<TransicaoV> {
    ts.map_values(|t: Transicao| t@)
}

/// The item can move over `x`: the symbol after its dot is `x`.
pub open spec fn sobre(g: &Gramatica, it: ItemLR, x: Seq<char>) -> bool {
    item_valido(g, it) && !completo(g, it) && proximo(g, it) == x
}

/// The symbols after the dots of `itens`, each once, in order of first
/// appearance.
pub open spec fn simbolos_de(g: &Gramatica, itens: Seq<ItemLR>) -> Seq<Seq<char>>
    decreases itens.len(),
{
    if itens.len() == 0 {
        Seq::empty()
    } else {
        let anteriores = simbolos_de(g, itens.drop_last());
        let it = itens.last();
        if item_valido(g, it) && !completo(g, it) {
            crate::gramatica::acrescenta_novo(anteriores, proximo(g, it))
        } else {
            anteriores
        }
    }
}

/// The test `sobre(g, _, x)` as a function value.
pub open spec fn move_sobre(g: &Gramatica, x: Seq<char>) -> spec_fn(ItemLR) -> bool {
    |it: ItemLR| sobre(g, it, x)
}

/// The items of `itens` that move over `x`, in order.
pub open spec fn itens_sobre(g: &Gramatica, itens: Seq<ItemLR>, x: Seq<char>) -> Seq<ItemLR> {
    itens.filter(move_sobre(g, x))
}

/// The transitions of an item list: one per symbol after a dot, in order of
/// first appearance, carrying every item that moves over it.
pub open spec fn transicoes_locais(g: &Gramatica, itens: Seq<ItemLR>) -> Seq<TransicaoV> {
    simbolos_de(g, itens).map_values(
        |x: Seq<char>| TransicaoV { simbolo: x, itens: itens_sobre(g, itens, x) },
    )
}

pub(crate) proof fn lemma_simbolos_sem_repeticao(g: &Gramatica, itens: Seq<ItemLR>)
    ensures
        simbolos_de(g, itens).no_duplicates(),
    decreases itens.len(),
{
    if itens.len() > 0 {
        lemma_simbolos_sem_repeticao(g, itens.drop_last());
    }
}

pub(crate) proof fn lemma_filtro_sem_repeticao(s: Seq<ItemLR>, f: spec_fn(ItemLR) -> bool)
    requires
        s.no_duplicates(),
    ensures
        s.filter(f).no_duplicates(),
        forall|x: ItemLR| s.filter(f).contains(x) ==> s.contains(x) && f(x),
    decreases s.len(),
{
    assert forall|x: ItemLR| s.filter(f).contains(x) implies s.contains(x) && f(x) by {
        s.lemma_filter_contains_rev(f, x);
        let k = choose|k: int| 0 <= k < s.filter(f).len() && s.filter(f)[k] == x;
        s.lemma_filter_pred(f, k);
    }
    reveal(Seq::filter);
    if s.len() > 0 {
        let d = s.drop_last();
        assert(d.no_duplicates());
        lemma_filtro_sem_repeticao(d, f);
        if !f(s.last()) {
            assert(s.filter(f) == d.filter(f));
        } else {
            assert(!d.contains(s.last())) by {
                if d.contains(s.last()) {
                    let k = choose|k: int| 0 <= k < d.len() && d[k] == s.last();
                    assert(s[k] == s[s.len() - 1]);
                }
            }
            let t = d.filter(f).push(s.last());
            assert(s.filter(f) == t);
            assert forall|a: int, b: int| 0 <= a < t.len() && 0 <= b < t.len() && a != b implies t[a]
                != t[b] by {
                if a == t.len() - 1 {
                    assert(d.filter(f).contains(t[b]));
                }
                if b == t.len() - 1 {
                    assert(d.filter(f).contains(t[a]));
                }
            }
        }
    }
}

/// Index of the transition labelled `x` in `ts`, if any.
fn busca_simbolo(ts: &Vec<Transicao>, x: &String) -> (r: Option<usize>)
    ensures
        match r {
            Some(j) => j < ts@.len() && ts@[j as int].simbolo@ == x@,
            None => forall|j: int| 0 <= j < ts@.len() ==> ts@[j].simbolo@ != x@,
        },
{
    let mut j: usize = 0;
    while j < ts.len()
        invariant
            j <= ts@.len(),
            forall|k: int| 0 <= k < j ==> ts@[k].simbolo@ != x@,
        decreases ts@.len() - j,
    {
        if ts[j].simbolo == *x {
            return Some(j);
        }
        j = j + 1;
    }
    None
}

/// The transitions of a closed item list (see `transicoes_locais`).
pub fn agrupa_transicoes(g: &Gramatica, itens: &Vec<ItemLR>) -> (r: Vec<Transicao>)
    requires
        itens_ok(g, itens@),
    ensures
        vista_transicoes(r@) == transicoes_locais(g, itens@),
{
    let mut ts: Vec<Transicao> = Vec::new();
    let mut k: usize = 0;
    while k < itens.len()
        invariant
            k <= itens@.len(),
            itens_ok(g, itens@),
            vista_transicoes(ts@) == transicoes_locais(g, itens@.take(k as int)),
        decreases itens@.len() - k,
    {
        let it = itens[k];
        let ghost pre = itens@.take(k as int);
        let ghost pos = itens@.take(k + 1);
        assert(pos.drop_last() == pre);
        assert(item_valido(g, itens@[k as int]));
        proof {
            lemma_simbolos_sem_repeticao(g, pre);
            assert forall|x: Seq<char>| #[trigger]
                itens_sobre(g, pos, x) == if sobre(g, it, x) {
                    itens_sobre(g, pre, x).push(it)
                } else {
                    itens_sobre(g, pre, x)
                } by {
                reveal(Seq::filter);
            }
        }
        if it.posicao_do_ponto < g.regras[it.producao].producao.len() {
            let x = g.regras[it.producao].producao[it.posicao_do_ponto].clone();
            let ghost antes = ts@;
            assert(vista_transicoes(antes).len() == antes.len());
            assert(transicoes_locais(g, pre).len() == simbolos_de(g, pre).len());
            assert forall|m: int| 0 <= m < antes.len() implies #[trigger] antes[m]@.simbolo
                == simbolos_de(g, pre)[m] by {
                assert(vista_transicoes(antes)[m] == antes[m]@);
            }
            match busca_simbolo(&ts, &x) {
                Some(j) => {
                    assert(antes[j as int]@.simbolo == x@);
                    assert(simbolos_de(g, pre)[j as int] == x@);
                    assert(simbolos_de(g, pre).contains(x@));
                    let mut novos = ts[j].itens.clone();
                    assert(novos@ =~= ts@[j as int].itens@);
                    novos.push(it);
                    ts.set(j, Transicao { simbolo: x, itens: novos });
                    assert(simbolos_de(g, pos) == simbolos_de(g, pre));
                    assert(vista_transicoes(ts@) =~= transicoes_locais(g, pos)) by {
                        assert forall|m: int| 0 <= m < ts@.len() implies vista_transicoes(ts@)[m]
                            == transicoes_locais(g, pos)[m] by {
                            let y = simbolos_de(g, pre)[m];
                            assert(antes[m]@.simbolo == y);
                            assert(vista_transicoes(antes)[m] == antes[m]@);
                            assert(transicoes_locais(g, pre)[m].itens == itens_sobre(g, pre, y));
                            if m != j {
                                assert(y != x@);
                                assert(!sobre(g, it, y));
                                assert(itens_sobre(g, pos, y) == itens_sobre(g, pre, y));
                            } else {
                                assert(sobre(g, it, y));
                                assert(itens_sobre(g, pos, y) == itens_sobre(g, pre, y).push(it));
                            }
                        }
                    }
                },
                None => {
                    assert(!simbolos_de(g, pre).contains(x@)) by {
                        if simbolos_de(g, pre).contains(x@) {
                            let m = choose|m: int|
                                0 <= m < simbolos_de(g, pre).len() && simbolos_de(g, pre)[m]
                                    == x@;
                            assert(antes[m]@.simbolo == x@);
                        }
                    }
                    let mut novos: Vec<ItemLR> = Vec::new();
                    novos.push(it);
                    ts.push(Transicao { simbolo: x, itens: novos });
                    assert(vista_transicoes(ts@) =~= transicoes_locais(g, pos)) by {
                        assert(itens_sobre(g, pre, x@) =~= Seq::empty()) by {
                            assert(pre.no_duplicates()) by {
                                assert forall|a: int, b: int|
                                    0 <= a < pre.len() && 0 <= b < pre.len() && a != b implies pre[a]
                                    != pre[b] by {
                                    assert(pre[a] == itens@[a]);
                                    assert(pre[b] == itens@[b]);
                                }
                            }
                            lemma_filtro_sem_repeticao(pre, move_sobre(g, x@));
                            if itens_sobre(g, pre, x@).len() > 0 {
                                let y = itens_sobre(g, pre, x@)[0];
                                assert(pre.filter(move_sobre(g, x@)).contains(y));
                                assert(pre.contains(y));
                                assert(move_sobre(g, x@)(y));
                                let m = choose|m: int| 0 <= m < pre.len() && pre[m] == y;
                                assert(simbolos_de(g, pre).contains(x@)) by {
                                    lemma_simbolo_presente(g, pre, m);
                                }
                            }
                        }
                        assert(simbolos_de(g, pos) == simbolos_de(g, pre).push(x@));
                        assert forall|m: int| 0 <= m < ts@.len() implies vista_transicoes(ts@)[m]
                            == transicoes_locais(g, pos)[m] by {
                            if m < antes.len() {
                                let y = simbolos_de(g, pre)[m];
                                assert(antes[m]@.simbolo == y);
                                assert(vista_transicoes(antes)[m] == antes[m]@);
                                assert(transicoes_locais(g, pre)[m].itens == itens_sobre(
                                    g,
                                    pre,
                                    y,
                                ));
                                assert(y != x@);
                                assert(itens_sobre(g, pos, y) == itens_sobre(g, pre, y));
                            } else {
                                assert(itens_sobre(g, pos, x@) =~= seq![it]);
                                assert(novos@ =~= seq![it]);
                            }
                        }
                    }
                },
            }
        } else {
            assert(vista_transicoes(ts@) =~= transicoes_locais(g, pos));
        }
        k = k + 1;
    }
    assert(itens@.take(k as int) =~= itens@);
    ts
}

pub(crate) proof fn lemma_simbolo_presente(g: &Gramatica, itens: Seq<ItemLR>, m: int)
    requires
        0 <= m < itens.len(),
        item_valido(g, itens[m]),
        !completo(g, itens[m]),
    ensures
        simbolos_de(g, itens).contains(proximo(g, itens[m])),
    decreases itens.len(),
{
    let d = itens.drop_last();
    if m < itens.len() - 1 {
        assert(d[m] == itens[m]);
        lemma_simbolo_presente(g, d, m);
        let a = simbolos_de(g, d);
        let k = choose|k: int| 0 <= k < a.len() && a[k] == proximo(g, itens[m]);
        if item_valido(g, itens.last()) && !completo(g, itens.last()) && !a.contains(
            proximo(g, itens.last()),
        ) {
            assert(simbolos_de(g, itens)[k] == a[k]);
        }
    } else {
        let a = simbolos_de(g, d);
        if !a.contains(proximo(g, itens.last())) {
            assert(simbolos_de(g, itens)[a.len() as int] == proximo(g, itens.last()));
        }
    }
}

/// Two item lists hold the same items.
pub open spec fn mesmo_conjunto(a: Seq<ItemLR>, b: Seq<ItemLR>) -> bool {
    a.to_set() == b.to_set()
}

/// The first index, from `j` on, of a pool entry with the same items as
/// `itens`, or -1.
pub open spec fn indice_desde(pool: Seq<TransicaoV>, itens: Seq<ItemLR>, j: int) -> int
    decreases pool.len() - j,
{
    if j < 0 || j >= pool.len() {
        -1
    } else if mesmo_conjunto(pool[j].itens, itens) {
        j
    } else {
        indice_desde(pool, itens, j + 1)
    }
}

/// The first index of a pool entry with the same items as `itens`, or -1.
pub open spec fn indice_no_pool(pool: Seq<TransicaoV>, itens: Seq<ItemLR>) -> int {
    indice_desde(pool, itens, 0)
}

/// Interns `locais` into `pool` in order: each one takes the index of the
/// first pool entry with the same items, or is appended. Returns the grown
/// pool and the index of each local transition.
pub open spec fn registra(pool: Seq<TransicaoV>, locais: Seq<TransicaoV>) -> (Seq<TransicaoV>, Seq<
    usize,
>)
    decreases locais.len(),
{
    if locais.len() == 0 {
        (pool, Seq::empty())
    } else {
        let r = registra(pool, locais.drop_last());
        let t = locais.last();
        let j = indice_no_pool(r.0, t.itens);
        if j >= 0 {
            (r.0, r.1.push(j as usize))
        } else {
            (r.0.push(t), r.1.push(r.0.len() as usize))
        }
    }
}

/// Whether `a` and `b` hold the same items.
pub fn mesmos_itens(a: &Vec<ItemLR>, b: &Vec<ItemLR>) -> (r: bool)
    ensures
        r == mesmo_conjunto(a@, b@),
{
    let mut i: usize = 0;
    while i < a.len()
        invariant
            i <= a@.len(),
            forall|k: int| 0 <= k < i ==> b@.contains(#[trigger] a@[k]),
        decreases a@.len() - i,
    {
        if !contem_item(b, a[i]) {
            assert(!b@.to_set().contains(a@[i as int]));
            assert(a@.to_set().contains(a@[i as int]));
            return false;
        }
        i = i + 1;
    }
    let mut j: usize = 0;
    while j < b.len()
        invariant
            j <= b@.len(),
            forall|k: int| 0 <= k < a@.len() ==> b@.contains(#[trigger] a@[k]),
            forall|k: int| 0 <= k < j ==> a@.contains(#[trigger] b@[k]),
        decreases b@.len() - j,
    {
        if !contem_item(a, b[j]) {
            assert(!a@.to_set().contains(b@[j as int]));
            assert(b@.to_set().contains(b@[j as int]));
            return false;
        }
        j = j + 1;
    }
    assert(a@.to_set() =~= b@.to_set());
    true
}

/// The index of the first pool entry with the same items as `itens`.
fn busca_transicao(pool: &Vec<Transicao>, itens: &Vec<ItemLR>) -> (r: Option<usize>)
    ensures
        match r {
            Some(j) => j as int == indice_no_pool(vista_transicoes(pool@), itens@),
            None => indice_no_pool(vista_transicoes(pool@), itens@) == -1,
        },
{
    let ghost v = vista_transicoes(pool@);
    let mut j: usize = 0;
    while j < pool.len()
        invariant
            j <= pool@.len(),
            v == vista_transicoes(pool@),
            indice_desde(v, itens@, j as int) == indice_no_pool(v, itens@),
        decreases pool@.len() - j,
    {
        assert(v[j as int] == pool@[j as int]@);
        if mesmos_itens(&pool[j].itens, itens) {
            return Some(j);
        }
        j = j + 1;
    }
    None
}

/// Interns the local transitions into the pool (see `registra`) and returns
/// the pool index of each.
pub fn registra_transicoes(pool: &mut Vec<Transicao>, locais: &Vec<Transicao>) -> (r: Vec<usize>)
    ensures
        (vista_transicoes(final(pool)@), r@) == registra(
            vista_transicoes(old(pool)@),
            vista_transicoes(locais@),
        ),
{
    let ghost inicial = vista_transicoes(pool@);
    let mut indices: Vec<usize> = Vec::new();
    let mut k: usize = 0;
    while k < locais.len()
        invariant
            k <= locais@.len(),
            inicial == vista_transicoes(old(pool)@),
            (vista_transicoes(pool@), indices@) == registra(
                inicial,
                vista_transicoes(locais@).take(k as int),
            ),
        decreases locais@.len() - k,
    {
        let ghost pre = vista_transicoes(locais@).take(k as int);
        let ghost pos = vista_transicoes(locais@).take(k + 1);
        assert(pos.drop_last() == pre);
        assert(pos.last() == locais@[k as int]@);
        let ghost antes = pool@;
        match busca_transicao(pool, &locais[k].itens) {
            Some(j) => {
                indices.push(j);
            },
            None => {
                let t = Transicao {
                    simbolo: locais[k].simbolo.clone(),
                    itens: locais[k].itens.clone(),
                };
                assert(t.itens@ =~= locais@[k as int].itens@);
                indices.push(pool.len());
                pool.push(t);
                assert(vista_transicoes(pool@) =~= vista_transicoes(antes).push(t@));
            },
        }
        k = k + 1;
    }
    assert(vista_transicoes(locais@).take(k as int) =~= vista_transicoes(locais@));
    indices
}

/// A transition as the pool holds it: at least one item, no item twice, and
/// every item moves over its label.
pub open spec fn transicao_ok(g: &Gramatica, t: TransicaoV) -> bool {
    &&& t.itens.len() > 0
    &&& t.itens.no_duplicates()
    &&& forall|k: int| 0 <= k < t.itens.len() ==> sobre(g, #[trigger] t.itens[k], t.simbolo)
}

/// Every pool entry is a proper transition, and no two entries hold the
/// same items.
pub open spec fn pool_ok(g: &Gramatica, pool: Seq<TransicaoV>) -> bool {
    &&& forall|j: int| 0 <= j < pool.len() ==> transicao_ok(g, #[trigger] pool[j])
    &&& forall|i: int, j: int|
        #![trigger pool[i], pool[j]]
        0 <= i < pool.len() && 0 <= j < pool.len() && i != j ==> !mesmo_conjunto(
            pool[i].itens,
            pool[j].itens,
        )
}

/// All sets of valid items.
pub open spec fn partes(u: Set<ItemLR>) -> Set<Set<ItemLR>> {
    Set::new(|s: Set<ItemLR>| s.subset_of(u))
}

proof fn lemma_partes_finito(u: Set<ItemLR>)
    requires
        u.finite(),
    ensures
        partes(u).finite(),
    decreases u.len(),
{
    if u.len() == 0 {
        u.lemma_len0_is_empty();
        assert forall|t: Set<ItemLR>| #[trigger] partes(u).contains(t) implies t == Set::<
            ItemLR,
        >::empty() by {
            assert(t =~= Set::<ItemLR>::empty());
        }
        assert(partes(u) =~= Set::empty().insert(Set::<ItemLR>::empty()));
    } else {
        let x = u.choose();
        let v = u.remove(x);
        lemma_partes_finito(v);
        let f = |s: Set<ItemLR>| s.insert(x);
        partes(v).lemma_map_finite(f);
        assert(partes(u) =~= partes(v) + partes(v).map(f)) by {
            assert forall|s: Set<ItemLR>| #[trigger] partes(u).contains(s) implies (partes(v)
                + partes(v).map(f)).contains(s) by {
                if s.contains(x) {
                    let t = s.remove(x);
                    assert(partes(v).contains(t));
                    assert(f(t) =~= s);
                } else {
                    assert(partes(v).contains(s));
                }
            }
        }
        vstd::set_lib::lemma_set_union_finite_iff(partes(v), partes(v).map(f));
    }
}

/// A pool of proper, pairwise different transitions is no longer than the
/// number of sets of valid items.
pub(crate) proof fn lemma_pool_limitado(g: &Gramatica, pool: Seq<TransicaoV>)
    requires
        pool_ok(g, pool),
    ensures
        pool.len() <= partes(universo(g)).len(),
{
    lemma_universo_finito(g);
    lemma_partes_finito(universo(g));
    let chaves = pool.map_values(|t: TransicaoV| t.itens.to_set());
    assert forall|i: int, j: int| 0 <= i < chaves.len() && 0 <= j < chaves.len() && i != j implies chaves[i]
        != chaves[j] by {
        assert(!mesmo_conjunto(pool[i].itens, pool[j].itens));
    }
    chaves.unique_seq_to_set();
    assert forall|c: Set<ItemLR>| chaves.to_set().contains(c) implies partes(universo(g)).contains(
        c,
    ) by {
        let j = choose|j: int| 0 <= j < chaves.len() && chaves[j] == c;
        assert(transicao_ok(g, pool[j]));
        assert forall|it: ItemLR| c.contains(it) implies universo(g).contains(it) by {
            let k = choose|k: int| 0 <= k < pool[j].itens.len() && pool[j].itens[k] == it;
            assert(sobre(g, pool[j].itens[k], pool[j].simbolo));
        }
    }
    vstd::set_lib::lemma_len_subset(chaves.to_set(), partes(universo(g)));
}

proof fn lemma_indice_desde(pool: Seq<TransicaoV>, itens: Seq<ItemLR>, j: int)
    requires
        0 <= j,
    ensures
        indice_desde(pool, itens, j) == -1 ==> forall|k: int|
            j <= k < pool.len() ==> !mesmo_conjunto(#[trigger] pool[k].itens, itens),
        indice_desde(pool, itens, j) != -1 ==> j <= indice_desde(pool, itens, j) < pool.len()
            && mesmo_conjunto(pool[indice_desde(pool, itens, j)].itens, itens),
    decreases pool.len() - j,
{
    if j < pool.len() && !mesmo_conjunto(pool[j].itens, itens) {
        lemma_indice_desde(pool, itens, j + 1);
    }
}

proof fn lemma_simbolo_origem(g: &Gramatica, itens: Seq<ItemLR>, m: int)
    requires
        0 <= m < simbolos_de(g, itens).len(),
    ensures
        exists|k: int|
            0 <= k < itens.len() && sobre(g, #[trigger] itens[k], simbolos_de(g, itens)[m]),
    decreases itens.len(),
{
    let d = itens.drop_last();
    if m < simbolos_de(g, d).len() {
        lemma_simbolo_origem(g, d, m);
        let k = choose|k: int| 0 <= k < d.len() && sobre(g, #[trigger] d[k], simbolos_de(g, d)[m]);
        assert(simbolos_de(g, itens)[m] == simbolos_de(g, d)[m]);
        assert(itens[k] == d[k]);
    } else {
        assert(sobre(g, itens[itens.len() - 1], simbolos_de(g, itens)[m]));
    }
}

/// The local transitions of a list of distinct valid items are proper.
pub(crate) proof fn lemma_locais(g: &Gramatica, itens: Seq<ItemLR>)
    requires
        itens_ok(g, itens),
    ensures
        forall|m: int|
            0 <= m < transicoes_locais(g, itens).len() ==> transicao_ok(
                g,
                #[trigger] transicoes_locais(g, itens)[m],
            ),
{
    assert forall|m: int| 0 <= m < transicoes_locais(g, itens).len() implies transicao_ok(
        g,
        #[trigger] transicoes_locais(g, itens)[m],
    ) by {
        let x = simbolos_de(g, itens)[m];
        let t = transicoes_locais(g, itens)[m];
        lemma_filtro_sem_repeticao(itens, move_sobre(g, x));
        lemma_simbolo_origem(g, itens, m);
        let k = choose|k: int| 0 <= k < itens.len() && sobre(g, #[trigger] itens[k], x);
        itens.lemma_filter_contains(move_sobre(g, x), k);
        assert(t.itens.contains(itens[k]));
        assert forall|q: int| 0 <= q < t.itens.len() implies sobre(g, #[trigger] t.itens[q], t.simbolo) by {
            assert(t.itens.contains(t.itens[q]));
            assert(move_sobre(g, x)(t.itens[q]));
        }
    }
}

/// Pool entry `j` has the items and the label of `t`.
pub open spec fn aponta(pool: Seq<TransicaoV>, t: TransicaoV, j: int) -> bool {
    &&& 0 <= j < pool.len()
    &&& mesmo_conjunto(pool[j].itens, t.itens)
    &&& pool[j].simbolo == t.simbolo
}

/// `idx` gives, for each transition of `locais`, a pool entry that matches it.
pub open spec fn indices_corretos(pool: Seq<TransicaoV>, locais: Seq<TransicaoV>, idx: Seq<usize>) -> bool {
    &&& idx.len() == locais.len()
    &&& forall|m: int| 0 <= m < locais.len() ==> aponta(pool, locais[m], #[trigger] idx[m] as int)
}

/// Interning keeps the pool proper, only appends to it, and gives each local
/// transition the index of a pool entry with the same items and label.
pub(crate) proof fn lemma_registra(g: &Gramatica, pool: Seq<TransicaoV>, locais: Seq<TransicaoV>)
    requires
        pool_ok(g, pool),
        forall|m: int| 0 <= m < locais.len() ==> transicao_ok(g, #[trigger] locais[m]),
    ensures
        pool_ok(g, registra(pool, locais).0),
        registra(pool, locais).0.len() >= pool.len(),
        registra(pool, locais).0.subrange(0, pool.len() as int) == pool,
        registra(pool, locais).1.len() == locais.len(),
        registra(pool, locais).0.len() <= usize::MAX ==> indices_corretos(
            registra(pool, locais).0,
            locais,
            registra(pool, locais).1,
        ),
    decreases locais.len(),
{
    if locais.len() == 0 {
        assert(pool.subrange(0, pool.len() as int) =~= pool);
    } else {
        let d = locais.drop_last();
        lemma_registra(g, pool, d);
        let r = registra(pool, d);
        let t = locais.last();
        assert(transicao_ok(g, locais[locais.len() - 1]));
        let j = indice_no_pool(r.0, t.itens);
        lemma_indice_desde(r.0, t.itens, 0);
        let rr = registra(pool, locais);
        if j >= 0 {
            assert(transicao_ok(g, r.0[j]));
            assert(r.0[j].simbolo == t.simbolo) by {
                assert(t.itens.to_set().contains(t.itens[0]));
                assert(r.0[j].itens.to_set().contains(t.itens[0]));
                let q = choose|q: int| 0 <= q < r.0[j].itens.len() && r.0[j].itens[q] == t.itens[0];
                assert(sobre(g, r.0[j].itens[q], r.0[j].simbolo));
                assert(sobre(g, t.itens[0], t.simbolo));
            }
            if rr.0.len() <= usize::MAX {
                assert forall|m: int| 0 <= m < locais.len() implies aponta(
                    rr.0,
                    locais[m],
                    #[trigger] rr.1[m] as int,
                ) by {
                    if m < locais.len() - 1 {
                        assert(rr.1[m] == r.1[m]);
                        assert(d[m] == locais[m]);
                        assert(aponta(r.0, d[m], r.1[m] as int));
                    } else {
                        assert(rr.1[m] as int == j);
                        assert(rr.0 == r.0);
                    }
                }
            }
        } else {
            let novo = r.0.push(t);
            assert(rr.0 == novo);
            assert forall|a: int, b: int|
                #![trigger novo[a], novo[b]]
                0 <= a < novo.len() && 0 <= b < novo.len() && a != b implies !mesmo_conjunto(
                novo[a].itens,
                novo[b].itens,
            ) by {
                if a == r.0.len() {
                    assert(!mesmo_conjunto(r.0[b].itens, t.itens));
                } else if b == r.0.len() {
                    assert(!mesmo_conjunto(r.0[a].itens, t.itens));
                } else {
                    assert(novo[a] == r.0[a] && novo[b] == r.0[b]);
                }
            }
            assert forall|k: int| 0 <= k < novo.len() implies transicao_ok(g, #[trigger] novo[k]) by {
                if k < r.0.len() {
                    assert(novo[k] == r.0[k]);
                }
            }
            assert(novo.subrange(0, pool.len() as int) =~= pool) by {
                assert forall|k: int| 0 <= k < pool.len() implies novo[k] == pool[k] by {
                    assert(r.0.subrange(0, pool.len() as int)[k] == pool[k]);
                }
            }
            if rr.0.len() <= usize::MAX {
                assert forall|m: int| 0 <= m < locais.len() implies aponta(
                    rr.0,
                    locais[m],
                    #[trigger] rr.1[m] as int,
                ) by {
                    if m < locais.len() - 1 {
                        assert(rr.1[m] == r.1[m]);
                        assert(d[m] == locais[m]);
                        assert(aponta(r.0, d[m], r.1[m] as int));
                        assert(novo[r.1[m] as int] == r.0[r.1[m] as int]);
                    } else {
                        assert(rr.1[m] as int == r.0.len());
                        assert(mesmo_conjunto(novo[r.0.len() as int].itens, t.itens));
                    }
                }
            }
        }
    }
}

/// Interning references every entry it appends.
pub(crate) proof fn lemma_registra_novos(pool: Seq<TransicaoV>, locais: Seq<TransicaoV>)
    ensures
        registra(pool, locais).0.len() <= usize::MAX ==> forall|q: usize|
            pool.len() <= q < registra(pool, locais).0.len() ==> #[trigger] registra(
                pool,
                locais,
            ).1.contains(q),
        registra(pool, locais).0.len() >= pool.len(),
    decreases locais.len(),
{
    if locais.len() > 0 {
        let d = locais.drop_last();
        lemma_registra_novos(pool, d);
        let r = registra(pool, d);
        let rr = registra(pool, locais);
        if rr.0.len() <= usize::MAX {
            assert forall|q: usize| pool.len() <= q < rr.0.len() implies #[trigger] rr.1.contains(q) by {
                if q < r.0.len() {
                    assert(r.1.contains(q));
                    let m = choose|m: int| 0 <= m < r.1.len() && r.1[m] == q;
                    assert(rr.1[m] == r.1[m]);
                } else {
                    assert(rr.1[rr.1.len() - 1] == q);
                }
            }
        }
    }
}

} // verus!
