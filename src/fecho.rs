//! LR items and their closure.
use vstd::prelude::*;
use vstd::set_lib::set_int_range;

use crate::gramatica::Gramatica;

verus! {

/// An LR item: rule `producao` with the dot before symbol `posicao_do_ponto`.
#[derive(Clone, Copy, Debug, PartialEq, Eq, Structural)]
pub struct ItemLR {
    pub producao: usize,
    pub posicao_do_ponto: usize,
}

/// The item names a rule of `g` and a dot position within its right-hand side.
pub open spec fn item_valido(g: &Gramatica, it: ItemLR) -> bool {
    it.producao < g.num_regras() && it.posicao_do_ponto <= g.tamanho(it.producao as int)
}

/// The dot stands at the end of the rule.
pub open spec fn completo(g: &Gramatica, it: ItemLR) -> bool {
    it.posicao_do_ponto == g.tamanho(it.producao as int)
}

/// The symbol right after the dot (meaningful for valid, incomplete items).
pub open spec fn proximo(g: &Gramatica, it: ItemLR) -> Seq<char> {
    g.simbolo(it.producao as int, it.posicao_do_ponto as int)
}

/// The item `(p, 0)`.
pub open spec fn item_inicial_de(p: int) -> ItemLR {
    ItemLR { producao: p as usize, posicao_do_ponto: 0 }
}

/// Every valid item of `g`.
pub open spec fn universo(g: &Gramatica) -> Set<ItemLR> {
    Set::new(|it: ItemLR| item_valido(g, it))
}

/// A list of distinct valid items.
pub open spec fn itens_ok(g: &Gramatica, s: Seq<ItemLR>) -> bool {
    &&& s.no_duplicates()
    &&& forall|j: int| 0 <= j < s.len() ==> item_valido(g, #[trigger] s[j])
}

/// `itens` extended, for each rule `q >= p` whose left-hand side is `x`, by
/// the item `(q, 0)` when it is not there yet.
pub open spec fn prediz(g: &Gramatica, itens: Seq<ItemLR>, x: Seq<char>, p: int) -> Seq<ItemLR>
    decreases g.num_regras() - p,
{
    if p < 0 || p >= g.num_regras() {
        itens
    } else {
        let novo = item_inicial_de(p);
        let proximos = if g.lado_esquerdo(p) == x && !itens.contains(novo) {
            itens.push(novo)
        } else {
            itens
        };
        prediz(g, proximos, x, p + 1)
    }
}

/// One closure step: the predictions of the symbol after the dot of `it`.
pub open spec fn expande(g: &Gramatica, itens: Seq<ItemLR>, it: ItemLR) -> Seq<ItemLR> {
    if item_valido(g, it) && !completo(g, it) {
        prediz(g, itens, proximo(g, it), 0)
    } else {
        itens
    }
}

/// The closure fixpoint, scanning the growing list from position `i`.
pub open spec fn fecho_desde(g: &Gramatica, itens: Seq<ItemLR>, i: int) -> Seq<ItemLR>
    decreases universo(g).len() - itens.len(), itens.len() - i
        when itens_ok(g, itens) && 0 <= i
        via fecho_desde_termina
{
    if i >= itens.len() {
        itens
    } else {
        fecho_desde(g, expande(g, itens, itens[i]), i + 1)
    }
}

/// The closure of a seed list: the seeds, then every item predicted, in the
/// order in which a breadth-first scan discovers them.
pub open spec fn fecho(g: &Gramatica, iniciais: Seq<ItemLR>) -> Seq<ItemLR> {
    fecho_desde(g, iniciais, 0)
}

/// All predictions of the symbol after the dot of `it` are in `s`.
pub open spec fn expandido(g: &Gramatica, s: Seq<ItemLR>, it: ItemLR) -> bool {
    item_valido(g, it) && !completo(g, it) ==> forall|q: int|
        0 <= q < g.num_regras() && g.lado_esquerdo(q) == proximo(g, it) ==> s.contains(
            #[trigger] item_inicial_de(q),
        )
}

/// Closing `s` adds nothing.
pub open spec fn fechado(g: &Gramatica, s: Seq<ItemLR>) -> bool {
    forall|j: int| 0 <= j < s.len() ==> expandido(g, s, #[trigger] s[j])
}

proof fn lemma_universo_ate(g: &Gramatica, q: nat)
    requires
        q <= g.num_regras(),
    ensures
        Set::new(|it: ItemLR| item_valido(g, it) && it.producao < q).finite(),
    decreases q,
{
    let alvo = Set::new(|it: ItemLR| item_valido(g, it) && it.producao < q);
    if q == 0 {
        assert(alvo =~= Set::empty());
    } else {
        let r = (q - 1) as nat;
        lemma_universo_ate(g, r);
        let antes = Set::new(|it: ItemLR| item_valido(g, it) && it.producao < r);
        let faixa = set_int_range(0, (g.tamanho(r as int) + 1) as int);
        vstd::set_lib::lemma_int_range(0, (g.tamanho(r as int) + 1) as int);
        let f = |k: int| ItemLR { producao: r as usize, posicao_do_ponto: k as usize };
        faixa.lemma_map_finite(f);
        let da_regra = faixa.map(f);
        assert forall|it: ItemLR| alvo.contains(it) implies (antes + da_regra).contains(it) by {
            if it.producao == r {
                assert(faixa.contains(it.posicao_do_ponto as int));
                assert(f(it.posicao_do_ponto as int) == it);
            }
        }
        vstd::set_lib::lemma_set_union_finite_iff(antes, da_regra);
        vstd::set_lib::lemma_set_subset_finite(antes + da_regra, alvo);
    }
}

/// The valid items of a grammar are finitely many.
pub proof fn lemma_universo_finito(g: &Gramatica)
    ensures
        universo(g).finite(),
{
    lemma_universo_ate(g, g.num_regras());
    assert(universo(g) =~= Set::new(
        |it: ItemLR| item_valido(g, it) && it.producao < g.num_regras(),
    ));
}

/// A list of distinct valid items is no longer than the set of valid items.
pub proof fn lemma_itens_limitados(g: &Gramatica, s: Seq<ItemLR>)
    requires
        itens_ok(g, s),
    ensures
        s.len() <= universo(g).len(),
{
    lemma_universo_finito(g);
    s.unique_seq_to_set();
    assert(s.to_set().subset_of(universo(g)));
    vstd::set_lib::lemma_len_subset(s.to_set(), universo(g));
}

/// What `prediz` adds: items `(q, 0)` for rules `q >= p` with left-hand side
/// `x`, each missing before; nothing else.
proof fn lemma_prediz(g: &Gramatica, itens: Seq<ItemLR>, x: Seq<char>, p: int)
    requires
        itens_ok(g, itens),
        0 <= p,
    ensures
        itens_ok(g, prediz(g, itens, x, p)),
        prediz(g, itens, x, p).len() >= itens.len(),
        prediz(g, itens, x, p).subrange(0, itens.len() as int) == itens,
        forall|q: int|
            p <= q < g.num_regras() && g.lado_esquerdo(q) == x ==> prediz(
                g,
                itens,
                x,
                p,
            ).contains(#[trigger] item_inicial_de(q)),
        (forall|q: int|
            p <= q < g.num_regras() && g.lado_esquerdo(q) == x ==> itens.contains(
                #[trigger] item_inicial_de(q),
            )) ==> prediz(g, itens, x, p) == itens,
    decreases g.num_regras() - p,
{
    if p < g.num_regras() {
        let novo = item_inicial_de(p);
        let proximos = if g.lado_esquerdo(p) == x && !itens.contains(novo) {
            itens.push(novo)
        } else {
            itens
        };
        assert(itens_ok(g, proximos)) by {
            if proximos != itens {
                assert forall|a: int, b: int|
                    0 <= a < proximos.len() && 0 <= b < proximos.len() && a != b implies proximos[a]
                    != proximos[b] by {
                    if a == itens.len() {
                        assert(itens.contains(proximos[b]) || b == a);
                    }
                    if b == itens.len() {
                        assert(itens.contains(proximos[a]) || b == a);
                    }
                }
            }
        }
        lemma_prediz(g, proximos, x, p + 1);
        let r = prediz(g, proximos, x, p + 1);
        assert(r.subrange(0, itens.len() as int) =~= itens) by {
            assert(r.subrange(0, proximos.len() as int) == proximos);
            assert forall|k: int| 0 <= k < itens.len() implies r[k] == itens[k] by {
                assert(r.subrange(0, proximos.len() as int)[k] == proximos[k]);
            }
        }
        assert forall|q: int| p <= q < g.num_regras() && g.lado_esquerdo(q) == x implies r.contains(
            #[trigger] item_inicial_de(q),
        ) by {
            if q == p {
                if itens.contains(novo) {
                    let k = choose|k: int| 0 <= k < itens.len() && itens[k] == novo;
                    assert(r.subrange(0, itens.len() as int)[k] == novo);
                } else {
                    assert(proximos[itens.len() as int] == novo);
                    assert(r.subrange(0, proximos.len() as int) == proximos);
                    assert(r.subrange(0, proximos.len() as int)[itens.len() as int] == novo);
                }
            }
        }
    } else {
        assert(itens.subrange(0, itens.len() as int) =~= itens);
    }
}

/// One closure step keeps the list valid and extends it.
proof fn lemma_expande(g: &Gramatica, itens: Seq<ItemLR>, it: ItemLR)
    requires
        itens_ok(g, itens),
    ensures
        itens_ok(g, expande(g, itens, it)),
        expande(g, itens, it).len() >= itens.len(),
        expande(g, itens, it).subrange(0, itens.len() as int) == itens,
        expandido(g, expande(g, itens, it), it),
{
    if item_valido(g, it) && !completo(g, it) {
        lemma_prediz(g, itens, proximo(g, it), 0);
    } else {
        assert(itens.subrange(0, itens.len() as int) =~= itens);
    }
}

#[via_fn]
proof fn fecho_desde_termina(g: &Gramatica, itens: Seq<ItemLR>, i: int) {
    if itens_ok(g, itens) && 0 <= i < itens.len() {
        let e = expande(g, itens, itens[i]);
        lemma_expande(g, itens, itens[i]);
        lemma_itens_limitados(g, e);
    }
}

/// `fecho_desde` returns a closed list of distinct valid items that extends
/// its argument, provided the items before `i` were already expanded.
proof fn lemma_fecho_desde(g: &Gramatica, itens: Seq<ItemLR>, i: int)
    requires
        itens_ok(g, itens),
        0 <= i <= itens.len(),
        forall|j: int| 0 <= j < i ==> expandido(g, itens, #[trigger] itens[j]),
    ensures
        itens_ok(g, fecho_desde(g, itens, i)),
        fechado(g, fecho_desde(g, itens, i)),
        fecho_desde(g, itens, i).len() >= itens.len(),
        fecho_desde(g, itens, i).subrange(0, itens.len() as int) == itens,
    decreases universo(g).len() - itens.len(), itens.len() - i,
{
    if i >= itens.len() {
        assert(itens.subrange(0, itens.len() as int) =~= itens);
    } else {
        let e = expande(g, itens, itens[i]);
        lemma_expande(g, itens, itens[i]);
        lemma_itens_limitados(g, e);
        assert forall|j: int| 0 <= j < i + 1 implies expandido(g, e, #[trigger] e[j]) by {
            assert(e.subrange(0, itens.len() as int)[j] == itens[j]);
            if j < i {
                assert(expandido(g, itens, itens[j]));
                assert forall|x: ItemLR| itens.contains(x) implies e.contains(x) by {
                    let k = choose|k: int| 0 <= k < itens.len() && itens[k] == x;
                    assert(e.subrange(0, itens.len() as int)[k] == x);
                }
            }
        }
        lemma_fecho_desde(g, e, i + 1);
        let r = fecho_desde(g, e, i + 1);
        assert(r.len() >= e.len());
        assert(r.subrange(0, itens.len() as int) =~= itens) by {
            assert forall|k: int| 0 <= k < itens.len() implies r[k] == itens[k] by {
                assert(r.subrange(0, e.len() as int)[k] == e[k]);
                assert(e.subrange(0, itens.len() as int)[k] == itens[k]);
            }
        }
    }
}

/// The closure of distinct valid seeds is a closed list of distinct valid
/// items that starts with the seeds.
pub proof fn lemma_fecho(g: &Gramatica, iniciais: Seq<ItemLR>)
    requires
        itens_ok(g, iniciais),
    ensures
        itens_ok(g, fecho(g, iniciais)),
        fechado(g, fecho(g, iniciais)),
        fecho(g, iniciais).len() >= iniciais.len(),
        fecho(g, iniciais).subrange(0, iniciais.len() as int) == iniciais,
{
    lemma_fecho_desde(g, iniciais, 0);
}

proof fn lemma_fecho_desde_fechado(g: &Gramatica, itens: Seq<ItemLR>, i: int)
    requires
        itens_ok(g, itens),
        fechado(g, itens),
        0 <= i,
    ensures
        fecho_desde(g, itens, i) == itens,
    decreases itens.len() - i,
{
    if i < itens.len() {
        let it = itens[i];
        assert(expandido(g, itens, it));
        if item_valido(g, it) && !completo(g, it) {
            lemma_prediz(g, itens, proximo(g, it), 0);
        }
        assert(expande(g, itens, it) == itens);
        lemma_fecho_desde_fechado(g, itens, i + 1);
    }
}

/// Closure is idempotent: closing an already closed item list yields the
/// same list, item for item.
pub proof fn lemma_fecho_idempotente(g: &Gramatica, iniciais: Seq<ItemLR>)
    requires
        itens_ok(g, iniciais),
    ensures
        fecho(g, fecho(g, iniciais)) == fecho(g, iniciais),
{
    lemma_fecho(g, iniciais);
    lemma_fecho_desde_fechado(g, fecho(g, iniciais), 0);
}

proof fn lemma_acrescenta_item(g: &Gramatica, s: Seq<ItemLR>, it: ItemLR)
    requires
        itens_ok(g, s),
        !s.contains(it),
        item_valido(g, it),
    ensures
        itens_ok(g, s.push(it)),
{
    let t = s.push(it);
    assert forall|a: int, b: int| 0 <= a < t.len() && 0 <= b < t.len() && a != b implies t[a]
        != t[b] by {
        if a == s.len() {
            assert(s.contains(t[b]));
        }
        if b == s.len() {
            assert(s.contains(t[a]));
        }
    }
}

/// Whether `v` holds `it`.
pub fn contem_item(v: &Vec<ItemLR>, it: ItemLR) -> (r: bool)
    ensures
        r == v@.contains(it),
{
    let mut i: usize = 0;
    while i < v.len()
        invariant
            i <= v@.len(),
            forall|j: int| 0 <= j < i ==> v@[j] != it,
        decreases v@.len() - i,
    {
        if v[i] == it {
            return true;
        }
        i = i + 1;
    }
    false
}

/// Adds `(p, 0)` for every rule `p` whose left-hand side is `x` and whose
/// item is missing.
fn acrescenta_predicoes(g: &Gramatica, itens: &mut Vec<ItemLR>, x: &String)
    requires
        itens_ok(g, old(itens)@),
    ensures
        final(itens)@ == prediz(g, old(itens)@, x@, 0),
        itens_ok(g, final(itens)@),
{
    let mut p: usize = 0;
    while p < g.regras.len()
        invariant
            p <= g.regras@.len(),
            itens_ok(g, itens@),
            prediz(g, itens@, x@, p as int) == prediz(g, old(itens)@, x@, 0),
        decreases g.regras@.len() - p,
    {
        let novo = ItemLR { producao: p, posicao_do_ponto: 0 };
        if g.regras[p].nao_terminal == *x && !contem_item(itens, novo) {
            proof {
                lemma_acrescenta_item(g, itens@, novo);
            }
            itens.push(novo);
        }
        p = p + 1;
    }
}

/// The closure of `iniciais` (see `fecho`).
pub fn fechamento(g: &Gramatica, iniciais: &Vec<ItemLR>) -> (r: Vec<ItemLR>)
    requires
        itens_ok(g, iniciais@),
    ensures
        r@ == fecho(g, iniciais@),
{
    let mut itens: Vec<ItemLR> = Vec::new();
    let mut k: usize = 0;
    while k < iniciais.len()
        invariant
            k <= iniciais@.len(),
            itens@ == iniciais@.take(k as int),
        decreases iniciais@.len() - k,
    {
        itens.push(iniciais[k]);
        k = k + 1;
        assert(itens@ =~= iniciais@.take(k as int));
    }
    assert(iniciais@.take(k as int) =~= iniciais@);
    let mut i: usize = 0;
    while i < itens.len()
        invariant
            i <= itens@.len(),
            itens_ok(g, itens@),
            fecho_desde(g, itens@, i as int) == fecho(g, iniciais@),
        decreases universo(g).len() - itens@.len(), itens@.len() - i,
    {
        let it = itens[i];
        let ghost antes = itens@;
        assert(item_valido(g, antes[i as int]));
        if it.posicao_do_ponto < g.regras[it.producao].producao.len() {
            let x = g.regras[it.producao].producao[it.posicao_do_ponto].clone();
            acrescenta_predicoes(g, &mut itens, &x);
        }
        assert(itens@ == expande(g, antes, antes[i as int]));
        proof {
            lemma_expande(g, antes, antes[i as int]);
            lemma_itens_limitados(g, itens@);
        }
        i = i + 1;
    }
    itens
}

/// `x` stands on some right-hand side.
pub open spec fn aparece_a_direita(g: &Gramatica, x: Seq<char>) -> bool {
    exists|p: int, k: int| 0 <= p < g.num_regras() && 0 <= k < g.tamanho(p) && #[trigger] g.simbolo(p, k) == x
}

/// An item of a closure is a seed or a prediction `(q, 0)` of a rule whose
/// left-hand side stands on some right-hand side.
pub open spec fn origem_no_fecho(g: &Gramatica, iniciais: Seq<ItemLR>, it: ItemLR) -> bool {
    iniciais.contains(it) || (it.posicao_do_ponto == 0 && it.producao < g.num_regras()
        && aparece_a_direita(g, g.lado_esquerdo(it.producao as int)))
}

proof fn lemma_prediz_origem(g: &Gramatica, iniciais: Seq<ItemLR>, itens: Seq<ItemLR>, it: ItemLR, p: int)
    requires
        g.tamanhos_cabem(),
        0 <= p,
        item_valido(g, it),
        !completo(g, it),
        forall|k: int| 0 <= k < itens.len() ==> origem_no_fecho(g, iniciais, #[trigger] itens[k]),
    ensures
        forall|k: int|
            0 <= k < prediz(g, itens, proximo(g, it), p).len() ==> origem_no_fecho(
                g,
                iniciais,
                #[trigger] prediz(g, itens, proximo(g, it), p)[k],
            ),
    decreases g.num_regras() - p,
{
    if p < g.num_regras() {
        let x = proximo(g, it);
        let novo = item_inicial_de(p);
        let proximos = if g.lado_esquerdo(p) == x && !itens.contains(novo) {
            itens.push(novo)
        } else {
            itens
        };
        assert forall|k: int| 0 <= k < proximos.len() implies origem_no_fecho(g, iniciais, #[trigger] proximos[k]) by {
            if k == itens.len() {
                assert(g.simbolo(it.producao as int, it.posicao_do_ponto as int) == g.lado_esquerdo(p));
                assert(proximos[k].producao as int == p);
                assert(aparece_a_direita(g, g.lado_esquerdo(p)));
            } else {
                assert(proximos[k] == itens[k]);
            }
        }
        lemma_prediz_origem(g, iniciais, proximos, it, p + 1);
        assert(prediz(g, itens, x, p) == prediz(g, proximos, x, p + 1));
    } else {
        assert(prediz(g, itens, proximo(g, it), p) == itens);
    }
}

proof fn lemma_fecho_desde_origem(g: &Gramatica, iniciais: Seq<ItemLR>, itens: Seq<ItemLR>, i: int)
    requires
        g.tamanhos_cabem(),
        itens_ok(g, itens),
        0 <= i,
        forall|k: int| 0 <= k < itens.len() ==> origem_no_fecho(g, iniciais, #[trigger] itens[k]),
    ensures
        forall|k: int|
            0 <= k < fecho_desde(g, itens, i).len() ==> origem_no_fecho(
                g,
                iniciais,
                #[trigger] fecho_desde(g, itens, i)[k],
            ),
    decreases universo(g).len() - itens.len(), itens.len() - i,
{
    if i < itens.len() {
        let it = itens[i];
        let e = expande(g, itens, it);
        lemma_expande(g, itens, it);
        lemma_itens_limitados(g, e);
        if item_valido(g, it) && !completo(g, it) {
            lemma_prediz_origem(g, iniciais, itens, it, 0);
        }
        lemma_fecho_desde_origem(g, iniciais, e, i + 1);
        assert(fecho_desde(g, itens, i) == fecho_desde(g, e, i + 1));
    } else {
        assert(fecho_desde(g, itens, i) == itens);
    }
}

/// Every item of a closure is a seed or a prediction.
pub proof fn lemma_fecho_origem(g: &Gramatica, iniciais: Seq<ItemLR>)
    requires
        g.tamanhos_cabem(),
        itens_ok(g, iniciais),
    ensures
        forall|k: int|
            0 <= k < fecho(g, iniciais).len() ==> origem_no_fecho(g, iniciais, #[trigger] fecho(g, iniciais)[k]),
{
    assert forall|k: int| 0 <= k < iniciais.len() implies origem_no_fecho(g, iniciais, #[trigger] iniciais[k]) by {
        assert(iniciais.contains(iniciais[k]));
    }
    lemma_fecho_desde_origem(g, iniciais, iniciais, 0);
}

} // verus!
