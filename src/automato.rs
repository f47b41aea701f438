//! The LR(0) automaton: states, the construction driven by a stack of newly
//! interned transitions, destination lookup, and what holds of the result.
use vstd::prelude::*;

use crate::fecho::{
    aparece_a_direita, fechado, fechamento, fecho, item_valido, itens_ok, lemma_fecho, lemma_fecho_origem,
    origem_no_fecho, proximo, universo, ItemLR,
};
use crate::gramatica::Gramatica;
use crate::transicoes::{
    agrupa_transicoes, aponta, indices_corretos, lemma_filtro_sem_repeticao, lemma_locais,
    lemma_pool_limitado, lemma_registra, lemma_registra_novos, lemma_simbolo_presente,
    lemma_simbolos_sem_repeticao, mesmo_conjunto, mesmos_itens, move_sobre, partes, pool_ok,
    registra, registra_transicoes, simbolos_de, sobre, transicao_ok, transicoes_locais,
    vista_transicoes, Transicao, TransicaoV,
};

verus! {

/// A state: the items it was seeded with, their closure, and the pool indices
/// of its outgoing transitions, one per symbol after a dot.
pub struct Estado {
    pub itens_iniciais: Vec<ItemLR>,
    pub itens: Vec<ItemLR>,
    pub transicoes: Vec<usize>,
}

/// The mathematical value of a state.
pub struct EstadoV {
    pub iniciais: Seq<ItemLR>,
    pub itens: Seq<ItemLR>,
    pub transicoes: Seq<usize>,
}

impl View for Estado {
    type V = EstadoV;

    open spec fn view(&self) -> EstadoV {
        EstadoV { iniciais: self.itens_iniciais@, itens: self.itens@, transicoes: self.transicoes@ }
    }
}

pub open spec fn vista_estados(es: Seq<Estado>) -> Seq<EstadoV> {
    es.map_values(|e: Estado| e@)
}

/// The automaton: the grammar, the states in order of creation, and the
/// global pool of distinct transitions that the states index into.
pub struct Automato {
    pub gramatica: Gramatica,
    pub estados: Vec<Estado>,
    pub transicoes: Vec<Transicao>,
}

/// The item with its dot moved one symbol right.
pub open spec fn avanca_item(it: ItemLR) -> ItemLR {
    ItemLR { producao: it.producao, posicao_do_ponto: (it.posicao_do_ponto + 1) as usize }
}

/// Every item of the list with its dot moved one symbol right.
pub open spec fn avanca(itens: Seq<ItemLR>) -> Seq<ItemLR> {
    itens.map_values(|it: ItemLR| avanca_item(it))
}

/// The state seeded by `iniciais`, and the pool once its transitions are
/// interned.
pub open spec fn novo_estado(g: &Gramatica, pool: Seq<TransicaoV>, iniciais: Seq<ItemLR>) -> (
    EstadoV,
    Seq<TransicaoV>,
) {
    let itens = fecho(g, iniciais);
    let r = registra(pool, transicoes_locais(g, itens));
    (EstadoV { iniciais, itens, transicoes: r.1 }, r.0)
}

/// The seed of the successor state along a transition.
fn avanca_itens(g: &Gramatica, itens: &Vec<ItemLR>) -> (r: Vec<ItemLR>)
    requires
        forall|k: int| 0 <= k < itens@.len() ==> sobre(g, #[trigger] itens@[k], proximo(g, itens@[k])),
    ensures
        r@ == avanca(itens@),
{
    let mut r: Vec<ItemLR> = Vec::new();
    let mut k: usize = 0;
    while k < itens.len()
        invariant
            k <= itens@.len(),
            forall|m: int| 0 <= m < itens@.len() ==> sobre(g, #[trigger] itens@[m], proximo(g, itens@[m])),
            r@ == avanca(itens@).take(k as int),
        decreases itens@.len() - k,
    {
        let it = itens[k];
        assert(sobre(g, itens@[k as int], proximo(g, itens@[k as int])));
        let tamanho = g.regras[it.producao].producao.len();
        assert(it.posicao_do_ponto < tamanho);
        r.push(ItemLR { producao: it.producao, posicao_do_ponto: it.posicao_do_ponto + 1 });
        k = k + 1;
        assert(r@ =~= avanca(itens@).take(k as int));
    }
    assert(avanca(itens@).take(k as int) =~= avanca(itens@));
    r
}

impl Automato {
    /// Builds the state seeded by `itens_iniciais`, interns its transitions
    /// and appends it; returns the pool length before the call, so that the
    /// newly interned transitions are those from that index on.
    fn gera_estado(&mut self, itens_iniciais: Vec<ItemLR>) -> (anterior: usize)
        requires
            itens_ok(&old(self).gramatica, itens_iniciais@),
        ensures
            final(self).gramatica == old(self).gramatica,
            anterior == old(self).transicoes@.len(),
            vista_estados(final(self).estados@) == vista_estados(old(self).estados@).push(
                novo_estado(
                    &old(self).gramatica,
                    vista_transicoes(old(self).transicoes@),
                    itens_iniciais@,
                ).0,
            ),
            vista_transicoes(final(self).transicoes@) == novo_estado(
                &old(self).gramatica,
                vista_transicoes(old(self).transicoes@),
                itens_iniciais@,
            ).1,
            fechado(&old(self).gramatica, final(self).estados@[old(self).estados@.len() as int].itens@),
            pool_ok(&old(self).gramatica, vista_transicoes(old(self).transicoes@)) ==> pool_ok(
                &old(self).gramatica,
                vista_transicoes(final(self).transicoes@),
            ),
    {
        let itens = fechamento(&self.gramatica, &itens_iniciais);
        proof {
            lemma_fecho(&self.gramatica, itens_iniciais@);
            lemma_locais(&self.gramatica, itens@);
            if pool_ok(&self.gramatica, vista_transicoes(self.transicoes@)) {
                lemma_registra(
                    &self.gramatica,
                    vista_transicoes(self.transicoes@),
                    transicoes_locais(&self.gramatica, itens@),
                );
            }
        }
        let locais = agrupa_transicoes(&self.gramatica, &itens);
        let anterior = self.transicoes.len();
        let indices = registra_transicoes(&mut self.transicoes, &locais);
        let estado = Estado { itens_iniciais, itens, transicoes: indices };
        let ghost antes = self.estados@;
        self.estados.push(estado);
        assert(vista_estados(self.estados@) =~= vista_estados(antes).push(estado@));
        assert(self.estados@[antes.len() as int] == estado);
        anterior
    }
}

/// Moving the dots of a proper transition's items gives distinct valid items.
proof fn lemma_avanca_ok(g: &Gramatica, t: TransicaoV)
    requires
        transicao_ok(g, t),
    ensures
        itens_ok(g, avanca(t.itens)),
        avanca(t.itens).len() == t.itens.len(),
{
    let a = avanca(t.itens);
    assert forall|i: int, j: int| 0 <= i < a.len() && 0 <= j < a.len() && i != j implies a[i]
        != a[j] by {
        let x = t.itens[i].posicao_do_ponto;
        let y = t.itens[j].posicao_do_ponto;
        if t.itens[i].producao == t.itens[j].producao {
            assert(x != y);
            assert((x + 1) as usize != (y + 1) as usize) by (bit_vector)
                requires
                    x != y,
            ;
        }
    }
    assert forall|j: int| 0 <= j < a.len() implies item_valido(g, #[trigger] a[j]) by {
        assert(sobre(g, t.itens[j], t.simbolo));
    }
}

/// The construction in progress: states so far, the pool, and the stack of
/// pool indices whose successor states are still to be built.
pub struct Construcao {
    pub estados: Seq<EstadoV>,
    pub pool: Seq<TransicaoV>,
    pub pilha: Seq<usize>,
}

/// `pilha` with `ate - 1`, ..., `de` pushed, so that `de` comes off first.
pub open spec fn empilha_novos(pilha: Seq<usize>, de: nat, ate: nat) -> Seq<usize>
    decreases ate - de,
{
    if ate <= de {
        pilha
    } else {
        empilha_novos(pilha.push((ate - 1) as usize), de, (ate - 1) as nat)
    }
}

proof fn lemma_empilha_novos(pilha: Seq<usize>, de: nat, ate: nat)
    requires
        de <= ate,
    ensures
        empilha_novos(pilha, de, ate).len() == pilha.len() + ate - de,
        empilha_novos(pilha, de, ate).subrange(0, pilha.len() as int) == pilha,
        ate <= usize::MAX + 1 ==> forall|k: int|
            pilha.len() <= k < pilha.len() + ate - de ==> de <= #[trigger] empilha_novos(
                pilha,
                de,
                ate,
            )[k] < ate,
        forall|v: usize| de <= v < ate ==> #[trigger] empilha_novos(pilha, de, ate).contains(v),
        ate <= usize::MAX + 1 && pilha.no_duplicates() && (forall|k: int|
            0 <= k < pilha.len() ==> #[trigger] pilha[k] < de || pilha[k] >= ate)
            ==> empilha_novos(pilha, de, ate).no_duplicates(),
    decreases ate - de,
{
    if ate > de {
        let p2 = pilha.push((ate - 1) as usize);
        if ate <= usize::MAX + 1 && pilha.no_duplicates() && (forall|k: int|
            0 <= k < pilha.len() ==> #[trigger] pilha[k] < de || pilha[k] >= ate) {
            assert forall|a: int, b: int| 0 <= a < p2.len() && 0 <= b < p2.len() && a != b implies p2[a]
                != p2[b] by {
                if a < pilha.len() && b < pilha.len() {
                    assert(pilha[a] != pilha[b]);
                } else if a < pilha.len() {
                    assert(pilha[a] < de || pilha[a] >= ate);
                } else if b < pilha.len() {
                    assert(pilha[b] < de || pilha[b] >= ate);
                }
            }
            assert forall|k: int| 0 <= k < p2.len() implies #[trigger] p2[k] < de || p2[k] >= ate - 1 by {
                if k < pilha.len() {
                    assert(pilha[k] < de || pilha[k] >= ate);
                }
            }
        }
        lemma_empilha_novos(p2, de, (ate - 1) as nat);
        let r = empilha_novos(p2, de, (ate - 1) as nat);
        assert(r.subrange(0, pilha.len() as int) =~= pilha) by {
            assert forall|k: int| 0 <= k < pilha.len() implies r[k] == pilha[k] by {
                assert(r.subrange(0, p2.len() as int)[k] == p2[k]);
            }
        }
        assert(r[pilha.len() as int] == (ate - 1) as usize) by {
            assert(r.subrange(0, p2.len() as int)[pilha.len() as int] == p2[pilha.len() as int]);
        }
        assert forall|v: usize| de <= v < ate implies #[trigger] r.contains(v) by {
            if v == ate - 1 {
                assert(r[pilha.len() as int] == v);
            }
        }
    } else {
        assert(pilha.subrange(0, pilha.len() as int) =~= pilha);
    }
}

/// One construction step: pop a pool index, build the successor state along
/// that transition, and push the indices that this interned anew.
pub open spec fn passo(g: &Gramatica, c: Construcao) -> Construcao {
    let j = c.pilha.last();
    let n = novo_estado(g, c.pool, avanca(c.pool[j as int].itens));
    Construcao {
        estados: c.estados.push(n.0),
        pool: n.1,
        pilha: empilha_novos(c.pilha.drop_last(), c.pool.len(), n.1.len()),
    }
}

/// The pool is proper and the stack holds pool indices.
pub open spec fn construcao_ok(g: &Gramatica, c: Construcao) -> bool {
    &&& pool_ok(g, c.pool)
    &&& forall|k: int| 0 <= k < c.pilha.len() ==> #[trigger] c.pilha[k] < c.pool.len()
}

/// Sets of valid items not yet in the pool, plus pending stack entries.
pub open spec fn medida(g: &Gramatica, c: Construcao) -> int {
    partes(universo(g)).len() - c.pool.len() + c.pilha.len()
}

/// Steps until the stack is empty.
pub open spec fn executa(g: &Gramatica, c: Construcao) -> Construcao
    decreases medida(g, c),
    when construcao_ok(g, c)
    via executa_termina
{
    if c.pilha.len() == 0 {
        c
    } else {
        executa(g, passo(g, c))
    }
}

proof fn lemma_passo(g: &Gramatica, c: Construcao)
    requires
        construcao_ok(g, c),
        c.pilha.len() > 0,
    ensures
        pool_ok(g, passo(g, c).pool),
        passo(g, c).pool.len() <= usize::MAX ==> construcao_ok(g, passo(g, c)),
        passo(g, c).pool.len() >= c.pool.len(),
        passo(g, c).pool.subrange(0, c.pool.len() as int) == c.pool,
        passo(g, c).pilha.len() == c.pilha.len() - 1 + passo(g, c).pool.len() - c.pool.len(),
{
    let j = c.pilha.last();
    assert(c.pilha[c.pilha.len() - 1] < c.pool.len());
    assert(transicao_ok(g, c.pool[j as int]));
    let semente = avanca(c.pool[j as int].itens);
    lemma_avanca_ok(g, c.pool[j as int]);
    lemma_fecho(g, semente);
    lemma_locais(g, fecho(g, semente));
    lemma_registra(g, c.pool, transicoes_locais(g, fecho(g, semente)));
    let n = novo_estado(g, c.pool, semente);
    lemma_empilha_novos(c.pilha.drop_last(), c.pool.len(), n.1.len());
    let p = passo(g, c);
    if p.pool.len() <= usize::MAX {
        assert forall|k: int| 0 <= k < p.pilha.len() implies #[trigger] p.pilha[k] < p.pool.len() by {
            if k < c.pilha.len() - 1 {
                assert(p.pilha.subrange(0, c.pilha.len() - 1)[k] == c.pilha[k]);
            }
        }
    }
}

#[via_fn]
proof fn executa_termina(g: &Gramatica, c: Construcao) {
    if construcao_ok(g, c) && c.pilha.len() > 0 {
        lemma_passo(g, c);
        lemma_pool_limitado(g, passo(g, c).pool);
    }
}

/// The seed of state 0: the augmented start production with the dot in
/// front.
pub open spec fn semente_inicial() -> Seq<ItemLR> {
    seq![ItemLR { producao: 0, posicao_do_ponto: 0 }]
}

/// The construction right after state 0 is built.
pub open spec fn inicio(g: &Gramatica) -> Construcao {
    let n = novo_estado(g, Seq::empty(), semente_inicial());
    Construcao { estados: seq![n.0], pool: n.1, pilha: empilha_novos(Seq::empty(), 0, n.1.len()) }
}

/// The finished automaton of `g`: states in order of creation (depth-first
/// along newly interned transitions) and the transition pool.
pub open spec fn automato_de(g: &Gramatica) -> Construcao {
    executa(g, inicio(g))
}

/// Pushes `ate - 1`, ..., `de` so that `de` is on top.
fn empilha(pilha: &mut Vec<usize>, de: usize, ate: usize)
    ensures
        final(pilha)@ == empilha_novos(old(pilha)@, de as nat, ate as nat),
{
    let mut k: usize = ate;
    while k > de
        invariant
            empilha_novos(pilha@, de as nat, k as nat) == empilha_novos(
                old(pilha)@,
                de as nat,
                ate as nat,
            ),
        decreases k,
    {
        k = k - 1;
        pilha.push(k);
    }
}

/// A state of a finished or growing automaton: distinct valid seeds, the
/// closure of those seeds, and one pool index per local transition, each
/// pointing at an entry with the same label and items.
pub open spec fn estado_ok(g: &Gramatica, pool: Seq<TransicaoV>, e: EstadoV) -> bool {
    &&& itens_ok(g, e.iniciais)
    &&& e.itens == fecho(g, e.iniciais)
    &&& indices_corretos(pool, transicoes_locais(g, e.itens), e.transicoes)
}

/// Some state is seeded by the successor items of pool entry `j`.
pub open spec fn tem_destino(estados: Seq<EstadoV>, pool: Seq<TransicaoV>, j: int) -> bool {
    exists|s: int| 0 <= s < estados.len() && (#[trigger] estados[s]).iniciais == avanca(pool[j].itens)
}

/// Moving the dots is injective.
pub proof fn lemma_avanca_injetiva(a: Seq<ItemLR>, b: Seq<ItemLR>)
    requires
        avanca(a) == avanca(b),
    ensures
        a == b,
{
    assert(a.len() == avanca(a).len());
    assert(b.len() == avanca(b).len());
    assert forall|k: int| 0 <= k < a.len() implies a[k] == b[k] by {
        assert(avanca(a)[k] == avanca(b)[k]);
        assert(avanca(a)[k] == avanca_item(a[k]));
        assert(avanca(b)[k] == avanca_item(b[k]));
        let x = a[k].posicao_do_ponto;
        let y = b[k].posicao_do_ponto;
        assert(x == y) by {
            assert((x + 1) as usize == (y + 1) as usize);
            assert(x == y) by (bit_vector)
                requires
                    (x + 1) as usize == (y + 1) as usize,
            ;
        }
    }
    assert(a =~= b);
}

/// Moving the dot of a pool item adds exactly one to its position.
proof fn lemma_avanca_nao_zero(g: &Gramatica, t: TransicaoV, k: int)
    requires
        g.tamanhos_cabem(),
        transicao_ok(g, t),
        0 <= k < t.itens.len(),
    ensures
        avanca(t.itens)[k].posicao_do_ponto == t.itens[k].posicao_do_ponto + 1,
        avanca(t.itens)[k].producao == t.itens[k].producao,
{
    assert(sobre(g, t.itens[k], t.simbolo));
    assert(g.tamanho(t.itens[k].producao as int) <= usize::MAX);
}

/// What holds of the automaton throughout its construction.
pub open spec fn construcao_bem_formada(g: &Gramatica, c: Construcao) -> bool {
    &&& c.estados.len() > 0
    &&& c.estados[0].iniciais == semente_inicial()
    &&& forall|s: int| 0 <= s < c.estados.len() ==> estado_ok(g, c.pool, #[trigger] c.estados[s])
    &&& forall|j: int|
        0 <= j < c.pool.len() ==> c.pilha.contains(j as usize) || tem_destino(c.estados, c.pool, j)
    &&& origens(c.estados, c.pool)
    &&& c.pilha.no_duplicates()
    &&& forall|k: int| 0 <= k < c.pilha.len() ==> !tem_destino(c.estados, c.pool, #[trigger] c.pilha[k] as int)
}

/// Where states and transitions come from: each state after the first is
/// seeded along a pool entry, no two states share a seed, and each pool
/// entry is the transition of some state.
pub open spec fn origens(estados: Seq<EstadoV>, pool: Seq<TransicaoV>) -> bool {
    &&& forall|s: int|
        1 <= s < estados.len() ==> exists|j: int|
            0 <= j < pool.len() && (#[trigger] estados[s]).iniciais == avanca(pool[j].itens)
    &&& forall|s1: int, s2: int|
        #![trigger estados[s1], estados[s2]]
        0 <= s1 < estados.len() && 0 <= s2 < estados.len() && s1 != s2 ==> estados[s1].iniciais
            != estados[s2].iniciais
    &&& forall|j: int| 0 <= j < pool.len() ==> #[trigger] referenciada(estados, j)
}

/// Some state has pool entry `j` among its transitions.
pub open spec fn referenciada(estados: Seq<EstadoV>, j: int) -> bool {
    exists|s: int, m: int|
        0 <= s < estados.len() && 0 <= m < estados[s].transicoes.len() && #[trigger] estados[s].transicoes[m]
            == j
}

/// A finished automaton: a proper pool, state 0 seeded by `(0, 0)`, every
/// state well formed, and every pool entry leading to a state.
pub open spec fn automato_ok(g: &Gramatica, estados: Seq<EstadoV>, pool: Seq<TransicaoV>) -> bool {
    &&& pool_ok(g, pool)
    &&& estados.len() > 0
    &&& estados[0].iniciais == semente_inicial()
    &&& forall|s: int| 0 <= s < estados.len() ==> estado_ok(g, pool, #[trigger] estados[s])
    &&& forall|j: int| 0 <= j < pool.len() ==> tem_destino(estados, pool, j)
    &&& origens(estados, pool)
}

proof fn lemma_estado_extende(g: &Gramatica, pool: Seq<TransicaoV>, pool2: Seq<TransicaoV>, e: EstadoV)
    requires
        estado_ok(g, pool, e),
        pool.len() <= pool2.len(),
        pool2.subrange(0, pool.len() as int) == pool,
    ensures
        estado_ok(g, pool2, e),
{
    let locais = transicoes_locais(g, e.itens);
    assert forall|m: int| 0 <= m < locais.len() implies aponta(
        pool2,
        locais[m],
        #[trigger] e.transicoes[m] as int,
    ) by {
        assert(aponta(pool, locais[m], e.transicoes[m] as int));
        let i = e.transicoes[m] as int;
        assert(pool2.subrange(0, pool.len() as int)[i] == pool2[i]);
    }
}

proof fn lemma_inicio_bem_formado(g: &Gramatica)
    requires
        g.num_regras() > 0,
        g.tamanhos_cabem(),
        inicio(g).pool.len() <= usize::MAX,
    ensures
        construcao_ok(g, inicio(g)),
        construcao_bem_formada(g, inicio(g)),
{
    let semente = semente_inicial();
    lemma_fecho(g, semente);
    lemma_locais(g, fecho(g, semente));
    lemma_registra(g, Seq::empty(), transicoes_locais(g, fecho(g, semente)));
    let c = inicio(g);
    lemma_empilha_novos(Seq::empty(), 0, c.pool.len());
    assert forall|j: int| 0 <= j < c.pool.len() implies c.pilha.contains(j as usize)
        || #[trigger] tem_destino(c.estados, c.pool, j) by {
        let v = j as usize;
        assert(c.pilha.contains(v));
    }
    lemma_registra_novos(Seq::empty(), transicoes_locais(g, fecho(g, semente)));
    assert forall|q: int| 0 <= q < c.pool.len() implies #[trigger] referenciada(c.estados, q) by {
        let v = q as usize;
        assert(c.estados[0].transicoes.contains(v));
        let m = choose|m: int| 0 <= m < c.estados[0].transicoes.len() && c.estados[0].transicoes[m] == v;
        assert(c.estados[0].transicoes[m] == q);
    }
    assert forall|k: int| 0 <= k < c.pilha.len() implies !tem_destino(c.estados, c.pool, #[trigger] c.pilha[k] as int) by {
        let v = c.pilha[k] as int;
        assert(0 <= v < c.pool.len());
        assert(transicao_ok(g, c.pool[v]));
        lemma_semente_inicial_distinta(g, c.pool[v]);
        if tem_destino(c.estados, c.pool, v) {
            let s = choose|s: int| 0 <= s < c.estados.len() && (#[trigger] c.estados[s]).iniciais == avanca(c.pool[v].itens);
            assert(s == 0);
        }
    }
}

/// The seed of state 0 is never the successor seed of a pool transition.
proof fn lemma_semente_inicial_distinta(g: &Gramatica, t: TransicaoV)
    requires
        g.tamanhos_cabem(),
        transicao_ok(g, t),
    ensures
        avanca(t.itens) != semente_inicial(),
{
    if avanca(t.itens) == semente_inicial() {
        lemma_avanca_nao_zero(g, t, 0);
        assert(avanca(t.itens)[0] == semente_inicial()[0]);
    }
}

proof fn lemma_passo_origens(g: &Gramatica, c: Construcao)
    requires
        g.tamanhos_cabem(),
        construcao_ok(g, c),
        construcao_bem_formada(g, c),
        c.pilha.len() > 0,
        passo(g, c).pool.len() <= usize::MAX,
    ensures
        origens(passo(g, c).estados, passo(g, c).pool),
{
    lemma_passo(g, c);
    let j = c.pilha.last();
    assert(c.pilha[c.pilha.len() - 1] < c.pool.len());
    let semente = avanca(c.pool[j as int].itens);
    lemma_avanca_ok(g, c.pool[j as int]);
    lemma_fecho(g, semente);
    let locais = transicoes_locais(g, fecho(g, semente));
    lemma_locais(g, fecho(g, semente));
    lemma_registra(g, c.pool, locais);
    lemma_registra_novos(c.pool, locais);
    let p = passo(g, c);
    let novo = p.estados.len() - 1;
    assert(p.estados[novo].iniciais == semente);
    assert forall|q: int| 0 <= q < c.pool.len() implies p.pool[q] == c.pool[q] by {
        assert(p.pool.subrange(0, c.pool.len() as int)[q] == c.pool[q]);
    }
    assert(!tem_destino(c.estados, c.pool, c.pilha[c.pilha.len() - 1] as int));
    assert forall|s: int| 1 <= s < p.estados.len() implies exists|i: int|
        0 <= i < p.pool.len() && (#[trigger] p.estados[s]).iniciais == avanca(p.pool[i].itens) by {
        if s < c.estados.len() {
            assert(p.estados[s] == c.estados[s]);
            let i = choose|i: int| 0 <= i < c.pool.len() && (#[trigger] c.estados[s]).iniciais == avanca(c.pool[i].itens);
            assert(p.pool[i] == c.pool[i]);
        } else {
            assert(p.pool[j as int] == c.pool[j as int]);
        }
    }
    assert forall|s1: int, s2: int|
        #![trigger p.estados[s1], p.estados[s2]]
        0 <= s1 < p.estados.len() && 0 <= s2 < p.estados.len() && s1 != s2 implies p.estados[s1].iniciais
        != p.estados[s2].iniciais by {
        if s1 < c.estados.len() && s2 < c.estados.len() {
            assert(p.estados[s1] == c.estados[s1]);
            assert(p.estados[s2] == c.estados[s2]);
        } else if s1 < c.estados.len() {
            assert(p.estados[s1] == c.estados[s1]);
            if c.estados[s1].iniciais == semente {
                assert(tem_destino(c.estados, c.pool, j as int));
            }
        } else {
            assert(p.estados[s2] == c.estados[s2]);
            if c.estados[s2].iniciais == semente {
                assert(tem_destino(c.estados, c.pool, j as int));
            }
        }
    }
    assert forall|q: int| 0 <= q < p.pool.len() implies #[trigger] referenciada(p.estados, q) by {
        if q < c.pool.len() {
            assert(referenciada(c.estados, q));
            let (s, m) = choose|s: int, m: int|
                0 <= s < c.estados.len() && 0 <= m < c.estados[s].transicoes.len()
                    && #[trigger] c.estados[s].transicoes[m] == q;
            assert(p.estados[s] == c.estados[s]);
            assert(p.estados[s].transicoes[m] == q);
        } else {
            let v = q as usize;
            assert(registra(c.pool, locais).1.contains(v));
            let m = choose|m: int| 0 <= m < p.estados[novo].transicoes.len() && p.estados[novo].transicoes[m] == v;
            assert(p.estados[novo].transicoes[m] == q);
        }
    }
}

proof fn lemma_passo_pilha(g: &Gramatica, c: Construcao)
    requires
        g.tamanhos_cabem(),
        construcao_ok(g, c),
        construcao_bem_formada(g, c),
        c.pilha.len() > 0,
        passo(g, c).pool.len() <= usize::MAX,
    ensures
        passo(g, c).pilha.no_duplicates(),
        forall|k: int|
            0 <= k < passo(g, c).pilha.len() ==> !tem_destino(
                passo(g, c).estados,
                passo(g, c).pool,
                #[trigger] passo(g, c).pilha[k] as int,
            ),
{
    lemma_passo(g, c);
    let j = c.pilha.last();
    assert(c.pilha[c.pilha.len() - 1] < c.pool.len());
    let semente = avanca(c.pool[j as int].itens);
    let p = passo(g, c);
    let novo = p.estados.len() - 1;
    assert(p.estados[novo].iniciais == semente);
    assert forall|q: int| 0 <= q < c.pool.len() implies p.pool[q] == c.pool[q] by {
        assert(p.pool.subrange(0, c.pool.len() as int)[q] == c.pool[q]);
    }
    let resto = c.pilha.drop_last();
    assert forall|k: int| 0 <= k < resto.len() implies #[trigger] resto[k] < c.pool.len() || resto[k]
        >= p.pool.len() by {
        assert(resto[k] == c.pilha[k]);
    }
    lemma_empilha_novos(resto, c.pool.len(), p.pool.len());
    assert forall|k: int| 0 <= k < p.pilha.len() implies !tem_destino(
        p.estados,
        p.pool,
        #[trigger] p.pilha[k] as int,
    ) by {
        let v = p.pilha[k] as int;
        if tem_destino(p.estados, p.pool, v) {
            let s = choose|s: int|
                0 <= s < p.estados.len() && (#[trigger] p.estados[s]).iniciais == avanca(p.pool[v].itens);
            if k < resto.len() {
                assert(p.pilha.subrange(0, resto.len() as int)[k] == resto[k]);
                assert(resto[k] == c.pilha[k]);
                assert(c.pilha[k] != c.pilha[c.pilha.len() - 1]);
                assert(p.pool[v] == c.pool[v]);
                if s < c.estados.len() {
                    assert(p.estados[s] == c.estados[s]);
                    assert(tem_destino(c.estados, c.pool, v));
                    assert(!tem_destino(c.estados, c.pool, c.pilha[k] as int));
                } else {
                    lemma_avanca_injetiva(c.pool[j as int].itens, c.pool[v].itens);
                    assert(!mesmo_conjunto(c.pool[j as int].itens, c.pool[v].itens));
                }
            } else {
                assert(c.pool.len() <= v < p.pool.len());
                assert(transicao_ok(g, p.pool[v]));
                if s == 0 {
                    assert(p.estados[0] == c.estados[0]);
                    lemma_semente_inicial_distinta(g, p.pool[v]);
                } else if s < c.estados.len() {
                    assert(p.estados[s] == c.estados[s]);
                    let i = choose|i: int|
                        0 <= i < c.pool.len() && (#[trigger] c.estados[s]).iniciais == avanca(c.pool[i].itens);
                    assert(p.pool[i] == c.pool[i]);
                    lemma_avanca_injetiva(p.pool[i].itens, p.pool[v].itens);
                    assert(!mesmo_conjunto(p.pool[i].itens, p.pool[v].itens));
                } else {
                    assert(p.pool[j as int] == c.pool[j as int]);
                    lemma_avanca_injetiva(p.pool[j as int].itens, p.pool[v].itens);
                    assert(!mesmo_conjunto(p.pool[j as int].itens, p.pool[v].itens));
                }
            }
        }
    }
}

proof fn lemma_passo_bem_formado(g: &Gramatica, c: Construcao)
    requires
        construcao_ok(g, c),
        construcao_bem_formada(g, c),
        c.pilha.len() > 0,
        passo(g, c).pool.len() <= usize::MAX,
        g.tamanhos_cabem(),
    ensures
        construcao_bem_formada(g, passo(g, c)),
{
    lemma_passo(g, c);
    lemma_passo_origens(g, c);
    lemma_passo_pilha(g, c);
    let j = c.pilha.last();
    assert(c.pilha[c.pilha.len() - 1] < c.pool.len());
    let semente = avanca(c.pool[j as int].itens);
    lemma_avanca_ok(g, c.pool[j as int]);
    lemma_fecho(g, semente);
    lemma_locais(g, fecho(g, semente));
    lemma_registra(g, c.pool, transicoes_locais(g, fecho(g, semente)));
    let p = passo(g, c);
    lemma_empilha_novos(c.pilha.drop_last(), c.pool.len(), p.pool.len());
    let novo = p.estados.len() - 1;
    assert(p.estados[novo].iniciais == semente);
    assert forall|s: int| 0 <= s < p.estados.len() implies estado_ok(g, p.pool, #[trigger] p.estados[s]) by {
        if s < c.estados.len() {
            assert(p.estados[s] == c.estados[s]);
            lemma_estado_extende(g, c.pool, p.pool, c.estados[s]);
        }
    }
    assert forall|k: int|
        0 <= k < p.pool.len() implies p.pilha.contains(k as usize) || tem_destino(
        p.estados,
        p.pool,
        k,
    ) by {
        if k >= c.pool.len() {
            assert(p.pilha.contains(k as usize));
        } else {
            assert(p.pool[k] == c.pool[k]) by {
                assert(p.pool.subrange(0, c.pool.len() as int)[k] == c.pool[k]);
            }
            assert(c.pilha.contains(k as usize) || tem_destino(c.estados, c.pool, k));
            if k == j {
                assert(p.estados[novo].iniciais == avanca(p.pool[k].itens));
            } else if c.pilha.contains(k as usize) {
                let q = choose|q: int| 0 <= q < c.pilha.len() && c.pilha[q] == k as usize;
                assert(q != c.pilha.len() - 1);
                assert(c.pilha.drop_last()[q] == k as usize);
                assert(p.pilha.subrange(0, c.pilha.len() - 1)[q] == k as usize);
                assert(p.pilha[q] == k as usize);
            } else {
                let s = choose|s: int|
                    0 <= s < c.estados.len() && (#[trigger] c.estados[s]).iniciais == avanca(
                        c.pool[k].itens,
                    );
                assert(p.estados[s] == c.estados[s]);
            }
        }
    }
}

impl Automato {
    /// A fresh automaton over `gramatica`, with no states yet.
    pub fn inicializa(gramatica: Gramatica) -> (r: Automato)
        ensures
            r.gramatica == gramatica,
            r.estados@.len() == 0,
            r.transicoes@.len() == 0,
    {
        Automato { gramatica, estados: Vec::new(), transicoes: Vec::new() }
    }

    /// The current construction state, with `pilha` as the stack.
    pub open spec fn em_construcao(&self, pilha: Seq<usize>) -> Construcao {
        Construcao {
            estados: vista_estados(self.estados@),
            pool: vista_transicoes(self.transicoes@),
            pilha,
        }
    }

    /// The states and the pool as mathematical values.
    pub open spec fn vista(&self) -> (Seq<EstadoV>, Seq<TransicaoV>) {
        (vista_estados(self.estados@), vista_transicoes(self.transicoes@))
    }

    /// The states and the pool are those that construction yields for the
    /// grammar.
    pub open spec fn construido(&self) -> bool {
        &&& vista_estados(self.estados@) == automato_de(&self.gramatica).estados
        &&& vista_transicoes(self.transicoes@) == automato_de(&self.gramatica).pool
    }

    /// The automaton is finished and well formed.
    pub open spec fn bem_formado(&self) -> bool {
        &&& self.gramatica.regras@.len() > 0
        &&& self.gramatica.tamanhos_cabem()
        &&& automato_ok(
            &self.gramatica,
            vista_estados(self.estados@),
            vista_transicoes(self.transicoes@),
        )
    }

    /// Builds the states and the transition pool of the grammar, starting
    /// from the item `(0, 0)`; any earlier states are discarded.
    pub fn analiza(&mut self)
        requires
            old(self).gramatica.regras@.len() > 0,
        ensures
            final(self).gramatica == old(self).gramatica,
            final(self).construido(),
            final(self).bem_formado(),
    {
        self.estados = Vec::new();
        self.transicoes = Vec::new();
        self.gramatica.confere_tamanhos();
        let ghost g = self.gramatica;
        let mut inicial: Vec<ItemLR> = Vec::new();
        inicial.push(ItemLR { producao: 0, posicao_do_ponto: 0 });
        assert(inicial@ =~= semente_inicial());
        assert(itens_ok(&g, inicial@));
        assert(vista_estados(self.estados@) =~= Seq::<EstadoV>::empty());
        assert(vista_transicoes(self.transicoes@) =~= Seq::<TransicaoV>::empty());
        let anterior = self.gera_estado(inicial);
        let mut pilha: Vec<usize> = Vec::new();
        let tamanho = self.transicoes.len();
        empilha(&mut pilha, anterior, tamanho);
        assert(vista_estados(self.estados@) =~= inicio(&g).estados);
        assert(self.em_construcao(pilha@) =~= inicio(&g));
        proof {
            lemma_inicio_bem_formado(&g);
        }
        while pilha.len() > 0
            invariant
                self.gramatica == g,
                g.regras@.len() > 0,
                g.tamanhos_cabem(),
                construcao_ok(&g, self.em_construcao(pilha@)),
                construcao_bem_formada(&g, self.em_construcao(pilha@)),
                executa(&g, self.em_construcao(pilha@)) == automato_de(&g),
            decreases medida(&g, self.em_construcao(pilha@)),
        {
            let ghost c = self.em_construcao(pilha@);
            proof {
                lemma_passo(&g, c);
                lemma_pool_limitado(&g, passo(&g, c).pool);
            }
            let j = pilha.pop().unwrap();
            assert(c.pilha[c.pilha.len() - 1] < c.pool.len());
            assert(c.pool[j as int] == self.transicoes@[j as int]@);
            assert(transicao_ok(&g, c.pool[j as int]));
            let semente = avanca_itens(&self.gramatica, &self.transicoes[j].itens);
            proof {
                lemma_avanca_ok(&g, c.pool[j as int]);
            }
            let anterior = self.gera_estado(semente);
            let tamanho = self.transicoes.len();
            empilha(&mut pilha, anterior, tamanho);
            assert(self.em_construcao(pilha@) == passo(&g, c));
            proof {
                lemma_passo_bem_formado(&g, c);
            }
        }
        assert forall|j: int| 0 <= j < self.transicoes@.len() implies tem_destino(
            vista_estados(self.estados@),
            vista_transicoes(self.transicoes@),
            j,
        ) by {
            assert(!pilha@.contains(j as usize));
        }
    }
}

/// The first state, from `s` on, whose seed holds the same items as `alvo`,
/// or the number of states when there is none.
pub open spec fn destino_desde(estados: Seq<EstadoV>, alvo: Seq<ItemLR>, s: int) -> int
    decreases estados.len() - s,
{
    if s < 0 || s >= estados.len() {
        estados.len() as int
    } else if mesmo_conjunto(estados[s].iniciais, alvo) {
        s
    } else {
        destino_desde(estados, alvo, s + 1)
    }
}

/// The state a transition with items `itens` leads to: the first state whose
/// seed holds those items with their dots moved one symbol right.
pub open spec fn destino(estados: Seq<EstadoV>, itens: Seq<ItemLR>) -> int {
    destino_desde(estados, avanca(itens), 0)
}

impl Automato {
    /// The state that pool transition `indice` leads to (see `destino`).
    pub fn obtem_estado(&self, indice: usize) -> (r: usize)
        requires
            self.bem_formado(),
            indice < self.transicoes@.len(),
        ensures
            r as int == destino(vista_estados(self.estados@), self.transicoes@[indice as int].itens@),
            r < self.estados@.len(),
            mesmo_conjunto(
                self.estados@[r as int].itens_iniciais@,
                avanca(self.transicoes@[indice as int].itens@),
            ),
    {
        let ghost estados = vista_estados(self.estados@);
        let ghost pool = vista_transicoes(self.transicoes@);
        assert(pool[indice as int] == self.transicoes@[indice as int]@);
        assert(transicao_ok(&self.gramatica, pool[indice as int]));
        let alvo = avanca_itens(&self.gramatica, &self.transicoes[indice].itens);
        assert(tem_destino(estados, pool, indice as int));
        let ghost w = choose|w: int|
            0 <= w < estados.len() && (#[trigger] estados[w]).iniciais == avanca(
                pool[indice as int].itens,
            );
        assert(estados[w] == self.estados@[w]@);
        let mut s: usize = 0;
        while s < self.estados.len()
            invariant
                s <= self.estados@.len(),
                estados == vista_estados(self.estados@),
                alvo@ == avanca(self.transicoes@[indice as int].itens@),
                destino_desde(estados, alvo@, s as int) == destino(
                    estados,
                    self.transicoes@[indice as int].itens@,
                ),
                0 <= w < estados.len(),
                mesmo_conjunto(self.estados@[w].itens_iniciais@, alvo@),
                forall|q: int|
                    0 <= q < s ==> !mesmo_conjunto(
                        #[trigger] self.estados@[q].itens_iniciais@,
                        alvo@,
                    ),
            decreases self.estados@.len() - s,
        {
            assert(estados[s as int] == self.estados@[s as int]@);
            if mesmos_itens(&self.estados[s].itens_iniciais, &alvo) {
                return s;
            }
            s = s + 1;
        }
        proof {
            assert(!mesmo_conjunto(self.estados@[w].itens_iniciais@, alvo@));
        }
        s
    }
}

/// Pool uniqueness: in a finished automaton no two pool entries have the
/// same label and the same items.
pub proof fn lemma_pool_sem_repeticao(a: &Automato)
    requires
        a.bem_formado(),
    ensures
        forall|i: int, j: int|
            #![trigger a.transicoes@[i], a.transicoes@[j]]
            0 <= i < a.transicoes@.len() && 0 <= j < a.transicoes@.len() && i != j ==> !(
            a.transicoes@[i]@.simbolo == a.transicoes@[j]@.simbolo && mesmo_conjunto(
                a.transicoes@[i]@.itens,
                a.transicoes@[j]@.itens,
            )),
{
    let pool = vista_transicoes(a.transicoes@);
    assert forall|i: int, j: int|
        #![trigger a.transicoes@[i], a.transicoes@[j]]
        0 <= i < a.transicoes@.len() && 0 <= j < a.transicoes@.len() && i != j implies !(
        a.transicoes@[i]@.simbolo == a.transicoes@[j]@.simbolo && mesmo_conjunto(
            a.transicoes@[i]@.itens,
            a.transicoes@[j]@.itens,
        )) by {
        assert(pool[i] == a.transicoes@[i]@);
        assert(pool[j] == a.transicoes@[j]@);
        assert(!mesmo_conjunto(pool[i].itens, pool[j].itens));
    }
}

/// When some state's seed holds the items of `alvo`, the lookup from `s`
/// finds the first such state at or after `s`, if one is there.
pub proof fn lemma_destino_desde(estados: Seq<EstadoV>, alvo: Seq<ItemLR>, s: int, w: int)
    requires
        0 <= s <= w < estados.len(),
        mesmo_conjunto(estados[w].iniciais, alvo),
    ensures
        s <= destino_desde(estados, alvo, s) <= w,
        mesmo_conjunto(estados[destino_desde(estados, alvo, s)].iniciais, alvo),
    decreases w - s,
{
    if !mesmo_conjunto(estados[s].iniciais, alvo) {
        lemma_destino_desde(estados, alvo, s + 1, w);
    }
}

/// In a finished automaton every pool entry leads to a state whose seed
/// holds its items with the dots moved one symbol on.
pub proof fn lemma_destino(a: &Automato, j: int)
    requires
        a.bem_formado(),
        0 <= j < a.transicoes@.len(),
    ensures
        0 <= destino(vista_estados(a.estados@), a.transicoes@[j].itens@) < a.estados@.len(),
        mesmo_conjunto(
            a.estados@[destino(vista_estados(a.estados@), a.transicoes@[j].itens@)].itens_iniciais@,
            avanca(a.transicoes@[j].itens@),
        ),
{
    let estados = vista_estados(a.estados@);
    let pool = vista_transicoes(a.transicoes@);
    assert(pool[j] == a.transicoes@[j]@);
    assert(tem_destino(estados, pool, j));
    let w = choose|w: int| 0 <= w < estados.len() && (#[trigger] estados[w]).iniciais == avanca(pool[j].itens);
    lemma_destino_desde(estados, avanca(pool[j].itens), 0, w);
    let d = destino(estados, a.transicoes@[j].itens@);
    assert(estados[d] == a.estados@[d]@);
}

/// The item `(0, k)` of the augmented start production.
pub open spec fn item_do_inicio(k: int) -> ItemLR {
    ItemLR { producao: 0, posicao_do_ponto: k as usize }
}

/// The start symbol stands on no right-hand side and on the left of rule 0
/// only.
pub open spec fn inicial_sintetico(g: &Gramatica) -> bool {
    &&& forall|p: int| 1 <= p < g.num_regras() ==> #[trigger] g.lado_esquerdo(p) != g.simbolo_inicial()
    &&& !aparece_a_direita(g, g.simbolo_inicial())
}

/// Following the start production from state 0 reaches, for each dot
/// position, a state holding that item.
pub proof fn lemma_item_do_inicio_alcancado(a: &Automato, k: int)
    requires
        a.bem_formado(),
        0 <= k <= a.gramatica.tamanho(0),
    ensures
        exists|s: int| 0 <= s < a.estados@.len() && (#[trigger] a.estados@[s]).itens@.contains(item_do_inicio(k)),
    decreases k,
{
    let g = &a.gramatica;
    let estados = vista_estados(a.estados@);
    let pool = vista_transicoes(a.transicoes@);
    if k == 0 {
        assert(estados[0] == a.estados@[0]@);
        assert(estado_ok(g, pool, estados[0]));
        lemma_fecho(g, semente_inicial());
        assert(estados[0].itens.subrange(0, 1)[0] == item_do_inicio(0));
        assert(a.estados@[0].itens@[0] == item_do_inicio(0));
    } else {
        lemma_item_do_inicio_alcancado(a, k - 1);
        let it = item_do_inicio(k - 1);
        let s = choose|s: int| 0 <= s < a.estados@.len() && (#[trigger] a.estados@[s]).itens@.contains(it);
        let e = estados[s];
        assert(e == a.estados@[s]@);
        assert(estado_ok(g, pool, e));
        lemma_fecho(g, e.iniciais);
        let q = choose|q: int| 0 <= q < e.itens.len() && e.itens[q] == it;
        assert(g.tamanho(0) <= usize::MAX);
        lemma_simbolo_presente(g, e.itens, q);
        let x = proximo(g, it);
        let simbolos = simbolos_de(g, e.itens);
        let m = choose|m: int| 0 <= m < simbolos.len() && simbolos[m] == x;
        let locais = transicoes_locais(g, e.itens);
        e.itens.lemma_filter_contains(move_sobre(g, x), q);
        assert(locais[m].itens.contains(it));
        assert(aponta(pool, locais[m], e.transicoes[m] as int));
        let j = e.transicoes[m] as int;
        assert(locais[m].itens.to_set().contains(it));
        assert(pool[j].itens.to_set().contains(it));
        let r = choose|r: int| 0 <= r < pool[j].itens.len() && pool[j].itens[r] == it;
        assert(tem_destino(estados, pool, j));
        let d = choose|d: int| 0 <= d < estados.len() && (#[trigger] estados[d]).iniciais == avanca(pool[j].itens);
        assert(estados[d] == a.estados@[d]@);
        assert(estado_ok(g, pool, estados[d]));
        assert(transicao_ok(g, pool[j]));
        lemma_avanca_ok(g, pool[j]);
        lemma_fecho(g, estados[d].iniciais);
        lemma_avanca_nao_zero(g, pool[j], r);
        assert(avanca(pool[j].itens)[r] == item_do_inicio(k));
        assert(estados[d].itens.subrange(0, estados[d].iniciais.len() as int)[r] == item_do_inicio(k));
        assert(a.estados@[d].itens@[r] == item_do_inicio(k));
    }
}

/// With a fresh start symbol, at most one state holds the item `(0, k)`.
pub proof fn lemma_item_do_inicio_unico(a: &Automato, k: int)
    requires
        a.bem_formado(),
        inicial_sintetico(&a.gramatica),
        0 <= k <= a.gramatica.tamanho(0),
    ensures
        forall|s1: int, s2: int|
            #![trigger a.estados@[s1], a.estados@[s2]]
            0 <= s1 < a.estados@.len() && 0 <= s2 < a.estados@.len() && a.estados@[s1].itens@.contains(
                item_do_inicio(k),
            ) && a.estados@[s2].itens@.contains(item_do_inicio(k)) ==> s1 == s2,
    decreases k,
{
    let g = &a.gramatica;
    let estados = vista_estados(a.estados@);
    let pool = vista_transicoes(a.transicoes@);
    let it = item_do_inicio(k);
    assert(g.tamanho(0) <= usize::MAX);
    if k > 0 {
        lemma_item_do_inicio_unico(a, k - 1);
    }
    assert forall|s1: int, s2: int|
        #![trigger a.estados@[s1], a.estados@[s2]]
        0 <= s1 < a.estados@.len() && 0 <= s2 < a.estados@.len() && a.estados@[s1].itens@.contains(it)
            && a.estados@[s2].itens@.contains(it) implies s1 == s2 by {
        let j1 = lemma_semente_do_item(a, s1, k);
        let j2 = lemma_semente_do_item(a, s2, k);
        if k > 0 {
            let o1 = lemma_origem_da_transicao(a, j1, k);
            let o2 = lemma_origem_da_transicao(a, j2, k);
            assert(a.estados@[o1.0].itens@.contains(item_do_inicio(k - 1)));
            assert(a.estados@[o2.0].itens@.contains(item_do_inicio(k - 1)));
            assert(o1.0 == o2.0);
            let e = estados[o1.0];
            lemma_simbolos_sem_repeticao(g, e.itens);
            assert(o1.1 == o2.1);
            assert(estados[s1] == a.estados@[s1]@);
            assert(estados[s2] == a.estados@[s2]@);
            if s1 != s2 {
                assert(estados[s1].iniciais != estados[s2].iniciais);
            }
        }
    }
}

/// A state holding `(0, k)` holds it in its seed: for `k == 0` it is state
/// 0; otherwise the state is seeded along a pool entry holding `(0, k - 1)`,
/// whose index is returned.
proof fn lemma_semente_do_item(a: &Automato, s: int, k: int) -> (j: int)
    requires
        a.bem_formado(),
        inicial_sintetico(&a.gramatica),
        0 <= k <= a.gramatica.tamanho(0),
        0 <= s < a.estados@.len(),
        a.estados@[s].itens@.contains(item_do_inicio(k)),
    ensures
        k == 0 ==> s == 0,
        k > 0 ==> 0 <= j < a.transicoes@.len() && a.estados@[s].itens_iniciais@ == avanca(
            a.transicoes@[j].itens@,
        ) && a.transicoes@[j].itens@.contains(item_do_inicio(k - 1)),
{
    let g = &a.gramatica;
    let estados = vista_estados(a.estados@);
    let pool = vista_transicoes(a.transicoes@);
    let it = item_do_inicio(k);
    assert(g.tamanho(0) <= usize::MAX);
    let e = estados[s];
    assert(e == a.estados@[s]@);
    assert(estado_ok(g, pool, e));
    lemma_fecho_origem(g, e.iniciais);
    let q = choose|q: int| 0 <= q < e.itens.len() && e.itens[q] == it;
    assert(origem_no_fecho(g, e.iniciais, e.itens[q]));
    assert(e.iniciais.contains(it));
    if s == 0 {
        assert(estados[0] == a.estados@[0]@);
        assert(k == 0);
        0
    } else {
        let j = choose|j: int| 0 <= j < pool.len() && (#[trigger] estados[s]).iniciais == avanca(pool[j].itens);
        assert(pool[j] == a.transicoes@[j]@);
        assert(transicao_ok(g, pool[j]));
        let r = choose|r: int| 0 <= r < e.iniciais.len() && e.iniciais[r] == it;
        lemma_avanca_nao_zero(g, pool[j], r);
        assert(pool[j].itens[r] == item_do_inicio(k - 1));
        j
    }
}

/// A pool entry holding `(0, k - 1)` is the transition, on the symbol after
/// that item's dot, of a state holding `(0, k - 1)`; returns that state and
/// the position of the transition in its list.
proof fn lemma_origem_da_transicao(a: &Automato, j: int, k: int) -> (o: (int, int))
    requires
        a.bem_formado(),
        1 <= k <= a.gramatica.tamanho(0),
        0 <= j < a.transicoes@.len(),
        a.transicoes@[j].itens@.contains(item_do_inicio(k - 1)),
    ensures
        0 <= o.0 < a.estados@.len(),
        a.estados@[o.0].itens@.contains(item_do_inicio(k - 1)),
        0 <= o.1 < a.estados@[o.0].transicoes@.len(),
        a.estados@[o.0].transicoes@[o.1] == j,
        simbolos_de(&a.gramatica, a.estados@[o.0].itens@)[o.1] == proximo(&a.gramatica, item_do_inicio(k - 1)),
{
    let g = &a.gramatica;
    let estados = vista_estados(a.estados@);
    let pool = vista_transicoes(a.transicoes@);
    let it = item_do_inicio(k - 1);
    assert(pool[j] == a.transicoes@[j]@);
    assert(referenciada(estados, j));
    let (s, m) = choose|s: int, m: int|
        0 <= s < estados.len() && 0 <= m < estados[s].transicoes.len() && #[trigger] estados[s].transicoes[m] == j;
    let e = estados[s];
    assert(e == a.estados@[s]@);
    assert(estado_ok(g, pool, e));
    let locais = transicoes_locais(g, e.itens);
    assert(aponta(pool, locais[m], j));
    assert(pool[j].itens.to_set().contains(it));
    assert(locais[m].itens.to_set().contains(it));
    lemma_fecho(g, e.iniciais);
    lemma_filtro_sem_repeticao(e.itens, move_sobre(g, simbolos_de(g, e.itens)[m]));
    assert(e.itens.contains(it));
    assert(move_sobre(g, simbolos_de(g, e.itens)[m])(it));
    (s, m)
}

} // verus!
