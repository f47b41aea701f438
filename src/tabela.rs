//! The action/goto table read off a finished automaton.
use vstd::prelude::*;

use crate::automato::{
    avanca, destino, estado_ok, inicial_sintetico, item_do_inicio, lemma_destino,
    lemma_item_do_inicio_alcancado, lemma_item_do_inicio_unico, Automato, EstadoV,
};
use crate::fecho::{completo, item_valido, itens_ok, lemma_fecho, ItemLR};
use crate::transicoes::{aponta, mesmo_conjunto, transicoes_locais, TransicaoV};
use crate::gramatica::Gramatica;
use simple_matrix::Matrix;

verus! {

/// One table cell.
#[derive(Clone, Copy, Debug, PartialEq, Eq, Structural)]
pub enum Acao {
    /// Shift, then go to the given state.
    Empilha(usize),
    /// Reduce by the given rule.
    Reduz(usize),
    /// After a reduction, go to the given state.
    VaiPara(usize),
    /// Accept the input.
    Aceita,
    /// No action: a syntax error.
    Erro,
    /// Not applicable (a non-terminal column without a goto).
    Vazia,
}

impl Default for Acao {
    fn default() -> (r: Acao)
        ensures
            r == Acao::Erro,
    {
        Acao::Erro
    }
}

#[verifier::external_type_specification]
#[verifier::external_body]
#[verifier::reject_recursive_types(T)]
pub struct ExMatrix<T>(Matrix<T>);

/// The cells of a matrix, row by row.
pub uninterp spec fn celulas(m: Matrix<Acao>) -> Seq<Seq<Acao>>;

/// `(linha, coluna)` lies inside the matrix.
pub open spec fn dentro(m: Matrix<Acao>, linha: int, coluna: int) -> bool {
    0 <= linha < celulas(m).len() && 0 <= coluna < celulas(m)[linha].len()
}

/// Relies on `simple_matrix::Matrix::new`: a `linhas` x `colunas` matrix
/// whose cells are all `Acao::default()`. It panics on a zero dimension, and
/// it draws the cells from an `i32` counter (`0..`), whose step past
/// `i32::MAX` panics: so at most `0x7fff_ffff` cells.
#[verifier::external_body]
fn matriz_nova(linhas: usize, colunas: usize) -> (m: Matrix<Acao>)
    requires
        linhas > 0,
        colunas > 0,
        linhas * colunas <= 0x7fff_ffff,
    ensures
        celulas(m).len() == linhas,
        forall|i: int| 0 <= i < linhas ==> (#[trigger] celulas(m)[i]).len() == colunas,
        forall|i: int, j: int|
            0 <= i < linhas && 0 <= j < colunas ==> #[trigger] celulas(m)[i][j] == Acao::Erro,
{
    Matrix::new(linhas, colunas)
}

/// Relies on `simple_matrix::Matrix::set`: inside the matrix it overwrites
/// that one cell and returns `true`; outside it changes nothing and returns
/// `false`.
#[verifier::external_body]
fn matriz_define(m: &mut Matrix<Acao>, linha: usize, coluna: usize, valor: Acao) -> (r: bool)
    ensures
        r == dentro(*old(m), linha as int, coluna as int),
        r ==> celulas(*final(m)) == celulas(*old(m)).update(
            linha as int,
            celulas(*old(m))[linha as int].update(coluna as int, valor),
        ),
        !r ==> celulas(*final(m)) == celulas(*old(m)),
{
    m.set(linha, coluna, valor)
}

/// Relies on `simple_matrix::Matrix::get`: the cell at `(linha, coluna)`,
/// or `None` outside the matrix.
#[verifier::external_body]
fn matriz_obtem(m: &Matrix<Acao>, linha: usize, coluna: usize) -> (r: Option<Acao>)
    ensures
        dentro(*m, linha as int, coluna as int) ==> r == Some(
            celulas(*m)[linha as int][coluna as int],
        ),
        !dentro(*m, linha as int, coluna as int) ==> r is None,
{
    m.get(linha, coluna).copied()
}

/// The first position, from `k` on, in the state's transition list whose
/// pool entry is labelled `x`, or -1.
pub open spec fn transicao_sobre_desde(
    pool: Seq<TransicaoV>,
    e: EstadoV,
    x: Seq<char>,
    k: int,
) -> int
    decreases e.transicoes.len() - k,
{
    if k < 0 || k >= e.transicoes.len() {
        -1
    } else if pool[e.transicoes[k] as int].simbolo == x {
        k
    } else {
        transicao_sobre_desde(pool, e, x, k + 1)
    }
}

/// The position in the state's transition list of its transition on `x`,
/// or -1.
pub open spec fn transicao_sobre(pool: Seq<TransicaoV>, e: EstadoV, x: Seq<char>) -> int {
    transicao_sobre_desde(pool, e, x, 0)
}

/// The position of the first complete item, from `k` on, or -1.
pub open spec fn primeiro_completo_desde(g: &Gramatica, itens: Seq<ItemLR>, k: int) -> int
    decreases itens.len() - k,
{
    if k < 0 || k >= itens.len() {
        -1
    } else if completo(g, itens[k]) {
        k
    } else {
        primeiro_completo_desde(g, itens, k + 1)
    }
}

/// Reduce by the rule of the first complete item, unless there is none or
/// it is rule 0 (whose completion is acceptance): then error.
pub open spec fn reduz_ou_erro(g: &Gramatica, e: EstadoV) -> Acao {
    let c = primeiro_completo_desde(g, e.itens, 0);
    if c >= 0 && e.itens[c].producao > 0 {
        Acao::Reduz(e.itens[c].producao)
    } else {
        Acao::Erro
    }
}

/// Terminal column `x`: shift along the state's transition on `x` if it has
/// one, else reduce or error.
pub open spec fn acao_terminal(
    g: &Gramatica,
    estados: Seq<EstadoV>,
    pool: Seq<TransicaoV>,
    e: EstadoV,
    x: Seq<char>,
) -> Acao {
    let k = transicao_sobre(pool, e, x);
    if k >= 0 {
        Acao::Empilha(destino(estados, pool[e.transicoes[k] as int].itens) as usize)
    } else {
        reduz_ou_erro(g, e)
    }
}

/// The state holds a complete item of a rule for the start symbol.
pub open spec fn aceita(g: &Gramatica, e: EstadoV) -> bool {
    exists|k: int|
        0 <= k < e.itens.len() && completo(g, #[trigger] e.itens[k]) && g.lado_esquerdo(
            e.itens[k].producao as int,
        ) == g.simbolo_inicial()
}

/// End-marker column: accept if the start production is complete here, else
/// reduce or error.
pub open spec fn acao_final(g: &Gramatica, e: EstadoV) -> Acao {
    if aceita(g, e) {
        Acao::Aceita
    } else {
        reduz_ou_erro(g, e)
    }
}

/// Non-terminal column `x`: go to the target of the state's transition on
/// `x` if it has one, else blank; the start symbol's column is always blank.
pub open spec fn acao_nao_terminal(
    g: &Gramatica,
    estados: Seq<EstadoV>,
    pool: Seq<TransicaoV>,
    e: EstadoV,
    x: Seq<char>,
) -> Acao {
    let k = transicao_sobre(pool, e, x);
    if x != g.simbolo_inicial() && k >= 0 {
        Acao::VaiPara(destino(estados, pool[e.transicoes[k] as int].itens) as usize)
    } else {
        Acao::Vazia
    }
}

/// The cell of state `i`, column `col`: the terminals first, then the end
/// marker, then the non-terminals after the first (the start symbol).
pub open spec fn acao_da_celula(
    g: &Gramatica,
    estados: Seq<EstadoV>,
    pool: Seq<TransicaoV>,
    i: int,
    col: int,
) -> Acao {
    let nt = g.terminais@.len() as int;
    if col < nt {
        acao_terminal(g, estados, pool, estados[i], g.terminais@[col]@)
    } else if col == nt {
        acao_final(g, estados[i])
    } else {
        acao_nao_terminal(g, estados, pool, estados[i], g.nao_terminais@[col - nt]@)
    }
}

/// The parsing table: one row per state, one column per terminal, one for
/// the end marker and one per non-terminal but the start symbol.
pub struct Tabela {
    pub celulas: Matrix<Acao>,
    pub linhas: usize,
    pub colunas: usize,
}

impl Tabela {
    /// The action in row `i`, column `col`.
    pub open spec fn acao(&self, i: int, col: int) -> Acao {
        celulas(self.celulas)[i][col]
    }

    /// The rows have `colunas` cells each.
    pub open spec fn forma(&self) -> bool {
        &&& celulas(self.celulas).len() == self.linhas
        &&& forall|i: int| 0 <= i < self.linhas ==> (#[trigger] celulas(self.celulas)[i]).len() == self.colunas
    }

    /// The cell at `(linha, coluna)`, or `None` outside the table.
    pub fn celula(&self, linha: usize, coluna: usize) -> (r: Option<Acao>)
        requires
            self.forma(),
        ensures
            linha < self.linhas && coluna < self.colunas ==> r == Some(
                self.acao(linha as int, coluna as int),
            ),
            !(linha < self.linhas && coluna < self.colunas) ==> r is None,
    {
        matriz_obtem(&self.celulas, linha, coluna)
    }
}

impl Automato {
    /// `t` is the table of this automaton: one row per state, the columns of
    /// the grammar's symbols, and every cell as `acao_da_celula` gives it.
    pub open spec fn tabela_de(&self, t: &Tabela) -> bool {
        &&& t.forma()
        &&& t.linhas == self.estados@.len()
        &&& t.colunas == self.gramatica.terminais@.len() + self.gramatica.nao_terminais@.len()
        &&& forall|i: int, col: int|
            0 <= i < t.linhas && 0 <= col < t.colunas ==> #[trigger] t.acao(i, col)
                == acao_da_celula(&self.gramatica, self.vista().0, self.vista().1, i, col)
    }

    /// The position in state `estado`'s transition list of its transition on
    /// `x` (see `transicao_sobre`).
    fn busca_transicao_sobre(&self, estado: usize, x: &String) -> (r: Option<usize>)
        requires
            self.bem_formado(),
            estado < self.estados@.len(),
        ensures
            match r {
                Some(k) => {
                    &&& k as int == transicao_sobre(self.vista().1, self.vista().0[estado as int], x@)
                    &&& k < self.estados@[estado as int].transicoes@.len()
                    &&& self.estados@[estado as int].transicoes@[k as int] < self.transicoes@.len()
                },
                None => transicao_sobre(self.vista().1, self.vista().0[estado as int], x@) == -1,
            },
    {
        let ghost e = self.vista().0[estado as int];
        let ghost pool = self.vista().1;
        assert(e == self.estados@[estado as int]@);
        assert(estado_ok(&self.gramatica, pool, e));
        let ts = &self.estados[estado].transicoes;
        let mut k: usize = 0;
        while k < ts.len()
            invariant
                k <= ts@.len(),
                ts@ == e.transicoes,
                estado < self.estados@.len(),
                self.vista().0.len() == self.estados@.len(),
                e == self.vista().0[estado as int],
                e == self.estados@[estado as int]@,
                pool == self.vista().1,
                pool.len() == self.transicoes@.len(),
                forall|m: int| 0 <= m < ts@.len() ==> #[trigger] ts@[m] < pool.len(),
                transicao_sobre_desde(pool, e, x@, k as int) == transicao_sobre(pool, e, x@),
            decreases ts@.len() - k,
        {
            let j = ts[k];
            assert(pool[j as int] == self.transicoes@[j as int]@);
            if self.transicoes[j].simbolo == *x {
                return Some(k);
            }
            k = k + 1;
        }
        None
    }

    /// Reduce by the first complete item's rule, or error (see
    /// `reduz_ou_erro`).
    fn reduz_ou_erro(&self, estado: usize) -> (r: Acao)
        requires
            self.bem_formado(),
            estado < self.estados@.len(),
        ensures
            r == reduz_ou_erro(&self.gramatica, self.vista().0[estado as int]),
    {
        let ghost e = self.vista().0[estado as int];
        assert(e == self.estados@[estado as int]@);
        assert(estado_ok(&self.gramatica, self.vista().1, e));
        proof {
            lemma_fecho(&self.gramatica, e.iniciais);
        }
        let itens = &self.estados[estado].itens;
        let mut k: usize = 0;
        while k < itens.len()
            invariant
                k <= itens@.len(),
                itens@ == e.itens,
                estado < self.estados@.len(),
                self.vista().0.len() == self.estados@.len(),
                e == self.vista().0[estado as int],
                itens_ok(&self.gramatica, e.itens),
                primeiro_completo_desde(&self.gramatica, e.itens, k as int)
                    == primeiro_completo_desde(&self.gramatica, e.itens, 0),
            decreases itens@.len() - k,
        {
            let it = itens[k];
            assert(item_valido(&self.gramatica, e.itens[k as int]));
            if it.posicao_do_ponto == self.gramatica.regras[it.producao].producao.len() {
                if it.producao > 0 {
                    return Acao::Reduz(it.producao);
                } else {
                    return Acao::Erro;
                }
            }
            k = k + 1;
        }
        Acao::Erro
    }

    /// The action of state `estado` on terminal `terminal`.
    pub fn determina_acao_terminal(&self, estado: usize, terminal: &String) -> (r: Acao)
        requires
            self.bem_formado(),
            estado < self.estados@.len(),
        ensures
            r == acao_terminal(
                &self.gramatica,
                self.vista().0,
                self.vista().1,
                self.vista().0[estado as int],
                terminal@,
            ),
    {
        match self.busca_transicao_sobre(estado, terminal) {
            Some(k) => {
                let j = self.estados[estado].transicoes[k];
                Acao::Empilha(self.obtem_estado(j))
            },
            None => self.reduz_ou_erro(estado),
        }
    }

    /// The action of state `estado` on the end marker.
    pub fn determina_acao_final(&self, estado: usize) -> (r: Acao)
        requires
            self.bem_formado(),
            estado < self.estados@.len(),
        ensures
            r == acao_final(&self.gramatica, self.vista().0[estado as int]),
    {
        let ghost e = self.vista().0[estado as int];
        assert(e == self.estados@[estado as int]@);
        assert(estado_ok(&self.gramatica, self.vista().1, e));
        proof {
            lemma_fecho(&self.gramatica, e.iniciais);
        }
        let itens = &self.estados[estado].itens;
        let inicial = &self.gramatica.regras[0].nao_terminal;
        let mut k: usize = 0;
        while k < itens.len()
            invariant
                k <= itens@.len(),
                itens@ == e.itens,
                estado < self.estados@.len(),
                self.vista().0.len() == self.estados@.len(),
                e == self.vista().0[estado as int],
                itens_ok(&self.gramatica, e.itens),
                inicial@ == self.gramatica.simbolo_inicial(),
                forall|m: int|
                    0 <= m < k ==> !(completo(&self.gramatica, #[trigger] e.itens[m])
                        && self.gramatica.lado_esquerdo(e.itens[m].producao as int)
                        == self.gramatica.simbolo_inicial()),
            decreases itens@.len() - k,
        {
            let it = itens[k];
            assert(item_valido(&self.gramatica, e.itens[k as int]));
            let regra = &self.gramatica.regras[it.producao];
            if it.posicao_do_ponto == regra.producao.len() && regra.nao_terminal == *inicial {
                return Acao::Aceita;
            }
            k = k + 1;
        }
        self.reduz_ou_erro(estado)
    }

    /// The action of state `estado` on non-terminal `nao_terminal`.
    pub fn determina_acao_nao_terminal(&self, estado: usize, nao_terminal: &String) -> (r: Acao)
        requires
            self.bem_formado(),
            estado < self.estados@.len(),
        ensures
            r == acao_nao_terminal(
                &self.gramatica,
                self.vista().0,
                self.vista().1,
                self.vista().0[estado as int],
                nao_terminal@,
            ),
    {
        if *nao_terminal == self.gramatica.regras[0].nao_terminal {
            return Acao::Vazia;
        }
        match self.busca_transicao_sobre(estado, nao_terminal) {
            Some(k) => {
                let j = self.estados[estado].transicoes[k];
                Acao::VaiPara(self.obtem_estado(j))
            },
            None => Acao::Vazia,
        }
    }

    /// The cell of state `estado`, column `coluna` (see `acao_da_celula`).
    fn determina_celula(&self, estado: usize, coluna: usize) -> (r: Acao)
        requires
            self.bem_formado(),
            estado < self.estados@.len(),
            coluna < self.gramatica.terminais@.len() + self.gramatica.nao_terminais@.len(),
        ensures
            r == acao_da_celula(
                &self.gramatica,
                self.vista().0,
                self.vista().1,
                estado as int,
                coluna as int,
            ),
    {
        let nt = self.gramatica.terminais.len();
        if coluna < nt {
            self.determina_acao_terminal(estado, &self.gramatica.terminais[coluna])
        } else if coluna == nt {
            self.determina_acao_final(estado)
        } else {
            self.determina_acao_nao_terminal(estado, &self.gramatica.nao_terminais[coluna - nt])
        }
    }

    /// The action/goto table of the finished automaton: every cell as
    /// `acao_da_celula` gives it. The table's matrix holds at most
    /// `0x7fff_ffff` cells.
    pub fn gera_tabela(&self) -> (t: Tabela)
        requires
            self.bem_formado(),
            self.gramatica.nao_terminais@.len() > 0,
            self.estados@.len() * (self.gramatica.terminais@.len()
                + self.gramatica.nao_terminais@.len()) <= 0x7fff_ffff,
        ensures
            self.tabela_de(&t),
    {
        let linhas = self.estados.len();
        let nt = self.gramatica.terminais.len();
        let nn = self.gramatica.nao_terminais.len();
        assert(linhas >= 1);
        assert(nt + nn <= linhas * (nt + nn)) by (nonlinear_arith)
            requires
                linhas >= 1,
        ;
        let colunas = nt + nn;
        let mut m = matriz_nova(linhas, colunas);
        let mut i: usize = 0;
        while i < linhas
            invariant
                i <= linhas,
                linhas == self.estados@.len(),
                colunas == self.gramatica.terminais@.len() + self.gramatica.nao_terminais@.len(),
                self.bem_formado(),
                celulas(m).len() == linhas,
                forall|r: int| 0 <= r < linhas ==> (#[trigger] celulas(m)[r]).len() == colunas,
                forall|r: int, c: int|
                    0 <= r < i && 0 <= c < colunas ==> #[trigger] celulas(m)[r][c]
                        == acao_da_celula(&self.gramatica, self.vista().0, self.vista().1, r, c),
            decreases linhas - i,
        {
            let mut c: usize = 0;
            while c < colunas
                invariant
                    i < linhas,
                    c <= colunas,
                    linhas == self.estados@.len(),
                    colunas == self.gramatica.terminais@.len()
                        + self.gramatica.nao_terminais@.len(),
                    self.bem_formado(),
                    celulas(m).len() == linhas,
                    forall|r: int| 0 <= r < linhas ==> (#[trigger] celulas(m)[r]).len() == colunas,
                    forall|r: int, q: int|
                        0 <= q < colunas && (0 <= r < i || (r == i && q < c)) ==> #[trigger] celulas(
                            m,
                        )[r][q] == acao_da_celula(
                            &self.gramatica,
                            self.vista().0,
                            self.vista().1,
                            r,
                            q,
                        ),
                decreases colunas - c,
            {
                let acao = self.determina_celula(i, c);
                matriz_define(&mut m, i, c, acao);
                c = c + 1;
            }
            i = i + 1;
        }
        Tabela { celulas: m, linhas, colunas }
    }
}

/// Determinism: two automata built from the same grammar have the same
/// states and transition pool, and their tables agree cell for cell.
pub proof fn lemma_determinismo(a1: &Automato, a2: &Automato, t1: &Tabela, t2: &Tabela)
    requires
        a1.gramatica == a2.gramatica,
        a1.construido(),
        a2.construido(),
        a1.tabela_de(t1),
        a2.tabela_de(t2),
    ensures
        a1.vista() == a2.vista(),
        t1.linhas == t2.linhas,
        t1.colunas == t2.colunas,
        forall|i: int, col: int|
            0 <= i < t1.linhas && 0 <= col < t1.colunas ==> #[trigger] t1.acao(i, col) == t2.acao(
                i,
                col,
            ),
{
    assert forall|i: int, col: int| 0 <= i < t1.linhas && 0 <= col < t1.colunas implies #[trigger] t1.acao(
        i,
        col,
    ) == t2.acao(i, col) by {
        assert(t1.acao(i, col) == acao_da_celula(&a1.gramatica, a1.vista().0, a1.vista().1, i, col));
        assert(t2.acao(i, col) == acao_da_celula(&a2.gramatica, a2.vista().0, a2.vista().1, i, col));
    }
}

proof fn lemma_transicao_sobre_desde(pool: Seq<TransicaoV>, e: EstadoV, x: Seq<char>, k: int)
    requires
        0 <= k,
    ensures
        transicao_sobre_desde(pool, e, x, k) != -1 ==> k <= transicao_sobre_desde(pool, e, x, k)
            < e.transicoes.len() && pool[e.transicoes[transicao_sobre_desde(
            pool,
            e,
            x,
            k,
        )] as int].simbolo == x,
    decreases e.transicoes.len() - k,
{
    if k < e.transicoes.len() && pool[e.transicoes[k] as int].simbolo != x {
        lemma_transicao_sobre_desde(pool, e, x, k + 1);
    }
}

/// Goto consistency: a goto cell `VaiPara(k)` of state `i`, in the column of
/// non-terminal `x`, names a state whose seed holds the items of state
/// `i`'s transition on `x` with the dots moved one symbol on.
pub proof fn lemma_desvio_consistente(a: &Automato, t: &Tabela, i: int, col: int, k: usize)
    requires
        a.bem_formado(),
        a.tabela_de(t),
        0 <= i < t.linhas,
        0 <= col < t.colunas,
        t.acao(i, col) == Acao::VaiPara(k),
    ensures
        ({
            let nt = a.gramatica.terminais@.len() as int;
            let e = a.vista().0[i];
            let x = a.gramatica.nao_terminais@[col - nt]@;
            let m = transicao_sobre(a.vista().1, e, x);
            &&& col > nt
            &&& 0 <= m < e.transicoes.len()
            &&& e.transicoes[m] < a.transicoes@.len()
            &&& a.transicoes@[e.transicoes[m] as int].simbolo@ == x
            &&& k < a.estados@.len()
            &&& mesmo_conjunto(
                a.estados@[k as int].itens_iniciais@,
                avanca(a.transicoes@[e.transicoes[m] as int].itens@),
            )
        }),
{
    let nt = a.gramatica.terminais@.len() as int;
    let estados = a.vista().0;
    let pool = a.vista().1;
    let e = estados[i];
    let x = a.gramatica.nao_terminais@[col - nt]@;
    assert(t.acao(i, col) == acao_da_celula(&a.gramatica, estados, pool, i, col));
    let m = transicao_sobre(pool, e, x);
    lemma_transicao_sobre_desde(pool, e, x, 0);
    assert(estado_ok(&a.gramatica, pool, e));
    let locais = transicoes_locais(&a.gramatica, e.itens);
    assert(aponta(pool, locais[m], e.transicoes[m] as int));
    let j = e.transicoes[m] as int;
    assert(pool[j] == a.transicoes@[j]@);
    lemma_destino(a, j);
}

/// Accept uniqueness: when the start symbol is fresh (on the left of rule 0
/// only, on no right-hand side), a state's end-marker cell is `Aceita`
/// exactly when its items hold the complete start item `(0, |rhs 0|)`, and
/// exactly one state does.
pub proof fn lemma_aceitacao_unica(a: &Automato, t: &Tabela)
    requires
        a.bem_formado(),
        a.tabela_de(t),
        a.gramatica.nao_terminais@.len() > 0,
        inicial_sintetico(&a.gramatica),
    ensures
        ({
            let nt = a.gramatica.terminais@.len() as int;
            let fim = item_do_inicio(a.gramatica.tamanho(0) as int);
            &&& forall|s: int|
                0 <= s < t.linhas ==> (#[trigger] t.acao(s, nt) == Acao::Aceita
                    <==> a.estados@[s].itens@.contains(fim))
            &&& exists|s: int| 0 <= s < t.linhas && #[trigger] t.acao(s, nt) == Acao::Aceita
            &&& forall|s1: int, s2: int|
                0 <= s1 < t.linhas && 0 <= s2 < t.linhas && #[trigger] t.acao(s1, nt) == Acao::Aceita
                    && #[trigger] t.acao(s2, nt) == Acao::Aceita ==> s1 == s2
        }),
{
    let g = &a.gramatica;
    let nt = g.terminais@.len() as int;
    let n0 = g.tamanho(0) as int;
    let fim = item_do_inicio(n0);
    let estados = a.vista().0;
    let pool = a.vista().1;
    assert(g.tamanho(0) <= usize::MAX);
    assert forall|s: int| 0 <= s < t.linhas implies (#[trigger] t.acao(s, nt) == Acao::Aceita
        <==> a.estados@[s].itens@.contains(fim)) by {
        assert(t.acao(s, nt) == acao_da_celula(g, estados, pool, s, nt));
        let e = estados[s];
        assert(e == a.estados@[s]@);
        assert(estado_ok(g, pool, e));
        lemma_fecho(g, e.iniciais);
        if aceita(g, e) {
            let k = choose|k: int|
                0 <= k < e.itens.len() && completo(g, #[trigger] e.itens[k]) && g.lado_esquerdo(
                    e.itens[k].producao as int,
                ) == g.simbolo_inicial();
            assert(item_valido(g, e.itens[k]));
            assert(e.itens[k].producao == 0);
            assert(e.itens[k] == fim);
        }
        if e.itens.contains(fim) {
            let k = choose|k: int| 0 <= k < e.itens.len() && e.itens[k] == fim;
            assert(completo(g, e.itens[k]));
        }
        let r = reduz_ou_erro(g, e);
        assert(r != Acao::Aceita);
    }
    lemma_item_do_inicio_alcancado(a, n0);
    lemma_item_do_inicio_unico(a, n0);
    let w = choose|w: int| 0 <= w < a.estados@.len() && (#[trigger] a.estados@[w]).itens@.contains(fim);
    assert(t.acao(w, nt) == Acao::Aceita);
    assert forall|s1: int, s2: int|
        0 <= s1 < t.linhas && 0 <= s2 < t.linhas && #[trigger] t.acao(s1, nt) == Acao::Aceita
            && #[trigger] t.acao(s2, nt) == Acao::Aceita implies s1 == s2 by {
        assert(a.estados@[s1].itens@.contains(fim));
        assert(a.estados@[s2].itens@.contains(fim));
    }
}

} // verus!
