//! Grammar model: productions, the non-terminal and terminal lists, and the
//! reader that turns `A -> x y z` lines into productions.
use vstd::prelude::*;

verus! {

/// One production `nao_terminal -> producao[0] producao[1] ...`.
pub struct RegraDeProducao {
    pub nao_terminal: String,
    pub producao: Vec<String>,
}

/// A grammar: its productions in declaration order (rule 0 is the augmented
/// start production), its non-terminals and its terminals, each in order of
/// first appearance.
pub struct Gramatica {
    pub regras: Vec<RegraDeProducao>,
    pub nao_terminais: Vec<String>,
    pub terminais: Vec<String>,
}

/// The character sequences of a list of strings.
pub open spec fn textos(v: Seq<String>) -> Seq<Seq<char>> {
    v.map_values(|s: String| s@)
}

/// `acc` with `x` appended, unless `acc` already holds it.
pub open spec fn acrescenta_novo(acc: Seq<Seq<char>>, x: Seq<char>) -> Seq<Seq<char>> {
    if acc.contains(x) {
        acc
    } else {
        acc.push(x)
    }
}

/// The left-hand sides of `regras`, without repetition, in order of first
/// appearance.
pub open spec fn nao_terminais_de(regras: Seq<RegraDeProducao>) -> Seq<Seq<char>>
    decreases regras.len(),
{
    if regras.len() == 0 {
        Seq::empty()
    } else {
        acrescenta_novo(nao_terminais_de(regras.drop_last()), regras.last().nao_terminal@)
    }
}

/// `acc` extended by the symbols of `simbolos` that are neither in `acc`
/// already nor in `nts`, in order.
pub open spec fn acrescenta_terminais(
    acc: Seq<Seq<char>>,
    simbolos: Seq<Seq<char>>,
    nts: Seq<Seq<char>>,
) -> Seq<Seq<char>>
    decreases simbolos.len(),
{
    if simbolos.len() == 0 {
        acc
    } else {
        let anterior = acrescenta_terminais(acc, simbolos.drop_last(), nts);
        let x = simbolos.last();
        if nts.contains(x) {
            anterior
        } else {
            acrescenta_novo(anterior, x)
        }
    }
}

/// The right-hand-side symbols of `regras` that are not in `nts`, without
/// repetition, in order of first appearance.
pub open spec fn terminais_de(regras: Seq<RegraDeProducao>, nts: Seq<Seq<char>>) -> Seq<
    Seq<char>,
>
    decreases regras.len(),
{
    if regras.len() == 0 {
        Seq::empty()
    } else {
        acrescenta_terminais(
            terminais_de(regras.drop_last(), nts),
            textos(regras.last().producao@),
            nts,
        )
    }
}

impl Gramatica {
    pub open spec fn num_regras(&self) -> nat {
        self.regras@.len()
    }

    /// Left-hand side of rule `p`.
    pub open spec fn lado_esquerdo(&self, p: int) -> Seq<char> {
        self.regras@[p].nao_terminal@
    }

    /// Length of the right-hand side of rule `p`.
    pub open spec fn tamanho(&self, p: int) -> nat {
        self.regras@[p].producao@.len()
    }

    /// Symbol `k` of the right-hand side of rule `p`.
    pub open spec fn simbolo(&self, p: int, k: int) -> Seq<char> {
        self.regras@[p].producao@[k]@
    }

    /// The rule list and every right-hand side have at most `usize::MAX`
    /// entries, as a vector does.
    pub open spec fn tamanhos_cabem(&self) -> bool {
        &&& self.num_regras() <= usize::MAX
        &&& forall|p: int| 0 <= p < self.num_regras() ==> #[trigger] self.tamanho(p) <= usize::MAX
    }

    /// Records that the rule count and each right-hand side's length fit in a
    /// `usize`.
    pub(crate) fn confere_tamanhos(&self)
        ensures
            self.tamanhos_cabem(),
    {
        let mut p: usize = 0;
        while p < self.regras.len()
            invariant
                p <= self.regras@.len(),
                forall|q: int| 0 <= q < p ==> #[trigger] self.tamanho(q) <= usize::MAX,
            decreases self.regras@.len() - p,
        {
            let _tamanho = self.regras[p].producao.len();
            p = p + 1;
        }
        let _regras = self.regras.len();
    }

    /// The synthetic start symbol: the left-hand side of rule 0.
    pub open spec fn simbolo_inicial(&self) -> Seq<char> {
        self.lado_esquerdo(0)
    }

    /// The symbol lists are the ones derived from the rules.
    pub open spec fn listas_derivadas(&self) -> bool {
        &&& textos(self.nao_terminais@) == nao_terminais_de(self.regras@)
        &&& textos(self.terminais@) == terminais_de(self.regras@, nao_terminais_de(self.regras@))
    }

    /// Builds the grammar of `regras`, deriving both symbol lists.
    pub fn nova(regras: Vec<RegraDeProducao>) -> (g: Gramatica)
        ensures
            g.regras@ == regras@,
            g.listas_derivadas(),
    {
        let nao_terminais = obtem_nao_terminais(&regras);
        let terminais = obtem_terminais(&regras, &nao_terminais);
        Gramatica { regras, nao_terminais, terminais }
    }
}

/// Whether `sep` occurs in `s` at position `i`.
pub open spec fn ocorre_em(s: Seq<char>, sep: Seq<char>, i: int) -> bool {
    0 <= i && i + sep.len() <= s.len() && s.subrange(i, i + sep.len()) == sep
}

/// The pieces of `s` between non-overlapping occurrences of `sep`, scanning
/// left to right from position `i`, the current piece starting at `inicio`.
pub open spec fn pecas_desde(s: Seq<char>, sep: Seq<char>, inicio: int, i: int) -> Seq<Seq<char>>
    recommends
        sep.len() > 0,
    decreases s.len() - i,
{
    if sep.len() == 0 || i < 0 || i + sep.len() > s.len() {
        seq![s.subrange(inicio, s.len() as int)]
    } else if ocorre_em(s, sep, i) {
        seq![s.subrange(inicio, i)] + pecas_desde(s, sep, i + sep.len(), i + sep.len())
    } else {
        pecas_desde(s, sep, inicio, i + 1)
    }
}

/// `s` split at every occurrence of `sep`, as `str::split` does.
pub open spec fn pecas(s: Seq<char>, sep: Seq<char>) -> Seq<Seq<char>> {
    pecas_desde(s, sep, 0, 0)
}

/// The arrow that separates the two sides of a production line.
pub open spec fn seta() -> Seq<char> {
    seq![' ', '-', '>', ' ']
}

/// The production written on one line: the left-hand side is the text before
/// the first arrow, the right-hand side the text up to the next arrow, split
/// at each space.
pub open spec fn regra_da_linha(linha: Seq<char>) -> (Seq<char>, Seq<Seq<char>>) {
    let lados = pecas(linha, seta());
    (lados[0], pecas(lados[1], seq![' ']))
}

/// A production line holds at least one arrow.
pub open spec fn linha_valida(linha: Seq<char>) -> bool {
    exists|i: int| ocorre_em(linha, seta(), i)
}

proof fn lemma_pecas_desde_len(s: Seq<char>, sep: Seq<char>, inicio: int, i: int)
    requires
        sep.len() > 0,
        0 <= i,
    ensures
        pecas_desde(s, sep, inicio, i).len() >= 1,
        (exists|k: int| i <= k && ocorre_em(s, sep, k)) ==> pecas_desde(s, sep, inicio, i).len()
            >= 2,
    decreases s.len() - i,
{
    if i + sep.len() > s.len() {
        assert forall|k: int| i <= k implies !ocorre_em(s, sep, k) by {}
    } else if ocorre_em(s, sep, i) {
        lemma_pecas_desde_len(s, sep, i + sep.len(), i + sep.len());
    } else {
        lemma_pecas_desde_len(s, sep, inicio, i + 1);
        assert forall|k: int| i <= k && ocorre_em(s, sep, k) implies i + 1 <= k by {}
    }
}

/// Whether `sep` occurs in `s` at `i`.
fn ocorre(s: &str, sep: &str, i: usize) -> (r: bool)
    requires
        i + sep@.len() <= s@.len(),
    ensures
        r == ocorre_em(s@, sep@, i as int),
{
    let m = sep.unicode_len();
    let n = s.unicode_len();
    let mut j: usize = 0;
    while j < m
        invariant
            m == sep@.len(),
            n == s@.len(),
            i + m <= s@.len(),
            j <= m,
            forall|k: int| 0 <= k < j ==> s@[i + k] == sep@[k],
        decreases m - j,
    {
        if s.get_char(i + j) != sep.get_char(j) {
            assert(s@.subrange(i as int, i + m)[j as int] != sep@[j as int]);
            return false;
        }
        j = j + 1;
    }
    assert(s@.subrange(i as int, i + m) =~= sep@);
    true
}

/// `s` split at every occurrence of `sep`.
fn divide(s: &str, sep: &str) -> (r: Vec<String>)
    requires
        sep@.len() > 0,
    ensures
        textos(r@) == pecas(s@, sep@),
{
    let n = s.unicode_len();
    let m = sep.unicode_len();
    let mut r: Vec<String> = Vec::new();
    let mut inicio: usize = 0;
    let mut i: usize = 0;
    while i <= n && m <= n - i
        invariant
            n == s@.len(),
            m == sep@.len(),
            m > 0,
            inicio <= i,
            inicio <= n,
            i <= n + 1,
            textos(r@) + pecas_desde(s@, sep@, inicio as int, i as int) == pecas(s@, sep@),
        decreases n + 1 - i,
    {
        if ocorre(s, sep, i) {
            let peca = s.substring_char(inicio, i).to_owned();
            let ghost antes = r@;
            r.push(peca);
            assert(textos(r@) == textos(antes).push(peca@));
            i = i + m;
            inicio = i;
        } else {
            i = i + 1;
        }
    }
    let ultima = s.substring_char(inicio, n).to_owned();
    let ghost antes = r@;
    r.push(ultima);
    assert(textos(r@) == textos(antes).push(ultima@));
    r
}

/// Reads one production per line, `A -> x y z`: the left-hand side is the
/// text before the first ` -> `, the right-hand side the text that follows
/// (up to a second arrow, if any), split at each space.
pub fn obtem_regras_de_producao(linhas_arquivo: Vec<&str>) -> (r: Vec<RegraDeProducao>)
    requires
        forall|i: int| 0 <= i < linhas_arquivo@.len() ==> linha_valida(#[trigger] linhas_arquivo@[i]@),
    ensures
        r@.len() == linhas_arquivo@.len(),
        forall|i: int|
            0 <= i < r@.len() ==> (#[trigger] r@[i]).nao_terminal@ == regra_da_linha(
                linhas_arquivo@[i]@,
            ).0 && textos(r@[i].producao@) == regra_da_linha(linhas_arquivo@[i]@).1,
{
    let mut regras_de_producao: Vec<RegraDeProducao> = Vec::new();
    let seta_texto = " -> ";
    let espaco = " ";
    proof {
        reveal_strlit(" -> ");
        reveal_strlit(" ");
        assert(seta_texto@ =~= seta());
        assert(espaco@ =~= seq![' ']);
    }
    let mut i: usize = 0;
    while i < linhas_arquivo.len()
        invariant
            i <= linhas_arquivo@.len(),
            seta_texto@ == seta(),
            espaco@ == seq![' '],
            forall|j: int| 0 <= j < linhas_arquivo@.len() ==> linha_valida(#[trigger] linhas_arquivo@[j]@),
            regras_de_producao@.len() == i,
            forall|j: int|
                0 <= j < i ==> (#[trigger] regras_de_producao@[j]).nao_terminal@ == regra_da_linha(
                    linhas_arquivo@[j]@,
                ).0 && textos(regras_de_producao@[j].producao@) == regra_da_linha(
                    linhas_arquivo@[j]@,
                ).1,
        decreases linhas_arquivo@.len() - i,
    {
        let linha: &str = linhas_arquivo[i];
        let lados = divide(linha, seta_texto);
        proof {
            let k = choose|k: int| ocorre_em(linha@, seta(), k);
            lemma_pecas_desde_len(linha@, seta(), 0, 0);
        }
        let lado_direito: &str = lados[1].as_str();
        let simbolos = divide(lado_direito, espaco);
        let regra = RegraDeProducao { nao_terminal: lados[0].clone(), producao: simbolos };
        regras_de_producao.push(regra);
        i = i + 1;
    }
    regras_de_producao
}

/// Whether `v` holds a string equal to `s`.
pub fn contem(v: &Vec<String>, s: &String) -> (r: bool)
    ensures
        r == textos(v@).contains(s@),
{
    let mut i: usize = 0;
    while i < v.len()
        invariant
            i <= v@.len(),
            forall|j: int| 0 <= j < i ==> v@[j]@ != s@,
        decreases v@.len() - i,
    {
        if v[i] == *s {
            assert(textos(v@)[i as int] == s@);
            return true;
        }
        i = i + 1;
    }
    proof {
        if textos(v@).contains(s@) {
            let j = choose|j: int| 0 <= j < textos(v@).len() && textos(v@)[j] == s@;
            assert(v@[j]@ == s@);
        }
    }
    false
}

/// The non-terminals of a rule list: each left-hand side once, in order of
/// first appearance.
pub fn obtem_nao_terminais(regras_de_producao: &Vec<RegraDeProducao>) -> (r: Vec<String>)
    ensures
        textos(r@) == nao_terminais_de(regras_de_producao@),
{
    let mut nao_terminais: Vec<String> = Vec::new();
    let mut i: usize = 0;
    while i < regras_de_producao.len()
        invariant
            i <= regras_de_producao@.len(),
            textos(nao_terminais@) == nao_terminais_de(regras_de_producao@.take(i as int)),
        decreases regras_de_producao@.len() - i,
    {
        let ghost antes = nao_terminais@;
        assert(regras_de_producao@.take(i + 1).drop_last() == regras_de_producao@.take(i as int));
        let x = regras_de_producao[i].nao_terminal.clone();
        if !contem(&nao_terminais, &x) {
            nao_terminais.push(x);
            assert(textos(nao_terminais@) == textos(antes).push(x@));
        }
        i = i + 1;
    }
    assert(regras_de_producao@.take(i as int) == regras_de_producao@);
    nao_terminais
}

/// Appends to `terminais` the symbols of `simbolos` that it lacks and that are
/// not non-terminals.
fn acrescenta_simbolos(
    terminais: &mut Vec<String>,
    simbolos: &Vec<String>,
    nao_terminais: &Vec<String>,
)
    ensures
        textos(final(terminais)@) == acrescenta_terminais(
            textos(old(terminais)@),
            textos(simbolos@),
            textos(nao_terminais@),
        ),
{
    let mut k: usize = 0;
    while k < simbolos.len()
        invariant
            k <= simbolos@.len(),
            textos(terminais@) == acrescenta_terminais(
                textos(old(terminais)@),
                textos(simbolos@).take(k as int),
                textos(nao_terminais@),
            ),
        decreases simbolos@.len() - k,
    {
        let ghost antes = terminais@;
        assert(textos(simbolos@).take(k + 1).drop_last() == textos(simbolos@).take(k as int));
        let x = simbolos[k].clone();
        if !contem(terminais, &x) && !contem(nao_terminais, &x) {
            terminais.push(x);
            assert(textos(terminais@) == textos(antes).push(x@));
        }
        k = k + 1;
    }
    assert(textos(simbolos@).take(k as int) == textos(simbolos@));
}

/// The terminals of a rule list: each right-hand-side symbol that is not a
/// non-terminal, once, in order of first appearance.
pub fn obtem_terminais(regras_de_producao: &Vec<RegraDeProducao>, nao_terminais: &Vec<String>) -> (r:
    Vec<String>)
    ensures
        textos(r@) == terminais_de(regras_de_producao@, textos(nao_terminais@)),
{
    let mut terminais: Vec<String> = Vec::new();
    let mut i: usize = 0;
    while i < regras_de_producao.len()
        invariant
            i <= regras_de_producao@.len(),
            textos(terminais@) == terminais_de(
                regras_de_producao@.take(i as int),
                textos(nao_terminais@),
            ),
        decreases regras_de_producao@.len() - i,
    {
        assert(regras_de_producao@.take(i + 1).drop_last() == regras_de_producao@.take(i as int));
        acrescenta_simbolos(&mut terminais, &regras_de_producao[i].producao, nao_terminais);
        i = i + 1;
    }
    assert(regras_de_producao@.take(i as int) == regras_de_producao@);
    terminais
}

} // verus!
