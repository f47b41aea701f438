use lr_automaton::automato::Automato;
use lr_automaton::fecho::{fechamento, ItemLR};
use lr_automaton::transicoes::mesmos_itens;
use lr_automaton::gramatica::{obtem_regras_de_producao, Gramatica};
use lr_automaton::tabela::{Acao, Tabela};

fn gramatica(linhas: Vec<&str>) -> Gramatica {
    Gramatica::nova(obtem_regras_de_producao(linhas))
}

fn item(producao: usize, posicao_do_ponto: usize) -> ItemLR {
    ItemLR { producao, posicao_do_ponto }
}

fn construido(linhas: Vec<&str>) -> Automato {
    let mut a = Automato::inicializa(gramatica(linhas));
    a.analiza();
    a
}

fn expressoes() -> Automato {
    construido(vec!["S' -> E", "E -> E + T", "E -> T", "T -> id"])
}

fn linha(t: &Tabela, i: usize) -> Vec<Acao> {
    (0..t.colunas).map(|c| t.celula(i, c).unwrap()).collect()
}

#[test]
fn expressoes_estado_inicial() {
    let a = expressoes();
    let e0 = &a.estados[0];
    assert_eq!(e0.itens_iniciais, vec![item(0, 0)]);
    assert_eq!(e0.itens, vec![item(0, 0), item(1, 0), item(2, 0), item(3, 0)]);
    let rotulos: Vec<String> = e0.transicoes.iter().map(|&j| a.transicoes[j].simbolo.clone()).collect();
    assert_eq!(rotulos, vec!["E".to_string(), "T".to_string(), "id".to_string()]);
}

#[test]
fn expressoes_estados_e_transicoes() {
    let a = expressoes();
    assert_eq!(a.estados.len(), 6);
    assert_eq!(a.transicoes.len(), 5);
    let sementes: Vec<Vec<ItemLR>> = a.estados.iter().map(|e| e.itens_iniciais.clone()).collect();
    assert_eq!(
        sementes,
        vec![
            vec![item(0, 0)],
            vec![item(0, 1), item(1, 1)],
            vec![item(1, 2)],
            vec![item(1, 3)],
            vec![item(2, 1)],
            vec![item(3, 1)],
        ]
    );
    assert_eq!(a.estados[2].itens, vec![item(1, 2), item(3, 0)]);
    assert_eq!(a.estados[2].transicoes, vec![4, 2]);
}

#[test]
fn expressoes_tabela() {
    let a = expressoes();
    let t = a.gera_tabela();
    assert_eq!(t.linhas, 6);
    assert_eq!(t.colunas, 5);
    assert_eq!(linha(&t, 0), vec![Acao::Erro, Acao::Empilha(5), Acao::Erro, Acao::VaiPara(1), Acao::VaiPara(4)]);
    assert_eq!(linha(&t, 1), vec![Acao::Empilha(2), Acao::Erro, Acao::Aceita, Acao::Vazia, Acao::Vazia]);
    assert_eq!(linha(&t, 2), vec![Acao::Erro, Acao::Empilha(5), Acao::Erro, Acao::Vazia, Acao::VaiPara(3)]);
    assert_eq!(linha(&t, 3), vec![Acao::Reduz(1), Acao::Reduz(1), Acao::Reduz(1), Acao::Vazia, Acao::Vazia]);
    assert_eq!(linha(&t, 4), vec![Acao::Reduz(2), Acao::Reduz(2), Acao::Reduz(2), Acao::Vazia, Acao::Vazia]);
    assert_eq!(linha(&t, 5), vec![Acao::Reduz(3), Acao::Reduz(3), Acao::Reduz(3), Acao::Vazia, Acao::Vazia]);
    assert_eq!(t.celula(6, 0), None);
    assert_eq!(t.celula(0, 5), None);
}

#[test]
fn gramatica_minima() {
    let a = construido(vec!["S' -> S", "S -> a"]);
    assert_eq!(a.estados.len(), 3);
    assert_eq!(a.transicoes.len(), 2);
}

#[test]
fn fecho_idempotente_concreto() {
    let g = gramatica(vec!["S' -> E", "E -> E + T", "E -> T", "T -> id"]);
    let uma = fechamento(&g, &vec![item(0, 0)]);
    let duas = fechamento(&g, &uma);
    assert_eq!(uma, duas);
}

#[test]
fn pool_sem_repeticao_concreto() {
    let a = construido(vec!["S' -> E", "E -> E + T", "E -> T", "T -> T * F", "T -> F", "F -> ( E )", "F -> id"]);
    for i in 0..a.transicoes.len() {
        for j in 0..a.transicoes.len() {
            if i != j {
                let t = &a.transicoes[i];
                let u = &a.transicoes[j];
                assert!(!(t.simbolo == u.simbolo && mesmos_itens(&t.itens, &u.itens)));
            }
        }
    }
}

#[test]
fn classica_de_expressoes_tem_doze_estados() {
    let a = construido(vec!["S' -> E", "E -> E + T", "E -> T", "T -> T * F", "T -> F", "F -> ( E )", "F -> id"]);
    assert_eq!(a.estados.len(), 12);
    let t = a.gera_tabela();
    let aceitos: Vec<usize> = (0..t.linhas).filter(|&i| t.celula(i, 5) == Some(Acao::Aceita)).collect();
    assert_eq!(aceitos.len(), 1);
}

#[test]
fn determinismo_concreto() {
    let linhas = vec!["S' -> S", "S -> a S b", "S -> c"];
    let a1 = construido(linhas.clone());
    let a2 = construido(linhas);
    assert_eq!(a1.estados.len(), a2.estados.len());
    for i in 0..a1.estados.len() {
        assert_eq!(a1.estados[i].itens_iniciais, a2.estados[i].itens_iniciais);
        assert_eq!(a1.estados[i].itens, a2.estados[i].itens);
        assert_eq!(a1.estados[i].transicoes, a2.estados[i].transicoes);
    }
    let t1 = a1.gera_tabela();
    let t2 = a2.gera_tabela();
    for i in 0..t1.linhas {
        assert_eq!(linha(&t1, i), linha(&t2, i));
    }
}

#[test]
fn aceitacao_unica_concreta() {
    let a = expressoes();
    let t = a.gera_tabela();
    let fim = item(0, 1);
    for i in 0..t.linhas {
        let aceita = t.celula(i, 2) == Some(Acao::Aceita);
        assert_eq!(aceita, a.estados[i].itens.contains(&fim));
    }
    assert_eq!((0..t.linhas).filter(|&i| t.celula(i, 2) == Some(Acao::Aceita)).count(), 1);
}

#[test]
fn desvio_consistente_concreto() {
    let a = expressoes();
    let t = a.gera_tabela();
    for i in 0..t.linhas {
        for c in 3..t.colunas {
            if let Some(Acao::VaiPara(k)) = t.celula(i, c) {
                let x = &a.gramatica.nao_terminais[c - 2];
                let j = *a.estados[i]
                    .transicoes
                    .iter()
                    .find(|&&j| a.transicoes[j].simbolo == *x)
                    .unwrap();
                let avancados: Vec<ItemLR> = a.transicoes[j]
                    .itens
                    .iter()
                    .map(|it| item(it.producao, it.posicao_do_ponto + 1))
                    .collect();
                assert!(mesmos_itens(&a.estados[k].itens_iniciais, &avancados));
            }
        }
    }
}

#[test]
fn estado_do_id_reduz() {
    let a = expressoes();
    let t = a.gera_tabela();
    let k = a.obtem_estado(2);
    assert_eq!(k, 5);
    assert!(a.estados[k].itens.contains(&item(3, 1)));
    assert_eq!(linha(&t, k)[..3].to_vec(), vec![Acao::Reduz(3), Acao::Reduz(3), Acao::Reduz(3)]);
}

#[test]
fn acoes_individuais() {
    let a = expressoes();
    assert_eq!(a.determina_acao_terminal(0, &"id".to_string()), Acao::Empilha(5));
    assert_eq!(a.determina_acao_terminal(0, &"+".to_string()), Acao::Erro);
    assert_eq!(a.determina_acao_terminal(1, &"id".to_string()), Acao::Erro);
    assert_eq!(a.determina_acao_terminal(3, &"id".to_string()), Acao::Reduz(1));
    assert_eq!(a.determina_acao_final(1), Acao::Aceita);
    assert_eq!(a.determina_acao_final(0), Acao::Erro);
    assert_eq!(a.determina_acao_final(4), Acao::Reduz(2));
    assert_eq!(a.determina_acao_nao_terminal(0, &"E".to_string()), Acao::VaiPara(1));
    assert_eq!(a.determina_acao_nao_terminal(0, &"S'".to_string()), Acao::Vazia);
    assert_eq!(a.determina_acao_nao_terminal(1, &"T".to_string()), Acao::Vazia);
}

#[test]
fn conflito_resolvido_a_favor_do_empilhamento() {
    // S -> a . and S -> a . b share a state: `b` shifts, the rest reduces by the first complete item.
    let a = construido(vec!["S' -> S", "S -> a", "S -> a b"]);
    let t = a.gera_tabela();
    let k = a.estados.iter().position(|e| e.itens.contains(&item(1, 1))).unwrap();
    assert!(a.estados[k].itens.contains(&item(2, 1)));
    assert_eq!(t.celula(k, 0), Some(Acao::Reduz(1)));
    assert!(matches!(t.celula(k, 1), Some(Acao::Empilha(_))));
    assert_eq!(t.celula(k, 2), Some(Acao::Reduz(1)));
}

#[test]
fn transicoes_agrupadas_por_simbolo() {
    // Three items move over `x` in state 0: one transition carries all three.
    let a = construido(vec!["S' -> A", "A -> x", "A -> x y", "A -> x z"]);
    let e0 = &a.estados[0];
    let sobre_x: Vec<usize> = e0.transicoes.iter().copied().filter(|&j| a.transicoes[j].simbolo == "x").collect();
    assert_eq!(sobre_x.len(), 1);
    assert_eq!(a.transicoes[sobre_x[0]].itens, vec![item(1, 0), item(2, 0), item(3, 0)]);
}

#[test]
fn fecho_de_item_completo_nao_cresce() {
    let g = gramatica(vec!["S' -> S", "S -> a"]);
    assert_eq!(fechamento(&g, &vec![item(1, 1)]), vec![item(1, 1)]);
}

#[test]
fn reducao_pela_regra_do_item() {
    // A -> a and B -> a have the same right-hand side; the state after `a`
    // lists B's item first, so it reduces by B's rule.
    let a = construido(vec!["S' -> S", "S -> B", "S -> A", "A -> a", "B -> a"]);
    let t = a.gera_tabela();
    let k = a.estados.iter().position(|e| e.itens.contains(&item(4, 1))).unwrap();
    assert_eq!(a.estados[k].itens, vec![item(4, 1), item(3, 1)]);
    assert_eq!(t.celula(k, 0), Some(Acao::Reduz(4)));
    assert_eq!(t.celula(k, 1), Some(Acao::Reduz(4)));
}
