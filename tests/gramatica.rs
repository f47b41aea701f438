use lr_automaton::gramatica::{
    contem, obtem_nao_terminais, obtem_regras_de_producao, obtem_terminais, Gramatica,
    RegraDeProducao,
};

fn regra(nao_terminal: &str, producao: &[&str]) -> RegraDeProducao {
    RegraDeProducao {
        nao_terminal: nao_terminal.to_string(),
        producao: producao.iter().map(|s| s.to_string()).collect(),
    }
}

fn textos(v: &[&str]) -> Vec<String> {
    v.iter().map(|s| s.to_string()).collect()
}

#[test]
fn le_regras_simples() {
    let r = obtem_regras_de_producao(vec!["S' -> E", "E -> E + T", "T -> id"]);
    assert_eq!(r.len(), 3);
    assert_eq!(r[0].nao_terminal, "S'");
    assert_eq!(r[0].producao, textos(&["E"]));
    assert_eq!(r[1].nao_terminal, "E");
    assert_eq!(r[1].producao, textos(&["E", "+", "T"]));
    assert_eq!(r[2].producao, textos(&["id"]));
}

#[test]
fn le_regra_com_espacos_extras() {
    let r = obtem_regras_de_producao(vec!["A -> a  b ", "B -> "]);
    assert_eq!(r[0].producao, textos(&["a", "", "b", ""]));
    assert_eq!(r[1].nao_terminal, "B");
    assert_eq!(r[1].producao, textos(&[""]));
}

#[test]
fn le_regra_com_duas_setas() {
    let r = obtem_regras_de_producao(vec!["A -> b -> c"]);
    assert_eq!(r[0].nao_terminal, "A");
    assert_eq!(r[0].producao, textos(&["b"]));
}

#[test]
fn le_nenhuma_linha() {
    let r = obtem_regras_de_producao(Vec::new());
    assert!(r.is_empty());
}

#[test]
fn nao_terminais_na_ordem_de_aparicao() {
    let regras = vec![
        regra("S'", &["E"]),
        regra("E", &["E", "+", "T"]),
        regra("E", &["T"]),
        regra("T", &["id"]),
    ];
    assert_eq!(obtem_nao_terminais(&regras), textos(&["S'", "E", "T"]));
}

#[test]
fn terminais_sem_repeticao() {
    let regras = vec![
        regra("S'", &["E"]),
        regra("E", &["E", "+", "T"]),
        regra("E", &["T", "*", "id"]),
        regra("T", &["id", "+"]),
    ];
    let nts = obtem_nao_terminais(&regras);
    assert_eq!(obtem_terminais(&regras, &nts), textos(&["+", "*", "id"]));
}

#[test]
fn gramatica_nova_deriva_listas() {
    let g = Gramatica::nova(vec![regra("S'", &["S"]), regra("S", &["a", "S", "b"]), regra("S", &["c"])]);
    assert_eq!(g.regras.len(), 3);
    assert_eq!(g.nao_terminais, textos(&["S'", "S"]));
    assert_eq!(g.terminais, textos(&["a", "b", "c"]));
}

#[test]
fn contem_compara_texto() {
    let v = textos(&["x", "yz"]);
    assert!(contem(&v, &"yz".to_string()));
    assert!(!contem(&v, &"y".to_string()));
    assert!(!contem(&Vec::new(), &"x".to_string()));
}
