use monitorzinho::invest::model::{AssetId, Market, Moeda};
use monitorzinho::invest::portfolio::Lancamento;
use monitorzinho::invest::serie::{
    fluxos_do_dia, janela, lacunas, registrar, rumo, Periodo, Ponto, Registro,
};
use monitorzinho::invest::tempo::{Data, BRT_OFFSET};

fn bits(x: f64) -> u64 {
    x.to_bits()
}

fn ponto(dia: &str, total: f64, aporte: f64) -> Ponto<String> {
    Ponto {
        dia: dia.into(),
        total_brl: bits(total),
        aporte: bits(aporte),
        retirada: bits(0.0),
        proventos: bits(0.0),
    }
}

fn dia(ano: i32, mes: u32, dia: u32, total: f64, aporte: f64) -> Ponto<String> {
    ponto(&format!("{ano}-{mes:02}-{dia:02}"), total, aporte)
}

fn d(ano: i32, mes: u32, dia: u32) -> Data {
    Data { ano, mes, dia }
}

fn semana() -> (Data, Data) {
    (d(2026, 8, 31), d(2026, 9, 4))
}

/// The start, the whole move and the part of the market of a period.
fn contas(p: &Periodo) -> (f64, f64, f64) {
    let de = f64::from_bits(p.janela[0].total_brl);
    let total = f64::from_bits(p.janela[p.janela.len() - 1].total_brl) - de;
    let soma = |f: fn(&Ponto<String>) -> u64| -> f64 {
        p.janela.iter().skip(1).map(|x| f64::from_bits(f(x))).sum()
    };
    let mercado = total - soma(|x| x.aporte) + soma(|x| x.retirada) - soma(|x| x.proventos);
    (de, total, mercado)
}

#[test]
fn registrar_e_idempotente_no_mesmo_dia() {
    let mut pontos = Vec::new();
    let agora = d(2026, 9, 8).epoch_inicio(BRT_OFFSET) + 3600;
    let zero = bits(0.0);
    assert_eq!(registrar(&mut pontos, agora, bits(100.0), zero, zero, zero), Registro::Novo);
    assert_eq!(
        registrar(&mut pontos, agora, bits(105.0), zero, zero, zero),
        Registro::Trocado(bits(100.0))
    );
    assert_eq!(pontos.len(), 1, "um ponto por dia");
    assert_eq!(
        f64::from_bits(pontos[0].total_brl),
        105.0,
        "dentro do dia, o mais recente vale"
    );
}

#[test]
fn lacunas_sao_contadas_e_nao_disfarcadas() {
    let pontos = vec![ponto("2026-09-01", 100.0, 0.0), ponto("2026-09-05", 100.0, 0.0)];
    assert_eq!(lacunas(&pontos), 3);
}

#[test]
fn o_aporte_nao_vira_valorizacao() {
    let pontos = vec![dia(2026, 8, 31, 100_000.0, 0.0), dia(2026, 9, 4, 110_000.0, 8_000.0)];
    let (de, ate) = semana();
    let r = rumo(&pontos, &de, &ate).expect("dois pontos bastam");
    let (inicio, total, mercado) = contas(&r);
    assert_eq!(total, 10_000.0);
    assert_eq!(mercado, 2_000.0, "o aporte sai da conta do mercado");
    assert!((total / inicio * 100.0 - 10.0).abs() < 1e-9);
    assert_eq!(r.pedido, 5, "segunda a sexta são cinco dias");
    assert!(r.completo(), "as duas pontas do período estão na série");
}

#[test]
fn o_periodo_e_fechado_e_ignora_o_que_esta_fora_dele() {
    let pontos = vec![
        dia(2026, 8, 28, 90_000.0, 0.0),
        dia(2026, 8, 31, 100_000.0, 0.0),
        dia(2026, 9, 4, 110_000.0, 0.0),
        dia(2026, 9, 8, 200_000.0, 0.0),
    ];
    let (de, ate) = semana();
    let r = rumo(&pontos, &de, &ate).unwrap();
    let (inicio, total, _) = contas(&r);
    assert_eq!(inicio, 100_000.0, "começa na segunda, não antes");
    assert_eq!(total, 10_000.0, "termina na sexta, não hoje");
}

#[test]
fn com_um_ponto_so_nao_ha_rumo_e_isso_nao_e_zero() {
    let (de, ate) = semana();
    assert!(rumo(&vec![dia(2026, 9, 1, 100_000.0, 0.0)], &de, &ate).is_none());
    assert!(rumo(&Vec::new(), &de, &ate).is_none());
}

#[test]
fn uma_serie_que_cobre_meio_periodo_diz_que_cobre_meio() {
    let pontos: Vec<Ponto<String>> =
        (1..=5).map(|i| dia(2026, 8, 20 + i, 100_000.0 + i as f64 * 1_000.0, 0.0)).collect();
    let r = rumo(&pontos, &d(2026, 8, 1), &d(2026, 8, 31)).unwrap();
    assert_eq!(r.pedido, 31);
    assert_eq!(r.cobre, 5);
    assert!(!r.completo(), "cinco de trinta e um não é o mês");
}

#[test]
fn um_fim_de_semana_sem_ponto_nao_torna_o_periodo_incompleto() {
    let pontos = vec![
        dia(2026, 8, 31, 100_000.0, 0.0),
        dia(2026, 9, 1, 101_000.0, 0.0),
        dia(2026, 9, 4, 103_000.0, 0.0),
    ];
    let (de, ate) = semana();
    assert!(rumo(&pontos, &de, &ate).unwrap().completo());
}

#[test]
fn a_janela_comeca_no_dia_do_corte() {
    let pontos = vec![
        dia(2026, 9, 1, 1.0, 0.0),
        dia(2026, 9, 2, 2.0, 0.0),
        dia(2026, 9, 8, 3.0, 0.0),
    ];
    let agora = d(2026, 9, 8).epoch_inicio(BRT_OFFSET) + 12 * 3600;
    assert_eq!(janela(&pontos, agora, 6).len(), 2);
    assert_eq!(janela(&pontos, agora, 0).len(), 1);
}

#[test]
fn os_fluxos_sao_os_do_dia_e_cada_um_no_seu_lugar() {
    let agora = d(2026, 9, 8).epoch_inicio(BRT_OFFSET) + 12 * 3600;
    let l = |tipo: &str, em: u64, valor: f64| Lancamento {
        em,
        tipo: tipo.to_string(),
        ativo: Some(AssetId::new(Market::B3, "PETR4")),
        quantidade: bits(0.0),
        preco: bits(0.0),
        taxas: bits(0.0),
        valor: bits(valor),
        moeda: Some(Moeda::Brl),
        nota: String::new(),
    };
    let ls = vec![
        l("aporte", agora, 10.0),
        l("retirada", agora, 20.0),
        l("provento", agora, 30.0),
        l("compra", agora, 40.0),
        l("aporte", agora - 86_400, 50.0),
    ];
    let f = fluxos_do_dia(&ls, agora);
    assert_eq!(f.aportes, vec![bits(10.0)]);
    assert_eq!(f.retiradas, vec![bits(20.0)]);
    assert_eq!(f.proventos, vec![bits(30.0)]);
}

#[test]
fn so_mais_de_meio_centavo_e_mudanca() {
    let de = |antes: f64, agora: f64| Registro::Trocado(bits(antes)).mudou(bits(antes - agora));
    assert!(Registro::Novo.mudou(bits(0.0)), "um dia novo é sempre uma mudança");
    assert!(!de(100.0, 100.0) && !de(100.0, 100.004) && !de(100.004, 100.0));
    assert!(de(100.0, 100.006) && de(100.006, 100.0) && de(0.0, f64::INFINITY));
    assert!(!Registro::Trocado(0).mudou(bits(0.005)) && !Registro::Trocado(0).mudou(bits(-0.005)));
    assert!(!de(0.0, f64::NAN), "o que não é um número não é maior que nada");
}
