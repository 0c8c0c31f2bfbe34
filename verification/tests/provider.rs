use monitorzinho::invest::conjunto::ProviderSet;
use monitorzinho::invest::model::{AssetId, FeedError, Market, Moeda};
use monitorzinho::invest::provider::{
    aplicar_recuo, b3_aberta, conta_como_busca, dia_util_br, herdar_acessorios, Candle, Conversao,
    Grade, MarketSnapshot, Quote, Span, VALIDADE_DA_ORIGEM,
};
use monitorzinho::invest::providers::manual::{Informado, Manual};
use monitorzinho::invest::providers::{todos, Provedor};
use monitorzinho::invest::store::cache::Cache;
use monitorzinho::invest::tempo::{Data, BRT_OFFSET};
use monitorzinho::invest::volta::{percorrer, proximo_passo, Origem, Passo, Relogio, Resposta, Vez, Volta};

fn bits(x: f64) -> u64 {
    x.to_bits()
}

fn feriados() -> Vec<Data> {
    vec![Data { ano: 2026, mes: 9, dia: 7 }]
}

#[test]
fn provedor_local_nao_conta_como_ida_a_fonte() {
    assert!(!conta_como_busca(false, 21), "informado não fala com fonte nenhuma");
    assert!(conta_como_busca(true, 1));
}

#[test]
fn resposta_vazia_nao_renova_o_carimbo() {
    assert!(!conta_como_busca(true, 0));
    assert!(!conta_como_busca(false, 0));
}

#[test]
fn nenhum_provedor_local_mexe_no_relogio() {
    let todos = todos(false);
    let locais: Vec<&'static str> = todos.iter().filter(|p| !p.remoto()).map(|p| p.id()).collect();
    assert!(!locais.is_empty(), "o teste perde o sentido se não houver provedor local nenhum");
    for id in locais {
        assert!(!conta_como_busca(false, 99), "{id} é local e não pode carimbar");
    }
}

fn q(em: u64, volume: Option<f64>, max24: Option<f64>) -> Quote {
    Quote {
        ativo: AssetId::new(Market::B3, "PETR4"),
        fonte: "teste",
        preco: bits(10.0),
        anterior: None,
        moeda: Moeda::Brl,
        grade: Grade::AoVivo,
        em,
        volume: volume.map(bits),
        max24: max24.map(bits),
        min24: None,
    }
}

#[test]
fn os_acessorios_vem_de_quem_os_tem() {
    let dia = 1_789_000_000;
    let novo = herdar_acessorios(q(dia + 60, None, None), &q(dia, Some(1e6), Some(11.0)));
    assert_eq!(novo.volume.map(f64::from_bits), Some(1e6));
    assert_eq!(novo.max24.map(f64::from_bits), Some(11.0));
    let novo = herdar_acessorios(q(dia + 60, Some(2e6), None), &q(dia, Some(1e6), None));
    assert_eq!(novo.volume.map(f64::from_bits), Some(2e6));
}

#[test]
fn o_acessorio_nao_atravessa_o_pregao() {
    let ontem = 1_789_000_000;
    let hoje = ontem + 86_400;
    let novo = herdar_acessorios(q(hoje, None, None), &q(ontem, Some(1e6), Some(11.0)));
    assert_eq!(novo.volume, None);
    assert_eq!(novo.max24, None);
}

#[test]
fn recuo_dobra_e_para_no_teto() {
    let base = 2_000;
    assert_eq!(aplicar_recuo(base, 0), 2_000);
    assert_eq!(aplicar_recuo(base, 1), 4_000);
    assert_eq!(aplicar_recuo(base, 3), 16_000);
    assert_eq!(aplicar_recuo(base, 99), 300_000);
}

#[test]
fn grade_manual_nao_e_ao_vivo() {
    assert!(Grade::AoVivo.ao_vivo());
    assert!(Grade::Atrasado(900).ao_vivo());
    assert!(!Grade::Manual.ao_vivo());
    assert!(!Grade::NaoOficial.ao_vivo());
    assert!(!Grade::Fechamento.ao_vivo());
}

#[test]
fn dia_util_exclui_fim_de_semana_e_feriado() {
    let em = |dia: u32| Data { ano: 2026, mes: 9, dia }.epoch_inicio(BRT_OFFSET);
    assert!(!dia_util_br(em(5), &feriados()), "sábado");
    assert!(!dia_util_br(em(6), &feriados()), "domingo");
    assert!(!dia_util_br(em(7), &feriados()), "7 de setembro é feriado");
    assert!(dia_util_br(em(8), &feriados()), "terça comum");
}

#[test]
fn o_pregao_vai_das_dez_as_dezoito_dos_dias_uteis() {
    let terca = Data { ano: 2026, mes: 9, dia: 8 }.epoch_inicio(BRT_OFFSET);
    let segunda = Data { ano: 2026, mes: 9, dia: 7 }.epoch_inicio(BRT_OFFSET);
    assert!(!b3_aberta(terca + 10 * 3600 - 1, &feriados()));
    assert!(b3_aberta(terca + 10 * 3600, &feriados()));
    assert!(b3_aberta(terca + 18 * 3600 - 1, &feriados()));
    assert!(!b3_aberta(terca + 18 * 3600, &feriados()));
    assert!(!b3_aberta(segunda + 12 * 3600, &feriados()));
}

fn em_brl(s: &MarketSnapshot, valor: f64, moeda: Moeda) -> Option<f64> {
    s.para_brl(moeda).map(|c| match c {
        Conversao::Igual => valor,
        Conversao::Vezes(taxa) => valor * f64::from_bits(taxa),
    })
}

#[test]
fn conversao_para_brl_sem_cambio_e_none() {
    let mut s = MarketSnapshot::new();
    assert_eq!(em_brl(&s, 100.0, Moeda::Brl), Some(100.0));
    assert_eq!(em_brl(&s, 100.0, Moeda::Usd), None);

    s.por(Quote {
        fonte: "teste",
        ativo: AssetId::new(Market::Fx, "USDBRL"),
        preco: bits(5.42),
        anterior: None,
        moeda: Moeda::Brl,
        grade: Grade::AoVivo,
        em: 0,
        volume: None,
        max24: None,
        min24: None,
    });
    assert_eq!(em_brl(&s, 100.0, Moeda::Usd), Some(542.0));
    assert_eq!(em_brl(&s, 100.0, Moeda::Usdt), Some(542.0));
}

#[test]
fn o_preco_informado_chega_ao_provedor_manual() {
    let mut set = ProviderSet::new(vec![Provedor::Manual], Vec::new(), &Cache::new());
    let petr = AssetId::new(Market::B3, "PETR4");
    set.set_manuais(vec![Informado {
        ativo: AssetId::new(Market::B3, "PETR4"),
        preco: bits(38.42),
        em: 1000,
    }]);
    assert!(matches!(set.quem_cobre(&petr), Some(Provedor::Manual)), "o manual cobre tudo");
    let quotes = Manual { precos: set.manuais }.quotes(&[AssetId::new(Market::B3, "PETR4")]);
    assert_eq!(quotes.len(), 1, "o preço informado tem que sair do provedor");
    assert_eq!(f64::from_bits(quotes[0].preco), 38.42);
    assert_eq!(quotes[0].grade, Grade::Manual);
}

fn variacao(q: &Quote) -> Option<f64> {
    let anterior = f64::from_bits(q.anterior?);
    (anterior != 0.0).then(|| (f64::from_bits(q.preco) / anterior - 1.0) * 100.0)
}

#[test]
fn variacao_precisa_do_fechamento_anterior() {
    let mut q = q(0, None, None);
    q.preco = bits(38.42);
    q.grade = Grade::Manual;
    assert_eq!(variacao(&q), None, "sem anterior a coluna fica vazia, não zerada");
    q.anterior = Some(bits(38.0));
    let v = variacao(&q).unwrap();
    assert!((v - 1.105).abs() < 0.01);
}

// --- a cadeia ---

struct Falso {
    id: &'static str,
    mercado: Market,
    falha: bool,
}

fn uma_volta(provedores: &[Falso], ativos: &[AssetId]) -> Vec<Quote> {
    let mut volta = Volta::comecar(ativos);
    for p in provedores {
        let cobre: Vec<bool> = volta.pendentes.iter().map(|a| a.market == p.mercado).collect();
        let meus = volta.meus(&cobre);
        if meus.is_empty() {
            continue;
        }
        let mut relogio = Relogio { proxima: None, recuo: 0 };
        let origem = Origem { id: p.id, nome: p.id, remoto: true };
        let (vez, base) = volta.consultar(&relogio, true, 15_000, 0, 0);
        let intervalo = match vez {
            Vez::Esperar => panic!("ninguém perguntou ainda"),
            Vez::Perguntar(ms) => ms,
        };
        if p.falha {
            volta.sofrer(
                &mut relogio,
                origem,
                base,
                intervalo,
                0,
                &FeedError::Tempo,
                "sem resposta".to_string(),
            );
            assert_eq!(relogio.recuo, 1);
        } else {
            let quotes: Vec<Quote> = meus
                .into_iter()
                .map(|ativo| Quote {
                    fonte: p.id,
                    ativo,
                    preco: bits(1.0),
                    anterior: None,
                    moeda: Moeda::Brl,
                    grade: Grade::AoVivo,
                    em: 0,
                    volume: None,
                    max24: None,
                    min24: None,
                })
                .collect();
            assert!(volta.ouvir(&mut relogio, origem, intervalo, 0, 0, quotes, None));
            assert_eq!(relogio.recuo, 0);
        }
    }
    volta.novos
}

#[test]
fn a_primeira_fonte_que_entrega_ganha() {
    let quotes = uma_volta(
        &[
            Falso { id: "brapi", mercado: Market::B3, falha: false },
            Falso { id: "yahoo", mercado: Market::B3, falha: false },
        ],
        &[AssetId::new(Market::B3, "PETR4")],
    );
    assert_eq!(quotes.len(), 1);
    assert_eq!(quotes[0].fonte, "brapi", "a reserva não pode tomar a vez");
}

#[test]
fn a_reserva_entra_quando_a_primeira_falha() {
    let quotes = uma_volta(
        &[
            Falso { id: "brapi", mercado: Market::B3, falha: true },
            Falso { id: "yahoo", mercado: Market::B3, falha: false },
        ],
        &[AssetId::new(Market::B3, "PETR4")],
    );
    assert_eq!(quotes.len(), 1);
    assert_eq!(quotes[0].fonte, "yahoo");
}

#[test]
fn todas_falhando_nao_inventa_preco() {
    let quotes = uma_volta(
        &[
            Falso { id: "brapi", mercado: Market::B3, falha: true },
            Falso { id: "yahoo", mercado: Market::B3, falha: true },
        ],
        &[AssetId::new(Market::B3, "PETR4")],
    );
    assert!(quotes.is_empty(), "sem fonte, a linha fica sem preço — nunca inventada");
}

#[test]
fn cada_ativo_segue_a_propria_cadeia() {
    let quotes = uma_volta(
        &[
            Falso { id: "brapi", mercado: Market::B3, falha: true },
            Falso { id: "yahoo", mercado: Market::B3, falha: false },
            Falso { id: "binance", mercado: Market::Binance, falha: false },
        ],
        &[AssetId::new(Market::B3, "PETR4"), AssetId::new(Market::Binance, "BTCBRL")],
    );
    assert_eq!(quotes.len(), 2);
    let de = |s: &str| quotes.iter().any(|q| q.fonte == s);
    assert!(de("yahoo") && de("binance"));
    assert!(!de("brapi"));
}

// --- a série ---

fn ponto() -> Vec<Candle> {
    vec![Candle { em: 1, fechamento: bits(10.0) }]
}

fn recusa(code: u16) -> Resposta<Vec<Candle>> {
    Resposta::Falhou(FeedError::Status { code, detalhe: None })
}

#[test]
fn a_serie_cai_para_a_reserva_quando_a_primeira_recusa() {
    let serie = percorrer(vec![recusa(401), Resposta::Entregou(ponto())])
        .expect("alguém tem que responder")
        .expect("a reserva respondeu");
    assert_eq!(serie.len(), 1);
}

#[test]
fn uma_fonte_que_nao_serve_serie_nao_bloqueia_a_seguinte() {
    assert!(percorrer(vec![Resposta::NaoServe, Resposta::Entregou(ponto())])
        .is_some_and(|r| r.is_ok()));
}

#[test]
fn todas_recusando_devolve_o_erro_e_nao_uma_serie_vazia() {
    assert!(percorrer(vec![recusa(401), recusa(500)]).is_some_and(|r| r.is_err()));
}

#[test]
fn sem_ninguem_cobrindo_nao_ha_resposta() {
    let set = ProviderSet::new(vec![Provedor::Kinvo], Vec::new(), &Cache::new());
    assert!(set.quem_busca(&AssetId::new(Market::Us, "AAPL")).is_none());
    assert!(percorrer(Vec::<Resposta<Vec<Candle>>>::new()).is_none());
}

// --- a prioridade ---

fn quote(grade: Grade, preco: f64, em: u64) -> Quote {
    Quote {
        fonte: "teste",
        ativo: AssetId::new(Market::B3, "PETR4"),
        preco: bits(preco),
        anterior: None,
        moeda: Moeda::Brl,
        grade,
        em,
        volume: None,
        max24: None,
        min24: None,
    }
}

fn conjunto() -> ProviderSet {
    ProviderSet::new(Vec::new(), Vec::new(), &Cache::new())
}

fn meio_dia_de_terca() -> u64 {
    Data { ano: 2026, mes: 9, dia: 8 }.epoch_inicio(BRT_OFFSET) + 12 * 3600
}

fn preco(set: &ProviderSet) -> f64 {
    let ativo = AssetId::new(Market::B3, "PETR4");
    f64::from_bits(set.snapshot.quote(&ativo).expect("tem que haver preço").preco)
}

#[test]
fn o_preco_informado_nao_apaga_o_preco_de_mercado() {
    let mut set = conjunto();
    let agora = meio_dia_de_terca();
    set.publicar(vec![quote(Grade::AoVivo, 48.09, 1000)], Vec::new(), agora, &feriados());
    set.publicar(vec![quote(Grade::Manual, 38.42, 1001)], Vec::new(), agora, &feriados());
    assert_eq!(preco(&set), 48.09, "o informado tomou o lugar do de mercado");
    let ativo = AssetId::new(Market::B3, "PETR4");
    assert_eq!(set.snapshot.quote(&ativo).unwrap().grade, Grade::AoVivo);
}

#[test]
fn uma_origem_melhor_sempre_entra() {
    let mut set = conjunto();
    let agora = meio_dia_de_terca();
    set.publicar(vec![quote(Grade::Manual, 38.42, 1000)], Vec::new(), agora, &feriados());
    set.publicar(vec![quote(Grade::AoVivo, 48.09, 1001)], Vec::new(), agora, &feriados());
    assert_eq!(preco(&set), 48.09);
}

#[test]
fn a_mesma_origem_sempre_atualiza() {
    let mut set = conjunto();
    let agora = meio_dia_de_terca();
    set.publicar(vec![quote(Grade::AoVivo, 48.09, 1000)], Vec::new(), agora, &feriados());
    set.publicar(vec![quote(Grade::AoVivo, 48.50, 1001)], Vec::new(), agora, &feriados());
    assert_eq!(preco(&set), 48.50);
}

#[test]
fn passada_a_validade_o_informado_assume_com_o_pregao_aberto() {
    let mut set = ProviderSet::new(vec![Provedor::Kinvo], Vec::new(), &Cache::new());
    let agora = meio_dia_de_terca();
    set.publicar(vec![quote(Grade::AoVivo, 48.09, 1000)], Vec::new(), agora, &feriados());
    set.publicar(
        vec![quote(Grade::Manual, 38.42, 1000 + VALIDADE_DA_ORIGEM + 1)],
        Vec::new(),
        agora,
        &feriados(),
    );
    assert_eq!(preco(&set), 38.42);
}

#[test]
fn com_o_pregao_fechado_o_informado_nao_toma_o_lugar_do_fechamento() {
    let mut set = conjunto();
    let agora = meio_dia_de_terca();
    set.publicar(vec![quote(Grade::AoVivo, 48.09, 1000)], Vec::new(), agora, &feriados());
    set.publicar(
        vec![quote(Grade::Manual, 38.42, 1000 + VALIDADE_DA_ORIGEM + 1)],
        Vec::new(),
        agora,
        &feriados(),
    );
    assert_eq!(preco(&set), 48.09, "sem mercado andando, o fechamento fica");

    let mut de_noite = ProviderSet::new(vec![Provedor::Kinvo], Vec::new(), &Cache::new());
    let noite = agora + 10 * 3600;
    de_noite.publicar(vec![quote(Grade::AoVivo, 48.09, 1000)], Vec::new(), noite, &feriados());
    de_noite.publicar(
        vec![quote(Grade::Manual, 38.42, 1000 + VALIDADE_DA_ORIGEM + 1)],
        Vec::new(),
        noite,
        &feriados(),
    );
    assert_eq!(preco(&de_noite), 48.09);
}

#[test]
fn nao_oficial_ganha_do_informado_e_perde_do_ao_vivo() {
    assert!(Grade::NaoOficial.peso() > Grade::Manual.peso());
    assert!(Grade::NaoOficial.peso() < Grade::AoVivo.peso());
}

#[test]
fn a_procedencia_volta_do_codigo_que_foi_escrito() {
    for g in [Grade::AoVivo, Grade::Fechamento, Grade::Manual, Grade::NaoOficial] {
        assert_eq!(Grade::de_code(g.code()), g);
    }
}

#[test]
fn os_periodos_tem_dias() {
    assert_eq!(Span::Mes.dias(), 30);
    assert_eq!(Span::Ano.dias(), 365);
}

#[test]
fn parar_vale_mais_que_dormir() {
    assert_eq!(proximo_passo(true, true), Passo::Sair);
    assert_eq!(proximo_passo(true, false), Passo::Sair);
    assert!(matches!(proximo_passo(false, false), Passo::Dormir(_)));
    assert_eq!(proximo_passo(false, true), Passo::Rodar);
}

#[test]
fn quem_nao_chegou_a_vez_encurta_o_sono() {
    let mut volta = Volta::comecar(&[]);
    let antes = volta.espera;
    let relogio = Relogio { proxima: Some(700), recuo: 0 };
    let (vez, _) = volta.consultar(&relogio, true, 15_000, 0, 400);
    assert_eq!(vez, Vez::Esperar);
    assert_eq!(volta.espera, antes.min(300));
}

#[test]
fn o_que_foi_guardado_no_cache_volta() {
    let mut set = conjunto();
    let agora = meio_dia_de_terca();
    set.publicar(vec![quote(Grade::AoVivo, 48.09, agora)], Vec::new(), agora, &feriados());
    let cache = set.para_cache(agora);
    let outro = ProviderSet::new(Vec::new(), Vec::new(), &cache);
    assert_eq!(preco(&outro), 48.09, "o que foi guardado volta");
}

#[test]
fn o_conjunto_acorda_quando_deve() {
    let mut s = ProviderSet::new(vec![Provedor::Yahoo], Vec::new(), &Cache::new());
    assert!(!s.acordar && !s.buscando());
    s.set_ativo(false);
    assert!(!s.acordar, "desligar o que já estava desligado não acorda ninguém");
    s.set_ativo(true);
    assert!(s.acordar && s.buscando());
    s.acordou();
    assert!(!s.acordar);
    let a = || vec![AssetId::new(Market::B3, "PETR4")];
    s.pedir(a());
    assert!(s.acordar);
    s.acordou();
    s.pedir(a());
    assert!(!s.acordar, "pedir o mesmo de novo não acorda ninguém");
    s.set_piso(30_000);
    assert!(s.acordar && s.piso == 30_000);
    assert!(s.start() && !s.start(), "a thread começa uma vez só");
    s.parar();
    assert!(s.parar);
    assert!(!ProviderSet::new(vec![Provedor::Manual], Vec::new(), &Cache::new()).start());
}

#[test]
fn um_erro_faz_a_fonte_recuar_e_a_resposta_desfaz() {
    let a = AssetId::new(Market::B3, "PETR4");
    let mut v = Volta::comecar(&[a.clone()]);
    let mut r = Relogio { proxima: None, recuo: 0 };
    let o = Origem { id: "x", nome: "X", remoto: true };
    let (vez, base) = v.consultar(&r, true, 2_000, 0, 100);
    assert_eq!((vez, base), (Vez::Perguntar(2_000), 2_000));
    v.sofrer(&mut r, o, base, 2_000, 100, &FeedError::Tempo, "x".to_string());
    assert_eq!(r.recuo, 1);
    assert_eq!(r.proxima, Some(2_100));
    let cota = FeedError::Cota { retry_after: Some(9) };
    v.sofrer(&mut r, o, base, 2_000, 100, &cota, "x".to_string());
    assert_eq!(r.proxima, Some(9_100), "o servidor disse quanto esperar");
    assert_eq!(v.consultar(&r, true, 2_000, 0, 200).0, Vez::Esperar);
    v.ouvir(&mut r, o, 2_000, 10_000, 1, Vec::new(), None);
    assert_eq!(r.recuo, 0);
    assert!(v.publica() && v.sono() >= 500);
    assert_eq!(v.meus(&[true]).len(), 1, "o que ninguém entregou continua pendente");
}

#[test]
fn so_o_dolar_tem_serie_no_cambio() {
    let s = ProviderSet::new(todos(false), Vec::new(), &Cache::new());
    let tem = |m: Market, x: &str| s.tem_historico(&AssetId::new(m, x));
    assert!(tem(Market::Fx, "USDBRL"));
    assert!(!tem(Market::Fx, "EURBRL"), "ninguém dá a série do euro");
    assert!(!tem(Market::Fx, "PTAX-USDBRL"));
    assert!(tem(Market::B3, "PETR4") && tem(Market::Bcb, "CDI"));
    assert!(!tem(Market::Outro, "CASA"), "um preço informado não tem série");
}

#[test]
fn a_vez_de_uma_fonte_e_decidida_pelo_que_ela_cobre() {
    let petr = AssetId::new(Market::B3, "PETR4");
    let btc = AssetId::new(Market::Binance, "BTCBRL");
    let meio_dia = meio_dia_de_terca();
    let sabado = Data { ano: 2026, mes: 9, dia: 12 }.epoch_inicio(BRT_OFFSET) + 12 * 3600;
    let novo = Relogio { proxima: None, recuo: 0 };
    let logo = Relogio { proxima: Some(150), recuo: 0 };
    let mut v = Volta::comecar(&[petr.clone(), btc.clone()]);

    let (meus, vez, base) = v.vez_de(Provedor::Yahoo, &novo, 0, 100, meio_dia, &feriados());
    assert_eq!((meus, vez, base), (vec![petr.clone()], Vez::Perguntar(60_000), 60_000));
    let (_, vez, base) = v.vez_de(Provedor::Binance, &novo, 0, 100, sabado, &feriados());
    assert_eq!((vez, base), (Vez::Perguntar(2_000), 2_000), "um mercado que nunca fecha");
    let (_, vez, base) = v.vez_de(Provedor::Kinvo, &novo, 0, 100, sabado, &feriados());
    assert_eq!((vez, base), (Vez::Perguntar(60_000), 60_000), "fechado, um minuto");
    let (_, _, base) = v.vez_de(Provedor::Binance, &novo, 30_000, 100, sabado, &feriados());
    assert_eq!(base, 30_000, "o piso vale para todas");

    let espera = v.espera;
    let (meus, vez, _) = v.vez_de(Provedor::Bcb, &logo, 0, 100, meio_dia, &feriados());
    assert!(meus.is_empty());
    assert_eq!((vez, v.espera), (Vez::Esperar, espera), "quem não cobre nada não é perguntado");
    let (_, vez, _) = v.vez_de(Provedor::Yahoo, &logo, 0, 100, meio_dia, &feriados());
    assert_eq!((vez, v.espera), (Vez::Esperar, 50));
}

#[test]
fn a_cadeia_de_um_ativo_segue_a_ordem_das_fontes() {
    let s = ProviderSet::new(todos(false), Vec::new(), &Cache::new());
    let nomes = |m: Market, x: &str| -> Vec<&str> {
        s.cobrem(&AssetId::new(m, x)).iter().map(|p| p.id()).collect()
    };
    assert_eq!(nomes(Market::B3, "PETR4"), vec!["kinvo", "brapi", "yahoo", "manual"]);
    assert_eq!(nomes(Market::Fx, "USDBRL"), vec!["cambio", "manual"]);
    assert_eq!(nomes(Market::Outro, "CASA"), vec!["manual"]);
}
