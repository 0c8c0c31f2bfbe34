use monitorzinho::invest::json::Json;
use monitorzinho::invest::model::{AssetId, FeedError, Market, Moeda};
use monitorzinho::invest::provider::{Grade, Quote, Span};
use monitorzinho::invest::providers::bcb::{self, data_br, Bcb, MAX_ULTIMOS};
use monitorzinho::invest::providers::binance::{
    encode, ler_klines, ler_tickers, moeda_do_par, Binance, Escrita, Numeros,
};
use monitorzinho::invest::providers::brapi::{
    self, cotacao, erro_da_api, instante, limite_da_mensagem, token, Brapi, Plano,
    LIMITE_DESCONHECIDO, POR_VOLTA_ANONIMO,
};
use monitorzinho::invest::providers::cambio::{
    ler_mercado, ler_ptax, pares_essenciais, Cambio, SIMBOLO_PTAX,
};
use monitorzinho::invest::providers::comum::{
    encerrar, segue, Colheita, Conta, Cotada, Retorno, Rodizio,
};
use monitorzinho::invest::providers::fred::{self, Fred};
use monitorzinho::invest::providers::kinvo::{self, data_com, ler, Kinvo};
use monitorzinho::invest::providers::manual::{moeda_padrao, Informado, Manual};
use monitorzinho::invest::providers::tesouro::{self, Tesouro};
use monitorzinho::invest::providers::yahoo::{self, Yahoo};
use monitorzinho::invest::providers::{todos, Provedor};
use monitorzinho::invest::tempo::{Data, BRT_OFFSET};
use serde_json::Value;

fn bits(x: f64) -> u64 {
    x.to_bits()
}

fn convertido(v: &Value) -> Json {
    match v {
        Value::Null => Json::Nulo,
        Value::Bool(b) => Json::Bool(*b),
        Value::Number(n) => Json::Numero {
            valor: bits(n.as_f64().unwrap()),
            natural: n.as_u64(),
        },
        Value::String(s) => Json::Texto {
            texto: s.clone(),
            numero: s.parse::<f64>().ok().map(bits),
        },
        Value::Array(v) => Json::Lista(v.iter().map(convertido).collect()),
        Value::Object(m) => {
            Json::Objeto(m.iter().map(|(k, v)| (k.clone(), convertido(v))).collect())
        }
    }
}

fn json(texto: &str) -> Json {
    convertido(&serde_json::from_str::<Value>(texto).expect("json de teste"))
}

fn frase(e: &FeedError) -> String {
    match e {
        FeedError::Formato(m) => m.clone(),
        FeedError::Status { detalhe, .. } => detalhe.clone().unwrap_or_default(),
        _ => String::new(),
    }
}

fn fechada(c: Cotada) -> Quote {
    let mut q = c.quote;
    let preco = f64::from_bits(q.preco);
    match c.conta {
        Conta::Nenhuma => {}
        Conta::Diferenca(d) => q.anterior = Some(bits(preco - f64::from_bits(d))),
        Conta::Percentual(p) => q.anterior = Some(bits(preco / (1.0 + f64::from_bits(p) / 100.0))),
    }
    q
}

fn variacao(q: &Quote) -> Option<f64> {
    let anterior = f64::from_bits(q.anterior?);
    Some((f64::from_bits(q.preco) / anterior - 1.0) * 100.0)
}

// --- banco central ---

#[test]
fn data_brasileira_e_lida() {
    let em = data_br("04/09/2026").unwrap();
    let d = Data::de_epoch(em, BRT_OFFSET);
    assert_eq!((d.ano, d.mes, d.dia), (2026, 9, 4));
    assert_eq!(data_br("nao-e-data"), None);
    assert_eq!(data_br("04/09"), None);
}

#[test]
fn so_cobre_series_que_existem_no_catalogo() {
    assert!(Bcb.covers(&AssetId::new(Market::Bcb, "CDI")));
    assert!(Bcb.covers(&AssetId::new(Market::Bcb, "IPCA")));
    assert!(!Bcb.covers(&AssetId::new(Market::Bcb, "INVENTADA")));
    assert!(!Bcb.covers(&AssetId::new(Market::B3, "PETR4")));
}

#[test]
fn acima_de_vinte_pontos_o_caminho_muda() {
    assert_eq!(MAX_ULTIMOS, 20);
    let hoje = Data { ano: 2026, mes: 9, dia: 8 }.epoch_inicio(BRT_OFFSET);
    assert!(bcb::url_da_serie(432, 20, hoje).contains("/ultimos/20"));
    assert!(bcb::url_da_serie(432, 21, hoje).contains("dataInicial="));
}

#[test]
fn a_meta_e_a_efetiva_sao_series_diferentes() {
    let meta = bcb::serie("SELIC-META").expect("a meta tem que existir");
    let efetiva = bcb::serie("SELIC").expect("a efetiva tem que existir");
    assert_eq!(meta.codigo, 432, "a meta do COPOM é a série 432");
    assert_ne!(meta.codigo, efetiva.codigo, "meta e efetiva não são a mesma série");
    assert!(meta.nome.contains("meta"));
    assert!(efetiva.nome.contains("efetiva"));
}

#[test]
fn todo_simbolo_do_catalogo_e_unico() {
    for s in bcb::SERIES {
        let quantos = bcb::SERIES.iter().filter(|o| **o == s).count();
        assert_eq!(quantos, 1, "{s} aparece mais de uma vez");
        assert_eq!(bcb::serie(s).expect("todo símbolo tem série").simbolo, s);
    }
}

#[test]
fn os_pontos_do_banco_central_saem_na_ordem_em_que_vieram() {
    let v = json(r#"[{"data":"04/09/2026","valor":"0.55"},{"data":"x","valor":"1"},{"data":"05/09/2026","valor":"0.56"}]"#);
    let p = bcb::pontos_publicos(&v).unwrap();
    assert_eq!(p.len(), 2, "o ponto sem data legível não entra");
    assert_eq!(f64::from_bits(p[0].fechamento), 0.55);
    assert_eq!(p[1].em, data_br("05/09/2026").unwrap());
    assert!(bcb::pontos_publicos(&json("{}")).is_err());
}

// --- binance ---

#[test]
fn sufixo_mais_longo_ganha() {
    assert_eq!(moeda_do_par("BTCUSDT"), Moeda::Usdt);
    assert_eq!(moeda_do_par("BTCBRL"), Moeda::Brl);
    assert_eq!(moeda_do_par("BTCEUR"), Moeda::Eur);
}

#[test]
fn encode_escapa_o_json_da_query() {
    assert_eq!(encode("[\"BTCBRL\"]"), "%5B%22BTCBRL%22%5D");
    assert_eq!(encode("ABC-123_x.y~z"), "ABC-123_x.y~z");
}

#[test]
fn nao_cobre_o_que_nao_e_dele() {
    let b = Binance { peso: 0 };
    assert!(b.covers(&AssetId::new(Market::Binance, "BTCBRL")));
    assert!(!b.covers(&AssetId::new(Market::B3, "PETR4")));
    assert_eq!(b.peso_usado(), None, "enquanto a fonte não disse, não se sabe");
    assert_eq!(Binance { peso: 40 }.peso_usado(), Some(40));
}

fn numeros_da_binance(e: &Escrita<String>) -> Numeros {
    let ler = |t: &Option<String>| t.as_ref()?.parse::<f64>().ok().map(bits);
    Numeros {
        preco: ler(&e.preco),
        abertura: ler(&e.abertura),
        fechamento: ler(&e.fechamento),
        volume: ler(&e.volume),
        maxima: ler(&e.maxima),
        minima: ler(&e.minima),
    }
}

fn cotadas_da_binance(
    b: &mut Binance,
    corpo: &str,
    peso: Option<u64>,
    agora: u64,
) -> Result<Vec<Quote>, FeedError> {
    let mut lidas = Vec::new();
    for e in b.ouvir(Ok((corpo.as_bytes().to_vec(), peso)))? {
        let n = numeros_da_binance(&e);
        lidas.push((e, n));
    }
    Ok(b.quotes(&lidas, agora))
}

#[test]
fn as_cotacoes_e_as_velas_da_binance_sao_lidas() {
    let corpo = r#"[{"symbol":"BTCBRL","lastPrice":"500000.5","prevClosePrice":"490000","volume":"12","highPrice":"510000","lowPrice":"480000","closeTime":1788899000000}]"#;
    let mut b = Binance { peso: 0 };
    let q = cotadas_da_binance(&mut b, corpo, None, 1788899000).unwrap();
    assert_eq!(q.len(), 1);
    assert_eq!(f64::from_bits(q[0].preco), 500000.5);
    assert_eq!(q[0].moeda, Moeda::Brl);
    let k = json(r#"[[1788899000000,"1","2","3","4.5","6",1788899999999]]"#);
    let c = ler_klines(&k).unwrap();
    assert_eq!(f64::from_bits(c[0].fechamento), 4.5);
    assert!(ler_klines(&json("{}")).is_err());
}

// --- brapi ---

#[test]
fn erro_dentro_de_um_200_e_um_erro() {
    let recusa = json(
        r#"{"error":true,"message":"Seu plano permite no máximo 1 ativo(s) por requisição."}"#,
    );
    let e = erro_da_api(&recusa).expect("uma recusa tem que virar erro");
    assert!(frase(&e).contains("no máximo 1"));

    let boa = json(r#"{"results":[]}"#);
    assert!(erro_da_api(&boa).is_none());
}

fn brapi_nova() -> Brapi {
    Brapi { rodizio: Rodizio { cursor: 0 }, por_requisicao: LIMITE_DESCONHECIDO }
}

#[test]
fn o_limite_e_aprendido_tambem_do_corpo_de_um_400() {
    let mut b = brapi_nova();
    b.aprender(&FeedError::Status {
        code: 400,
        detalhe: Some("Seu plano permite no máximo 1 ativo(s) por requisição.".into()),
    });
    assert_eq!(b.por_requisicao, 1);
}

#[test]
fn o_limite_do_plano_e_lido_da_mensagem() {
    assert_eq!(
        limite_da_mensagem("Seu plano permite no máximo 1 ativo(s) por requisição. Você enviou 5."),
        Some(1)
    );
    assert_eq!(
        limite_da_mensagem("Seu plano permite no máximo 10 ativo(s) por requisição."),
        Some(10)
    );
    assert_eq!(limite_da_mensagem("outra coisa qualquer"), None);
}

#[test]
fn um_token_gratis_nao_implica_poder_pedir_em_lote() {
    let mut b = brapi_nova();
    assert_eq!(b.por_requisicao, LIMITE_DESCONHECIDO);
    b.por_requisicao = 1;
    assert_eq!(b.intervalo(), 30_000);
    b.por_requisicao = 10;
    assert_eq!(b.intervalo(), 5_000);
}

#[test]
fn sem_token_pede_um_a_um_e_com_limite_pede_em_lote() {
    let mut b = brapi_nova();
    assert_eq!(b.plano(false, 5), Plano::UmAUm);
    b.por_requisicao = 1;
    assert_eq!(b.plano(true, 5), Plano::UmAUm);
    b.por_requisicao = 10;
    assert_eq!(b.plano(true, 5), Plano::Lote(5));
    assert_eq!(b.plano(true, 25), Plano::Lote(10));
}

#[test]
fn cobre_a_b3_e_mais_nada() {
    let b = brapi_nova();
    assert!(b.covers(&AssetId::new(Market::B3, "PETR4")));
    assert!(!b.covers(&AssetId::new(Market::Us, "AAPL")));
    assert!(!b.covers(&AssetId::new(Market::Binance, "BTCBRL")));
}

#[test]
fn le_o_instante_iso() {
    let em = instante("2026-09-08T20:13:30.000Z").unwrap();
    let d = Data::de_epoch(em, 0);
    assert_eq!((d.ano, d.mes, d.dia), (2026, 9, 8));
    assert_eq!((em % 86400) / 3600, 20);
    assert_eq!((em % 3600) / 60, 13);
    assert_eq!(instante("não é data"), None);
    assert_eq!(instante("2026-09-08"), None);
}

#[test]
fn o_fechamento_anterior_vem_da_variacao_e_nao_do_campo() {
    let bruto = json(
        r#"{"symbol":"VALE3","regularMarketPrice":79.39,"regularMarketChange":0.77,
            "regularMarketPreviousClose":79.39,"regularMarketTime":"2026-09-08T20:13:30.000Z"}"#,
    );
    let ativo = AssetId::new(Market::B3, "VALE3");
    let q = fechada(
        cotacao(&ativo, &bruto, instante("2026-09-08T20:13:40.000Z").unwrap()).unwrap(),
    );
    let anterior = f64::from_bits(q.anterior.unwrap());
    assert!((anterior - 78.62).abs() < 0.001, "deu {anterior}");
    let pct = variacao(&q).unwrap();
    assert!((pct - 0.98).abs() < 0.01, "deu {pct}");
}

#[test]
fn cotacao_recente_e_ao_vivo_e_velha_e_atrasada() {
    let ativo = AssetId::new(Market::B3, "PETR4");
    let bruto =
        json(r#"{"regularMarketPrice":48.08,"regularMarketTime":"2026-09-08T20:13:30.000Z"}"#);
    let em = instante("2026-09-08T20:13:30.000Z").unwrap();
    assert_eq!(cotacao(&ativo, &bruto, em + 30).unwrap().quote.grade, Grade::AoVivo);
    assert!(matches!(
        cotacao(&ativo, &bruto, em + 900).unwrap().quote.grade,
        Grade::Atrasado(_)
    ));
}

#[test]
fn sem_preco_nao_ha_cotacao() {
    let bruto = json(r#"{"symbol":"XPTO9"}"#);
    assert!(cotacao(&AssetId::new(Market::B3, "XPTO9"), &bruto, 0).is_none());
}

#[test]
fn o_rodizio_nao_deixa_ninguem_para_tras() {
    let mut b = brapi_nova();
    let n = POR_VOLTA_ANONIMO * 2 + 3;
    let mut vistos = vec![false; n];
    for _ in 0..4 {
        for i in b.rodizio.volta(n, POR_VOLTA_ANONIMO) {
            vistos[i] = true;
        }
    }
    assert!(vistos.iter().all(|v| *v), "algum ativo nunca seria pedido");
}

#[test]
fn cota_no_meio_da_volta_nao_descarta_o_que_ja_veio() {
    let cota = || FeedError::Cota { retry_after: Some(30) };
    assert_eq!(encerrar(vec![1, 2, 3, 4], Some(cota())).unwrap().len(), 4);
    assert!(encerrar(Vec::<u8>::new(), Some(cota())).is_err());

    let mut c: Colheita<u8> = Colheita::nova();
    c.ouvir(Retorno::Veio(vec![1, 2, 3, 4]));
    c.ouvir(Retorno::Falhou(cota()));
    assert!(c.parou, "a cota para a volta");
    c.ouvir(Retorno::Veio(vec![5]));
    assert_eq!(c.fim().unwrap().len(), 4);
}

#[test]
fn o_token_do_ambiente_vale_mais_que_o_do_arquivo() {
    assert_eq!(token(Some("a"), Some("b")).as_deref(), Some("a"));
    assert_eq!(token(None, Some(" b \n")).as_deref(), Some("b"));
    assert_eq!(token(None, None), None);
}

#[test]
fn o_lote_da_brapi_aprende_com_a_recusa() {
    let mut b = brapi_nova();
    let recusa = json(
        r#"{"error":true,"message":"Seu plano permite no máximo 3 ativo(s) por requisição."}"#,
    );
    assert!(brapi::ler_lote(&mut b, &recusa, &[AssetId::new(Market::B3, "PETR4")], 0).is_err());
}

// --- câmbio ---

#[test]
fn cobre_so_os_pares_que_sabe() {
    assert!(Cambio.covers(&AssetId::new(Market::Fx, "USDBRL")));
    assert!(Cambio.covers(&AssetId::new(Market::Fx, SIMBOLO_PTAX)));
    assert!(!Cambio.covers(&AssetId::new(Market::Fx, "JPYBRL")));
    assert!(!Cambio.covers(&AssetId::new(Market::B3, "PETR4")));
}

#[test]
fn anterior_e_reconstruido_da_variacao() {
    let v = json(r#"{"USDBRL":{"bid":"5.0842","pctChange":"-0.813512","timestamp":"1788899000"}}"#);
    let pares = [AssetId::new(Market::Fx, "USDBRL")];
    let mut cotadas = ler_mercado(&v, &pares, 1788899010).unwrap();
    assert_eq!(cotadas.len(), 1);
    let q = fechada(cotadas.remove(0));
    let preco = f64::from_bits(q.preco);
    let anterior = f64::from_bits(q.anterior.unwrap());
    assert_eq!(preco, 5.0842_f64);
    let pct = -0.813512_f64;
    assert!((anterior - 5.1259).abs() < 0.001, "deu {anterior}");
    assert!(((preco / anterior - 1.0) * 100.0 - pct).abs() < 1e-9);
}

#[test]
fn pares_essenciais_incluem_a_ptax() {
    let p = pares_essenciais();
    assert!(p.iter().any(|a| a.symbol == "USDBRL"));
    assert!(p.iter().any(|a| a.symbol == SIMBOLO_PTAX));
}

#[test]
fn a_ptax_sai_do_ultimo_ponto() {
    let v = json(r#"[{"data":"04/09/2026","valor":"5.40"},{"data":"08/09/2026","valor":"5.42"}]"#);
    let q = ler_ptax(&v, data_br("09/09/2026").unwrap()).expect("há pontos");
    assert_eq!(f64::from_bits(q.preco), 5.42);
}

// --- fred ---

#[test]
fn cobre_so_o_que_esta_no_catalogo() {
    assert!(Fred.covers(&AssetId::new(Market::Outro, "FEDFUNDS")));
    assert!(Fred.covers(&AssetId::new(Market::Outro, "UST2Y")));
    assert!(!Fred.covers(&AssetId::new(Market::Outro, "SPX")));
    assert!(!Fred.covers(&AssetId::new(Market::B3, "PETR4")));
}

#[test]
fn cada_simbolo_aparece_uma_vez_so() {
    for s in fred::SERIES {
        assert_eq!(
            fred::SERIES.iter().filter(|o| **o == s).count(),
            1,
            "{s} aparece mais de uma vez"
        );
        assert_eq!(fred::serie(s).expect("todo símbolo tem série").simbolo, s);
    }
}

#[test]
fn o_fred_traz_dia_e_valor_por_linha() {
    let obs = fred::ler("observation_date,FEDFUNDS\n2026-07-01,4.33\n2026-08-01,.\n2026-09-01,4.10\n");
    let valores: Vec<Option<u64>> = obs.iter().map(|o| o.bruto.parse::<f64>().ok().map(bits)).collect();
    let p = fred::pontos(&obs, &valores).unwrap();
    assert_eq!(p.len(), 2, "o ponto sem valor não entra");
    assert_eq!(f64::from_bits(p[1].fechamento), 4.10);
}

// --- kinvo ---

#[test]
fn a_maxima_e_a_minima_do_dia_saem_da_propria_serie() {
    let serie = json(
        r#"{
            "previousClose": 48.45,
            "timestamp": [100, 200, 300],
            "quotation": [{"close": 48.9}, {"close": 49.6}, {"close": 48.2}]
        }"#,
    );
    let q = ler(&AssetId::new(Market::B3, "PETR4"), &serie, 1_000).expect("lê a cotação");
    assert_eq!(q.max24.map(f64::from_bits), Some(49.6));
    assert_eq!(q.min24.map(f64::from_bits), Some(48.2));
    assert_eq!(f64::from_bits(q.preco), 48.2);
    assert_eq!(q.volume, None);
}

#[test]
fn serie_sem_ponto_nenhum_nao_inventa_extremos() {
    let serie = json(r#"{"timestamp": [], "quotation": []}"#);
    assert!(ler(&AssetId::new(Market::B3, "PETR4"), &serie, 1_000).is_none());
}

#[test]
fn cobre_a_b3_e_o_ibov_e_mais_nada() {
    assert!(Kinvo.covers(&AssetId::new(Market::B3, "PETR4")));
    assert!(Kinvo.covers(&AssetId::new(Market::B3, "HGLG11")));
    assert!(Kinvo.covers(&AssetId::new(Market::Outro, "IBOV")));
    assert!(!Kinvo.covers(&AssetId::new(Market::Us, "AAPL")));
    assert!(!Kinvo.covers(&AssetId::new(Market::Outro, "SPX")));
    assert!(!Kinvo.covers(&AssetId::new(Market::Binance, "BTCBRL")));
}

#[test]
fn o_preco_e_o_do_carimbo_mais_novo_e_nao_o_ultimo_do_vetor() {
    let serie = json(
        r#"{
            "previousClose": 148.35,
            "timestamp": [1788896700, 1788897600, 1788897000],
            "quotation": [{"close": 148.10}, {"close": 147.75}, {"close": 148.20}]
        }"#,
    );
    let q = ler(&AssetId::new(Market::B3, "HGLG11"), &serie, 1788899000).unwrap();
    assert_eq!(f64::from_bits(q.preco), 147.75, "tem que ser o do instante mais novo");
    assert_eq!(q.em, 1788897600);
    assert_eq!(q.grade, Grade::Atrasado(1400), "o atraso é o medido");
    assert_eq!(q.anterior.map(f64::from_bits), Some(148.35));
    assert_eq!(q.fonte, "kinvo");
}

#[test]
fn a_variacao_do_dia_sai_do_fechamento_anterior() {
    let serie = json(
        r#"{"previousClose": 100.0, "timestamp": [1788897600], "quotation": [{"close": 102.5}]}"#,
    );
    let q = ler(&AssetId::new(Market::B3, "PETR4"), &serie, 1788899000).unwrap();
    assert!((variacao(&q).unwrap() - 2.5).abs() < 1e-9);
}

#[test]
fn ticker_que_nao_existe_volta_vazio_e_nao_vira_preco_zero() {
    let serie = json(r#"{"previousClose": null, "timestamp": [], "quotation": []}"#);
    assert!(ler(&AssetId::new(Market::B3, "NAOEXISTE99"), &serie, 1).is_none());
}

#[test]
fn um_instante_no_futuro_e_puxado_para_agora() {
    let serie = json(
        r#"{"previousClose": 10.0, "timestamp": [9999999999], "quotation": [{"close": 11.0}]}"#,
    );
    let q = ler(&AssetId::new(Market::B3, "PETR4"), &serie, 1000).unwrap();
    assert_eq!(q.em, 1000);
}

#[test]
fn a_data_com_nao_anda_um_dia_para_tras() {
    for dia in ["2026-08-31", "2026-01-01", "2026-12-31", "2026-03-19"] {
        let em = data_com(dia).expect("lê a data");
        let d = Data::de_epoch(em, BRT_OFFSET);
        assert_eq!(
            format!("{}-{:02}-{:02}", d.ano, d.mes, d.dia),
            dia,
            "a data-com {dia} voltou como outro dia"
        );
    }
}

#[test]
fn os_lotes_dividem_sem_perder_ninguem() {
    let ativos: Vec<AssetId> =
        (0..kinvo::POR_LOTE + 3).map(|i| AssetId::new(Market::B3, &format!("AC{i}"))).collect();
    let lotes = kinvo::lotes(&ativos);
    assert_eq!(lotes.len(), 2);
    assert_eq!(lotes[0].len(), kinvo::POR_LOTE);
    assert_eq!(lotes[1].len(), 3);
}

// --- informado ---

#[test]
fn devolve_so_o_que_foi_informado() {
    let m = Manual::new(vec![Informado {
        ativo: AssetId::new(Market::B3, "PETR4"),
        preco: bits(38.42),
        em: 1000,
    }]);
    let q = m.quotes(&[AssetId::new(Market::B3, "PETR4"), AssetId::new(Market::B3, "VALE3")]);
    assert_eq!(q.len(), 1, "o que não foi informado não vira preço");
    assert_eq!(f64::from_bits(q[0].preco), 38.42);
    assert_eq!(q[0].grade, Grade::Manual);
    assert_eq!(q[0].anterior, None, "informado nunca tem variação");
    assert_eq!(q[0].moeda, Moeda::Brl);
}

#[test]
fn cobre_tudo_para_nunca_deixar_ativo_sem_resposta() {
    let m = Manual::new(Vec::new());
    assert!(m.covers(&AssetId::new(Market::B3, "PETR4")));
    assert!(m.covers(&AssetId::new(Market::Us, "AAPL")));
    assert!(m.covers(&AssetId::new(Market::Outro, "MEU-CDB")));
}

#[test]
fn nao_e_remoto_e_por_isso_nao_entra_no_limitador() {
    assert!(!Provedor::Manual.remoto());
}

#[test]
fn moeda_vem_do_mercado_quando_ele_a_define() {
    assert_eq!(moeda_padrao(&AssetId::new(Market::B3, "PETR4")), Moeda::Brl);
    assert_eq!(moeda_padrao(&AssetId::new(Market::Us, "AAPL")), Moeda::Usd);
    assert_eq!(moeda_padrao(&AssetId::new(Market::Binance, "BTCUSDT")), Moeda::Usdt);
}

// --- tesouro ---

#[test]
fn a_chave_casa_com_o_simbolo_do_extrato() {
    assert_eq!(
        tesouro::chave("Tesouro Selic", "01/03/2031").as_deref(),
        Some("TESOURO-SELIC-2031")
    );
    assert_eq!(
        tesouro::chave("Tesouro Prefixado", "01/01/2031").as_deref(),
        Some("TESOURO-PREFIXADO-2031")
    );
    assert_eq!(
        tesouro::chave("Tesouro IPCA+ com Juros Semestrais", "15/05/2035").as_deref(),
        Some("TESOURO-IPCA+-COM-JUROS-SEMESTRAIS-2035")
    );
    assert_eq!(tesouro::chave("Tesouro Selic", "31/2031"), None);
    assert_eq!(tesouro::chave("Tesouro Selic", ""), None);
}

#[test]
fn a_linha_cortada_pela_metade_e_descartada() {
    let csv = "Tipo Titulo;Data Vencimento;Data Base;a;b;c;d;e\n\
               Tesouro Selic;01/03/2031;09/09/2026;0,07;0,08;19780,32;19761,22;19761,22\n\
               Tesouro Prefi";
    let lidas = tesouro::ler(csv);
    let precos: Vec<Option<u64>> =
        lidas.iter().map(|l| l.bruto.replace(',', ".").parse::<f64>().ok().map(bits)).collect();
    let linhas = tesouro::linhas_com_precos(&lidas, &precos).unwrap();
    assert_eq!(linhas.len(), 1);
    assert_eq!(linhas[0].chave, "TESOURO-SELIC-2031");
    assert_eq!(f64::from_bits(linhas[0].preco), 19761.22);
}

#[test]
fn cobre_so_o_tesouro() {
    assert!(Tesouro.covers(&AssetId::new(Market::Outro, "TESOURO-SELIC-2031")));
    assert!(!Tesouro.covers(&AssetId::new(Market::Outro, "SPX")));
    assert!(!Tesouro.covers(&AssetId::new(Market::B3, "PETR4")));
}

#[test]
fn um_titulo_acentuado_vira_maiusculas_sem_acento() {
    assert_eq!(
        tesouro::chave("Tesouro Educação", "15/12/2031").as_deref(),
        Some("TESOURO-EDUCACAO-2031")
    );
}

// --- yahoo ---

fn yahoo_novo() -> Yahoo {
    Yahoo { rodizio: Rodizio { cursor: 0 } }
}

#[test]
fn acao_brasileira_ganha_o_sufixo_do_yahoo() {
    assert_eq!(yahoo::simbolo(&AssetId::new(Market::B3, "PETR4")), "PETR4.SA");
    assert_eq!(yahoo::simbolo(&AssetId::new(Market::Us, "AAPL")), "AAPL");
}

#[test]
fn cobre_b3_e_eua_e_mais_nada() {
    assert!(yahoo_novo().covers(&AssetId::new(Market::B3, "PETR4")));
    assert!(yahoo_novo().covers(&AssetId::new(Market::Us, "AAPL")));
    assert!(!yahoo_novo().covers(&AssetId::new(Market::Binance, "BTCBRL")));
    assert!(!yahoo_novo().covers(&AssetId::new(Market::Bcb, "CDI")));
}

#[test]
fn o_yahoo_responde_com_o_que_o_grafico_diz() {
    let v = json(
        r#"{"chart":{"result":[{"meta":{"regularMarketPrice":48.1,"chartPreviousClose":47.0,
            "regularMarketTime":1788899000,"currency":"BRL"},
            "timestamp":[1788890000,1788899000],
            "indicators":{"quote":[{"close":[47.5,48.1]}]}}]}}"#,
    );
    let q = yahoo::ler(&v, &AssetId::new(Market::B3, "PETR4"), 1788899100).unwrap();
    assert_eq!(f64::from_bits(q.expect("há preço").preco), 48.1);
    assert_eq!(yahoo::historico(&v).unwrap().len(), 2);
}

// --- a cadeia ---

#[test]
fn a_reserva_final_e_a_que_cobre_tudo() {
    let v = todos(false);
    assert!(matches!(v[v.len() - 1], Provedor::Manual));
    for i in 0..v.len() {
        for j in 0..i {
            assert_ne!(v[i].id(), v[j].id());
        }
    }
}

#[test]
fn os_enderecos_levam_o_que_se_pede() {
    let petr = AssetId::new(Market::B3, "PETR4");
    assert!(yahoo::url_do_grafico(&petr, Span::Mes).contains("PETR4.SA"));
    assert!(brapi::url_de_um(&petr).contains("PETR4"));
    assert!(kinvo::url_do_historico("PETR4", Span::Ano).contains("PETR4"));
}

fn ativo(m: Market, s: &str) -> AssetId {
    AssetId::new(m, s)
}

#[test]
fn a_volta_do_yahoo_para_na_cota_e_devolve_o_que_veio() {
    let y = Yahoo { rodizio: Rodizio { cursor: 0 } };
    let bom = r#"{"chart":{"result":[{"meta":{"regularMarketPrice":10.5,"regularMarketTime":900,"chartPreviousClose":10.0}}]}}"#;
    let a = |s: &str| ativo(Market::B3, s);
    let cota = || Err(FeedError::Cota { retry_after: None });
    let v = y
        .quotes(
            vec![
                (a("PETR4"), Ok(json(bom))),
                (a("XPTO3"), Ok(json("{}"))),
                (a("VALE3"), cota()),
                (a("ITUB4"), Ok(json(bom))),
            ],
            1_000,
        )
        .unwrap();
    assert_eq!(v.len(), 1, "depois da cota nada conta");
    assert_eq!(f64::from_bits(v[0].preco), 10.5);
    assert_eq!((v[0].em, v[0].grade), (900, Grade::NaoOficial));
    let e = y.quotes(vec![(a("XPTO3"), Ok(json("{}")))], 1_000).unwrap_err();
    assert_eq!(frase(&e), "XPTO3 veio sem «chart.result.meta»");
    assert!(matches!(
        y.quotes(vec![(a("PETR4"), Err(FeedError::Tempo)), (a("VALE3"), cota())], 0),
        Err(FeedError::Cota { .. })
    ));
    assert!(y.quotes(Vec::new(), 0).unwrap().is_empty());
}

#[test]
fn a_volta_da_brapi_um_a_um_e_em_lote() {
    let mut b = brapi_nova();
    let a = |s: &str| ativo(Market::B3, s);
    let bom = r#"{"results":[{"symbol":"PETR4","regularMarketPrice":30.0}]}"#;
    let ruim = r#"{"error":true,"message":"no máximo 1 ativo(s) por requisição"}"#;
    let v = b
        .um_a_um(
            vec![
                (a("VALE3"), Ok(json(ruim))),
                (a("PETR4"), Ok(json(bom))),
                (a("ITUB4"), Err(FeedError::Tempo)),
            ],
            1_000,
        )
        .unwrap();
    assert_eq!(v.len(), 1, "uma recusa não derruba as outras");
    let dois = [a("PETR4"), a("VALE3")];
    assert_eq!(b.em_lote(Ok(json(bom)), &dois, 0).unwrap().len(), 1);
    assert!(b.em_lote(Ok(json(ruim)), &dois, 0).is_err());
    assert!(b.insiste(), "a recusa ensinou o limite");
    let mut c = brapi_nova();
    let e = FeedError::Status { code: 400, detalhe: Some("no máximo 3 ativo(s)".to_string()) };
    assert!(c.em_lote(Err(e), &dois, 0).is_err());
    assert_eq!(c.por_requisicao, 3);
}

#[test]
fn um_lote_que_falha_nao_derruba_os_que_vieram() {
    let bom = r#"{"data":{"PETR4":{"timestamp":[100,200],"quotation":[{"close":10.0},{"close":11.0}]}}}"#;
    let a = |s: &str| vec![ativo(Market::B3, s)];
    let cota = || Err(FeedError::Cota { retry_after: None });
    let v = Kinvo
        .quotes(vec![(a("VALE3"), cota()), (a("PETR4"), Ok(json(bom)))], 300)
        .unwrap();
    assert_eq!(v.len(), 1);
    assert_eq!(f64::from_bits(v[0].preco), 11.0);
    assert!(Kinvo.quotes(vec![(a("VALE3"), cota())], 300).is_err());
}

#[test]
fn o_cambio_junta_as_duas_fontes() {
    let os_dois = [ativo(Market::Fx, "USDBRL"), ativo(Market::Fx, SIMBOLO_PTAX)];
    let mercado = r#"{"USDBRL":{"bid":"5.10","timestamp":"900"}}"#;
    let ptax = r#"[{"data":"04/09/2026","valor":"5.1253"}]"#;
    let v = Cambio
        .quotes(&os_dois, Some(Ok(json(mercado))), Some(Ok(json(ptax))), 1_000)
        .unwrap();
    assert_eq!(v.len(), 2);
    assert_eq!(f64::from_bits(v[0].quote.preco), 5.10);
    assert_eq!(f64::from_bits(v[1].quote.preco), 5.1253);
    let v = Cambio
        .quotes(&os_dois, Some(Ok(json(mercado))), Some(Err(FeedError::Tempo)), 1_000)
        .unwrap();
    assert_eq!(v.len(), 1, "a PTAX que falha não derruba a de mercado");
    assert!(Cambio
        .quotes(&os_dois, Some(Err(FeedError::Tempo)), Some(Ok(json(ptax))), 1_000)
        .is_err());
    let e = Cambio.quotes(&os_dois, Some(Ok(json("[]"))), None, 0).unwrap_err();
    assert_eq!(frase(&e), "esperava um objeto de pares");
    assert!(Cambio.quotes(&os_dois[1..], None, None, 0).unwrap().is_empty());
}

#[test]
fn uma_serie_que_falha_nao_derruba_as_outras() {
    let bom = r#"[{"data":"01/07/2026","valor":"0.5"},{"data":"01/08/2026","valor":"0.6"}]"#;
    let a = |s: &str| ativo(Market::Bcb, s);
    let v = Bcb
        .quotes(vec![
            (a("NAO-HA"), Err(FeedError::Tempo)),
            (a("SELIC"), Err(FeedError::Tempo)),
            (a("CDI"), Ok(json(bom))),
        ])
        .unwrap();
    assert_eq!(v.len(), 1);
    assert_eq!(f64::from_bits(v[0].preco), 0.6);
    assert_eq!(v[0].anterior.map(f64::from_bits), Some(0.5));
    assert!(Bcb.quotes(vec![(a("CDI"), Ok(json("{}")))]).is_err());
    assert!(Bcb.quotes(vec![(a("NAO-HA"), Err(FeedError::Tempo))]).unwrap().is_empty());

    let pontos = vec![
        monitorzinho::invest::provider::Candle { em: 1, fechamento: bits(4.0) },
        monitorzinho::invest::provider::Candle { em: 2, fechamento: bits(4.5) },
    ];
    let us = |s: &str| ativo(Market::Us, s);
    let v = Fred.quotes(vec![(us("UST2Y"), Ok(pontos)), (us("FEDFUNDS"), Err(FeedError::Tempo))]);
    assert_eq!(v.unwrap()[0].em, 2);
    assert!(Fred.quotes(vec![(us("FEDFUNDS"), Err(FeedError::Tempo))]).is_err());
}

#[test]
fn o_arquivo_do_tesouro_so_conta_onde_ha_titulo() {
    let t = ativo(Market::Outro, "TESOURO-SELIC-2031");
    let linhas = || {
        Ok(vec![
            tesouro::Linha { chave: t.symbol.clone(), em: 1, preco: bits(100.0) },
            tesouro::Linha { chave: t.symbol.clone(), em: 2, preco: bits(101.0) },
        ])
    };
    let v = Tesouro.quotes(&[ativo(Market::B3, "PETR4"), t.clone()], linhas()).unwrap();
    assert_eq!(v.len(), 1);
    assert_eq!(f64::from_bits(v[0].preco), 101.0);
    assert_eq!(v[0].anterior.map(f64::from_bits), Some(100.0));
    assert!(Tesouro.quotes(&[t.clone()], Err(FeedError::Tempo)).is_err());
    let sem = Tesouro.quotes(&[ativo(Market::B3, "PETR4")], Err(FeedError::Tempo));
    assert!(sem.unwrap().is_empty());
}

#[test]
fn a_binance_guarda_o_peso_que_ouviu() {
    let mut b = Binance { peso: 0 };
    let e = cotadas_da_binance(&mut b, "{}", Some(40), 0).unwrap_err();
    assert_eq!(frase(&e), "esperava uma lista de tickers");
    assert_eq!(b.peso_usado(), Some(40), "o peso vale mesmo quando o corpo não serve");
    let e = cotadas_da_binance(&mut b, "<html>", Some(41), 0).unwrap_err();
    assert_eq!(frase(&e), "expected value at line 1 column 1");
    assert_eq!(b.peso_usado(), Some(41), "e mesmo quando ele não é JSON");
    let v = cotadas_da_binance(&mut b, r#"[{"symbol":"BTCUSDT","lastPrice":"1.5"}]"#, None, 7);
    assert_eq!(v.unwrap()[0].em, 7);
    assert_eq!(b.peso_usado(), Some(41));
    assert!(b.ouvir(Err(FeedError::Tempo)).is_err());
}

#[test]
fn um_ticker_precisa_de_simbolo_e_de_preco() {
    let mut b = Binance { peso: 0 };
    let corpo = r#"[7, {"lastPrice":"1"}, {"symbol":"A"}, {"symbol":"B","lastPrice":2},
        {"symbol":"C","lastPrice":"x"}, {"symbol":"D","lastPrice":"1","lastPrice":"4","openPrice":"?","prevClosePrice":"3"}]"#;
    let escritas = b.ouvir(Ok((corpo.as_bytes().to_vec(), None))).unwrap();
    let simbolos: Vec<&str> = escritas.iter().map(|e| e.simbolo.as_str()).collect();
    assert_eq!(simbolos, vec!["A", "B", "C", "D"]);
    assert_eq!(escritas[1].preco, None, "um número sem aspas não é lido");
    let v = cotadas_da_binance(&mut b, corpo, None, 0).unwrap();
    assert_eq!(v.len(), 1);
    assert_eq!(f64::from_bits(v[0].preco), 4.0);
    assert_eq!(v[0].anterior.map(f64::from_bits), Some(3.0));
    let vazia = vec![("symbol".to_string(), None)];
    assert!(ler_tickers(Ok(Some(vec![vazia]))).unwrap().is_empty());
    assert_eq!(frase(&ler_tickers(Err("ruim".to_string())).unwrap_err()), "ruim");
    let sem_texto = Escrita {
        simbolo: "A".to_string(),
        preco: None,
        abertura: None,
        fechamento: None,
        volume: None,
        maxima: None,
        minima: None,
    };
    let n = numeros_da_binance(&escritas[3]);
    assert!(b.quotes(&vec![(sem_texto, n)], 0).is_empty(), "sem texto não há número");
}

#[test]
fn o_preco_do_tesouro_e_do_fim_do_dia() {
    let e = tesouro::data_br(" 09/09/2026 ").unwrap();
    assert_eq!(Data::de_epoch(e, BRT_OFFSET), Data { ano: 2026, mes: 9, dia: 9 });
    assert_eq!(monitorzinho::invest::tempo::hora(e, BRT_OFFSET), 23);
    assert_eq!(e, Data { ano: 2026, mes: 9, dia: 10 }.epoch_inicio(BRT_OFFSET) - 1);
    assert_eq!(tesouro::data_br("09/09"), None);
    assert_eq!(tesouro::data_br("01/01/1900"), Some(0));
    assert_ne!(data_br("09/09/2026"), Some(e), "uma série é do começo do dia");
}

#[test]
fn os_enderecos_sao_exatos() {
    let petr = ativo(Market::B3, "PETR4");
    assert_eq!(
        yahoo::url_do_grafico(&petr, Span::Ano),
        "https://query1.finance.yahoo.com/v8/finance/chart/PETR4.SA?interval=1d&range=1y"
    );
    assert_eq!(
        brapi::url_do_lote(&[petr.clone(), ativo(Market::B3, "VALE3")], "t"),
        "https://brapi.dev/api/quote/PETR4,VALE3?token=t"
    );
    assert_eq!(
        brapi::url_do_historico(&petr, Span::Ano, None),
        "https://brapi.dev/api/quote/PETR4?range=1y&interval=1d"
    );
    assert_eq!(
        brapi::url_dos_fundamentos(&petr, Some("t".to_string())),
        "https://brapi.dev/api/quote/PETR4?modules=defaultKeyStatistics,financialData,summaryProfile&token=t"
    );
    assert_eq!(
        kinvo::url_do_lote(&[petr.clone()]),
        "https://open-api.kinvo.com.br/intra-day-series?tickers=PETR4&interval=5m&range=1d"
    );
    assert_eq!(
        kinvo::url_do_historico("IBOV", Span::Mes),
        "https://open-api.kinvo.com.br/v2/sector-historic-quotation/PETR4?range=1mo&interval=1d"
    );
    assert_eq!(
        monitorzinho::invest::providers::binance::url_das_velas("BTCBRL", Span::Dia),
        "https://api.binance.com/api/v3/klines?symbol=BTCBRL&interval=5m&limit=288"
    );
    assert_eq!(
        monitorzinho::invest::providers::binance::url_dos_tickers(&[ativo(Market::Binance, "BTCBRL")]),
        "https://api.binance.com/api/v3/ticker/24hr?symbols=%5B%22BTCBRL%22%5D"
    );
    assert_eq!(
        monitorzinho::invest::providers::cambio::url_do_mercado(&[
            ativo(Market::Fx, "USDBRL"),
            ativo(Market::Fx, "EURBRL"),
        ]),
        "https://economia.awesomeapi.com.br/json/last/USD-BRL,EUR-BRL"
    );
    let hoje = Data { ano: 2026, mes: 9, dia: 8 }.epoch_inicio(BRT_OFFSET) + 43_200;
    assert_eq!(
        bcb::url_da_serie(12, 2, hoje),
        "https://api.bcb.gov.br/dados/serie/bcdata.sgs.12/dados/ultimos/2?formato=json"
    );
    assert_eq!(
        bcb::url_da_serie(12, 30, hoje),
        "https://api.bcb.gov.br/dados/serie/bcdata.sgs.12/dados?formato=json&dataInicial=25/07/2026&dataFinal=08/09/2026"
    );
    assert_eq!(fred::janela(hoje, 30), "2026-08-09");
    assert_eq!(
        fred::url_da_serie("DFF", Some("2026-08-09")),
        "https://fred.stlouisfed.org/graph/fredgraph.csv?id=DFF&cosd=2026-08-09"
    );
    assert_eq!(bcb::quantos_pontos(false, Span::Dia), 2);
}

#[test]
fn os_fundamentos_que_faltam_nao_viram_zero() {
    let f = brapi::fundamentos(&json(
        r#"{"results":[{"priceEarnings":5.5,"summaryProfile":{"sector":"Energia"}}]}"#,
    ))
    .unwrap();
    assert_eq!(f.setor.as_deref(), Some("Energia"));
    assert_eq!(f.p_l.map(f64::from_bits), Some(5.5));
    assert_eq!(f.ebitda, None);
    let e = brapi::fundamentos(&json("{}")).unwrap_err();
    assert_eq!(frase(&e), "resposta sem «results»");
}

#[test]
fn so_a_cota_interrompe_uma_volta() {
    assert!(segue(&Ok(json("{}"))));
    assert!(segue(&Err(FeedError::Tempo)));
    assert!(segue(&Err(FeedError::Formato("x".to_string()))));
    assert!(!segue(&Err(FeedError::Cota { retry_after: None })));
}

#[test]
fn a_hora_de_uma_data_com_nao_conta() {
    assert_eq!(data_com("2026-08-31T00:00:00.000Z"), data_com("2026-08-31"));
    assert_eq!(data_com("2026-08-31T23"), None);
    assert_eq!(data_com("31/08/2026"), None);
}
