use monitorzinho::invest::model::{AssetId, Moeda};
use monitorzinho::invest::portfolio::{
    Alerta, AlvoCarteira, Carteira, Lancamento, Portfolio, Position, Provento,
};
use monitorzinho::invest::providers::kinvo::{Anunciado, Pagamento};
use monitorzinho::invest::rss::{instante, Item};
use monitorzinho::invest::store::buscas::{load_buscas, load_mru, save_mru, Buscas};
use monitorzinho::invest::store::cache::{
    load_cache, save_cache, validade, LinhaCotacao, CACHE_MAX_IDADE, CACHE_MAX_IDADE_SERIE,
};
use monitorzinho::invest::store::carteira::{gravar_em, ler_portfolio, LinhaPosicao, Vocabulario};
use monitorzinho::invest::store::fonte;
use monitorzinho::invest::store::registros::{
    load_agenda, load_anunciados, load_noticias, save_agenda, save_anunciados, save_noticias, Evento,
};
use monitorzinho::invest::store::{load, save};
use monitorzinho::invest::tempo::Data;

fn bits(x: f64) -> u64 {
    x.to_bits()
}

#[test]
fn a_data_e_relida_do_texto_cru() {
    let bruto = "2026-09-10 12:08:07";
    assert!(instante(bruto).is_some(), "o leitor precisa entender o formato para a cura funcionar");
}

#[test]
fn o_registro_funciona_em_memoria_sem_banco() {
    let mut b = Buscas::nova();
    assert_eq!(b.quando(fonte::NOTICIA), None);
    assert_eq!(b.idade(fonte::NOTICIA, 1_000), None);
    b.carimbar(fonte::NOTICIA, 5_000);
    let quando = b.quando(fonte::NOTICIA).expect("carimbou");
    assert_eq!(b.idade(fonte::NOTICIA, quando + 300), Some(300));
    assert_eq!(b.quando(fonte::AGENDA), None);
}

#[test]
fn nunca_buscado_nao_e_o_mesmo_que_buscado_agora() {
    let mut b = Buscas::nova();
    assert!(b.idade(fonte::HISTORICO, 1_000).is_none());
    b.carimbar(fonte::HISTORICO, 1_000);
    assert!(b.idade(fonte::HISTORICO, 1_000).is_some());
}

#[test]
fn cada_fonte_tem_um_nome_so() {
    let todas = [
        fonte::COTACAO,
        fonte::NOTICIA,
        fonte::AGENDA,
        fonte::ANUNCIADO,
        fonte::HISTORICO,
        fonte::FUNDAMENTO,
    ];
    let mut vistos: Vec<&str> = todas.to_vec();
    vistos.sort_unstable();
    vistos.dedup();
    assert_eq!(vistos.len(), todas.len(), "há nome de fonte repetido");
}

fn ativo(s: &str) -> AssetId {
    AssetId::parse(s).unwrap()
}

fn portfolio_cheio() -> Portfolio {
    let mut p = Portfolio::novo();
    p.posicoes.push(Position {
        fonte: "corretora-x".into(),
        conta: "12345-6".into(),
        ativo: ativo("B3/PETR4"),
        classe: "acao".into(),
        quantidade: bits(100.0),
        preco_medio: Some(bits(31.4)),
        moeda: Moeda::Brl,
        preco_manual: None,
        preco_manual_em: None,
        atualizado_em: 7,
        carteira: Some("dividendos".into()),
    });
    p.posicoes.push(Position {
        fonte: "manual".into(),
        conta: String::new(),
        ativo: ativo("BINANCE/BTCBRL"),
        classe: "cripto".into(),
        quantidade: bits(0.5),
        preco_medio: None,
        moeda: Moeda::Brl,
        preco_manual: Some(bits(512340.0)),
        preco_manual_em: Some(99),
        atualizado_em: 8,
        carteira: None,
    });
    p.watchlist = vec![ativo("B3/IBOV")];
    p.alvos.push(("acao".into(), bits(40.0)));
    p.setores.push(("B3/PETR4".into(), "petróleo e gás".into()));
    p.feeds = vec!["https://exemplo/rss".into()];
    p.mapeamentos.push((
        "corretora-x".into(),
        vec![("ativo".to_string(), "Papel".to_string())],
    ));
    p.proventos.push(Provento {
        ativo: ativo("B3/PETR4"),
        tipo: "jcp".into(),
        pago_em: 1000,
        bruto: bits(120.0),
        retido: bits(18.0),
        moeda: Moeda::Brl,
        quantidade: Some(bits(100.0)),
    });
    p.lancamentos.push(Lancamento {
        em: 2000,
        tipo: "compra".into(),
        ativo: Some(ativo("B3/PETR4")),
        quantidade: bits(100.0),
        preco: bits(31.4),
        taxas: bits(2.5),
        valor: bits(0.0),
        moeda: Some(Moeda::Brl),
        nota: "primeira".into(),
    });
    p.alertas.push(Alerta {
        ativo: ativo("B3/PETR4"),
        regra: "acima".into(),
        valor: bits(40.0),
        ligado: false,
        armado: true,
        ultimo_disparo: Some(3000),
    });
    p.carteiras.push(Carteira {
        nome: "dividendos".into(),
        alvos: vec![AlvoCarteira {
            ordem: 1,
            ativo: ativo("B3/BBAS3"),
            percentual: bits(12.5),
            teto: Some(bits(28.0)),
        }],
    });
    p
}

fn vocabulario() -> Vocabulario {
    let v = |xs: &[&str]| xs.iter().map(|x| x.to_string()).collect::<Vec<String>>();
    Vocabulario {
        classes: v(&["acao", "cripto"]),
        proventos: v(&["dividendo", "jcp"]),
        lancamentos: v(&["compra", "venda", "aporte", "retirada", "provento"]),
        regras: v(&["acima", "abaixo"]),
    }
}

#[test]
fn a_carteira_inteira_sobrevive_a_ida_e_volta() {
    let original = portfolio_cheio();
    let lido = ler_portfolio(&gravar_em(&original), &vocabulario());

    assert_eq!(lido.moeda_base, original.moeda_base);
    assert_eq!(lido.posicoes.len(), 2);
    assert_eq!(lido.posicoes[0].ativo.chave(), "B3/PETR4");
    assert_eq!(lido.posicoes[0].preco_medio, Some(bits(31.4)));
    assert_eq!(lido.posicoes[0].conta, "12345-6");
    assert_eq!(lido.posicoes[0].carteira.as_deref(), Some("dividendos"));
    assert_eq!(lido.posicoes[1].preco_medio, None);
    assert_eq!(lido.posicoes[1].preco_manual, Some(bits(512340.0)));
    assert_eq!(lido.watchlist.len(), 1);
    assert_eq!(lido.alvos, vec![("acao".to_string(), bits(40.0))]);
    assert_eq!(lido.setores, vec![("B3/PETR4".to_string(), "petróleo e gás".to_string())]);
    assert_eq!(lido.feeds, original.feeds);
    assert_eq!(lido.mapeamentos[0].0, "corretora-x");
    assert_eq!(lido.mapeamentos[0].1[0], ("ativo".to_string(), "Papel".to_string()));
    assert_eq!(lido.proventos.len(), 1);
    assert_eq!(lido.proventos[0].tipo, "jcp");
    assert_eq!(lido.proventos[0].retido, bits(18.0));
    assert_eq!(lido.lancamentos.len(), 1);
    assert_eq!(lido.lancamentos[0].nota, "primeira");
    assert_eq!(lido.lancamentos[0].moeda, Some(Moeda::Brl));
    assert_eq!(lido.alertas.len(), 1);
    assert!(!lido.alertas[0].ligado);
    assert!(lido.alertas[0].armado);
    assert_eq!(lido.alertas[0].ultimo_disparo, Some(3000));
    assert_eq!(lido.carteiras.len(), 1);
    assert_eq!(lido.carteiras[0].alvos[0].teto, Some(bits(28.0)));
    assert_eq!(lido.carteiras[0].alvos[0].ordem, 1);
}

#[test]
fn gravar_de_novo_nao_duplica_linha_nenhuma() {
    let p = portfolio_cheio();
    gravar_em(&p);
    let t = gravar_em(&p);
    let lido = ler_portfolio(&t, &vocabulario());
    assert_eq!(lido.posicoes.len(), 2);
    assert_eq!(lido.proventos.len(), 1);
    assert_eq!(lido.carteiras.len(), 1);
    assert_eq!(lido.carteiras[0].alvos.len(), 1);
}

#[test]
fn uma_linha_ilegivel_nao_derruba_a_leitura_das_outras() {
    let mut t = gravar_em(&portfolio_cheio());
    t.posicao.push(LinhaPosicao {
        id: 99,
        fonte: "x".into(),
        conta: String::new(),
        ativo: "MARTE/XPTO3".into(),
        classe: "acao".into(),
        quantidade: bits(1.0),
        preco_medio: None,
        moeda: "BRL".into(),
        preco_manual: None,
        preco_manual_em: None,
        atualizado_em: 0,
        carteira: None,
    });
    let lido = ler_portfolio(&t, &vocabulario());
    assert_eq!(lido.posicoes.len(), 2, "a de mercado desconhecido foi pulada");
}

#[test]
fn dois_anuncios_do_mesmo_papel_no_mesmo_dia_sao_duas_linhas() {
    let anuncios = vec![
        Anunciado {
            ativo: ativo("B3/VALE3"),
            pagamento: Pagamento { em: 1786406400, por_cota: bits(0.46), dy: bits(0.6384) },
        },
        Anunciado {
            ativo: ativo("B3/VALE3"),
            pagamento: Pagamento { em: 1786406400, por_cota: bits(1.57), dy: bits(2.1676) },
        },
    ];
    let linhas = save_anunciados(&anuncios).expect("há o que gravar");
    assert_eq!(linhas.len(), 2, "o segundo anúncio do dia não pode sobrescrever o primeiro");
    assert_ne!(linhas[0].id, linhas[1].id);
    let volta = load_anunciados(&linhas);
    assert_eq!(volta.len(), 2);
    assert_eq!(f64::from_bits(volta[1].pagamento.por_cota), 1.57);
}

fn linha(ativo: &str, preco: f64, em: i64, grade: &str) -> LinhaCotacao<String> {
    LinhaCotacao {
        ativo: ativo.into(),
        preco: bits(preco),
        anterior: None,
        em,
        grade: grade.into(),
        moeda: "BRL".into(),
        gravado_em: None,
    }
}

#[test]
fn cache_velho_e_descartado_na_leitura() {
    let agora: i64 = 1_789_000_000;
    let linhas = vec![
        linha("B3/PETR4", 38.0, agora - CACHE_MAX_IDADE as i64 - 10, "manual"),
        linha("B3/VALE3", 61.0, agora, "ao_vivo"),
        linha("BCB/IPCA", 4.5, agora - 30 * 24 * 60 * 60, "fechamento"),
    ];
    let vivos = load_cache(&linhas, agora);
    let tem = |a: &str| vivos.iter().any(|(k, _)| k == a);
    assert_eq!(vivos.len(), 2);
    assert!(tem("B3/VALE3"));
    assert!(tem("BCB/IPCA"), "uma série publicada não expira como um preço");
    assert!(!tem("B3/PETR4"));
}

#[test]
fn uma_serie_publicada_nao_expira_como_um_preco() {
    let trinta_dias: u64 = 30 * 24 * 60 * 60;
    assert!(trinta_dias > validade("atrasado"), "um preço assim é velho");
    assert!(trinta_dias < validade("fechamento"), "a série ainda vale");
}

#[test]
fn um_preco_de_ontem_continua_sendo_descartado() {
    assert_eq!(validade("ao_vivo"), CACHE_MAX_IDADE);
    assert_eq!(validade("atrasado"), CACHE_MAX_IDADE);
    assert_eq!(validade("nao_oficial"), CACHE_MAX_IDADE);
    assert_eq!(validade("fechamento"), CACHE_MAX_IDADE_SERIE);
}

#[test]
fn o_ipca_corrente_cabe_e_uma_serie_abandonada_nao() {
    let setenta_dias = 70 * 24 * 60 * 60;
    let meio_ano = 180 * 24 * 60 * 60;
    assert!(setenta_dias < validade("fechamento"), "o IPCA corrente tem que caber");
    assert!(meio_ano > validade("fechamento"), "meio ano é série abandonada");
}

#[test]
fn o_que_o_cache_grava_ele_le() {
    let agora: i64 = 1_789_000_000;
    let cache = load_cache(&vec![linha("B3/VALE3", 61.0, agora, "ao_vivo")], agora);
    let linhas = save_cache(&cache);
    assert_eq!(linhas.len(), 1);
    let volta = load_cache(&linhas, agora);
    assert_eq!(volta[0].0, "B3/VALE3");
    assert_eq!(f64::from_bits(volta[0].1.preco), 61.0);
}

#[test]
fn um_preco_que_nao_e_numero_nao_vai_para_o_cache() {
    let agora: i64 = 1_789_000_000;
    let cache = load_cache(&vec![linha("B3/VALE3", f64::NAN, agora, "ao_vivo")], agora);
    assert!(save_cache(&cache).is_empty());
}

#[test]
fn os_instantes_voltam_e_o_ultimo_vale() {
    let linhas = vec![("a".to_string(), 1), ("b".to_string(), 2), ("a".to_string(), 3)];
    assert_eq!(load_buscas(&linhas), vec![("a".to_string(), 3), ("b".to_string(), 2)]);
    let mru = load_mru(&linhas);
    assert_eq!(load_mru(&save_mru(&mru)), mru);
    let b = Buscas::carregar(&linhas);
    assert_eq!(b.quando("a"), Some(3));
    assert_eq!(b.quando("c"), None);
}

#[test]
fn a_agenda_volta_e_o_que_nao_se_conhece_fica_de_fora() {
    let eventos = vec![Evento {
        data: Data { ano: 2026, mes: 9, dia: 16 },
        pais: "BR".to_string(),
        titulo: "Copom".to_string(),
        peso: 3,
        origem: "bcb".to_string(),
    }];
    let linhas = save_agenda(&eventos).expect("há o que gravar");
    let conhecidas = vec!["bcb".to_string()];
    let volta = load_agenda(&linhas, &conhecidas);
    assert_eq!(volta.len(), 1);
    assert_eq!(volta[0].titulo, "Copom");
    assert_eq!((volta[0].data.ano, volta[0].data.mes, volta[0].data.dia), (2026, 9, 16));
    assert!(save_agenda(&Vec::new()).is_none(), "uma lista vazia não apaga o que havia");
}

#[test]
fn a_noticia_sem_instante_o_tem_de_volta_do_texto() {
    let itens = vec![(
        "g1".to_string(),
        Item {
            titulo: "t".to_string(),
            link: "l".to_string(),
            data: "2026-09-10 12:08:07".to_string(),
            resumo: String::new(),
            em: None,
        },
    )];
    let linhas = save_noticias(&itens).expect("há o que gravar");
    let volta = load_noticias(&linhas);
    assert_eq!(volta[0].1.em, instante("2026-09-10 12:08:07"));
}

#[test]
fn sem_banco_a_carteira_e_vazia_e_uma_falha_de_gravacao_e_dita() {
    let l = load(None, &vocabulario(), true);
    assert!(l.somente_leitura);
    assert!(l.portfolio.posicoes.is_empty());
    let t = gravar_em(&portfolio_cheio());
    assert_eq!(load(Some(&t), &vocabulario(), false).portfolio.posicoes.len(), 2);
    assert!(save(true).is_ok());
    assert!(save(false).is_err());
}
