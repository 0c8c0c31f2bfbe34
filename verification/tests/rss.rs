use monitorzinho::invest::rss::{desfazer_entidades, instante, parse, sem_html, MAX_ITENS};

const RSS: &str = r#"<?xml version="1.0"?><rss><channel>
  <item>
    <title>Petrobras aprova dividendos</title>
    <link>https://exemplo.com/1</link>
    <pubDate>Mon, 08 Sep 2026 14:22:00 -0300</pubDate>
    <description><![CDATA[<p>A empresa &amp; o conselho aprovaram.</p>]]></description>
  </item>
  <item>
    <title>Copom mantém a Selic</title>
    <link>https://exemplo.com/2</link>
    <description>Sem &lt;surpresa&gt;</description>
  </item>
</channel></rss>"#;

#[test]
fn le_os_itens_de_um_rss() {
    let itens = parse(RSS);
    assert_eq!(itens.len(), 2);
    assert_eq!(itens[0].titulo, "Petrobras aprova dividendos");
    assert_eq!(itens[0].link, "https://exemplo.com/1");
    assert!(itens[0].data.contains("2026"));
}

#[test]
fn cdata_e_desembrulhado_e_as_entidades_desfeitas() {
    let itens = parse(RSS);
    assert!(itens[0].resumo.contains("A empresa & o conselho"));
    assert_eq!(itens[1].resumo, "Sem <surpresa>");
}

#[test]
fn amp_e_desfeito_por_ultimo() {
    assert_eq!(desfazer_entidades("&amp;lt;"), "&lt;");
}

#[test]
fn atom_tambem_e_lido() {
    let atom = r#"<feed><entry>
        <title>Fed sinaliza cautela</title>
        <link href="https://exemplo.com/3"/>
        <updated>2026-09-08T12:00:00Z</updated>
        <summary>Texto</summary>
    </entry></feed>"#;
    let itens = parse(atom);
    assert_eq!(itens.len(), 1);
    assert_eq!(itens[0].titulo, "Fed sinaliza cautela");
    assert_eq!(itens[0].link, "https://exemplo.com/3");
}

#[test]
fn le_as_duas_formas_de_data_que_os_feeds_usam() {
    let rss = instante("Mon, 08 Sep 2026 14:22:00 -0300").unwrap();
    let atom = instante("2026-09-08T17:22:00Z").unwrap();
    assert_eq!(rss, atom, "as duas datas são o mesmo instante");
}

#[test]
fn o_fuso_e_respeitado() {
    let brasilia = instante("Mon, 08 Sep 2026 14:00:00 -0300").unwrap();
    let utc = instante("Mon, 08 Sep 2026 14:00:00 +0000").unwrap();
    assert_eq!(brasilia - utc, 3 * 3600);
}

#[test]
fn data_ilegivel_nao_vira_um_instante_qualquer() {
    assert_eq!(instante("amanhã de manhã"), None);
    assert_eq!(instante(""), None);
    assert_eq!(instante("Mon, 08 Xyz 2026 14:00:00 -0300"), None);
    assert_eq!(instante("Sep 07 12:17 GMT"), None);
}

#[test]
fn le_o_formato_do_investing_com_que_nao_e_nenhum_dos_dois() {
    let em = instante("Sep 07, 2026 12:17 GMT").expect("tem que ler");
    let iso = instante("2026-09-07T12:17:00Z").expect("a ISO do mesmo instante");
    assert_eq!(em, iso);
}

#[test]
fn a_ordem_dos_campos_nao_importa_e_o_dia_da_semana_e_ignorado() {
    let a = instante("Mon, 07 Sep 2026 12:17:00 +0000").unwrap();
    let b = instante("Sep 07, 2026 12:17 GMT").unwrap();
    let c = instante("07 Sep 2026 12:17 UTC").unwrap();
    assert_eq!(a, b);
    assert_eq!(b, c);
}

#[test]
fn o_fuso_e_respeitado_e_um_fuso_por_nome_desconhecido_nao_chuta() {
    let brt = instante("Mon, 07 Sep 2026 12:00:00 -0300").unwrap();
    let utc = instante("Mon, 07 Sep 2026 15:00:00 +0000").unwrap();
    assert_eq!(brt, utc);
    assert_eq!(instante("07 Sep 2026 12:00:00 -03:00").unwrap(), brt);
    assert_eq!(
        instante("07 Sep 2026 15:00:00 EST").unwrap(),
        instante("07 Sep 2026 15:00:00 GMT").unwrap()
    );
}

#[test]
fn uma_data_sem_hora_vale_meia_noite_em_vez_de_ser_descartada() {
    let em = instante("Sep 07, 2026").expect("data sem hora ainda é uma data");
    assert_eq!(em, instante("2026-09-07T00:00:00Z").unwrap());
}

#[test]
fn os_itens_saem_com_a_data_ja_lida() {
    let itens = parse(RSS);
    assert!(itens[0].em.is_some(), "o primeiro tem pubDate");
    assert!(itens[1].em.is_none(), "o segundo não tem, e isso é dito");
}

#[test]
fn html_some_do_resumo() {
    assert_eq!(sem_html("<p>Um <b>texto</b>   aqui</p>"), "Um texto aqui");
}

#[test]
fn documento_sem_item_nao_estoura() {
    assert!(parse("<rss><channel></channel></rss>").is_empty());
    assert!(parse("").is_empty());
    assert!(parse("isto não é XML").is_empty());
}

#[test]
fn o_teto_de_itens_e_respeitado() {
    let muitos: String = (0..200)
        .map(|i| format!("<item><title>n{i}</title></item>"))
        .collect();
    assert_eq!(parse(&muitos).len(), MAX_ITENS);
}

#[test]
fn tirar_o_html_de_novo_nao_muda_nada() {
    for t in ["<p>Um <b>texto</b>   aqui</p>", " a > b < c", "\u{a0}x\n\ty<", "", "<><>"] {
        let r = sem_html(t);
        assert!(!r.contains('<') && !r.contains('>') && !r.contains("  "), "{r}");
        assert_eq!(r.trim(), r);
        assert_eq!(sem_html(&r), r);
    }
    assert_eq!(sem_html("\u{a0}x\n\ty<"), "x y");
}

#[test]
fn sem_o_t_so_um_dia_de_verdade_e_lido() {
    let t = instante("2026-09-10T12:08:07Z");
    assert!(t.is_some());
    assert_eq!(instante("2026-09-10 12:08:07"), t);
    assert_eq!(instante("2026-09-10"), instante("2026-09-10T00:00:00Z"));
    assert_eq!(instante("2024-02-29"), instante("2024-02-29T00:00:00Z"));
    for ruim in [
        "12-05-2026",
        "12-05-2026 10:00:00",
        "2026-02-29",
        "2026-13-01",
        "2026-09-00",
        "2026-9-7",
        "2026-09-10-11",
        "+026-09-10",
        "2026-09-10 24:00:00",
        "2026-09-10 12:60:00",
        "2026-09-10 12:08",
        "2026-09-10 12:08:07 -0300",
        "1-2-3",
        "0-0-0 0",
    ] {
        assert_eq!(instante(ruim), None, "{ruim}");
    }
}
