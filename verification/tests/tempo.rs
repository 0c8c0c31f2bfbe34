use monitorzinho::invest::tempo::{
    data_de_dias, dia_e_hora, dias_de, epoch_de_iso, hora_minuto, idade, mes_passado, semana_anterior,
    Data, BRT_OFFSET,
};

#[test]
fn a_epoca_e_uma_quinta_feira_de_1970() {
    let d = Data::de_epoch(0, 0);
    assert_eq!((d.ano, d.mes, d.dia), (1970, 1, 1));
    assert_eq!(d.dia_da_semana(), 4);
}

#[test]
fn ida_e_volta_bate_em_datas_dificeis() {
    for (a, m, d) in [
        (2000, 2, 29),
        (1900, 3, 1),
        (2024, 2, 29),
        (2026, 12, 31),
        (2027, 1, 1),
        (1970, 1, 1),
    ] {
        let dias = dias_de(a, m, d);
        let volta = data_de_dias(dias);
        assert_eq!((volta.ano, volta.mes, volta.dia), (a, m, d), "{a}-{m}-{d}");
    }
}

#[test]
fn fuso_de_brasilia_muda_o_dia_na_virada() {
    let epoch = (dias_de(2026, 9, 8) * 86400 + 2 * 3600) as u64;
    assert_eq!(Data::de_epoch(epoch, 0).dia, 8);
    assert_eq!(Data::de_epoch(epoch, BRT_OFFSET).dia, 7);
}

#[test]
fn mes_anterior_e_seguinte_viram_o_ano() {
    let jan = Data {
        ano: 2026,
        mes: 1,
        dia: 15,
    };
    assert_eq!(jan.mes_anterior().mes, 12);
    assert_eq!(jan.mes_anterior().ano, 2025);
    let dez = Data {
        ano: 2026,
        mes: 12,
        dia: 15,
    };
    assert_eq!(dez.mes_seguinte().mes, 1);
    assert_eq!(dez.mes_seguinte().ano, 2027);
}

#[test]
fn chave_de_mes_ordena_alfabeticamente_na_ordem_certa() {
    let mut chaves = vec![
        Data {
            ano: 2026,
            mes: 10,
            dia: 1,
        }
        .chave_mes(),
        Data {
            ano: 2026,
            mes: 2,
            dia: 1,
        }
        .chave_mes(),
        Data {
            ano: 2025,
            mes: 12,
            dia: 1,
        }
        .chave_mes(),
    ];
    chaves.sort();
    assert_eq!(chaves, vec!["2025-12", "2026-02", "2026-10"]);
}

#[test]
fn fim_de_semana_e_reconhecido() {
    assert!(
        Data {
            ano: 2026,
            mes: 9,
            dia: 5
        }
        .fim_de_semana()
    );
    assert!(
        Data {
            ano: 2026,
            mes: 9,
            dia: 6
        }
        .fim_de_semana()
    );
    assert!(
        !Data {
            ano: 2026,
            mes: 9,
            dia: 7
        }
        .fim_de_semana()
    );
}

#[test]
fn idade_em_palavras() {
    assert_eq!(idade(10), "agora");
    assert_eq!(idade(240), "há 4 min");
    assert_eq!(idade(7200), "há 2 h");
    assert_eq!(idade(86400 * 3), "há 3 d");
}

#[test]
fn nunca_escreve_uma_quantidade_de_tempo_igual_a_zero() {
    for s in 0..7200 {
        let texto = idade(s);
        assert!(!texto.starts_with("há 0"), "idade({s}) deu «{texto}»");
    }
}

#[test]
fn a_hora_sai_no_fuso_pedido_e_nao_em_utc() {
    let epoch = Data {
        ano: 2026,
        mes: 9,
        dia: 8,
    }
    .epoch_inicio(0)
        + 22 * 3600;
    assert_eq!(hora_minuto(epoch, 0), (22, 0));
    assert_eq!(hora_minuto(epoch, BRT_OFFSET), (19, 0));
    assert_eq!(dia_e_hora(epoch, BRT_OFFSET), "08/09 19:00");
}

#[test]
fn a_virada_do_dia_para_tras_nao_estoura() {
    let epoch = Data {
        ano: 2026,
        mes: 9,
        dia: 8,
    }
    .epoch_inicio(0)
        + 30 * 60;
    assert_eq!(dia_e_hora(epoch, BRT_OFFSET), "07/09 21:30");
}

#[test]
fn a_semana_anterior_vai_de_segunda_a_sexta() {
    let (de, ate) = semana_anterior(&Data {
        ano: 2026,
        mes: 9,
        dia: 8,
    });
    assert_eq!((de.dia, de.mes), (31, 8));
    assert_eq!((ate.dia, ate.mes), (4, 9));
    assert_eq!(de.dia_da_semana(), 1, "começa numa segunda");
    assert_eq!(ate.dia_da_semana(), 5, "termina numa sexta");
}

#[test]
fn na_segunda_a_semana_passada_e_a_que_acabou_de_terminar() {
    let segunda = Data {
        ano: 2026,
        mes: 9,
        dia: 7,
    };
    assert_eq!(segunda.dia_da_semana(), 1);
    let (de, ate) = semana_anterior(&segunda);
    assert_eq!((de.dia, de.mes), (31, 8));
    assert_eq!((ate.dia, ate.mes), (4, 9));
}

#[test]
fn o_domingo_pertence_a_semana_que_comecou_na_segunda_anterior() {
    let domingo = Data {
        ano: 2026,
        mes: 9,
        dia: 6,
    };
    assert_eq!(domingo.dia_da_semana(), 0);
    let (de, ate) = semana_anterior(&domingo);
    assert_eq!((de.dia, de.mes), (24, 8));
    assert_eq!((ate.dia, ate.mes), (28, 8));
}

#[test]
fn a_semana_anterior_atravessa_o_ano() {
    let (de, ate) = semana_anterior(&Data {
        ano: 2027,
        mes: 1,
        dia: 5,
    });
    assert_eq!((de.ano, de.mes, de.dia), (2026, 12, 28));
    assert_eq!((ate.ano, ate.mes, ate.dia), (2027, 1, 1));
}

#[test]
fn o_mes_passado_vai_do_dia_um_ao_ultimo() {
    let (de, ate) = mes_passado(&Data {
        ano: 2026,
        mes: 9,
        dia: 8,
    });
    assert_eq!((de.ano, de.mes, de.dia), (2026, 8, 1));
    assert_eq!((ate.ano, ate.mes, ate.dia), (2026, 8, 31));
}

#[test]
fn o_mes_passado_acerta_fevereiro_e_a_virada_do_ano() {
    let (_, ate) = mes_passado(&Data {
        ano: 2028,
        mes: 3,
        dia: 10,
    });
    assert_eq!((ate.mes, ate.dia), (2, 29), "2028 é bissexto");
    let (de, ate) = mes_passado(&Data {
        ano: 2027,
        mes: 1,
        dia: 15,
    });
    assert_eq!((de.ano, de.mes, de.dia), (2026, 12, 1));
    assert_eq!((ate.ano, ate.mes, ate.dia), (2026, 12, 31));
}
