//! Tests of the text utilities: natural ordering, normalisation,
//! sanitising, dates and XML escaping.

use gestor_det::ordem::ordenar_natural;
use gestor_det::util::{
    civil_from_days, data_ddmmaaaa, find_from, formatar_data, hoje_ymd, inner_tag, iter_blocos,
    iter_text_of, attr, natural_key, trim_chars, nome_mes, normalize, sanitize, strip_accents, truncar,
    xml_escape, xml_unescape, Parte,
};

#[test]
fn ordenacao_natural_1_2_10() {
    let mut v = vec!["img_10", "img_2", "img_1", "img_100"];
    v.sort_by(|a, b| natural_key(a).cmp(&natural_key(b)));
    assert_eq!(v, vec!["img_1", "img_2", "img_10", "img_100"]);
}

#[test]
fn normaliza_cabecalho_tolerante() {
    assert_eq!(normalize("  Status  Nativo! "), "status nativo");
    assert_eq!(normalize("Executado por"), "executado por");
    assert_eq!(normalize("Nao-Acao"), "nao acao");
}

#[test]
fn remove_acentos() {
    assert_eq!(strip_accents("Cao Artao"), "Cao Artao");
    assert_eq!(strip_accents("Configuração"), "Configuracao");
}

#[test]
fn sanitiza_nome_de_arquivo() {
    assert_eq!(sanitize("a/b:c*?"), "a_b_c__");
    assert_eq!(sanitize("Login Web"), "Login_Web");
}

#[test]
fn trunca_preservando_utf8() {
    assert_eq!(truncar("Configuracao", 6), "Config");
    assert_eq!(truncar("çãé", 2), "çã");
}

#[test]
fn calendario_e_data() {
    assert_eq!(civil_from_days(18628), (2021, 1, 1));
    let d = data_ddmmaaaa();
    assert_eq!(d.len(), 10);
    assert_eq!(&d[2..3], "/");
    assert_eq!(&d[5..6], "/");
}

#[test]
fn escape_e_unescape_xml() {
    assert_eq!(xml_escape("a<b>&\"'"), "a&lt;b&gt;&amp;&quot;&apos;");
    assert_eq!(xml_unescape("a&lt;b&gt;&amp;"), "a<b>&");
    assert_eq!(xml_unescape("&#65;&#x42;"), "AB");
}

#[test]
fn chave_natural_em_blocos() {
    assert_eq!(
        natural_key("IMG_02b"),
        vec![Parte::Txt("img_".to_string()), Parte::Num(2), Parte::Txt("b".to_string())]
    );
    assert_eq!(natural_key(""), Vec::<Parte>::new());
    // a number too large for u64 counts as 0
    assert_eq!(natural_key("99999999999999999999"), vec![Parte::Num(0)]);
}

#[test]
fn ordenar_natural_estavel_e_completo() {
    let nomes: Vec<String> = ["b10", "a", "b2", "A", "b01", "b1"].iter().map(|s| s.to_string()).collect();
    let o = ordenar_natural(&nomes);
    // every name is kept once, in natural order; equal keys keep their order
    assert_eq!(o, vec!["a", "A", "b01", "b1", "b2", "b10"]);
}

#[test]
fn calendario_bordas() {
    assert_eq!(civil_from_days(0), (1970, 1, 1));
    assert_eq!(civil_from_days(-1), (1969, 12, 31));
    assert_eq!(civil_from_days(11016), (2000, 2, 29));
    assert_eq!(civil_from_days(-719468), (0, 3, 1));
    assert_eq!(formatar_data(2026, 7, 5), "05/07/2026");
    let (a, m, d) = hoje_ymd();
    assert!(a >= 2024 && (1..=12).contains(&m) && (1..=31).contains(&d));
}

#[test]
fn nomes_dos_meses() {
    assert_eq!(nome_mes(1), "Janeiro");
    assert_eq!(nome_mes(3), "Marco");
    assert_eq!(nome_mes(12), "Dezembro");
}

#[test]
fn escape_ida_e_volta() {
    for s in ["", "Tom & Jerry", "<a href=\"x\">'y'</a>", "çã & ü"] {
        assert_eq!(xml_unescape(&xml_escape(s)), s);
    }
    // unknown or malformed entities stay as they are
    assert_eq!(xml_unescape("&foo; & &#xZZ;"), "&foo; & &#xZZ;");
}

#[test]
fn busca_de_bytes() {
    assert_eq!(find_from(b"abcabc", 1, b"abc"), Some(3));
    assert_eq!(find_from(b"abc", 0, b"x"), None);
    assert_eq!(find_from(b"abc", 5, b"a"), None);
}

#[test]
fn blocos_e_textos_xml() {
    let xml = "<si><t>a</t><t>b &amp; c</t></si><si/><sig>x</sig>";
    assert_eq!(iter_blocos(xml, "<si", "</si>", "<si/>"), vec!["<si><t>a</t><t>b &amp; c</t>", "<si/>"]);
    assert_eq!(iter_text_of(xml, "t"), vec!["a", "b & c"]);
    assert_eq!(attr("<c r=\"B7\" t=\"s\">", "t"), Some("s".to_string()));
    assert_eq!(attr("<c r=\"B7\">", "t"), None);
    assert_eq!(inner_tag("<c><v>12</v></c>", "v"), Some("12".to_string()));
    assert_eq!(inner_tag("<c><v/></c>", "v"), Some(String::new()));
}

#[test]
fn atributo_so_pelo_nome_inteiro() {
    assert_eq!(attr("<c xr=\"1\" r=\"B2\">", "r"), Some("B2".to_string()));
    assert_eq!(attr("<c r=\"B7\" t=\"s\">", "r"), Some("B7".to_string()));
    assert_eq!(attr("<c xr=\"1\">", "r"), None);
}

#[test]
fn elemento_so_pelo_nome_inteiro() {
    assert_eq!(inner_tag("<c><vm>1</vm><v>2</v></c>", "v"), Some("2".to_string()));
    assert_eq!(inner_tag("<c r=\"A1\"><v>13</v></c>", "v"), Some("13".to_string()));
    assert_eq!(inner_tag("<c></c>", "v"), None);
    assert_eq!(inner_tag("<c><vm>1</vm></c>", "v"), None);
}

#[test]
fn numeros_comparam_por_valor() {
    assert!(natural_key("img_2") < natural_key("img_10"));
    assert!(natural_key("9") < natural_key("10"));
    assert!(natural_key("img_99") < natural_key("img_100"));
}

#[test]
fn caixa_ascii_nao_conta() {
    for s in ["IMG_02b", "Relatorio Final", "aBc9XyZ", "Ção"] {
        assert_eq!(natural_key(s), natural_key(&s.to_ascii_lowercase()));
    }
}

#[test]
fn dia_seguinte_no_calendario() {
    assert_eq!(civil_from_days(11016 + 1), (2000, 3, 1));
    assert_eq!(civil_from_days(-1 + 1), (1970, 1, 1));
    assert_eq!(civil_from_days(18627 + 1), (2021, 1, 1));
    assert_eq!(civil_from_days(18627), (2020, 12, 31));
    // 2100 is not a leap year
    assert_eq!(civil_from_days(47540), (2100, 2, 28));
    assert_eq!(civil_from_days(47541), (2100, 3, 1));
}

#[test]
fn espacos_unicode_cortados() {
    for s in ["\u{a0}x y\u{3000}", "\t\n\u{b}\u{c}\r x y \u{85}", "\u{2000}\u{200a}x y\u{2028}\u{2029}\u{202f}\u{205f}\u{1680}"] {
        let v: Vec<char> = s.chars().collect();
        let esperado: Vec<char> = s.trim().chars().collect();
        assert_eq!(trim_chars(&v), esperado);
        assert_eq!(esperado, "x y".chars().collect::<Vec<char>>());
    }
    // U+180E and U+200B are not whitespace
    let v: Vec<char> = "\u{180e}x\u{200b}".chars().collect();
    assert_eq!(trim_chars(&v), v);
}
