//! The decisions of the terminal menu: how an answer typed by the user is
//! read. Showing the menu and reading the answers is done by the caller.

use vstd::prelude::*;

use crate::acoes::{minusculas, minusculas_spec};
use crate::texto::{chars_of, string_of};
use crate::util::{
    anexar, digits_value, is_digit, lemma_digits_prefix, mesmas, nome_mes, nome_mes_spec,
    parse_u32_radix, parse_u32_spec, trim_chars, trim_spec,
};
use crate::xlsx::{parse_usize, parse_usize_spec};

verus! {

/// The outcome of a selection sub-menu.
pub enum Nav<T> {
    /// Something was chosen.
    Escolha(T),
    /// Back to the previous menu.
    Anterior,
    /// Back to the main menu.
    Principal,
}

/// What a yes/no answer means: empty (after trimming) gives the default;
/// otherwise "s", "sim" or "y", in any ASCII case, mean yes.
pub open spec fn sn_spec(resposta: Seq<char>, default_sim: bool) -> bool {
    let r = minusculas_spec(trim_spec(resposta));
    if r.len() == 0 {
        default_sim
    } else {
        r == "s"@ || r == "sim"@ || r == "y"@
    }
}

/// Reads a yes/no answer (see `sn_spec`).
pub fn resposta_sn(resposta: &str, default_sim: bool) -> (r: bool)
    ensures
        r == sn_spec(resposta@, default_sim),
{
    let t = minusculas(&trim_chars(&chars_of(resposta)));
    if t.len() == 0 {
        default_sim
    } else {
        mesmas(&t, &chars_of("s")) || mesmas(&t, &chars_of("sim")) || mesmas(&t, &chars_of("y"))
    }
}

/// The answer to a question with a default: the trimmed answer, or the
/// default when it is blank.
pub fn resposta_ou_default(resposta: &str, default: &str) -> (r: String)
    ensures
        r@ == if trim_spec(resposta@).len() == 0 {
            default@
        } else {
            trim_spec(resposta@)
        },
{
    let t = trim_chars(&chars_of(resposta));
    if t.len() == 0 {
        string_of(chars_of(default).as_slice())
    } else {
        string_of(t.as_slice())
    }
}

/// The action chosen in the main menu: an empty line (end of input) means 0
/// (leave); otherwise the trimmed answer must be one of "0" to "6".
pub open spec fn acao_spec(resposta: Seq<char>) -> Option<u8> {
    let t = trim_spec(resposta);
    if resposta.len() == 0 {
        Some(0)
    } else if t.len() == 1 && '0' <= t[0] && t[0] <= '6' {
        Some((t[0] as int - '0' as int) as u8)
    } else {
        None
    }
}

/// Reads the answer to the main menu (see `acao_spec`); `None` is an invalid option.
pub fn interpretar_acao(resposta: &str) -> (r: Option<u8>)
    ensures
        r == acao_spec(resposta@),
{
    let v = chars_of(resposta);
    if v.len() == 0 {
        return Some(0);
    }
    let t = trim_chars(&v);
    if t.len() == 1 && '0' <= t[0] && t[0] <= '6' {
        Some(((t[0] as u32) - ('0' as u32)) as u8)
    } else {
        None
    }
}

/// An answer to the release menu.
pub enum OpcaoRelease {
    /// Back to the main menu.
    Principal,
    /// Create a new release.
    Nova,
    /// The release at this position of the list.
    Indice(usize),
    /// Not an option.
    Invalida,
}

/// What an answer to the release menu (already trimmed) means, with `n`
/// releases listed: empty or "0" goes back; "n" (any case) creates one; a
/// number from 1 to `n` picks that release.
pub open spec fn release_spec(escolha: Seq<char>, n: usize) -> OpcaoRelease {
    let e = minusculas_spec(escolha);
    if e.len() == 0 || e == "0"@ {
        OpcaoRelease::Principal
    } else if e == "n"@ {
        OpcaoRelease::Nova
    } else {
        match parse_usize_spec(e) {
            Some(i) => if 1 <= i && i <= n {
                OpcaoRelease::Indice((i - 1) as usize)
            } else {
                OpcaoRelease::Invalida
            },
            None => OpcaoRelease::Invalida,
        }
    }
}

/// Reads an answer to the release menu (see `release_spec`).
pub fn interpretar_release(escolha: &str, n: usize) -> (r: OpcaoRelease)
    ensures
        r == release_spec(escolha@, n),
{
    let e = minusculas(&chars_of(escolha));
    if e.len() == 0 || mesmas(&e, &chars_of("0")) {
        OpcaoRelease::Principal
    } else if mesmas(&e, &chars_of("n")) {
        OpcaoRelease::Nova
    } else {
        match parse_usize(&e) {
            Some(i) => if 1 <= i && i <= n {
                OpcaoRelease::Indice(i - 1)
            } else {
                OpcaoRelease::Invalida
            },
            None => OpcaoRelease::Invalida,
        }
    }
}

/// An answer to the card menu.
pub enum OpcaoCard {
    /// Nothing typed.
    Vazia,
    /// Back to the previous menu (choose another release).
    Anterior,
    /// Back to the main menu.
    Principal,
    /// Not a number.
    NaoNumerica,
    /// A card number.
    Numero,
}

/// Only ASCII digits.
pub open spec fn so_digitos(s: Seq<char>) -> bool {
    forall|i: int| 0 <= i < s.len() ==> is_digit(#[trigger] s[i])
}

fn so_digitos_exec(v: &Vec<char>) -> (r: bool)
    ensures
        r == so_digitos(v@),
{
    let mut k: usize = 0;
    while k < v.len()
        invariant
            k <= v.len(),
            forall|i: int| 0 <= i < k ==> is_digit(#[trigger] v@[i]),
        decreases v.len() - k,
    {
        if v[k] < '0' || v[k] > '9' {
            return false;
        }
        k = k + 1;
    }
    true
}

/// What an answer (already trimmed) to the card menu means: "a" goes back
/// to the releases, "p" or "0" to the main menu (any case); anything else
/// must be a number.
pub open spec fn card_spec(resp: Seq<char>) -> OpcaoCard {
    let e = minusculas_spec(resp);
    if e.len() == 0 {
        OpcaoCard::Vazia
    } else if e == "a"@ {
        OpcaoCard::Anterior
    } else if e == "p"@ || e == "0"@ {
        OpcaoCard::Principal
    } else if !so_digitos(resp) {
        OpcaoCard::NaoNumerica
    } else {
        OpcaoCard::Numero
    }
}

/// Reads an answer to the card menu (see `card_spec`).
pub fn interpretar_card(resp: &str) -> (r: OpcaoCard)
    ensures
        r == card_spec(resp@),
{
    let v = chars_of(resp);
    let e = minusculas(&v);
    if e.len() == 0 {
        OpcaoCard::Vazia
    } else if mesmas(&e, &chars_of("a")) {
        OpcaoCard::Anterior
    } else if mesmas(&e, &chars_of("p")) || mesmas(&e, &chars_of("0")) {
        OpcaoCard::Principal
    } else if !so_digitos_exec(&v) {
        OpcaoCard::NaoNumerica
    } else {
        OpcaoCard::Numero
    }
}

/// Why a new release cannot be named.
pub enum ErroRelease {
    MesInvalido,
    AnoInvalido,
}

/// The name of a new release, "Release <month> <year>", from the month's
/// number (1 to 12, as `str::parse::<u32>` reads it) and the year (digits only).
pub open spec fn nome_release_spec(mes: Seq<char>, ano: Seq<char>) -> Result<Seq<char>, ErroRelease> {
    match parse_u32_spec(mes, 10) {
        Some(m) => if 1 <= m && m <= 12 {
            if ano.len() == 0 || !so_digitos(ano) {
                Err(ErroRelease::AnoInvalido)
            } else {
                Ok("Release "@ + nome_mes_spec(m) + " "@ + ano)
            }
        } else {
            Err(ErroRelease::MesInvalido)
        },
        None => Err(ErroRelease::MesInvalido),
    }
}

/// Names a new release (see `nome_release_spec`).
pub fn nome_release(mes: &str, ano: &str) -> (r: Result<String, ErroRelease>)
    ensures
        match r {
            Ok(n) => nome_release_spec(mes@, ano@) == Ok::<Seq<char>, ErroRelease>(n@),
            Err(e) => nome_release_spec(mes@, ano@) == Err::<Seq<char>, ErroRelease>(e),
        },
{
    let mv = chars_of(mes);
    let m = match parse_u32_radix(&mv, 0, mv.len(), 10) {
        Some(m) => m,
        None => {
            assert(mv@.subrange(0, mv@.len() as int) =~= mes@);
            return Err(ErroRelease::MesInvalido);
        },
    };
    assert(mv@.subrange(0, mv@.len() as int) =~= mes@);
    if m < 1 || m > 12 {
        return Err(ErroRelease::MesInvalido);
    }
    let av = chars_of(ano);
    if av.len() == 0 || !so_digitos_exec(&av) {
        return Err(ErroRelease::AnoInvalido);
    }
    let mut out = chars_of("Release ");
    anexar(&mut out, &chars_of(nome_mes(m)));
    anexar(&mut out, &chars_of(" "));
    anexar(&mut out, &av);
    Ok(string_of(out.as_slice()))
}

// ─── Command line and small choices ────────────────────────────────────────

/// The first position of `flag` among the arguments.
pub open spec fn posicao_de(args: Seq<Seq<char>>, flag: Seq<char>) -> Option<int>
    decreases args.len(),
{
    if args.len() == 0 {
        None
    } else {
        match posicao_de(args.drop_last(), flag) {
            Some(i) => Some(i),
            None => if args.last() == flag {
                Some(args.len() - 1)
            } else {
                None
            },
        }
    }
}

proof fn lemma_posicao_prefixo(args: Seq<Seq<char>>, flag: Seq<char>, j: int)
    requires
        0 <= j <= args.len(),
        posicao_de(args.take(j), flag) is Some,
    ensures
        posicao_de(args, flag) == posicao_de(args.take(j), flag),
    decreases args.len(),
{
    if j == args.len() {
        assert(args.take(j) =~= args);
    } else {
        assert(args.drop_last().take(j) =~= args.take(j));
        lemma_posicao_prefixo(args.drop_last(), flag, j);
    }
}

/// The value given to an option on the command line: the argument after the
/// first occurrence of `flag`, if there is one.
pub fn arg_valor(args: &[String], flag: &str) -> (r: Option<String>)
    ensures
        ({
            let av = args@.map_values(|t: String| t@);
            match posicao_de(av, flag@) {
                Some(i) => if i + 1 < av.len() {
                    r matches Some(v) && v@ == av[i + 1]
                } else {
                    r is None
                },
                None => r is None,
            }
        }),
{
    let ghost av = args@.map_values(|t: String| t@);
    let f = chars_of(flag);
    let mut i: usize = 0;
    assert(av.take(0) =~= Seq::<Seq<char>>::empty());
    while i < args.len()
        invariant
            av == args@.map_values(|t: String| t@),
            f@ == flag@,
            i <= args.len(),
            posicao_de(av.take(i as int), flag@) is None,
        decreases args.len() - i,
    {
        assert(av.take(i + 1).drop_last() =~= av.take(i as int));
        assert(av.take(i + 1).last() == args@[i as int]@);
        if mesmas(&chars_of(args[i].as_str()), &f) {
            proof {
                lemma_posicao_prefixo(av, flag@, i + 1);
            }
            if i + 1 < args.len() {
                return Some(args[i + 1].clone());
            } else {
                return None;
            }
        }
        i = i + 1;
    }
    assert(av.take(args.len() as int) =~= av);
    None
}

/// What `str::parse::<u64>` gives for `s`: an optional `+`, then at least one
/// decimal digit, and a value that fits in a `u64`.
pub open spec fn parse_u64_spec(s: Seq<char>) -> Option<u64> {
    let d = if s.len() > 0 && s[0] == '+' {
        s.drop_first()
    } else {
        s
    };
    if d.len() == 0 {
        None
    } else {
        match digits_value(d, 10) {
            Some(v) => if v <= u64::MAX {
                Some(v as u64)
            } else {
                None
            },
            None => None,
        }
    }
}

/// `str::parse::<u64>` on the characters of `v`.
pub fn parse_u64(v: &Vec<char>) -> (r: Option<u64>)
    ensures
        r == parse_u64_spec(v@),
{
    let mut ini: usize = 0;
    if v.len() > 0 && v[0] == '+' {
        ini = 1;
    }
    let ghost d = v@.subrange(ini as int, v.len() as int);
    assert(d =~= (if v@.len() > 0 && v@[0] == '+' { v@.drop_first() } else { v@ }));
    if ini == v.len() {
        return None;
    }
    let mut acc: u64 = 0;
    let mut i = ini;
    assert(d.take(0) =~= Seq::<char>::empty());
    while i < v.len()
        invariant
            ini <= i <= v.len(),
            d == v@.subrange(ini as int, v.len() as int),
            d == (if v@.len() > 0 && v@[0] == '+' { v@.drop_first() } else { v@ }),
            d.len() > 0,
            digits_value(d.take(i - ini), 10) == Some(acc as nat),
        decreases v.len() - i,
    {
        let c = v[i];
        assert(d.take(i + 1 - ini).drop_last() =~= d.take(i - ini));
        assert(d.take(i + 1 - ini).last() == c);
        if c < '0' || c > '9' {
            proof {
                lemma_digits_prefix(d, 10, i + 1 - ini);
            }
            return None;
        }
        let dv: u64 = ((c as u32) - ('0' as u32)) as u64;
        let novo = match acc.checked_mul(10) {
            Some(m) => m.checked_add(dv),
            None => None,
        };
        match novo {
            Some(n) => {
                acc = n;
            },
            None => {
                proof {
                    lemma_digits_prefix(d, 10, i + 1 - ini);
                }
                return None;
            },
        }
        i = i + 1;
    }
    assert(d.take(v.len() - ini) =~= d);
    Some(acc)
}

/// The size limit of a compiled PDF, in MB: the answer read as a number, or
/// 30 when it is not one.
pub fn limite_mb(resposta: &str) -> (r: u64)
    ensures
        r == match parse_u64_spec(resposta@) {
            Some(v) => v,
            None => 30,
        },
{
    match parse_u64(&chars_of(resposta)) {
        Some(v) => v,
        None => 30,
    }
}

/// The mark shown for a tool in the environment check: present, missing and
/// required, or missing and optional.
pub fn marca_status(presente: bool, obrigatorio: bool) -> (r: &'static str)
    ensures
        r@ == if presente {
            "[ ok  ]"@
        } else if obrigatorio {
            "[falta]"@
        } else {
            "[ --  ]"@
        },
{
    if presente {
        "[ ok  ]"
    } else if obrigatorio {
        "[falta]"
    } else {
        "[ --  ]"
    }
}

} // verus!
