//! Natural ordering of names: the order of their `natural_key`s, so that
//! "img_2" comes before "img_10". Keys compare block by block; a number block
//! comes before a text block, numbers compare by value and texts character
//! by character (which for UTF-8 strings is the order of their bytes).

use vstd::prelude::*;

use crate::texto::chars_of;
use crate::texto::ascii_lower;
use crate::util::{
    dec_digits, digit_char, digit_value, digits_value, is_digit, key_spec, lemma_run_len, natural_key, partes_view, run_len, Parte,
    ParteV,
};

verus! {

/// `s` comes strictly before `t`, character by character (a proper prefix
/// comes first).
pub open spec fn txt_lt(s: Seq<char>, t: Seq<char>) -> bool
    decreases s.len(),
{
    if t.len() == 0 {
        false
    } else if s.len() == 0 {
        true
    } else if s[0] != t[0] {
        (s[0] as int) < (t[0] as int)
    } else {
        txt_lt(s.drop_first(), t.drop_first())
    }
}

/// The order of key blocks: numbers by value, before every text; texts by `txt_lt`.
pub open spec fn parte_lt(a: ParteV, b: ParteV) -> bool {
    match (a, b) {
        (ParteV::Num(x), ParteV::Num(y)) => x < y,
        (ParteV::Num(_), ParteV::Txt(_)) => true,
        (ParteV::Txt(_), ParteV::Num(_)) => false,
        (ParteV::Txt(s), ParteV::Txt(t)) => txt_lt(s, t),
    }
}

/// `a` comes strictly before `b`, block by block (a proper prefix comes first).
pub open spec fn chave_lt(a: Seq<ParteV>, b: Seq<ParteV>) -> bool
    decreases a.len(),
{
    if b.len() == 0 {
        false
    } else if a.len() == 0 {
        true
    } else if a[0] != b[0] {
        parte_lt(a[0], b[0])
    } else {
        chave_lt(a.drop_first(), b.drop_first())
    }
}

/// The name `a` comes strictly before `b` in natural order.
pub open spec fn nome_lt(a: Seq<char>, b: Seq<char>) -> bool {
    chave_lt(key_spec(a), key_spec(b))
}

pub proof fn lemma_txt_trans(a: Seq<char>, b: Seq<char>, c: Seq<char>)
    requires
        txt_lt(a, b),
        txt_lt(b, c),
    ensures
        txt_lt(a, c),
    decreases a.len(),
{
    if a.len() > 0 && b.len() > 0 && c.len() > 0 && a[0] == b[0] && b[0] == c[0] {
        lemma_txt_trans(a.drop_first(), b.drop_first(), c.drop_first());
    }
}

pub proof fn lemma_txt_total(a: Seq<char>, b: Seq<char>)
    ensures
        txt_lt(a, b) || txt_lt(b, a) || a == b,
    decreases a.len(),
{
    if a.len() > 0 && b.len() > 0 {
        if a[0] == b[0] {
            lemma_txt_total(a.drop_first(), b.drop_first());
            if a.drop_first() == b.drop_first() {
                assert(a =~= seq![a[0]] + a.drop_first());
                assert(b =~= seq![b[0]] + b.drop_first());
            }
        } else {
            assert((a[0] as int) != (b[0] as int));
        }
    } else if a.len() == 0 && b.len() == 0 {
        assert(a =~= b);
    }
}

pub proof fn lemma_txt_irrefl(a: Seq<char>)
    ensures
        !txt_lt(a, a),
    decreases a.len(),
{
    if a.len() > 0 {
        lemma_txt_irrefl(a.drop_first());
    }
}

pub proof fn lemma_parte_trans(a: ParteV, b: ParteV, c: ParteV)
    requires
        parte_lt(a, b),
        parte_lt(b, c),
    ensures
        parte_lt(a, c),
{
    match (a, b, c) {
        (ParteV::Txt(x), ParteV::Txt(y), ParteV::Txt(z)) => lemma_txt_trans(x, y, z),
        _ => {},
    }
}

pub proof fn lemma_parte_total(a: ParteV, b: ParteV)
    ensures
        parte_lt(a, b) || parte_lt(b, a) || a == b,
{
    match (a, b) {
        (ParteV::Txt(x), ParteV::Txt(y)) => lemma_txt_total(x, y),
        _ => {},
    }
}

pub proof fn lemma_parte_irrefl(a: ParteV)
    ensures
        !parte_lt(a, a),
{
    match a {
        ParteV::Txt(x) => lemma_txt_irrefl(x),
        _ => {},
    }
}

pub proof fn lemma_chave_trans(a: Seq<ParteV>, b: Seq<ParteV>, c: Seq<ParteV>)
    requires
        chave_lt(a, b),
        chave_lt(b, c),
    ensures
        chave_lt(a, c),
    decreases a.len(),
{
    if a.len() > 0 && b.len() > 0 && c.len() > 0 {
        if a[0] == b[0] && b[0] == c[0] {
            lemma_chave_trans(a.drop_first(), b.drop_first(), c.drop_first());
        } else if a[0] != b[0] && b[0] != c[0] {
            lemma_parte_trans(a[0], b[0], c[0]);
            if a[0] == c[0] {
                lemma_parte_irrefl(a[0]);
            }
        }
    }
}

pub proof fn lemma_chave_total(a: Seq<ParteV>, b: Seq<ParteV>)
    ensures
        chave_lt(a, b) || chave_lt(b, a) || a == b,
    decreases a.len(),
{
    if a.len() > 0 && b.len() > 0 {
        if a[0] == b[0] {
            lemma_chave_total(a.drop_first(), b.drop_first());
            if a.drop_first() == b.drop_first() {
                assert(a =~= seq![a[0]] + a.drop_first());
                assert(b =~= seq![b[0]] + b.drop_first());
            }
        } else {
            lemma_parte_total(a[0], b[0]);
        }
    } else if a.len() == 0 && b.len() == 0 {
        assert(a =~= b);
    }
}

pub proof fn lemma_chave_irrefl(a: Seq<ParteV>)
    ensures
        !chave_lt(a, a),
    decreases a.len(),
{
    if a.len() > 0 {
        lemma_chave_irrefl(a.drop_first());
    }
}


// ─── The first least key, and sorting ──────────────────────────────────────

/// The position of the first least key: the first position whose key no
/// later key comes before.
pub open spec fn primeiro_min(ks: Seq<Seq<ParteV>>) -> int
    decreases ks.len(),
{
    if ks.len() <= 1 {
        0
    } else {
        let b = primeiro_min(ks.drop_last());
        if chave_lt(ks.last(), ks[b]) {
            ks.len() - 1
        } else {
            b
        }
    }
}

/// `primeiro_min` is the first of the least keys: no key comes before it, and
/// it comes strictly before every key ahead of it.
pub proof fn lemma_primeiro_min(ks: Seq<Seq<ParteV>>)
    requires
        ks.len() > 0,
    ensures
        0 <= primeiro_min(ks) < ks.len(),
        forall|j: int| 0 <= j < ks.len() ==> !chave_lt(#[trigger] ks[j], ks[primeiro_min(ks)]),
        forall|j: int| 0 <= j < primeiro_min(ks) ==> chave_lt(ks[primeiro_min(ks)], #[trigger] ks[j]),
    decreases ks.len(),
{
    if ks.len() == 1 {
        lemma_chave_irrefl(ks[0]);
    } else {
        let d = ks.drop_last();
        lemma_primeiro_min(d);
        let b = primeiro_min(d);
        let n = ks.len() - 1;
        assert forall|j: int| 0 <= j < n implies #[trigger] ks[j] == d[j] by {}
        if chave_lt(ks.last(), ks[b]) {
            lemma_chave_irrefl(ks[n]);
            assert forall|j: int| 0 <= j < ks.len() implies !chave_lt(#[trigger] ks[j], ks[n]) by {
                if j < n && chave_lt(ks[j], ks[n]) {
                    assert(ks[j] == d[j]);
                    lemma_chave_trans(ks[j], ks[n], ks[b]);
                }
            }
            assert forall|j: int| 0 <= j < n implies chave_lt(ks[n], #[trigger] ks[j]) by {
                assert(ks[j] == d[j]);
                assert(!chave_lt(d[j], d[b]));
                lemma_chave_total(ks[b], ks[j]);
                if chave_lt(ks[b], ks[j]) {
                    lemma_chave_trans(ks[n], ks[b], ks[j]);
                }
            }
        } else {
            assert forall|j: int| 0 <= j < ks.len() implies !chave_lt(#[trigger] ks[j], ks[b]) by {
                if j < n {
                    assert(ks[j] == d[j]);
                }
            }
            assert forall|j: int| 0 <= j < b implies chave_lt(ks[b], #[trigger] ks[j]) by {
                assert(ks[j] == d[j]);
            }
        }
    }
}

/// The natural keys of the names.
pub open spec fn chaves(ns: Seq<Seq<char>>) -> Seq<Seq<ParteV>> {
    ns.map_values(|n: Seq<char>| key_spec(n))
}

/// The names in natural order, as a stable sort by `natural_key` leaves them:
/// the first name of least key, then the others in the same order.
pub open spec fn ordenado(ns: Seq<Seq<char>>) -> Seq<Seq<char>>
    decreases ns.len(),
{
    if ns.len() == 0 {
        Seq::empty()
    } else {
        let i = primeiro_min(chaves(ns));
        proof {
            lemma_primeiro_min(chaves(ns));
        }
        seq![ns[i]] + ordenado(ns.remove(i))
    }
}

/// Sorting in natural order keeps every name, as often as it occurs, and
/// leaves no name after one that it comes before.
pub proof fn lemma_ordenado(ns: Seq<Seq<char>>)
    ensures
        ordenado(ns).to_multiset() == ns.to_multiset(),
        forall|i: int, j: int|
            0 <= i < j < ns.len() ==> !nome_lt(#[trigger] ordenado(ns)[j], #[trigger] ordenado(ns)[i]),
    decreases ns.len(),
{
    broadcast use vstd::seq_lib::group_to_multiset_ensures;
    broadcast use vstd::multiset::group_multiset_axioms;

    if ns.len() == 0 {
        assert(ordenado(ns) =~= ns);
    } else {
        let ks = chaves(ns);
        lemma_primeiro_min(ks);
        let i = primeiro_min(ks);
        let resto = ns.remove(i);
        lemma_ordenado(resto);
        let o = ordenado(ns);
        assert(o == seq![ns[i]] + ordenado(resto));
        assert(ordenado(resto).to_multiset().len() == ordenado(resto).len());
        assert(resto.to_multiset().len() == resto.len());
        assert(ordenado(resto).len() == ns.len() - 1);
        vstd::seq_lib::lemma_multiset_commutative(seq![ns[i]], ordenado(resto));
        assert(seq![ns[i]].to_multiset() =~= vstd::multiset::Multiset::empty().insert(ns[i])) by {
            assert(seq![ns[i]] =~= Seq::<Seq<char>>::empty().push(ns[i]));
        }
        assert(ns.to_multiset().count(ns[i]) > 0) by {
            assert(ns.contains(ns[i]));
        }
        assert(o.to_multiset() =~= ns.to_multiset());
        assert forall|a: int, b: int| 0 <= a < b < ns.len() implies !nome_lt(
            #[trigger] o[b],
            #[trigger] o[a],
        ) by {
            if a == 0 {
                let x = o[b];
                assert(x == ordenado(resto)[b - 1]);
                assert(ordenado(resto).contains(x));
                assert(ordenado(resto).to_multiset().count(x) > 0);
                assert(resto.to_multiset().count(x) > 0);
                assert(resto.contains(x));
                let q = choose|q: int| 0 <= q < resto.len() && resto[q] == x;
                let j = if q < i {
                    q
                } else {
                    q + 1
                };
                assert(ns[j] == x);
                assert(ks[j] == key_spec(x));
                assert(!chave_lt(ks[j], ks[i]));
            } else {
                assert(o[a] == ordenado(resto)[a - 1]);
                assert(o[b] == ordenado(resto)[b - 1]);
            }
        }
    }
}

// ─── Comparing ─────────────────────────────────────────────────────────────

/// Whether `s` comes strictly before `t`, character by character.
pub fn texto_menor(s: &Vec<char>, t: &Vec<char>) -> (r: bool)
    ensures
        r == txt_lt(s@, t@),
{
    let mut i: usize = 0;
    assert(s@.skip(0) =~= s@);
    assert(t@.skip(0) =~= t@);
    loop
        invariant
            i <= s.len(),
            i <= t.len(),
            txt_lt(s@, t@) == txt_lt(s@.skip(i as int), t@.skip(i as int)),
        decreases s.len() - i,
    {
        if i == t.len() {
            return false;
        }
        if i == s.len() {
            return true;
        }
        assert(s@.skip(i as int)[0] == s@[i as int]);
        assert(t@.skip(i as int)[0] == t@[i as int]);
        if s[i] != t[i] {
            return s[i] < t[i];
        }
        assert(s@.skip(i as int).drop_first() =~= s@.skip(i + 1));
        assert(t@.skip(i as int).drop_first() =~= t@.skip(i + 1));
        i = i + 1;
    }
}

/// Whether two key blocks are the same.
fn parte_igual(a: &Parte, b: &Parte) -> (r: bool)
    ensures
        r == (a@ == b@),
{
    match (a, b) {
        (Parte::Num(x), Parte::Num(y)) => *x == *y,
        (Parte::Txt(x), Parte::Txt(y)) => crate::util::mesmas(&chars_of(x.as_str()), &chars_of(y.as_str())),
        _ => false,
    }
}

/// Whether block `a` comes strictly before block `b`.
fn parte_menor(a: &Parte, b: &Parte) -> (r: bool)
    ensures
        r == parte_lt(a@, b@),
{
    match (a, b) {
        (Parte::Num(x), Parte::Num(y)) => *x < *y,
        (Parte::Num(_), Parte::Txt(_)) => true,
        (Parte::Txt(_), Parte::Num(_)) => false,
        (Parte::Txt(x), Parte::Txt(y)) => texto_menor(&chars_of(x.as_str()), &chars_of(y.as_str())),
    }
}

/// Whether key `a` comes strictly before key `b`.
pub fn chave_menor(a: &Vec<Parte>, b: &Vec<Parte>) -> (r: bool)
    ensures
        r == chave_lt(partes_view(a@), partes_view(b@)),
{
    let ghost ka = partes_view(a@);
    let ghost kb = partes_view(b@);
    let mut i: usize = 0;
    assert(ka.skip(0) =~= ka);
    assert(kb.skip(0) =~= kb);
    loop
        invariant
            ka == partes_view(a@),
            kb == partes_view(b@),
            i <= a.len(),
            i <= b.len(),
            chave_lt(ka, kb) == chave_lt(ka.skip(i as int), kb.skip(i as int)),
        decreases a.len() - i,
    {
        if i == b.len() {
            return false;
        }
        if i == a.len() {
            return true;
        }
        assert(ka.skip(i as int)[0] == a@[i as int]@);
        assert(kb.skip(i as int)[0] == b@[i as int]@);
        if !parte_igual(&a[i], &b[i]) {
            return parte_menor(&a[i], &b[i]);
        }
        assert(ka.skip(i as int).drop_first() =~= ka.skip(i + 1));
        assert(kb.skip(i as int).drop_first() =~= kb.skip(i + 1));
        i = i + 1;
    }
}

/// The position of the first least key (see `primeiro_min`).
pub fn posicao_minima(ks: &Vec<Vec<Parte>>) -> (r: usize)
    requires
        ks.len() > 0,
    ensures
        r == primeiro_min(ks@.map_values(|k: Vec<Parte>| partes_view(k@))),
{
    let ghost kv = ks@.map_values(|k: Vec<Parte>| partes_view(k@));
    let mut b: usize = 0;
    let mut i: usize = 1;
    assert(kv.take(1).len() == 1);
    while i < ks.len()
        invariant
            kv == ks@.map_values(|k: Vec<Parte>| partes_view(k@)),
            1 <= i <= ks.len(),
            b == primeiro_min(kv.take(i as int)),
            b < i,
        decreases ks.len() - i,
    {
        proof {
            lemma_primeiro_min(kv.take(i as int));
        }
        assert(kv.take(i + 1).drop_last() =~= kv.take(i as int));
        assert(kv.take(i + 1).last() == partes_view(ks@[i as int]@));
        assert(kv.take(i + 1)[b as int] == partes_view(ks@[b as int]@));
        if chave_menor(&ks[i], &ks[b]) {
            b = i;
        }
        i = i + 1;
    }
    assert(kv.take(ks.len() as int) =~= kv);
    b
}

/// The names in natural order (`natural_key`), equal keys keeping their order.
pub fn ordenar_natural(nomes: &Vec<String>) -> (r: Vec<String>)
    ensures
        r@.map_values(|n: String| n@) == ordenado(nomes@.map_values(|n: String| n@)),
{
    let ghost alvo = ordenado(nomes@.map_values(|n: String| n@));
    let mut resto: Vec<String> = Vec::new();
    let mut ks: Vec<Vec<Parte>> = Vec::new();
    for i in 0..nomes.len()
        invariant
            resto@.map_values(|n: String| n@) == nomes@.map_values(|n: String| n@).take(i as int),
            ks@.map_values(|k: Vec<Parte>| partes_view(k@)) == chaves(resto@.map_values(|n: String| n@)),
    {
        let n = nomes[i].clone();
        let k = natural_key(n.as_str());
        let ghost r0 = resto@;
        let ghost k0 = ks@;
        resto.push(n);
        ks.push(k);
        assert(resto@.map_values(|n: String| n@) =~= r0.map_values(|n: String| n@).push(n@));
        assert(ks@.map_values(|k: Vec<Parte>| partes_view(k@)) =~= k0.map_values(
            |k: Vec<Parte>| partes_view(k@),
        ).push(partes_view(k@)));
        assert(chaves(resto@.map_values(|n: String| n@)) =~= chaves(r0.map_values(|n: String| n@)).push(
            key_spec(n@),
        ));
        assert(resto@.map_values(|n: String| n@) =~= nomes@.map_values(|n: String| n@).take(i + 1));
        assert(ks@.map_values(|k: Vec<Parte>| partes_view(k@)) =~= chaves(resto@.map_values(|n: String| n@)));
    }
    assert(nomes@.map_values(|n: String| n@).take(nomes.len() as int) =~= nomes@.map_values(|n: String| n@));
    let mut out: Vec<String> = Vec::new();
    assert(out@.map_values(|n: String| n@) + alvo =~= alvo);
    while resto.len() > 0
        invariant
            ks@.map_values(|k: Vec<Parte>| partes_view(k@)) == chaves(resto@.map_values(|n: String| n@)),
            alvo == out@.map_values(|n: String| n@) + ordenado(resto@.map_values(|n: String| n@)),
        decreases resto.len(),
    {
        let ghost rv = resto@.map_values(|n: String| n@);
        proof {
            lemma_primeiro_min(chaves(rv));
        }
        let i = posicao_minima(&ks);
        let ghost kk = ks@;
        let n = resto.remove(i);
        let _k = ks.remove(i);
        assert(ks@.map_values(|k: Vec<Parte>| partes_view(k@)) =~= kk.map_values(
            |k: Vec<Parte>| partes_view(k@),
        ).remove(i as int));
        let ghost o0 = out@;
        out.push(n);
        assert(resto@.map_values(|n: String| n@) =~= rv.remove(i as int));
        assert(ks@.map_values(|k: Vec<Parte>| partes_view(k@)) =~= chaves(resto@.map_values(|n: String| n@)));
        assert(out@.map_values(|n: String| n@) =~= o0.map_values(|n: String| n@).push(n@));
        assert(ordenado(rv) == seq![rv[i as int]] + ordenado(rv.remove(i as int)));
        assert(alvo =~= out@.map_values(|n: String| n@) + ordenado(resto@.map_values(|n: String| n@)));
    }
    assert(ordenado(resto@.map_values(|n: String| n@)) =~= Seq::<Seq<char>>::empty());
    assert(alvo =~= out@.map_values(|n: String| n@));
    out
}

// ─── Laws of the natural order ─────────────────────────────────────────────

proof fn lemma_lower_idem(c: char)
    ensures
        ascii_lower(ascii_lower(c)) == ascii_lower(c),
        is_digit(ascii_lower(c)) == is_digit(c),
{
}

proof fn lemma_run_len_lower(s: Seq<char>, digits: bool)
    ensures
        run_len(s.map_values(|c: char| ascii_lower(c)), digits) == run_len(s, digits),
    decreases s.len(),
{
    let l = s.map_values(|c: char| ascii_lower(c));
    if s.len() > 0 {
        lemma_lower_idem(s[0]);
        assert(l.drop_first() =~= s.drop_first().map_values(|c: char| ascii_lower(c)));
        lemma_run_len_lower(s.drop_first(), digits);
    }
}

/// Text blocks ignore ASCII case: a name and its ASCII lower-case form have
/// the same key, so neither comes before the other.
pub proof fn lemma_chave_ignora_caixa(s: Seq<char>)
    ensures
        key_spec(s.map_values(|c: char| ascii_lower(c))) == key_spec(s),
    decreases s.len(),
{
    let l = s.map_values(|c: char| ascii_lower(c));
    if s.len() > 0 {
        lemma_lower_idem(s[0]);
        let dig = is_digit(s[0]);
        lemma_run_len_lower(s, dig);
        lemma_run_len(s, dig);
        let k = run_len(s, dig) as int;
        assert(l.skip(k) =~= s.skip(k).map_values(|c: char| ascii_lower(c)));
        lemma_chave_ignora_caixa(s.skip(k));
        if dig {
            assert forall|j: int| 0 <= j < k implies l.take(k)[j] == s.take(k)[j] by {
                assert(is_digit(s[j]));
            }
            assert(l.take(k) =~= s.take(k));
        } else {
            let lk = l.take(k).map_values(|c: char| ascii_lower(c));
            let sk = s.take(k).map_values(|c: char| ascii_lower(c));
            assert forall|j: int| 0 <= j < k implies #[trigger] lk[j] == sk[j] by {
                lemma_lower_idem(s[j]);
            }
            assert(lk =~= sk);
        }
    }
}

proof fn lemma_dec_digits(n: nat)
    ensures
        dec_digits(n).len() > 0,
        forall|j: int| 0 <= j < dec_digits(n).len() ==> is_digit(#[trigger] dec_digits(n)[j]),
        digits_value(dec_digits(n), 10) == Some(n),
    decreases n,
{
    let c = digit_char(n % 10);
    assert(c as int == n % 10 + 48);
    assert(digit_value(c, 10) == Some((n % 10) as nat));
    let d = dec_digits(n);
    if n >= 10 {
        lemma_dec_digits(n / 10);
        assert(d.drop_last() == dec_digits(n / 10));
        assert(d.last() == c);
        assert(forall|j: int| 0 <= j < d.len() - 1 ==> d[j] == dec_digits(n / 10)[j]);
        assert((n / 10) * 10 + n % 10 == n);
        assert(digits_value(d.drop_last(), 10) == Some(n / 10));
        assert(digits_value(d, 10) == Some((n / 10) * 10 + n % 10));
    } else {
        assert(d.drop_last() =~= Seq::<char>::empty());
        assert(d.last() == c);
        assert(digits_value(d.drop_last(), 10) == Some(0nat));
        assert(n % 10 == n);
        assert(digits_value(d, 10) == Some(0nat * 10 + n % 10));
    }
}

/// The key of a name made of digit-free text `t` and then the decimal digits
/// of `n`: a text block (when `t` is not empty), then `n`.
proof fn lemma_chave_texto_numero(t: Seq<char>, n: u64)
    requires
        forall|i: int| 0 <= i < t.len() ==> !is_digit(#[trigger] t[i]),
    ensures
        key_spec(t + dec_digits(n as nat)) == if t.len() == 0 {
            seq![ParteV::Num(n)]
        } else {
            seq![ParteV::Txt(t.map_values(|c: char| ascii_lower(c))), ParteV::Num(n)]
        },
{
    let d = dec_digits(n as nat);
    lemma_dec_digits(n as nat);
    lemma_run_len(d, true);
    let kd = run_len(d, true) as int;
    if kd < d.len() {
        assert(is_digit(d[kd]));
    }
    assert(d.take(kd) =~= d);
    assert(d.skip(kd) =~= Seq::<char>::empty());
    assert(key_spec(Seq::<char>::empty()) == Seq::<ParteV>::empty());
    assert(key_spec(d) =~= seq![ParteV::Num(n)]);
    if t.len() == 0 {
        assert(t + d =~= d);
    } else {
        let s = t + d;
        assert(s[0] == t[0]);
        lemma_run_len(s, false);
        let k = run_len(s, false) as int;
        if k < t.len() {
            assert(s[k] == t[k]);
        }
        if k > t.len() {
            assert(s[t.len() as int] == d[0]);
        }
        assert(k == t.len());
        assert(s.take(k) =~= t);
        assert(s.skip(k) =~= d);
    }
}

/// Number blocks compare by value: after the same digit-free text, the name
/// ending in a smaller number comes first ("img_2" before "img_10").
pub proof fn lemma_numeros_por_valor(t: Seq<char>, a: u64, b: u64)
    requires
        forall|i: int| 0 <= i < t.len() ==> !is_digit(#[trigger] t[i]),
        a < b,
    ensures
        nome_lt(t + dec_digits(a as nat), t + dec_digits(b as nat)),
{
    lemma_chave_texto_numero(t, a);
    lemma_chave_texto_numero(t, b);
    let ka = key_spec(t + dec_digits(a as nat));
    let kb = key_spec(t + dec_digits(b as nat));
    let na = seq![ParteV::Num(a)];
    let nb = seq![ParteV::Num(b)];
    assert(na[0] != nb[0]);
    assert(chave_lt(na, nb));
    if t.len() > 0 {
        assert(ka.drop_first() =~= na);
        assert(kb.drop_first() =~= nb);
        assert(ka[0] == kb[0]);
    }
    assert(chave_lt(ka, kb));
}

} // verus!
