//! Shared helpers: natural ordering, text normalisation, dates, and the byte
//! and character scanners used to read XML.

use vstd::prelude::*;

use crate::texto::{
    ascii_lower, char_from_u32, char_is_alphanumeric, char_to_ascii_lowercase, char_is_whitespace, char_to_lowercase, chars_of, is_alnum,
    is_scalar_value, is_ws, lower_chars, string_of,
};

verus! {

/// `n` occurs in `h` at position `p`.
pub open spec fn occurs_at<T>(h: Seq<T>, p: int, n: Seq<T>) -> bool {
    0 <= p && p + n.len() <= h.len() && h.subrange(p, p + n.len()) == n
}

/// The first position at or after `from` where `n` occurs in `h`; `None` when
/// `from` lies past the end, when `n` is empty, or when there is no occurrence.
pub open spec fn find_spec<T>(h: Seq<T>, from: int, n: Seq<T>) -> Option<int>
    decreases h.len() - from,
{
    if from < 0 || from > h.len() || n.len() == 0 || from + n.len() > h.len() {
        None
    } else if occurs_at(h, from, n) {
        Some(from)
    } else {
        find_spec(h, from + 1, n)
    }
}

/// Characterisation of `find_spec` as the first occurrence.
pub proof fn lemma_find_spec<T>(h: Seq<T>, from: int, n: Seq<T>)
    ensures
        match find_spec(h, from, n) {
            Some(p) => {
                &&& 0 <= from <= p
                &&& occurs_at(h, p, n)
                &&& n.len() > 0
                &&& forall|q: int| from <= q < p ==> !occurs_at(h, q, n)
            },
            None => from < 0 || from > h.len() || n.len() == 0 || forall|q: int|
                from <= q ==> !occurs_at(h, q, n),
        },
    decreases h.len() - from,
{
    if from < 0 || from > h.len() || n.len() == 0 || from + n.len() > h.len() {
    } else if occurs_at(h, from, n) {
    } else {
        lemma_find_spec(h, from + 1, n);
    }
}

/// Finds `needle` in `hay` starting at `from`; the index is absolute.
pub fn find_from(hay: &[u8], from: usize, needle: &[u8]) -> (r: Option<usize>)
    ensures
        r matches Some(p) ==> find_spec(hay@, from as int, needle@) == Some(p as int),
        r is None ==> find_spec(hay@, from as int, needle@) is None,
{
    if from > hay.len() || needle.len() == 0 {
        return None;
    }
    let mut i = from;
    while needle.len() <= hay.len() - i
        invariant
            from <= i <= hay.len(),
            needle.len() > 0,
            find_spec(hay@, from as int, needle@) == find_spec(hay@, i as int, needle@),
        decreases hay.len() - i,
    {
        let mut j: usize = 0;
        let mut igual = true;
        while j < needle.len()
            invariant
                i + needle.len() <= hay.len(),
                j <= needle.len(),
                igual == (forall|k: int| 0 <= k < j ==> hay@[i + k] == needle@[k]),
            decreases needle.len() - j,
        {
            if hay[i + j] != needle[j] {
                igual = false;
            }
            j = j + 1;
        }
        if igual {
            assert(hay@.subrange(i as int, i + needle.len()) =~= needle@);
            return Some(i);
        }
        assert(!occurs_at(hay@, i as int, needle@)) by {
            if occurs_at(hay@, i as int, needle@) {
                assert(forall|k: int| 0 <= k < needle.len() ==> hay@[i + k]
                    == #[trigger] hay@.subrange(i as int, i + needle.len())[k]);
            }
        }
        i = i + 1;
    }
    None
}


// ─── Accents, sanitising, trimming ─────────────────────────────────────────

/// The base letter of an accented Portuguese/Spanish letter; other characters
/// are left alone.
pub open spec fn sem_acento(c: char) -> char {
    if c == '\u{e1}' || c == '\u{e0}' || c == '\u{e3}' || c == '\u{e2}' || c == '\u{e4}'
        || c == '\u{c1}' || c == '\u{c0}' || c == '\u{c3}' || c == '\u{c2}' || c == '\u{c4}' {
        'a'
    } else if c == '\u{e9}' || c == '\u{e8}' || c == '\u{ea}' || c == '\u{eb}' || c == '\u{c9}'
        || c == '\u{c8}' || c == '\u{ca}' || c == '\u{cb}' {
        'e'
    } else if c == '\u{ed}' || c == '\u{ec}' || c == '\u{ee}' || c == '\u{ef}' || c == '\u{cd}'
        || c == '\u{cc}' || c == '\u{ce}' || c == '\u{cf}' {
        'i'
    } else if c == '\u{f3}' || c == '\u{f2}' || c == '\u{f5}' || c == '\u{f4}' || c == '\u{f6}'
        || c == '\u{d3}' || c == '\u{d2}' || c == '\u{d5}' || c == '\u{d4}' || c == '\u{d6}' {
        'o'
    } else if c == '\u{fa}' || c == '\u{f9}' || c == '\u{fb}' || c == '\u{fc}' || c == '\u{da}'
        || c == '\u{d9}' || c == '\u{db}' || c == '\u{dc}' {
        'u'
    } else if c == '\u{e7}' || c == '\u{c7}' {
        'c'
    } else if c == '\u{f1}' || c == '\u{d1}' {
        'n'
    } else {
        c
    }
}

fn char_sem_acento(c: char) -> (r: char)
    ensures
        r == sem_acento(c),
{
    if c == '\u{e1}' || c == '\u{e0}' || c == '\u{e3}' || c == '\u{e2}' || c == '\u{e4}'
        || c == '\u{c1}' || c == '\u{c0}' || c == '\u{c3}' || c == '\u{c2}' || c == '\u{c4}' {
        'a'
    } else if c == '\u{e9}' || c == '\u{e8}' || c == '\u{ea}' || c == '\u{eb}' || c == '\u{c9}'
        || c == '\u{c8}' || c == '\u{ca}' || c == '\u{cb}' {
        'e'
    } else if c == '\u{ed}' || c == '\u{ec}' || c == '\u{ee}' || c == '\u{ef}' || c == '\u{cd}'
        || c == '\u{cc}' || c == '\u{ce}' || c == '\u{cf}' {
        'i'
    } else if c == '\u{f3}' || c == '\u{f2}' || c == '\u{f5}' || c == '\u{f4}' || c == '\u{f6}'
        || c == '\u{d3}' || c == '\u{d2}' || c == '\u{d5}' || c == '\u{d4}' || c == '\u{d6}' {
        'o'
    } else if c == '\u{fa}' || c == '\u{f9}' || c == '\u{fb}' || c == '\u{fc}' || c == '\u{da}'
        || c == '\u{d9}' || c == '\u{db}' || c == '\u{dc}' {
        'u'
    } else if c == '\u{e7}' || c == '\u{c7}' {
        'c'
    } else if c == '\u{f1}' || c == '\u{d1}' {
        'n'
    } else {
        c
    }
}

fn chars_sem_acento(v: &Vec<char>) -> (r: Vec<char>)
    ensures
        r@ == v@.map_values(|c: char| sem_acento(c)),
{
    let mut out: Vec<char> = Vec::new();
    for i in 0..v.len()
        invariant
            out@ == v@.take(i as int).map_values(|c: char| sem_acento(c)),
    {
        out.push(char_sem_acento(v[i]));
        assert(v@.take(i + 1).map_values(|c: char| sem_acento(c)) =~= out@);
    }
    assert(v@.take(v.len() as int) =~= v@);
    out
}

/// Replaces accented letters by their base letter (a, e, i, o, u, c, n).
pub fn strip_accents(s: &str) -> (r: String)
    ensures
        r@ == s@.map_values(|c: char| sem_acento(c)),
{
    let v = chars_of(s);
    let w = chars_sem_acento(&v);
    string_of(w.as_slice())
}

/// Characters that file and folder names cannot hold.
pub open spec fn proibido_em_nome(c: char) -> bool {
    c == '/' || c == '\\' || c == ':' || c == '*' || c == '?' || c == '"' || c == '<' || c == '>'
        || c == '|'
}

/// `s` without its leading whitespace.
pub open spec fn trim_start_spec(s: Seq<char>) -> Seq<char>
    decreases s.len(),
{
    if s.len() > 0 && is_ws(s[0]) {
        trim_start_spec(s.drop_first())
    } else {
        s
    }
}

/// `s` without its trailing whitespace.
pub open spec fn trim_end_spec(s: Seq<char>) -> Seq<char>
    decreases s.len(),
{
    if s.len() > 0 && is_ws(s.last()) {
        trim_end_spec(s.drop_last())
    } else {
        s
    }
}

/// `s` without leading and trailing whitespace, as `str::trim` gives it.
pub open spec fn trim_spec(s: Seq<char>) -> Seq<char> {
    trim_end_spec(trim_start_spec(s))
}

proof fn lemma_trim_start_skip(s: Seq<char>, i: int)
    requires
        0 <= i <= s.len(),
        forall|k: int| 0 <= k < i ==> is_ws(#[trigger] s[k]),
    ensures
        trim_start_spec(s) == trim_start_spec(s.skip(i)),
    decreases i,
{
    if i > 0 {
        assert(s.skip(1) =~= s.drop_first());
        lemma_trim_start_skip(s.drop_first(), i - 1);
        assert(s.drop_first().skip(i - 1) =~= s.skip(i));
    } else {
        assert(s.skip(0) =~= s);
    }
}

proof fn lemma_trim_end_take(s: Seq<char>, j: int)
    requires
        0 <= j <= s.len(),
        forall|k: int| j <= k < s.len() ==> is_ws(#[trigger] s[k]),
    ensures
        trim_end_spec(s) == trim_end_spec(s.take(j)),
    decreases s.len() - j,
{
    if j < s.len() {
        lemma_trim_end_take(s.drop_last(), j);
        assert(s.drop_last().take(j) =~= s.take(j));
    } else {
        assert(s.take(j) =~= s);
    }
}

/// The characters of `v` without leading and trailing whitespace.
pub fn trim_chars(v: &Vec<char>) -> (r: Vec<char>)
    ensures
        r@ == trim_spec(v@),
{
    let mut i: usize = 0;
    while i < v.len() && char_is_whitespace(v[i])
        invariant
            i <= v.len(),
            forall|k: int| 0 <= k < i ==> is_ws(#[trigger] v@[k]),
        decreases v.len() - i,
    {
        i = i + 1;
    }
    proof {
        lemma_trim_start_skip(v@, i as int);
    }
    let mut j: usize = v.len();
    while j > i && char_is_whitespace(v[j - 1])
        invariant
            i <= j <= v.len(),
            forall|k: int| j <= k < v.len() ==> is_ws(#[trigger] v@[k]),
        decreases j,
    {
        j = j - 1;
    }
    let mut out: Vec<char> = Vec::new();
    let mut k: usize = i;
    while k < j
        invariant
            i <= k <= j <= v.len(),
            out@ == v@.subrange(i as int, k as int),
        decreases j - k,
    {
        out.push(v[k]);
        assert(out@ =~= v@.subrange(i as int, k + 1));
        k = k + 1;
    }
    proof {
        let t = v@.skip(i as int);
        assert(trim_start_spec(t) == t) by {
            if t.len() > 0 {
                assert(t[0] == v@[i as int]);
            }
        }
        assert(forall|q: int| (j - i) <= q < t.len() ==> is_ws(#[trigger] t[q]) ) by {
            assert forall|q: int| (j - i) <= q < t.len() implies is_ws(#[trigger] t[q]) by {
                assert(t[q] == v@[i + q]);
            }
        }
        lemma_trim_end_take(t, (j - i) as int);
        let u = t.take((j - i) as int);
        assert(u =~= out@);
        assert(trim_end_spec(u) == u) by {
            if u.len() > 0 {
                assert(u.last() == v@[j - 1]);
            }
        }
    }
    out
}

/// The character that replaces `c` in file and folder names.
pub open spec fn char_para_nome(c: char) -> char {
    if proibido_em_nome(c) {
        '_'
    } else {
        c
    }
}

/// Underscores in place of spaces.
pub open spec fn espaco_para_sublinhado(c: char) -> char {
    if c == ' ' {
        '_'
    } else {
        c
    }
}

/// What `sanitize` makes of a text.
pub open spec fn sanitize_spec(s: Seq<char>) -> Seq<char> {
    trim_spec(s.map_values(|c: char| char_para_nome(c))).map_values(
        |c: char| espaco_para_sublinhado(c),
    )
}

/// Makes a text usable as a file or folder name: the characters `/ \ : * ? " < > |`
/// become `_`, the text is trimmed, and spaces become `_`.
pub fn sanitize(s: &str) -> (r: String)
    ensures
        r@ == sanitize_spec(s@),
        forall|i: int| 0 <= i < r@.len() ==> !proibido_em_nome(#[trigger] r@[i]) && r@[i] != ' ',
{
    let v = chars_of(s);
    let mut a: Vec<char> = Vec::new();
    for i in 0..v.len()
        invariant
            v@ == s@,
            a@ == v@.take(i as int).map_values(|c: char| char_para_nome(c)),
    {
        let c = v[i];
        let d = if c == '/' || c == '\\' || c == ':' || c == '*' || c == '?' || c == '"' || c
            == '<' || c == '>' || c == '|' {
            '_'
        } else {
            c
        };
        a.push(d);
        assert(v@.take(i + 1).map_values(|c: char| char_para_nome(c)) =~= a@);
    }
    assert(v@.take(v.len() as int) =~= v@);
    let t = trim_chars(&a);
    proof {
        lemma_trim_subrange(a@);
    }
    let mut out: Vec<char> = Vec::new();
    for i in 0..t.len()
        invariant
            out@ == t@.take(i as int).map_values(|c: char| espaco_para_sublinhado(c)),
    {
        let c = t[i];
        out.push(if c == ' ' { '_' } else { c });
        assert(t@.take(i + 1).map_values(|c: char| espaco_para_sublinhado(c)) =~= out@);
    }
    assert(t@.take(t.len() as int) =~= t@);
    proof {
        assert forall|i: int| 0 <= i < out@.len() implies !proibido_em_nome(#[trigger] out@[i])
            && out@[i] != ' ' by {
            let (lo, hi) = choose|lo: int, hi: int|
                0 <= lo <= hi <= a@.len() && #[trigger] trim_spec(a@) == a@.subrange(lo, hi);
            assert(t@[i] == a@[lo + i]);
        }
    }
    string_of(out.as_slice())
}

proof fn lemma_trim_start_subrange(s: Seq<char>)
    ensures
        exists|lo: int| 0 <= lo <= s.len() && #[trigger] trim_start_spec(s) == s.skip(lo),
    decreases s.len(),
{
    if s.len() > 0 && is_ws(s[0]) {
        lemma_trim_start_subrange(s.drop_first());
        let lo = choose|lo: int|
            0 <= lo <= s.drop_first().len() && #[trigger] trim_start_spec(s.drop_first())
                == s.drop_first().skip(lo);
        assert(s.drop_first().skip(lo) =~= s.skip(lo + 1));
    } else {
        assert(s.skip(0) =~= s);
    }
}

proof fn lemma_trim_end_subrange(s: Seq<char>)
    ensures
        exists|hi: int| 0 <= hi <= s.len() && #[trigger] trim_end_spec(s) == s.take(hi),
    decreases s.len(),
{
    if s.len() > 0 && is_ws(s.last()) {
        lemma_trim_end_subrange(s.drop_last());
        let hi = choose|hi: int|
            0 <= hi <= s.drop_last().len() && #[trigger] trim_end_spec(s.drop_last())
                == s.drop_last().take(hi);
        assert(s.drop_last().take(hi) =~= s.take(hi));
    } else {
        assert(s.take(s.len() as int) =~= s);
    }
}

/// A trimmed text is a contiguous part of the text it was trimmed from.
pub proof fn lemma_trim_subrange(s: Seq<char>)
    ensures
        exists|lo: int, hi: int| 0 <= lo <= hi <= s.len() && #[trigger] trim_spec(s) == s.subrange(lo, hi),
{
    lemma_trim_start_subrange(s);
    let lo = choose|lo: int| 0 <= lo <= s.len() && #[trigger] trim_start_spec(s) == s.skip(lo);
    let u = s.skip(lo);
    lemma_trim_end_subrange(u);
    let hi = choose|hi: int| 0 <= hi <= u.len() && #[trigger] trim_end_spec(u) == u.take(hi);
    assert(u.take(hi) =~= s.subrange(lo, lo + hi));
}

/// The first `n` characters of `s` (all of them when there are fewer), trimmed.
pub open spec fn truncar_spec(s: Seq<char>, n: nat) -> Seq<char> {
    trim_spec(if n < s.len() { s.take(n as int) } else { s })
}

/// Cuts a text to at most `n` characters (not bytes) and trims it.
pub fn truncar(s: &str, n: usize) -> (r: String)
    ensures
        r@ == truncar_spec(s@, n as nat),
        r@.len() <= n,
{
    let v = chars_of(s);
    let mut a: Vec<char> = Vec::new();
    let lim = if n < v.len() { n } else { v.len() };
    for i in 0..lim
        invariant
            lim <= v.len(),
            a@ == v@.take(i as int),
    {
        a.push(v[i]);
        assert(a@ =~= v@.take(i + 1));
    }
    assert(a@ =~= (if n < v@.len() { v@.take(n as int) } else { v@ }));
    let t = trim_chars(&a);
    proof {
        lemma_trim_subrange(a@);
    }
    string_of(t.as_slice())
}


// ─── Normalisation for comparisons ─────────────────────────────────────────

/// Whether `c` is alphanumeric: for ASCII, a digit or a letter; otherwise as
/// std's Unicode tables say (`is_alnum`).
pub open spec fn alfanumerico(c: char) -> bool {
    if (c as u32) < 128 {
        ('0' <= c && c <= '9') || ('a' <= c && c <= 'z') || ('A' <= c && c <= 'Z')
    } else {
        is_alnum(c)
    }
}

/// The lower-case form of `c`: for ASCII, its ASCII lower case; otherwise as
/// std's Unicode tables say (`lower_chars`).
pub open spec fn minusculo(c: char) -> Seq<char> {
    if (c as u32) < 128 {
        seq![ascii_lower(c)]
    } else {
        lower_chars(c)
    }
}

/// One step of `normalize`: alphanumeric characters are lower-cased and kept,
/// any run of other characters becomes one space between kept words.
pub open spec fn norm_step(st: (Seq<char>, bool), c: char) -> (Seq<char>, bool) {
    if alfanumerico(c) {
        ((if st.1 && st.0.len() > 0 { st.0.push(' ') } else { st.0 }) + minusculo(c), false)
    } else {
        (st.0, true)
    }
}

/// The output and the pending-space flag after reading all of `s`.
pub open spec fn norm_state(s: Seq<char>) -> (Seq<char>, bool)
    decreases s.len(),
{
    if s.len() == 0 {
        (Seq::empty(), false)
    } else {
        norm_step(norm_state(s.drop_last()), s.last())
    }
}

/// What `normalize` makes of a text.
pub open spec fn normalize_spec(s: Seq<char>) -> Seq<char> {
    norm_state(s.map_values(|c: char| sem_acento(c))).0
}

/// Normalises a text for comparisons: accents removed, lower case, every run
/// of non-alphanumeric characters collapsed to a single space between words
/// (none at either end).
pub fn normalize(s: &str) -> (r: String)
    ensures
        r@ == normalize_spec(s@),
{
    let v = chars_of(s);
    let sem = chars_sem_acento(&v);
    let mut out: Vec<char> = Vec::new();
    let mut pendente = false;
    for i in 0..sem.len()
        invariant
            (out@, pendente) == norm_state(sem@.take(i as int)),
    {
        let c = sem[i];
        assert(sem@.take(i + 1).drop_last() =~= sem@.take(i as int));
        if char_is_alphanumeric(c) {
            if pendente && out.len() > 0 {
                out.push(' ');
            }
            pendente = false;
            let low = char_to_lowercase(c);
            let ghost antes = out@;
            for k in 0..low.len()
                invariant
                    out@ == antes + low@.take(k as int),
            {
                out.push(low[k]);
                assert(out@ =~= antes + low@.take(k + 1));
            }
            assert(low@.take(low.len() as int) =~= low@);
        } else {
            pendente = true;
        }
    }
    assert(sem@.take(sem.len() as int) =~= sem@);
    string_of(out.as_slice())
}

// ─── XML escaping ──────────────────────────────────────────────────────────

/// The XML form of one character.
pub open spec fn escape_char(c: char) -> Seq<char> {
    if c == '&' {
        seq!['&', 'a', 'm', 'p', ';']
    } else if c == '<' {
        seq!['&', 'l', 't', ';']
    } else if c == '>' {
        seq!['&', 'g', 't', ';']
    } else if c == '"' {
        seq!['&', 'q', 'u', 'o', 't', ';']
    } else if c == '\'' {
        seq!['&', 'a', 'p', 'o', 's', ';']
    } else {
        seq![c]
    }
}

/// What `xml_escape` makes of a text.
pub open spec fn escape_spec(s: Seq<char>) -> Seq<char>
    decreases s.len(),
{
    if s.len() == 0 {
        Seq::empty()
    } else {
        escape_char(s[0]) + escape_spec(s.drop_first())
    }
}

proof fn lemma_escape_step(s: Seq<char>, i: int)
    requires
        0 <= i < s.len(),
    ensures
        escape_spec(s.skip(i)) == escape_char(s[i]) + escape_spec(s.skip(i + 1)),
{
    assert(s.skip(i).drop_first() =~= s.skip(i + 1));
}

/// Escaped characters, in the vector form used inside the library.
pub fn escape_chars(v: &Vec<char>) -> (r: Vec<char>)
    ensures
        r@ == escape_spec(v@),
{
    let mut out: Vec<char> = Vec::new();
    assert(v@.skip(0) =~= v@);
    assert(out@ + escape_spec(v@) =~= escape_spec(v@));
    for i in 0..v.len()
        invariant
            escape_spec(v@) == out@ + escape_spec(v@.skip(i as int)),
    {
        proof {
            lemma_escape_step(v@, i as int);
        }
        let c = v[i];
        if c == '&' {
            out.push('&');
            out.push('a');
            out.push('m');
            out.push('p');
            out.push(';');
        } else if c == '<' {
            out.push('&');
            out.push('l');
            out.push('t');
            out.push(';');
        } else if c == '>' {
            out.push('&');
            out.push('g');
            out.push('t');
            out.push(';');
        } else if c == '"' {
            out.push('&');
            out.push('q');
            out.push('u');
            out.push('o');
            out.push('t');
            out.push(';');
        } else if c == '\'' {
            out.push('&');
            out.push('a');
            out.push('p');
            out.push('o');
            out.push('s');
            out.push(';');
        } else {
            out.push(c);
        }
        assert(escape_spec(v@) =~= out@ + escape_spec(v@.skip(i + 1)));
    }
    assert(v@.skip(v.len() as int) =~= Seq::<char>::empty());
    assert(out@ + Seq::<char>::empty() =~= out@);
    out
}

/// Escapes the five XML special characters `& < > " '`.
pub fn xml_escape(s: &str) -> (r: String)
    ensures
        r@ == escape_spec(s@),
{
    let v = chars_of(s);
    let e = escape_chars(&v);
    string_of(e.as_slice())
}


// ─── Searching in character vectors ────────────────────────────────────────

/// `find_from` for characters: the first occurrence of `needle` in `hay` at or
/// after `from`.
pub fn find_chars(hay: &Vec<char>, from: usize, needle: &Vec<char>) -> (r: Option<usize>)
    ensures
        r matches Some(p) ==> find_spec(hay@, from as int, needle@) == Some(p as int),
        r is None ==> find_spec(hay@, from as int, needle@) is None,
{
    if from > hay.len() || needle.len() == 0 {
        return None;
    }
    let mut i = from;
    while needle.len() <= hay.len() - i
        invariant
            from <= i <= hay.len(),
            needle.len() > 0,
            find_spec(hay@, from as int, needle@) == find_spec(hay@, i as int, needle@),
        decreases hay.len() - i,
    {
        let mut j: usize = 0;
        let mut igual = true;
        while j < needle.len()
            invariant
                i + needle.len() <= hay.len(),
                j <= needle.len(),
                igual == (forall|k: int| 0 <= k < j ==> hay@[i + k] == needle@[k]),
            decreases needle.len() - j,
        {
            if hay[i + j] != needle[j] {
                igual = false;
            }
            j = j + 1;
        }
        if igual {
            assert(hay@.subrange(i as int, i + needle.len()) =~= needle@);
            return Some(i);
        }
        assert(!occurs_at(hay@, i as int, needle@)) by {
            if occurs_at(hay@, i as int, needle@) {
                assert(forall|k: int| 0 <= k < needle.len() ==> hay@[i + k]
                    == #[trigger] hay@.subrange(i as int, i + needle.len())[k]);
            }
        }
        i = i + 1;
    }
    None
}

/// The first occurrence of the single character `c` at or after `from`.
pub fn find_char(hay: &Vec<char>, from: usize, c: char) -> (r: Option<usize>)
    ensures
        r matches Some(p) ==> find_spec(hay@, from as int, seq![c]) == Some(p as int),
        r is None ==> find_spec(hay@, from as int, seq![c]) is None,
{
    let mut n: Vec<char> = Vec::new();
    n.push(c);
    assert(n@ =~= seq![c]);
    find_chars(hay, from, &n)
}

/// A search only looks at the part of the text from its start position on.
pub proof fn lemma_find_skip<T>(h: Seq<T>, from: int, k: int, n: Seq<T>)
    requires
        0 <= k <= from,
        k <= h.len(),
    ensures
        find_spec(h, from, n) == (match find_spec(h.skip(k), from - k, n) {
            Some(p) => Some(p + k),
            None => None::<int>,
        }),
    decreases h.len() - from,
{
    if from < 0 || from > h.len() || n.len() == 0 || from + n.len() > h.len() {
    } else {
        assert(occurs_at(h, from, n) == occurs_at(h.skip(k), from - k, n)) by {
            if from + n.len() <= h.len() {
                assert(h.subrange(from, from + n.len()) =~= h.skip(k).subrange(
                    from - k,
                    from - k + n.len(),
                ));
            }
        }
        if !occurs_at(h, from, n) {
            lemma_find_skip(h, from + 1, k, n);
        }
    }
}

// ─── Numbers in text ───────────────────────────────────────────────────────

/// The value of `c` as a digit in base `radix` (up to 36), as `char::to_digit` reads it.
pub open spec fn digit_value(c: char, radix: nat) -> Option<nat> {
    let v: int = if '0' <= c && c <= '9' {
        c as int - '0' as int
    } else if 'a' <= c && c <= 'z' {
        c as int - 'a' as int + 10
    } else if 'A' <= c && c <= 'Z' {
        c as int - 'A' as int + 10
    } else {
        99
    };
    if v < radix {
        Some(v as nat)
    } else {
        None
    }
}

/// The number that the digits `d` write in base `radix`; `None` when one of
/// them is not a digit of that base.
pub open spec fn digits_value(d: Seq<char>, radix: nat) -> Option<nat>
    decreases d.len(),
{
    if d.len() == 0 {
        Some(0)
    } else {
        match (digits_value(d.drop_last(), radix), digit_value(d.last(), radix)) {
            (Some(a), Some(b)) => Some(a * radix + b),
            _ => None,
        }
    }
}

/// What `u32::from_str_radix` gives for `s`: an optional `+`, then at least
/// one digit of the base, and a value that fits in a `u32`.
pub open spec fn parse_u32_spec(s: Seq<char>, radix: nat) -> Option<u32> {
    let d = if s.len() > 0 && s[0] == '+' {
        s.drop_first()
    } else {
        s
    };
    if d.len() == 0 {
        None
    } else {
        match digits_value(d, radix) {
            Some(v) => if v <= u32::MAX {
                Some(v as u32)
            } else {
                None
            },
            None => None,
        }
    }
}

/// A prefix of a valid digit string has a value, no larger than the whole.
pub proof fn lemma_digits_prefix(d: Seq<char>, radix: nat, k: int)
    requires
        0 <= k <= d.len(),
        radix >= 1,
    ensures
        digits_value(d, radix) matches Some(v) ==> (digits_value(d.take(k), radix) matches Some(
            w,
        ) && w <= v),
    decreases d.len(),
{
    if k == d.len() {
        assert(d.take(k) =~= d);
    } else {
        lemma_digits_prefix(d.drop_last(), radix, k);
        assert(d.drop_last().take(k) =~= d.take(k));
        if let Some(v) = digits_value(d, radix) {
            let a = digits_value(d.drop_last(), radix)->0;
            assert(a * radix >= a) by (nonlinear_arith)
                requires
                    radix >= 1,
            ;
        }
    }
}

/// Reads `v[lo..hi]` as a `u32` in base 10 or 16, as `u32::from_str_radix` does.
pub fn parse_u32_radix(v: &Vec<char>, lo: usize, hi: usize, radix: u32) -> (r: Option<u32>)
    requires
        lo <= hi <= v.len(),
        radix == 10 || radix == 16,
    ensures
        r == parse_u32_spec(v@.subrange(lo as int, hi as int), radix as nat),
{
    let ghost s = v@.subrange(lo as int, hi as int);
    let mut ini = lo;
    if lo < hi && v[lo] == '+' {
        ini = lo + 1;
    }
    let ghost d = v@.subrange(ini as int, hi as int);
    assert(d =~= (if s.len() > 0 && s[0] == '+' { s.drop_first() } else { s }));
    if ini == hi {
        return None;
    }
    let mut acc: u64 = 0;
    let mut i = ini;
    assert(d.take(0) =~= Seq::<char>::empty());
    while i < hi
        invariant
            ini <= i <= hi <= v.len(),
            d == v@.subrange(ini as int, hi as int),
            s == v@.subrange(lo as int, hi as int),
            d == (if s.len() > 0 && s[0] == '+' { s.drop_first() } else { s }),
            d.len() > 0,
            radix == 10 || radix == 16,
            digits_value(d.take(i - ini), radix as nat) == Some(acc as nat),
            acc <= u32::MAX,
        decreases hi - i,
    {
        let c = v[i];
        let dv: u32 = if '0' <= c && c <= '9' {
            (c as u32) - ('0' as u32)
        } else if 'a' <= c && c <= 'z' {
            (c as u32) - ('a' as u32) + 10
        } else if 'A' <= c && c <= 'Z' {
            (c as u32) - ('A' as u32) + 10
        } else {
            99
        };
        assert(d.take(i + 1 - ini).drop_last() =~= d.take(i - ini));
        assert(d.take(i + 1 - ini).last() == c);
        if dv >= radix {
            proof {
                lemma_digits_prefix(d, radix as nat, i + 1 - ini);
            }
            return None;
        }
        assert(acc * (radix as u64) <= 0xffff_ffffu64 * 16) by (nonlinear_arith)
            requires
                acc <= 0xffff_ffffu64,
                radix <= 16,
        ;
        let novo: u64 = acc * (radix as u64) + (dv as u64);
        if novo > 0xffff_ffffu64 {
            proof {
                lemma_digits_prefix(d, radix as nat, i + 1 - ini);
            }
            return None;
        }
        acc = novo;
        i = i + 1;
    }
    assert(d.take(hi - ini) =~= d);
    Some(acc as u32)
}

// ─── XML unescaping ────────────────────────────────────────────────────────

/// The character that an XML entity name (what stands between `&` and `;`)
/// stands for: the five named entities and decimal or hexadecimal character
/// references.
pub open spec fn entidade(e: Seq<char>) -> Option<char> {
    if e == seq!['a', 'm', 'p'] {
        Some('&')
    } else if e == seq!['l', 't'] {
        Some('<')
    } else if e == seq!['g', 't'] {
        Some('>')
    } else if e == seq!['q', 'u', 'o', 't'] {
        Some('"')
    } else if e == seq!['a', 'p', 'o', 's'] {
        Some('\'')
    } else if e.len() >= 2 && e[0] == '#' && (e[1] == 'x' || e[1] == 'X') {
        code_to_char(parse_u32_spec(e.skip(2), 16))
    } else if e.len() >= 1 && e[0] == '#' {
        code_to_char(parse_u32_spec(e.skip(1), 10))
    } else {
        None
    }
}

/// The character with the given code, when there is one.
pub open spec fn code_to_char(v: Option<u32>) -> Option<char> {
    match v {
        Some(x) => if is_scalar_value(x) {
            Some(x as char)
        } else {
            None
        },
        None => None,
    }
}

/// What `xml_unescape` makes of `s` from position `i` on: an `&` followed
/// (before the next `;`) by a known entity becomes that character; every other
/// character is copied.
pub open spec fn unescape_from(s: Seq<char>, i: int) -> Seq<char>
    decreases s.len() - i,
{
    if i < 0 || i >= s.len() {
        Seq::empty()
    } else if s[i] == '&' && find_spec(s, i, seq![';']) is Some && entidade(
        s.subrange(i + 1, find_spec(s, i, seq![';'])->0),
    ) is Some {
        proof {
            lemma_find_spec(s, i, seq![';']);
        }
        seq![entidade(s.subrange(i + 1, find_spec(s, i, seq![';'])->0))->0] + unescape_from(
            s,
            find_spec(s, i, seq![';'])->0 + 1,
        )
    } else {
        seq![s[i]] + unescape_from(s, i + 1)
    }
}

/// What `xml_unescape` makes of a text.
pub open spec fn unescape_spec(s: Seq<char>) -> Seq<char> {
    unescape_from(s, 0)
}

fn eh_palavra(v: &Vec<char>, lo: usize, hi: usize, w: &Vec<char>) -> (r: bool)
    requires
        lo <= hi <= v.len(),
    ensures
        r == (v@.subrange(lo as int, hi as int) == w@),
{
    if hi - lo != w.len() {
        assert(v@.subrange(lo as int, hi as int).len() != w@.len());
        return false;
    }
    let mut k: usize = 0;
    while k < w.len()
        invariant
            hi - lo == w.len(),
            lo <= hi <= v.len(),
            k <= w.len(),
            forall|q: int| 0 <= q < k ==> v@[lo + q] == w@[q],
        decreases w.len() - k,
    {
        if v[lo + k] != w[k] {
            assert(v@.subrange(lo as int, hi as int)[k as int] != w@[k as int]);
            return false;
        }
        k = k + 1;
    }
    assert(v@.subrange(lo as int, hi as int) =~= w@);
    true
}

/// The character that the entity `v[lo..hi]` stands for.
fn decodificar_entidade(v: &Vec<char>, lo: usize, hi: usize) -> (r: Option<char>)
    requires
        lo <= hi <= v.len(),
    ensures
        r == entidade(v@.subrange(lo as int, hi as int)),
{
    let ghost e = v@.subrange(lo as int, hi as int);
    let amp = vec!['a', 'm', 'p'];
    let lt = vec!['l', 't'];
    let gt = vec!['g', 't'];
    let quot = vec!['q', 'u', 'o', 't'];
    let apos = vec!['a', 'p', 'o', 's'];
    assert(amp@ =~= seq!['a', 'm', 'p']);
    assert(lt@ =~= seq!['l', 't']);
    assert(gt@ =~= seq!['g', 't']);
    assert(quot@ =~= seq!['q', 'u', 'o', 't']);
    assert(apos@ =~= seq!['a', 'p', 'o', 's']);
    if eh_palavra(v, lo, hi, &amp) {
        return Some('&');
    }
    if eh_palavra(v, lo, hi, &lt) {
        return Some('<');
    }
    if eh_palavra(v, lo, hi, &gt) {
        return Some('>');
    }
    if eh_palavra(v, lo, hi, &quot) {
        return Some('"');
    }
    if eh_palavra(v, lo, hi, &apos) {
        return Some('\'');
    }
    let codigo = if hi - lo >= 2 && v[lo] == '#' && (v[lo + 1] == 'x' || v[lo + 1] == 'X') {
        assert(e.skip(2) =~= v@.subrange(lo + 2, hi as int));
        parse_u32_radix(v, lo + 2, hi, 16)
    } else if hi - lo >= 1 && v[lo] == '#' {
        assert(e.skip(1) =~= v@.subrange(lo + 1, hi as int));
        parse_u32_radix(v, lo + 1, hi, 10)
    } else {
        return None;
    };
    match codigo {
        Some(x) => {
            let c = char_from_u32(x);
            match c {
                Some(ch) => Some(ch),
                None => None,
            }
        },
        None => None,
    }
}

/// Unescaped characters, in the vector form used inside the library.
pub fn unescape_chars(v: &Vec<char>) -> (r: Vec<char>)
    ensures
        r@ == unescape_spec(v@),
{
    let mut out: Vec<char> = Vec::new();
    let mut i: usize = 0;
    let ghost pv = seq![';'];
    while i < v.len()
        invariant
            i <= v.len(),
            pv == seq![';'],
            unescape_spec(v@) == out@ + unescape_from(v@, i as int),
        decreases v.len() - i,
    {
        if v[i] == '&' {
            if let Some(fim) = find_char(v, i, ';') {
                proof {
                    lemma_find_spec(v@, i as int, pv);
                    assert(v@[fim as int] == v@.subrange(fim as int, fim + 1)[0]);
                }
                if let Some(c) = decodificar_entidade(v, i + 1, fim) {
                    out.push(c);
                    i = fim + 1;
                    continue;
                }
            }
        }
        out.push(v[i]);
        i = i + 1;
    }
    assert(out@ + Seq::<char>::empty() =~= out@);
    out
}

/// Replaces the XML entities `&amp; &lt; &gt; &quot; &apos;` and the character
/// references `&#NN;` and `&#xHH;` by the characters they stand for; anything
/// else is copied unchanged.
pub fn xml_unescape(s: &str) -> (r: String)
    ensures
        r@ == unescape_spec(s@),
{
    let v = chars_of(s);
    let u = unescape_chars(&v);
    string_of(u.as_slice())
}


/// The first occurrence, once found, is what `find_spec` gives.
pub proof fn lemma_find_first<T>(h: Seq<T>, from: int, p: int, n: Seq<T>)
    requires
        0 <= from <= p,
        n.len() > 0,
        occurs_at(h, p, n),
        forall|q: int| from <= q < p ==> !occurs_at(h, q, n),
    ensures
        find_spec(h, from, n) == Some(p),
    decreases p - from,
{
    if from < p {
        lemma_find_first(h, from + 1, p, n);
    }
}

/// Unescaping from position `i` only looks at the text from `i` on.
#[verifier::spinoff_prover]
#[verifier::rlimit(80)]
pub proof fn lemma_unescape_skip(s: Seq<char>, i: int)
    requires
        0 <= i <= s.len(),
    ensures
        unescape_from(s, i) == unescape_from(s.skip(i), 0),
    decreases s.len() - i,
{
    let t = s.skip(i);
    if i == s.len() {
    } else {
        assert(t[0] == s[i]);
        lemma_find_skip(s, i, i, seq![';']);
        let fs = find_spec(s, i, seq![';']);
        let ft = find_spec(t, 0, seq![';']);
        if s[i] == '&' && fs is Some {
            lemma_find_spec(s, i, seq![';']);
            let f = fs->0;
            assert(ft == Some(f - i));
            assert(s.subrange(i + 1, f) =~= t.subrange(1, f - i));
            if entidade(s.subrange(i + 1, f)) is Some {
                lemma_unescape_skip(s, f + 1);
                lemma_unescape_skip(t, f - i + 1);
                assert(t.skip(f - i + 1) =~= s.skip(f + 1));
            } else {
                lemma_unescape_skip(s, i + 1);
                lemma_unescape_skip(t, 1);
                assert(t.skip(1) =~= s.skip(i + 1));
            }
        } else {
            lemma_unescape_skip(s, i + 1);
            lemma_unescape_skip(t, 1);
            assert(t.skip(1) =~= s.skip(i + 1));
        }
    }
}

/// Escaping and then unescaping gives the text back: for every text `s`,
/// `xml_unescape(xml_escape(s)) == s`.
#[verifier::rlimit(40)]
pub proof fn lemma_unescape_escape(s: Seq<char>)
    ensures
        unescape_spec(escape_spec(s)) == s,
    decreases s.len(),
{
    if s.len() > 0 {
        let c = s[0];
        let rest = s.drop_first();
        let ec = escape_char(c);
        let e = escape_spec(s);
        assert(e == ec + escape_spec(rest));
        lemma_unescape_escape(rest);
        let l = ec.len() as int;
        lemma_unescape_skip(e, l);
        assert(e.skip(l) =~= escape_spec(rest));
        if c == '&' || c == '<' || c == '>' || c == '"' || c == '\'' {
            assert(e[0] == '&');
            assert(e[l - 1] == ';');
            assert(occurs_at(e, l - 1, seq![';'])) by {
                assert(e.subrange(l - 1, l) =~= seq![';']);
            }
            assert forall|q: int| 0 <= q < l - 1 implies !occurs_at(e, q, seq![';']) by {
                assert(e.subrange(q, q + 1)[0] == e[q]);
            }
            lemma_find_first(e, 0, l - 1, seq![';']);
            assert(e.subrange(1, l - 1) =~= ec.subrange(1, l - 1));
            if c == '&' {
                assert(ec.subrange(1, l - 1) =~= seq!['a', 'm', 'p']);
            } else if c == '<' {
                assert(ec.subrange(1, l - 1) =~= seq!['l', 't']);
            } else if c == '>' {
                assert(ec.subrange(1, l - 1) =~= seq!['g', 't']);
            } else if c == '"' {
                assert(ec.subrange(1, l - 1) =~= seq!['q', 'u', 'o', 't']);
            } else {
                assert(ec.subrange(1, l - 1) =~= seq!['a', 'p', 'o', 's']);
            }
            assert(entidade(e.subrange(1, l - 1)) == Some(c));
            assert(unescape_from(e, 0) =~= seq![c] + unescape_from(e, l));
        } else {
            assert(l == 1);
            assert(e[0] == c);
            assert(unescape_from(e, 0) =~= seq![c] + unescape_from(e, 1));
        }
        assert(s =~= seq![c] + rest);
    } else {
        assert(escape_spec(s) =~= Seq::<char>::empty());
    }
}


// ─── Natural ordering ──────────────────────────────────────────────────────

/// A block of a natural-ordering key: a run of digits read as a number, or a
/// run of other characters in lower case.
#[derive(PartialEq, Eq, PartialOrd, Ord, Debug)]
pub enum Parte {
    Num(u64),
    Txt(String),
}

/// The mathematical form of a `Parte`.
pub enum ParteV {
    Num(u64),
    Txt(Seq<char>),
}

impl View for Parte {
    type V = ParteV;

    open spec fn view(&self) -> ParteV {
        match self {
            Parte::Num(n) => ParteV::Num(*n),
            Parte::Txt(t) => ParteV::Txt(t@),
        }
    }
}

/// `0`..=`9`.
pub open spec fn is_digit(c: char) -> bool {
    '0' <= c && c <= '9'
}

/// The length of the run at the start of `s` of digits (`digits`) or of
/// non-digits (`!digits`).
pub open spec fn run_len(s: Seq<char>, digits: bool) -> nat
    decreases s.len(),
{
    if s.len() > 0 && is_digit(s[0]) == digits {
        1 + run_len(s.drop_first(), digits)
    } else {
        0
    }
}

pub proof fn lemma_run_len(s: Seq<char>, digits: bool)
    ensures
        run_len(s, digits) <= s.len(),
        forall|k: int| 0 <= k < run_len(s, digits) ==> is_digit(#[trigger] s[k]) == digits,
        run_len(s, digits) < s.len() ==> is_digit(s[run_len(s, digits) as int]) != digits,
    decreases s.len(),
{
    if s.len() > 0 && is_digit(s[0]) == digits {
        lemma_run_len(s.drop_first(), digits);
        assert forall|k: int| 0 <= k < run_len(s, digits) implies is_digit(#[trigger] s[k])
            == digits by {
            if k > 0 {
                assert(s[k] == s.drop_first()[k - 1]);
            }
        }
    }
}

/// The number a run of digits stands for in a key: its decimal value, or 0
/// when it does not fit in a `u64` (`str::parse` fails and `unwrap_or(0)` applies).
pub open spec fn numero_da_parte(d: Seq<char>) -> u64 {
    match digits_value(d, 10) {
        Some(v) => if v <= u64::MAX {
            v as u64
        } else {
            0
        },
        None => 0,
    }
}

/// The natural-ordering key of `s`.
pub open spec fn key_spec(s: Seq<char>) -> Seq<ParteV>
    decreases s.len(),
{
    if s.len() == 0 {
        Seq::empty()
    } else if is_digit(s[0]) {
        let k = run_len(s, true);
        proof {
            lemma_run_len(s, true);
        }
        seq![ParteV::Num(numero_da_parte(s.take(k as int)))] + key_spec(s.skip(k as int))
    } else {
        let k = run_len(s, false);
        proof {
            lemma_run_len(s, false);
        }
        seq![ParteV::Txt(s.take(k as int).map_values(|c: char| ascii_lower(c)))] + key_spec(
            s.skip(k as int),
        )
    }
}

/// The views of a sequence of key blocks.
pub open spec fn partes_view(v: Seq<Parte>) -> Seq<ParteV> {
    v.map_values(|p: Parte| p@)
}

/// Reads `v[lo..hi]`, all decimal digits, as a `u64`; 0 when it does not fit.
fn valor_u64(v: &Vec<char>, lo: usize, hi: usize) -> (r: u64)
    requires
        lo <= hi <= v.len(),
        forall|k: int| lo <= k < hi ==> is_digit(#[trigger] v@[k]),
    ensures
        r == numero_da_parte(v@.subrange(lo as int, hi as int)),
{
    let ghost d = v@.subrange(lo as int, hi as int);
    let mut acc: u64 = 0;
    let mut i = lo;
    assert(d.take(0) =~= Seq::<char>::empty());
    while i < hi
        invariant
            lo <= i <= hi <= v.len(),
            d == v@.subrange(lo as int, hi as int),
            forall|k: int| lo <= k < hi ==> is_digit(#[trigger] v@[k]),
            digits_value(d.take(i - lo), 10) == Some(acc as nat),
        decreases hi - i,
    {
        let c = v[i];
        let dv: u64 = (c as u64) - ('0' as u64);
        assert(d.take(i + 1 - lo).drop_last() =~= d.take(i - lo));
        assert(d.take(i + 1 - lo).last() == c);
        if acc > (0xffff_ffff_ffff_ffffu64 - dv) / 10 {
            proof {
                lemma_digits_prefix(d, 10, i + 1 - lo);
                assert(acc * 10 + dv > 0xffff_ffff_ffff_ffffu64) by (nonlinear_arith)
                    requires
                        acc > (0xffff_ffff_ffff_ffffu64 - dv) / 10,
                        dv <= 9,
                ;
            }
            return 0;
        }
        assert(acc * 10 + dv <= 0xffff_ffff_ffff_ffffu64) by (nonlinear_arith)
            requires
                acc <= (0xffff_ffff_ffff_ffffu64 - dv) / 10,
                dv <= 9,
        ;
        acc = acc * 10 + dv;
        i = i + 1;
    }
    assert(d.take(hi - lo) =~= d);
    acc
}

proof fn lemma_key_step(s: Seq<char>, i: int)
    requires
        0 <= i < s.len(),
    ensures
        ({
            let t = s.skip(i);
            let k = run_len(t, is_digit(s[i]));
            &&& 1 <= k <= t.len()
            &&& key_spec(t) == seq![
                if is_digit(s[i]) {
                    ParteV::Num(numero_da_parte(t.take(k as int)))
                } else {
                    ParteV::Txt(t.take(k as int).map_values(|c: char| ascii_lower(c)))
                },
            ] + key_spec(s.skip(i + k))
        }),
{
    let t = s.skip(i);
    lemma_run_len(t, is_digit(s[i]));
    let k = run_len(t, is_digit(s[i]));
    assert(t.skip(k as int) =~= s.skip(i + k));
}

/// Natural-ordering key: splits the text into runs of digits (read as numbers)
/// and runs of other characters (in ASCII lower case), so that
/// "img_2" sorts before "img_10".
pub fn natural_key(s: &str) -> (r: Vec<Parte>)
    ensures
        partes_view(r@) == key_spec(s@),
{
    let v = chars_of(s);
    let mut partes: Vec<Parte> = Vec::new();
    let mut i: usize = 0;
    assert(v@.skip(0) =~= v@);
    assert(partes_view(partes@) + key_spec(v@) =~= key_spec(v@));
    while i < v.len()
        invariant
            i <= v.len(),
            v@ == s@,
            key_spec(v@) == partes_view(partes@) + key_spec(v@.skip(i as int)),
        decreases v.len() - i,
    {
        let ghost t = v@.skip(i as int);
        proof {
            lemma_key_step(v@, i as int);
            lemma_run_len(t, is_digit(v@[i as int]));
        }
        let digito = '0' <= v[i] && v[i] <= '9';
        let ini = i;
        while i < v.len() && (('0' <= v[i] && v[i] <= '9') == digito)
            invariant
                ini <= i <= v.len(),
                t == v@.skip(ini as int),
                i - ini <= run_len(t, digito),
                digito == is_digit(t[0]),
                run_len(t, digito) <= t.len(),
                forall|k: int| 0 <= k < run_len(t, digito) ==> is_digit(#[trigger] t[k]) == digito,
                run_len(t, digito) < t.len() ==> is_digit(t[run_len(t, digito) as int]) != digito,
            decreases v.len() - i,
        {
            assert(t[i - ini] == v@[i as int]);
            i = i + 1;
        }
        assert(i - ini == run_len(t, digito)) by {
            if i - ini < run_len(t, digito) {
                assert(t[i - ini] == v@[i as int]);
            }
        }
        let ghost k = run_len(t, digito);
        if digito {
            proof {
                assert forall|q: int| ini <= q < i implies is_digit(#[trigger] v@[q]) by {
                    assert(v@[q] == t[q - ini]);
                }
                assert(t.take(k as int) =~= v@.subrange(ini as int, i as int));
            }
            let n = valor_u64(&v, ini, i);
            partes.push(Parte::Num(n));
        } else {
            let mut txt: Vec<char> = Vec::new();
            let mut q = ini;
            while q < i
                invariant
                    ini <= q <= i <= v.len(),
                    txt@ == v@.subrange(ini as int, q as int).map_values(|c: char| ascii_lower(c)),
                decreases i - q,
            {
                txt.push(char_to_ascii_lowercase(v[q]));
                assert(txt@ =~= v@.subrange(ini as int, q + 1).map_values(|c: char| ascii_lower(c)));
                q = q + 1;
            }
            assert(t.take(k as int) =~= v@.subrange(ini as int, i as int));
            let st = string_of(txt.as_slice());
            partes.push(Parte::Txt(st));
        }
        assert(partes_view(partes@) =~= partes_view(partes@.drop_last()).push(partes@.last()@));
    }
    assert(v@.skip(v.len() as int) =~= Seq::<char>::empty());
    assert(partes_view(partes@) + Seq::<ParteV>::empty() =~= partes_view(partes@));
    partes
}



// ─── Calendar ──────────────────────────────────────────────────────────────

/// Leap years of the proleptic Gregorian calendar.
pub open spec fn is_leap(y: int) -> bool {
    y % 4 == 0 && (y % 100 != 0 || y % 400 == 0)
}

/// The number of days of month `m` (1..=12) of year `y`.
pub open spec fn days_in_month(y: int, m: int) -> int {
    if m == 2 {
        if is_leap(y) { 29 } else { 28 }
    } else if m == 4 || m == 6 || m == 9 || m == 11 {
        30
    } else {
        31
    }
}

/// `(y, m, d)` names a day of the calendar.
pub open spec fn valid_date(y: int, m: int, d: int) -> bool {
    1 <= m <= 12 && 1 <= d <= days_in_month(y, m)
}

/// The number of leap years among 1..=x (for x >= 0; the same formula extends
/// it to all integers, one step per leap year).
pub open spec fn leap_count(x: int) -> int {
    x / 4 - x / 100 + x / 400
}

/// Days from 1970-01-01 to January 1st of year `y`.
pub open spec fn days_before_year(y: int) -> int {
    365 * (y - 1970) + leap_count(y - 1) - leap_count(1969)
}

/// Days from January 1st to the first day of month `m` of year `y`.
pub open spec fn days_before_month(y: int, m: int) -> int {
    let base: int = if m == 1 { 0 } else if m == 2 { 31 } else if m == 3 { 59 } else if m == 4 { 90 }
        else if m == 5 { 120 } else if m == 6 { 151 } else if m == 7 { 181 } else if m == 8 { 212 }
        else if m == 9 { 243 } else if m == 10 { 273 } else if m == 11 { 304 } else { 334 };
    base + if m > 2 && is_leap(y) { 1int } else { 0int }
}

/// Days from 1970-01-01 to `(y, m, d)` (negative before 1970).
pub open spec fn days_from_civil(y: int, m: int, d: int) -> int {
    days_before_year(y) + days_before_month(y, m) + d - 1
}

proof fn lemma_year_of_era(doe: u64)
    requires
        doe <= 146096,
    ensures
        ({
            let yoe = (doe - doe / 1460 + doe / 36524 - doe / 146096) / 365;
            let base = 365 * yoe + yoe / 4 - yoe / 100;
            &&& yoe <= 399
            &&& base <= doe
            &&& (doe - base <= 364 || (doe - base == 365 && (yoe + 1) % 4 == 0 && ((yoe + 1) % 100
                != 0 || (yoe + 1) % 400 == 0)))
        }),
{
    assert(doe <= 146096 ==> (doe - doe / 1460 + doe / 36524 - doe / 146096) / 365 <= 399
        && 365 * ((doe - doe / 1460 + doe / 36524 - doe / 146096) / 365) + ((doe - doe / 1460
        + doe / 36524 - doe / 146096) / 365) / 4 - ((doe - doe / 1460 + doe / 36524 - doe
        / 146096) / 365) / 100 <= doe && (doe - (365 * ((doe - doe / 1460 + doe / 36524 - doe
        / 146096) / 365) + ((doe - doe / 1460 + doe / 36524 - doe / 146096) / 365) / 4 - ((doe
        - doe / 1460 + doe / 36524 - doe / 146096) / 365) / 100) <= 364 || (doe - (365 * ((doe
        - doe / 1460 + doe / 36524 - doe / 146096) / 365) + ((doe - doe / 1460 + doe / 36524
        - doe / 146096) / 365) / 4 - ((doe - doe / 1460 + doe / 36524 - doe / 146096) / 365)
        / 100) == 365 && (((doe - doe / 1460 + doe / 36524 - doe / 146096) / 365) + 1) % 4 == 0
        && ((((doe - doe / 1460 + doe / 36524 - doe / 146096) / 365) + 1) % 100 != 0 || (((doe
        - doe / 1460 + doe / 36524 - doe / 146096) / 365) + 1) % 400 == 0)))) by (bit_vector);
}

proof fn lemma_month_of_year(doy: u64)
    requires
        doy <= 365,
    ensures
        ({
            let mp = (5 * doy + 2) / 153;
            let s = (153 * mp + 2) / 5;
            &&& mp <= 11
            &&& s <= doy
            &&& doy - s <= 30
            &&& (mp == 1 || mp == 3 || mp == 6 || mp == 8) ==> doy - s <= 29
            &&& mp == 11 ==> doy - s <= 28
        }),
{
    assert(doy <= 365 ==> (5 * doy + 2) / 153 <= 11 && (153 * ((5 * doy + 2) / 153) + 2) / 5
        <= doy && doy - (153 * ((5 * doy + 2) / 153) + 2) / 5 <= 30 && (((5 * doy + 2) / 153
        == 1 || (5 * doy + 2) / 153 == 3 || (5 * doy + 2) / 153 == 6 || (5 * doy + 2) / 153 == 8)
        ==> doy - (153 * ((5 * doy + 2) / 153) + 2) / 5 <= 29) && ((5 * doy + 2) / 153 == 11
        ==> doy - (153 * ((5 * doy + 2) / 153) + 2) / 5 <= 28)) by (bit_vector);
}

proof fn lemma_div_shift(q: int, x: int, d: int)
    requires
        d > 0,
    ensures
        (q * d + x) / d == q + x / d,
{
    vstd::arithmetic::div_mod::lemma_fundamental_div_mod(x, d);
    vstd::arithmetic::div_mod::lemma_mod_bound(x, d);
    assert((q + x / d) * d == q * d + (x / d) * d) by (nonlinear_arith);
    assert(d * (x / d) == (x / d) * d) by (nonlinear_arith);
    vstd::arithmetic::div_mod::lemma_fundamental_div_mod_converse(q * d + x, d, q + x / d, x % d);
}

proof fn lemma_leap_count_era(era: int, x: int)
    ensures
        leap_count(era * 400 + x) == 97 * era + leap_count(x),
{
    lemma_div_shift(era * 100, x, 4);
    lemma_div_shift(era * 4, x, 100);
    lemma_div_shift(era, x, 400);
    assert(era * 100 * 4 == era * 400);
    assert(era * 4 * 100 == era * 400);
}

proof fn lemma_leap_count_step(yoe: int)
    requires
        1 <= yoe <= 399,
    ensures
        leap_count(yoe - 1) + (if is_leap(yoe) { 1int } else { 0int }) == yoe / 4 - yoe / 100,
{
    let y = yoe as u64;
    assert(1 <= y <= 399 ==> (y - 1) / 4 - (y - 1) / 100 + (y - 1) / 400 + (if y % 4 == 0 && (y
        % 100 != 0 || y % 400 == 0) { 1u64 } else { 0u64 }) == y / 4 - y / 100) by (bit_vector);
}

proof fn lemma_mod_shift(q: int, x: int, d: int)
    requires
        d > 0,
    ensures
        (q * d + x) % d == x % d,
{
    lemma_div_shift(q, x, d);
    vstd::arithmetic::div_mod::lemma_fundamental_div_mod(x, d);
    vstd::arithmetic::div_mod::lemma_fundamental_div_mod(q * d + x, d);
    assert(d * (q + x / d) == q * d + d * (x / d)) by (nonlinear_arith);
}

proof fn lemma_leap_era(era: int, k: int)
    ensures
        is_leap(era * 400 + k) == is_leap(k),
{
    lemma_mod_shift(era * 100, k, 4);
    lemma_mod_shift(era * 4, k, 100);
    lemma_mod_shift(era, k, 400);
    assert(era * 100 * 4 == era * 400);
    assert(era * 4 * 100 == era * 400);
}

proof fn lemma_civil(z: int, era: int, doe: int, yoe: int, doy: int, mp: int, s: int, d: int, m: int, ano: int)
    requires
        z + 719468 == era * 146097 + doe,
        0 <= doe <= 146096,
        0 <= yoe <= 399,
        doy == doe - (365 * yoe + yoe / 4 - yoe / 100),
        0 <= doy,
        doy <= 364 || (doy == 365 && is_leap(yoe + 1)),
        0 <= mp <= 11,
        s == (153 * mp + 2) / 5,
        s <= doy,
        doy - s <= 30,
        (mp == 1 || mp == 3 || mp == 6 || mp == 8) ==> doy - s <= 29,
        mp == 11 ==> doy - s <= 28,
        d == doy - s + 1,
        m == (if mp < 10 { mp + 3 } else { mp - 9 }),
        ano == (if m <= 2 { era * 400 + yoe + 1 } else { era * 400 + yoe }),
    ensures
        valid_date(ano, m, d),
        days_from_civil(ano, m, d) == z,
{
    lemma_leap_count_era(era, yoe - 1);
    lemma_leap_count_era(era, yoe);
    lemma_leap_era(era, yoe);
    lemma_leap_era(era, yoe + 1);
    assert(era * 400 + yoe + 1 - 1 == era * 400 + yoe);
    if yoe >= 1 {
        lemma_leap_count_step(yoe);
    }
    assert(leap_count(yoe) == leap_count(yoe - 1) + (if is_leap(yoe) { 1int } else { 0int }))
        by {
        if yoe >= 1 {
            let y = yoe as u64;
            assert(1 <= y <= 399 ==> y / 4 - y / 100 + y / 400 == (y - 1) / 4 - (y - 1) / 100 + (y
                - 1) / 400 + (if y % 4 == 0 && (y % 100 != 0 || y % 400 == 0) { 1u64 } else { 0u64 }))
                by (bit_vector);
        }
    }
    assert(leap_count(yoe) == yoe / 4 - yoe / 100);
    if mp == 0 { assert(s == 0); }
    else if mp == 1 { assert(s == 31); }
    else if mp == 2 { assert(s == 61); }
    else if mp == 3 { assert(s == 92); }
    else if mp == 4 { assert(s == 122); }
    else if mp == 5 { assert(s == 153); }
    else if mp == 6 { assert(s == 184); }
    else if mp == 7 { assert(s == 214); }
    else if mp == 8 { assert(s == 245); }
    else if mp == 9 { assert(s == 275); }
    else if mp == 10 { assert(s == 306); }
    else { assert(s == 337); }
}

/// The calendar date (year, month, day) that lies `z` days after 1970-01-01
/// (Howard Hinnant's algorithm): a valid date whose day count is `z`.
pub fn civil_from_days(z: i64) -> (r: (i64, u32, u32))
    requires
        z <= i64::MAX - 719468,
    ensures
        valid_date(r.0 as int, r.1 as int, r.2 as int),
        days_from_civil(r.0 as int, r.1 as int, r.2 as int) == z as int,
{
    let zz = z + 719468;
    let era = if zz >= 0 { zz / 146097 } else { -((146096 - zz) / 146097) };
    proof {
        if zz < 0 {
            let a = 146096 - zz;
            vstd::arithmetic::div_mod::lemma_fundamental_div_mod(a as int, 146097);
            vstd::arithmetic::div_mod::lemma_mod_bound(a as int, 146097);
        } else {
            vstd::arithmetic::div_mod::lemma_fundamental_div_mod(zz as int, 146097);
            vstd::arithmetic::div_mod::lemma_mod_bound(zz as int, 146097);
        }
    }
    let doe = zz - era * 146097;
    let yoe = (doe - doe / 1460 + doe / 36524 - doe / 146096) / 365;
    proof {
        lemma_year_of_era(doe as u64);
    }
    let y = yoe + era * 400;
    let doy = doe - (365 * yoe + yoe / 4 - yoe / 100);
    proof {
        lemma_month_of_year(doy as u64);
    }
    let mp = (5 * doy + 2) / 153;
    let d = (doy - (153 * mp + 2) / 5 + 1) as u32;
    let m = (if mp < 10 { mp + 3 } else { mp - 9 }) as u32;
    let ano = if m <= 2 { y + 1 } else { y };
    proof {
        lemma_civil(z as int, era as int, doe as int, yoe as int, doy as int, mp as int, (153 * mp + 2) / 5, d as int, m as int, ano as int);
    }
    (ano, m, d)
}


/// The calendar day after `(y, m, d)`.
pub open spec fn dia_seguinte(y: int, m: int, d: int) -> (int, int, int) {
    if d < days_in_month(y, m) {
        (y, m, d + 1)
    } else if m < 12 {
        (y, m + 1, 1)
    } else {
        (y + 1, 1, 1)
    }
}

proof fn lemma_div_passo(y: int, k: int)
    requires
        k > 0,
    ensures
        y / k - (y - 1) / k == if y % k == 0 { 1int } else { 0int },
{
    vstd::arithmetic::div_mod::lemma_fundamental_div_mod(y, k);
    vstd::arithmetic::div_mod::lemma_mod_bound(y, k);
    let q = y / k;
    let r = y % k;
    assert(k * q == q * k) by (nonlinear_arith);
    if r > 0 {
        vstd::arithmetic::div_mod::lemma_fundamental_div_mod_converse_div(y - 1, k, q, r - 1);
    } else {
        assert(y - 1 == (q - 1) * k + (k - 1)) by (nonlinear_arith)
            requires
                y == k * q + r,
                r == 0,
        ;
        vstd::arithmetic::div_mod::lemma_fundamental_div_mod_converse_div(y - 1, k, q - 1, k - 1);
    }
}

/// A year has 365 days, 366 when it is a leap year.
proof fn lemma_ano_seguinte(y: int)
    ensures
        days_before_year(y + 1) == days_before_year(y) + 365 + if is_leap(y) { 1int } else { 0int },
{
    lemma_div_passo(y, 4);
    lemma_div_passo(y, 100);
    lemma_div_passo(y, 400);
    vstd::arithmetic::div_mod::lemma_mod_mod(y, 100, 4);
    vstd::arithmetic::div_mod::lemma_mod_mod(y, 4, 25);
    assert(100int * 4 == 400);
    assert(4int * 25 == 100);
    assert(y + 1 - 1 == y);
}

proof fn lemma_anos_crescem(a: int, b: int)
    requires
        a <= b,
    ensures
        days_before_year(a) + 365 * (b - a) <= days_before_year(b),
    decreases b - a,
{
    if a < b {
        lemma_anos_crescem(a, b - 1);
        lemma_ano_seguinte(b - 1);
    }
}

/// Where a valid date falls: within its year, and within its month.
proof fn lemma_dentro_do_ano(y: int, m: int, d: int)
    requires
        valid_date(y, m, d),
    ensures
        days_before_year(y) <= days_from_civil(y, m, d) < days_before_year(y + 1),
{
    lemma_ano_seguinte(y);
}

/// Two valid dates with the same day count are the same date.
pub proof fn lemma_data_unica(a: (int, int, int), b: (int, int, int))
    requires
        valid_date(a.0, a.1, a.2),
        valid_date(b.0, b.1, b.2),
        days_from_civil(a.0, a.1, a.2) == days_from_civil(b.0, b.1, b.2),
    ensures
        a == b,
{
    lemma_dentro_do_ano(a.0, a.1, a.2);
    lemma_dentro_do_ano(b.0, b.1, b.2);
    if a.0 < b.0 {
        lemma_anos_crescem(a.0 + 1, b.0);
    } else if b.0 < a.0 {
        lemma_anos_crescem(b.0 + 1, a.0);
    }
    assert(a.0 == b.0);
}

/// Day counts go one by one: the valid date whose count follows that of a
/// valid date `(y, m, d)` is the next calendar day. With the contract of
/// `civil_from_days`, `civil_from_days(z + 1)` is the day after
/// `civil_from_days(z)`.
pub proof fn lemma_dia_seguinte(y: int, m: int, d: int, seguinte: (int, int, int))
    requires
        valid_date(y, m, d),
        valid_date(seguinte.0, seguinte.1, seguinte.2),
        days_from_civil(seguinte.0, seguinte.1, seguinte.2) == days_from_civil(y, m, d) + 1,
    ensures
        seguinte == dia_seguinte(y, m, d),
        valid_date(dia_seguinte(y, m, d).0, dia_seguinte(y, m, d).1, dia_seguinte(y, m, d).2),
{
    let n = dia_seguinte(y, m, d);
    if d == days_in_month(y, m) && m == 12 {
        lemma_ano_seguinte(y);
    }
    assert(days_from_civil(n.0, n.1, n.2) == days_from_civil(y, m, d) + 1);
    lemma_data_unica(seguinte, n);
}



// ─── Decimal text of numbers ───────────────────────────────────────────────

/// The character of a decimal digit.
pub open spec fn digit_char(n: nat) -> char {
    (n + '0' as nat) as char
}

/// The decimal digits of `n`, without leading zeros ("0" for zero).
pub open spec fn dec_digits(n: nat) -> Seq<char>
    decreases n,
{
    if n < 10 {
        seq![digit_char(n)]
    } else {
        dec_digits(n / 10).push(digit_char(n % 10))
    }
}

/// `k` zeros.
pub open spec fn zeros(k: nat) -> Seq<char> {
    Seq::new(k, |i: int| '0')
}

/// `s` with zeros in front up to width `w`, as `{:0w}` pads.
pub open spec fn pad_zeros(s: Seq<char>, w: nat) -> Seq<char> {
    if s.len() >= w {
        s
    } else {
        zeros((w - s.len()) as nat) + s
    }
}

/// The text of a signed number zero-padded to width `w` (the sign counts in the width).
pub open spec fn int_padded(v: int, w: nat) -> Seq<char> {
    if v < 0 {
        seq!['-'] + pad_zeros(dec_digits((-v) as nat), if w >= 1 { (w - 1) as nat } else { 0 })
    } else {
        pad_zeros(dec_digits(v as nat), w)
    }
}

/// The decimal digits of `n`.
pub fn digitos(n: u64) -> (r: Vec<char>)
    ensures
        r@ == dec_digits(n as nat),
{
    let mut rev: Vec<char> = Vec::new();
    let mut x = n;
    while x >= 10
        invariant
            dec_digits(n as nat) == dec_digits(x as nat) + rev@.reverse(),
        decreases x,
    {
        let c = char_digito(x % 10);
        let ghost antes = rev@;
        rev.push(c);
        assert(rev@.reverse() =~= seq![c] + antes.reverse());
        assert(dec_digits(x as nat) == dec_digits((x / 10) as nat).push(c));
        x = x / 10;
        assert(dec_digits(n as nat) =~= dec_digits(x as nat) + rev@.reverse());
    }
    let mut out: Vec<char> = Vec::new();
    out.push(char_digito(x));
    let mut i = rev.len();
    while i > 0
        invariant
            i <= rev.len(),
            out@ == dec_digits(x as nat) + rev@.reverse().take((rev.len() - i) as int),
        decreases i,
    {
        i = i - 1;
        out.push(rev[i]);
        assert(out@ =~= dec_digits(x as nat) + rev@.reverse().take((rev.len() - i) as int));
    }
    assert(rev@.reverse().take(rev.len() as int) =~= rev@.reverse());
    out
}

fn char_digito(d: u64) -> (c: char)
    requires
        d < 10,
    ensures
        c == digit_char(d as nat),
{
    if d == 0 {
        '0'
    } else if d == 1 {
        '1'
    } else if d == 2 {
        '2'
    } else if d == 3 {
        '3'
    } else if d == 4 {
        '4'
    } else if d == 5 {
        '5'
    } else if d == 6 {
        '6'
    } else if d == 7 {
        '7'
    } else if d == 8 {
        '8'
    } else {
        '9'
    }
}

/// `s` pushed onto `out` after enough zeros to reach width `w`.
fn push_padded(out: &mut Vec<char>, s: &Vec<char>, w: usize)
    ensures
        final(out)@ == old(out)@ + pad_zeros(s@, w as nat),
{
    let ghost antes = out@;
    if s.len() < w {
        let mut k: usize = 0;
        while k < w - s.len()
            invariant
                s.len() < w,
                k <= w - s.len(),
                out@ == antes + zeros(k as nat),
            decreases w - s.len() - k,
        {
            out.push('0');
            assert(out@ =~= antes + zeros((k + 1) as nat));
            k = k + 1;
        }
    }
    let ghost meio = out@;
    for i in 0..s.len()
        invariant
            out@ == meio + s@.take(i as int),
    {
        out.push(s[i]);
        assert(out@ =~= meio + s@.take(i + 1));
    }
    assert(s@.take(s.len() as int) =~= s@);
    assert(out@ =~= antes + pad_zeros(s@, w as nat));
}

/// The text of `v` zero-padded to width `w`, as `format!("{v:0w}")` writes it.
pub fn int_com_zeros(v: i64, w: usize) -> (r: Vec<char>)
    requires
        w >= 1,
    ensures
        r@ == int_padded(v as int, w as nat),
{
    let mut out: Vec<char> = Vec::new();
    if v < 0 {
        out.push('-');
        let abs: u64 = ((-(v + 1)) as u64) + 1;
        let ds = digitos(abs);
        push_padded(&mut out, &ds, w - 1);
        assert(out@ =~= int_padded(v as int, w as nat));
    } else {
        let ds = digitos(v as u64);
        push_padded(&mut out, &ds, w);
        assert(out@ =~= int_padded(v as int, w as nat));
    }
    out
}

/// Local offset from UTC in seconds. std does not expose the time zone, so the
/// date is taken in UTC.
pub fn offset_local() -> (r: i64)
    ensures
        r == 0,
{
    0
}

/// The names of the months in Portuguese, without accents (safe in folder names).
pub open spec fn nome_mes_spec(m: u32) -> Seq<char> {
    if m == 1 {
        "Janeiro"@
    } else if m == 2 {
        "Fevereiro"@
    } else if m == 3 {
        "Marco"@
    } else if m == 4 {
        "Abril"@
    } else if m == 5 {
        "Maio"@
    } else if m == 6 {
        "Junho"@
    } else if m == 7 {
        "Julho"@
    } else if m == 8 {
        "Agosto"@
    } else if m == 9 {
        "Setembro"@
    } else if m == 10 {
        "Outubro"@
    } else if m == 11 {
        "Novembro"@
    } else if m == 12 {
        "Dezembro"@
    } else {
        "Mes"@
    }
}

proof fn lemma_norm_state_caixa(x: Seq<char>)
    ensures
        norm_state(x.map_values(|c: char| ascii_lower(c))) == norm_state(x),
    decreases x.len(),
{
    if x.len() > 0 {
        let y = x.map_values(|c: char| ascii_lower(c));
        assert(y.drop_last() =~= x.drop_last().map_values(|c: char| ascii_lower(c)));
        lemma_norm_state_caixa(x.drop_last());
        let c = x.last();
        assert(y.last() == ascii_lower(c));
        assert(alfanumerico(ascii_lower(c)) == alfanumerico(c));
        assert(minusculo(ascii_lower(c)) == minusculo(c));
    }
}

/// `normalize` ignores ASCII case: a text and its ASCII lower-case form
/// normalise alike, so "ID", "Id" and "id" name the same column.
pub proof fn lemma_normalize_ignora_caixa(s: Seq<char>)
    ensures
        normalize_spec(s) == normalize_spec(s.map_values(|c: char| ascii_lower(c))),
{
    let l = s.map_values(|c: char| ascii_lower(c));
    let a = s.map_values(|c: char| sem_acento(c));
    let b = l.map_values(|c: char| sem_acento(c));
    assert forall|i: int| 0 <= i < s.len() implies b[i] == ascii_lower(a[i]) by {
        let c = s[i];
        assert(l[i] == ascii_lower(c));
    }
    assert(b =~= a.map_values(|c: char| ascii_lower(c)));
    lemma_norm_state_caixa(a);
}

/// Words of lower-case ASCII letters and digits separated by single spaces,
/// with no space at either end.
pub open spec fn palavras_simples(o: Seq<char>) -> bool {
    &&& forall|i: int| 0 <= i < o.len() ==> ('a' <= #[trigger] o[i] && o[i] <= 'z') || ('0' <= o[i] && o[i] <= '9')
        || o[i] == ' '
    &&& o.len() > 0 ==> o[0] != ' ' && o[o.len() - 1] != ' '
    &&& forall|i: int| 0 <= i < o.len() - 1 ==> !(#[trigger] o[i] == ' ' && o[i + 1] == ' ')
}

proof fn lemma_norm_state_ascii(x: Seq<char>)
    requires
        forall|i: int| 0 <= i < x.len() ==> (#[trigger] x[i] as u32) < 128,
    ensures
        palavras_simples(norm_state(x).0),
    decreases x.len(),
{
    if x.len() > 0 {
        let d = x.drop_last();
        assert forall|i: int| 0 <= i < d.len() implies (#[trigger] d[i] as u32) < 128 by {
            assert(d[i] == x[i]);
        }
        lemma_norm_state_ascii(d);
        let (o, p) = norm_state(d);
        let c = x.last();
        assert((c as u32) < 128);
        if alfanumerico(c) {
            let base = if p && o.len() > 0 { o.push(' ') } else { o };
            let r = base + minusculo(c);
            assert(minusculo(c) == seq![ascii_lower(c)]);
            assert(r == base.push(ascii_lower(c)));
            let l = ascii_lower(c);
            assert(('a' <= l && l <= 'z') || ('0' <= l && l <= '9'));
            assert forall|i: int| 0 <= i < r.len() implies ('a' <= #[trigger] r[i] && r[i] <= 'z') || ('0' <= r[i]
                && r[i] <= '9') || r[i] == ' ' by {
                if i < o.len() {
                    assert(r[i] == o[i]);
                }
            }
            assert forall|i: int| 0 <= i < r.len() - 1 implies !(#[trigger] r[i] == ' ' && r[i + 1] == ' ') by {
                if i + 1 < o.len() {
                    assert(r[i] == o[i] && r[i + 1] == o[i + 1]);
                } else if i + 1 == o.len() {
                    assert(r[i] == o[i]);
                }
            }
            if o.len() > 0 {
                assert(r[0] == o[0]);
            }
        }
    }
}

/// On ASCII text, `normalize` gives words of lower-case letters and digits
/// separated by single spaces, with none at either end: every run of other
/// characters (spaces, punctuation) becomes one space between words.
pub proof fn lemma_normalize_palavras(s: Seq<char>)
    requires
        forall|i: int| 0 <= i < s.len() ==> (#[trigger] s[i] as u32) < 128,
    ensures
        palavras_simples(normalize_spec(s)),
{
    let a = s.map_values(|c: char| sem_acento(c));
    assert forall|i: int| 0 <= i < a.len() implies (#[trigger] a[i] as u32) < 128 by {
        assert((s[i] as u32) < 128);
        assert(a[i] == sem_acento(s[i]));
    }
    lemma_norm_state_ascii(a);
}

/// The names of the calendar months in Portuguese, January first.
pub open spec fn meses_do_ano() -> Seq<Seq<char>> {
    seq![
        "Janeiro"@, "Fevereiro"@, "Marco"@, "Abril"@, "Maio"@, "Junho"@, "Julho"@, "Agosto"@,
        "Setembro"@, "Outubro"@, "Novembro"@, "Dezembro"@,
    ]
}

/// Month `m` of the calendar (1 = January) is named by the `m`-th name of
/// the year, in order.
pub proof fn lemma_nome_mes(m: u32)
    requires
        1 <= m <= 12,
    ensures
        nome_mes_spec(m) == meses_do_ano()[m - 1],
{
}

/// Removing accents twice is removing them once.
pub proof fn lemma_sem_acento_idempotente(c: char)
    ensures
        sem_acento(sem_acento(c)) == sem_acento(c),
{
}

/// `normalize` ignores accents: a text and the text with its accents
/// removed (`strip_accents`) normalise alike, so a header that differs from
/// an alias only by accents is found.
pub proof fn lemma_normalize_ignora_acentos(s: Seq<char>)
    ensures
        normalize_spec(s) == normalize_spec(s.map_values(|c: char| sem_acento(c))),
{
    let a = s.map_values(|c: char| sem_acento(c));
    let b = a.map_values(|c: char| sem_acento(c));
    assert forall|i: int| 0 <= i < s.len() implies b[i] == a[i] by {
        lemma_sem_acento_idempotente(s[i]);
    }
    assert(b =~= a);
}

/// The Portuguese name of month `m` (1..=12); "Mes" for any other number.
pub fn nome_mes(m: u32) -> (r: &'static str)
    ensures
        r@ == nome_mes_spec(m),
{
    if m == 1 {
        "Janeiro"
    } else if m == 2 {
        "Fevereiro"
    } else if m == 3 {
        "Marco"
    } else if m == 4 {
        "Abril"
    } else if m == 5 {
        "Maio"
    } else if m == 6 {
        "Junho"
    } else if m == 7 {
        "Julho"
    } else if m == 8 {
        "Agosto"
    } else if m == 9 {
        "Setembro"
    } else if m == 10 {
        "Outubro"
    } else if m == 11 {
        "Novembro"
    } else if m == 12 {
        "Dezembro"
    } else {
        "Mes"
    }
}

/// Seconds since 1970-01-01 UTC from the system clock (`SystemTime::now`
/// measured from `UNIX_EPOCH`), or `None` when the clock is set before 1970.
/// Nothing is stated of the value: it is the current time.
#[verifier::external_body]
fn segundos_do_relogio() -> (r: Option<u64>) {
    std::time::SystemTime::now().duration_since(std::time::UNIX_EPOCH).ok().map(|d| d.as_secs())
}

/// The day number (days since 1970-01-01, rounded down) of a count of seconds,
/// read as an `i64` as the clock's `u64` is cast.
pub open spec fn dia_de_segundos(secs: u64) -> int {
    (secs as i64 as int) / 86400
}

/// The local date `(year, month, day)` of an instant given in seconds since
/// 1970-01-01 UTC.
pub fn ymd_de_segundos(secs: u64) -> (r: (i64, u32, u32))
    ensures
        valid_date(r.0 as int, r.1 as int, r.2 as int),
        days_from_civil(r.0 as int, r.1 as int, r.2 as int) == dia_de_segundos(secs),
{
    let s: i64 = secs as i64;
    let s = s + offset_local();
    let z = if s >= 0 {
        s / 86400
    } else {
        -((-(s + 1)) / 86400) - 1
    };
    proof {
        if s < 0 {
            let a = -(s + 1);
            vstd::arithmetic::div_mod::lemma_fundamental_div_mod(a as int, 86400);
            vstd::arithmetic::div_mod::lemma_mod_bound(a as int, 86400);
            vstd::arithmetic::div_mod::lemma_fundamental_div_mod_converse(s as int, 86400, z as int, s - z * 86400);
        }
    }
    civil_from_days(z)
}

/// Today's date `(year, month, day)` from the system clock (UTC); a clock set
/// before 1970 counts as 1970-01-01.
pub fn hoje_ymd() -> (r: (i64, u32, u32))
    ensures
        valid_date(r.0 as int, r.1 as int, r.2 as int),
{
    let secs = match segundos_do_relogio() {
        Some(s) => s,
        None => 0,
    };
    ymd_de_segundos(secs)
}

/// `DD/MM/AAAA` for a date, as `format!("{d:02}/{m:02}/{a:04}")` writes it.
pub open spec fn data_spec(a: int, m: int, d: int) -> Seq<char> {
    int_padded(d, 2) + seq!['/'] + int_padded(m, 2) + seq!['/'] + int_padded(a, 4)
}

/// Writes a date as `DD/MM/AAAA`.
pub fn formatar_data(a: i64, m: u32, d: u32) -> (r: String)
    ensures
        r@ == data_spec(a as int, m as int, d as int),
{
    let mut out = int_com_zeros(d as i64, 2);
    out.push('/');
    let mm = int_com_zeros(m as i64, 2);
    let mut i: usize = 0;
    let ghost antes = out@;
    while i < mm.len()
        invariant
            i <= mm.len(),
            out@ == antes + mm@.take(i as int),
        decreases mm.len() - i,
    {
        out.push(mm[i]);
        assert(out@ =~= antes + mm@.take(i + 1));
        i = i + 1;
    }
    assert(mm@.take(mm.len() as int) =~= mm@);
    out.push('/');
    let aa = int_com_zeros(a, 4);
    let ghost antes2 = out@;
    let mut j: usize = 0;
    while j < aa.len()
        invariant
            j <= aa.len(),
            out@ == antes2 + aa@.take(j as int),
        decreases aa.len() - j,
    {
        out.push(aa[j]);
        assert(out@ =~= antes2 + aa@.take(j + 1));
        j = j + 1;
    }
    assert(aa@.take(aa.len() as int) =~= aa@);
    assert(out@ =~= data_spec(a as int, m as int, d as int));
    string_of(out.as_slice())
}

/// Today's local date as `DD/MM/AAAA`.
pub fn data_ddmmaaaa() -> (r: String)
    ensures
        exists|a: i64, m: u32, d: u32| valid_date(a as int, m as int, d as int) && r@ == data_spec(a as int, m as int, d as int),
{
    let (a, m, d) = hoje_ymd();
    formatar_data(a, m, d)
}


// ─── Tag scanning ──────────────────────────────────────────────────────────

/// Characters that may follow a tag name in an opening tag.
pub open spec fn fim_de_nome(c: char) -> bool {
    c == '>' || c == ' ' || c == '/'
}

/// `s[i]`, or a space past the end.
pub open spec fn char_ou_espaco(s: Seq<char>, i: int) -> char {
    if 0 <= i < s.len() {
        s[i]
    } else {
        ' '
    }
}

/// A tag found by the scanner: where it opens, where its opening tag ends
/// (`>`), and where its closing tag starts (`None` for a self-closing tag).
pub struct Marca {
    pub ini: int,
    pub gt: int,
    pub fim: Option<int>,
}

/// The tags `abre ... fecha` of `s` from position `i` on, as the scanner finds
/// them: the next `abre` followed by `>`, space, `/` or the end; the next `>`
/// after it (if the character before it is `/` the tag is self-closing);
/// otherwise the next `fecha` after that `>`. The scan continues after what
/// it consumed and stops at the first incomplete tag.
pub open spec fn marcas_from(s: Seq<char>, i: int, abre: Seq<char>, fecha: Seq<char>) -> Seq<Marca>
    decreases s.len() - i,
{
    match find_spec(s, i, abre) {
        None => Seq::empty(),
        Some(p) => {
            proof {
                lemma_find_spec(s, i, abre);
            }
            let after = p + abre.len();
            if !fim_de_nome(char_ou_espaco(s, after)) {
                marcas_from(s, after, abre, fecha)
            } else {
                match find_spec(s, p, seq!['>']) {
                    None => Seq::empty(),
                    Some(gt) => {
                        proof {
                            lemma_find_spec(s, p, seq!['>']);
                        }
                        if gt > 0 && s[gt - 1] == '/' {
                            seq![Marca { ini: p, gt, fim: None }] + marcas_from(s, gt + 1, abre, fecha)
                        } else {
                            match find_spec(s, gt + 1, fecha) {
                                None => Seq::empty(),
                                Some(f) => {
                                    proof {
                                        lemma_find_spec(s, gt + 1, fecha);
                                    }
                                    seq![Marca { ini: p, gt, fim: Some(f) }] + marcas_from(
                                        s,
                                        f + fecha.len(),
                                        abre,
                                        fecha,
                                    )
                                },
                            }
                        }
                    },
                }
            }
        },
    }
}

/// The exec form of a `Marca`.
pub open spec fn marca_view(m: (usize, usize, Option<usize>)) -> Marca {
    Marca {
        ini: m.0 as int,
        gt: m.1 as int,
        fim: match m.2 {
            Some(f) => Some(f as int),
            None => None,
        },
    }
}

/// The bounds every mark found in `s` respects.
pub open spec fn marca_ok(s: Seq<char>, abre: Seq<char>, fecha: Seq<char>, m: (usize, usize, Option<usize>)) -> bool {
    &&& m.0 <= m.1 < s.len()
    &&& s[m.1 as int] == '>'
    &&& occurs_at(s, m.0 as int, abre)
    &&& match m.2 {
        Some(f) => m.1 + 1 <= f && f + fecha.len() <= s.len() && occurs_at(s, f as int, fecha),
        None => m.1 > 0 && s[m.1 - 1] == '/',
    }
}

/// The scanner: every `abre ... fecha` tag of `v` (see `marcas_from`).
pub fn escanear(v: &Vec<char>, abre: &Vec<char>, fecha: &Vec<char>) -> (r: Vec<(usize, usize, Option<usize>)>)
    ensures
        r@.map_values(|m: (usize, usize, Option<usize>)| marca_view(m)) == marcas_from(v@, 0, abre@, fecha@),
        forall|k: int| 0 <= k < r@.len() ==> marca_ok(v@, abre@, fecha@, #[trigger] r@[k]),
{
    let mut out: Vec<(usize, usize, Option<usize>)> = Vec::new();
    let mut i: usize = 0;
    let ghost alvo = marcas_from(v@, 0, abre@, fecha@);
    let ghost maior = seq!['>'];
    assert(out@.map_values(|m: (usize, usize, Option<usize>)| marca_view(m)) + alvo =~= alvo);
    loop
        invariant
            i <= v.len(),
            maior == seq!['>'],
            alvo == marcas_from(v@, 0, abre@, fecha@),
            alvo == out@.map_values(|m: (usize, usize, Option<usize>)| marca_view(m)) + marcas_from(
                v@,
                i as int,
                abre@,
                fecha@,
            ),
            forall|k: int| 0 <= k < out@.len() ==> marca_ok(v@, abre@, fecha@, #[trigger] out@[k]),
        ensures
            alvo == out@.map_values(|m: (usize, usize, Option<usize>)| marca_view(m)),
            forall|k: int| 0 <= k < out@.len() ==> marca_ok(v@, abre@, fecha@, #[trigger] out@[k]),
        decreases v.len() - i,
    {
        let ghost antes = out@;
        let p = match find_chars(v, i, abre) {
            Some(p) => p,
            None => {
                assert(alvo =~= out@.map_values(|m: (usize, usize, Option<usize>)| marca_view(m)));
                break;
            },
        };
        proof {
            lemma_find_spec(v@, i as int, abre@);
        }
        let after = p + abre.len();
        let c = if after < v.len() {
            v[after]
        } else {
            ' '
        };
        if c != '>' && c != ' ' && c != '/' {
            i = after;
            continue;
        }
        let gt = match find_char(v, p, '>') {
            Some(g) => g,
            None => {
                assert(alvo =~= out@.map_values(|m: (usize, usize, Option<usize>)| marca_view(m)));
                break;
            },
        };
        proof {
            lemma_find_spec(v@, p as int, maior);
            assert(v@[gt as int] == v@.subrange(gt as int, gt + 1)[0]);
        }
        if gt > 0 && v[gt - 1] == '/' {
            let m = (p, gt, None);
            out.push(m);
            assert(out@.map_values(|m: (usize, usize, Option<usize>)| marca_view(m)) =~= antes.map_values(
                |m: (usize, usize, Option<usize>)| marca_view(m),
            ).push(marca_view(m)));
            i = gt + 1;
            continue;
        }
        let fim = match find_chars(v, gt + 1, fecha) {
            Some(f) => f,
            None => {
                assert(alvo =~= out@.map_values(|m: (usize, usize, Option<usize>)| marca_view(m)));
                break;
            },
        };
        proof {
            lemma_find_spec(v@, gt + 1, fecha@);
        }
        let m = (p, gt, Some(fim));
        out.push(m);
        assert(out@.map_values(|m: (usize, usize, Option<usize>)| marca_view(m)) =~= antes.map_values(
            |m: (usize, usize, Option<usize>)| marca_view(m),
        ).push(marca_view(m)));
        i = fim + fecha.len();
    }
    out
}


/// `v[lo..hi]`.
pub fn fatia(v: &Vec<char>, lo: usize, hi: usize) -> (r: Vec<char>)
    requires
        lo <= hi <= v.len(),
    ensures
        r@ == v@.subrange(lo as int, hi as int),
{
    let mut out: Vec<char> = Vec::new();
    let mut k = lo;
    while k < hi
        invariant
            lo <= k <= hi <= v.len(),
            out@ == v@.subrange(lo as int, k as int),
        decreases hi - k,
    {
        out.push(v[k]);
        assert(out@ =~= v@.subrange(lo as int, k + 1));
        k = k + 1;
    }
    out
}

/// Appends all of `w` to `out`.
pub fn anexar(out: &mut Vec<char>, w: &Vec<char>)
    ensures
        final(out)@ == old(out)@ + w@,
{
    let ghost antes = out@;
    for i in 0..w.len()
        invariant
            out@ == antes + w@.take(i as int),
    {
        out.push(w[i]);
        assert(out@ =~= antes + w@.take(i + 1));
    }
    assert(w@.take(w.len() as int) =~= w@);
}

/// Strings made from character vectors.
fn strings_of(v: &Vec<Vec<char>>) -> (r: Vec<String>)
    ensures
        r@.map_values(|t: String| t@) == v@.map_values(|w: Vec<char>| w@),
{
    let mut out: Vec<String> = Vec::new();
    for i in 0..v.len()
        invariant
            out@.map_values(|t: String| t@) == v@.take(i as int).map_values(|w: Vec<char>| w@),
    {
        let ghost w = v@[i as int];
        let st = string_of(v[i].as_slice());
        assert(st@ == w@);
        let ghost antes = out@;
        out.push(st);
        assert(out@ == antes.push(st));
        assert(out@.map_values(|t: String| t@) =~= antes.map_values(|t: String| t@).push(st@));
        assert(v@.take(i + 1).map_values(|w: Vec<char>| w@) =~= v@.take(i as int).map_values(|w: Vec<char>| w@).push(w@));
        assert(out@.map_values(|t: String| t@) =~= v@.take(i + 1).map_values(|w: Vec<char>| w@));
    }
    assert(v@.take(v.len() as int) =~= v@);
    out
}

/// What a tag found by `iter_blocos` becomes: the text from its opening up to
/// (not including) its closing tag, or `vazio` for a self-closing tag.
pub open spec fn bloco_de(s: Seq<char>, vazio: Seq<char>, m: Marca) -> Seq<char> {
    match m.fim {
        Some(f) => s.subrange(m.ini, f),
        None => vazio,
    }
}

/// What `iter_blocos` gives.
pub open spec fn blocos_spec(s: Seq<char>, abre: Seq<char>, fecha: Seq<char>, vazio: Seq<char>) -> Seq<Seq<char>> {
    marcas_from(s, 0, abre, fecha).map_values(|m: Marca| bloco_de(s, vazio, m))
}

/// `iter_blocos` on character vectors.
pub fn blocos(v: &Vec<char>, abre: &Vec<char>, fecha: &Vec<char>, vazio: &Vec<char>) -> (r: Vec<Vec<char>>)
    requires
        abre@.len() == 0 || abre@[0] != '>',
    ensures
        r@.map_values(|w: Vec<char>| w@) == blocos_spec(v@, abre@, fecha@, vazio@),
{
    let ms = escanear(v, abre, fecha);
    let ghost mv = ms@.map_values(|m: (usize, usize, Option<usize>)| marca_view(m));
    let mut out: Vec<Vec<char>> = Vec::new();
    for k in 0..ms.len()
        invariant
            mv == ms@.map_values(|m: (usize, usize, Option<usize>)| marca_view(m)),
            forall|q: int| 0 <= q < ms@.len() ==> marca_ok(v@, abre@, fecha@, #[trigger] ms@[q]),
            out@.map_values(|w: Vec<char>| w@) == mv.take(k as int).map_values(
                |m: Marca| bloco_de(v@, vazio@, m),
            ),
    {
        let m = ms[k];
        assert(marca_ok(v@, abre@, fecha@, ms@[k as int]));
        let b = match m.2 {
            Some(f) => fatia(v, m.0, f),
            None => fatia(vazio, 0, vazio.len()),
        };
        assert(vazio@.subrange(0, vazio@.len() as int) =~= vazio@);
        assert(b@ == bloco_de(v@, vazio@, mv[k as int]));
        let ghost antes = out@;
        out.push(b);
        assert(out@ == antes.push(b));
        assert(out@.map_values(|w: Vec<char>| w@) =~= antes.map_values(|w: Vec<char>| w@).push(b@));
        assert(mv.take(k + 1).map_values(|m: Marca| bloco_de(v@, vazio@, m)) =~= mv.take(k as int).map_values(
            |m: Marca| bloco_de(v@, vazio@, m),
        ).push(b@));
        assert(out@.map_values(|w: Vec<char>| w@) =~= mv.take(k + 1).map_values(
            |m: Marca| bloco_de(v@, vazio@, m),
        ));
    }
    assert(mv.take(ms.len() as int) =~= mv);
    out
}

/// The blocks `abre ... fecha` of `xml`: for each tag that opens with `abre`
/// (followed by `>`, a space, `/` or the end), the text from its opening up to
/// its closing `fecha`; `vazio` stands for a self-closing tag. `abre` is the
/// tag's prefix, without `>`.
pub fn iter_blocos(xml: &str, abre: &str, fecha: &str, vazio: &str) -> (r: Vec<String>)
    requires
        abre@.len() == 0 || abre@[0] != '>',
    ensures
        r@.map_values(|t: String| t@) == blocos_spec(xml@, abre@, fecha@, vazio@),
{
    let v = chars_of(xml);
    let a = chars_of(abre);
    let f = chars_of(fecha);
    let z = chars_of(vazio);
    let bs = blocos(&v, &a, &f, &z);
    strings_of(&bs)
}

/// `<` followed by a tag name.
pub open spec fn abertura(tag: Seq<char>) -> Seq<char> {
    seq!['<'] + tag
}

/// `</`, a tag name and `>`.
pub open spec fn fechamento(tag: Seq<char>) -> Seq<char> {
    seq!['<', '/'] + tag + seq!['>']
}

fn abertura_de(tag: &Vec<char>) -> (r: Vec<char>)
    ensures
        r@ == abertura(tag@),
{
    let mut r: Vec<char> = Vec::new();
    r.push('<');
    anexar(&mut r, tag);
    assert(r@ =~= abertura(tag@));
    r
}

fn fechamento_de(tag: &Vec<char>) -> (r: Vec<char>)
    ensures
        r@ == fechamento(tag@),
{
    let mut r: Vec<char> = Vec::new();
    r.push('<');
    r.push('/');
    anexar(&mut r, tag);
    r.push('>');
    assert(r@ =~= fechamento(tag@));
    r
}

/// The (unescaped) text of a `<tag>` element found by `iter_text_of`: empty for
/// a self-closing element.
pub open spec fn texto_de(s: Seq<char>, m: Marca) -> Seq<char> {
    match m.fim {
        Some(f) => unescape_spec(s.subrange(m.gt + 1, f)),
        None => Seq::empty(),
    }
}

/// What `iter_text_of` gives.
pub open spec fn textos_spec(s: Seq<char>, tag: Seq<char>) -> Seq<Seq<char>> {
    marcas_from(s, 0, abertura(tag), fechamento(tag)).map_values(|m: Marca| texto_de(s, m))
}

/// `iter_text_of` on character vectors.
pub fn textos(v: &Vec<char>, tag: &Vec<char>) -> (r: Vec<Vec<char>>)
    ensures
        r@.map_values(|w: Vec<char>| w@) == textos_spec(v@, tag@),
{
    let a = abertura_de(tag);
    let f = fechamento_de(tag);
    let ms = escanear(v, &a, &f);
    let ghost mv = ms@.map_values(|m: (usize, usize, Option<usize>)| marca_view(m));
    let mut out: Vec<Vec<char>> = Vec::new();
    for k in 0..ms.len()
        invariant
            mv == ms@.map_values(|m: (usize, usize, Option<usize>)| marca_view(m)),
            forall|q: int| 0 <= q < ms@.len() ==> marca_ok(v@, a@, f@, #[trigger] ms@[q]),
            out@.map_values(|w: Vec<char>| w@) == mv.take(k as int).map_values(
                |m: Marca| texto_de(v@, m),
            ),
    {
        let m = ms[k];
        assert(marca_ok(v@, a@, f@, ms@[k as int]));
        let b = match m.2 {
            Some(fim) => {
                let bruto = fatia(v, m.1 + 1, fim);
                unescape_chars(&bruto)
            },
            None => Vec::new(),
        };
        assert(b@ =~= texto_de(v@, mv[k as int]));
        let ghost antes = out@;
        out.push(b);
        assert(out@ == antes.push(b));
        assert(out@.map_values(|w: Vec<char>| w@) =~= antes.map_values(|w: Vec<char>| w@).push(b@));
        assert(mv.take(k + 1).map_values(|m: Marca| texto_de(v@, m)) =~= mv.take(k as int).map_values(
            |m: Marca| texto_de(v@, m),
        ).push(b@));
        assert(out@.map_values(|w: Vec<char>| w@) =~= mv.take(k + 1).map_values(
            |m: Marca| texto_de(v@, m),
        ));
    }
    assert(mv.take(ms.len() as int) =~= mv);
    out
}

/// The unescaped texts of every `<tag ...>...</tag>` element of `trecho`, in
/// order; a self-closing `<tag/>` gives an empty text. `tag` is "t" in .xlsx
/// and "w:t" in .docx.
pub fn iter_text_of(trecho: &str, tag: &str) -> (r: Vec<String>)
    ensures
        r@.map_values(|t: String| t@) == textos_spec(trecho@, tag@),
{
    let v = chars_of(trecho);
    let t = chars_of(tag);
    let ts = textos(&v, &t);
    strings_of(&ts)
}

/// A character that separates the attributes of a tag.
pub open spec fn espaco_xml(c: char) -> bool {
    c == ' ' || c == '\t' || c == '\n' || c == '\r'
}

/// The first position at or after `from` where `alvo` occurs right after a
/// separator (so that `r="` is not found inside `xr="`).
pub open spec fn attr_pos(tag: Seq<char>, alvo: Seq<char>, from: int) -> Option<int>
    decreases tag.len() - from,
{
    if from < 0 || from > tag.len() {
        None
    } else {
        match find_spec(tag, from, alvo) {
            None => None,
            Some(p) => {
                proof {
                    lemma_find_spec(tag, from, alvo);
                }
                if p > 0 && espaco_xml(tag[p - 1]) {
                    Some(p)
                } else {
                    attr_pos(tag, alvo, p + 1)
                }
            },
        }
    }
}

/// What `attr` gives: the value of attribute `nome`, the text between the
/// first `nome="` that follows a separator and the next `"`.
pub open spec fn attr_spec(tag: Seq<char>, nome: Seq<char>) -> Option<Seq<char>> {
    let alvo = nome + seq!['=', '"'];
    match attr_pos(tag, alvo, 0) {
        None => None,
        Some(p) => match find_spec(tag, p + alvo.len(), seq!['"']) {
            None => None,
            Some(f) => Some(tag.subrange(p + alvo.len(), f)),
        },
    }
}

/// Where the attribute `alvo` (its name, `=` and `"`) starts (see `attr_pos`).
fn posicao_atributo(tag: &Vec<char>, alvo: &Vec<char>) -> (r: Option<usize>)
    requires
        alvo@.len() > 0,
    ensures
        match r {
            Some(p) => attr_pos(tag@, alvo@, 0) == Some(p as int),
            None => attr_pos(tag@, alvo@, 0) is None,
        },
{
    let mut i: usize = 0;
    loop
        invariant
            i <= tag.len(),
            alvo@.len() > 0,
            attr_pos(tag@, alvo@, 0) == attr_pos(tag@, alvo@, i as int),
        decreases tag.len() - i,
    {
        match find_chars(tag, i, alvo) {
            None => {
                return None;
            },
            Some(p) => {
                proof {
                    lemma_find_spec(tag@, i as int, alvo@);
                }
                if p > 0 && (tag[p - 1] == ' ' || tag[p - 1] == '\t' || tag[p - 1] == '\n' || tag[p - 1] == '\r') {
                    return Some(p);
                }
                i = p + 1;
            },
        }
    }
}

/// `attr` on character vectors.
pub fn atributo(tag: &Vec<char>, nome: &Vec<char>) -> (r: Option<Vec<char>>)
    ensures
        match r {
            Some(w) => attr_spec(tag@, nome@) == Some(w@),
            None => attr_spec(tag@, nome@) is None,
        },
{
    let mut alvo = fatia(nome, 0, nome.len());
    assert(nome@.subrange(0, nome@.len() as int) =~= nome@);
    alvo.push('=');
    alvo.push('"');
    assert(alvo@ =~= nome@ + seq!['=', '"']);
    let p = match posicao_atributo(tag, &alvo) {
        Some(p) => p,
        None => return None,
    };
    proof {
        lemma_attr_pos(tag@, alvo@, 0);
        assert(occurs_at(tag@, p as int, alvo@));
        assert(p + alvo@.len() <= tag@.len());
    }
    let tl = tag.len();
    assert(p + alvo.len() <= tl);
    let ini = p + alvo.len();
    let fim = match find_char(tag, ini, '"') {
        Some(f) => f,
        None => return None,
    };
    proof {
        lemma_find_spec(tag@, ini as int, seq!['"']);
    }
    Some(fatia(tag, ini, fim))
}

proof fn lemma_attr_pos(tag: Seq<char>, alvo: Seq<char>, from: int)
    ensures
        attr_pos(tag, alvo, from) matches Some(p) ==> from <= p && occurs_at(tag, p, alvo),
    decreases tag.len() - from,
{
    if 0 <= from <= tag.len() {
        lemma_find_spec(tag, from, alvo);
        if let Some(p) = find_spec(tag, from, alvo) {
            if !(p > 0 && espaco_xml(tag[p - 1])) {
                lemma_attr_pos(tag, alvo, p + 1);
            }
        }
    }
}

/// The value of attribute `nome` in the opening tag `tag`: the text between
/// the `nome="` that follows a separator and the next `"`.
pub fn attr(tag: &str, nome: &str) -> (r: Option<String>)
    ensures
        match r {
            Some(w) => attr_spec(tag@, nome@) == Some(w@),
            None => attr_spec(tag@, nome@) is None,
        },
{
    let t = chars_of(tag);
    let n = chars_of(nome);
    match atributo(&t, &n) {
        Some(w) => Some(string_of(w.as_slice())),
        None => None,
    }
}

/// The first position at or after `from` where the element `<nome` opens:
/// `a` (`<` and the name) followed by `>`, a space, `/` or the end.
pub open spec fn abertura_pos(s: Seq<char>, a: Seq<char>, from: int) -> Option<int>
    decreases s.len() - from,
{
    if from < 0 || from > s.len() {
        None
    } else {
        match find_spec(s, from, a) {
            None => None,
            Some(p) => {
                proof {
                    lemma_find_spec(s, from, a);
                }
                if fim_de_nome(char_ou_espaco(s, p + a.len())) {
                    Some(p)
                } else {
                    abertura_pos(s, a, p + 1)
                }
            },
        }
    }
}

/// What `inner_tag` gives: the content of the first `<nome ...>...</nome>`
/// element (empty for a self-closing one).
pub open spec fn inner_tag_spec(s: Seq<char>, nome: Seq<char>) -> Option<Seq<char>> {
    match abertura_pos(s, abertura(nome), 0) {
        None => None,
        Some(p) => match find_spec(s, p, seq!['>']) {
            None => None,
            Some(gt) => if gt > 0 && s[gt - 1] == '/' {
                Some(Seq::empty())
            } else {
                match find_spec(s, gt + 1, fechamento(nome)) {
                    None => None,
                    Some(f) => Some(s.subrange(gt + 1, f)),
                }
            },
        },
    }
}

proof fn lemma_abertura_pos(s: Seq<char>, a: Seq<char>, from: int)
    ensures
        abertura_pos(s, a, from) matches Some(p) ==> from <= p && occurs_at(s, p, a),
    decreases s.len() - from,
{
    if 0 <= from <= s.len() {
        lemma_find_spec(s, from, a);
        if let Some(p) = find_spec(s, from, a) {
            if !fim_de_nome(char_ou_espaco(s, p + a.len())) {
                lemma_abertura_pos(s, a, p + 1);
            }
        }
    }
}

/// Where the element `a` (`<` and its name) first opens (see `abertura_pos`).
fn posicao_abertura(s: &Vec<char>, a: &Vec<char>) -> (r: Option<usize>)
    requires
        a@.len() > 0,
    ensures
        match r {
            Some(p) => abertura_pos(s@, a@, 0) == Some(p as int),
            None => abertura_pos(s@, a@, 0) is None,
        },
{
    let mut i: usize = 0;
    loop
        invariant
            i <= s.len(),
            a@.len() > 0,
            abertura_pos(s@, a@, 0) == abertura_pos(s@, a@, i as int),
        decreases s.len() - i,
    {
        match find_chars(s, i, a) {
            None => {
                return None;
            },
            Some(p) => {
                proof {
                    lemma_find_spec(s@, i as int, a@);
                }
                let depois = p + a.len();
                let c = if depois < s.len() {
                    s[depois]
                } else {
                    ' '
                };
                if c == '>' || c == ' ' || c == '/' {
                    return Some(p);
                }
                i = p + 1;
            },
        }
    }
}

/// `inner_tag` on character vectors.
pub fn conteudo_tag(s: &Vec<char>, nome: &Vec<char>) -> (r: Option<Vec<char>>)
    ensures
        match r {
            Some(w) => inner_tag_spec(s@, nome@) == Some(w@),
            None => inner_tag_spec(s@, nome@) is None,
        },
{
    let a = abertura_de(nome);
    let p = match posicao_abertura(s, &a) {
        Some(p) => p,
        None => return None,
    };
    proof {
        lemma_abertura_pos(s@, a@, 0);
    }
    let gt = match find_char(s, p, '>') {
        Some(g) => g,
        None => return None,
    };
    proof {
        lemma_find_spec(s@, p as int, seq!['>']);
        assert(s@[p as int] == s@.subrange(p as int, p + a@.len())[0]);
        assert(s@[gt as int] == s@.subrange(gt as int, gt + 1)[0]);
        assert(occurs_at(s@, gt as int, seq!['>']));
    }
    let sl = s.len();
    assert(gt < sl);
    if s[gt - 1] == '/' {
        return Some(Vec::new());
    }
    let f = fechamento_de(nome);
    let fim = match find_chars(s, gt + 1, &f) {
        Some(x) => x,
        None => return None,
    };
    proof {
        lemma_find_spec(s@, gt + 1, f@);
    }
    Some(fatia(s, gt + 1, fim))
}

/// The content of the first `<nome ...>...</nome>` element of `s`; empty for a
/// self-closing `<nome/>`.
pub fn inner_tag(s: &str, nome: &str) -> (r: Option<String>)
    ensures
        match r {
            Some(w) => inner_tag_spec(s@, nome@) == Some(w@),
            None => inner_tag_spec(s@, nome@) is None,
        },
{
    let v = chars_of(s);
    let n = chars_of(nome);
    match conteudo_tag(&v, &n) {
        Some(w) => Some(string_of(w.as_slice())),
        None => None,
    }
}


/// Whether two character vectors hold the same characters.
pub fn mesmas(a: &Vec<char>, b: &Vec<char>) -> (r: bool)
    ensures
        r == (a@ == b@),
{
    if a.len() != b.len() {
        return false;
    }
    let mut k: usize = 0;
    while k < a.len()
        invariant
            a.len() == b.len(),
            k <= a.len(),
            forall|q: int| 0 <= q < k ==> a@[q] == b@[q],
        decreases a.len() - k,
    {
        if a[k] != b[k] {
            return false;
        }
        k = k + 1;
    }
    assert(a@ =~= b@);
    true
}


/// A copy of a byte vector.
pub fn copia_bytes(v: &Vec<u8>) -> (r: Vec<u8>)
    ensures
        r@ == v@,
{
    let mut out: Vec<u8> = Vec::new();
    for i in 0..v.len()
        invariant
            out@ == v@.take(i as int),
    {
        out.push(v[i]);
        assert(out@ =~= v@.take(i + 1));
    }
    assert(v@.take(v.len() as int) =~= v@);
    out
}


/// `v` starts with `p`.
pub open spec fn comeca_spec(v: Seq<char>, p: Seq<char>) -> bool {
    p.len() <= v.len() && v.take(p.len() as int) == p
}

/// Whether `v` starts with `p` (`str::starts_with`).
pub fn comeca_com(v: &Vec<char>, p: &Vec<char>) -> (r: bool)
    ensures
        r == comeca_spec(v@, p@),
{
    if p.len() > v.len() {
        return false;
    }
    let mut k: usize = 0;
    while k < p.len()
        invariant
            p.len() <= v.len(),
            k <= p.len(),
            forall|q: int| 0 <= q < k ==> v@[q] == p@[q],
        decreases p.len() - k,
    {
        if v[k] != p[k] {
            assert(v@.take(p.len() as int)[k as int] != p@[k as int]);
            return false;
        }
        k = k + 1;
    }
    assert(v@.take(p.len() as int) =~= p@);
    true
}

} // verus!
