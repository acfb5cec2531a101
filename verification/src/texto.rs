//! Text as the rest of the crate reads it: a sequence of characters.
//!
//! Each operation here is the one of `str` that the parsers need, written
//! over `Seq<char>` so that the contracts of the parsers can say exactly
//! what they do: lines, trimming, splitting on blanks, prefixes and
//! suffixes, and decimal and hexadecimal numbers.

use vstd::prelude::*;

verus! {

// ---------------------------------------------------------------------------
// Building and reading strings
// ---------------------------------------------------------------------------

/// Appends one character at the end of a `String`.
///
/// Calls `String::push`, which std documents as appending the given `char`
/// to the end of the string.
#[verifier::external_body]
pub(crate) fn empujar(s: &mut String, c: char)
    ensures
        final(s)@ == old(s)@.push(c),
{
    s.push(c)
}

/// The characters of a string slice, one by one.
pub fn caracteres(s: &str) -> (v: Vec<char>)
    ensures
        v@ == s@,
{
    let mut v: Vec<char> = Vec::new();
    for c in it: s.chars()
        invariant
            v@ == it.seq().take(it.index() as int),
            it.seq() == s@,
    {
        v.push(c);
    }
    v
}

/// A `String` with the given characters.
pub fn texto_de(cs: &[char]) -> (s: String)
    ensures
        s@ == cs@,
{
    let mut s = String::new();
    let n = cs.len();
    for i in 0..n
        invariant
            n == cs@.len(),
            s@ == cs@.take(i as int),
    {
        empujar(&mut s, cs[i]);
        assert(cs@.take(i + 1) =~= cs@.take(i as int).push(cs@[i as int]));
    }
    assert(cs@.take(n as int) =~= cs@);
    s
}

/// Appends characters at the end of a `String`.
pub fn agregar(s: &mut String, t: &[char])
    ensures
        final(s)@ == old(s)@ + t@,
{
    let n = t.len();
    for i in 0..n
        invariant
            n == t@.len(),
            s@ == old(s)@ + t@.take(i as int),
    {
        empujar(s, t[i]);
        assert(old(s)@ + t@.take(i + 1) =~= (old(s)@ + t@.take(i as int)).push(t@[i as int]));
    }
    assert(t@.take(n as int) =~= t@);
}

/// The characters from `a` to `b` of a slice, as a vector of their own.
pub fn tramo(s: &[char], a: usize, b: usize) -> (r: Vec<char>)
    requires
        a <= b <= s@.len(),
    ensures
        r@ == s@.subrange(a as int, b as int),
{
    let mut r: Vec<char> = Vec::new();
    let mut i = a;
    while i < b
        invariant
            a <= i <= b <= s@.len(),
            r@ == s@.subrange(a as int, i as int),
        decreases b - i,
    {
        r.push(s[i]);
        assert(s@.subrange(a as int, i + 1) =~= s@.subrange(a as int, i as int).push(s@[i as int]));
        i += 1;
    }
    r
}

/// Whether two character sequences are the same.
pub fn mismos(a: &[char], b: &[char]) -> (r: bool)
    ensures
        r == (a@ == b@),
{
    if a.len() != b.len() {
        return false;
    }
    let n = a.len();
    for i in 0..n
        invariant
            n == a@.len() == b@.len(),
            a@.take(i as int) == b@.take(i as int),
    {
        if a[i] != b[i] {
            return false;
        }
        assert(a@.take(i + 1) =~= a@.take(i as int).push(a@[i as int]));
        assert(b@.take(i + 1) =~= b@.take(i as int).push(b@[i as int]));
    }
    assert(a@.take(n as int) =~= a@);
    assert(b@.take(n as int) =~= b@);
    true
}

/// The views of a vector of character vectors.
pub open spec fn vistas(v: Seq<Vec<char>>) -> Seq<Seq<char>> {
    v.map_values(|l: Vec<char>| l@)
}

// ---------------------------------------------------------------------------
// Classes of characters
// ---------------------------------------------------------------------------

/// Unicode `White_Space`, the set that `char::is_whitespace` tests and that
/// `str::trim` and `str::split_whitespace` split on.
pub open spec fn es_blanco(c: char) -> bool {
    ||| '\u{9}' <= c && c <= '\u{d}'
    ||| c == ' '
    ||| c == '\u{85}'
    ||| c == '\u{a0}'
    ||| c == '\u{1680}'
    ||| '\u{2000}' <= c && c <= '\u{200a}'
    ||| c == '\u{2028}'
    ||| c == '\u{2029}'
    ||| c == '\u{202f}'
    ||| c == '\u{205f}'
    ||| c == '\u{3000}'
}

pub fn es_blanco_exec(c: char) -> (r: bool)
    ensures
        r == es_blanco(c),
{
    ('\u{9}' <= c && c <= '\u{d}')
        || c == ' '
        || c == '\u{85}'
        || c == '\u{a0}'
        || c == '\u{1680}'
        || ('\u{2000}' <= c && c <= '\u{200a}')
        || c == '\u{2028}'
        || c == '\u{2029}'
        || c == '\u{202f}'
        || c == '\u{205f}'
        || c == '\u{3000}'
}

/// An ASCII letter, what `char::is_ascii_alphabetic` tests.
pub open spec fn es_letra_ascii(c: char) -> bool {
    ('a' <= c && c <= 'z') || ('A' <= c && c <= 'Z')
}

pub fn es_letra_ascii_exec(c: char) -> (r: bool)
    ensures
        r == es_letra_ascii(c),
{
    ('a' <= c && c <= 'z') || ('A' <= c && c <= 'Z')
}

/// An ASCII decimal digit.
pub open spec fn es_digito(c: char) -> bool {
    '0' <= c && c <= '9'
}

/// What `char::to_ascii_lowercase` gives: upper-case ASCII letters become
/// lower-case, everything else stays.
pub open spec fn minuscula(c: char) -> char {
    if 'A' <= c && c <= 'Z' {
        ((c as u32) + 32) as char
    } else {
        c
    }
}

/// What `str::to_ascii_lowercase` gives.
pub open spec fn minusculas(s: Seq<char>) -> Seq<char> {
    s.map_values(|c: char| minuscula(c))
}

pub fn minusculas_exec(s: &[char]) -> (r: Vec<char>)
    ensures
        r@ == minusculas(s@),
{
    let mut r: Vec<char> = Vec::new();
    let n = s.len();
    for i in 0..n
        invariant
            n == s@.len(),
            r@ == minusculas(s@.take(i as int)),
    {
        let c = s[i];
        let m = if 'A' <= c && c <= 'Z' {
            ((c as u8) + 32) as char
        } else {
            c
        };
        r.push(m);
        assert(minusculas(s@.take(i + 1)) =~= minusculas(s@.take(i as int)).push(minuscula(c)));
    }
    assert(s@.take(n as int) =~= s@);
    r
}

// ---------------------------------------------------------------------------
// Trimming
// ---------------------------------------------------------------------------

/// `str::trim_start`: the blanks at the start, gone.
pub open spec fn sin_blancos_al_principio(s: Seq<char>) -> Seq<char>
    decreases s.len(),
{
    if s.len() > 0 && es_blanco(s[0]) {
        sin_blancos_al_principio(s.drop_first())
    } else {
        s
    }
}

/// `str::trim_end`: the blanks at the end, gone.
pub open spec fn sin_blancos_al_final(s: Seq<char>) -> Seq<char>
    decreases s.len(),
{
    if s.len() > 0 && es_blanco(s.last()) {
        sin_blancos_al_final(s.drop_last())
    } else {
        s
    }
}

/// `str::trim`: the blanks at both ends, gone.
pub open spec fn recortar(s: Seq<char>) -> Seq<char> {
    sin_blancos_al_principio(sin_blancos_al_final(s))
}

pub fn recortar_exec(s: &[char]) -> (r: Vec<char>)
    ensures
        r@ == recortar(s@),
{
    let mut b = s.len();
    assert(s@.take(b as int) =~= s@);
    while b > 0 && es_blanco_exec(s[b - 1])
        invariant
            b <= s@.len(),
            sin_blancos_al_final(s@) == sin_blancos_al_final(s@.take(b as int)),
        decreases b,
    {
        assert(s@.take(b as int).drop_last() =~= s@.take(b - 1));
        b -= 1;
    }
    assert(sin_blancos_al_final(s@.take(b as int)) == s@.take(b as int));
    assert(s@.take(b as int) =~= s@.subrange(0, b as int));
    let mut a: usize = 0;
    while a < b && es_blanco_exec(s[a])
        invariant
            a <= b <= s@.len(),
            recortar(s@) == sin_blancos_al_principio(s@.subrange(a as int, b as int)),
        decreases b - a,
    {
        assert(s@.subrange(a as int, b as int).drop_first() =~= s@.subrange(a + 1, b as int));
        a += 1;
    }
    tramo(s, a, b)
}

/// `str::trim_end_matches(c)` for one character.
pub open spec fn sin_finales(s: Seq<char>, c: char) -> Seq<char>
    decreases s.len(),
{
    if s.len() > 0 && s.last() == c {
        sin_finales(s.drop_last(), c)
    } else {
        s
    }
}

/// `str::trim_start_matches(c)` for one character.
pub open spec fn sin_iniciales(s: Seq<char>, c: char) -> Seq<char>
    decreases s.len(),
{
    if s.len() > 0 && s[0] == c {
        sin_iniciales(s.drop_first(), c)
    } else {
        s
    }
}

pub fn sin_finales_exec(s: &[char], c: char) -> (r: Vec<char>)
    ensures
        r@ == sin_finales(s@, c),
{
    let mut b = s.len();
    assert(s@.take(b as int) =~= s@);
    while b > 0 && s[b - 1] == c
        invariant
            b <= s@.len(),
            sin_finales(s@, c) == sin_finales(s@.take(b as int), c),
        decreases b,
    {
        assert(s@.take(b as int).drop_last() =~= s@.take(b - 1));
        b -= 1;
    }
    assert(s@.take(b as int) =~= s@.subrange(0, b as int));
    tramo(s, 0, b)
}

pub fn sin_iniciales_exec(s: &[char], c: char) -> (r: Vec<char>)
    ensures
        r@ == sin_iniciales(s@, c),
{
    let n = s.len();
    let mut a: usize = 0;
    assert(s@.subrange(0, n as int) =~= s@);
    while a < n && s[a] == c
        invariant
            a <= n == s@.len(),
            sin_iniciales(s@, c) == sin_iniciales(s@.subrange(a as int, n as int), c),
        decreases n - a,
    {
        assert(s@.subrange(a as int, n as int).drop_first() =~= s@.subrange(a + 1, n as int));
        a += 1;
    }
    assert(s@.subrange(0, n as int) =~= s@);
    tramo(s, a, n)
}

// ---------------------------------------------------------------------------
// Prefixes, suffixes, substrings
// ---------------------------------------------------------------------------

/// `str::starts_with`.
pub open spec fn empieza_con(s: Seq<char>, p: Seq<char>) -> bool {
    p.len() <= s.len() && s.take(p.len() as int) == p
}

/// `str::ends_with`.
pub open spec fn termina_con(s: Seq<char>, p: Seq<char>) -> bool {
    p.len() <= s.len() && s.skip(s.len() - p.len()) == p
}

/// `p` stands in `s` from position `i` on.
pub open spec fn aparece_en(s: Seq<char>, p: Seq<char>, i: int) -> bool {
    0 <= i && i + p.len() <= s.len() && s.subrange(i, i + p.len()) == p
}

/// `str::contains`.
pub open spec fn contiene(s: Seq<char>, p: Seq<char>) -> bool {
    exists|i: int| aparece_en(s, p, i)
}

pub fn aparece_en_exec(s: &[char], p: &[char], i: usize) -> (r: bool)
    ensures
        r == aparece_en(s@, p@, i as int),
{
    if i > s.len() || p.len() > s.len() - i {
        return false;
    }
    let m = p.len();
    let ls = s.len();
    for j in 0..m
        invariant
            m == p@.len(),
            ls == s@.len(),
            i + m <= ls,
            s@.subrange(i as int, i + j) == p@.take(j as int),
    {
        if s[i + j] != p[j] {
            assert(s@.subrange(i as int, i + m)[j as int] == s@[i + j]);
            return false;
        }
        assert(s@.subrange(i as int, i + j + 1) =~= s@.subrange(i as int, i + j).push(s@[i + j]));
        assert(p@.take(j + 1) =~= p@.take(j as int).push(p@[j as int]));
    }
    assert(p@.take(m as int) =~= p@);
    true
}

pub fn empieza_con_exec(s: &[char], p: &[char]) -> (r: bool)
    ensures
        r == empieza_con(s@, p@),
{
    let r = aparece_en_exec(s, p, 0);
    proof {
        if p@.len() <= s@.len() {
            assert(s@.subrange(0, p@.len() as int) =~= s@.take(p@.len() as int));
        }
    }
    r
}

pub fn termina_con_exec(s: &[char], p: &[char]) -> (r: bool)
    ensures
        r == termina_con(s@, p@),
{
    if p.len() > s.len() {
        return false;
    }
    let r = aparece_en_exec(s, p, s.len() - p.len());
    assert(s@.subrange(s@.len() - p@.len(), s@.len() as int) =~= s@.skip(s@.len() - p@.len()));
    r
}

pub fn contiene_exec(s: &[char], p: &[char]) -> (r: bool)
    ensures
        r == contiene(s@, p@),
{
    if p.len() > s.len() {
        assert forall|i: int| !aparece_en(s@, p@, i) by {}
        return false;
    }
    let tope = s.len() - p.len();
    for i in 0..tope
        invariant
            tope == s@.len() - p@.len(),
            forall|k: int| 0 <= k < i ==> !aparece_en(s@, p@, k),
    {
        if aparece_en_exec(s, p, i) {
            return true;
        }
    }
    if aparece_en_exec(s, p, tope) {
        return true;
    }
    assert forall|k: int| !aparece_en(s@, p@, k) by {
        if 0 <= k < tope {
        }
    }
    false
}

// ---------------------------------------------------------------------------
// Lines and words
// ---------------------------------------------------------------------------

/// A line without the `\r` of a `\r\n` ending.
pub open spec fn sin_cr(l: Seq<char>) -> Seq<char> {
    if l.len() > 0 && l.last() == '\r' {
        l.drop_last()
    } else {
        l
    }
}

/// The lines of `resto`, when `actual` is what the current line holds so far.
///
/// A `\n` ends a line, and a `\r` just before it goes with it; what follows
/// the last `\n`, if anything, is one more line.
pub open spec fn lineas_desde(actual: Seq<char>, resto: Seq<char>) -> Seq<Seq<char>>
    decreases resto.len(),
{
    if resto.len() == 0 {
        if actual.len() == 0 {
            seq![]
        } else {
            seq![actual]
        }
    } else if resto[0] == '\n' {
        seq![sin_cr(actual)] + lineas_desde(seq![], resto.drop_first())
    } else {
        lineas_desde(actual.push(resto[0]), resto.drop_first())
    }
}

/// `str::lines`.
pub open spec fn lineas(s: Seq<char>) -> Seq<Seq<char>> {
    lineas_desde(seq![], s)
}

pub fn lineas_exec(s: &[char]) -> (r: Vec<Vec<char>>)
    ensures
        vistas(r@) == lineas(s@),
{
    let mut hechas: Vec<Vec<char>> = Vec::new();
    let mut actual: Vec<char> = Vec::new();
    let n = s.len();
    assert(s@.skip(0) =~= s@);
    for i in 0..n
        invariant
            n == s@.len(),
            lineas(s@) == vistas(hechas@) + lineas_desde(actual@, s@.skip(i as int)),
    {
        let c = s[i];
        let ghost resto = s@.skip(i as int);
        assert(resto[0] == c);
        assert(resto.drop_first() =~= s@.skip(i + 1));
        if c == '\n' {
            let ghost previo = actual@;
            let mut linea = actual;
            let ultimo = linea.len();
            if ultimo > 0 && linea[ultimo - 1] == '\r' {
                linea.pop();
            }
            assert(linea@ =~= sin_cr(previo));
            let ghost antes = hechas@;
            hechas.push(linea);
            actual = Vec::new();
            assert(vistas(hechas@) =~= vistas(antes).push(linea@));
            assert(vistas(hechas@) + lineas_desde(actual@, s@.skip(i + 1)) =~= vistas(antes) + (
            seq![linea@] + lineas_desde(seq![], s@.skip(i + 1))));
        } else {
            actual.push(c);
        }
    }
    assert(s@.skip(n as int) =~= Seq::<char>::empty());
    if actual.len() > 0 {
        let ghost antes = hechas@;
        hechas.push(actual);
        assert(vistas(hechas@) =~= vistas(antes).push(hechas@[antes.len() as int]@));
    } else {
        assert(vistas(hechas@) + seq![] =~= vistas(hechas@));
    }
    hechas
}

/// The word held so far, if there is one.
pub open spec fn palabra_si_hay(actual: Seq<char>) -> Seq<Seq<char>> {
    if actual.len() == 0 {
        seq![]
    } else {
        seq![actual]
    }
}

/// The words of `resto`, when `actual` is what the current word holds so far.
///
/// A blank ends a word; runs of blanks make no empty words.
pub open spec fn palabras_desde(actual: Seq<char>, resto: Seq<char>) -> Seq<Seq<char>>
    decreases resto.len(),
{
    if resto.len() == 0 {
        palabra_si_hay(actual)
    } else if es_blanco(resto[0]) {
        palabra_si_hay(actual) + palabras_desde(seq![], resto.drop_first())
    } else {
        palabras_desde(actual.push(resto[0]), resto.drop_first())
    }
}

/// `str::split_whitespace`.
pub open spec fn palabras(s: Seq<char>) -> Seq<Seq<char>> {
    palabras_desde(seq![], s)
}

pub fn palabras_exec(s: &[char]) -> (r: Vec<Vec<char>>)
    ensures
        vistas(r@) == palabras(s@),
{
    let mut hechas: Vec<Vec<char>> = Vec::new();
    let mut actual: Vec<char> = Vec::new();
    let n = s.len();
    assert(s@.skip(0) =~= s@);
    for i in 0..n
        invariant
            n == s@.len(),
            palabras(s@) == vistas(hechas@) + palabras_desde(actual@, s@.skip(i as int)),
    {
        let c = s[i];
        let ghost resto = s@.skip(i as int);
        assert(resto[0] == c);
        assert(resto.drop_first() =~= s@.skip(i + 1));
        if es_blanco_exec(c) {
            let ghost antes = hechas@;
            let ghost previo = actual@;
            if actual.len() > 0 {
                hechas.push(actual);
                assert(vistas(hechas@) =~= vistas(antes) + palabra_si_hay(previo));
            } else {
                assert(vistas(hechas@) =~= vistas(antes) + palabra_si_hay(previo));
            }
            actual = Vec::new();
            assert(vistas(hechas@) + palabras_desde(actual@, s@.skip(i + 1)) =~= vistas(antes) + (
            palabra_si_hay(previo) + palabras_desde(seq![], s@.skip(i + 1))));
        } else {
            actual.push(c);
        }
    }
    assert(s@.skip(n as int) =~= Seq::<char>::empty());
    let ghost antes = hechas@;
    let ghost previo = actual@;
    if actual.len() > 0 {
        hechas.push(actual);
    }
    assert(vistas(hechas@) =~= vistas(antes) + palabra_si_hay(previo));
    hechas
}

// ---------------------------------------------------------------------------
// Escape sequences
// ---------------------------------------------------------------------------

/// The character that starts an ANSI escape sequence.
pub open spec fn es_escape(c: char) -> bool {
    c == '\u{1b}'
}

/// `resto` without its escape sequences; `dentro` says whether an escape
/// sequence is open when `resto` starts.
///
/// An escape sequence runs from the escape character to the first ASCII
/// letter after it, both included, or to the end.
pub open spec fn sin_escapes_desde(dentro: bool, resto: Seq<char>) -> Seq<char>
    decreases resto.len(),
{
    if resto.len() == 0 {
        seq![]
    } else if dentro {
        sin_escapes_desde(!es_letra_ascii(resto[0]), resto.drop_first())
    } else if es_escape(resto[0]) {
        sin_escapes_desde(true, resto.drop_first())
    } else {
        seq![resto[0]] + sin_escapes_desde(false, resto.drop_first())
    }
}

/// A line without its ANSI escape sequences.
pub open spec fn sin_escapes(s: Seq<char>) -> Seq<char> {
    sin_escapes_desde(false, s)
}

pub fn sin_escapes_exec(s: &[char]) -> (r: Vec<char>)
    ensures
        r@ == sin_escapes(s@),
{
    let mut salida: Vec<char> = Vec::new();
    let mut dentro = false;
    let n = s.len();
    assert(s@.skip(0) =~= s@);
    for i in 0..n
        invariant
            n == s@.len(),
            sin_escapes(s@) == salida@ + sin_escapes_desde(dentro, s@.skip(i as int)),
    {
        let c = s[i];
        let ghost resto = s@.skip(i as int);
        assert(resto[0] == c);
        assert(resto.drop_first() =~= s@.skip(i + 1));
        if dentro {
            if es_letra_ascii_exec(c) {
                dentro = false;
            }
        } else if c == '\u{1b}' {
            dentro = true;
        } else {
            let ghost antes = salida@;
            salida.push(c);
            assert(salida@ + sin_escapes_desde(false, s@.skip(i + 1)) =~= antes + (seq![c]
                + sin_escapes_desde(false, s@.skip(i + 1))));
        }
    }
    assert(s@.skip(n as int) =~= Seq::<char>::empty());
    assert(salida@ + seq![] =~= salida@);
    salida
}

// ---------------------------------------------------------------------------
// Numbers
// ---------------------------------------------------------------------------

/// The decimal digit of `d`, for `d < 10`.
pub open spec fn digito(d: nat) -> char {
    (d + 48) as char
}

/// A lower-case hexadecimal digit, for `d < 16`.
pub open spec fn digito_hex(d: nat) -> char {
    if d < 10 {
        (d + 48) as char
    } else {
        (d + 87) as char
    }
}

/// How `Display` writes a natural number: its decimal digits, most
/// significant first, with no leading zeros.
pub open spec fn decimal(n: nat) -> Seq<char>
    decreases n,
{
    if n < 10 {
        seq![digito(n)]
    } else {
        decimal(n / 10).push(digito(n % 10))
    }
}

/// The `n` last hexadecimal digits of `h`, most significant first and
/// padded with zeros: `format!("{h:0nx}")` when `h < 16^n`.
pub open spec fn hexadecimal(h: nat, n: nat) -> Seq<char>
    decreases n,
{
    if n == 0 {
        seq![]
    } else {
        hexadecimal(h / 16, (n - 1) as nat).push(digito_hex(h % 16))
    }
}

fn digito_exec(d: u64) -> (c: char)
    requires
        d < 10,
    ensures
        c == digito(d as nat),
{
    ((d as u8) + 48) as char
}

fn digito_hex_exec(d: u64) -> (c: char)
    requires
        d < 16,
    ensures
        c == digito_hex(d as nat),
{
    if d < 10 {
        ((d as u8) + 48) as char
    } else {
        ((d as u8) + 87) as char
    }
}

pub fn decimal_exec(n: u64) -> (r: Vec<char>)
    ensures
        r@ == decimal(n as nat),
{
    let mut x = n;
    let mut cola: Vec<char> = Vec::new();
    while x >= 10
        invariant
            decimal(n as nat) == decimal(x as nat) + cola@,
        decreases x,
    {
        let d = digito_exec(x % 10);
        let ghost antes = cola@;
        cola.insert(0, d);
        assert(decimal(x as nat) == decimal((x / 10) as nat).push(d));
        assert(decimal((x / 10) as nat).push(d) + antes =~= decimal((x / 10) as nat) + cola@);
        x = x / 10;
    }
    let d = digito_exec(x);
    let ghost antes = cola@;
    cola.insert(0, d);
    assert(seq![d] + antes =~= cola@);
    cola
}

/// The 16 hexadecimal digits of a `u64`: `format!("{h:016x}")`.
pub fn hexadecimal_16(h: u64) -> (r: String)
    ensures
        r@ == hexadecimal(h as nat, 16),
{
    let mut x = h;
    let mut cola: Vec<char> = Vec::new();
    for k in 0..16u64
        invariant
            hexadecimal(h as nat, 16) == hexadecimal(x as nat, (16 - k) as nat) + cola@,
    {
        let d = digito_hex_exec(x % 16);
        let ghost antes = cola@;
        cola.insert(0, d);
        assert(hexadecimal(x as nat, (16 - k) as nat) == hexadecimal((x / 16) as nat, (16 - k
            - 1) as nat).push(d));
        assert(hexadecimal((x / 16) as nat, (16 - k - 1) as nat).push(d) + antes
            =~= hexadecimal((x / 16) as nat, (16 - k - 1) as nat) + cola@);
        x = x / 16;
    }
    assert(hexadecimal(x as nat, 0) + cola@ =~= cola@);
    texto_de(cola.as_slice())
}

/// Every character is an ASCII digit.
pub open spec fn son_digitos(s: Seq<char>) -> bool {
    forall|i: int| 0 <= i < s.len() ==> es_digito(#[trigger] s[i])
}

/// The number that a sequence of decimal digits writes.
pub open spec fn valor(s: Seq<char>) -> nat
    decreases s.len(),
{
    if s.len() == 0 {
        0
    } else {
        valor(s.drop_last()) * 10 + (s.last() as int - 48) as nat
    }
}

/// The digits of a number, without the `+` that may precede them.
pub open spec fn sin_signo(s: Seq<char>) -> Seq<char> {
    if s.len() > 0 && s[0] == '+' {
        s.drop_first()
    } else {
        s
    }
}

/// What `str::parse::<u64>` gives: an optional `+` and then one or more
/// decimal digits, whose value fits in a `u64`; anything else is an error.
pub open spec fn leer_u64(s: Seq<char>) -> Option<u64> {
    let d = sin_signo(s);
    if d.len() > 0 && son_digitos(d) && valor(d) <= u64::MAX {
        Some(valor(d) as u64)
    } else {
        None
    }
}

/// A longer run of digits is worth at least what its beginning is worth.
proof fn lema_valor_crece(s: Seq<char>, k: int)
    requires
        son_digitos(s),
        0 <= k <= s.len(),
    ensures
        valor(s.take(k)) <= valor(s),
    decreases s.len(),
{
    if k < s.len() {
        assert(s.drop_last().take(k) =~= s.take(k));
        lema_valor_crece(s.drop_last(), k);
        assert(es_digito(s[s.len() - 1]));
    } else {
        assert(s.take(k) =~= s);
    }
}

/// One more digit: the run stays made of digits, and is worth ten times
/// as much plus the new digit.
proof fn lema_un_digito_mas(d: Seq<char>, k: int)
    requires
        0 <= k < d.len(),
        son_digitos(d.take(k)),
        es_digito(d[k]),
    ensures
        son_digitos(d.take(k + 1)),
        valor(d.take(k + 1)) == valor(d.take(k)) * 10 + (d[k] as int - 48),
{
    let siguiente = d.take(k + 1);
    assert(siguiente.drop_last() =~= d.take(k));
    assert(siguiente.last() == d[k]);
    assert forall|i: int| 0 <= i < siguiente.len() implies es_digito(#[trigger] siguiente[i]) by {
        if i < k {
            assert(siguiente[i] == d.take(k)[i]);
        }
    }
}

pub fn leer_u64_exec(s: &[char]) -> (r: Option<u64>)
    ensures
        r == leer_u64(s@),
{
    let n = s.len();
    let inicio: usize = if n > 0 && s[0] == '+' {
        1
    } else {
        0
    };
    let ghost d = sin_signo(s@);
    assert(d =~= s@.subrange(inicio as int, n as int));
    if inicio == n {
        return None;
    }
    let mut v: u64 = 0;
    for i in inicio..n
        invariant
            n == s@.len(),
            inicio <= n,
            d == s@.subrange(inicio as int, n as int),
            d == sin_signo(s@),
            son_digitos(d.take(i - inicio)),
            v as nat == valor(d.take(i - inicio)),
    {
        let c = s[i];
        assert(d[i - inicio] == c);
        if c < '0' || c > '9' {
            assert(!es_digito(d[i - inicio]));
            return None;
        }
        let cifra = ((c as u32) - 48) as u64;
        proof {
            lema_un_digito_mas(d, i - inicio);
        }
        match v.checked_mul(10) {
            None => {
                proof {
                    if son_digitos(d) {
                        lema_valor_crece(d, i - inicio + 1);
                    }
                }
                return None;
            },
            Some(m) => match m.checked_add(cifra) {
                None => {
                    proof {
                        if son_digitos(d) {
                            lema_valor_crece(d, i - inicio + 1);
                        }
                    }
                    return None;
                },
                Some(w) => {
                    v = w;
                },
            },
        }
    }
    assert(d.take(n - inicio) =~= d);
    Some(v)
}

// ---------------------------------------------------------------------------
// What splitting keeps
// ---------------------------------------------------------------------------

/// Every character of every sequence in `ls` has the property `p`.
pub open spec fn todos_cumplen(ls: Seq<Seq<char>>, p: spec_fn(char) -> bool) -> bool {
    forall|k: int, i: int| 0 <= k < ls.len() && 0 <= i < ls[k].len() ==> p(#[trigger] ls[k][i])
}

/// Every character of `s` has the property `p`.
pub open spec fn cumplen(s: Seq<char>, p: spec_fn(char) -> bool) -> bool {
    forall|i: int| 0 <= i < s.len() ==> p(#[trigger] s[i])
}

/// Lines are made of the characters of the text: a property of every
/// character of the text holds of every character of every line.
pub proof fn lema_lineas_conservan(p: spec_fn(char) -> bool, actual: Seq<char>, resto: Seq<char>)
    requires
        cumplen(actual, p),
        cumplen(resto, p),
    ensures
        todos_cumplen(lineas_desde(actual, resto), p),
    decreases resto.len(),
{
    if resto.len() == 0 {
    } else if resto[0] == '\n' {
        lema_lineas_conservan(p, seq![], resto.drop_first());
        let resto_l = lineas_desde(seq![], resto.drop_first());
        let l = sin_cr(actual);
        assert(cumplen(l, p));
        let todas = seq![l] + resto_l;
        assert forall|k: int, i: int| 0 <= k < todas.len() && 0 <= i < todas[k].len() implies p(
            #[trigger] todas[k][i],
        ) by {
            if k > 0 {
                assert(todas[k] == resto_l[k - 1]);
            }
        }
    } else {
        lema_lineas_conservan(p, actual.push(resto[0]), resto.drop_first());
    }
}

/// Words are made of the characters of the text, none of them blank, and
/// none of them is empty.
pub proof fn lema_palabras_conservan(p: spec_fn(char) -> bool, actual: Seq<char>, resto: Seq<char>)
    requires
        cumplen(actual, p),
        forall|i: int| 0 <= i < actual.len() ==> !es_blanco(#[trigger] actual[i]),
        cumplen(resto, p),
    ensures
        todos_cumplen(palabras_desde(actual, resto), |c: char| p(c) && !es_blanco(c)),
        forall|k: int| 0 <= k < palabras_desde(actual, resto).len() ==> #[trigger] palabras_desde(
            actual,
            resto,
        )[k].len() > 0,
    decreases resto.len(),
{
    let q = |c: char| p(c) && !es_blanco(c);
    if resto.len() == 0 {
    } else if es_blanco(resto[0]) {
        lema_palabras_conservan(p, seq![], resto.drop_first());
        let siguientes = palabras_desde(seq![], resto.drop_first());
        let todas = palabra_si_hay(actual) + siguientes;
        assert forall|k: int, i: int| 0 <= k < todas.len() && 0 <= i < todas[k].len() implies q(
            #[trigger] todas[k][i],
        ) by {
            if k >= palabra_si_hay(actual).len() {
                assert(todas[k] == siguientes[k - palabra_si_hay(actual).len()]);
            }
        }
        assert forall|k: int| 0 <= k < todas.len() implies #[trigger] todas[k].len() > 0 by {
            if k >= palabra_si_hay(actual).len() {
                assert(todas[k] == siguientes[k - palabra_si_hay(actual).len()]);
            }
        }
    } else {
        lema_palabras_conservan(p, actual.push(resto[0]), resto.drop_first());
    }
}

/// Nothing but blanks makes no word.
pub proof fn lema_palabras_de_blancos(resto: Seq<char>)
    requires
        forall|i: int| 0 <= i < resto.len() ==> es_blanco(#[trigger] resto[i]),
    ensures
        palabras_desde(seq![], resto).len() == 0,
    decreases resto.len(),
{
    if resto.len() > 0 {
        lema_palabras_de_blancos(resto.drop_first());
        assert(palabra_si_hay(seq![]) =~= Seq::<Seq<char>>::empty());
    }
}

/// No escape character survives.
pub proof fn lema_sin_escapes_limpia(dentro: bool, resto: Seq<char>)
    ensures
        forall|i: int| 0 <= i < sin_escapes_desde(dentro, resto).len() ==> !es_escape(
            #[trigger] sin_escapes_desde(dentro, resto)[i],
        ),
        cumplen(resto, |c: char| es_blanco(c)) ==> cumplen(sin_escapes_desde(dentro, resto), |c: char| es_blanco(c)),
    decreases resto.len(),
{
    if resto.len() > 0 {
        let b = |c: char| es_blanco(c);
        if dentro {
            lema_sin_escapes_limpia(!es_letra_ascii(resto[0]), resto.drop_first());
            assert(sin_escapes_desde(dentro, resto) == sin_escapes_desde(
                !es_letra_ascii(resto[0]),
                resto.drop_first(),
            ));
            if cumplen(resto, b) {
                assert(cumplen(resto.drop_first(), b));
            }
        } else if es_escape(resto[0]) {
            lema_sin_escapes_limpia(true, resto.drop_first());
            assert(sin_escapes_desde(dentro, resto) == sin_escapes_desde(true, resto.drop_first()));
            if cumplen(resto, b) {
                assert(cumplen(resto.drop_first(), b));
            }
        } else {
            lema_sin_escapes_limpia(false, resto.drop_first());
            let cola = sin_escapes_desde(false, resto.drop_first());
            let todo = seq![resto[0]] + cola;
            assert forall|i: int| 0 <= i < todo.len() implies !es_escape(#[trigger] todo[i]) by {
                if i > 0 {
                    assert(todo[i] == cola[i - 1]);
                }
            }
            if cumplen(resto, b) {
                assert(cumplen(resto.drop_first(), b));
                assert forall|i: int| 0 <= i < todo.len() implies b(#[trigger] todo[i]) by {
                    if i > 0 {
                        assert(todo[i] == cola[i - 1]);
                    } else {
                        assert(b(resto[0]));
                    }
                }
            }
        }
    }
}

/// The lines of a text that starts with a line `x`, closed by `\n`, are
/// that line and then the lines of the rest.
pub proof fn lema_lineas_primera(actual: Seq<char>, x: Seq<char>, resto: Seq<char>)
    requires
        forall|i: int| 0 <= i < x.len() ==> x[i] != '\n',
    ensures
        lineas_desde(actual, x + seq!['\n'] + resto) == seq![sin_cr(actual + x)] + lineas_desde(
            seq![],
            resto,
        ),
    decreases x.len(),
{
    let s = x + seq!['\n'] + resto;
    if x.len() == 0 {
        assert(s[0] == '\n');
        assert(s.drop_first() =~= resto);
        assert(actual + x =~= actual);
    } else {
        assert(s[0] == x[0]);
        assert(s.drop_first() =~= x.drop_first() + seq!['\n'] + resto);
        lema_lineas_primera(actual.push(x[0]), x.drop_first(), resto);
        assert(actual.push(x[0]) + x.drop_first() =~= actual + x);
    }
}

/// A word with no blank in it, then a blank: the word held so far grows
/// by it and ends there.
pub proof fn lema_palabras_primera(actual: Seq<char>, w: Seq<char>, b: char, resto: Seq<char>)
    requires
        forall|i: int| 0 <= i < w.len() ==> !es_blanco(#[trigger] w[i]),
        es_blanco(b),
    ensures
        palabras_desde(actual, w + seq![b] + resto) == palabra_si_hay(actual + w) + palabras_desde(
            seq![],
            resto,
        ),
    decreases w.len(),
{
    let s = w + seq![b] + resto;
    if w.len() == 0 {
        assert(s[0] == b);
        assert(s.drop_first() =~= resto);
        assert(actual + w =~= actual);
    } else {
        assert(s[0] == w[0]);
        assert(s.drop_first() =~= w.drop_first() + seq![b] + resto);
        lema_palabras_primera(actual.push(w[0]), w.drop_first(), b, resto);
        assert(actual.push(w[0]) + w.drop_first() =~= actual + w);
    }
}

/// A last word with no blank in it.
pub proof fn lema_palabras_ultima(actual: Seq<char>, w: Seq<char>)
    requires
        forall|i: int| 0 <= i < w.len() ==> !es_blanco(#[trigger] w[i]),
    ensures
        palabras_desde(actual, w) == palabra_si_hay(actual + w),
    decreases w.len(),
{
    if w.len() == 0 {
        assert(actual + w =~= actual);
    } else {
        lema_palabras_ultima(actual.push(w[0]), w.drop_first());
        assert(actual.push(w[0]) + w.drop_first() =~= actual + w);
    }
}

/// A text with no escape character has nothing to take out.
pub proof fn lema_sin_escapes_nada(resto: Seq<char>)
    requires
        forall|i: int| 0 <= i < resto.len() ==> !es_escape(#[trigger] resto[i]),
    ensures
        sin_escapes_desde(false, resto) == resto,
    decreases resto.len(),
{
    if resto.len() > 0 {
        lema_sin_escapes_nada(resto.drop_first());
        assert(!es_escape(resto[0]));
        assert(seq![resto[0]] + resto.drop_first() =~= resto);
    }
}

/// Lines split at a line break: the lines of a text that ends a line, and
/// then the lines of what follows.
pub proof fn lema_lineas_concatena(actual: Seq<char>, a: Seq<char>, b: Seq<char>)
    requires
        a.len() > 0,
        a.last() == '\n',
    ensures
        lineas_desde(actual, a + b) == lineas_desde(actual, a) + lineas_desde(seq![], b),
    decreases a.len(),
{
    let s = a + b;
    assert(s[0] == a[0]);
    assert(s.drop_first() =~= a.drop_first() + b);
    if a[0] == '\n' {
        if a.len() == 1 {
            assert(a.drop_first() =~= Seq::<char>::empty());
            assert(a.drop_first() + b =~= b);
            assert(lineas_desde(seq![], a.drop_first()) =~= Seq::<Seq<char>>::empty());
            assert(lineas_desde(actual, a) =~= seq![sin_cr(actual)]);
            assert(lineas_desde(actual, a + b) =~= seq![sin_cr(actual)] + lineas_desde(seq![], b));
        } else {
            lema_lineas_concatena(seq![], a.drop_first(), b);
            assert(lineas_desde(actual, a + b) =~= seq![sin_cr(actual)] + (lineas_desde(
                seq![],
                a.drop_first(),
            ) + lineas_desde(seq![], b)));
        }
    } else {
        assert(a.drop_first().last() == a.last());
        lema_lineas_concatena(actual.push(a[0]), a.drop_first(), b);
    }
}

/// The lines of two texts, the first empty or ending a line, are the lines
/// of the first and then those of the second.
pub proof fn lema_lineas_de_dos(a: Seq<char>, b: Seq<char>)
    requires
        a.len() == 0 || a.last() == '\n',
    ensures
        lineas(a + b) == lineas(a) + lineas(b),
{
    if a.len() == 0 {
        assert(a + b =~= b);
        assert(lineas(a) =~= Seq::<Seq<char>>::empty());
        assert(lineas(a) + lineas(b) =~= lineas(b));
    } else {
        lema_lineas_concatena(seq![], a, b);
    }
}

} // verus!
