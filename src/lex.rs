use vstd::prelude::*;

verus! {

/// A token of the declaration language.
#[derive(Clone, Copy, Debug)]
pub enum Tok {
    /// A decimal or `0x` hexadecimal integer.
    Num(u64),
    /// A name: a letter or `_`, then letters, digits and `_`.
    Ident(&'static str),
    /// The text between two double quotes.
    Text(&'static str),
    /// `=>`
    Arrow,
    /// `:`
    Colon,
    /// `,`
    Comma,
    /// `..`
    Dots,
    /// `..=`
    DotsEq,
    /// `{`
    Open,
    /// `}`
    Close,
}

/// A token and the characters `[pos, end)` of the source that it spans.
#[derive(Clone, Copy, Debug)]
pub struct Token {
    pub tok: Tok,
    pub pos: usize,
    pub end: usize,
}

pub open spec fn is_space(c: char) -> bool {
    c == ' ' || c == '\n' || c == '\t' || c == '\r'
}

pub open spec fn is_digit(c: char) -> bool {
    '0' <= c <= '9'
}

pub open spec fn is_hex_digit(c: char) -> bool {
    is_digit(c) || 'a' <= c <= 'f' || 'A' <= c <= 'F'
}

pub open spec fn is_ident_start(c: char) -> bool {
    'a' <= c <= 'z' || 'A' <= c <= 'Z' || c == '_'
}

pub open spec fn is_ident_char(c: char) -> bool {
    is_ident_start(c) || is_digit(c)
}

pub open spec fn digit_value(c: char) -> int {
    if is_digit(c) {
        c as int - '0' as int
    } else if 'a' <= c <= 'f' {
        c as int - 'a' as int + 10
    } else {
        c as int - 'A' as int + 10
    }
}

/// `c` is a digit in base `rx` (10 or 16).
pub open spec fn is_radix_digit(c: char, rx: int) -> bool {
    if rx == 16 {
        is_hex_digit(c)
    } else {
        is_digit(c)
    }
}

proof fn lemma_digit_bound(c: char, rx: int)
    requires
        rx == 10 || rx == 16,
        is_radix_digit(c, rx),
    ensures
        0 <= digit_value(c) < rx,
{
}

/// The value of the digits `d` in base `radix`.
pub open spec fn digits_value(d: Seq<char>, radix: int) -> int
    decreases d.len(),
{
    if d.len() == 0 {
        0
    } else {
        digits_value(d.drop_last(), radix) * radix + digit_value(d.last())
    }
}

/// A failure to read the source, at the character `pos`.
#[derive(PartialEq, Eq, Structural, Debug, Clone, Copy)]
pub struct LexError {
    pub pos: usize,
}

/// Each token lies within `s`, after the one before it.
pub open spec fn tokens_in(ts: Seq<Token>, s: Seq<char>) -> bool {
    &&& forall|i: int| 0 <= i < ts.len() ==> #[trigger] ts[i].pos < ts[i].end <= s.len()
    &&& forall|i: int| 0 < i < ts.len() ==> ts[i - 1].end <= #[trigger] ts[i].pos
}

/// What token `t` says of the characters it spans in `s`.
pub open spec fn token_reads(t: Token, s: Seq<char>) -> bool {
    let text = s.subrange(t.pos as int, t.end as int);
    match t.tok {
        Tok::Num(n) => if text.len() > 2 && text[0] == '0' && text[1] == 'x' {
            n as int == digits_value(text.skip(2), 16)
        } else {
            n as int == digits_value(text, 10)
        },
        Tok::Ident(name) => name@ == text && is_ident_start(text[0])
            && forall|k: int| 0 <= k < text.len() ==> is_ident_char(#[trigger] text[k]),
        Tok::Text(body) => text.len() >= 2 && text[0] == '"' && text.last() == '"'
            && body@ == text.subrange(1, text.len() - 1),
        Tok::Arrow => text == seq!['=', '>'],
        Tok::Colon => text == seq![':'],
        Tok::Comma => text == seq![','],
        Tok::Dots => text == seq!['.', '.'],
        Tok::DotsEq => text == seq!['.', '.', '='],
        Tok::Open => text == seq!['{'],
        Tok::Close => text == seq!['}'],
    }
}

/// `[from, j)` is the longest run of digits in base `rx` that starts at `from`.
pub open spec fn run_end(s: Seq<char>, from: int, j: int, rx: int) -> bool {
    &&& from <= j <= s.len()
    &&& forall|k: int| from <= k < j ==> is_radix_digit(s[k], rx)
    &&& j < s.len() ==> !is_radix_digit(s[j], rx)
}

/// No token can start at `i`: a character that starts none, a quote that is never
/// closed, a lone `=` or `.`, `0x` without digits, or a number above `u64::MAX`.
pub open spec fn no_token_at(s: Seq<char>, i: int) -> bool {
    let c = s[i];
    if is_digit(c) {
        if c == '0' && i + 1 < s.len() && s[i + 1] == 'x' {
            exists|j: int| #[trigger] run_end(s, i + 2, j, 16)
                && (j == i + 2 || digits_value(s.subrange(i + 2, j), 16) > u64::MAX)
        } else {
            exists|j: int| #[trigger] run_end(s, i, j, 10) && digits_value(s.subrange(i, j), 10) > u64::MAX
        }
    } else if c == '"' {
        forall|m: int| i < m < s.len() ==> s[m] != '"'
    } else if c == '=' {
        !(i + 1 < s.len() && s[i + 1] == '>')
    } else if c == '.' {
        !(i + 1 < s.len() && s[i + 1] == '.')
    } else {
        !is_space(c) && !is_ident_start(c) && c != ':' && c != ',' && c != '{' && c != '}'
    }
}

/// Some token of `ts` spans the character `k`.
pub open spec fn covered(ts: Seq<Token>, k: int) -> bool {
    exists|t: int| 0 <= t < ts.len() && #[trigger] ts[t].pos <= k < ts[t].end
}

/// The end of the run of digits in base `rx` that starts at `k`.
pub open spec fn run(s: Seq<char>, k: int, rx: int) -> int
    decreases s.len() - k,
{
    if 0 <= k < s.len() && is_radix_digit(s[k], rx) {
        run(s, k + 1, rx)
    } else {
        k
    }
}

/// The end of the run of name characters that starts at `k`.
pub open spec fn ident_run(s: Seq<char>, k: int) -> int
    decreases s.len() - k,
{
    if 0 <= k < s.len() && is_ident_char(s[k]) {
        ident_run(s, k + 1)
    } else {
        k
    }
}

/// The first `"` at or after `k`, if any.
pub open spec fn quote_from(s: Seq<char>, k: int) -> Option<int>
    decreases s.len() - k,
{
    if 0 <= k < s.len() {
        if s[k] == '"' {
            Some(k)
        } else {
            quote_from(s, k + 1)
        }
    } else {
        None
    }
}

/// A token as `(kind, value, pos, end)`: the kind numbered in the order of `Tok`,
/// the value of a number (0 for the others), and the characters it spans.
pub open spec fn shape(t: Token) -> (int, int, int, int) {
    let (kind, value) = match t.tok {
        Tok::Num(v) => (0int, v as int),
        Tok::Ident(_) => (1, 0),
        Tok::Text(_) => (2, 0),
        Tok::Arrow => (3, 0),
        Tok::Colon => (4, 0),
        Tok::Comma => (5, 0),
        Tok::Dots => (6, 0),
        Tok::DotsEq => (7, 0),
        Tok::Open => (8, 0),
        Tok::Close => (9, 0),
    };
    (kind, value, t.pos as int, t.end as int)
}

pub open spec fn shapes(ts: Seq<Token>) -> Seq<(int, int, int, int)> {
    ts.map_values(|t: Token| shape(t))
}

/// The kind, value and end of the longest token that starts at the non-blank
/// character `i`, if one does.
pub open spec fn tok_at(s: Seq<char>, i: int) -> Option<(int, int, int)> {
    let c = s[i];
    if is_digit(c) {
        if c == '0' && i + 1 < s.len() && s[i + 1] == 'x' {
            let j = run(s, i + 2, 16);
            let v = digits_value(s.subrange(i + 2, j), 16);
            if j == i + 2 || v > u64::MAX {
                None
            } else {
                Some((0, v, j))
            }
        } else {
            let j = run(s, i, 10);
            let v = digits_value(s.subrange(i, j), 10);
            if v > u64::MAX {
                None
            } else {
                Some((0, v, j))
            }
        }
    } else if is_ident_start(c) {
        Some((1, 0, ident_run(s, i)))
    } else if c == '"' {
        match quote_from(s, i + 1) {
            Some(q) => Some((2, 0, q + 1)),
            None => None,
        }
    } else if c == '=' {
        if i + 1 < s.len() && s[i + 1] == '>' {
            Some((3, 0, i + 2))
        } else {
            None
        }
    } else if c == '.' {
        if i + 1 < s.len() && s[i + 1] == '.' {
            if i + 2 < s.len() && s[i + 2] == '=' {
                Some((7, 0, i + 3))
            } else {
                Some((6, 0, i + 2))
            }
        } else {
            None
        }
    } else if c == ':' {
        Some((4, 0, i + 1))
    } else if c == ',' {
        Some((5, 0, i + 1))
    } else if c == '{' {
        Some((8, 0, i + 1))
    } else if c == '}' {
        Some((9, 0, i + 1))
    } else {
        None
    }
}

/// The tokens of `s` from `i` on, white space skipped, each the longest that
/// starts where it does; or the first position where no token starts.
pub open spec fn scan(s: Seq<char>, i: int) -> Result<Seq<(int, int, int, int)>, int>
    decreases s.len() - i,
{
    if i < 0 || i >= s.len() {
        Ok(Seq::empty())
    } else if is_space(s[i]) {
        scan(s, i + 1)
    } else {
        match tok_at(s, i) {
            Some((k, v, e)) => if i < e <= s.len() {
                match scan(s, e) {
                    Ok(rest) => Ok(seq![(k, v, i, e)] + rest),
                    Err(p) => Err(p),
                }
            } else {
                Err(i)
            },
            None => Err(i),
        }
    }
}

/// `scan` from 0, given that the tokens `done` were read before `i`.
pub open spec fn scan_after(done: Seq<(int, int, int, int)>, s: Seq<char>, i: int) -> Result<Seq<(int, int, int, int)>, int> {
    match scan(s, i) {
        Ok(rest) => Ok(done + rest),
        Err(p) => Err(p),
    }
}

fn skip_digits(s: &'static str, n: usize, start: usize, hex: bool) -> (r: usize)
    requires
        n == s@.len(),
        start <= n,
    ensures
        start <= r <= n,
        forall|k: int| start <= k < r ==> is_radix_digit(s@[k], if hex { 16 } else { 10 }),
        r < n ==> !is_radix_digit(s@[r as int], if hex { 16 } else { 10 }),
        r == run(s@, start as int, if hex { 16 } else { 10 }),
{
    let mut i = start;
    while i < n
        invariant
            start <= i <= n,
            n == s@.len(),
            run(s@, start as int, if hex { 16 } else { 10 }) == run(s@, i as int, if hex { 16 } else { 10 }),
            forall|k: int| start <= k < i ==> is_radix_digit(s@[k], if hex { 16 } else { 10 }),
        decreases n - i,
    {
        let c = s.get_char(i);
        let ok = if hex {
            ('0' <= c && c <= '9') || ('a' <= c && c <= 'f') || ('A' <= c && c <= 'F')
        } else {
            '0' <= c && c <= '9'
        };
        if !ok {
            return i;
        }
        i = i + 1;
    }
    i
}

/// The value of the digits `s[from..to]`, or `None` where it exceeds `u64`.
fn digits_u64(s: &'static str, n: usize, from: usize, to: usize, hex: bool) -> (r: Option<u64>)
    requires
        n == s@.len(),
        from <= to <= n,
        forall|k: int| from <= k < to ==> is_radix_digit(s@[k], if hex { 16 } else { 10 }),
    ensures
        match r {
            Some(v) => v as int == digits_value(s@.subrange(from as int, to as int), if hex { 16 } else { 10 }),
            None => digits_value(s@.subrange(from as int, to as int), if hex { 16 } else { 10 }) > u64::MAX,
        },
{
    let radix: u64 = if hex { 16 } else { 10 };
    let ghost rx: int = if hex { 16 } else { 10 };
    let mut v: u64 = 0;
    let mut i = from;
    proof {
        assert(s@.subrange(from as int, from as int) =~= Seq::<char>::empty());
    }
    while i < to
        invariant
            from <= i <= to <= n,
            n == s@.len(),
            radix as int == rx,
            rx == (if hex { 16int } else { 10int }),
            forall|k: int| from <= k < to ==> is_radix_digit(s@[k], if hex { 16 } else { 10 }),
            v as int == digits_value(s@.subrange(from as int, i as int), rx),
        decreases to - i,
    {
        let c = s.get_char(i);
        let d: u64 = if '0' <= c && c <= '9' {
            (c as u64) - ('0' as u64)
        } else if 'a' <= c && c <= 'f' {
            (c as u64) - ('a' as u64) + 10
        } else {
            (c as u64) - ('A' as u64) + 10
        };
        let ghost sub = s@.subrange(from as int, i as int + 1);
        proof {
            assert(sub.drop_last() =~= s@.subrange(from as int, i as int));
            assert(sub.last() == c);
            assert(is_radix_digit(c, rx));
            lemma_digit_bound(c, rx);
            assert(d as int == digit_value(c));
            assert(digits_value(sub, rx) == digits_value(sub.drop_last(), rx) * rx + digit_value(sub.last()));
        }
        if v > (u64::MAX - d) / radix {
            proof {
                assert(v as int * rx + d > u64::MAX) by (nonlinear_arith)
                    requires
                        v as int > (u64::MAX as int - d as int) / rx,
                        rx == 10 || rx == 16,
                        d < rx,
                ;
                lemma_digits_grow(s@, from as int, i as int + 1, to as int, rx);
            }
            return None;
        }
        proof {
            assert(v as int * rx + d <= u64::MAX) by (nonlinear_arith)
                requires
                    v as int <= (u64::MAX as int - d as int) / rx,
                    rx == 10 || rx == 16,
                    d < rx,
            ;
        }
        v = v * radix + d;
        i = i + 1;
    }
    Some(v)
}

fn skip_ident(s: &'static str, n: usize, start: usize) -> (r: usize)
    requires
        n == s@.len(),
        start <= n,
    ensures
        start <= r <= n,
        forall|k: int| start <= k < r ==> is_ident_char(s@[k]),
        r < n ==> !is_ident_char(s@[r as int]),
        r == ident_run(s@, start as int),
{
    let mut i = start;
    while i < n
        invariant
            start <= i <= n,
            n == s@.len(),
            ident_run(s@, start as int) == ident_run(s@, i as int),
            forall|k: int| start <= k < i ==> is_ident_char(s@[k]),
        decreases n - i,
    {
        let c = s.get_char(i);
        if !(('a' <= c && c <= 'z') || ('A' <= c && c <= 'Z') || c == '_' || ('0' <= c && c <= '9')) {
            return i;
        }
        i = i + 1;
    }
    i
}

/// The position of the first `"` at or after `start`, if any.
fn find_quote(s: &'static str, n: usize, start: usize) -> (r: Option<usize>)
    requires
        n == s@.len(),
        start <= n,
    ensures
        match r {
            Some(k) => start <= k < n && s@[k as int] == '"'
                && forall|m: int| start <= m < k ==> s@[m] != '"',
            None => forall|m: int| start <= m < n ==> s@[m] != '"',
        },
        match r {
            Some(k) => quote_from(s@, start as int) == Some(k as int),
            None => quote_from(s@, start as int) is None,
        },
{
    let mut i = start;
    while i < n
        invariant
            start <= i <= n,
            n == s@.len(),
            quote_from(s@, start as int) == quote_from(s@, i as int),
            forall|m: int| start <= m < i ==> s@[m] != '"',
        decreases n - i,
    {
        if s.get_char(i) == '"' {
            return Some(i);
        }
        i = i + 1;
    }
    None
}

/// Splits `s` into tokens; white space separates them and is dropped.
pub fn lex(s: &'static str) -> (r: Result<Vec<Token>, LexError>)
    ensures
        r matches Ok(ts) ==> tokens_in(ts@, s@) && forall|i: int|
            0 <= i < ts@.len() ==> #[trigger] token_reads(ts@[i], s@),
        r matches Ok(ts) ==> forall|k: int| 0 <= k < s@.len() && !covered(ts@, k) ==> is_space(s@[k]),
        r matches Err(e) ==> e.pos < s@.len() && no_token_at(s@, e.pos as int),
        r is Ok <==> scan(s@, 0) is Ok,
        r matches Ok(ts) ==> scan(s@, 0) == Ok::<Seq<(int, int, int, int)>, int>(shapes(ts@)) && ts@.len() <= s@.len(),
        r matches Err(e) ==> scan(s@, 0) == Err::<Seq<(int, int, int, int)>, int>(e.pos as int),
{
    let n = s.unicode_len();
    let mut ts: Vec<Token> = Vec::new();
    let mut i: usize = 0;
    while i < n
        invariant
            i <= n,
            n == s@.len(),
            tokens_in(ts@, s@),
            forall|k: int| 0 <= k < ts@.len() ==> #[trigger] token_reads(ts@[k], s@),
            ts@.len() > 0 ==> ts@.last().end <= i,
            forall|k: int| 0 <= k < i && !covered(ts@, k) ==> is_space(s@[k]),
            scan(s@, 0) == scan_after(shapes(ts@), s@, i as int),
            ts@.len() <= i,
        decreases n - i,
    {
        let c = s.get_char(i);
        let ghost sv = s@;
        let tok: Tok;
        let end: usize;
        if c == ' ' || c == '\n' || c == '\t' || c == '\r' {
            proof {
                assert(scan(s@, i as int) == scan(s@, i + 1));
            }
            i = i + 1;
            continue;
        } else if '0' <= c && c <= '9' {
            if c == '0' && i + 1 < n && s.get_char(i + 1) == 'x' {
                let j = skip_digits(s, n, i + 2, true);
                assert(run_end(s@, i + 2, j as int, 16));
                if j == i + 2 {
                    proof {
                            assert(tok_at(s@, i as int) is None);
                            assert(scan(s@, i as int) == Err::<Seq<(int, int, int, int)>, int>(i as int));
                        }
                        return Err(LexError { pos: i });
                }
                match digits_u64(s, n, i + 2, j, true) {
                    Some(v) => {
                        tok = Tok::Num(v);
                        end = j;
                        proof {
                            assert(sv.subrange(i as int, j as int).skip(2) =~= sv.subrange(i + 2, j as int));
                        }
                    },
                    None => {
                        assert(run_end(s@, i + 2, j as int, 16));
                        proof {
                            assert(tok_at(s@, i as int) is None);
                            assert(scan(s@, i as int) == Err::<Seq<(int, int, int, int)>, int>(i as int));
                        }
                        return Err(LexError { pos: i });
                    },
                }
            } else {
                let j = skip_digits(s, n, i, false);
                assert(run_end(s@, i as int, j as int, 10));
                match digits_u64(s, n, i, j, false) {
                    Some(v) => {
                        tok = Tok::Num(v);
                        end = j;
                        proof {
                            let text = sv.subrange(i as int, j as int);
                            if text.len() > 2 {
                                assert(is_radix_digit(sv[i + 1], 10));
                                assert(text[1] == sv[i + 1]);
                            }
                        }
                    },
                    None => {
                        proof {
                            assert(tok_at(s@, i as int) is None);
                            assert(scan(s@, i as int) == Err::<Seq<(int, int, int, int)>, int>(i as int));
                        }
                        return Err(LexError { pos: i });
                    },
                }
            }
        } else if ('a' <= c && c <= 'z') || ('A' <= c && c <= 'Z') || c == '_' {
            let j = skip_ident(s, n, i);
            tok = Tok::Ident(s.substring_char(i, j));
            end = j;
        } else if c == '"' {
            match find_quote(s, n, i + 1) {
                Some(k) => {
                    tok = Tok::Text(s.substring_char(i + 1, k));
                    end = k + 1;
                    proof {
                        let text = sv.subrange(i as int, end as int);
                        assert(text.subrange(1, text.len() - 1) =~= sv.subrange(i + 1, k as int));
                    }
                },
                None => {
                    proof {
                            assert(tok_at(s@, i as int) is None);
                            assert(scan(s@, i as int) == Err::<Seq<(int, int, int, int)>, int>(i as int));
                        }
                        return Err(LexError { pos: i });
                },
            }
        } else if c == '=' && i + 1 < n && s.get_char(i + 1) == '>' {
            tok = Tok::Arrow;
            end = i + 2;
            proof {
                assert(sv.subrange(i as int, end as int) =~= seq!['=', '>']);
            }
        } else if c == '.' && i + 1 < n && s.get_char(i + 1) == '.' {
            if i + 2 < n && s.get_char(i + 2) == '=' {
                tok = Tok::DotsEq;
                end = i + 3;
                proof {
                    assert(sv.subrange(i as int, end as int) =~= seq!['.', '.', '=']);
                }
            } else {
                tok = Tok::Dots;
                end = i + 2;
                proof {
                    assert(sv.subrange(i as int, end as int) =~= seq!['.', '.']);
                }
            }
        } else if c == ':' {
            tok = Tok::Colon;
            end = i + 1;
            proof {
                assert(sv.subrange(i as int, end as int) =~= seq![':']);
            }
        } else if c == ',' {
            tok = Tok::Comma;
            end = i + 1;
            proof {
                assert(sv.subrange(i as int, end as int) =~= seq![',']);
            }
        } else if c == '{' {
            tok = Tok::Open;
            end = i + 1;
            proof {
                assert(sv.subrange(i as int, end as int) =~= seq!['{']);
            }
        } else if c == '}' {
            tok = Tok::Close;
            end = i + 1;
            proof {
                assert(sv.subrange(i as int, end as int) =~= seq!['}']);
            }
        } else {
            proof {
                            assert(tok_at(s@, i as int) is None);
                            assert(scan(s@, i as int) == Err::<Seq<(int, int, int, int)>, int>(i as int));
                        }
                        return Err(LexError { pos: i });
        }
        let t = Token { tok, pos: i, end };
        assert(token_reads(t, s@));
        let ghost old_ts = ts@;
        proof {
            assert(tok_at(s@, i as int) == Some((shape(t).0, shape(t).1, end as int)));
        }
        ts.push(t);
        proof {
            lemma_push_token(old_ts, t, s@, i as int);
            lemma_scan_step(old_ts, t, s@);
        }
        i = end;
    }
    proof {
        assert(scan(s@, i as int) == Ok::<Seq<(int, int, int, int)>, int>(Seq::empty()));
        assert(shapes(ts@) + Seq::<(int, int, int, int)>::empty() =~= shapes(ts@));
    }
    Ok(ts)
}

/// Reading the token `t` at `t.pos` moves the scan on to `t.end`.
proof fn lemma_scan_step(ts: Seq<Token>, t: Token, s: Seq<char>)
    requires
        0 <= t.pos < t.end <= s.len(),
        !is_space(s[t.pos as int]),
        tok_at(s, t.pos as int) == Some((shape(t).0, shape(t).1, t.end as int)),
    ensures
        scan_after(shapes(ts), s, t.pos as int) == scan_after(shapes(ts.push(t)), s, t.end as int),
{
    assert(shapes(ts.push(t)) =~= shapes(ts).push(shape(t)));
    match scan(s, t.end as int) {
        Ok(rest) => {
            assert(shapes(ts).push(shape(t)) + rest =~= shapes(ts) + (seq![shape(t)] + rest));
        },
        Err(_) => {},
    }
}

/// Appending a token that starts at or after `i` keeps the tokens in order, and
/// keeps every character before its end either covered or white space.
proof fn lemma_push_token(ts: Seq<Token>, t: Token, s: Seq<char>, i: int)
    requires
        tokens_in(ts, s),
        ts.len() > 0 ==> ts.last().end <= i,
        i == t.pos < t.end <= s.len(),
        forall|k: int| 0 <= k < i && !covered(ts, k) ==> is_space(s[k]),
    ensures
        tokens_in(ts.push(t), s),
        forall|k: int| 0 <= k < t.end && !covered(ts.push(t), k) ==> is_space(s[k]),
{
    let nt = ts.push(t);
    assert forall|m: int| 0 <= m < nt.len() implies #[trigger] nt[m].pos < nt[m].end <= s.len() by {
        if m < ts.len() {
            assert(nt[m] == ts[m]);
        }
    }
    assert forall|m: int| 0 < m < nt.len() implies nt[m - 1].end <= #[trigger] nt[m].pos by {
        if m < ts.len() {
            assert(nt[m] == ts[m]);
            assert(nt[m - 1] == ts[m - 1]);
        }
    }
    assert forall|k: int| 0 <= k < t.end && !covered(nt, k) implies is_space(s[k]) by {
        if k >= i {
            assert(nt[nt.len() - 1].pos <= k < nt[nt.len() - 1].end);
        } else if covered(ts, k) {
            let t0 = choose|t0: int| 0 <= t0 < ts.len() && #[trigger] ts[t0].pos <= k < ts[t0].end;
            assert(nt[t0] == ts[t0]);
            assert(nt[t0].pos <= k < nt[t0].end);
        }
    }
}

/// Appending digits never lowers a value.
proof fn lemma_digits_grow(s: Seq<char>, from: int, i: int, to: int, rx: int)
    requires
        0 <= from <= i <= to <= s.len(),
        rx == 10 || rx == 16,
        forall|k: int| from <= k < to ==> is_radix_digit(#[trigger] s[k], rx),
    ensures
        digits_value(s.subrange(from, i), rx) <= digits_value(s.subrange(from, to), rx),
    decreases to - i,
{
    if i < to {
        lemma_digits_grow(s, from, i, to - 1, rx);
        let t = s.subrange(from, to);
        assert(t.drop_last() =~= s.subrange(from, to - 1));
        lemma_digit_bound(s[to - 1], rx);
        lemma_digits_nonneg(s.subrange(from, to - 1), rx, from, s);
        assert(digits_value(s.subrange(from, to - 1), rx) <= digits_value(s.subrange(from, to - 1), rx) * rx) by (nonlinear_arith)
            requires
                digits_value(s.subrange(from, to - 1), rx) >= 0,
                rx >= 1,
        ;
    }
}

proof fn lemma_digits_nonneg(d: Seq<char>, rx: int, from: int, s: Seq<char>)
    requires
        rx == 10 || rx == 16,
        0 <= from,
        from + d.len() <= s.len(),
        forall|k: int| 0 <= k < d.len() ==> d[k] == s[from + k],
        forall|k: int| from <= k < from + d.len() ==> is_radix_digit(#[trigger] s[k], rx),
    ensures
        digits_value(d, rx) >= 0,
    decreases d.len(),
{
    if d.len() > 0 {
        lemma_digits_nonneg(d.drop_last(), rx, from, s);
        assert(d.last() == s[from + d.len() - 1]);
        assert(is_radix_digit(s[from + d.len() - 1], rx));
        lemma_digit_bound(s[from + d.len() - 1], rx);
        assert(digits_value(d.drop_last(), rx) * rx >= 0) by (nonlinear_arith)
            requires
                digits_value(d.drop_last(), rx) >= 0,
                rx >= 1,
        ;
    }
}

} // verus!
