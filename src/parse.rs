use vstd::prelude::*;

use crate::bits::BitSpec;
use crate::lex::{shape, Tok, Token};

verus! {

/// A field as declared: `bits => name: "desc"`, at the source position `pos`.
#[derive(Clone, Copy, Debug)]
pub struct FieldDecl {
    pub bits: BitSpec,
    pub name: &'static str,
    pub desc: &'static str,
    pub pos: usize,
}

/// A field set as declared: an optional `..base,` then the local fields.
#[derive(Debug)]
pub struct FieldsDecl {
    /// The name of the base and its source position.
    pub base: Option<(&'static str, usize)>,
    pub fields: Vec<FieldDecl>,
}

/// `addr => name: "desc" { fields }`
#[derive(Debug)]
pub struct RegisterDecl {
    pub addr: u64,
    pub name: &'static str,
    pub desc: &'static str,
    pub body: FieldsDecl,
}

/// `addr => name: "desc" { registers }`
#[derive(Debug)]
pub struct PeripheralDecl {
    pub addr: u64,
    pub name: &'static str,
    pub desc: &'static str,
    pub regs: Vec<RegisterDecl>,
}

/// Where parsing stopped, as a character position of the source.
#[derive(PartialEq, Eq, Structural, Debug, Clone, Copy)]
pub struct SyntaxError {
    pub pos: usize,
}

/// The source position of token `i`, or `end` past the last token.
pub open spec fn pos_of(ts: Seq<Token>, i: int, end: usize) -> usize {
    if 0 <= i < ts.len() {
        ts[i].pos
    } else {
        end
    }
}

fn error_at(ts: &Vec<Token>, i: usize, end: usize) -> (r: SyntaxError)
    ensures
        r.pos == pos_of(ts@, i as int, end),
{
    if i < ts.len() {
        SyntaxError { pos: ts[i].pos }
    } else {
        SyntaxError { pos: end }
    }
}

pub open spec fn is_num(ts: Seq<Token>, i: int) -> bool {
    0 <= i < ts.len() && ts[i].tok is Num
}

pub open spec fn is_tok(ts: Seq<Token>, i: int, t: Tok) -> bool {
    0 <= i < ts.len() && ts[i].tok == t
}

fn at(ts: &Vec<Token>, i: usize, t: Tok) -> (r: bool)
    requires
        !(t is Num) && !(t is Ident) && !(t is Text),
    ensures
        r == is_tok(ts@, i as int, t),
{
    if i < ts.len() {
        match (ts[i].tok, t) {
            (Tok::Arrow, Tok::Arrow) => true,
            (Tok::Colon, Tok::Colon) => true,
            (Tok::Comma, Tok::Comma) => true,
            (Tok::Dots, Tok::Dots) => true,
            (Tok::DotsEq, Tok::DotsEq) => true,
            (Tok::Open, Tok::Open) => true,
            (Tok::Close, Tok::Close) => true,
            _ => false,
        }
    } else {
        false
    }
}

/// The bit specification that starts at token `i`, and the index after it.
pub open spec fn bits_at(ts: Seq<Token>, i: int) -> Option<(BitSpec, int)> {
    let from = if is_num(ts, i) { Some(ts[i].tok->Num_0) } else { None };
    let k = if is_num(ts, i) { i + 1 } else { i };
    if is_tok(ts, k, Tok::Dots) || is_tok(ts, k, Tok::DotsEq) {
        let closed = is_tok(ts, k, Tok::DotsEq);
        let to = if is_num(ts, k + 1) { Some(ts[k + 1].tok->Num_0) } else { None };
        let next = if is_num(ts, k + 1) { k + 2 } else { k + 1 };
        Some((BitSpec::Range { from, to, closed }, next))
    } else {
        match from {
            Some(p) => Some((BitSpec::Bit(p), i + 1)),
            None => None,
        }
    }
}

fn num_at(ts: &Vec<Token>, i: usize) -> (r: Option<u64>)
    ensures
        r == (if is_num(ts@, i as int) { Some(ts@[i as int].tok->Num_0) } else { None::<u64> }),
{
    if i < ts.len() {
        match ts[i].tok {
            Tok::Num(v) => Some(v),
            _ => None,
        }
    } else {
        None
    }
}

/// Reads a bit specification: `p`, `a..b`, `a..=b`, or a range without a bound.
pub fn parse_bits(ts: &Vec<Token>, i: usize, end: usize) -> (r: Result<(BitSpec, usize), SyntaxError>)
    requires
        ts@.len() < usize::MAX,
    ensures
        match r {
            Ok((b, j)) => bits_at(ts@, i as int) == Some((b, j as int)),
            Err(e) => bits_at(ts@, i as int) is None && e.pos == pos_of(ts@, i as int, end),
        },
{
    let from = num_at(ts, i);
    let k = if from.is_some() { i + 1 } else { i };
    let dots = at(ts, k, Tok::Dots);
    let dots_eq = at(ts, k, Tok::DotsEq);
    if dots || dots_eq {
        let to = num_at(ts, k + 1);
        let next = if to.is_some() { k + 2 } else { k + 1 };
        Ok((BitSpec::Range { from, to, closed: dots_eq }, next))
    } else {
        match from {
            Some(p) => Ok((BitSpec::Bit(p), i + 1)),
            None => Err(error_at(ts, i, end)),
        }
    }
}

fn ident_at(ts: &Vec<Token>, i: usize) -> (r: Option<&'static str>)
    ensures
        match r {
            Some(s) => 0 <= i < ts@.len() && ts@[i as int].tok == Tok::Ident(s),
            None => !(0 <= i < ts@.len() && ts@[i as int].tok is Ident),
        },
{
    if i < ts.len() {
        match ts[i].tok {
            Tok::Ident(s) => Some(s),
            _ => None,
        }
    } else {
        None
    }
}

fn text_at(ts: &Vec<Token>, i: usize) -> (r: Option<&'static str>)
    ensures
        match r {
            Some(s) => 0 <= i < ts@.len() && ts@[i as int].tok == Tok::Text(s),
            None => !(0 <= i < ts@.len() && ts@[i as int].tok is Text),
        },
{
    if i < ts.len() {
        match ts[i].tok {
            Tok::Text(s) => Some(s),
            _ => None,
        }
    } else {
        None
    }
}

/// Tokens `i..i + 4` read `=> name: "desc"`.
pub open spec fn head_at(ts: Seq<Token>, i: int) -> bool {
    &&& is_tok(ts, i, Tok::Arrow)
    &&& 0 <= i + 1 < ts.len() && ts[i + 1].tok is Ident
    &&& is_tok(ts, i + 2, Tok::Colon)
    &&& 0 <= i + 3 < ts.len() && ts[i + 3].tok is Text
}

/// The index after the field declaration that starts at token `k`, if one does.
pub open spec fn field_end(ts: Seq<Token>, k: int) -> Option<int> {
    match bits_at(ts, k) {
        Some((_, m)) => if head_at(ts, m) { Some(m + 4) } else { None },
        None => None,
    }
}

/// The field declaration that starts at token `k`.
pub open spec fn field_decl_at(ts: Seq<Token>, k: int, end: usize) -> FieldDecl {
    let (bits, m) = bits_at(ts, k).unwrap();
    FieldDecl { bits, name: ts[m + 1].tok->Ident_0, desc: ts[m + 3].tok->Text_0, pos: pos_of(ts, k, end) }
}

/// The index after an optional `..base,` at token `i`.
pub open spec fn base_end(ts: Seq<Token>, i: int) -> int {
    if is_tok(ts, i, Tok::Dots) && 0 <= i + 1 < ts.len() && ts[i + 1].tok is Ident && is_tok(ts, i + 2, Tok::Comma) {
        i + 3
    } else {
        i
    }
}

/// The field declarations from token `k` up to a `}` or the end, each followed by
/// a comma but for the last, and the index where they stop; `None` where the
/// tokens do not read so.
pub open spec fn items(ts: Seq<Token>, k: int, end: usize) -> Option<(Seq<FieldDecl>, int)>
    decreases ts.len() - k,
{
    if k < 0 || k > ts.len() {
        None
    } else if k == ts.len() || is_tok(ts, k, Tok::Close) {
        Some((Seq::empty(), k))
    } else {
        match field_end(ts, k) {
            Some(j) => {
                let d = field_decl_at(ts, k, end);
                if is_tok(ts, j, Tok::Comma) {
                    match items(ts, j + 1, end) {
                        Some((rest, e)) => Some((seq![d] + rest, e)),
                        None => None,
                    }
                } else if j == ts.len() || is_tok(ts, j, Tok::Close) {
                    Some((seq![d], j))
                } else {
                    None
                }
            },
            None => None,
        }
    }
}

/// The index after the register declaration that starts at token `k`, if one does.
pub open spec fn register_end(ts: Seq<Token>, k: int, end: usize) -> Option<int> {
    if is_num(ts, k) && head_at(ts, k + 1) && is_tok(ts, k + 5, Tok::Open) {
        match items(ts, base_end(ts, k + 6), end) {
            Some((_, e)) => if is_tok(ts, e, Tok::Close) { Some(e + 1) } else { None },
            None => None,
        }
    } else {
        None
    }
}

/// `reg` is the register declared from token `k`.
pub open spec fn reads_register(ts: Seq<Token>, k: int, end: usize, reg: RegisterDecl) -> bool {
    &&& register_end(ts, k, end) is Some
    &&& ts[k].tok == Tok::Num(reg.addr)
    &&& ts[k + 2].tok == Tok::Ident(reg.name)
    &&& ts[k + 4].tok == Tok::Text(reg.desc)
    &&& items(ts, base_end(ts, k + 6), end).unwrap().0 == reg.body.fields@
    &&& (reg.body.base matches Some((b, p)) ==> is_tok(ts, k + 6, Tok::Dots)
        && ts[k + 7].tok == Tok::Ident(b) && p == ts[k + 7].pos)
    &&& (reg.body.base is None <==> base_end(ts, k + 6) == k + 6)
}

/// The start of each register declaration from token `k` up to a `}` or the end,
/// each followed by a comma but for the last, and the index where they stop.
pub open spec fn regs_from(ts: Seq<Token>, k: int, end: usize) -> Option<(Seq<int>, int)>
    decreases ts.len() - k,
{
    if k < 0 || k > ts.len() {
        None
    } else if k == ts.len() || is_tok(ts, k, Tok::Close) {
        Some((Seq::empty(), k))
    } else {
        match register_end(ts, k, end) {
            Some(j) => if is_tok(ts, j, Tok::Comma) && j + 1 > k {
                match regs_from(ts, j + 1, end) {
                    Some((rest, e)) => Some((seq![k] + rest, e)),
                    None => None,
                }
            } else if j == ts.len() || is_tok(ts, j, Tok::Close) {
                Some((seq![k], j))
            } else {
                None
            },
            None => None,
        }
    }
}

/// The tokens read as one peripheral declaration and nothing after it; gives the
/// start of each register.
pub open spec fn peripheral_regs(ts: Seq<Token>, end: usize) -> Option<Seq<int>> {
    if is_num(ts, 0) && head_at(ts, 1) && is_tok(ts, 5, Tok::Open) {
        match regs_from(ts, 6, end) {
            Some((starts, e)) => if is_tok(ts, e, Tok::Close) && e + 1 == ts.len() {
                Some(starts)
            } else {
                None
            },
            None => None,
        }
    } else {
        None
    }
}

/// The first token of `=> name: "desc"` from `i` that is out of place.
pub open spec fn head_err(ts: Seq<Token>, i: int) -> int {
    if !is_tok(ts, i, Tok::Arrow) {
        i
    } else if !(0 <= i + 1 < ts.len() && ts[i + 1].tok is Ident) {
        i + 1
    } else if !is_tok(ts, i + 2, Tok::Colon) {
        i + 2
    } else {
        i + 3
    }
}

/// The token out of place in a field declaration that starts at `k`.
pub open spec fn field_err(ts: Seq<Token>, k: int) -> int {
    match bits_at(ts, k) {
        Some((_, m)) => head_err(ts, m),
        None => k,
    }
}

/// The token out of place in field declarations from `k`: the one that fails a
/// declaration, or the one after a declaration that is neither `,` nor `}`.
pub open spec fn items_err(ts: Seq<Token>, k: int) -> int
    decreases ts.len() - k,
{
    if 0 <= k < ts.len() && !is_tok(ts, k, Tok::Close) {
        match field_end(ts, k) {
            Some(j) => if is_tok(ts, j, Tok::Comma) && j + 1 > k {
                items_err(ts, j + 1)
            } else {
                j
            },
            None => field_err(ts, k),
        }
    } else {
        k
    }
}

/// The token out of place in a register declaration that starts at `k`.
pub open spec fn register_err(ts: Seq<Token>, k: int, end: usize) -> int {
    if !is_num(ts, k) {
        k
    } else if !head_at(ts, k + 1) {
        head_err(ts, k + 1)
    } else if !is_tok(ts, k + 5, Tok::Open) {
        k + 5
    } else {
        match items(ts, base_end(ts, k + 6), end) {
            Some((_, e)) => e,
            None => items_err(ts, base_end(ts, k + 6)),
        }
    }
}

/// The token out of place in register declarations from `k`.
pub open spec fn regs_err(ts: Seq<Token>, k: int, end: usize) -> int
    decreases ts.len() - k,
{
    if 0 <= k < ts.len() && !is_tok(ts, k, Tok::Close) {
        match register_end(ts, k, end) {
            Some(j) => if is_tok(ts, j, Tok::Comma) && j + 1 > k {
                regs_err(ts, j + 1, end)
            } else {
                j
            },
            None => register_err(ts, k, end),
        }
    } else {
        k
    }
}

/// The token out of place in a whole peripheral declaration.
pub open spec fn peripheral_err(ts: Seq<Token>, end: usize) -> int {
    if !is_num(ts, 0) {
        0
    } else if !head_at(ts, 1) {
        head_err(ts, 1)
    } else if !is_tok(ts, 5, Tok::Open) {
        5
    } else {
        match regs_from(ts, 6, end) {
            Some((_, e)) => if is_tok(ts, e, Tok::Close) {
                e + 1
            } else {
                e
            },
            None => regs_err(ts, 6, end),
        }
    }
}

/// `a` and `b` hold tokens of the same kinds, values and places.
pub open spec fn same_shape(a: Seq<Token>, b: Seq<Token>) -> bool {
    &&& a.len() == b.len()
    &&& forall|i: int| 0 <= i < a.len() ==> #[trigger] shape(a[i]) == shape(b[i])
}

proof fn lemma_shape_tok(a: Seq<Token>, b: Seq<Token>, i: int)
    requires
        same_shape(a, b),
    ensures
        is_num(a, i) == is_num(b, i),
        is_num(a, i) ==> a[i].tok == b[i].tok,
        forall|t: Tok| !(t is Num) && !(t is Ident) && !(t is Text) ==> (is_tok(a, i, t) == is_tok(b, i, t)),
        0 <= i < a.len() ==> (a[i].tok is Ident) == (b[i].tok is Ident) && (a[i].tok is Text) == (b[i].tok is Text),
{
    if 0 <= i < a.len() {
        assert(shape(a[i]) == shape(b[i]));
    }
}

pub proof fn lemma_shape_field(a: Seq<Token>, b: Seq<Token>, k: int)
    requires
        same_shape(a, b),
    ensures
        field_end(a, k) == field_end(b, k),
        base_end(a, k) == base_end(b, k),
{
    lemma_shape_tok(a, b, k);
    lemma_shape_tok(a, b, k + 1);
    lemma_shape_tok(a, b, k + 2);
    lemma_shape_tok(a, b, k + 3);
    let m = if is_num(a, k) { k + 1 } else { k };
    lemma_shape_tok(a, b, m + 1);
    lemma_shape_tok(a, b, m + 2);
    lemma_shape_tok(a, b, m + 3);
    lemma_shape_tok(a, b, m + 4);
    lemma_shape_tok(a, b, m + 5);
    lemma_shape_tok(a, b, m + 6);
}

/// Whether field declarations read, and where they stop, depends on the shapes of
/// the tokens alone.
pub proof fn lemma_shape_items(a: Seq<Token>, b: Seq<Token>, k: int, end: usize)
    requires
        same_shape(a, b),
    ensures
        items(a, k, end) is Some <==> items(b, k, end) is Some,
        items(a, k, end) is Some ==> items(a, k, end).unwrap().1 == items(b, k, end).unwrap().1,
    decreases a.len() - k,
{
    lemma_shape_tok(a, b, k);
    if 0 <= k < a.len() && !is_tok(a, k, Tok::Close) {
        lemma_shape_field(a, b, k);
        match field_end(a, k) {
            Some(j) => {
                lemma_shape_tok(a, b, j);
                if is_tok(a, j, Tok::Comma) && j + 1 > k {
                    lemma_shape_items(a, b, j + 1, end);
                }
            },
            None => {},
        }
    }
}

/// Whether a register declaration reads, and where it stops, depends on the shapes
/// of the tokens alone.
pub proof fn lemma_shape_register(a: Seq<Token>, b: Seq<Token>, k: int, end: usize)
    requires
        same_shape(a, b),
    ensures
        register_end(a, k, end) == register_end(b, k, end),
{
    lemma_shape_tok(a, b, k);
    lemma_shape_tok(a, b, k + 1);
    lemma_shape_tok(a, b, k + 2);
    lemma_shape_tok(a, b, k + 3);
    lemma_shape_tok(a, b, k + 4);
    lemma_shape_tok(a, b, k + 5);
    lemma_shape_field(a, b, k + 6);
    lemma_shape_tok(a, b, k + 6);
    lemma_shape_tok(a, b, k + 7);
    lemma_shape_tok(a, b, k + 8);
    let k0 = base_end(a, k + 6);
    lemma_shape_items(a, b, k0, end);
    if items(a, k0, end) is Some {
        lemma_shape_tok(a, b, items(a, k0, end).unwrap().1);
    }
}

/// Whether register declarations read, and where they stop, depends on the shapes
/// of the tokens alone.
pub proof fn lemma_shape_regs(a: Seq<Token>, b: Seq<Token>, k: int, end: usize)
    requires
        same_shape(a, b),
    ensures
        regs_from(a, k, end) is Some <==> regs_from(b, k, end) is Some,
        regs_from(a, k, end) is Some ==> regs_from(a, k, end).unwrap().1 == regs_from(b, k, end).unwrap().1,
    decreases a.len() - k,
{
    lemma_shape_tok(a, b, k);
    if 0 <= k < a.len() && !is_tok(a, k, Tok::Close) {
        lemma_shape_register(a, b, k, end);
        match register_end(a, k, end) {
            Some(j) => {
                lemma_shape_tok(a, b, j);
                if is_tok(a, j, Tok::Comma) && j + 1 > k {
                    lemma_shape_regs(a, b, j + 1, end);
                }
            },
            None => {},
        }
    }
}

/// Whether a whole peripheral reads depends on the shapes of the tokens alone.
pub proof fn lemma_shape_peripheral(a: Seq<Token>, b: Seq<Token>, end: usize)
    requires
        same_shape(a, b),
    ensures
        peripheral_regs(a, end) is Some <==> peripheral_regs(b, end) is Some,
{
    lemma_shape_tok(a, b, 0);
    lemma_shape_tok(a, b, 1);
    lemma_shape_tok(a, b, 2);
    lemma_shape_tok(a, b, 3);
    lemma_shape_tok(a, b, 4);
    lemma_shape_tok(a, b, 5);
    lemma_shape_regs(a, b, 6, end);
    if regs_from(a, 6, end) is Some {
        lemma_shape_tok(a, b, regs_from(a, 6, end).unwrap().1);
    }
}

/// Reads `=> name: "desc"` from token `i`; gives the name, the description and
/// the index after them.
fn parse_head(ts: &Vec<Token>, i: usize, end: usize) -> (r: Result<(&'static str, &'static str, usize), SyntaxError>)
    requires
        ts@.len() < usize::MAX - 4,
    ensures
        match r {
            Ok((name, desc, j)) => j == i + 4 && j <= ts@.len() && is_tok(ts@, i as int, Tok::Arrow)
                && ts@[i + 1].tok == Tok::Ident(name) && is_tok(ts@, i + 2, Tok::Colon)
                && ts@[i + 3].tok == Tok::Text(desc),
            Err(e) => !head_at(ts@, i as int) && e.pos == pos_of(ts@, head_err(ts@, i as int), end),
        },
{
    if !at(ts, i, Tok::Arrow) {
        return Err(error_at(ts, i, end));
    }
    let name = match ident_at(ts, i + 1) {
        Some(n) => n,
        None => {
            return Err(error_at(ts, i + 1, end));
        },
    };
    if !at(ts, i + 2, Tok::Colon) {
        return Err(error_at(ts, i + 2, end));
    }
    let desc = match text_at(ts, i + 3) {
        Some(d) => d,
        None => {
            return Err(error_at(ts, i + 3, end));
        },
    };
    Ok((name, desc, i + 4))
}

/// Reads one field declaration `bits => name: "desc"` from token `i`.
pub fn parse_field(ts: &Vec<Token>, i: usize, end: usize) -> (r: Result<(FieldDecl, usize), SyntaxError>)
    requires
        ts@.len() < usize::MAX - 8,
    ensures
        r is Ok <==> field_end(ts@, i as int) is Some,
        r matches Err(e) ==> e.pos == pos_of(ts@, field_err(ts@, i as int), end),
        r matches Ok((f, j)) ==> {
            &&& i < j <= ts@.len()
            &&& j == field_end(ts@, i as int).unwrap()
            &&& f == field_decl_at(ts@, i as int, end)
        },
{
    let (bits, k) = match parse_bits(ts, i, end) {
        Ok(p) => p,
        Err(e) => {
            return Err(e);
        },
    };
    let (name, desc, j) = match parse_head(ts, k, end) {
        Ok(h) => h,
        Err(e) => {
            return Err(e);
        },
    };
    let pos = error_at(ts, i, end).pos;
    Ok((FieldDecl { bits, name, desc, pos }, j))
}

/// Reads a field-set body from token `i`: an optional `..base,` then fields, each
/// followed by a comma but for the last. It stops before a `}` or at the end.
pub fn parse_fields_body(ts: &Vec<Token>, i: usize, end: usize) -> (r: Result<(FieldsDecl, usize), SyntaxError>)
    requires
        ts@.len() < usize::MAX - 8,
        i <= ts@.len(),
    ensures
        r is Ok <==> items(ts@, base_end(ts@, i as int), end) is Some,
        r matches Err(e) ==> e.pos == pos_of(ts@, items_err(ts@, base_end(ts@, i as int)), end),
        r matches Ok((d, j)) ==> {
            &&& i <= j <= ts@.len()
            &&& (j == ts@.len() || is_tok(ts@, j as int, Tok::Close))
            &&& items(ts@, base_end(ts@, i as int), end) == Some((d.fields@, j as int))
            &&& (d.base matches Some((b, p)) ==> is_tok(ts@, i as int, Tok::Dots)
                && ts@[i + 1].tok == Tok::Ident(b) && p == ts@[i + 1].pos)
            &&& (d.base is None <==> base_end(ts@, i as int) == i)
        },
{
    let mut k = i;
    let mut base: Option<(&'static str, usize)> = None;
    if at(ts, i, Tok::Dots) && at(ts, i + 2, Tok::Comma) {
        match ident_at(ts, i + 1) {
            Some(b) => {
                base = Some((b, ts[i + 1].pos));
                k = i + 3;
            },
            None => {},
        }
    }
    let ghost k0 = k as int;
    let mut fields: Vec<FieldDecl> = Vec::new();
    assert(fields@ + items(ts@, k as int, end).unwrap().0 =~= items(ts@, k as int, end).unwrap().0);
    while k < ts.len() && !at(ts, k, Tok::Close)
        invariant
            i <= k <= ts@.len(),
            ts@.len() < usize::MAX - 8,
            k0 == base_end(ts@, i as int),
            items(ts@, k0, end) is Some <==> items(ts@, k as int, end) is Some,
            items_err(ts@, k0) == items_err(ts@, k as int),
            items(ts@, k as int, end) is Some ==> items(ts@, k0, end) == Some((
                fields@ + items(ts@, k as int, end).unwrap().0,
                items(ts@, k as int, end).unwrap().1,
            )),
        decreases ts@.len() - k,
    {
        let (f, j) = match parse_field(ts, k, end) {
            Ok(p) => p,
            Err(e) => {
                return Err(e);
            },
        };
        let ghost before = fields@;
        fields.push(f);
        if at(ts, j, Tok::Comma) {
            proof {
                if items(ts@, j + 1, end) is Some {
                    let rest = items(ts@, j + 1, end).unwrap().0;
                    assert(before + (seq![f] + rest) =~= fields@ + rest);
                }
            }
            k = j + 1;
        } else if j == ts.len() || at(ts, j, Tok::Close) {
            proof {
                assert(before + seq![f] =~= fields@ + Seq::<FieldDecl>::empty());
            }
            k = j;
        } else {
            return Err(error_at(ts, j, end));
        }
    }
    proof {
        assert(fields@ + Seq::<FieldDecl>::empty() =~= fields@);
    }
    Ok((FieldsDecl { base, fields }, k))
}

/// Reads `addr => name: "desc" { fields }` from token `i`.
pub fn parse_register(ts: &Vec<Token>, i: usize, end: usize) -> (r: Result<(RegisterDecl, usize), SyntaxError>)
    requires
        ts@.len() < usize::MAX - 8,
        i <= ts@.len(),
    ensures
        r is Ok <==> register_end(ts@, i as int, end) is Some,
        r matches Err(e) ==> e.pos == pos_of(ts@, register_err(ts@, i as int, end), end),
        r matches Ok((reg, j)) ==> {
            &&& i < j <= ts@.len()
            &&& j == register_end(ts@, i as int, end).unwrap()
            &&& reads_register(ts@, i as int, end, reg)
        },
{
    let addr = match num_at(ts, i) {
        Some(a) => a,
        None => {
            return Err(error_at(ts, i, end));
        },
    };
    let (name, desc, k) = match parse_head(ts, i + 1, end) {
        Ok(h) => h,
        Err(e) => {
            return Err(e);
        },
    };
    if !at(ts, k, Tok::Open) {
        return Err(error_at(ts, k, end));
    }
    let (body, j) = match parse_fields_body(ts, k + 1, end) {
        Ok(b) => b,
        Err(e) => {
            return Err(e);
        },
    };
    if !at(ts, j, Tok::Close) {
        return Err(error_at(ts, j, end));
    }
    Ok((RegisterDecl { addr, name, desc, body }, j + 1))
}

/// Reads a whole peripheral `addr => name: "desc" { registers }`: the registers
/// are separated by commas, with one after the last allowed, and nothing may
/// follow the closing brace.
pub fn parse_peripheral(ts: &Vec<Token>, end: usize) -> (r: Result<PeripheralDecl, SyntaxError>)
    requires
        ts@.len() < usize::MAX - 8,
    ensures
        r is Ok <==> peripheral_regs(ts@, end) is Some,
        r matches Err(e) ==> e.pos == pos_of(ts@, peripheral_err(ts@, end), end),
        r matches Ok(p) ==> {
            let starts = peripheral_regs(ts@, end).unwrap();
            &&& ts@[0].tok == Tok::Num(p.addr)
            &&& ts@[2].tok == Tok::Ident(p.name)
            &&& ts@[4].tok == Tok::Text(p.desc)
            &&& p.regs@.len() == starts.len()
            &&& forall|m: int| 0 <= m < starts.len() ==> #[trigger] reads_register(ts@, starts[m], end, p.regs@[m])
        },
{
    let addr = match num_at(ts, 0) {
        Some(a) => a,
        None => {
            return Err(error_at(ts, 0, end));
        },
    };
    let (name, desc, k0) = match parse_head(ts, 1, end) {
        Ok(h) => h,
        Err(e) => {
            return Err(e);
        },
    };
    if !at(ts, k0, Tok::Open) {
        return Err(error_at(ts, k0, end));
    }
    let mut k = k0 + 1;
    let mut regs: Vec<RegisterDecl> = Vec::new();
    let ghost starts: Seq<int> = Seq::empty();
    assert(starts + regs_from(ts@, 6, end).unwrap().0 =~= regs_from(ts@, 6, end).unwrap().0);
    while k < ts.len() && !at(ts, k, Tok::Close)
        invariant
            6 <= k <= ts@.len(),
            ts@.len() < usize::MAX - 8,
            regs@.len() == starts.len(),
            forall|m: int| 0 <= m < starts.len() ==> #[trigger] reads_register(ts@, starts[m], end, regs@[m]),
            regs_from(ts@, 6, end) is Some <==> regs_from(ts@, k as int, end) is Some,
            regs_err(ts@, 6, end) == regs_err(ts@, k as int, end),
            is_num(ts@, 0) && head_at(ts@, 1) && is_tok(ts@, 5, Tok::Open),
            regs_from(ts@, k as int, end) is Some ==> regs_from(ts@, 6, end) == Some((
                starts + regs_from(ts@, k as int, end).unwrap().0,
                regs_from(ts@, k as int, end).unwrap().1,
            )),
        decreases ts@.len() - k,
    {
        let (reg, j) = match parse_register(ts, k, end) {
            Ok(p) => p,
            Err(e) => {
                proof {
                    assert(register_end(ts@, k as int, end) is None);
                    assert(regs_from(ts@, k as int, end) is None);
                    assert(regs_err(ts@, k as int, end) == register_err(ts@, k as int, end));
                }
                return Err(e);
            },
        };
        let ghost before = starts;
        proof {
            starts = starts.push(k as int);
        }
        regs.push(reg);
        if at(ts, j, Tok::Comma) {
            proof {
                if regs_from(ts@, j + 1, end) is Some {
                    let rest = regs_from(ts@, j + 1, end).unwrap().0;
                    assert(before + (seq![k as int] + rest) =~= starts + rest);
                }
            }
            k = j + 1;
        } else if at(ts, j, Tok::Close) {
            proof {
                assert(before + seq![k as int] =~= starts + Seq::<int>::empty());
            }
            k = j;
        } else {
            proof {
                if j < ts@.len() {
                    assert(regs_from(ts@, k as int, end) is None);
                    assert(regs_err(ts@, k as int, end) == j);
                } else {
                    assert(regs_from(ts@, k as int, end) == Some((seq![k as int], j as int)));
                    assert(regs_from(ts@, 6, end) == Some((starts, j as int)));
                }
            }
            return Err(error_at(ts, j, end));
        }
    }
    proof {
        assert(starts + Seq::<int>::empty() =~= starts);
    }
    if !at(ts, k, Tok::Close) {
        return Err(error_at(ts, k, end));
    }
    if k + 1 != ts.len() {
        return Err(error_at(ts, k + 1, end));
    }
    Ok(PeripheralDecl { addr, name, desc, regs })
}

} // verus!
