use std::rc::Rc;
use vstd::prelude::*;

use crate::bits::{resolve, resolve_spec, RangeError};
use crate::lex::{lex, scan, shapes, token_reads, tokens_in, Token};
use crate::model::{Field, Fields, Peripheral, Register};
use crate::parse::{
    base_end, items, items_err, peripheral_err, pos_of, lemma_shape_field, lemma_shape_items, lemma_shape_peripheral, same_shape, parse_fields_body, parse_peripheral, peripheral_regs, reads_register, FieldDecl,
    FieldsDecl, PeripheralDecl, RegisterDecl,
};

verus! {

/// `ts` is the reading of `s` as tokens.
pub open spec fn lexes(ts: Seq<Token>, s: Seq<char>) -> bool {
    &&& scan(s, 0) == Ok::<Seq<(int, int, int, int)>, int>(shapes(ts))
    &&& tokens_in(ts, s)
    &&& forall|i: int| 0 <= i < ts.len() ==> #[trigger] token_reads(ts[i], s)
}

/// `d` is what the tokens `ts` declare as a whole field-set body.
pub open spec fn reads_fields(ts: Seq<Token>, end: usize, d: FieldsDecl) -> bool {
    &&& items(ts, base_end(ts, 0), end) == Some((d.fields@, ts.len() as int))
    &&& (d.base matches Some((b, p)) ==> ts[1].tok == crate::lex::Tok::Ident(b) && p == ts[1].pos)
    &&& (d.base is None <==> base_end(ts, 0) == 0)
}

/// `d` is what the tokens `ts` declare as a whole peripheral.
pub open spec fn reads_peripheral(ts: Seq<Token>, end: usize, d: PeripheralDecl) -> bool {
    &&& peripheral_regs(ts, end) is Some
    &&& ts[0].tok == crate::lex::Tok::Num(d.addr)
    &&& ts[2].tok == crate::lex::Tok::Ident(d.name)
    &&& ts[4].tok == crate::lex::Tok::Text(d.desc)
    &&& d.regs@.len() == peripheral_regs(ts, end).unwrap().len()
    &&& forall|m: int| 0 <= m < d.regs@.len() ==>
        #[trigger] reads_register(ts, peripheral_regs(ts, end).unwrap()[m], end, d.regs@[m])
}

proof fn lemma_lexes_shape(a: Seq<Token>, b: Seq<Token>, s: Seq<char>)
    requires
        scan(s, 0) == Ok::<Seq<(int, int, int, int)>, int>(shapes(a)),
        scan(s, 0) == Ok::<Seq<(int, int, int, int)>, int>(shapes(b)),
    ensures
        same_shape(a, b),
{
    assert(shapes(a).len() == a.len());
    assert(shapes(b).len() == b.len());
    assert forall|i: int| 0 <= i < a.len() implies #[trigger] crate::lex::shape(a[i]) == crate::lex::shape(b[i]) by {
        assert(shapes(a)[i] == shapes(b)[i]);
    }
}

/// The token out of place when `ts` is read as a whole field-set body.
pub open spec fn fields_err(ts: Seq<Token>, end: usize) -> int {
    match items(ts, base_end(ts, 0), end) {
        Some((_, e)) => e,
        None => items_err(ts, base_end(ts, 0)),
    }
}

/// Why a declaration does not compile.
#[derive(Debug)]
pub enum DeclError {
    /// The text does not follow the grammar; `pos` is the character where it stops.
    Syntax { pos: usize },
    /// Each field whose range names no bits, with its position and why, in order;
    /// and the sibling fields that do resolve, in order.
    Range { errors: Vec<(usize, RangeError)>, fields: Vec<Field> },
    /// The base named at `pos` is not in scope.
    UnknownBase { pos: usize },
    /// Each register whose field set does not compose: its index and why, in order.
    Registers(Vec<(usize, DeclError)>),
}

/// Field sets declared so far, by name, for later ones to take as a base.
#[derive(Debug)]
pub struct Scope {
    pub entries: Vec<(&'static str, Rc<Fields>)>,
}

/// The index of the latest entry named `name`, if any.
pub open spec fn find_in(es: Seq<(&'static str, Rc<Fields>)>, name: Seq<char>) -> Option<int>
    decreases es.len(),
{
    if es.len() == 0 {
        None
    } else if es.last().0@ == name {
        Some(es.len() - 1)
    } else {
        find_in(es.drop_last(), name)
    }
}

proof fn lemma_find_in_range(es: Seq<(&'static str, Rc<Fields>)>, name: Seq<char>)
    ensures
        find_in(es, name) matches Some(k) ==> 0 <= k < es.len() && es[k].0@ == name,
    decreases es.len(),
{
    if es.len() > 0 && es.last().0@ != name {
        lemma_find_in_range(es.drop_last(), name);
    }
}

/// The fields of `ds` whose ranges name bits, resolved, in order.
pub open spec fn resolved(ds: Seq<FieldDecl>) -> Seq<Field>
    decreases ds.len(),
{
    if ds.len() == 0 {
        Seq::empty()
    } else {
        let rest = resolved(ds.drop_last());
        let d = ds.last();
        match resolve_spec(d.bits) {
            Ok((o, w)) => rest.push(Field { name: d.name, desc: d.desc, bit_offset: o as u64, bit_width: w as u64 }),
            Err(_) => rest,
        }
    }
}

/// `f` is the field that the declaration `d` names.
pub open spec fn declares(f: Field, d: FieldDecl) -> bool {
    &&& f.name == d.name
    &&& f.desc == d.desc
    &&& resolve_spec(d.bits) == Ok::<(int, int), RangeError>((f.bit_offset as int, f.bit_width as int))
}

/// The range errors of the declarations `ds`, in order, each at its field's position.
pub open spec fn range_errors(ds: Seq<FieldDecl>) -> Seq<(usize, RangeError)>
    decreases ds.len(),
{
    if ds.len() == 0 {
        Seq::empty()
    } else {
        let rest = range_errors(ds.drop_last());
        match resolve_spec(ds.last().bits) {
            Err(e) => rest.push((ds.last().pos, e)),
            Ok(_) => rest,
        }
    }
}

/// Composing `d` in `scope` succeeds: its base, if any, is in scope, and every
/// field's range names bits.
pub open spec fn body_ok(d: FieldsDecl, scope: Seq<(&'static str, Rc<Fields>)>) -> bool {
    &&& !(d.base matches Some((b, _)) && find_in(scope, b@) is None)
    &&& range_errors(d.fields@).len() == 0
}

/// `p` is the peripheral that `d` declares: the same address, name and description,
/// and one register for each declared one, composed in `scope`.
pub open spec fn assembles(d: PeripheralDecl, scope: Seq<(&'static str, Rc<Fields>)>, p: Peripheral) -> bool {
    &&& p.addr == d.addr
    &&& p.name == d.name
    &&& p.desc == d.desc
    &&& p.regs@.len() == d.regs@.len()
    &&& forall|i: int| 0 <= i < d.regs@.len() ==> #[trigger] builds(p.regs@[i], d.regs@[i], scope)
}

/// `r` is the register that `d` declares, its field set composed in `scope`.
pub open spec fn builds(r: Register, d: RegisterDecl, scope: Seq<(&'static str, Rc<Fields>)>) -> bool {
    &&& r.addr == d.addr
    &&& r.name == d.name
    &&& r.desc == d.desc
    &&& composes(d.body, scope, Ok(r.fields))
}

/// The indices of the registers of `regs` whose field sets do not compose, in order.
pub open spec fn failing(regs: Seq<RegisterDecl>, scope: Seq<(&'static str, Rc<Fields>)>) -> Seq<int>
    decreases regs.len(),
{
    if regs.len() == 0 {
        Seq::empty()
    } else {
        let rest = failing(regs.drop_last(), scope);
        if body_ok(regs.last().body, scope) {
            rest
        } else {
            rest.push(regs.len() - 1)
        }
    }
}

/// `es` reports each register of `regs` that does not compose, in order, with the
/// error that composing it gives.
pub open spec fn reports(regs: Seq<RegisterDecl>, scope: Seq<(&'static str, Rc<Fields>)>, es: Seq<(usize, DeclError)>) -> bool {
    &&& es.len() == failing(regs, scope).len()
    &&& forall|m: int| 0 <= m < es.len() ==> #[trigger] es[m].0 == failing(regs, scope)[m]
        && composes(regs[es[m].0 as int].body, scope, Err(es[m].1))
}

/// What composing `d` in `scope` gives: `Ok` exactly when its base, if any, is in
/// scope and every field's range names bits; the fields then resolve one for one,
/// after the base's walk.
pub open spec fn composes(d: FieldsDecl, scope: Seq<(&'static str, Rc<Fields>)>, r: Result<Fields, DeclError>) -> bool {
    match d.base {
        Some((b, p)) if find_in(scope, b@) is None => r matches Err(DeclError::UnknownBase { pos }) && pos == p,
        _ => if range_errors(d.fields@).len() > 0 {
            r matches Err(DeclError::Range { errors, fields }) && errors@ == range_errors(d.fields@)
                && fields@ == resolved(d.fields@)
        } else {
            r matches Ok(f) && {
                &&& f.fields@.len() == d.fields@.len()
                &&& forall|i: int| 0 <= i < d.fields@.len() ==> #[trigger] declares(f.fields@[i], d.fields@[i])
                &&& match d.base {
                    Some((b, _)) => f.base == Some(scope[find_in(scope, b@).unwrap()].1),
                    None => f.base is None,
                }
            }
        },
    }
}

fn same_str(a: &str, b: &str) -> (r: bool)
    ensures
        r == (a@ == b@),
{
    let n = a.unicode_len();
    if n != b.unicode_len() {
        return false;
    }
    let mut i: usize = 0;
    while i < n
        invariant
            n == a@.len() == b@.len(),
            i <= n,
            forall|k: int| 0 <= k < i ==> a@[k] == b@[k],
        decreases n - i,
    {
        if a.get_char(i) != b.get_char(i) {
            return false;
        }
        i = i + 1;
    }
    proof {
        assert(a@ =~= b@);
    }
    true
}

impl Scope {
    /// An empty scope.
    pub fn new() -> (r: Scope)
        ensures
            r.entries@.len() == 0,
    {
        Scope { entries: Vec::new() }
    }

    /// Adds `set` under `name`; it hides an earlier set of that name.
    pub fn define(&mut self, name: &'static str, set: Fields)
        ensures
            final(self).entries@.len() == old(self).entries@.len() + 1,
            final(self).entries@.drop_last() == old(self).entries@,
            final(self).entries@.last().0 == name,
            *final(self).entries@.last().1 == set,
    {
        self.entries.push((name, Rc::new(set)));
        proof {
            assert(self.entries@.drop_last() =~= old(self).entries@);
        }
    }

    /// The latest set named `name`.
    pub fn lookup(&self, name: &str) -> (r: Option<&Rc<Fields>>)
        ensures
            match find_in(self.entries@, name@) {
                Some(k) => r == Some(&self.entries@[k].1),
                None => r is None,
            },
    {
        let mut i = self.entries.len();
        proof {
            assert(self.entries@.take(i as int) =~= self.entries@);
        }
        while i > 0
            invariant
                i <= self.entries@.len(),
                find_in(self.entries@, name@) == find_in(self.entries@.take(i as int), name@),
            decreases i,
        {
            let ghost t = self.entries@.take(i as int);
            proof {
                assert(t.drop_last() =~= self.entries@.take(i - 1));
            }
            if same_str(self.entries[i - 1].0, name) {
                return Some(&self.entries[i - 1].1);
            }
            i = i - 1;
        }
        None
    }
}

/// Resolves each field declaration; where some do not resolve, gives every range
/// error and every field that does resolve, in order.
pub fn resolve_fields(ds: &Vec<FieldDecl>) -> (r: Result<Vec<Field>, (Vec<(usize, RangeError)>, Vec<Field>)>)
    ensures
        match r {
            Ok(v) => range_errors(ds@).len() == 0 && v@.len() == ds@.len()
                && forall|i: int| 0 <= i < ds@.len() ==> #[trigger] declares(v@[i], ds@[i]),
            Err((es, fs)) => range_errors(ds@).len() > 0 && es@ == range_errors(ds@) && fs@ == resolved(ds@),
        },
{
    let mut out: Vec<Field> = Vec::new();
    let mut errs: Vec<(usize, RangeError)> = Vec::new();
    let mut i: usize = 0;
    while i < ds.len()
        invariant
            i <= ds@.len(),
            errs@ == range_errors(ds@.take(i as int)),
            out@ == resolved(ds@.take(i as int)),
            errs@.len() == 0 ==> out@.len() == i
                && forall|k: int| 0 <= k < i ==> #[trigger] declares(out@[k], ds@[k]),
        decreases ds@.len() - i,
    {
        let d = ds[i];
        proof {
            assert(ds@.take(i + 1).drop_last() =~= ds@.take(i as int));
            assert(ds@.take(i + 1).last() == d);
        }
        match resolve(&d.bits) {
            Ok((o, w)) => {
                out.push(Field { name: d.name, desc: d.desc, bit_offset: o, bit_width: w });
            },
            Err(e) => {
                errs.push((d.pos, e));
            },
        }
        i = i + 1;
    }
    proof {
        assert(ds@.take(ds@.len() as int) =~= ds@);
    }
    if errs.len() == 0 {
        Ok(out)
    } else {
        Err((errs, out))
    }
}

/// Builds the field set that `d` declares, taking its base from `scope`.
pub fn compose(d: &FieldsDecl, scope: &Scope) -> (r: Result<Fields, DeclError>)
    ensures
        composes(*d, scope.entries@, r),
{
    let base = match d.base {
        Some((b, p)) => match scope.lookup(b) {
            Some(set) => Some(set.clone()),
            None => {
                return Err(DeclError::UnknownBase { pos: p });
            },
        },
        None => None,
    };
    let locals = match resolve_fields(&d.fields) {
        Ok(v) => v,
        Err((errors, fields)) => {
            return Err(DeclError::Range { errors, fields });
        },
    };
    match base {
        Some(b) => Ok(Fields::derived(b, locals)),
        None => Ok(Fields::new(locals)),
    }
}

/// Builds the peripheral that `d` declares; where field sets do not compose, it
/// reports every such register.
pub fn assemble(d: &PeripheralDecl, scope: &Scope) -> (r: Result<Peripheral, DeclError>)
    ensures
        r is Ok <==> forall|i: int| 0 <= i < d.regs@.len() ==> #[trigger] body_ok(d.regs@[i].body, scope.entries@),
        r matches Ok(p) ==> assembles(*d, scope.entries@, p),
        r matches Err(e) ==> e matches DeclError::Registers(es) && reports(d.regs@, scope.entries@, es@),
{
    let mut regs: Vec<Register> = Vec::new();
    let mut errs: Vec<(usize, DeclError)> = Vec::new();
    let mut i: usize = 0;
    while i < d.regs.len()
        invariant
            i <= d.regs@.len(),
            errs@.len() == 0 <==> forall|k: int| 0 <= k < i ==> #[trigger] body_ok(d.regs@[k].body, scope.entries@),
            errs@.len() == 0 ==> regs@.len() == i
                && forall|k: int| 0 <= k < i ==> #[trigger] builds(regs@[k], d.regs@[k], scope.entries@),
            reports(d.regs@.take(i as int), scope.entries@, errs@),
            forall|m: int| 0 <= m < errs@.len() ==> #[trigger] errs@[m].0 < i,
        decreases d.regs@.len() - i,
    {
        let rd = &d.regs[i];
        let ghost t = d.regs@.take(i + 1);
        proof {
            assert(t.drop_last() =~= d.regs@.take(i as int));
            assert(t.last() == d.regs@[i as int]);
        }
        match compose(&rd.body, scope) {
            Ok(fields) => {
                proof {
                    assert(body_ok(d.regs@[i as int].body, scope.entries@));
                }
                regs.push(Register { name: rd.name, desc: rd.desc, addr: rd.addr, fields });
            },
            Err(e) => {
                proof {
                    assert(!body_ok(d.regs@[i as int].body, scope.entries@));
                }
                errs.push((i, e));
            },
        }
        proof {
            assert forall|m: int| 0 <= m < errs@.len() implies #[trigger] errs@[m].0 == failing(t, scope.entries@)[m]
                && composes(t[errs@[m].0 as int].body, scope.entries@, Err(errs@[m].1)) by {
                assert(t[errs@[m].0 as int] == d.regs@[errs@[m].0 as int]);
            }
        }
        i = i + 1;
    }
    proof {
        assert(d.regs@.take(i as int) =~= d.regs@);
    }
    if errs.len() == 0 {
        Ok(Peripheral { name: d.name, desc: d.desc, addr: d.addr, regs })
    } else {
        Err(DeclError::Registers(errs))
    }
}

/// Compiles a field set: `..base,` then `bits => NAME: "desc"` declarations, with
/// `base` taken from `scope`.
pub fn fields(text: &'static str, scope: &Scope) -> (r: Result<Fields, DeclError>)
    ensures
        !(r is Err && r->Err_0 is Syntax) ==> exists|ts: Seq<Token>, d: FieldsDecl|
            #[trigger] lexes(ts, text@) && #[trigger] reads_fields(ts, text@.len() as usize, d) && composes(d, scope.entries@, r),
        text@.len() < usize::MAX - 8 && (exists|ts: Seq<Token>, d: FieldsDecl|
            #[trigger] lexes(ts, text@) && #[trigger] reads_fields(ts, text@.len() as usize, d))
            ==> !(r is Err && r->Err_0 is Syntax),
        r matches Err(DeclError::Syntax { pos }) ==> scan(text@, 0) == Err::<Seq<(int, int, int, int)>, int>(pos as int)
            || text@.len() >= usize::MAX - 8 || exists|ts: Seq<Token>|
            #[trigger] lexes(ts, text@) && pos == pos_of(ts, fields_err(ts, text@.len() as usize), text@.len() as usize),
{
    let n = text.unicode_len();
    let ts = match lex(text) {
        Ok(ts) => ts,
        Err(e) => {
            return Err(DeclError::Syntax { pos: e.pos });
        },
    };
    if ts.len() >= usize::MAX - 8 {
        return Err(DeclError::Syntax { pos: n });
    }
    proof {
        assert(n == text@.len() as usize);
        assert(lexes(ts@, text@));
        if text@.len() < usize::MAX - 8 && exists|ts0: Seq<Token>, d0: FieldsDecl|
            #[trigger] lexes(ts0, text@) && #[trigger] reads_fields(ts0, text@.len() as usize, d0) {
            let (ts0, d0) = choose|ts0: Seq<Token>, d0: FieldsDecl|
                #[trigger] lexes(ts0, text@) && #[trigger] reads_fields(ts0, text@.len() as usize, d0);
            lemma_lexes_shape(ts0, ts@, text@);
            lemma_shape_field(ts0, ts@, 0);
            lemma_shape_items(ts0, ts@, base_end(ts0, 0), n);
            assert(items(ts@, base_end(ts@, 0), n) is Some);
            assert(items(ts@, base_end(ts@, 0), n).unwrap().1 == ts@.len());
        }
    }
    let (d, j) = match parse_fields_body(&ts, 0, n) {
        Ok(p) => p,
        Err(e) => {
            return Err(DeclError::Syntax { pos: e.pos });
        },
    };
    if j != ts.len() {
        return Err(DeclError::Syntax { pos: ts[j].pos });
    }
    let r = compose(&d, scope);
    proof {
        assert(n == text@.len() as usize);
        assert(lexes(ts@, text@) && reads_fields(ts@, text@.len() as usize, d) && composes(d, scope.entries@, r));
    }
    r
}

/// Compiles a peripheral: `addr => name: "desc" { registers }`, each register
/// `addr => name: "desc" { fields }`, with bases taken from `scope`.
pub fn peripheral(text: &'static str, scope: &Scope) -> (r: Result<Peripheral, DeclError>)
    ensures
        !(r is Err && r->Err_0 is Syntax) ==> exists|ts: Seq<Token>, d: PeripheralDecl| {
            &&& #[trigger] lexes(ts, text@)
            &&& #[trigger] reads_peripheral(ts, text@.len() as usize, d)
            &&& (r is Ok <==> forall|i: int| 0 <= i < d.regs@.len() ==> #[trigger] body_ok(d.regs@[i].body, scope.entries@))
            &&& (r matches Ok(p) ==> assembles(d, scope.entries@, p))
            &&& (r matches Err(e) ==> e matches DeclError::Registers(es) && reports(d.regs@, scope.entries@, es@))
        },
        text@.len() < usize::MAX - 8 && (exists|ts: Seq<Token>, d: PeripheralDecl|
            #[trigger] lexes(ts, text@) && #[trigger] reads_peripheral(ts, text@.len() as usize, d))
            ==> !(r is Err && r->Err_0 is Syntax),
        r matches Err(DeclError::Syntax { pos }) ==> scan(text@, 0) == Err::<Seq<(int, int, int, int)>, int>(pos as int)
            || text@.len() >= usize::MAX - 8 || exists|ts: Seq<Token>|
            #[trigger] lexes(ts, text@) && pos == pos_of(ts, peripheral_err(ts, text@.len() as usize), text@.len() as usize),
{
    let n = text.unicode_len();
    let ts = match lex(text) {
        Ok(ts) => ts,
        Err(e) => {
            return Err(DeclError::Syntax { pos: e.pos });
        },
    };
    if ts.len() >= usize::MAX - 8 {
        return Err(DeclError::Syntax { pos: n });
    }
    proof {
        assert(n == text@.len() as usize);
        assert(lexes(ts@, text@));
        if text@.len() < usize::MAX - 8 && exists|ts0: Seq<Token>, d0: PeripheralDecl|
            #[trigger] lexes(ts0, text@) && #[trigger] reads_peripheral(ts0, text@.len() as usize, d0) {
            let (ts0, d0) = choose|ts0: Seq<Token>, d0: PeripheralDecl|
                #[trigger] lexes(ts0, text@) && #[trigger] reads_peripheral(ts0, text@.len() as usize, d0);
            lemma_lexes_shape(ts0, ts@, text@);
            lemma_shape_peripheral(ts0, ts@, n);
        }
    }
    let d = match parse_peripheral(&ts, n) {
        Ok(d) => d,
        Err(e) => {
            return Err(DeclError::Syntax { pos: e.pos });
        },
    };
    let r = assemble(&d, scope);
    proof {
        assert(n == text@.len() as usize);
        assert(lexes(ts@, text@) && reads_peripheral(ts@, text@.len() as usize, d));
    }
    r
}

} // verus!
