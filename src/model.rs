use std::rc::Rc;
use vstd::prelude::*;

verus! {

/// A named bit range within a register.
#[derive(Clone, Copy, Debug)]
pub struct Field {
    pub name: &'static str,
    pub desc: &'static str,
    pub bit_offset: u64,
    pub bit_width: u64,
}

/// Fields declared locally, after those of an optional base field set, which
/// other field sets may share.
#[derive(Debug)]
pub struct Fields {
    pub fields: Vec<Field>,
    pub base: Option<Rc<Fields>>,
}

/// A register, at an offset from its peripheral's base address.
#[derive(Debug)]
pub struct Register {
    pub name: &'static str,
    pub desc: &'static str,
    pub addr: u64,
    pub fields: Fields,
}

/// A peripheral, at a base address, with its registers.
#[derive(Debug)]
pub struct Peripheral {
    pub name: &'static str,
    pub desc: &'static str,
    pub addr: u64,
    pub regs: Vec<Register>,
}

/// A device and its peripherals.
#[derive(Debug)]
pub struct Device {
    pub vendor: &'static str,
    pub name: &'static str,
    pub desc: &'static str,
    pub version: u64,
    pub bits: u64,
    pub width: u64,
    pub peripherals: Vec<Peripheral>,
}

impl Fields {
    /// The fields of the base chain, furthest ancestor first, then the local ones.
    pub open spec fn flat(self) -> Seq<Field>
        decreases self,
    {
        match self.base {
            Some(b) => (*b).flat() + self.fields@,
            None => self.fields@,
        }
    }

    /// The base field set.
    pub open spec fn base_set(self) -> Fields
        recommends
            self.base is Some,
    {
        *self.base.unwrap()
    }

    /// The sum of the local field counts over the base chain, this set included.
    pub open spec fn total(self) -> nat
        decreases self,
    {
        match self.base {
            Some(b) => (*b).total() + self.fields@.len(),
            None => self.fields@.len(),
        }
    }

    /// The number of fields that walking this set yields.
    pub fn len(&self) -> (r: usize)
        requires
            self.flat().len() <= usize::MAX,
        ensures
            r == self.flat().len(),
    {
        self.into_iter().len()
    }

    /// A field set with no base.
    pub fn new(fields: Vec<Field>) -> (r: Fields)
        ensures
            r.fields@ == fields@,
            r.base is None,
    {
        Fields { fields, base: None }
    }

    /// A field set whose base is `base`.
    pub fn derived(base: Rc<Fields>, fields: Vec<Field>) -> (r: Fields)
        ensures
            r.fields@ == fields@,
            r.base == Some(base),
    {
        Fields { fields, base: Some(base) }
    }
}

/// Walks a field set and its base chain: the base chain first, then the local fields.
pub struct FieldsIter<'a> {
    fields: &'a Vec<Field>,
    pos: usize,
    base: Option<Box<FieldsIter<'a>>>,
}

impl<'a> FieldsIter<'a> {
    /// The fields that are still to come, in order.
    pub closed spec fn rest(self) -> Seq<Field>
        decreases self,
    {
        let local = self.fields@.skip(self.pos as int);
        match self.base {
            Some(b) => (*b).rest() + local,
            None => local,
        }
    }

    pub closed spec fn wf(self) -> bool
        decreases self,
    {
        &&& self.pos <= self.fields@.len()
        &&& match self.base {
            Some(b) => (*b).wf(),
            None => true,
        }
    }

    pub closed spec fn depth(self) -> nat
        decreases self,
    {
        match self.base {
            Some(b) => 1 + (*b).depth(),
            None => 1,
        }
    }

    /// The next field, if any is left.
    pub fn next(&mut self) -> (r: Option<&'a Field>)
        requires
            old(self).wf(),
        ensures
            final(self).wf(),
            old(self).rest().len() == 0 ==> r is None && final(self).rest() == old(self).rest(),
            old(self).rest().len() > 0 ==> r == Some(&old(self).rest()[0])
                && final(self).rest() == old(self).rest().drop_first(),
        decreases old(self).depth(),
    {
        let taken = self.base.take();
        match taken {
            Some(b) => {
                let mut it = *b;
                let r = it.next();
                self.base = Some(Box::new(it));
                if r.is_some() {
                    return r;
                }
            },
            None => {},
        }
        if self.pos < self.fields.len() {
            let f = &self.fields[self.pos];
            self.pos = self.pos + 1;
            Some(f)
        } else {
            None
        }
    }

    /// How many fields are still to come.
    pub fn len(&self) -> (r: usize)
        requires
            self.wf(),
            self.rest().len() <= usize::MAX,
        ensures
            r == self.rest().len(),
        decreases self,
    {
        let local = self.fields.len() - self.pos;
        match &self.base {
            Some(b) => {
                proof {
                    assert(self.rest().len() == (**b).rest().len() + local);
                }
                b.len() + local
            },
            None => local,
        }
    }
}

impl Fields {
    /// Walks this field set: the base chain first, then the local fields.
    pub fn into_iter<'a>(&'a self) -> (r: FieldsIter<'a>)
        ensures
            r.wf(),
            r.rest() == self.flat(),
        decreases self,
    {
        let base = match &self.base {
            Some(b) => Some(Box::new((**b).into_iter())),
            None => None,
        };
        let r = FieldsIter { fields: &self.fields, pos: 0, base };
        proof {
            assert(self.fields@.skip(0) == self.fields@);
        }
        r
    }
}

/// Without a base, walking a field set yields exactly its local fields, and as many.
pub proof fn lemma_no_base_walk(f: Fields)
    requires
        f.base is None,
    ensures
        f.flat() == f.fields@,
        f.flat().len() == f.fields@.len(),
{
}

/// Walking a field set yields all of its base's walk, then its local fields; its
/// length is the base's plus the local count.
pub proof fn lemma_base_first(f: Fields)
    requires
        f.base is Some,
    ensures
        f.flat() == f.base.unwrap().flat() + f.fields@,
        f.flat().len() == f.base.unwrap().flat().len() + f.fields@.len(),
        forall|i: int| 0 <= i < f.base.unwrap().flat().len() ==>
            f.flat()[i] == f.base.unwrap().flat()[i],
        forall|j: int| 0 <= j < f.fields@.len() ==>
            f.flat()[f.base.unwrap().flat().len() + j] == f.fields@[j],
{
}

/// The length of a walk is the sum of the local counts along the whole base chain.
pub proof fn lemma_len_is_total(f: Fields)
    ensures
        f.flat().len() == f.total(),
    decreases f,
{
    if f.base is Some {
        lemma_len_is_total(f.base_set());
    }
}

/// No field is dropped for sharing a name or a position with one of the base: a
/// local field equal to one of the base's comes out twice, the base's first.
pub proof fn lemma_no_dedup(f: Fields, i: int, j: int)
    requires
        f.base is Some,
        0 <= i < f.base.unwrap().flat().len(),
        0 <= j < f.fields@.len(),
        f.fields@[j] == f.base.unwrap().flat()[i],
    ensures
        f.flat().len() == f.base.unwrap().flat().len() + f.fields@.len(),
        f.flat()[i] == f.fields@[j],
        f.flat()[f.base.unwrap().flat().len() + j] == f.fields@[j],
        i < f.base.unwrap().flat().len() + j,
{
}

} // verus!
