use vstd::prelude::*;

use crate::model::{Field, Fields, Register, Peripheral, Device};

verus! {

/// A serialized document: integers, text, lists and records of named entries.
#[derive(Debug)]
pub enum Doc {
    Int(u64),
    Text(String),
    List(Vec<Doc>),
    Record(Vec<(String, Doc)>),
}

/// `d` is the text `s`.
pub open spec fn is_text(d: Doc, s: Seq<char>) -> bool {
    d matches Doc::Text(t) && t@ == s
}

/// `d` is the integer `n`.
pub open spec fn is_int(d: Doc, n: u64) -> bool {
    d == Doc::Int(n)
}

/// Entry `i` of the record entries `kv` is named `k`.
pub open spec fn key_at(kv: Seq<(String, Doc)>, i: int, k: Seq<char>) -> bool {
    kv[i].0@ == k
}

/// `d` is the record `{name, description, bitOffset, bitWidth}` of `f`.
pub open spec fn is_field_doc(d: Doc, f: Field) -> bool {
    match d {
        Doc::Record(kv) => {
            &&& kv@.len() == 4
            &&& key_at(kv@, 0, "name"@) && is_text(kv@[0].1, f.name@)
            &&& key_at(kv@, 1, "description"@) && is_text(kv@[1].1, f.desc@)
            &&& key_at(kv@, 2, "bitOffset"@) && is_int(kv@[2].1, f.bit_offset)
            &&& key_at(kv@, 3, "bitWidth"@) && is_int(kv@[3].1, f.bit_width)
        },
        _ => false,
    }
}

/// `d` is the list of the records of `fs`, in order.
pub open spec fn is_fields_doc(d: Doc, fs: Seq<Field>) -> bool {
    match d {
        Doc::List(v) => v@.len() == fs.len() && forall|i: int|
            0 <= i < fs.len() ==> #[trigger] is_field_doc(v@[i], fs[i]),
        _ => false,
    }
}

/// `d` is the record `{name, description, addressOffset, fields}` of `r`, with the
/// fields flattened.
pub open spec fn is_register_doc(d: Doc, r: Register) -> bool {
    match d {
        Doc::Record(kv) => {
            &&& kv@.len() == 4
            &&& key_at(kv@, 0, "name"@) && is_text(kv@[0].1, r.name@)
            &&& key_at(kv@, 1, "description"@) && is_text(kv@[1].1, r.desc@)
            &&& key_at(kv@, 2, "addressOffset"@) && is_int(kv@[2].1, r.addr)
            &&& key_at(kv@, 3, "fields"@) && is_fields_doc(kv@[3].1, r.fields.flat())
        },
        _ => false,
    }
}

/// `d` is the record `{name, description, baseAddress, registers}` of `p`.
pub open spec fn is_peripheral_doc(d: Doc, p: Peripheral) -> bool {
    match d {
        Doc::Record(kv) => {
            &&& kv@.len() == 4
            &&& key_at(kv@, 0, "name"@) && is_text(kv@[0].1, p.name@)
            &&& key_at(kv@, 1, "description"@) && is_text(kv@[1].1, p.desc@)
            &&& key_at(kv@, 2, "baseAddress"@) && is_int(kv@[2].1, p.addr)
            &&& key_at(kv@, 3, "registers"@) && match kv@[3].1 {
                Doc::List(v) => v@.len() == p.regs@.len() && forall|i: int|
                    0 <= i < v@.len() ==> #[trigger] is_register_doc(v@[i], p.regs@[i]),
                _ => false,
            }
        },
        _ => false,
    }
}

/// `d` is the record `{vendor, name, description, version, addressUnitBits, width,
/// peripherals}` of `dev`.
pub open spec fn is_device_doc(d: Doc, dev: Device) -> bool {
    match d {
        Doc::Record(kv) => {
            &&& kv@.len() == 7
            &&& key_at(kv@, 0, "vendor"@) && is_text(kv@[0].1, dev.vendor@)
            &&& key_at(kv@, 1, "name"@) && is_text(kv@[1].1, dev.name@)
            &&& key_at(kv@, 2, "description"@) && is_text(kv@[2].1, dev.desc@)
            &&& key_at(kv@, 3, "version"@) && is_int(kv@[3].1, dev.version)
            &&& key_at(kv@, 4, "addressUnitBits"@) && is_int(kv@[4].1, dev.bits)
            &&& key_at(kv@, 5, "width"@) && is_int(kv@[5].1, dev.width)
            &&& key_at(kv@, 6, "peripherals"@) && match kv@[6].1 {
                Doc::List(v) => v@.len() == dev.peripherals@.len() && forall|i: int|
                    0 <= i < v@.len() ==> #[trigger] is_peripheral_doc(v@[i], dev.peripherals@[i]),
                _ => false,
            }
        },
        _ => false,
    }
}

fn entry(k: &str, v: Doc) -> (r: (String, Doc))
    ensures
        r.0@ == k@,
        r.1 == v,
{
    (k.to_owned(), v)
}

fn text(s: &str) -> (r: Doc)
    ensures
        is_text(r, s@),
{
    Doc::Text(s.to_owned())
}

impl Field {
    /// The record of this field.
    pub fn to_doc(&self) -> (r: Doc)
        ensures
            is_field_doc(r, *self),
    {
        let mut kv: Vec<(String, Doc)> = Vec::new();
        kv.push(entry("name", text(self.name)));
        kv.push(entry("description", text(self.desc)));
        kv.push(entry("bitOffset", Doc::Int(self.bit_offset)));
        kv.push(entry("bitWidth", Doc::Int(self.bit_width)));
        Doc::Record(kv)
    }
}

impl Fields {
    /// The list of the records of the flattened fields: the base chain first.
    pub fn to_doc(&self) -> (r: Doc)
        ensures
            is_fields_doc(r, self.flat()),
    {
        let mut it = self.into_iter();
        let mut out: Vec<Doc> = Vec::new();
        loop
            invariant
                it.wf(),
                it.rest() == self.flat().skip(out@.len() as int),
                out@.len() <= self.flat().len(),
                forall|i: int| 0 <= i < out@.len() ==> #[trigger] is_field_doc(out@[i], self.flat()[i]),
            ensures
                out@.len() == self.flat().len(),
                forall|i: int| 0 <= i < out@.len() ==> #[trigger] is_field_doc(out@[i], self.flat()[i]),
            decreases it.rest().len(),
        {
            let ghost n = out@.len();
            match it.next() {
                Some(f) => {
                    proof {
                        assert(self.flat()[n as int] == self.flat().skip(n as int)[0]);
                    }
                    out.push(f.to_doc());
                    proof {
                        assert(self.flat().skip(n as int).drop_first() =~= self.flat().skip(n + 1 as int));
                    }
                },
                None => {
                    proof {
                        assert(self.flat().skip(n as int).len() == 0);
                    }
                    break;
                },
            }
        }
        Doc::List(out)
    }
}

impl Register {
    /// The record of this register, with its fields flattened.
    pub fn to_doc(&self) -> (r: Doc)
        ensures
            is_register_doc(r, *self),
    {
        let mut kv: Vec<(String, Doc)> = Vec::new();
        kv.push(entry("name", text(self.name)));
        kv.push(entry("description", text(self.desc)));
        kv.push(entry("addressOffset", Doc::Int(self.addr)));
        kv.push(entry("fields", self.fields.to_doc()));
        Doc::Record(kv)
    }
}

impl Peripheral {
    /// The record of this peripheral, with its registers in order.
    pub fn to_doc(&self) -> (r: Doc)
        ensures
            is_peripheral_doc(r, *self),
    {
        let mut regs: Vec<Doc> = Vec::new();
        let mut i: usize = 0;
        while i < self.regs.len()
            invariant
                i <= self.regs@.len(),
                regs@.len() == i,
                forall|j: int| 0 <= j < i ==> #[trigger] is_register_doc(regs@[j], self.regs@[j]),
            decreases self.regs@.len() - i,
        {
            regs.push(self.regs[i].to_doc());
            i = i + 1;
        }
        let mut kv: Vec<(String, Doc)> = Vec::new();
        kv.push(entry("name", text(self.name)));
        kv.push(entry("description", text(self.desc)));
        kv.push(entry("baseAddress", Doc::Int(self.addr)));
        kv.push(entry("registers", Doc::List(regs)));
        Doc::Record(kv)
    }
}

impl Device {
    /// The record of this device, with its peripherals in order.
    pub fn to_doc(&self) -> (r: Doc)
        ensures
            is_device_doc(r, *self),
    {
        let mut ps: Vec<Doc> = Vec::new();
        let mut i: usize = 0;
        while i < self.peripherals.len()
            invariant
                i <= self.peripherals@.len(),
                ps@.len() == i,
                forall|j: int| 0 <= j < i ==> #[trigger] is_peripheral_doc(ps@[j], self.peripherals@[j]),
            decreases self.peripherals@.len() - i,
        {
            ps.push(self.peripherals[i].to_doc());
            i = i + 1;
        }
        let mut kv: Vec<(String, Doc)> = Vec::new();
        kv.push(entry("vendor", text(self.vendor)));
        kv.push(entry("name", text(self.name)));
        kv.push(entry("description", text(self.desc)));
        kv.push(entry("version", Doc::Int(self.version)));
        kv.push(entry("addressUnitBits", Doc::Int(self.bits)));
        kv.push(entry("width", Doc::Int(self.width)));
        kv.push(entry("peripherals", Doc::List(ps)));
        Doc::Record(kv)
    }
}

} // verus!
