//! The object model: the unit the assembler emits and the linker merges.
//!
//! An object holds raw emitted bytes (`data`), a label table mapping each
//! name to a byte offset within `data`, and an ordered list of relocation
//! uses: places whose 2 bytes must be overwritten with a label's address
//! once it is known. Label names are byte strings; the persisted form is
//! the magic `"Q16"`, the label table, the relocation-use table, then the
//! raw data, each table a 2-byte little-endian entry count followed by
//! (NUL-terminated name, 2-byte little-endian offset) pairs.

use vstd::prelude::*;
use crate::emu::hi8;
use crate::emu::lo8;
use crate::emu::wrap16;
use crate::emu::word_of;
use crate::isa::Instruction;

verus! {

/// An error of loading, building, or linking objects.
#[derive(Clone, Copy, PartialEq, Eq, Structural, Debug)]
pub enum ObjError {
    /// A persisted object does not begin with the magic bytes.
    BadMagic,
    /// A persisted object ends before its tables do.
    Truncated,
    /// A label was declared twice, in one object or across merged objects.
    DuplicateLabel,
    /// A relocation use names a label that no merged object declares.
    UndefinedLabel,
    /// A relocation use points past the end of the merged data.
    PatchOutOfRange,
}

impl ObjError {
    /// A short description of the error.
    pub fn msg(&self) -> &'static str {
        match self {
            ObjError::BadMagic => "invalid magic bytes",
            ObjError::Truncated => "truncated object file",
            ObjError::DuplicateLabel => "duplicate label",
            ObjError::UndefinedLabel => "undefined label",
            ObjError::PatchOutOfRange => "label use out of range",
        }
    }
}

/// The entries of a label or relocation-use table, as (name, offset) pairs
/// of mathematical values.
pub open spec fn table_view(t: Seq<(Vec<u8>, u16)>) -> Seq<(Seq<u8>, u16)> {
    t.map_values(|p: (Vec<u8>, u16)| (p.0@, p.1))
}

/// Whether some entry of a table bears the given name.
pub open spec fn has_key(t: Seq<(Seq<u8>, u16)>, k: Seq<u8>) -> bool {
    exists|i: int| 0 <= i < t.len() && t[i].0 == k
}

/// The offset of the first entry bearing the given name, if any.
pub open spec fn spec_lookup(t: Seq<(Seq<u8>, u16)>, k: Seq<u8>) -> Option<u16>
    decreases t.len(),
{
    if t.len() == 0 {
        None
    } else if t[0].0 == k {
        Some(t[0].1)
    } else {
        spec_lookup(t.skip(1), k)
    }
}

/// A lookup succeeds exactly when some entry bears the name.
pub proof fn lemma_lookup_has_key(t: Seq<(Seq<u8>, u16)>, k: Seq<u8>)
    ensures
        (spec_lookup(t, k) is Some) == has_key(t, k),
    decreases t.len(),
{
    if t.len() == 0 {
        assert(!has_key(t, k));
    } else if t[0].0 == k {
        assert(has_key(t, k));
    } else {
        lemma_lookup_has_key(t.skip(1), k);
        if has_key(t.skip(1), k) {
            let i = choose|i: int| 0 <= i < t.skip(1).len() && t.skip(1)[i].0 == k;
            assert(t[i + 1].0 == k);
            assert(has_key(t, k));
        }
        if has_key(t, k) {
            let i = choose|i: int| 0 <= i < t.len() && t[i].0 == k;
            assert(i != 0);
            assert(t.skip(1)[i - 1].0 == k);
            assert(has_key(t.skip(1), k));
        }
    }
}

/// A name may be persisted when it contains no NUL byte, which terminates
/// it on disk.
pub open spec fn name_ok(k: Seq<u8>) -> bool {
    forall|i: int| 0 <= i < k.len() ==> k[i] != 0
}

/// A table may be persisted exactly when its entry count fits the 2-byte
/// count field and every name is NUL-free.
pub open spec fn table_ok(t: Seq<(Seq<u8>, u16)>) -> bool {
    t.len() < 0x10000 && forall|i: int| 0 <= i < t.len() ==> name_ok(#[trigger] t[i].0)
}

/// The magic bytes `"Q16"` that open a persisted object.
pub open spec fn magic_bytes() -> Seq<u8> {
    seq![0x51u8, 0x31u8, 0x36u8]
}

/// The persisted form of one table entry: the name, a NUL, then the offset
/// as two little-endian bytes.
pub open spec fn spec_entry_bytes(name: Seq<u8>, off: u16) -> Seq<u8> {
    name + seq![0u8, lo8(off), hi8(off)]
}

/// The persisted entries of a table, in order.
pub open spec fn spec_entries_bytes(t: Seq<(Seq<u8>, u16)>) -> Seq<u8>
    decreases t.len(),
{
    if t.len() == 0 {
        Seq::empty()
    } else {
        spec_entry_bytes(t[0].0, t[0].1) + spec_entries_bytes(t.skip(1))
    }
}

/// The persisted form of a whole table: the entry count, truncated to 16
/// bits, then the entries.
pub open spec fn spec_table_bytes(t: Seq<(Seq<u8>, u16)>) -> Seq<u8> {
    seq![lo8(wrap16(t.len() as int)), hi8(wrap16(t.len() as int))] + spec_entries_bytes(t)
}

/// The persisted form of a whole object.
pub open spec fn spec_out_obj(
    labels: Seq<(Seq<u8>, u16)>,
    uses: Seq<(Seq<u8>, u16)>,
    data: Seq<u8>,
) -> Seq<u8> {
    magic_bytes() + spec_table_bytes(labels) + spec_table_bytes(uses) + data
}

/// The position of the first NUL byte, if any.
pub open spec fn spec_find_nul(b: Seq<u8>) -> Option<int>
    decreases b.len(),
{
    if b.len() == 0 {
        None
    } else if b[0] == 0 {
        Some(0)
    } else {
        match spec_find_nul(b.skip(1)) {
            None => None,
            Some(i) => Some(i + 1),
        }
    }
}

/// Parses `n` table entries from the front of `b`: the entries and the
/// number of bytes they spanned, or `None` when `b` ends too soon.
pub open spec fn spec_parse_entries(b: Seq<u8>, n: nat) -> Option<(Seq<(Seq<u8>, u16)>, int)>
    decreases n,
{
    if n == 0 {
        Some((Seq::empty(), 0))
    } else {
        match spec_find_nul(b) {
            None => None,
            Some(p) => if p + 3 <= b.len() {
                match spec_parse_entries(b.skip(p + 3), (n - 1) as nat) {
                    None => None,
                    Some((rest, used)) => Some(
                        (seq![(b.take(p), word_of(b[p + 1], b[p + 2]))] + rest, p + 3 + used),
                    ),
                }
            } else {
                None
            },
        }
    }
}

/// Parses a whole table from the front of `b`: its entries and the number
/// of bytes it spanned, count field included.
pub open spec fn spec_parse_table(b: Seq<u8>) -> Option<(Seq<(Seq<u8>, u16)>, int)> {
    if b.len() < 2 {
        None
    } else {
        match spec_parse_entries(b.skip(2), word_of(b[0], b[1]) as nat) {
            None => None,
            Some((entries, used)) => Some((entries, used + 2)),
        }
    }
}

/// Parsing a persisted object: the label table, the relocation-use table,
/// and the raw data, or the error that the bytes earn.
pub open spec fn spec_load(b: Seq<u8>) -> Result<
    (Seq<(Seq<u8>, u16)>, Seq<(Seq<u8>, u16)>, Seq<u8>),
    ObjError,
> {
    if b.len() < 3 {
        Err(ObjError::Truncated)
    } else if b.take(3) != magic_bytes() {
        Err(ObjError::BadMagic)
    } else {
        match spec_parse_table(b.skip(3)) {
            None => Err(ObjError::Truncated),
            Some((labels, used1)) => match spec_parse_table(b.skip(3 + used1)) {
                None => Err(ObjError::Truncated),
                Some((uses, used2)) => Ok((labels, uses, b.skip(3 + used1 + used2))),
            },
        }
    }
}

/// Resolution of the relocation uses, in order: each use's 2 bytes are
/// overwritten with its label's little-endian address. A use whose label is
/// missing, or which points past the end of the data, stops resolution with
/// the matching error.
pub open spec fn spec_resolve(
    labels: Seq<(Seq<u8>, u16)>,
    uses: Seq<(Seq<u8>, u16)>,
    data: Seq<u8>,
) -> Result<Seq<u8>, ObjError>
    decreases uses.len(),
{
    if uses.len() == 0 {
        Ok(data)
    } else {
        match spec_lookup(labels, uses[0].0) {
            None => Err(ObjError::UndefinedLabel),
            Some(v) => if uses[0].1 + 2 <= data.len() {
                spec_resolve(
                    labels,
                    uses.skip(1),
                    data.update(uses[0].1 as int, lo8(v)).update(uses[0].1 + 1, hi8(v)),
                )
            } else {
                Err(ObjError::PatchOutOfRange)
            },
        }
    }
}

/// An intermediate assembly unit: emitted bytes, declared labels, and the
/// relocation uses still to be patched.
#[derive(Debug, PartialEq, Eq)]
pub struct Obj {
    pub labels: Vec<(Vec<u8>, u16)>,
    pub label_uses: Vec<(Vec<u8>, u16)>,
    pub data: Vec<u8>,
}

impl Obj {
    /// A fresh, empty object.
    pub fn new() -> (r: Obj)
        ensures
            r.labels@ == Seq::<(Vec<u8>, u16)>::empty(),
            r.label_uses@ == Seq::<(Vec<u8>, u16)>::empty(),
            r.data@ == Seq::<u8>::empty(),
    {
        let r = Obj { labels: Vec::new(), label_uses: Vec::new(), data: Vec::new() };
        proof {
            assert(r.labels@ =~= Seq::<(Vec<u8>, u16)>::empty());
            assert(r.label_uses@ =~= Seq::<(Vec<u8>, u16)>::empty());
            assert(r.data@ =~= Seq::<u8>::empty());
        }
        r
    }

    /// Declares `label` at the current end of the data. Declaring a name
    /// twice is an error and changes nothing.
    pub fn insert_label(&mut self, label: Vec<u8>) -> (r: Result<(), ObjError>)
        ensures
            has_key(table_view(old(self).labels@), label@) ==> r == Err::<(), ObjError>(
                ObjError::DuplicateLabel,
            ) && *final(self) == *old(self),
            !has_key(table_view(old(self).labels@), label@) ==> r == Ok::<(), ObjError>(())
                && final(self).labels@ == old(self).labels@.push(
                (label, wrap16(old(self).data@.len() as int)),
            ) && final(self).label_uses@ == old(self).label_uses@ && final(self).data@ == old(
                self,
            ).data@,
    {
        proof {
            lemma_lookup_has_key(table_view(self.labels@), label@);
        }
        if Self::find_entry(&self.labels, &label).is_some() {
            return Err(ObjError::DuplicateLabel);
        }
        let off = (self.data.len() % 0x10000) as u16;
        self.labels.push((label, off));
        Ok(())
    }

    /// Records a relocation use of `label` at `offset` bytes past the
    /// current end of the data, wrapped to 16 bits.
    pub fn insert_label_usage(&mut self, label: Vec<u8>, offset: u16)
        ensures
            final(self).label_uses@ == old(self).label_uses@.push(
                (label, wrap16(old(self).data@.len() + offset)),
            ),
            final(self).labels@ == old(self).labels@,
            final(self).data@ == old(self).data@,
    {
        let at = ((self.data.len() % 0x10000) + offset as usize) % 0x10000;
        proof {
            vstd::arithmetic::div_mod::lemma_mod_adds(
                old(self).data@.len() as int,
                offset as int,
                0x10000,
            );
            vstd::arithmetic::div_mod::lemma_mod_twice(old(self).data@.len() as int, 0x10000);
            vstd::arithmetic::div_mod::lemma_mod_adds(
                (old(self).data@.len() as int) % 0x10000,
                offset as int,
                0x10000,
            );
            vstd::arithmetic::div_mod::lemma_small_mod(offset as nat, 0x10000);
        }
        self.label_uses.push((label, at as u16));
    }

    /// Appends the 4-byte little-endian encoding of one instruction.
    pub fn emit_instr(&mut self, instr: Instruction)
        requires
            instr.wf(),
        ensures
            final(self).data@ == old(self).data@ + spec_u32_le_bytes(instr.spec_encode()),
            final(self).labels@ == old(self).labels@,
            final(self).label_uses@ == old(self).label_uses@,
    {
        let x = instr.as_u32();
        self.data.push((x % 0x100) as u8);
        self.data.push(((x / 0x100) % 0x100) as u8);
        self.data.push(((x / 0x10000) % 0x100) as u8);
        self.data.push((x / 0x1000000) as u8);
        proof {
            assert(final(self).data@ =~= old(self).data@ + spec_u32_le_bytes(instr.spec_encode()));
        }
    }

    /// The first entry of `t` bearing `name`, as its index and offset.
    fn find_entry(t: &Vec<(Vec<u8>, u16)>, name: &Vec<u8>) -> (r: Option<u16>)
        ensures
            r == spec_lookup(table_view(t@), name@),
    {
        let view = Ghost(table_view(t@));
        proof {
            assert(view@.skip(0) =~= view@);
        }
        let mut i: usize = 0;
        while i < t.len()
            invariant
                0 <= i <= t.len(),
                view@ == table_view(t@),
                view@.len() == t@.len(),
                forall|k: int| 0 <= k < t@.len() ==> view@[k] == (t@[k].0@, t@[k].1),
                spec_lookup(view@, name@) == spec_lookup(view@.skip(i as int), name@),
            decreases t.len() - i,
        {
            if t[i].0 == *name {
                proof {
                    assert(t@[i as int].0@ =~= name@);
                    assert(view@.skip(i as int)[0] == view@[i as int]);
                }
                return Some(t[i].1);
            }
            proof {
                assert(view@.skip(i as int).skip(1) =~= view@.skip(i as int + 1));
                assert(view@.skip(i as int)[0] == view@[i as int]);
            }
            i = i + 1;
        }
        proof {
            assert(view@.skip(i as int).len() == 0);
        }
        None
    }
}

/// The 4 bytes of a 32-bit value, little-endian.
pub open spec fn spec_u32_le_bytes(x: u32) -> Seq<u8> {
    seq![
        (x % 0x100) as u8,
        ((x / 0x100) % 0x100) as u8,
        ((x / 0x10000) % 0x100) as u8,
        (x / 0x1000000) as u8,
    ]
}

/// A table after every offset is rebased by `base`, with 16-bit wraparound.
pub open spec fn rebase_table(t: Seq<(Seq<u8>, u16)>, base: int) -> Seq<(Seq<u8>, u16)> {
    t.map_values(|p: (Seq<u8>, u16)| (p.0, wrap16(base + p.1)))
}

/// Whether no two entries of a table share a name.
pub open spec fn dup_free(t: Seq<(Seq<u8>, u16)>) -> bool {
    forall|i: int, j: int| 0 <= i < j < t.len() ==> t[i].0 != t[j].0
}

/// Whether merging table `b` into table `a` hits a duplicate name: an
/// incoming name already present, or repeated among the incoming entries.
pub open spec fn merge_collides(a: Seq<(Seq<u8>, u16)>, b: Seq<(Seq<u8>, u16)>) -> bool {
    (exists|i: int| 0 <= i < b.len() && has_key(a, #[trigger] b[i].0)) || !dup_free(b)
}

/// Appending one entry to a table appends its view.
pub(crate) proof fn lemma_table_view_push(t: Seq<(Vec<u8>, u16)>, e: (Vec<u8>, u16))
    ensures
        table_view(t.push(e)) == table_view(t).push((e.0@, e.1)),
{
    let lhs = table_view(t.push(e));
    let rhs = table_view(t).push((e.0@, e.1));
    assert forall|q: int| 0 <= q < lhs.len() implies lhs[q] == rhs[q] by {
        if q < t.len() {
            assert(t.push(e)[q] == t[q]);
        } else {
            assert(t.push(e)[q] == e);
        }
    }
    assert(lhs =~= rhs);
}

/// An owned copy of a byte string.
pub(crate) fn copy_bytes(v: &Vec<u8>) -> (r: Vec<u8>)
    ensures
        r@ == v@,
{
    let mut r: Vec<u8> = Vec::new();
    proof {
        assert(r@ =~= v@.take(0));
    }
    let mut i: usize = 0;
    while i < v.len()
        invariant
            0 <= i <= v@.len(),
            r@ == v@.take(i as int),
        decreases v@.len() - i,
    {
        r.push(v[i]);
        proof {
            assert(r@ =~= v@.take(i as int + 1));
        }
        i = i + 1;
    }
    proof {
        assert(v@.take(i as int) =~= v@);
    }
    r
}

/// Wraps `len + off` into 16 bits.
fn rebase_off(len: usize, off: u16) -> (r: u16)
    ensures
        r == wrap16(len + off),
{
    let at = ((len % 0x10000) + off as usize) % 0x10000;
    proof {
        vstd::arithmetic::div_mod::lemma_mod_adds(len as int, off as int, 0x10000);
        vstd::arithmetic::div_mod::lemma_mod_twice(len as int, 0x10000);
        vstd::arithmetic::div_mod::lemma_mod_adds((len as int) % 0x10000, off as int, 0x10000);
        vstd::arithmetic::div_mod::lemma_small_mod(off as nat, 0x10000);
    }
    at as u16
}

impl Obj {
    /// Merges `other` into this object: its data is appended after the
    /// current data, every incoming label and relocation-use offset is
    /// rebased by the pre-append data length, and each incoming label joins
    /// the label table. A name collision is a fatal error and leaves this
    /// object unchanged.
    pub fn extend(&mut self, other: Obj) -> (r: Result<(), ObjError>)
        ensures
            merge_collides(table_view(old(self).labels@), table_view(other.labels@)) ==> r == Err::<
                (),
                ObjError,
            >(ObjError::DuplicateLabel) && *final(self) == *old(self),
            !merge_collides(table_view(old(self).labels@), table_view(other.labels@)) ==> (r
                == Ok::<(), ObjError>(()) && table_view(final(self).labels@) == table_view(
                old(self).labels@,
            ) + rebase_table(table_view(other.labels@), old(self).data@.len() as int)
                && table_view(final(self).label_uses@) == table_view(old(self).label_uses@)
                + rebase_table(table_view(other.label_uses@), old(self).data@.len() as int)
                && final(self).data@ == old(self).data@ + other.data@),
    {
        let ghost av = table_view(self.labels@);
        let ghost bv = table_view(other.labels@);
        let mut i: usize = 0;
        while i < other.labels.len()
            invariant
                0 <= i <= other.labels@.len(),
                av == table_view(self.labels@),
                bv == table_view(other.labels@),
                bv.len() == other.labels@.len(),
                forall|k: int| 0 <= k < bv.len() ==> bv[k] == (other.labels@[k].0@,
                    other.labels@[k].1),
                forall|k: int| 0 <= k < i ==> !has_key(av, #[trigger] bv[k].0),
                forall|k: int, j: int| 0 <= j < k < i ==> bv[j].0 != bv[k].0,
            decreases other.labels@.len() - i,
        {
            proof {
                lemma_lookup_has_key(av, bv[i as int].0);
                lemma_lookup_has_key(bv.take(i as int), bv[i as int].0);
            }
            if Self::find_entry(&self.labels, &other.labels[i].0).is_some() {
                return Err(ObjError::DuplicateLabel);
            }
            if Self::find_entry_upto(&other.labels, &other.labels[i].0, i).is_some() {
                proof {
                    let ii = i as int;
                    let j = choose|j: int|
                        0 <= j < bv.take(ii).len() && bv.take(ii)[j].0 == bv[ii].0;
                    assert(bv[j].0 == bv[ii].0);
                }
                return Err(ObjError::DuplicateLabel);
            }
            proof {
                let ii = i as int;
                assert forall|j: int| 0 <= j < ii implies bv[j].0 != bv[ii].0 by {
                    if bv[j].0 == bv[ii].0 {
                        assert(bv.take(ii)[j] == bv[j]);
                        assert(has_key(bv.take(ii), bv[ii].0));
                        lemma_lookup_has_key(bv.take(ii), bv[ii].0);
                    }
                }
            }
            i = i + 1;
        }
        proof {
            assert(!merge_collides(av, bv)) by {
                if exists|k: int| 0 <= k < bv.len() && has_key(av, #[trigger] bv[k].0) {
                    let k = choose|k: int| 0 <= k < bv.len() && has_key(av, #[trigger] bv[k].0);
                    assert(!has_key(av, bv[k].0));
                }
            }
        }

        let base = self.data.len();
        let ghost base0 = self.data@.len() as int;
        let ghost uv0 = table_view(self.label_uses@);
        let ghost d0 = self.data@;
        let mut other = other;
        let ghost buv = table_view(other.label_uses@);
        proof {
            assert(av + rebase_table(bv, base0).take(0) =~= av);
            assert(uv0 + rebase_table(buv, base0).take(0) =~= uv0);
        }
        let mut idx: usize = 0;
        while idx < other.labels.len()
            invariant
                0 <= idx <= other.labels@.len(),
                bv.len() == other.labels@.len(),
                forall|q: int| 0 <= q < bv.len() ==> bv[q] == (other.labels@[q].0@,
                    other.labels@[q].1),
                table_view(self.labels@) == av + rebase_table(bv, base0).take(idx as int),
                table_view(self.label_uses@) == uv0,
                self.data@ == d0,
                base == base0,
            decreases other.labels@.len() - idx,
        {
            let name = copy_bytes(&other.labels[idx].0);
            let noff = rebase_off(base, other.labels[idx].1);
            let ghost prev = self.labels@;
            let ghost entry = (name@, noff);
            self.labels.push((name, noff));
            proof {
                let ii = idx as int;
                let rt = rebase_table(bv, base0);
                lemma_table_view_push(prev, self.labels@.last());
                assert(rt[ii] == (bv[ii].0, wrap16(base0 + bv[ii].1)));
                assert(entry == rt[ii]);
                assert(table_view(prev).push(entry) =~= av + rt.take(ii + 1));
            }
            idx = idx + 1;
        }
        proof {
            assert(rebase_table(bv, base0).take(idx as int) =~= rebase_table(bv, base0));
        }

        let mut k2: usize = 0;
        while k2 < other.label_uses.len()
            invariant
                0 <= k2 <= other.label_uses@.len(),
                buv.len() == other.label_uses@.len(),
                forall|q: int| 0 <= q < buv.len() ==> buv[q] == (other.label_uses@[q].0@,
                    other.label_uses@[q].1),
                table_view(self.label_uses@) == uv0 + rebase_table(buv, base0).take(k2 as int),
                table_view(self.labels@) == av + rebase_table(bv, base0),
                self.data@ == d0,
                base == base0,
            decreases other.label_uses@.len() - k2,
        {
            let name = copy_bytes(&other.label_uses[k2].0);
            let noff = rebase_off(base, other.label_uses[k2].1);
            let ghost prev = self.label_uses@;
            let ghost entry = (name@, noff);
            self.label_uses.push((name, noff));
            proof {
                let ii = k2 as int;
                let rt = rebase_table(buv, base0);
                lemma_table_view_push(prev, self.label_uses@.last());
                assert(rt[ii] == (buv[ii].0, wrap16(base0 + buv[ii].1)));
                assert(entry == rt[ii]);
                assert(table_view(prev).push(entry) =~= uv0 + rt.take(ii + 1));
            }
            k2 = k2 + 1;
        }
        proof {
            assert(rebase_table(buv, base0).take(k2 as int) =~= rebase_table(buv, base0));
        }

        self.data.append(&mut other.data);
        Ok(())
    }

    /// Serializes this object into its persisted byte form: magic, label
    /// table, relocation-use table, raw data.
    pub fn out_obj(self) -> (r: Vec<u8>)
        ensures
            r@ == spec_out_obj(table_view(self.labels@), table_view(self.label_uses@), self.data@),
    {
        let Obj { labels, label_uses, mut data } = self;
        let mut out: Vec<u8> = Vec::new();
        out.push(0x51);
        out.push(0x31);
        out.push(0x36);
        proof {
            assert(out@ =~= magic_bytes());
        }
        out_table(&mut out, &labels);
        out_table(&mut out, &label_uses);
        out.append(&mut data);
        proof {
            assert(out@ =~= spec_out_obj(
                table_view(labels@),
                table_view(label_uses@),
                self.data@,
            ));
        }
        out
    }

    /// Reconstructs an object from its persisted byte form. Bytes that do
    /// not begin with the magic, or that end before the tables do, are
    /// rejected with the matching error.
    pub fn load(data: &[u8]) -> (r: Result<Obj, ObjError>)
        ensures
            ({
                let sp = spec_load(data@);
                match r {
                    Ok(o) => sp == Ok::<_, ObjError>(
                        (table_view(o.labels@), table_view(o.label_uses@), o.data@),
                    ),
                    Err(e) => sp == Err::<(Seq<(Seq<u8>, u16)>, Seq<(Seq<u8>, u16)>, Seq<u8>), _>(
                        e,
                    ),
                }
            }),
    {
        if data.len() < 3 {
            return Err(ObjError::Truncated);
        }
        if !(data[0] == 0x51 && data[1] == 0x31 && data[2] == 0x36) {
            proof {
                if data@.take(3) == magic_bytes() {
                    assert(data@.take(3)[0] == 0x51 && data@.take(3)[1] == 0x31 && data@.take(3)[2]
                        == 0x36);
                }
            }
            return Err(ObjError::BadMagic);
        }
        proof {
            assert(data@.take(3) =~= magic_bytes());
        }
        let (labels, used1) = match parse_table(data, 3) {
            Some(t) => t,
            None => {
                return Err(ObjError::Truncated);
            },
        };
        let (label_uses, used2) = match parse_table(data, 3 + used1) {
            Some(t) => t,
            None => {
                return Err(ObjError::Truncated);
            },
        };
        let off = 3 + used1 + used2;
        let mut rest: Vec<u8> = Vec::new();
        let mut k = off;
        while k < data.len()
            invariant
                off <= k <= data@.len(),
                rest@ == data@.subrange(off as int, k as int),
            decreases data@.len() - k,
        {
            rest.push(data[k]);
            proof {
                assert(rest@ =~= data@.subrange(off as int, k as int + 1));
            }
            k = k + 1;
        }
        proof {
            assert(rest@ =~= data@.skip(off as int));
        }
        Ok(Obj { labels, label_uses, data: rest })
    }

    /// Resolves every relocation use against the label table and returns the
    /// flat binary: the raw data with each use's 2 bytes overwritten by its
    /// label's little-endian address.
    #[verifier::loop_isolation(false)]
    pub fn out_bin(self) -> (r: Result<Vec<u8>, ObjError>)
        ensures
            ({
                let sp = spec_resolve(
                    table_view(self.labels@),
                    table_view(self.label_uses@),
                    self.data@,
                );
                match r {
                    Ok(b) => sp == Ok::<_, ObjError>(b@),
                    Err(e) => sp == Err::<Seq<u8>, _>(e),
                }
            }),
    {
        let ghost lv = table_view(self.labels@);
        let ghost uv = table_view(self.label_uses@);
        let ghost d0 = self.data@;
        let Obj { labels, label_uses, mut data } = self;
        proof {
            assert(uv.skip(0) =~= uv);
        }
        let mut u: usize = 0;
        while u < label_uses.len()
            invariant
                0 <= u <= label_uses@.len(),
                lv == table_view(labels@),
                uv == table_view(label_uses@),
                uv.len() == label_uses@.len(),
                forall|q: int| 0 <= q < uv.len() ==> uv[q] == (label_uses@[q].0@,
                    label_uses@[q].1),
                spec_resolve(lv, uv, d0) == spec_resolve(lv, uv.skip(u as int), data@),
            decreases label_uses@.len() - u,
        {
            let ghost pre = data@;
            let at = label_uses[u].1 as usize;
            let v = match Obj::find_entry(&labels, &label_uses[u].0) {
                Some(v) => v,
                None => {
                    proof {
                        assert(uv.skip(u as int)[0] == uv[u as int]);
                        assert(spec_resolve(lv, uv.skip(u as int), data@) == Err::<Seq<u8>, _>(
                            ObjError::UndefinedLabel,
                        ));
                        assert(spec_resolve(lv, uv, d0) == Err::<Seq<u8>, _>(
                            ObjError::UndefinedLabel,
                        ));
                    }
                    return Err(ObjError::UndefinedLabel);
                },
            };
            if at + 2 > data.len() {
                proof {
                    assert(uv.skip(u as int)[0] == uv[u as int]);
                    assert(spec_resolve(lv, uv.skip(u as int), data@) == Err::<Seq<u8>, _>(
                        ObjError::PatchOutOfRange,
                    ));
                }
                return Err(ObjError::PatchOutOfRange);
            }
            data[at] = (v % 0x100) as u8;
            data[at + 1] = (v / 0x100) as u8;
            proof {
                assert(uv.skip(u as int)[0] == uv[u as int]);
                assert(uv.skip(u as int).skip(1) =~= uv.skip(u as int + 1));
                assert(data@ =~= pre.update(uv[u as int].1 as int, lo8(v)).update(
                    uv[u as int].1 + 1,
                    hi8(v),
                ));
            }
            u = u + 1;
        }
        proof {
            assert(uv.skip(u as int).len() == 0);
        }
        Ok(data)
    }

    /// The first entry among the first `n` of `t` bearing `name`.
    fn find_entry_upto(t: &Vec<(Vec<u8>, u16)>, name: &Vec<u8>, n: usize) -> (r: Option<u16>)
        requires
            n <= t@.len(),
        ensures
            r == spec_lookup(table_view(t@).take(n as int), name@),
    {
        let view = Ghost(table_view(t@).take(n as int));
        proof {
            assert(view@.skip(0) =~= view@);
        }
        let mut i: usize = 0;
        while i < n
            invariant
                0 <= i <= n <= t@.len(),
                view@ == table_view(t@).take(n as int),
                view@.len() == n,
                forall|q: int| 0 <= q < n ==> view@[q] == (t@[q].0@, t@[q].1),
                spec_lookup(view@, name@) == spec_lookup(view@.skip(i as int), name@),
            decreases n - i,
        {
            if t[i].0 == *name {
                proof {
                    assert(t@[i as int].0@ =~= name@);
                    assert(view@.skip(i as int)[0] == view@[i as int]);
                }
                return Some(t[i].1);
            }
            proof {
                assert(view@.skip(i as int).skip(1) =~= view@.skip(i as int + 1));
                assert(view@.skip(i as int)[0] == view@[i as int]);
            }
            i = i + 1;
        }
        proof {
            assert(view@.skip(i as int).len() == 0);
        }
        None
    }
}

/// Serializing one more entry appends its bytes.
proof fn lemma_entries_bytes_push(t: Seq<(Seq<u8>, u16)>, e: (Seq<u8>, u16))
    ensures
        spec_entries_bytes(t.push(e)) == spec_entries_bytes(t) + spec_entry_bytes(e.0, e.1),
    decreases t.len(),
{
    if t.len() == 0 {
        let empty = Seq::<(Seq<u8>, u16)>::empty();
        assert(t.push(e)[0] == e);
        assert(t.push(e).skip(1) =~= empty);
        assert(spec_entries_bytes(empty) == Seq::<u8>::empty());
        assert(spec_entries_bytes(t) == Seq::<u8>::empty());
        assert(spec_entries_bytes(t.push(e)) == spec_entry_bytes(e.0, e.1) + spec_entries_bytes(
            empty,
        ));
        assert(spec_entries_bytes(t.push(e)) =~= spec_entries_bytes(t) + spec_entry_bytes(
            e.0,
            e.1,
        ));
    } else {
        assert(t.push(e)[0] == t[0]);
        assert(t.push(e).skip(1) =~= t.skip(1).push(e));
        lemma_entries_bytes_push(t.skip(1), e);
        assert(spec_entries_bytes(t.push(e)) == spec_entry_bytes(t[0].0, t[0].1)
            + spec_entries_bytes(t.skip(1).push(e)));
        assert(spec_entries_bytes(t) == spec_entry_bytes(t[0].0, t[0].1) + spec_entries_bytes(
            t.skip(1),
        ));
        assert(spec_entries_bytes(t.push(e)) =~= spec_entries_bytes(t) + spec_entry_bytes(
            e.0,
            e.1,
        ));
    }
}

/// Appends the persisted form of a table: the 2-byte entry count, then each
/// entry as a NUL-terminated name and a 2-byte little-endian offset.
fn out_table(out: &mut Vec<u8>, t: &Vec<(Vec<u8>, u16)>)
    ensures
        final(out)@ == old(out)@ + spec_table_bytes(table_view(t@)),
{
    let ghost tv = table_view(t@);
    let n = (t.len() % 0x10000) as u16;
    out.push((n % 0x100) as u8);
    out.push((n / 0x100) as u8);
    let ghost head = old(out)@ + seq![
        lo8(wrap16(tv.len() as int)),
        hi8(wrap16(tv.len() as int)),
    ];
    proof {
        assert(spec_entries_bytes(tv.take(0)) =~= Seq::<u8>::empty());
        assert(out@ =~= head + spec_entries_bytes(tv.take(0)));
    }
    let mut i: usize = 0;
    while i < t.len()
        invariant
            0 <= i <= t@.len(),
            tv == table_view(t@),
            tv.len() == t@.len(),
            forall|q: int| 0 <= q < tv.len() ==> tv[q] == (t@[q].0@, t@[q].1),
            out@ == head + spec_entries_bytes(tv.take(i as int)),
        decreases t@.len() - i,
    {
        out.extend_from_slice(t[i].0.as_slice());
        out.push(0);
        out.push((t[i].1 % 0x100) as u8);
        out.push((t[i].1 / 0x100) as u8);
        proof {
            let ii = i as int;
            lemma_entries_bytes_push(tv.take(ii), tv[ii]);
            assert(tv.take(ii + 1) =~= tv.take(ii).push(tv[ii]));
            assert(out@ =~= head + spec_entries_bytes(tv.take(ii + 1)));
        }
        i = i + 1;
    }
    proof {
        assert(tv.take(i as int) =~= tv);
        assert(out@ =~= old(out)@ + spec_table_bytes(tv));
    }
}

/// The first NUL is where the first zero byte stands.
proof fn lemma_find_nul_at(b: Seq<u8>, i: int)
    requires
        0 <= i < b.len(),
        b[i] == 0,
        forall|k: int| 0 <= k < i ==> b[k] != 0,
    ensures
        spec_find_nul(b) == Some(i),
    decreases i,
{
    if i == 0 {
    } else {
        assert(b[0] != 0);
        assert(forall|k: int| 0 <= k < i - 1 ==> b.skip(1)[k] == b[k + 1]);
        lemma_find_nul_at(b.skip(1), i - 1);
    }
}

/// Bytes without a zero have no NUL to find.
proof fn lemma_find_nul_none(b: Seq<u8>)
    requires
        forall|k: int| 0 <= k < b.len() ==> b[k] != 0,
    ensures
        spec_find_nul(b) is None,
    decreases b.len(),
{
    if b.len() == 0 {
    } else {
        assert(b[0] != 0);
        assert(forall|k: int| 0 <= k < b.len() - 1 ==> b.skip(1)[k] == b[k + 1]);
        lemma_find_nul_none(b.skip(1));
    }
}

/// Parses one table at byte position `start`: the entries and the number of
/// bytes the table spanned, or `None` when the bytes end before it does.
#[verifier::loop_isolation(false)]
fn parse_table(bin: &[u8], start: usize) -> (r: Option<(Vec<(Vec<u8>, u16)>, usize)>)
    requires
        start <= bin@.len(),
    ensures
        ({
            let sp = spec_parse_table(bin@.skip(start as int));
            match r {
                None => sp is None,
                Some((t, used)) => sp == Some((table_view(t@), used as int)) && start + used
                    <= bin@.len() && used >= 2,
            }
        }),
{
    let ghost whole = bin@.skip(start as int);
    if bin.len() - start < 2 {
        return None;
    }
    let n = bin[start] as u16 + bin[start + 1] as u16 * 0x100;
    proof {
        assert(whole[0] == bin@[start as int] && whole[1] == bin@[start as int + 1]);
        assert(n == word_of(whole[0], whole[1]));
    }
    let mut acc: Vec<(Vec<u8>, u16)> = Vec::new();
    let mut pos: usize = start + 2;
    let ghost base = start as int + 2;
    proof {
        assert(bin@.skip(base) =~= whole.skip(2));
        assert(table_view(acc@) =~= Seq::<(Seq<u8>, u16)>::empty());
    }
    let mut e: u16 = 0;
    while e < n
        invariant
            start + 2 <= pos <= bin@.len(),
            e <= n,
            base == start + 2,
            whole == bin@.skip(start as int),
            spec_parse_entries(bin@.skip(base), n as nat) == (match spec_parse_entries(
                bin@.skip(pos as int),
                (n - e) as nat,
            ) {
                None => None::<(Seq<(Seq<u8>, u16)>, int)>,
                Some(pr) => Some((table_view(acc@) + pr.0, (pos - base) + pr.1)),
            }),
        decreases n - e,
    {
        let ghost rem = bin@.skip(pos as int);
        let mut p: usize = pos;
        while p < bin.len() && bin[p] != 0
            invariant
                pos <= p <= bin@.len(),
                forall|k: int| pos <= k < p ==> bin@[k] != 0,
            decreases bin@.len() - p,
        {
            p = p + 1;
        }
        if p == bin.len() {
            proof {
                assert(forall|k: int| 0 <= k < rem.len() ==> rem[k] == bin@[pos + k]);
                lemma_find_nul_none(rem);
                assert(spec_parse_entries(bin@.skip(pos as int), (n - e) as nat) is None);
                assert(spec_parse_entries(bin@.skip(base), n as nat) is None);
                assert(spec_parse_table(whole) is None);
            }
            return None;
        }
        proof {
            assert(forall|k: int| 0 <= k < rem.len() ==> rem[k] == bin@[pos + k]);
            lemma_find_nul_at(rem, p - pos);
        }
        if bin.len() - p < 3 {
            proof {
                assert(spec_parse_entries(bin@.skip(pos as int), (n - e) as nat) is None);
                assert(spec_parse_entries(bin@.skip(base), n as nat) is None);
                assert(spec_parse_table(whole) is None);
            }
            return None;
        }
        let mut name: Vec<u8> = Vec::new();
        let mut k = pos;
        proof {
            assert(name@ =~= bin@.subrange(pos as int, pos as int));
        }
        while k < p
            invariant
                pos <= k <= p <= bin@.len(),
                name@ == bin@.subrange(pos as int, k as int),
            decreases p - k,
        {
            name.push(bin[k]);
            proof {
                assert(name@ =~= bin@.subrange(pos as int, k as int + 1));
            }
            k = k + 1;
        }
        let off = bin[p + 1] as u16 + bin[p + 2] as u16 * 0x100;
        let ghost accv = table_view(acc@);
        let ghost prevacc = acc@;
        acc.push((name, off));
        proof {
            let rel = p - pos as int;
            let m = (n - e) as nat;
            assert(rem[rel + 1] == bin@[p + 1] && rem[rel + 2] == bin@[p + 2]);
            assert(name@ =~= rem.take(rel));
            let e0 = (rem.take(rel), word_of(rem[rel + 1], rem[rel + 2]));
            lemma_table_view_push(prevacc, acc@.last());
            assert(table_view(acc@) == accv.push(e0));
            assert(rem.skip(rel + 3) =~= bin@.skip(p as int + 3));
            let tail = spec_parse_entries(rem.skip(rel + 3), (m - 1) as nat);
            if tail is Some {
                let pr = tail.unwrap();
                assert(spec_parse_entries(rem, m) == Some((seq![e0] + pr.0, rel + 3 + pr.1)));
                assert(accv + (seq![e0] + pr.0) =~= accv.push(e0) + pr.0);
            } else {
                assert(spec_parse_entries(rem, m) is None);
            }
        }
        pos = p + 3;
        e = e + 1;
    }
    proof {
        assert(spec_parse_entries(bin@.skip(pos as int), 0) == Some((
            Seq::<(Seq<u8>, u16)>::empty(),
            0int,
        )));
        assert(table_view(acc@) + Seq::<(Seq<u8>, u16)>::empty() =~= table_view(acc@));
        assert(spec_parse_table(whole) == Some((table_view(acc@), (pos - start) as int)));
    }
    Some((acc, pos - start))
}

/// Parsing the serialized entries of a table, with anything appended after
/// them, yields the same entries back and consumes exactly their bytes.
proof fn lemma_entries_roundtrip(t: Seq<(Seq<u8>, u16)>, rest: Seq<u8>)
    requires
        forall|i: int| 0 <= i < t.len() ==> name_ok(#[trigger] t[i].0),
    ensures
        spec_parse_entries(spec_entries_bytes(t) + rest, t.len() as nat) == Some(
            (t, spec_entries_bytes(t).len() as int),
        ),
    decreases t.len(),
{
    let b = spec_entries_bytes(t) + rest;
    if t.len() == 0 {
        assert(spec_entries_bytes(t) == Seq::<u8>::empty());
        assert(spec_parse_entries(b, 0) == Some((Seq::<(Seq<u8>, u16)>::empty(), 0int)));
        assert(t =~= Seq::<(Seq<u8>, u16)>::empty());
    } else {
        let name = t[0].0;
        let off = t[0].1;
        let e0 = spec_entry_bytes(name, off);
        let tailb = spec_entries_bytes(t.skip(1));
        assert(spec_entries_bytes(t) == e0 + tailb);
        let p = name.len() as int;
        assert(e0.len() == p + 3);
        assert forall|k: int| 0 <= k < p implies b[k] == name[k] && b[k] != 0 by {
            assert(e0[k] == name[k]);
            assert(name_ok(name));
        }
        assert(e0[p] == 0 && e0[p + 1] == lo8(off) && e0[p + 2] == hi8(off));
        assert(b[p] == 0 && b[p + 1] == lo8(off) && b[p + 2] == hi8(off));
        lemma_find_nul_at(b, p);
        assert(p + 3 <= b.len());
        assert(b.take(p) =~= name);
        crate::emu::lemma_word_bytes_roundtrip(off);
        assert(word_of(b[p + 1], b[p + 2]) == off);
        assert(b.skip(p + 3) =~= tailb + rest);
        assert forall|i: int| 0 <= i < t.skip(1).len() implies name_ok(
            #[trigger] t.skip(1)[i].0,
        ) by {
            assert(t.skip(1)[i] == t[i + 1]);
        }
        lemma_entries_roundtrip(t.skip(1), rest);
        assert(seq![(b.take(p), word_of(b[p + 1], b[p + 2]))] + t.skip(1) =~= t);
        assert(spec_parse_entries(b, t.len() as nat) == Some(
            (t, spec_entries_bytes(t).len() as int),
        ));
    }
}

/// Parsing a serialized table, with anything appended after it, yields the
/// same entries back and consumes exactly its bytes.
proof fn lemma_table_roundtrip(t: Seq<(Seq<u8>, u16)>, rest: Seq<u8>)
    requires
        table_ok(t),
    ensures
        spec_parse_table(spec_table_bytes(t) + rest) == Some(
            (t, spec_table_bytes(t).len() as int),
        ),
{
    let b = spec_table_bytes(t) + rest;
    let n = wrap16(t.len() as int);
    assert(b[0] == lo8(n) && b[1] == hi8(n));
    crate::emu::lemma_word_bytes_roundtrip(n);
    vstd::arithmetic::div_mod::lemma_small_mod(t.len() as nat, 0x10000);
    assert(n == t.len());
    assert(b.skip(2) =~= spec_entries_bytes(t) + rest);
    lemma_entries_roundtrip(t, rest);
}

/// Serializing an object and loading the bytes back reconstructs the same
/// label table, the same relocation uses in the same order, and the same
/// data, whenever both tables can be persisted at all: each holds fewer
/// than 65536 entries and no name contains a NUL byte.
pub proof fn lemma_obj_roundtrip(
    labels: Seq<(Seq<u8>, u16)>,
    uses: Seq<(Seq<u8>, u16)>,
    data: Seq<u8>,
)
    requires
        table_ok(labels),
        table_ok(uses),
    ensures
        spec_load(spec_out_obj(labels, uses, data)) == Ok::<_, ObjError>((labels, uses, data)),
{
    let b = spec_out_obj(labels, uses, data);
    let t1 = spec_table_bytes(labels);
    let t2 = spec_table_bytes(uses);
    assert(b.len() >= 3);
    assert(b.take(3) =~= magic_bytes());
    assert(b.skip(3) =~= t1 + (t2 + data));
    lemma_table_roundtrip(labels, t2 + data);
    assert(b.skip(3 + t1.len() as int) =~= t2 + data);
    lemma_table_roundtrip(uses, data);
    assert(b.skip(3 + t1.len() as int + t2.len() as int) =~= data);
}

/// When every relocation use points inside the data but some use names a
/// label that no object declares, resolution fails with the undefined-label
/// error.
pub proof fn lemma_resolve_undefined(
    labels: Seq<(Seq<u8>, u16)>,
    uses: Seq<(Seq<u8>, u16)>,
    data: Seq<u8>,
)
    requires
        forall|i: int| 0 <= i < uses.len() ==> (#[trigger] uses[i].1) + 2 <= data.len(),
        exists|i: int| 0 <= i < uses.len() && !has_key(labels, #[trigger] uses[i].0),
    ensures
        spec_resolve(labels, uses, data) == Err::<Seq<u8>, _>(ObjError::UndefinedLabel),
    decreases uses.len(),
{
    let w = choose|i: int| 0 <= i < uses.len() && !has_key(labels, #[trigger] uses[i].0);
    lemma_lookup_has_key(labels, uses[0].0);
    if spec_lookup(labels, uses[0].0) is None {
    } else {
        assert(w != 0);
        let v = spec_lookup(labels, uses[0].0).unwrap();
        let d2 = data.update(uses[0].1 as int, lo8(v)).update(uses[0].1 + 1, hi8(v));
        assert(d2.len() == data.len());
        assert forall|i: int| 0 <= i < uses.skip(1).len() implies (#[trigger] uses.skip(1)[i].1) + 2
            <= d2.len() by {
            assert(uses.skip(1)[i] == uses[i + 1]);
        }
        assert(uses.skip(1)[w - 1] == uses[w]);
        assert(!has_key(labels, uses.skip(1)[w - 1].0));
        lemma_resolve_undefined(labels, uses.skip(1), d2);
    }
}

/// When every relocation use points inside the data and every used label is
/// declared, resolution succeeds.
pub proof fn lemma_resolve_defined(
    labels: Seq<(Seq<u8>, u16)>,
    uses: Seq<(Seq<u8>, u16)>,
    data: Seq<u8>,
)
    requires
        forall|i: int| 0 <= i < uses.len() ==> (#[trigger] uses[i].1) + 2 <= data.len(),
        forall|i: int| 0 <= i < uses.len() ==> has_key(labels, #[trigger] uses[i].0),
    ensures
        spec_resolve(labels, uses, data) is Ok,
    decreases uses.len(),
{
    if uses.len() == 0 {
    } else {
        lemma_lookup_has_key(labels, uses[0].0);
        let v = spec_lookup(labels, uses[0].0).unwrap();
        let d2 = data.update(uses[0].1 as int, lo8(v)).update(uses[0].1 + 1, hi8(v));
        assert forall|i: int| 0 <= i < uses.skip(1).len() implies (#[trigger] uses.skip(1)[i].1) + 2
            <= d2.len() && has_key(labels, uses.skip(1)[i].0) by {
            assert(uses.skip(1)[i] == uses[i + 1]);
        }
        lemma_resolve_defined(labels, uses.skip(1), d2);
    }
}

} // verus!
