//! The document log: where the versions of a document are kept.
//!
//! A document of a context is kept under
//! `<root>/<YYYY>/<MM>/<name>/<timestamp>.json`, and `latest.json` beside the
//! versions names the current one. The identity of a document is its context,
//! joined with `/`, then `/` and the timestamp of its first version; its name
//! is that timestamp. Paths and identities are handled as bytes.

use crate::bytes::bytes_eq;
use crate::elements::{Batch, Cost, Goods, InternalOperation, Mode, OpMutation, Qty, Store};
use vstd::prelude::*;

verus! {

/// The byte between the parts of a path.
pub const SLASH: u8 = 0x2f;

/// The index of the last `/` among the first `n` bytes; -1 where there is
/// none.
pub open spec fn last_slash(s: Seq<u8>, n: int) -> int
    decreases n,
{
    if n <= 0 {
        -1
    } else if s[n - 1] == SLASH {
        n - 1
    } else {
        last_slash(s, n - 1)
    }
}

/// The name of a document: its identity without the context.
pub open spec fn name_of(id: Seq<u8>) -> Seq<u8> {
    id.skip(last_slash(id, id.len() as int) + 1)
}

proof fn lemma_last_slash_bounds(s: Seq<u8>, n: int)
    requires
        0 <= n <= s.len(),
    ensures
        -1 <= last_slash(s, n) < n,
    decreases n,
{
    if n > 0 && s[n - 1] != SLASH {
        lemma_last_slash_bounds(s, n - 1);
    }
}

/// The name of a document: what follows the last `/` of its identity, or all
/// of it where it holds none.
pub fn remove_prefix(id: &Vec<u8>) -> (r: Vec<u8>)
    ensures
        r@ == name_of(id@),
{
    let mut n: usize = id.len();
    while n > 0 && id[n - 1] != SLASH
        invariant
            n <= id@.len(),
            last_slash(id@, id@.len() as int) == last_slash(id@, n as int),
        decreases n,
    {
        n = n - 1;
    }
    proof {
        lemma_last_slash_bounds(id@, n as int);
        assert(last_slash(id@, n as int) + 1 == n);
    }
    let mut r: Vec<u8> = Vec::new();
    let mut i: usize = n;
    while i < id.len()
        invariant
            n <= i <= id@.len(),
            r@ == id@.subrange(n as int, i as int),
        decreases id@.len() - i,
    {
        r.push(id[i]);
        assert(r@ =~= id@.subrange(n as int, i + 1));
        i = i + 1;
    }
    assert(id@.subrange(n as int, id@.len() as int) =~= id@.skip(n as int));
    r
}

/// The parts joined, with `/` after each.
pub open spec fn joined(parts: Seq<Seq<u8>>, n: int) -> Seq<u8>
    decreases n,
{
    if n <= 0 {
        Seq::empty()
    } else {
        joined(parts, n - 1) + parts[n - 1] + seq![SLASH]
    }
}

/// The views of the parts.
pub open spec fn part_views(parts: Seq<Vec<u8>>) -> Seq<Seq<u8>> {
    Seq::new(parts.len(), |i: int| parts[i]@)
}

/// Appends the bytes of `part`.
fn push_all(buf: &mut Vec<u8>, part: &Vec<u8>)
    ensures
        final(buf)@ == old(buf)@ + part@,
{
    let mut i: usize = 0;
    while i < part.len()
        invariant
            i <= part@.len(),
            buf@ == old(buf)@ + part@.subrange(0, i as int),
        decreases part@.len() - i,
    {
        buf.push(part[i]);
        assert(buf@ =~= old(buf)@ + part@.subrange(0, i + 1));
        i = i + 1;
    }
    assert(part@.subrange(0, part@.len() as int) =~= part@);
}

/// The identity of a document: its context, joined with `/`, then `/` and
/// the timestamp of its first version.
pub fn doc_id(ctx: &Vec<Vec<u8>>, stamp: &Vec<u8>) -> (r: Vec<u8>)
    ensures
        r@ == joined(part_views(ctx@), ctx@.len() as int) + stamp@,
{
    let mut r: Vec<u8> = Vec::new();
    let mut i: usize = 0;
    assert(r@ =~= joined(part_views(ctx@), 0));
    while i < ctx.len()
        invariant
            i <= ctx@.len(),
            r@ == joined(part_views(ctx@), i as int),
        decreases ctx@.len() - i,
    {
        assert(part_views(ctx@)[i as int] == ctx@[i as int]@);
        push_all(&mut r, &ctx[i]);
        r.push(SLASH);
        assert(r@ =~= joined(part_views(ctx@), i + 1));
        i = i + 1;
    }
    push_all(&mut r, stamp);
    r
}

/// The folder of a document under the folder of its context:
/// `<root>/<YYYY>/<MM>/<name>`, where the year is the first four bytes of the
/// name and the month its sixth and seventh.
pub open spec fn folder_of(root: Seq<u8>, id: Seq<u8>) -> Seq<u8> {
    let name = name_of(id);
    root + seq![SLASH] + name.subrange(0, 4) + seq![SLASH] + name.subrange(5, 7) + seq![SLASH]
        + name
}

/// The folder of a document under the folder of its context. A name of less
/// than seven bytes holds no year and month: there is no folder for it.
pub fn folder(root: &Vec<u8>, id: &Vec<u8>) -> (r: Option<Vec<u8>>)
    ensures
        r is Some <==> name_of(id@).len() >= 7,
        r matches Some(p) ==> p@ == folder_of(root@, id@),
{
    let name: Vec<u8> = remove_prefix(id);
    if name.len() < 7 {
        return None;
    }
    let mut p: Vec<u8> = Vec::new();
    push_all(&mut p, root);
    p.push(SLASH);
    let mut i: usize = 0;
    while i < 4
        invariant
            i <= 4,
            name@.len() >= 7,
            p@ == root@ + seq![SLASH] + name@.subrange(0, i as int),
        decreases 4 - i,
    {
        p.push(name[i]);
        assert(p@ =~= root@ + seq![SLASH] + name@.subrange(0, i + 1));
        i = i + 1;
    }
    p.push(SLASH);
    p.push(name[5]);
    p.push(name[6]);
    p.push(SLASH);
    push_all(&mut p, &name);
    assert(p@ =~= folder_of(root@, id@));
    Some(p)
}

/// The name of the file that names the current version.
pub open spec fn latest_name() -> Seq<u8> {
    seq![0x6c, 0x61, 0x74, 0x65, 0x73, 0x74, 0x2e, 0x6a, 0x73, 0x6f, 0x6e]
}

/// The ending of the file of a version.
pub open spec fn json_ending() -> Seq<u8> {
    seq![0x2e, 0x6a, 0x73, 0x6f, 0x6e]
}

/// The path of the file that names the current version of a document:
/// `latest.json` in its folder.
pub fn latest_path(folder: &Vec<u8>) -> (r: Vec<u8>)
    ensures
        r@ == folder@ + seq![SLASH] + latest_name(),
{
    let mut p: Vec<u8> = Vec::new();
    push_all(&mut p, folder);
    p.push(SLASH);
    p.push(0x6c);
    p.push(0x61);
    p.push(0x74);
    p.push(0x65);
    p.push(0x73);
    p.push(0x74);
    p.push(0x2e);
    p.push(0x6a);
    p.push(0x73);
    p.push(0x6f);
    p.push(0x6e);
    assert(p@ =~= folder@ + seq![SLASH] + latest_name());
    p
}

/// The name of the file of the version written at `stamp`:
/// `<timestamp>.json`.
pub fn file_name(stamp: &Vec<u8>) -> (r: Vec<u8>)
    ensures
        r@ == stamp@ + json_ending(),
{
    let mut p: Vec<u8> = Vec::new();
    push_all(&mut p, stamp);
    p.push(0x2e);
    p.push(0x6a);
    p.push(0x73);
    p.push(0x6f);
    p.push(0x6e);
    assert(p@ =~= stamp@ + json_ending());
    p
}

/// The path of the file of the version written at `stamp`, in the folder of
/// the document.
pub fn version_path(folder: &Vec<u8>, stamp: &Vec<u8>) -> (r: Vec<u8>)
    ensures
        r@ == folder@ + seq![SLASH] + stamp@ + json_ending(),
{
    let mut p: Vec<u8> = Vec::new();
    push_all(&mut p, folder);
    p.push(SLASH);
    let name: Vec<u8> = file_name(stamp);
    push_all(&mut p, &name);
    assert(p@ =~= folder@ + seq![SLASH] + stamp@ + json_ending());
    p
}

/// An operation as a document describes it.
#[derive(Clone, Copy, Debug, PartialEq, Eq, Structural)]
pub struct DocOp {
    pub id: u128,
    pub date: u64,
    pub store: Store,
    pub transfer: Option<Store>,
    pub goods: Goods,
    pub batch: Batch,
    pub op: InternalOperation,
}

impl DocOp {
    /// Whether both operations stand at the same place: only what they move
    /// may differ.
    pub open spec fn same_place(self, other: DocOp) -> bool {
        self.id == other.id && self.date == other.date && self.store == other.store
            && self.transfer == other.transfer && self.goods == other.goods && self.batch
            == other.batch
    }

    /// The mutation that puts the operation in place of `before`.
    pub open spec fn mutation(self, before: Option<InternalOperation>, after: Option<InternalOperation>) -> OpMutation {
        OpMutation {
            id: self.id,
            date: self.date,
            store: self.store,
            transfer: self.transfer,
            goods: self.goods,
            batch: self.batch,
            before,
            after,
        }
    }

    fn stands_with(&self, other: &DocOp) -> (r: bool)
        ensures
            r == self.same_place(*other),
    {
        self.id == other.id && self.date == other.date && self.store == other.store
            && self.transfer == other.transfer && self.goods == other.goods && self.batch
            == other.batch
    }

    fn to_mutation(
        &self,
        before: Option<InternalOperation>,
        after: Option<InternalOperation>,
    ) -> (m:
        OpMutation)
        ensures
            m == self.mutation(before, after),
    {
        OpMutation::new(
            self.id,
            self.date,
            self.store,
            self.transfer,
            self.goods,
            self.batch,
            before,
            after,
        )
    }
}

/// The first of the first `n` operations with the identity.
pub open spec fn doc_find(list: Seq<DocOp>, id: u128, n: int) -> Option<DocOp>
    decreases n,
{
    if n <= 0 {
        None
    } else {
        match doc_find(list, id, n - 1) {
            Some(x) => Some(x),
            None => if list[n - 1].id == id {
                Some(list[n - 1])
            } else {
                None
            },
        }
    }
}

/// What goes: for each of the first `n` operations of the earlier version
/// that the later version holds no more, or holds at another place, the
/// mutation that takes it out.
pub open spec fn removals(before: Seq<DocOp>, after: Seq<DocOp>, n: int) -> Seq<OpMutation>
    decreases n,
{
    if n <= 0 {
        Seq::empty()
    } else {
        let b = before[n - 1];
        let rest = removals(before, after, n - 1);
        match doc_find(after, b.id, after.len() as int) {
            Some(a) => if a.same_place(b) {
                rest
            } else {
                rest.push(b.mutation(Some(b.op), None))
            },
            None => rest.push(b.mutation(Some(b.op), None)),
        }
    }
}

/// What comes and what changes: for each of the first `n` operations of the
/// later version, the mutation that puts it in where the earlier version
/// holds none at its place, and the mutation that changes what it moves where
/// the earlier version holds it at its place with another movement.
pub open spec fn arrivals(before: Seq<DocOp>, after: Seq<DocOp>, n: int) -> Seq<OpMutation>
    decreases n,
{
    if n <= 0 {
        Seq::empty()
    } else {
        let a = after[n - 1];
        let rest = arrivals(before, after, n - 1);
        match doc_find(before, a.id, before.len() as int) {
            Some(b) => if a.same_place(b) {
                if a.op == b.op {
                    rest
                } else {
                    rest.push(a.mutation(Some(b.op), Some(a.op)))
                }
            } else {
                rest.push(a.mutation(None, Some(a.op)))
            },
            None => rest.push(a.mutation(None, Some(a.op))),
        }
    }
}

/// The first operation with the identity.
fn find_doc(list: &Vec<DocOp>, id: u128) -> (r: Option<DocOp>)
    ensures
        r == doc_find(list@, id, list@.len() as int),
{
    let mut found: Option<DocOp> = None;
    let mut i: usize = 0;
    while i < list.len()
        invariant
            i <= list@.len(),
            found == doc_find(list@, id, i as int),
        decreases list@.len() - i,
    {
        if found.is_none() && list[i].id == id {
            found = Some(list[i]);
        }
        i = i + 1;
    }
    found
}

/// The mutations that lead from the operations of the earlier version of a
/// document to those of the later version: first what goes, then what comes
/// and what changes, each in the order of its version.
pub fn mutations(before: &Vec<DocOp>, after: &Vec<DocOp>) -> (r: Vec<OpMutation>)
    ensures
        r@ == removals(before@, after@, before@.len() as int) + arrivals(
            before@,
            after@,
            after@.len() as int,
        ),
{
    let mut r: Vec<OpMutation> = Vec::new();
    let mut i: usize = 0;
    while i < before.len()
        invariant
            i <= before@.len(),
            r@ == removals(before@, after@, i as int),
        decreases before@.len() - i,
    {
        let b: DocOp = before[i];
        let stays: bool = match find_doc(after, b.id) {
            Some(a) => a.stands_with(&b),
            None => false,
        };
        if !stays {
            r.push(b.to_mutation(Some(b.op), None));
        }
        i = i + 1;
    }
    let ghost gone = r@;
    let mut k: usize = 0;
    assert(r@ =~= gone + arrivals(before@, after@, 0));
    while k < after.len()
        invariant
            k <= after@.len(),
            gone == removals(before@, after@, before@.len() as int),
            r@ == gone + arrivals(before@, after@, k as int),
        decreases after@.len() - k,
    {
        let a: DocOp = after[k];
        let ghost so_far = arrivals(before@, after@, k as int);
        match find_doc(before, a.id) {
            Some(b) => {
                if a.stands_with(&b) {
                    if a.op != b.op {
                        let m = a.to_mutation(Some(b.op), Some(a.op));
                        r.push(m);
                        assert(r@ =~= gone + so_far.push(m));
                    }
                } else {
                    let m = a.to_mutation(None, Some(a.op));
                    r.push(m);
                    assert(r@ =~= gone + so_far.push(m));
                }
            },
            None => {
                let m = a.to_mutation(None, Some(a.op));
                r.push(m);
                assert(r@ =~= gone + so_far.push(m));
            },
        }
        k = k + 1;
    }
    r
}

/// The kind of a warehouse document.
#[derive(Clone, Copy, Debug, PartialEq, Eq, Structural)]
pub enum DocKind {
    Receive,
    Issue,
    Transfer,
}

/// The word `receive`.
pub open spec fn receive_word() -> Seq<u8> {
    seq![0x72, 0x65, 0x63, 0x65, 0x69, 0x76, 0x65]
}

/// The word `issue`.
pub open spec fn issue_word() -> Seq<u8> {
    seq![0x69, 0x73, 0x73, 0x75, 0x65]
}

/// The word `transfer`.
pub open spec fn transfer_word() -> Seq<u8> {
    seq![0x74, 0x72, 0x61, 0x6e, 0x73, 0x66, 0x65, 0x72]
}

/// The kind that a part of a context names: `receive`, `issue` or
/// `transfer`.
pub fn kind_of(word: &Vec<u8>) -> (r: Option<DocKind>)
    ensures
        r == (if word@ == receive_word() {
            Some(DocKind::Receive)
        } else if word@ == issue_word() {
            Some(DocKind::Issue)
        } else if word@ == transfer_word() {
            Some(DocKind::Transfer)
        } else {
            None
        }),
{
    let receive: Vec<u8> = vec![0x72, 0x65, 0x63, 0x65, 0x69, 0x76, 0x65];
    let issue: Vec<u8> = vec![0x69, 0x73, 0x73, 0x75, 0x65];
    let transfer: Vec<u8> = vec![0x74, 0x72, 0x61, 0x6e, 0x73, 0x66, 0x65, 0x72];
    assert(receive@ =~= receive_word());
    assert(issue@ =~= issue_word());
    assert(transfer@ =~= transfer_word());
    if bytes_eq(word, &receive) {
        Some(DocKind::Receive)
    } else if bytes_eq(word, &issue) {
        Some(DocKind::Issue)
    } else if bytes_eq(word, &transfer) {
        Some(DocKind::Transfer)
    } else {
        None
    }
}

/// The batch of a line of a document: the one it names; the batch that a
/// receipt opens, by the identity and the date of the line, where it names
/// none; no batch where another document names none.
pub open spec fn line_batch(kind: DocKind, id: u128, date: u64, named: Option<Batch>) -> Batch {
    match named {
        Some(b) => b,
        None => if kind == DocKind::Receive {
            Batch { id, date }
        } else {
            Batch { id: 0, date: 0 }
        },
    }
}

/// The movement of a line of a document: a receipt, an issue that has to find
/// its batch, or a transfer.
pub open spec fn line_movement(kind: DocKind, qty: Qty, cost: Cost) -> InternalOperation {
    match kind {
        DocKind::Receive => InternalOperation::Receive(qty, cost),
        DocKind::Issue => InternalOperation::Issue(qty, cost, Mode::Auto),
        DocKind::Transfer => InternalOperation::Transfer(qty, cost),
    }
}

/// The operation that a line of a document describes.
pub fn line_op(
    kind: DocKind,
    id: u128,
    date: u64,
    store: Store,
    transfer: Option<Store>,
    goods: Goods,
    batch: Option<Batch>,
    qty: Qty,
    cost: Cost,
) -> (r: DocOp)
    ensures
        r == (DocOp {
            id,
            date,
            store,
            transfer,
            goods,
            batch: line_batch(kind, id, date, batch),
            op: line_movement(kind, qty, cost),
        }),
{
    let batch: Batch = match batch {
        Some(b) => b,
        None => match kind {
            DocKind::Receive => Batch { id, date },
            _ => Batch::no(),
        },
    };
    let op: InternalOperation = match kind {
        DocKind::Receive => InternalOperation::Receive(qty, cost),
        DocKind::Issue => InternalOperation::Issue(qty, cost, Mode::Auto),
        DocKind::Transfer => InternalOperation::Transfer(qty, cost),
    };
    DocOp { id, date, store, transfer, goods, batch, op }
}

} // verus!
