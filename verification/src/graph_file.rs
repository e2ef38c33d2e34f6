//! The graph file: a closure written as bytes, and read back.
//!
//! All integers are variable-length. A string is the length of its UTF-8 encoding and
//! then the encoding. Every list is its length and then its items. The file holds the
//! table of modules, the component of each module, the components (each with its
//! members, what it reaches and what reaches it), and the unresolved imports.
use vstd::prelude::*;
use vstd::string::*;
use crate::edges::{
    edge_set, edges_contains, edges_insert, edges_new, edges_to_vec, CondensedEdges, EDGE_CAPACITY,
};
use crate::moduleref::{entries_inv, Entry, ModuleRef, ModuleRefCache, ModuleRefVal};
use crate::splice::{ascending, lemma_is_ascending_of};
use crate::transitive_closure::{
    edge_sets, member_lists, partition_inv, reach_inv, TransitiveClosure,
};
use crate::unresolved::{is_recorded, rows_below, Unresolved};
use crate::wire::{
    counted_nums, counted_read_back, get_counted_nums, get_len, get_str, num_reads_back, put_num,
    put_nums, put_refs, put_str, read_counted_nums, read_num, read_str, str_field, str_reads_back,
    varint_bytes, widened, widened_refs, zstd_compress, zstd_decompress, zstd_frame, zstd_unframe,
};

verus! {

/// One component as the file holds it.
pub struct StoredComp {
    pub members: Seq<u64>,
    pub succ: Seq<u64>,
    pub anc: Seq<u64>,
}

/// What a graph file holds.
pub struct Stored {
    pub entries: Seq<Entry>,
    pub comp: Seq<u64>,
    pub comps: Seq<StoredComp>,
    pub unresolved: Seq<(Seq<char>, Seq<u64>)>,
}

/// The package of an entry as it is written: nothing where there is none.
pub open spec fn pkg_text(pkg: Option<Seq<char>>) -> Seq<char> {
    match pkg {
        Some(p) => p,
        None => Seq::<char>::empty(),
    }
}

/// The package of an entry as it is read: none where nothing is written.
pub open spec fn pkg_of_text(t: Seq<char>) -> Option<Seq<char>> {
    if t.len() == 0 {
        None
    } else {
        Some(t)
    }
}

pub open spec fn entry_bytes(e: Entry) -> Seq<u8> {
    str_field(e.fs) + str_field(e.py) + str_field(pkg_text(e.pkg))
}

pub open spec fn entries_bytes(es: Seq<Entry>) -> Seq<u8>
    decreases es.len(),
{
    if es.len() == 0 {
        Seq::<u8>::empty()
    } else {
        entries_bytes(es.drop_last()) + entry_bytes(es.last())
    }
}

pub open spec fn comp_bytes(c: StoredComp) -> Seq<u8> {
    counted_nums(c.members) + counted_nums(c.succ) + counted_nums(c.anc)
}

pub open spec fn comps_bytes(cs: Seq<StoredComp>) -> Seq<u8>
    decreases cs.len(),
{
    if cs.len() == 0 {
        Seq::<u8>::empty()
    } else {
        comps_bytes(cs.drop_last()) + comp_bytes(cs.last())
    }
}

pub open spec fn row_bytes(r: (Seq<char>, Seq<u64>)) -> Seq<u8> {
    str_field(r.0) + counted_nums(r.1)
}

pub open spec fn rows_bytes(rs: Seq<(Seq<char>, Seq<u64>)>) -> Seq<u8>
    decreases rs.len(),
{
    if rs.len() == 0 {
        Seq::<u8>::empty()
    } else {
        rows_bytes(rs.drop_last()) + row_bytes(rs.last())
    }
}

/// The bytes of a graph file that holds `s`.
pub open spec fn stored_bytes(s: Stored) -> Seq<u8> {
    varint_bytes(s.entries.len() as u64) + entries_bytes(s.entries) + counted_nums(s.comp)
        + varint_bytes(s.comps.len() as u64) + comps_bytes(s.comps) + varint_bytes(
        s.unresolved.len() as u64,
    ) + rows_bytes(s.unresolved)
}

/// The entry at `pos` and the position behind it.
pub open spec fn read_entry(bytes: Seq<u8>, pos: int) -> Option<(Entry, int)> {
    match read_str(bytes, pos) {
        Some(a) => match read_str(bytes, a.1) {
            Some(b) => match read_str(bytes, b.1) {
                Some(c) => Some((Entry { fs: a.0, py: b.0, pkg: pkg_of_text(c.0) }, c.1)),
                None => None,
            },
            None => None,
        },
        None => None,
    }
}

/// The `count` entries at `pos` and the position behind them.
pub open spec fn read_entries(bytes: Seq<u8>, pos: int, count: nat) -> Option<(Seq<Entry>, int)>
    decreases count,
{
    if count == 0 {
        Some((Seq::<Entry>::empty(), pos))
    } else {
        match read_entries(bytes, pos, (count - 1) as nat) {
            Some(p) => match read_entry(bytes, p.1) {
                Some(q) => Some((p.0.push(q.0), q.1)),
                None => None,
            },
            None => None,
        }
    }
}

/// The component at `pos` and the position behind it.
pub open spec fn read_comp(bytes: Seq<u8>, pos: int) -> Option<(StoredComp, int)> {
    match read_counted_nums(bytes, pos) {
        Some(a) => match read_counted_nums(bytes, a.1) {
            Some(b) => match read_counted_nums(bytes, b.1) {
                Some(c) => Some((StoredComp { members: a.0, succ: b.0, anc: c.0 }, c.1)),
                None => None,
            },
            None => None,
        },
        None => None,
    }
}

/// The `count` components at `pos` and the position behind them.
pub open spec fn read_comps(bytes: Seq<u8>, pos: int, count: nat) -> Option<(Seq<StoredComp>, int)>
    decreases count,
{
    if count == 0 {
        Some((Seq::<StoredComp>::empty(), pos))
    } else {
        match read_comps(bytes, pos, (count - 1) as nat) {
            Some(p) => match read_comp(bytes, p.1) {
                Some(q) => Some((p.0.push(q.0), q.1)),
                None => None,
            },
            None => None,
        }
    }
}

/// The unresolved import at `pos` and the position behind it.
pub open spec fn read_row(bytes: Seq<u8>, pos: int) -> Option<((Seq<char>, Seq<u64>), int)> {
    match read_str(bytes, pos) {
        Some(a) => match read_counted_nums(bytes, a.1) {
            Some(b) => Some(((a.0, b.0), b.1)),
            None => None,
        },
        None => None,
    }
}

/// The `count` unresolved imports at `pos` and the position behind them.
pub open spec fn read_rows(bytes: Seq<u8>, pos: int, count: nat) -> Option<
    (Seq<(Seq<char>, Seq<u64>)>, int),
>
    decreases count,
{
    if count == 0 {
        Some((Seq::<(Seq<char>, Seq<u64>)>::empty(), pos))
    } else {
        match read_rows(bytes, pos, (count - 1) as nat) {
            Some(p) => match read_row(bytes, p.1) {
                Some(q) => Some((p.0.push(q.0), q.1)),
                None => None,
            },
            None => None,
        }
    }
}

/// The count at `pos`, where no more items are announced than bytes are left, and the
/// position behind it.
pub open spec fn read_count(bytes: Seq<u8>, pos: int) -> Option<(nat, int)> {
    match read_num(bytes, pos) {
        Some(p) => if p.0 <= bytes.len() - p.1 {
            Some((p.0 as nat, p.1))
        } else {
            None
        },
        None => None,
    }
}

/// What `bytes` hold, read as a graph file; `None` where they are none.
pub open spec fn read_stored(bytes: Seq<u8>) -> Option<Stored> {
    match read_count(bytes, 0) {
        Some(n) => match read_entries(bytes, n.1, n.0) {
            Some(es) => match read_counted_nums(bytes, es.1) {
                Some(comp) => match read_count(bytes, comp.1) {
                    Some(m) => match read_comps(bytes, m.1, m.0) {
                        Some(cs) => match read_count(bytes, cs.1) {
                            Some(u) => match read_rows(bytes, u.1, u.0) {
                                Some(rs) => Some(
                                    Stored {
                                        entries: es.0,
                                        comp: comp.0,
                                        comps: cs.0,
                                        unresolved: rs.0,
                                    },
                                ),
                                None => None,
                            },
                            None => None,
                        },
                        None => None,
                    },
                    None => None,
                },
                None => None,
            },
            None => None,
        },
        None => None,
    }
}

/// No entry is owned by a package without a name.
pub open spec fn packages_are_named(es: Seq<Entry>) -> bool {
    forall|i: int| 0 <= i < es.len() ==> (#[trigger] es[i]).pkg != Some(Seq::<char>::empty())
}

pub open spec fn entry_reads_back(bytes: Seq<u8>, pos: int, e: Entry) -> bool {
    forall|tail: Seq<u8>| #[trigger] read_entry(bytes + tail, pos) == Some((e, bytes.len() as int))
}

pub open spec fn entries_read_back(bytes: Seq<u8>, pos: int, count: nat, es: Seq<Entry>) -> bool {
    forall|tail: Seq<u8>| #[trigger]
        read_entries(bytes + tail, pos, count) == Some((es, bytes.len() as int))
}

pub open spec fn comp_reads_back(bytes: Seq<u8>, pos: int, c: StoredComp) -> bool {
    forall|tail: Seq<u8>| #[trigger] read_comp(bytes + tail, pos) == Some((c, bytes.len() as int))
}

pub open spec fn comps_read_back(bytes: Seq<u8>, pos: int, count: nat, cs: Seq<StoredComp>) -> bool {
    forall|tail: Seq<u8>| #[trigger]
        read_comps(bytes + tail, pos, count) == Some((cs, bytes.len() as int))
}

pub open spec fn row_reads_back(bytes: Seq<u8>, pos: int, r: (Seq<char>, Seq<u64>)) -> bool {
    forall|tail: Seq<u8>| #[trigger] read_row(bytes + tail, pos) == Some((r, bytes.len() as int))
}

pub open spec fn rows_read_back(
    bytes: Seq<u8>,
    pos: int,
    count: nat,
    rs: Seq<(Seq<char>, Seq<u64>)>,
) -> bool {
    forall|tail: Seq<u8>| #[trigger]
        read_rows(bytes + tail, pos, count) == Some((rs, bytes.len() as int))
}

pub open spec fn count_reads_back(bytes: Seq<u8>, pos: int, n: nat) -> bool {
    forall|tail: Seq<u8>|
        tail.len() >= n ==> #[trigger] read_count(bytes + tail, pos) == Some(
            (n, bytes.len() as int),
        )
}

/// `a` is how `b` begins.
pub open spec fn begins(a: Seq<u8>, b: Seq<u8>) -> bool {
    a.len() <= b.len() && b.take(a.len() as int) == a
}

pub proof fn lemma_begins(a: Seq<u8>, b: Seq<u8>, tail: Seq<u8>)
    requires
        begins(a, b),
    ensures
        b + tail == a + (b.skip(a.len() as int) + tail),
{
    assert(b + tail =~= a + (b.skip(a.len() as int) + tail));
}

/// Three strings that read back one behind the other read back as an entry.
pub proof fn lemma_entry_reads_back(
    b0: Seq<u8>,
    b1: Seq<u8>,
    b2: Seq<u8>,
    b3: Seq<u8>,
    e: Entry,
)
    requires
        str_reads_back(b1, b0.len() as int, e.fs),
        str_reads_back(b2, b1.len() as int, e.py),
        str_reads_back(b3, b2.len() as int, pkg_text(e.pkg)),
        begins(b1, b2),
        begins(b2, b3),
        e.pkg != Some(Seq::<char>::empty()),
    ensures
        entry_reads_back(b3, b0.len() as int, e),
{
    assert forall|tail: Seq<u8>| #[trigger]
        read_entry(b3 + tail, b0.len() as int) == Some((e, b3.len() as int)) by {
        let all = b3 + tail;
        lemma_begins(b2, b3, tail);
        let t2 = b3.skip(b2.len() as int) + tail;
        assert(all == b2 + t2);
        lemma_begins(b1, b2, t2);
        let t1 = b2.skip(b1.len() as int) + t2;
        assert(all == b1 + t1);
        assert(read_str(b1 + t1, b0.len() as int) == Some((e.fs, b1.len() as int)));
        assert(read_str(b2 + t2, b1.len() as int) == Some((e.py, b2.len() as int)));
        assert(read_str(b3 + tail, b2.len() as int) == Some((pkg_text(e.pkg), b3.len() as int)));
        assert(pkg_of_text(pkg_text(e.pkg)) == e.pkg);
    }
}

pub proof fn lemma_entries_extend(
    before: Seq<u8>,
    after: Seq<u8>,
    pos: int,
    count: nat,
    es: Seq<Entry>,
    e: Entry,
)
    requires
        entries_read_back(before, pos, count, es),
        entry_reads_back(after, before.len() as int, e),
        begins(before, after),
    ensures
        entries_read_back(after, pos, count + 1, es.push(e)),
{
    assert forall|tail: Seq<u8>| #[trigger]
        read_entries(after + tail, pos, count + 1) == Some((es.push(e), after.len() as int)) by {
        lemma_begins(before, after, tail);
        let rest = after.skip(before.len() as int) + tail;
        assert(read_entries(before + rest, pos, count) == Some((es, before.len() as int)));
        assert(read_entry(after + tail, before.len() as int) == Some((e, after.len() as int)));
    }
}

/// Three lists that read back one behind the other read back as a component.
pub proof fn lemma_comp_reads_back(
    b0: Seq<u8>,
    b1: Seq<u8>,
    b2: Seq<u8>,
    b3: Seq<u8>,
    c: StoredComp,
)
    requires
        counted_read_back(b1, b0.len() as int, c.members),
        counted_read_back(b2, b1.len() as int, c.succ),
        counted_read_back(b3, b2.len() as int, c.anc),
        begins(b1, b2),
        begins(b2, b3),
    ensures
        comp_reads_back(b3, b0.len() as int, c),
{
    assert forall|tail: Seq<u8>| #[trigger]
        read_comp(b3 + tail, b0.len() as int) == Some((c, b3.len() as int)) by {
        let all = b3 + tail;
        lemma_begins(b2, b3, tail);
        let t2 = b3.skip(b2.len() as int) + tail;
        assert(all == b2 + t2);
        lemma_begins(b1, b2, t2);
        let t1 = b2.skip(b1.len() as int) + t2;
        assert(all == b1 + t1);
        assert(read_counted_nums(b1 + t1, b0.len() as int) == Some((c.members, b1.len() as int)));
        assert(read_counted_nums(b2 + t2, b1.len() as int) == Some((c.succ, b2.len() as int)));
        assert(read_counted_nums(b3 + tail, b2.len() as int) == Some((c.anc, b3.len() as int)));
    }
}

pub proof fn lemma_comps_extend(
    before: Seq<u8>,
    after: Seq<u8>,
    pos: int,
    count: nat,
    cs: Seq<StoredComp>,
    c: StoredComp,
)
    requires
        comps_read_back(before, pos, count, cs),
        comp_reads_back(after, before.len() as int, c),
        begins(before, after),
    ensures
        comps_read_back(after, pos, count + 1, cs.push(c)),
{
    assert forall|tail: Seq<u8>| #[trigger]
        read_comps(after + tail, pos, count + 1) == Some((cs.push(c), after.len() as int)) by {
        lemma_begins(before, after, tail);
        let rest = after.skip(before.len() as int) + tail;
        assert(read_comps(before + rest, pos, count) == Some((cs, before.len() as int)));
        assert(read_comp(after + tail, before.len() as int) == Some((c, after.len() as int)));
    }
}

/// A string and a list that read back one behind the other read back as an unresolved
/// import.
pub proof fn lemma_row_reads_back(
    b0: Seq<u8>,
    b1: Seq<u8>,
    b2: Seq<u8>,
    r: (Seq<char>, Seq<u64>),
)
    requires
        str_reads_back(b1, b0.len() as int, r.0),
        counted_read_back(b2, b1.len() as int, r.1),
        begins(b1, b2),
    ensures
        row_reads_back(b2, b0.len() as int, r),
{
    assert forall|tail: Seq<u8>| #[trigger]
        read_row(b2 + tail, b0.len() as int) == Some((r, b2.len() as int)) by {
        lemma_begins(b1, b2, tail);
        let t1 = b2.skip(b1.len() as int) + tail;
        assert(read_str(b1 + t1, b0.len() as int) == Some((r.0, b1.len() as int)));
        assert(read_counted_nums(b2 + tail, b1.len() as int) == Some((r.1, b2.len() as int)));
    }
}

pub proof fn lemma_rows_extend(
    before: Seq<u8>,
    after: Seq<u8>,
    pos: int,
    count: nat,
    rs: Seq<(Seq<char>, Seq<u64>)>,
    r: (Seq<char>, Seq<u64>),
)
    requires
        rows_read_back(before, pos, count, rs),
        row_reads_back(after, before.len() as int, r),
        begins(before, after),
    ensures
        rows_read_back(after, pos, count + 1, rs.push(r)),
{
    assert forall|tail: Seq<u8>| #[trigger]
        read_rows(after + tail, pos, count + 1) == Some((rs.push(r), after.len() as int)) by {
        lemma_begins(before, after, tail);
        let rest = after.skip(before.len() as int) + tail;
        assert(read_rows(before + rest, pos, count) == Some((rs, before.len() as int)));
        assert(read_row(after + tail, before.len() as int) == Some((r, after.len() as int)));
    }
}

/// A count that reads back, before at least as many bytes, reads back as a count.
pub proof fn lemma_count_reads_back(before: Seq<u8>, after: Seq<u8>, n: nat)
    requires
        num_reads_back(after, before.len() as int, n as u64),
        n <= u64::MAX,
    ensures
        count_reads_back(after, before.len() as int, n),
{
    assert forall|tail: Seq<u8>| tail.len() >= n implies #[trigger] read_count(
        after + tail,
        before.len() as int,
    ) == Some((n, after.len() as int)) by {
        assert(read_num(after + tail, before.len() as int) == Some(
            (n as u64, after.len() as int),
        ));
    }
}

/// The parts of a graph file that read back one behind the other read back as the
/// file.
pub proof fn lemma_stored_reads_back(
    b1: Seq<u8>,
    b2: Seq<u8>,
    b3: Seq<u8>,
    b4: Seq<u8>,
    b5: Seq<u8>,
    b6: Seq<u8>,
    b7: Seq<u8>,
    s: Stored,
)
    requires
        count_reads_back(b1, 0, s.entries.len()),
        entries_read_back(b2, b1.len() as int, s.entries.len(), s.entries),
        counted_read_back(b3, b2.len() as int, s.comp),
        count_reads_back(b4, b3.len() as int, s.comps.len()),
        comps_read_back(b5, b4.len() as int, s.comps.len(), s.comps),
        count_reads_back(b6, b5.len() as int, s.unresolved.len()),
        rows_read_back(b7, b6.len() as int, s.unresolved.len(), s.unresolved),
        begins(b1, b2),
        begins(b2, b3),
        begins(b3, b4),
        begins(b4, b5),
        begins(b5, b6),
        begins(b6, b7),
        b2.len() - b1.len() >= s.entries.len(),
        b5.len() - b4.len() >= s.comps.len(),
        b7.len() - b6.len() >= s.unresolved.len(),
    ensures
        read_stored(b7) == Some(s),
{
    let e = Seq::<u8>::empty();
    assert(b7 + e =~= b7);
    lemma_begins(b6, b7, e);
    let t6 = b7.skip(b6.len() as int) + e;
    lemma_begins(b5, b6, t6);
    let t5 = b6.skip(b5.len() as int) + t6;
    lemma_begins(b4, b5, t5);
    let t4 = b5.skip(b4.len() as int) + t5;
    lemma_begins(b3, b4, t4);
    let t3 = b4.skip(b3.len() as int) + t4;
    lemma_begins(b2, b3, t3);
    let t2 = b3.skip(b2.len() as int) + t3;
    lemma_begins(b1, b2, t2);
    let t1 = b2.skip(b1.len() as int) + t2;
    assert(b7 == b1 + t1);
    assert(b7 == b2 + t2);
    assert(b7 == b3 + t3);
    assert(b7 == b4 + t4);
    assert(b7 == b5 + t5);
    assert(b7 == b6 + t6);
    assert(read_count(b1 + t1, 0) == Some((s.entries.len(), b1.len() as int)));
    assert(read_entries(b2 + t2, b1.len() as int, s.entries.len()) == Some(
        (s.entries, b2.len() as int),
    ));
    assert(read_counted_nums(b3 + t3, b2.len() as int) == Some((s.comp, b3.len() as int)));
    assert(read_count(b4 + t4, b3.len() as int) == Some((s.comps.len(), b4.len() as int)));
    assert(read_comps(b5 + t5, b4.len() as int, s.comps.len()) == Some((s.comps, b5.len() as int)));
    assert(read_count(b6 + t6, b5.len() as int) == Some((s.unresolved.len(), b6.len() as int)));
    assert(read_rows(b7 + e, b6.len() as int, s.unresolved.len()) == Some(
        (s.unresolved, b7.len() as int),
    ));
}

impl TransitiveClosure {
    /// What a graph file holds of this closure: sets are written in ascending order.
    pub open spec fn stored(&self) -> Stored {
        Stored {
            entries: self.entries(),
            comp: widened(self.component_of()),
            comps: Seq::new(
                self.members().len(),
                |c: int|
                    StoredComp {
                        members: widened_refs(self.members()[c]),
                        succ: widened(ascending(self.successors()[c])),
                        anc: widened(ascending(self.ancestors()[c])),
                    },
            ),
            unresolved: self.unresolved_imports()@.map_values(
                |r: (Seq<char>, Seq<ModuleRef>)| (r.0, widened_refs(r.1)),
            ),
        }
    }

    /// The bytes of the graph file for this closure, before compression. Read as a
    /// graph file they give back what was written, unless a package has no name.
    pub fn encode(&self) -> (out: Vec<u8>)
        requires
            self.wf(),
        ensures
            out@ == stored_bytes(self.stored()),
            packages_are_named(self.entries()) ==> read_stored(out@) == Some(self.stored()),
            self.holds(self.stored()),
            consistent(self.stored(), self.cache().separator()),
    {
        let ghost s = self.stored();
        let ghost named = packages_are_named(self.entries());
        proof {
            self.lemma_fields();
        }
        let mut out: Vec<u8> = Vec::new();
        let n = self.module_refs.max_value();
        put_num(&mut out, n as u64);
        let ghost b1 = out@;
        proof {
            lemma_count_reads_back(Seq::<u8>::empty(), b1, n as nat);
        }
        let mut r: ModuleRef = 0;
        assert(out@ =~= b1 + entries_bytes(s.entries.take(0)));
        assert(b1.take(b1.len() as int) =~= b1);
        assert(s.entries.take(0) =~= Seq::<Entry>::empty());
        while r < n
            invariant
                r <= n,
                n == self.module_refs@.len(),
                s.entries == self.module_refs@,
                named == packages_are_named(s.entries),
                out@ == b1 + entries_bytes(s.entries.take(r as int)),
                out@.len() >= b1.len() + r,
                begins(b1, out@),
                named ==> entries_read_back(
                    out@,
                    b1.len() as int,
                    r as nat,
                    s.entries.take(r as int),
                ),
            decreases n - r,
        {
            let v = self.module_refs.get(r);
            let ghost before = out@;
            put_str(&mut out, v.fs.as_str());
            let ghost o1 = out@;
            put_str(&mut out, v.py.as_str());
            let ghost o2 = out@;
            match &v.pkg {
                Some(p) => {
                    put_str(&mut out, p.as_str());
                },
                None => {
                    put_str(&mut out, "");
                    proof {
                        reveal_strlit("");
                        assert(""@ =~= Seq::<char>::empty());
                    }
                },
            }
            proof {
                assert(s.entries.take(r + 1).drop_last() =~= s.entries.take(r as int));
                assert(s.entries.take(r + 1).last() == v@);
                assert(out@ =~= before + entry_bytes(v@));
                assert(out@ =~= b1 + entries_bytes(s.entries.take(r + 1)));
                assert(o2.take(o1.len() as int) =~= o1);
                assert(out@.take(o2.len() as int) =~= o2);
                assert(out@.take(before.len() as int) =~= before);
                assert(out@.take(b1.len() as int) =~= b1);
                if named {
                    assert(s.entries[r as int].pkg != Some(Seq::<char>::empty()));
                    lemma_entry_reads_back(before, o1, o2, out@, v@);
                    lemma_entries_extend(
                        before,
                        out@,
                        b1.len() as int,
                        r as nat,
                        s.entries.take(r as int),
                        v@,
                    );
                    assert(s.entries.take(r + 1) =~= s.entries.take(r as int).push(v@));
                }
            }
            r += 1;
        }
        proof {
            assert(s.entries.take(n as int) =~= s.entries);
        }
        let ghost b2 = out@;
        put_nums(&mut out, &self.mod_to_condensed);
        let ghost b3 = out@;
        let m = self.condensed_to_mod.len();
        put_num(&mut out, m as u64);
        let ghost b4 = out@;
        proof {
            assert(b3.take(b2.len() as int) =~= b2);
            assert(b4.take(b3.len() as int) =~= b3);
            lemma_count_reads_back(b3, b4, m as nat);
        }
        let mut c: usize = 0;
        assert(out@ =~= b4 + comps_bytes(s.comps.take(0)));
        assert(b4.take(b4.len() as int) =~= b4);
        assert(s.comps.take(0) =~= Seq::<StoredComp>::empty());
        while c < m
            invariant
                c <= m,
                self.wf(),
                m == self.condensed_to_mod@.len(),
                m == self.successor@.len(),
                m == self.ancestor@.len(),
                self.members() == member_lists(self.condensed_to_mod@),
                self.successors() == edge_sets(self.successor@),
                self.ancestors() == edge_sets(self.ancestor@),
                s == self.stored(),
                out@ == b4 + comps_bytes(s.comps.take(c as int)),
                out@.len() >= b4.len() + c,
                begins(b4, out@),
                comps_read_back(out@, b4.len() as int, c as nat, s.comps.take(c as int)),
                forall|a: int, x: usize|
                    0 <= a < c ==> (#[trigger] self.successors()[a].contains(x)
                        <==> s.comps[a].succ.contains(x as u64)),
                forall|a: int, x: usize|
                    0 <= a < c ==> (#[trigger] self.ancestors()[a].contains(x)
                        <==> s.comps[a].anc.contains(x as u64)),
                forall|a: int, i: int|
                    0 <= a < c && 0 <= i < s.comps[a].succ.len() ==> (
                    #[trigger] s.comps[a].succ[i]) < m,
                forall|a: int, i: int|
                    0 <= a < c && 0 <= i < s.comps[a].anc.len() ==> (
                    #[trigger] s.comps[a].anc[i]) < m,
            decreases m - c,
        {
            let ghost before = out@;
            put_refs(&mut out, &self.condensed_to_mod[c]);
            let ghost o1 = out@;
            let succ = edges_to_vec(&self.successor[c]);
            let anc = edges_to_vec(&self.ancestor[c]);
            proof {
                assert(self.successors()[c as int] == edge_set(self.successor@[c as int]));
                assert(self.ancestors()[c as int] == edge_set(self.ancestor@[c as int]));
                lemma_is_ascending_of(succ@, self.successors()[c as int]);
                lemma_is_ascending_of(anc@, self.ancestors()[c as int]);
            }
            put_nums(&mut out, &succ);
            let ghost o2 = out@;
            put_nums(&mut out, &anc);
            proof {
                assert(s.comps.take(c + 1).drop_last() =~= s.comps.take(c as int));
                let sc = s.comps.take(c + 1).last();
                assert(sc == s.comps[c as int]);
                assert(sc.members == widened_refs(self.condensed_to_mod@[c as int]@));
                assert(out@ =~= before + comp_bytes(sc));
                assert(out@ =~= b4 + comps_bytes(s.comps.take(c + 1)));
                assert(o2.take(o1.len() as int) =~= o1);
                assert(out@.take(o2.len() as int) =~= o2);
                assert(out@.take(before.len() as int) =~= before);
                assert(out@.take(b4.len() as int) =~= b4);
                assert(sc.succ == widened(succ@));
                assert(sc.anc == widened(anc@));
                lemma_widened_contains(succ@);
                lemma_widened_contains(anc@);
                assert forall|i: int| 0 <= i < sc.succ.len() implies (#[trigger] sc.succ[i]) < m by {
                    assert(succ@.contains(succ@[i]));
                    assert(self.reach().succ[c as int].contains(succ@[i]));
                }
                assert forall|i: int| 0 <= i < sc.anc.len() implies (#[trigger] sc.anc[i]) < m by {
                    assert(anc@.contains(anc@[i]));
                    assert(self.reach().anc[c as int].contains(anc@[i]));
                }
                lemma_comp_reads_back(before, o1, o2, out@, sc);
                lemma_comps_extend(
                    before,
                    out@,
                    b4.len() as int,
                    c as nat,
                    s.comps.take(c as int),
                    sc,
                );
                assert(s.comps.take(c + 1) =~= s.comps.take(c as int).push(sc));
            }
            c += 1;
        }
        proof {
            assert(s.comps.take(m as int) =~= s.comps);
        }
        let ghost b5 = out@;
        let u = self.unresolved.len();
        put_num(&mut out, u as u64);
        let ghost b6 = out@;
        proof {
            assert(b6.take(b5.len() as int) =~= b5);
            lemma_count_reads_back(b5, b6, u as nat);
        }
        let mut i: usize = 0;
        assert(out@ =~= b6 + rows_bytes(s.unresolved.take(0)));
        assert(b6.take(b6.len() as int) =~= b6);
        assert(s.unresolved.take(0) =~= Seq::<(Seq<char>, Seq<u64>)>::empty());
        while i < u
            invariant
                i <= u,
                u == self.unresolved@.len(),
                s.unresolved == self.unresolved@.map_values(
                    |r: (Seq<char>, Seq<ModuleRef>)| (r.0, widened_refs(r.1)),
                ),
                out@ == b6 + rows_bytes(s.unresolved.take(i as int)),
                out@.len() >= b6.len() + i,
                begins(b6, out@),
                rows_read_back(out@, b6.len() as int, i as nat, s.unresolved.take(i as int)),
            decreases u - i,
        {
            let ghost before = out@;
            put_str(&mut out, self.unresolved.path(i));
            let ghost o1 = out@;
            put_refs(&mut out, self.unresolved.referrers(i));
            proof {
                assert(s.unresolved.take(i + 1).drop_last() =~= s.unresolved.take(i as int));
                let row = s.unresolved.take(i + 1).last();
                assert(row == (self.unresolved@[i as int].0, widened_refs(self.unresolved@[i as int].1)));
                assert(out@ =~= before + row_bytes(row));
                assert(out@ =~= b6 + rows_bytes(s.unresolved.take(i + 1)));
                assert(out@.take(o1.len() as int) =~= o1);
                assert(out@.take(before.len() as int) =~= before);
                assert(out@.take(b6.len() as int) =~= b6);
                lemma_row_reads_back(before, o1, out@, row);
                lemma_rows_extend(
                    before,
                    out@,
                    b6.len() as int,
                    i as nat,
                    s.unresolved.take(i as int),
                    row,
                );
                assert(s.unresolved.take(i + 1) =~= s.unresolved.take(i as int).push(row));
            }
            i += 1;
        }
        proof {
            assert(s.unresolved.take(u as int) =~= s.unresolved);
            assert(out@ =~= stored_bytes(s));
            if named {
                lemma_stored_reads_back(b1, b2, b3, b4, b5, b6, out@, s);
            }
            self.lemma_stored_is_consistent();
        }
        out
    }

    /// What is stored of a closure whose sets are listed faithfully holds the closure
    /// and is consistent.
    proof fn lemma_stored_is_consistent(&self)
        requires
            self.wf(),
            forall|a: int, x: usize|
                0 <= a < self.members().len() ==> (#[trigger] self.successors()[a].contains(x)
                    <==> self.stored().comps[a].succ.contains(x as u64)),
            forall|a: int, x: usize|
                0 <= a < self.members().len() ==> (#[trigger] self.ancestors()[a].contains(x)
                    <==> self.stored().comps[a].anc.contains(x as u64)),
            forall|a: int, i: int|
                0 <= a < self.members().len() && 0 <= i < self.stored().comps[a].succ.len() ==> (
                #[trigger] self.stored().comps[a].succ[i]) < self.members().len(),
            forall|a: int, i: int|
                0 <= a < self.members().len() && 0 <= i < self.stored().comps[a].anc.len() ==> (
                #[trigger] self.stored().comps[a].anc[i]) < self.members().len(),
        ensures
            self.holds(self.stored()),
            consistent(self.stored(), self.cache().separator()),
    {
        let s = self.stored();
        let n = self.entries().len();
        let comp = self.component_of();
        let members = self.members();
        let rows = self.unresolved_imports()@;
        assert forall|p: Seq<char>, x: ModuleRef| is_recorded(rows, p, x) <==> raw_recorded(
            s.unresolved,
            p,
            x as u64,
        ) by {
            if is_recorded(rows, p, x) {
                let r = choose|r: int|
                    0 <= r < rows.len() && (#[trigger] rows[r]).0 == p && rows[r].1.contains(x);
                let i = choose|i: int| 0 <= i < rows[r].1.len() && rows[r].1[i] == x;
                assert(s.unresolved[r].1[i] == x as u64);
                assert(s.unresolved[r].0 == p);
            }
            if raw_recorded(s.unresolved, p, x as u64) {
                let r = choose|r: int|
                    0 <= r < s.unresolved.len() && (#[trigger] s.unresolved[r]).0 == p
                        && s.unresolved[r].1.contains(x as u64);
                let i = choose|i: int|
                    0 <= i < s.unresolved[r].1.len() && s.unresolved[r].1[i] == x as u64;
                assert(rows[r].1[i] == x);
                assert(rows[r].0 == p);
            }
        }
        assert(self.holds(s));
        assert(comp_ok(s));
        assert forall|c: int, i: int|
            0 <= c < s.comps.len() && 0 <= i < s.comps[c].members.len() implies (
        #[trigger] s.comps[c].members[i]) < s.comp.len() && s.comp[s.comps[c].members[i] as int]
            == c by {
            assert((members[c][i] as int) < n);
        }
        assert forall|c: int| 0 <= c < s.comps.len() implies (#[trigger] s.comps[c]).members.len()
            > 0 by {
            assert(members[c].len() > 0);
        }
        assert forall|c: int| 0 <= c < s.comps.len() implies (
        #[trigger] s.comps[c]).members.no_duplicates() by {
            assert(members[c].no_duplicates());
            assert forall|i: int, j: int|
                0 <= i < s.comps[c].members.len() && 0 <= j < s.comps[c].members.len() && i
                    != j implies s.comps[c].members[i] != s.comps[c].members[j] by {
                assert(members[c][i] != members[c][j]);
            }
        }
        assert forall|m: int| 0 <= m < s.comp.len() implies s.comps[(
        #[trigger] s.comp[m]) as int].members.contains(m as u64) by {
            let c = comp[m] as int;
            assert(members[c].contains(m as ModuleRef));
            let i = choose|i: int| 0 <= i < members[c].len() && members[c][i] == m as ModuleRef;
            assert(s.comps[c].members[i] == m as u64);
        }
        assert(members_ok(s));
        assert(sets_ok(s));
        assert forall|a: int, b: int| 0 <= a < s.comps.len() && 0 <= b < s.comps.len() implies ((
        #[trigger] s.comps[a]).anc.contains(b as u64) <==> (#[trigger] s.comps[b]).succ.contains(
            a as u64,
        )) by {
            assert(self.ancestors()[a].contains(b as usize) <==> s.comps[a].anc.contains(
                b as usize as u64,
            ));
            assert(self.successors()[b].contains(a as usize) <==> s.comps[b].succ.contains(
                a as usize as u64,
            ));
            assert(self.reach().anc[a as usize as int].contains(b as usize)
                <==> self.reach().succ[b as usize as int].contains(a as usize));
        }
        assert(transposed(s));
        assert forall|r: int, i: int|
            0 <= r < s.unresolved.len() && 0 <= i < s.unresolved[r].1.len() implies (
        #[trigger] s.unresolved[r].1[i]) < s.entries.len() by {
            assert((rows[r].1[i] as int) < n);
        }
        assert(refs_ok(s));
    }

    /// The closure that `bytes` hold as a graph file.
    pub fn decode(bytes: &Vec<u8>, sep: char) -> (r: Result<TransitiveClosure, LoadError>)
        ensures
            match r {
                Ok(tc) => read_stored(bytes@) is Some && consistent(read_stored(bytes@)->0, sep)
                    && tc.wf() && tc.cache().separator() == sep && tc.holds(
                    read_stored(bytes@)->0,
                ),
                Err(LoadError::Malformed) => read_stored(bytes@) is None,
                Err(LoadError::Inconsistent) => read_stored(bytes@) is Some && !consistent(
                    read_stored(bytes@)->0,
                    sep,
                ),
                Err(LoadError::Frame) => false,
            },
    {
        match parse(bytes) {
            None => Err(LoadError::Malformed),
            Some(raw) => match Self::build(raw, sep) {
                Some(tc) => Ok(tc),
                None => Err(LoadError::Inconsistent),
            },
        }
    }

    /// The graph file for this closure: its bytes in one compressed frame. `None` where
    /// the compression fails.
    pub fn to_file_bytes(&self) -> (r: Option<Vec<u8>>)
        requires
            self.wf(),
        ensures
            match (r, zstd_frame(stored_bytes(self.stored()))) {
                (Some(c), Some(f)) => c@ == f && zstd_unframe(f) == Some(
                    stored_bytes(self.stored()),
                ),
                (None, None) => true,
                _ => false,
            },
    {
        let plain = self.encode();
        zstd_compress(&plain)
    }

    /// The closure that the graph file `data` holds.
    pub fn from_file_bytes(data: &Vec<u8>, sep: char) -> (r: Result<TransitiveClosure, LoadError>)
        ensures
            match zstd_unframe(data@) {
                None => r == Err::<TransitiveClosure, LoadError>(LoadError::Frame),
                Some(b) => match r {
                    Ok(tc) => read_stored(b) is Some && consistent(read_stored(b)->0, sep)
                        && tc.wf() && tc.cache().separator() == sep && tc.holds(read_stored(b)->0),
                    Err(LoadError::Malformed) => read_stored(b) is None,
                    Err(LoadError::Inconsistent) => read_stored(b) is Some && !consistent(
                        read_stored(b)->0,
                        sep,
                    ),
                    Err(LoadError::Frame) => false,
                },
            },
    {
        match zstd_decompress(data) {
            None => Err(LoadError::Frame),
            Some(plain) => Self::decode(&plain, sep),
        }
    }

    /// The two closures have the same modules, components, sets and unresolved
    /// imports.
    pub open spec fn same_graph_as(&self, other: &TransitiveClosure) -> bool {
        &&& self.entries() == other.entries()
        &&& self.component_of() == other.component_of()
        &&& self.members() == other.members()
        &&& self.successors() == other.successors()
        &&& self.ancestors() == other.ancestors()
        &&& forall|p: Seq<char>, x: ModuleRef|
            is_recorded(self.unresolved_imports()@, p, x) <==> is_recorded(
                other.unresolved_imports()@,
                p,
                x,
            )
    }

    /// Two closures that are the same graph give the same answers: the same modules
    /// are affected by the same names, under each label and for each package, and
    /// every module depends on the same modules.
    pub proof fn lemma_same_answers(
        &self,
        other: &TransitiveClosure,
        names: Seq<Seq<char>>,
        by_file: bool,
        what: crate::transitive_closure::Label,
        only: Option<Seq<char>>,
        m: int,
    )
        requires
            self.same_graph_as(other),
        ensures
            self.affected_components(names, by_file) == other.affected_components(names, by_file),
            self.names_in(self.affected_components(names, by_file), what, only) == other.names_in(
                other.affected_components(names, by_file),
                what,
                only,
            ),
            self.depends_on_set(m) == other.depends_on_set(m),
    {
        assert(self.affected_components(names, by_file) =~= other.affected_components(
            names,
            by_file,
        ));
        assert(self.names_in(self.affected_components(names, by_file), what, only)
            =~= other.names_in(other.affected_components(names, by_file), what, only));
        assert(self.depends_on_set(m) =~= other.depends_on_set(m));
    }

    /// Written as a graph file and read back, a closure is the same graph. No package
    /// may be without a name: what owns a module is written as a name, and no name
    /// stands for no owner.
    pub fn round_trip(&self) -> (r: TransitiveClosure)
        requires
            self.wf(),
            packages_are_named(self.entries()),
        ensures
            r.wf(),
            r.same_graph_as(self),
    {
        let bytes = self.encode();
        let sep = self.module_refs.sep();
        proof {
            self.lemma_fields();
        }
        match Self::decode(&bytes, sep) {
            Ok(tc) => {
                proof {
                    let s = self.stored();
                    assert(tc.component_of() =~= self.component_of()) by {
                        assert forall|i: int| 0 <= i < tc.component_of().len() implies tc.component_of()[i]
                            == self.component_of()[i] by {
                            assert(widened(tc.component_of())[i] == widened(self.component_of())[i]);
                        }
                        assert(widened(tc.component_of()).len() == widened(
                            self.component_of(),
                        ).len());
                    }
                    assert(tc.members() =~= self.members()) by {
                        assert forall|c: int| 0 <= c < tc.members().len() implies tc.members()[c]
                            =~= self.members()[c] by {
                            let a = tc.members()[c];
                            let b = self.members()[c];
                            assert(widened_refs(a) == s.comps[c].members);
                            assert(widened_refs(b) == s.comps[c].members);
                            assert(a.len() == widened_refs(a).len());
                            assert(b.len() == widened_refs(b).len());
                            assert forall|i: int| 0 <= i < a.len() implies a[i] == b[i] by {
                                assert(widened_refs(a)[i] == widened_refs(b)[i]);
                            }
                        }
                    }
                    assert(tc.successors() =~= self.successors()) by {
                        assert(tc.successors().len() == tc.members().len());
                        assert(self.successors().len() == self.members().len());
                        assert forall|c: int| 0 <= c < tc.successors().len() implies tc.successors()[c]
                            =~= self.successors()[c] by {
                            assert forall|x: usize| tc.successors()[c].contains(x)
                                <==> self.successors()[c].contains(x) by {
                                assert(tc.successors()[c].contains(x) <==> s.comps[c].succ.contains(
                                    x as u64,
                                ));
                            }
                        }
                    }
                    assert(tc.ancestors() =~= self.ancestors()) by {
                        assert(tc.ancestors().len() == tc.members().len());
                        assert(self.ancestors().len() == self.members().len());
                        assert forall|c: int| 0 <= c < tc.ancestors().len() implies tc.ancestors()[c]
                            =~= self.ancestors()[c] by {
                            assert forall|x: usize| tc.ancestors()[c].contains(x)
                                <==> self.ancestors()[c].contains(x) by {
                                assert(tc.ancestors()[c].contains(x) <==> s.comps[c].anc.contains(
                                    x as u64,
                                ));
                            }
                        }
                    }
                }
                tc
            },
            Err(_) => {
                proof {
                    assert(false);
                }
                vstd::pervasive::unreached()
            },
        }
    }
}

/// One component as read from a file.
pub struct RawComp {
    pub members: Vec<u64>,
    pub succ: Vec<u64>,
    pub anc: Vec<u64>,
}

impl View for RawComp {
    type V = StoredComp;

    open spec fn view(&self) -> StoredComp {
        StoredComp { members: self.members@, succ: self.succ@, anc: self.anc@ }
    }
}

/// A graph as read from a file, before it is checked.
pub struct RawGraph {
    pub entries: Vec<ModuleRefVal>,
    pub comp: Vec<u64>,
    pub comps: Vec<RawComp>,
    pub unresolved: Vec<(String, Vec<u64>)>,
}

pub open spec fn entry_views(v: Seq<ModuleRefVal>) -> Seq<Entry> {
    v.map_values(|e: ModuleRefVal| e@)
}

pub open spec fn comp_views(v: Seq<RawComp>) -> Seq<StoredComp> {
    v.map_values(|c: RawComp| c@)
}

pub open spec fn row_views(v: Seq<(String, Vec<u64>)>) -> Seq<(Seq<char>, Seq<u64>)> {
    v.map_values(|r: (String, Vec<u64>)| (r.0@, r.1@))
}

impl View for RawGraph {
    type V = Stored;

    open spec fn view(&self) -> Stored {
        Stored {
            entries: entry_views(self.entries@),
            comp: self.comp@,
            comps: comp_views(self.comps@),
            unresolved: row_views(self.unresolved@),
        }
    }
}

proof fn lemma_read_entries_fails(bytes: Seq<u8>, pos: int, k: nat, count: nat)
    requires
        k <= count,
        read_entries(bytes, pos, k) is None,
    ensures
        read_entries(bytes, pos, count) is None,
    decreases count - k,
{
    if k < count {
        lemma_read_entries_fails(bytes, pos, k, (count - 1) as nat);
    }
}

proof fn lemma_read_comps_fails(bytes: Seq<u8>, pos: int, k: nat, count: nat)
    requires
        k <= count,
        read_comps(bytes, pos, k) is None,
    ensures
        read_comps(bytes, pos, count) is None,
    decreases count - k,
{
    if k < count {
        lemma_read_comps_fails(bytes, pos, k, (count - 1) as nat);
    }
}

proof fn lemma_read_rows_fails(bytes: Seq<u8>, pos: int, k: nat, count: nat)
    requires
        k <= count,
        read_rows(bytes, pos, k) is None,
    ensures
        read_rows(bytes, pos, count) is None,
    decreases count - k,
{
    if k < count {
        lemma_read_rows_fails(bytes, pos, k, (count - 1) as nat);
    }
}

/// The count at `pos` and the position behind it.
fn get_count(bytes: &Vec<u8>, pos: usize) -> (r: Option<(usize, usize)>)
    requires
        pos <= bytes@.len(),
    ensures
        match (r, read_count(bytes@, pos as int)) {
            (Some(p), Some(q)) => p.0 == q.0 && p.1 == q.1 && p.1 <= bytes@.len(),
            (None, None) => true,
            _ => false,
        },
{
    let total = bytes.len();
    match get_len(bytes, pos) {
        None => None,
        Some(p) => {
            if p.0 > total - p.1 {
                None
            } else {
                Some(p)
            }
        },
    }
}

fn get_entry(bytes: &Vec<u8>, pos: usize) -> (r: Option<(ModuleRefVal, usize)>)
    requires
        pos <= bytes@.len(),
    ensures
        match (r, read_entry(bytes@, pos as int)) {
            (Some(p), Some(q)) => p.0@ == q.0 && p.1 == q.1 && p.1 <= bytes@.len(),
            (None, None) => true,
            _ => false,
        },
{
    let a = match get_str(bytes, pos) {
        Some(a) => a,
        None => {
            return None;
        },
    };
    let b = match get_str(bytes, a.1) {
        Some(b) => b,
        None => {
            return None;
        },
    };
    let c = match get_str(bytes, b.1) {
        Some(c) => c,
        None => {
            return None;
        },
    };
    let pkg = if c.0.as_str().is_empty() {
        None
    } else {
        Some(c.0)
    };
    Some((ModuleRefVal { fs: a.0, py: b.0, pkg }, c.1))
}

fn get_comp(bytes: &Vec<u8>, pos: usize) -> (r: Option<(RawComp, usize)>)
    requires
        pos <= bytes@.len(),
    ensures
        match (r, read_comp(bytes@, pos as int)) {
            (Some(p), Some(q)) => p.0@ == q.0 && p.1 == q.1 && p.1 <= bytes@.len(),
            (None, None) => true,
            _ => false,
        },
{
    let a = match get_counted_nums(bytes, pos) {
        Some(a) => a,
        None => {
            return None;
        },
    };
    let b = match get_counted_nums(bytes, a.1) {
        Some(b) => b,
        None => {
            return None;
        },
    };
    let c = match get_counted_nums(bytes, b.1) {
        Some(c) => c,
        None => {
            return None;
        },
    };
    Some((RawComp { members: a.0, succ: b.0, anc: c.0 }, c.1))
}

fn get_row(bytes: &Vec<u8>, pos: usize) -> (r: Option<((String, Vec<u64>), usize)>)
    requires
        pos <= bytes@.len(),
    ensures
        match (r, read_row(bytes@, pos as int)) {
            (Some(p), Some(q)) => p.0.0@ == q.0.0 && p.0.1@ == q.0.1 && p.1 == q.1 && p.1
                <= bytes@.len(),
            (None, None) => true,
            _ => false,
        },
{
    let a = match get_str(bytes, pos) {
        Some(a) => a,
        None => {
            return None;
        },
    };
    let b = match get_counted_nums(bytes, a.1) {
        Some(b) => b,
        None => {
            return None;
        },
    };
    Some(((a.0, b.0), b.1))
}

/// What `bytes` hold, read as a graph file.
pub fn parse(bytes: &Vec<u8>) -> (r: Option<RawGraph>)
    ensures
        match (r, read_stored(bytes@)) {
            (Some(g), Some(s)) => g@ == s,
            (None, None) => true,
            _ => false,
        },
{
    let (n, start) = match get_count(bytes, 0) {
        Some(p) => p,
        None => {
            return None;
        },
    };
    let mut entries: Vec<ModuleRefVal> = Vec::new();
    let mut at: usize = start;
    let mut i: usize = 0;
    assert(entry_views(entries@) =~= Seq::<Entry>::empty());
    while i < n
        invariant
            i <= n,
            at <= bytes@.len(),
            read_count(bytes@, 0) == Some((n as nat, start as int)),
            read_entries(bytes@, start as int, i as nat) == Some(
                (entry_views(entries@), at as int),
            ),
        decreases n - i,
    {
        match get_entry(bytes, at) {
            None => {
                proof {
                    assert(read_entries(bytes@, start as int, (i + 1) as nat) is None);
                    lemma_read_entries_fails(bytes@, start as int, (i + 1) as nat, n as nat);
                }
                return None;
            },
            Some(p) => {
                let ghost before = entries@;
                entries.push(p.0);
                assert(entry_views(entries@) =~= entry_views(before).push(p.0@));
                at = p.1;
            },
        }
        i += 1;
    }
    let ghost end1 = at as int;
    let comp = match get_counted_nums(bytes, at) {
        Some(c) => c,
        None => {
            return None;
        },
    };
    let (m, start2) = match get_count(bytes, comp.1) {
        Some(p) => p,
        None => {
            return None;
        },
    };
    let mut comps: Vec<RawComp> = Vec::new();
    let mut at: usize = start2;
    let mut i: usize = 0;
    assert(comp_views(comps@) =~= Seq::<StoredComp>::empty());
    while i < m
        invariant
            i <= m,
            at <= bytes@.len(),
            read_count(bytes@, 0) == Some((n as nat, start as int)),
            read_entries(bytes@, start as int, n as nat) == Some((entry_views(entries@), end1)),
            read_counted_nums(bytes@, end1) == Some((comp.0@, comp.1 as int)),
            read_count(bytes@, comp.1 as int) == Some((m as nat, start2 as int)),
            read_comps(bytes@, start2 as int, i as nat) == Some((comp_views(comps@), at as int)),
        decreases m - i,
    {
        match get_comp(bytes, at) {
            None => {
                proof {
                    assert(read_comps(bytes@, start2 as int, (i + 1) as nat) is None);
                    lemma_read_comps_fails(bytes@, start2 as int, (i + 1) as nat, m as nat);
                }
                return None;
            },
            Some(p) => {
                let ghost before = comps@;
                comps.push(p.0);
                assert(comp_views(comps@) =~= comp_views(before).push(p.0@));
                at = p.1;
            },
        }
        i += 1;
    }
    let ghost end2 = at as int;
    let (u, start3) = match get_count(bytes, at) {
        Some(p) => p,
        None => {
            return None;
        },
    };
    let mut rows: Vec<(String, Vec<u64>)> = Vec::new();
    let mut at: usize = start3;
    let mut i: usize = 0;
    assert(row_views(rows@) =~= Seq::<(Seq<char>, Seq<u64>)>::empty());
    while i < u
        invariant
            i <= u,
            at <= bytes@.len(),
            read_count(bytes@, 0) == Some((n as nat, start as int)),
            read_entries(bytes@, start as int, n as nat) == Some((entry_views(entries@), end1)),
            read_counted_nums(bytes@, end1) == Some((comp.0@, comp.1 as int)),
            read_count(bytes@, comp.1 as int) == Some((m as nat, start2 as int)),
            read_comps(bytes@, start2 as int, m as nat) == Some((comp_views(comps@), end2)),
            read_count(bytes@, end2) == Some((u as nat, start3 as int)),
            read_rows(bytes@, start3 as int, i as nat) == Some((row_views(rows@), at as int)),
        decreases u - i,
    {
        match get_row(bytes, at) {
            None => {
                proof {
                    assert(read_rows(bytes@, start3 as int, (i + 1) as nat) is None);
                    lemma_read_rows_fails(bytes@, start3 as int, (i + 1) as nat, u as nat);
                }
                return None;
            },
            Some(p) => {
                let ghost before = rows@;
                rows.push(p.0);
                assert(row_views(rows@) =~= row_views(before).push((p.0.0@, p.0.1@)));
                at = p.1;
            },
        }
        i += 1;
    }
    Some(RawGraph { entries, comp: comp.0, comps, unresolved: rows })
}

/// Every module has a component that the file holds.
pub open spec fn comp_ok(s: Stored) -> bool {
    &&& s.comp.len() == s.entries.len()
    &&& forall|i: int| 0 <= i < s.comp.len() ==> (#[trigger] s.comp[i]) < s.comps.len()
}

/// Every module is a member of its component and of no other, once, and no component
/// is empty.
pub open spec fn members_ok(s: Stored) -> bool {
    &&& forall|c: int, i: int|
        0 <= c < s.comps.len() && 0 <= i < s.comps[c].members.len() ==> (
        #[trigger] s.comps[c].members[i]) < s.comp.len() && s.comp[s.comps[c].members[i] as int]
            == c
    &&& forall|c: int| 0 <= c < s.comps.len() ==> (#[trigger] s.comps[c]).members.len() > 0
    &&& forall|c: int| 0 <= c < s.comps.len() ==> (#[trigger] s.comps[c]).members.no_duplicates()
    &&& forall|m: int|
        0 <= m < s.comp.len() ==> s.comps[(#[trigger] s.comp[m]) as int].members.contains(m as u64)
}

/// Every component named is one that the file holds.
pub open spec fn sets_ok(s: Stored) -> bool {
    &&& forall|c: int, i: int|
        0 <= c < s.comps.len() && 0 <= i < s.comps[c].succ.len() ==> (
        #[trigger] s.comps[c].succ[i]) < s.comps.len()
    &&& forall|c: int, i: int|
        0 <= c < s.comps.len() && 0 <= i < s.comps[c].anc.len() ==> (
        #[trigger] s.comps[c].anc[i]) < s.comps.len()
}

/// What reaches a component is what the component is reached by.
pub open spec fn transposed(s: Stored) -> bool {
    forall|a: int, b: int|
        0 <= a < s.comps.len() && 0 <= b < s.comps.len() ==> ((#[trigger] s.comps[a]).anc.contains(
            b as u64,
        ) <==> (#[trigger] s.comps[b]).succ.contains(a as u64))
}

/// Every module named by an unresolved import is one that the file holds.
pub open spec fn refs_ok(s: Stored) -> bool {
    forall|r: int, i: int|
        0 <= r < s.unresolved.len() && 0 <= i < s.unresolved[r].1.len() ==> (
        #[trigger] s.unresolved[r].1[i]) < s.entries.len()
}

/// The counts of the file agree with each other, and what it holds is a closure.
pub open spec fn consistent(s: Stored, sep: char) -> bool {
    &&& entries_inv(s.entries, sep)
    &&& s.comps.len() <= EDGE_CAPACITY
    &&& comp_ok(s)
    &&& members_ok(s)
    &&& sets_ok(s)
    &&& transposed(s)
    &&& refs_ok(s)
}

/// Rows `rows` say that module `x` asked for `path`.
pub open spec fn raw_recorded(rows: Seq<(Seq<char>, Seq<u64>)>, path: Seq<char>, x: u64) -> bool {
    exists|r: int| 0 <= r < rows.len() && (#[trigger] rows[r]).0 == path && rows[r].1.contains(x)
}

/// The component of each module, as numbers of this machine.
fn narrow_comp(raw: &Vec<u64>, n: usize, m: usize) -> (r: Option<Vec<usize>>)
    ensures
        match r {
            Some(v) => v@.len() == n && widened(v@) == raw@ && forall|i: int|
                0 <= i < n ==> (#[trigger] v@[i]) < m,
            None => !(raw@.len() == n && forall|i: int|
                0 <= i < raw@.len() ==> (#[trigger] raw@[i]) < m),
        },
{
    if raw.len() != n {
        return None;
    }
    let mut v: Vec<usize> = Vec::new();
    let mut i: usize = 0;
    while i < n
        invariant
            i <= n,
            raw@.len() == n,
            v@.len() == i,
            forall|j: int| 0 <= j < i ==> (#[trigger] v@[j]) < m && v@[j] as u64 == raw@[j],
        decreases n - i,
    {
        if raw[i] >= m as u64 {
            return None;
        }
        v.push(raw[i] as usize);
        i += 1;
    }
    assert(widened(v@) =~= raw@);
    Some(v)
}

/// The members of each component, once it is checked that they make up a partition.
fn build_members(
    raw: &Vec<RawComp>,
    comp: &Vec<usize>,
    n: usize,
    Ghost(s): Ghost<Stored>,
) -> (r: Option<Vec<Vec<ModuleRef>>>)
    requires
        s.comps == comp_views(raw@),
        s.comp == widened(comp@),
        comp@.len() == n,
        n <= u32::MAX,
        forall|i: int| 0 <= i < n ==> (#[trigger] comp@[i]) < raw@.len(),
    ensures
        match r {
            Some(ms) => {
                &&& ms@.len() == raw@.len()
                &&& partition_inv(n as nat, comp@, member_lists(ms@))
                &&& forall|c: int|
                    0 <= c < ms@.len() ==> widened_refs((#[trigger] ms@[c])@) == raw@[c].members@
                &&& members_ok(s)
            },
            None => !members_ok(s),
        },
{
    let m = raw.len();
    let mut seen: Vec<bool> = Vec::new();
    let mut k: usize = 0;
    while k < n
        invariant
            k <= n,
            seen@.len() == k,
            forall|j: int| 0 <= j < k ==> !seen@[j],
        decreases n - k,
    {
        seen.push(false);
        k += 1;
    }
    let mut ms: Vec<Vec<ModuleRef>> = Vec::new();
    let mut c: usize = 0;
    while c < m
        invariant
            c <= m,
            m == raw@.len(),
            s.comps == comp_views(raw@),
            s.comp == widened(comp@),
            comp@.len() == n,
            n <= u32::MAX,
            seen@.len() == n,
            ms@.len() == c,
            forall|a: int|
                0 <= a < c ==> widened_refs((#[trigger] ms@[a])@) == raw@[a].members@,
            forall|a: int, i: int|
                0 <= a < c && 0 <= i < raw@[a].members@.len() ==> (
                #[trigger] raw@[a].members@[i]) < n && comp@[raw@[a].members@[i] as int] == a,
            forall|a: int| 0 <= a < c ==> (#[trigger] raw@[a]).members@.len() > 0,
            forall|a: int| 0 <= a < c ==> (#[trigger] raw@[a]).members@.no_duplicates(),
            forall|x: int|
                0 <= x < n ==> (#[trigger] seen@[x] <==> comp@[x] < c && raw@[comp@[x] as int].members@.contains(
                    x as u64,
                )),
        decreases m - c,
    {
        let list = &raw[c].members;
        if list.len() == 0 {
            proof {
                assert(s.comps[c as int].members.len() == 0);
            }
            return None;
        }
        let mut mine: Vec<ModuleRef> = Vec::new();
        let mut i: usize = 0;
        while i < list.len()
            invariant
                i <= list@.len(),
                c < m,
                m == raw@.len(),
                list@ == raw@[c as int].members@,
                s.comps == comp_views(raw@),
                s.comp == widened(comp@),
                comp@.len() == n,
                n <= u32::MAX,
                seen@.len() == n,
                mine@.len() == i,
                forall|j: int| 0 <= j < i ==> (#[trigger] mine@[j]) as u64 == list@[j],
                forall|j: int|
                    0 <= j < i ==> (#[trigger] list@[j]) < n && comp@[list@[j] as int] == c,
                forall|j: int, t: int| 0 <= j < t < i ==> list@[j] != list@[t],
                forall|x: int|
                    0 <= x < n ==> (#[trigger] seen@[x] <==> (comp@[x] < c && raw@[comp@[x] as int].members@.contains(
                        x as u64,
                    )) || exists|j: int| 0 <= j < i && list@[j] == x as u64),
            decreases list@.len() - i,
        {
            let x = list[i];
            if x >= n as u64 {
                proof {
                    assert(s.comps[c as int].members[i as int] == x);
                }
                return None;
            }
            let mm = x as usize;
            if comp[mm] != c {
                proof {
                    assert(s.comps[c as int].members[i as int] == x);
                    assert(s.comp[mm as int] == comp@[mm as int] as u64);
                }
                return None;
            }
            if seen[mm] {
                proof {
                    let j = choose|j: int| 0 <= j < i && list@[j] == mm as u64;
                    assert(s.comps[c as int].members[j] == s.comps[c as int].members[i as int]);
                    assert(!s.comps[c as int].members.no_duplicates());
                }
                return None;
            }
            let ghost seen0 = seen@;
            seen.set(mm, true);
            mine.push(x as ModuleRef);
            proof {
                assert forall|j: int, t: int| 0 <= j < t < i + 1 implies list@[j] != list@[t] by {
                    if t == i && list@[j] == list@[t] {
                        assert(seen0[mm as int]);
                    }
                }
                assert forall|y: int| 0 <= y < n implies (#[trigger] seen@[y] <==> (comp@[y] < c
                    && raw@[comp@[y] as int].members@.contains(y as u64)) || exists|j: int|
                    0 <= j < i + 1 && list@[j] == y as u64) by {
                    if y == mm {
                        assert(list@[i as int] == y as u64);
                    } else {
                        assert(seen@[y] == seen0[y]);
                        if exists|j: int| 0 <= j < i + 1 && list@[j] == y as u64 {
                            let j = choose|j: int| 0 <= j < i + 1 && list@[j] == y as u64;
                            assert(j < i);
                        }
                    }
                }
            }
            i += 1;
        }
        proof {
            assert(widened_refs(mine@) =~= list@);
            assert forall|y: int| 0 <= y < n implies (#[trigger] seen@[y] <==> comp@[y] < c + 1
                && raw@[comp@[y] as int].members@.contains(y as u64)) by {
                if exists|j: int| 0 <= j < list@.len() && list@[j] == y as u64 {
                    let j = choose|j: int| 0 <= j < list@.len() && list@[j] == y as u64;
                    assert(comp@[list@[j] as int] == c);
                }
                if comp@[y] == c && raw@[c as int].members@.contains(y as u64) {
                    let j = choose|j: int| 0 <= j < list@.len() && list@[j] == y as u64;
                }
            }
        }
        ms.push(mine);
        c += 1;
    }
    let mut x: usize = 0;
    while x < n
        invariant
            x <= n,
            seen@.len() == n,
            forall|y: int| 0 <= y < x ==> seen@[y],
            ms@.len() == m,
            forall|a: int|
                0 <= a < m ==> widened_refs((#[trigger] ms@[a])@) == raw@[a].members@,
            forall|a: int, i: int|
                0 <= a < m && 0 <= i < raw@[a].members@.len() ==> (
                #[trigger] raw@[a].members@[i]) < n && comp@[raw@[a].members@[i] as int] == a,
            forall|a: int| 0 <= a < m ==> (#[trigger] raw@[a]).members@.len() > 0,
            forall|a: int| 0 <= a < m ==> (#[trigger] raw@[a]).members@.no_duplicates(),
            s.comps == comp_views(raw@),
            s.comp == widened(comp@),
            comp@.len() == n,
            m == raw@.len(),
            forall|i: int| 0 <= i < n ==> (#[trigger] comp@[i]) < raw@.len(),
            forall|y: int|
                0 <= y < n ==> (#[trigger] seen@[y] <==> comp@[y] < m && raw@[comp@[y] as int].members@.contains(
                    y as u64,
                )),
        decreases n - x,
    {
        if !seen[x] {
            proof {
                assert(s.comp[x as int] == comp@[x as int] as u64);
                assert(s.comps[comp@[x as int] as int].members == raw@[comp@[x as int] as int].members@);
            }
            return None;
        }
        x += 1;
    }
    proof {
        assert forall|a: int, i: int|
            0 <= a < s.comps.len() && 0 <= i < s.comps[a].members.len() implies (
        #[trigger] s.comps[a].members[i]) < s.comp.len() && s.comp[s.comps[a].members[i] as int]
            == a by {
            assert(raw@[a].members@[i] < n);
        }
        assert forall|a: int| 0 <= a < s.comps.len() implies (#[trigger] s.comps[a]).members.len()
            > 0 by {
            assert(raw@[a].members@.len() > 0);
        }
        assert forall|a: int| 0 <= a < s.comps.len() implies (
        #[trigger] s.comps[a]).members.no_duplicates() by {
            assert(raw@[a].members@.no_duplicates());
        }
        assert forall|y: int| 0 <= y < s.comp.len() implies s.comps[(
        #[trigger] s.comp[y]) as int].members.contains(y as u64) by {
            assert(seen@[y]);
            assert(s.comp[y] == comp@[y] as u64);
        }
        assert(members_ok(s));
        let members = member_lists(ms@);
        assert forall|a: int, i: int|
            0 <= a < members.len() && 0 <= i < members[a].len() implies (
        #[trigger] members[a][i] as int) < n && comp@[members[a][i] as int] == a by {
            assert(widened_refs(ms@[a]@)[i] == raw@[a].members@[i]);
        }
        assert forall|a: int| 0 <= a < members.len() implies (#[trigger] members[a]).no_duplicates() by {
            assert forall|i: int, j: int|
                0 <= i < members[a].len() && 0 <= j < members[a].len() && i != j implies members[a][i]
                != members[a][j] by {
                assert(widened_refs(ms@[a]@)[i] == raw@[a].members@[i]);
                assert(widened_refs(ms@[a]@)[j] == raw@[a].members@[j]);
                assert(raw@[a].members@.no_duplicates());
            }
        }
        assert forall|a: int| 0 <= a < members.len() implies (#[trigger] members[a]).len() > 0 by {
            assert(widened_refs(ms@[a]@).len() == raw@[a].members@.len());
            assert(raw@[a].members@.len() > 0);
        }
        assert forall|y: int| 0 <= y < n implies members[(#[trigger] comp@[y]) as int].contains(
            y as ModuleRef,
        ) by {
            assert(seen@[y]);
            let a = comp@[y] as int;
            let j = choose|j: int| 0 <= j < raw@[a].members@.len() && raw@[a].members@[j] == y as u64;
            assert(widened_refs(ms@[a]@)[j] == raw@[a].members@[j]);
            assert(members[a][j] == y as ModuleRef);
        }
    }
    Some(ms)
}

/// The sets of one kind, as far as they name components that are there.
fn build_sets(raw: &Vec<RawComp>, forward: bool) -> (r: Option<Vec<CondensedEdges>>)
    requires
        raw@.len() <= EDGE_CAPACITY,
    ensures
        match r {
            Some(v) => v@.len() == raw@.len() && (forall|c: int, x: usize|
                0 <= c < v@.len() ==> (#[trigger] edge_set(v@[c]).contains(x) <==> listed(
                    raw@[c],
                    forward,
                ).contains(x as u64))) && (forall|c: int, i: int|
                0 <= c < raw@.len() && 0 <= i < listed(raw@[c], forward).len() ==> (
                #[trigger] listed(raw@[c], forward)[i]) < raw@.len()),
            None => exists|c: int, i: int|
                0 <= c < raw@.len() && 0 <= i < listed(raw@[c], forward).len() && #[trigger] listed(
                    raw@[c],
                    forward,
                )[i] >= raw@.len(),
        },
{
    let m = raw.len();
    let mut v: Vec<CondensedEdges> = Vec::new();
    let mut c: usize = 0;
    while c < m
        invariant
            c <= m,
            m == raw@.len(),
            m <= EDGE_CAPACITY,
            v@.len() == c,
            forall|a: int, x: usize|
                0 <= a < c ==> (#[trigger] edge_set(v@[a]).contains(x) <==> listed(
                    raw@[a],
                    forward,
                ).contains(x as u64)),
            forall|a: int, i: int|
                0 <= a < c && 0 <= i < listed(raw@[a], forward).len() ==> (#[trigger] listed(
                    raw@[a],
                    forward,
                )[i]) < m,
        decreases m - c,
    {
        let list = if forward {
            &raw[c].succ
        } else {
            &raw[c].anc
        };
        assert(list@ == listed(raw@[c as int], forward));
        let mut set = edges_new();
        let mut i: usize = 0;
        while i < list.len()
            invariant
                i <= list@.len(),
                c < m,
                m == raw@.len(),
                m <= EDGE_CAPACITY,
                list@ == listed(raw@[c as int], forward),
                forall|j: int| 0 <= j < i ==> (#[trigger] list@[j]) < m,
                forall|x: usize|
                    edge_set(set).contains(x) <==> exists|j: int|
                        0 <= j < i && #[trigger] list@[j] == x as u64,
            decreases list@.len() - i,
        {
            let x = list[i];
            if x >= m as u64 {
                proof {
                    assert(listed(raw@[c as int], forward)[i as int] >= raw@.len());
                }
                return None;
            }
            let ghost before = edge_set(set);
            edges_insert(&mut set, x as usize);
            proof {
                assert forall|y: usize| edge_set(set).contains(y) <==> exists|j: int|
                    0 <= j < i + 1 && #[trigger] list@[j] == y as u64 by {
                    if before.contains(y) {
                        let j = choose|j: int| 0 <= j < i && #[trigger] list@[j] == y as u64;
                        assert(0 <= j < i + 1 && list@[j] == y as u64);
                    }
                    if y == x as usize {
                        assert(list@[i as int] == y as u64);
                    }
                    if exists|j: int| 0 <= j < i + 1 && #[trigger] list@[j] == y as u64 {
                        let j = choose|j: int| 0 <= j < i + 1 && #[trigger] list@[j] == y as u64;
                        if j < i {
                            assert(before.contains(y));
                        }
                    }
                }
            }
            i += 1;
        }
        proof {
            assert forall|x: usize| edge_set(set).contains(x) <==> list@.contains(x as u64) by {
                if list@.contains(x as u64) {
                    let j = choose|j: int| 0 <= j < list@.len() && list@[j] == x as u64;
                    assert(0 <= j < i && list@[j] == x as u64);
                }
            }
        }
        v.push(set);
        c += 1;
    }
    Some(v)
}

/// The list of one kind of a component.
pub open spec fn listed(c: RawComp, forward: bool) -> Seq<u64> {
    if forward {
        c.succ@
    } else {
        c.anc@
    }
}

/// A number is among the numbers as written exactly when it is among the numbers.
pub proof fn lemma_widened_contains(v: Seq<usize>)
    ensures
        forall|x: usize| v.contains(x) <==> #[trigger] widened(v).contains(x as u64),
{
    assert forall|x: usize| v.contains(x) <==> #[trigger] widened(v).contains(x as u64) by {
        if v.contains(x) {
            let i = choose|i: int| 0 <= i < v.len() && v[i] == x;
            assert(widened(v)[i] == x as u64);
        }
        if widened(v).contains(x as u64) {
            let i = choose|i: int| 0 <= i < widened(v).len() && widened(v)[i] == x as u64;
            assert(v[i] == x);
        }
    }
}

/// Whether what reaches each component is what the component is reached by.
fn check_transposed(
    raw: &Vec<RawComp>,
    succ: &Vec<CondensedEdges>,
    anc: &Vec<CondensedEdges>,
    Ghost(s): Ghost<Stored>,
) -> (r: bool)
    requires
        s.comps == comp_views(raw@),
        raw@.len() <= EDGE_CAPACITY,
        succ@.len() == raw@.len(),
        anc@.len() == raw@.len(),
        sets_ok(s),
        forall|c: int, x: usize|
            0 <= c < raw@.len() ==> (#[trigger] edge_set(succ@[c]).contains(x) <==> raw@[c].succ@.contains(
                x as u64,
            )),
        forall|c: int, x: usize|
            0 <= c < raw@.len() ==> (#[trigger] edge_set(anc@[c]).contains(x) <==> raw@[c].anc@.contains(
                x as u64,
            )),
    ensures
        r == transposed(s),
{
    let m = raw.len();
    let mut b: usize = 0;
    while b < m
        invariant
            b <= m,
            m == raw@.len(),
            m <= EDGE_CAPACITY,
            s.comps == comp_views(raw@),
            succ@.len() == m,
            anc@.len() == m,
            sets_ok(s),
            forall|c: int, x: usize|
                0 <= c < raw@.len() ==> (#[trigger] edge_set(anc@[c]).contains(x) <==> raw@[c].anc@.contains(
                    x as u64,
                )),
            forall|c: int, i: int|
                0 <= c < b && 0 <= i < raw@[c].succ@.len() ==> raw@[(
                #[trigger] raw@[c].succ@[i]) as int].anc@.contains(c as u64),
        decreases m - b,
    {
        let list = &raw[b].succ;
        let mut i: usize = 0;
        while i < list.len()
            invariant
                i <= list@.len(),
                b < m,
                m == raw@.len(),
                m <= EDGE_CAPACITY,
                list@ == raw@[b as int].succ@,
                s.comps == comp_views(raw@),
                anc@.len() == m,
                sets_ok(s),
                forall|c: int, x: usize|
                    0 <= c < raw@.len() ==> (#[trigger] edge_set(anc@[c]).contains(x) <==> raw@[c].anc@.contains(
                        x as u64,
                    )),
                forall|j: int|
                    0 <= j < i ==> raw@[(#[trigger] list@[j]) as int].anc@.contains(b as u64),
            decreases list@.len() - i,
        {
            let x = list[i];
            assert(s.comps[b as int].succ[i as int] == x);
            assert(x < m);
            if !edges_contains(&anc[x as usize], b) {
                proof {
                    assert(!raw@[x as int].anc@.contains(b as u64));
                    assert(s.comps[b as int].succ.contains(x));
                    assert(!s.comps[x as int].anc.contains(b as u64));
                }
                return false;
            }
            i += 1;
        }
        b += 1;
    }
    let mut a: usize = 0;
    while a < m
        invariant
            a <= m,
            m == raw@.len(),
            m <= EDGE_CAPACITY,
            s.comps == comp_views(raw@),
            succ@.len() == m,
            anc@.len() == m,
            sets_ok(s),
            forall|c: int, x: usize|
                0 <= c < raw@.len() ==> (#[trigger] edge_set(succ@[c]).contains(x) <==> raw@[c].succ@.contains(
                    x as u64,
                )),
            forall|c: int, i: int|
                0 <= c < m && 0 <= i < raw@[c].succ@.len() ==> raw@[(
                #[trigger] raw@[c].succ@[i]) as int].anc@.contains(c as u64),
            forall|c: int, i: int|
                0 <= c < a && 0 <= i < raw@[c].anc@.len() ==> raw@[(
                #[trigger] raw@[c].anc@[i]) as int].succ@.contains(c as u64),
        decreases m - a,
    {
        let list = &raw[a].anc;
        let mut i: usize = 0;
        while i < list.len()
            invariant
                i <= list@.len(),
                a < m,
                m == raw@.len(),
                m <= EDGE_CAPACITY,
                list@ == raw@[a as int].anc@,
                s.comps == comp_views(raw@),
                succ@.len() == m,
                sets_ok(s),
                forall|c: int, x: usize|
                    0 <= c < raw@.len() ==> (#[trigger] edge_set(succ@[c]).contains(x)
                        <==> raw@[c].succ@.contains(x as u64)),
                forall|j: int|
                    0 <= j < i ==> raw@[(#[trigger] list@[j]) as int].succ@.contains(a as u64),
            decreases list@.len() - i,
        {
            let y = list[i];
            assert(s.comps[a as int].anc[i as int] == y);
            assert(y < m);
            if !edges_contains(&succ[y as usize], a) {
                proof {
                    assert(!raw@[y as int].succ@.contains(a as u64));
                    assert(s.comps[a as int].anc.contains(y));
                    assert(!s.comps[y as int].succ.contains(a as u64));
                }
                return false;
            }
            i += 1;
        }
        a += 1;
    }
    proof {
        assert forall|a: int, b: int| 0 <= a < s.comps.len() && 0 <= b < s.comps.len() implies ((
        #[trigger] s.comps[a]).anc.contains(b as u64) <==> (#[trigger] s.comps[b]).succ.contains(
            a as u64,
        )) by {
            if s.comps[a].anc.contains(b as u64) {
                let i = choose|i: int| 0 <= i < raw@[a].anc@.len() && raw@[a].anc@[i] == b as u64;
                assert(raw@[raw@[a].anc@[i] as int].succ@.contains(a as u64));
            }
            if s.comps[b].succ.contains(a as u64) {
                let i = choose|i: int| 0 <= i < raw@[b].succ@.len() && raw@[b].succ@[i] == a as u64;
                assert(raw@[raw@[b].succ@[i] as int].anc@.contains(b as u64));
            }
        }
    }
    true
}

/// The unresolved imports, as far as they name modules that are there.
fn build_unresolved(rows: &Vec<(String, Vec<u64>)>, n: usize, Ghost(s): Ghost<Stored>) -> (r:
    Option<Unresolved>)
    requires
        s.unresolved == row_views(rows@),
        s.entries.len() == n,
        n <= u32::MAX,
    ensures
        match r {
            Some(u) => u.wf() && rows_below(u@, n as nat) && refs_ok(s) && forall|
                p: Seq<char>,
                x: ModuleRef,
            |
                is_recorded(u@, p, x) <==> raw_recorded(s.unresolved, p, x as u64),
            None => !refs_ok(s),
        },
{
    let mut u = Unresolved::new();
    let ghost all = row_views(rows@);
    let mut r: usize = 0;
    proof {
        assert forall|p: Seq<char>, x: ModuleRef| is_recorded(u@, p, x) <==> raw_recorded(
            all.take(0),
            p,
            x as u64,
        ) by {}
    }
    while r < rows.len()
        invariant
            r <= rows@.len(),
            all == row_views(rows@),
            s.unresolved == all,
            s.entries.len() == n,
            n <= u32::MAX,
            u.wf(),
            rows_below(u@, n as nat),
            forall|a: int, j: int|
                0 <= a < r && 0 <= j < all[a].1.len() ==> (#[trigger] all[a].1[j]) < n,
            forall|p: Seq<char>, x: ModuleRef|
                #[trigger] is_recorded(u@, p, x) <==> raw_recorded(all.take(r as int), p, x as u64),
        decreases rows@.len() - r,
    {
        let path = rows[r].0.as_str();
        let refs = &rows[r].1;
        let ghost start = u@;
        let mut i: usize = 0;
        while i < refs.len()
            invariant
                i <= refs@.len(),
                r < rows@.len(),
                all == row_views(rows@),
                s.unresolved == all,
                s.entries.len() == n,
                n <= u32::MAX,
                refs@ == rows@[r as int].1@,
                path@ == rows@[r as int].0@,
                u.wf(),
                rows_below(u@, n as nat),
                forall|j: int| 0 <= j < i ==> (#[trigger] refs@[j]) < n,
                forall|p: Seq<char>, x: ModuleRef|
                    #[trigger] is_recorded(u@, p, x) <==> is_recorded(start, p, x) || (p == path@
                        && refs@.take(i as int).contains(x as u64)),
            decreases refs@.len() - i,
        {
            let x = refs[i];
            if x >= n as u64 {
                proof {
                    assert(s.unresolved[r as int].1[i as int] == x);
                }
                return None;
            }
            let ghost before = u@;
            u.record(path, x as ModuleRef);
            proof {
                let t0 = refs@.take(i as int);
                let t1 = refs@.take(i + 1);
                assert(t1 =~= t0.push(x));
                assert forall|p: Seq<char>, y: ModuleRef|
                    #[trigger] is_recorded(u@, p, y) <==> is_recorded(start, p, y) || (p == path@
                        && t1.contains(y as u64)) by {
                    assert(is_recorded(u@, p, y) <==> is_recorded(before, p, y) || (p == path@ && y
                        == x as ModuleRef));
                    assert(is_recorded(before, p, y) <==> is_recorded(start, p, y) || (p == path@
                        && t0.contains(y as u64)));
                    if t1.contains(y as u64) {
                        let j = choose|j: int| 0 <= j < t1.len() && t1[j] == y as u64;
                        if j < i {
                            assert(t0[j] == y as u64);
                        }
                    }
                    if t0.contains(y as u64) {
                        let j = choose|j: int| 0 <= j < t0.len() && t0[j] == y as u64;
                        assert(t1[j] == y as u64);
                    }
                    if y == x as ModuleRef {
                        assert(t1[i as int] == y as u64);
                    }
                }
            }
            i += 1;
        }
        proof {
            let done = all.take(r as int);
            let next = all.take(r + 1);
            assert(next[r as int] == (path@, refs@));
            assert(refs@.take(refs@.len() as int) =~= refs@);
            assert forall|p: Seq<char>, x: ModuleRef| #[trigger] is_recorded(u@, p, x)
                <==> raw_recorded(next, p, x as u64) by {
                assert(is_recorded(u@, p, x) <==> is_recorded(start, p, x) || (p == path@
                    && refs@.contains(x as u64)));
                assert(is_recorded(start, p, x) <==> raw_recorded(done, p, x as u64));
                if raw_recorded(next, p, x as u64) {
                    let t = choose|t: int|
                        0 <= t < next.len() && (#[trigger] next[t]).0 == p && next[t].1.contains(
                            x as u64,
                        );
                    if t < r {
                        assert(done[t] == next[t]);
                        assert(raw_recorded(done, p, x as u64));
                    }
                }
                if raw_recorded(done, p, x as u64) {
                    let t = choose|t: int|
                        0 <= t < done.len() && (#[trigger] done[t]).0 == p && done[t].1.contains(
                            x as u64,
                        );
                    assert(next[t] == done[t]);
                    assert(raw_recorded(next, p, x as u64));
                }
                if p == path@ && refs@.contains(x as u64) {
                    assert(next[r as int].0 == p && next[r as int].1.contains(x as u64));
                    assert(raw_recorded(next, p, x as u64));
                }
            }
        }
        r += 1;
    }
    proof {
        assert(all.take(rows@.len() as int) =~= all);
    }
    Some(u)
}

/// Why bytes are no graph.
#[derive(Debug, PartialEq, Eq, Clone, Copy)]
pub enum LoadError {
    /// The bytes are no compressed frame.
    Frame,
    /// The bytes end early, or hold what is no integer or no string where one is due.
    Malformed,
    /// The counts and numbers of the file do not agree with each other.
    Inconsistent,
}

impl TransitiveClosure {
    /// The closure holds what `s` holds.
    pub open spec fn holds(&self, s: Stored) -> bool {
        &&& self.entries() == s.entries
        &&& widened(self.component_of()) == s.comp
        &&& self.members().len() == s.comps.len()
        &&& forall|c: int|
            0 <= c < s.comps.len() ==> widened_refs(self.members()[c]) == (
            #[trigger] s.comps[c]).members
        &&& forall|c: int, x: usize|
            0 <= c < s.comps.len() ==> (#[trigger] self.successors()[c].contains(x)
                <==> s.comps[c].succ.contains(x as u64))
        &&& forall|c: int, x: usize|
            0 <= c < s.comps.len() ==> (#[trigger] self.ancestors()[c].contains(x)
                <==> s.comps[c].anc.contains(x as u64))
        &&& forall|p: Seq<char>, x: ModuleRef|
            is_recorded(self.unresolved_imports()@, p, x) <==> raw_recorded(
                s.unresolved,
                p,
                x as u64,
            )
    }

    /// The closure that `raw` holds, where its counts and numbers agree with each
    /// other.
    pub fn build(raw: RawGraph, sep: char) -> (r: Option<TransitiveClosure>)
        ensures
            match r {
                Some(tc) => tc.wf() && tc.cache().separator() == sep && tc.holds(raw@)
                    && consistent(raw@, sep),
                None => !consistent(raw@, sep),
            },
    {
        let ghost s = raw@;
        let cache = match ModuleRefCache::from_values(&raw.entries, sep) {
            Ok(c) => c,
            Err(_) => {
                return None;
            },
        };
        let n = cache.max_value() as usize;
        let m = raw.comps.len();
        if m > EDGE_CAPACITY {
            return None;
        }
        let comp = match narrow_comp(&raw.comp, n, m) {
            Some(c) => c,
            None => {
                return None;
            },
        };
        let members = match build_members(&raw.comps, &comp, n, Ghost(s)) {
            Some(ms) => ms,
            None => {
                return None;
            },
        };
        let succ = match build_sets(&raw.comps, true) {
            Some(v) => v,
            None => {
                proof {
                    let (c, i) = choose|c: int, i: int|
                        0 <= c < raw.comps@.len() && 0 <= i < listed(raw.comps@[c], true).len()
                            && #[trigger] listed(raw.comps@[c], true)[i] >= raw.comps@.len();
                    assert(s.comps[c].succ[i] >= s.comps.len());
                }
                return None;
            },
        };
        let anc = match build_sets(&raw.comps, false) {
            Some(v) => v,
            None => {
                proof {
                    let (c, i) = choose|c: int, i: int|
                        0 <= c < raw.comps@.len() && 0 <= i < listed(raw.comps@[c], false).len()
                            && #[trigger] listed(raw.comps@[c], false)[i] >= raw.comps@.len();
                    assert(s.comps[c].anc[i] >= s.comps.len());
                }
                return None;
            },
        };
        proof {
            assert forall|c: int, i: int|
                0 <= c < s.comps.len() && 0 <= i < s.comps[c].succ.len() implies (
            #[trigger] s.comps[c].succ[i]) < s.comps.len() by {
                assert(listed(raw.comps@[c], true)[i] < raw.comps@.len());
            }
            assert forall|c: int, i: int|
                0 <= c < s.comps.len() && 0 <= i < s.comps[c].anc.len() implies (
            #[trigger] s.comps[c].anc[i]) < s.comps.len() by {
                assert(listed(raw.comps@[c], false)[i] < raw.comps@.len());
            }
            assert(sets_ok(s));
            assert forall|c: int, x: usize| 0 <= c < raw.comps@.len() implies (
            #[trigger] edge_set(succ@[c]).contains(x) <==> raw.comps@[c].succ@.contains(
                x as u64,
            )) by {
                assert(listed(raw.comps@[c], true) == raw.comps@[c].succ@);
            }
            assert forall|c: int, x: usize| 0 <= c < raw.comps@.len() implies (
            #[trigger] edge_set(anc@[c]).contains(x) <==> raw.comps@[c].anc@.contains(
                x as u64,
            )) by {
                assert(listed(raw.comps@[c], false) == raw.comps@[c].anc@);
            }
        }
        if !check_transposed(&raw.comps, &succ, &anc, Ghost(s)) {
            return None;
        }
        let unresolved = match build_unresolved(&raw.unresolved, n, Ghost(s)) {
            Some(u) => u,
            None => {
                return None;
            },
        };
        let tc = TransitiveClosure {
            module_refs: cache,
            mod_to_condensed: comp,
            condensed_to_mod: members,
            successor: succ,
            ancestor: anc,
            unresolved,
        };
        proof {
            tc.lemma_fields();
            let r = tc.reach();
            assert forall|c: int, x: usize| 0 <= c < m && #[trigger] r.succ[c].contains(x) implies x
                < m by {
                assert(edge_set(succ@[c]).contains(x));
                let i = choose|i: int|
                    0 <= i < raw.comps@[c].succ@.len() && raw.comps@[c].succ@[i] == x as u64;
                assert(s.comps[c].succ[i] == x as u64);
            }
            assert forall|c: int, x: usize| 0 <= c < m && #[trigger] r.anc[c].contains(x) implies x
                < m by {
                assert(edge_set(anc@[c]).contains(x));
                let i = choose|i: int|
                    0 <= i < raw.comps@[c].anc@.len() && raw.comps@[c].anc@[i] == x as u64;
                assert(s.comps[c].anc[i] == x as u64);
            }
            assert forall|a: usize, b: usize| a < m && b < m implies (#[trigger] r.anc[a as int].contains(
                b,
            ) <==> #[trigger] r.succ[b as int].contains(a)) by {
                assert(r.anc[a as int] == edge_set(anc@[a as int]));
                assert(r.succ[b as int] == edge_set(succ@[b as int]));
                assert(s.comps[a as int].anc.contains(b as u64) <==> s.comps[b as int].succ.contains(
                    a as u64,
                ));
            }
            assert(reach_inv(r, m as nat));
            assert forall|c: int| 0 <= c < s.comps.len() implies widened_refs(tc.members()[c]) == (
            #[trigger] s.comps[c]).members by {
                assert(tc.members()[c] == members@[c]@);
            }
            assert forall|c: int, x: usize| 0 <= c < s.comps.len() implies (
            #[trigger] tc.successors()[c].contains(x) <==> s.comps[c].succ.contains(x as u64)) by {
                assert(tc.successors()[c] == edge_set(succ@[c]));
            }
            assert forall|c: int, x: usize| 0 <= c < s.comps.len() implies (
            #[trigger] tc.ancestors()[c].contains(x) <==> s.comps[c].anc.contains(x as u64)) by {
                assert(tc.ancestors()[c] == edge_set(anc@[c]));
            }
        }
        Some(tc)
    }
}

} // verus!
