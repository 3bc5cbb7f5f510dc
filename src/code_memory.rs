use vstd::prelude::*;

use crate::page::os_page_size;
use crate::unwind_record::{handler_record, record_bytes, HANDLER_RECORD_LEN};

verus! {

/// The smallest mapping the arena opens: one opening serves many functions.
pub const MIN_CHUNK: usize = 0x10000;

/// The protection a mapping is in.
#[derive(Clone, Copy, Debug, PartialEq, Eq, Structural)]
pub enum Protection {
    ReadWrite,
    ReadExecute,
}

/// How faults inside generated code reach the host.
#[derive(Clone, Copy, Debug, PartialEq, Eq, Structural)]
pub enum FaultRouting {
    /// Faults arrive as signals: mappings need nothing in them.
    Signals,
    /// Faults are dispatched through registered unwind tables: each mapping
    /// starts with a record whose thunk jumps to the native `handler`.
    Table { handler: u64 },
}

/// A byte range handed out by the arena: `len` bytes from `start` in the
/// mapping with index `mapping`.
#[derive(Clone, Copy, Debug, PartialEq, Eq, Structural)]
pub struct CodeRange {
    pub mapping: usize,
    pub start: usize,
    pub len: usize,
}

/// A mapping as the contracts see it: its bytes and its protection.
pub struct MappingView {
    pub bytes: Seq<u8>,
    pub protection: Protection,
}

/// The arena as the contracts see it. Mappings in `list` keep their index
/// for the arena's lifetime; `current` has index `list.len()`.
pub struct ArenaView {
    pub list: Seq<MappingView>,
    pub current: MappingView,
    pub position: nat,
    pub published: nat,
    pub page_size: nat,
    pub routing: FaultRouting,
}

/// Memory manager for executable code: a list of mappings, the mapping
/// being filled and the write cursor in it, and how many mappings of the
/// list have been made read-execute.
pub struct CodeMemory {
    current: Vec<u8>,
    mmaps: Vec<Vec<u8>>,
    position: usize,
    published: usize,
    page_size: usize,
    routing: FaultRouting,
}

pub open spec fn zeros(n: nat) -> Seq<u8> {
    Seq::new(n, |i: int| 0u8)
}

/// `n` rounded up to a multiple of `p`; a page size of zero leaves it as is.
pub open spec fn round_up(n: nat, p: nat) -> nat {
    if p == 0 || n % p == 0 {
        n
    } else {
        (n / p + 1) * p
    }
}

/// Bytes at the head of each new mapping that no allocation gets.
pub open spec fn header_len(v: ArenaView) -> nat {
    match v.routing {
        FaultRouting::Signals => 0,
        FaultRouting::Table { .. } => if v.page_size >= HANDLER_RECORD_LEN {
            v.page_size
        } else {
            HANDLER_RECORD_LEN as nat
        },
    }
}

/// Length of the mapping opened for an allocation of `size` bytes that the
/// current mapping cannot hold, or `None` when it cannot be represented.
pub open spec fn chunk_len(v: ArenaView, size: nat) -> Option<nat> {
    let needed = size + header_len(v);
    let len = round_up(if needed > MIN_CHUNK { needed } else { MIN_CHUNK as nat }, v.page_size);
    if len > usize::MAX || (v.routing is Table && len > u32::MAX) {
        None
    } else {
        Some(len)
    }
}

/// Contents of a freshly opened mapping of `len` bytes.
pub open spec fn fresh_bytes(v: ArenaView, len: nat) -> Seq<u8> {
    match v.routing {
        FaultRouting::Signals => zeros(len),
        FaultRouting::Table { handler } => record_bytes(header_len(v), len, handler as nat) + zeros(
            (len - HANDLER_RECORD_LEN) as nat,
        ),
    }
}

pub open spec fn fits(v: ArenaView, size: nat) -> bool {
    v.position + size <= v.current.bytes.len()
}

/// The arena and the range after `allocate(size)`, or `None` when it fails.
/// A range that fits goes at the cursor; otherwise the current mapping is
/// closed (kept in the list unless it is empty) and a new one opened.
pub open spec fn after_allocate(v: ArenaView, size: nat) -> Option<(ArenaView, CodeRange)> {
    if fits(v, size) {
        Some(
            (
                ArenaView { position: v.position + size, ..v },
                CodeRange {
                    mapping: v.list.len() as usize,
                    start: v.position as usize,
                    len: size as usize,
                },
            ),
        )
    } else {
        match chunk_len(v, size) {
            None => None,
            Some(len) => {
                let list = if v.current.bytes.len() > 0 {
                    v.list.push(v.current)
                } else {
                    v.list
                };
                Some(
                    (
                        ArenaView {
                            list,
                            current: MappingView {
                                bytes: fresh_bytes(v, len),
                                protection: Protection::ReadWrite,
                            },
                            position: header_len(v) + size,
                            ..v
                        },
                        CodeRange {
                            mapping: list.len() as usize,
                            start: header_len(v) as usize,
                            len: size as usize,
                        },
                    ),
                )
            },
        }
    }
}

/// `s` with the bytes from `at` on replaced by `b`.
pub open spec fn splice(s: Seq<u8>, at: nat, b: Seq<u8>) -> Seq<u8> {
    s.subrange(0, at as int) + b + s.subrange((at + b.len()) as int, s.len() as int)
}

/// The arena with `b` written into the current mapping at `at`.
pub open spec fn write_current(v: ArenaView, at: nat, b: Seq<u8>) -> ArenaView {
    ArenaView { current: MappingView { bytes: splice(v.current.bytes, at, b), ..v.current }, ..v }
}

/// The mapping with index `i`.
pub open spec fn mapping_at(v: ArenaView, i: nat) -> MappingView {
    if i < v.list.len() {
        v.list[i as int]
    } else {
        v.current
    }
}

pub open spec fn valid_range(v: ArenaView, r: CodeRange) -> bool {
    r.mapping <= v.list.len() && r.start + r.len <= mapping_at(v, r.mapping as nat).bytes.len()
}

/// The bytes a range covers.
pub open spec fn range_bytes(v: ArenaView, r: CodeRange) -> Seq<u8> {
    mapping_at(v, r.mapping as nat).bytes.subrange(r.start as int, r.start + r.len)
}

/// The arena after `publish()`: the current mapping joins the list unless
/// it is empty, every mapping of the list is read-execute, and a new empty
/// mapping is started.
pub open spec fn after_publish(v: ArenaView) -> ArenaView {
    let list = if v.current.bytes.len() > 0 {
        v.list.push(v.current)
    } else {
        v.list
    };
    ArenaView {
        list: Seq::new(
            list.len(),
            |i: int| MappingView { bytes: list[i].bytes, protection: Protection::ReadExecute },
        ),
        current: MappingView { bytes: Seq::empty(), protection: Protection::ReadWrite },
        position: 0,
        published: list.len(),
        ..v
    }
}

/// Well-formedness: the cursor lies inside the current mapping, the list
/// holds no empty mapping, exactly its first `published` mappings are
/// read-execute, and the current one is writable.
pub open spec fn arena_wf(v: ArenaView) -> bool {
    &&& v.position <= v.current.bytes.len()
    &&& v.current.bytes.len() <= usize::MAX
    &&& v.published <= v.list.len()
    &&& v.current.protection == Protection::ReadWrite
    &&& v.page_size <= usize::MAX
    &&& forall|i: int|
        0 <= i < v.list.len() ==> {
            &&& v.list[i].bytes.len() > 0
            &&& (v.list[i].protection == Protection::ReadExecute <==> i < v.published)
        }
}

/// The bytes of each slice of `slices`.
pub open spec fn contents(slices: Seq<&[u8]>) -> Seq<Seq<u8>> {
    Seq::new(slices.len(), |i: int| slices[i]@)
}

/// The sequences of `s` joined in order.
pub open spec fn concat_all(s: Seq<Seq<u8>>) -> Seq<u8>
    decreases s.len(),
{
    if s.len() == 0 {
        Seq::empty()
    } else {
        concat_all(s.drop_last()) + s.last()
    }
}

/// Where the `k`-th sequence of `s` starts in `concat_all(s)`.
pub open spec fn offset_of(s: Seq<Seq<u8>>, k: int) -> nat {
    concat_all(s.take(k)).len()
}

/// The ranges that a batch copy hands out inside `block`: one per input, in
/// input order, each starting where the previous one ends.
pub open spec fn batch_ranges(s: Seq<Seq<u8>>, block: CodeRange) -> Seq<CodeRange> {
    Seq::new(
        s.len(),
        |k: int|
            CodeRange {
                mapping: block.mapping,
                start: (block.start + offset_of(s, k)) as usize,
                len: s[k].len() as usize,
            },
    )
}

/// `concat_all` of a prefix of `s` is a prefix of `concat_all(s)`.
pub proof fn lemma_concat_prefix(s: Seq<Seq<u8>>, k: int)
    requires
        0 <= k <= s.len(),
    ensures
        offset_of(s, k) <= concat_all(s).len(),
        concat_all(s).subrange(0, offset_of(s, k) as int) == concat_all(s.take(k)),
    decreases s.len(),
{
    if k == s.len() {
        assert(s.take(k) =~= s);
        assert(concat_all(s).subrange(0, offset_of(s, k) as int) =~= concat_all(s));
    } else {
        let d = s.drop_last();
        assert(d.take(k) =~= s.take(k));
        lemma_concat_prefix(d, k);
        assert(concat_all(s).subrange(0, offset_of(s, k) as int) =~= concat_all(d).subrange(
            0,
            offset_of(s, k) as int,
        ));
    }
}

/// One more element of the prefix adds exactly that element.
pub proof fn lemma_concat_step(s: Seq<Seq<u8>>, k: int)
    requires
        0 <= k < s.len(),
    ensures
        concat_all(s.take(k + 1)) == concat_all(s.take(k)) + s[k],
{
    assert(s.take(k + 1).drop_last() =~= s.take(k));
}

/// A range the arena has handed out: it lies in a mapping of the arena,
/// below the cursor when that mapping is the current one.
pub open spec fn issued(v: ArenaView, q: CodeRange) -> bool {
    &&& valid_range(v, q)
    &&& q.mapping == v.list.len() ==> q.start + q.len <= v.position
}

pub open spec fn disjoint(a: CodeRange, b: CodeRange) -> bool {
    a.mapping != b.mapping || a.start + a.len <= b.start || b.start + b.len <= a.start
}

proof fn lemma_fresh_len(v: ArenaView, size: nat)
    requires
        arena_wf(v),
        chunk_len(v, size) is Some,
    ensures
        fresh_bytes(v, chunk_len(v, size)->Some_0).len() == chunk_len(v, size)->Some_0,
        header_len(v) + size <= chunk_len(v, size)->Some_0,
{
    let needed = size + header_len(v);
    lemma_round_up_ge(if needed > MIN_CHUNK { needed } else { MIN_CHUNK as nat }, v.page_size);
}

/// What `allocate` leaves behind when it succeeds: a well-formed arena whose
/// cursor sits just past the new range, in the current mapping, with the
/// published count untouched.
pub proof fn lemma_allocate_shape(v: ArenaView, size: nat)
    requires
        arena_wf(v),
        v.list.len() < usize::MAX,
        size <= usize::MAX,
        after_allocate(v, size) is Some,
    ensures
        ({
            let (w, r) = after_allocate(v, size)->Some_0;
            &&& arena_wf(w)
            &&& r.mapping == w.list.len()
            &&& r.len == size
            &&& r.start + size == w.position
            &&& w.published == v.published
            &&& w.page_size == v.page_size
            &&& w.routing == v.routing
        }),
{
    if !fits(v, size) {
        lemma_fresh_len(v, size);
    }
}

/// Every successful allocation has exactly the requested length and is
/// disjoint from every range handed out before it, whose bytes it leaves
/// as they were.
pub proof fn lemma_allocations_disjoint(v: ArenaView, size: nat, q: CodeRange)
    requires
        arena_wf(v),
        v.list.len() < usize::MAX,
        size <= usize::MAX,
        issued(v, q),
        after_allocate(v, size) is Some,
    ensures
        ({
            let (w, r) = after_allocate(v, size)->Some_0;
            &&& r.len == size
            &&& issued(w, r)
            &&& issued(w, q)
            &&& disjoint(r, q)
            &&& range_bytes(w, q) == range_bytes(v, q)
        }),
{
    lemma_allocate_shape(v, size);
    let (w, r) = after_allocate(v, size)->Some_0;
    if !fits(v, size) && q.mapping == v.list.len() {
        if v.current.bytes.len() > 0 {
            assert(w.list[q.mapping as int] == v.current);
        } else {
            assert(range_bytes(w, q) =~= range_bytes(v, q));
        }
    }
}

/// An allocation never lands in a mapping that is already published, and
/// leaves the published count as it was, so no later allocation does either.
pub proof fn lemma_allocate_after_published(v: ArenaView, size: nat)
    requires
        arena_wf(v),
        v.list.len() < usize::MAX,
        size <= usize::MAX,
        after_allocate(v, size) is Some,
    ensures
        ({
            let (w, r) = after_allocate(v, size)->Some_0;
            &&& r.mapping >= v.published
            &&& w.published == v.published
            &&& mapping_at(w, r.mapping as nat).protection == Protection::ReadWrite
        }),
{
    lemma_allocate_shape(v, size);
}

/// After `publish`, every mapping that holds an allocation is read-execute
/// and counted as published, and the next allocation goes to a mapping past
/// all published ones.
pub proof fn lemma_publish_covers_allocations(v: ArenaView, q: CodeRange, size: nat)
    requires
        arena_wf(v),
        v.list.len() + 1 < usize::MAX,
        issued(v, q),
        q.len > 0,
        size <= usize::MAX,
    ensures
        arena_wf(after_publish(v)),
        q.mapping < after_publish(v).published,
        mapping_at(after_publish(v), q.mapping as nat).protection == Protection::ReadExecute,
        range_bytes(after_publish(v), q) == range_bytes(v, q),
        after_allocate(after_publish(v), size) matches Some((w, r)) ==> r.mapping
            >= after_publish(v).published,
{
    let p = after_publish(v);
    if q.mapping == v.list.len() {
        assert(p.list[q.mapping as int].bytes == v.current.bytes);
    }
    if after_allocate(p, size) is Some {
        lemma_allocate_after_published(p, size);
    }
}

/// Bytes copied in by `allocate_copy_of_byte_slice` read back unchanged.
pub proof fn lemma_copy_read_back(v: ArenaView, bytes: Seq<u8>)
    requires
        arena_wf(v),
        v.list.len() < usize::MAX,
        bytes.len() <= usize::MAX,
        after_allocate(v, bytes.len()) is Some,
    ensures
        ({
            let (mid, r) = after_allocate(v, bytes.len())->Some_0;
            range_bytes(write_current(mid, r.start as nat, bytes), r) == bytes
        }),
{
    lemma_allocate_shape(v, bytes.len());
    let (mid, r) = after_allocate(v, bytes.len())->Some_0;
    assert(range_bytes(write_current(mid, r.start as nat, bytes), r) =~= bytes);
}

/// The ranges of a batch copy hold the inputs, in input order, one right
/// after the other in a single mapping; joined they hold the inputs joined.
pub proof fn lemma_batch_views(v: ArenaView, s: Seq<Seq<u8>>)
    requires
        arena_wf(v),
        v.list.len() < usize::MAX,
        concat_all(s).len() <= usize::MAX,
        after_allocate(v, concat_all(s).len()) is Some,
    ensures
        ({
            let (mid, block) = after_allocate(v, concat_all(s).len())->Some_0;
            let w = write_current(mid, block.start as nat, concat_all(s));
            let rs = batch_ranges(s, block);
            &&& rs.len() == s.len()
            &&& forall|k: int| 0 <= k < s.len() ==> range_bytes(w, #[trigger] rs[k]) == s[k]
            &&& forall|k: int|
                0 <= k < s.len() ==> #[trigger] rs[k].mapping == block.mapping
            &&& s.len() > 0 ==> rs[0].start == block.start
            &&& forall|k: int|
                0 <= k < s.len() - 1 ==> #[trigger] rs[k + 1].start == rs[k].start + rs[k].len
            &&& range_bytes(w, block) == concat_all(s)
        }),
{
    let x = concat_all(s);
    lemma_allocate_shape(v, x.len());
    let (mid, block) = after_allocate(v, x.len())->Some_0;
    let w = write_current(mid, block.start as nat, x);
    let rs = batch_ranges(s, block);
    assert forall|k: int| 0 <= k < s.len() implies range_bytes(w, #[trigger] rs[k]) == s[k] by {
        lemma_concat_step(s, k);
        lemma_concat_prefix(s, k + 1);
        lemma_concat_prefix(s, k);
        let a = offset_of(s, k);
        let b = offset_of(s, k + 1);
        assert(x.subrange(a as int, b as int) =~= concat_all(s.take(k + 1)).subrange(
            a as int,
            b as int,
        ));
        assert(range_bytes(w, rs[k]) =~= x.subrange(a as int, b as int));
        assert(concat_all(s.take(k + 1)).subrange(a as int, b as int) =~= s[k]);
    }
    assert forall|k: int| 0 <= k < s.len() - 1 implies #[trigger] rs[k + 1].start == rs[k].start
        + rs[k].len by {
        lemma_concat_step(s, k);
        lemma_concat_prefix(s, k + 1);
    }
    if s.len() > 0 {
        assert(s.take(0) =~= Seq::<Seq<u8>>::empty());
    }
    assert(range_bytes(w, block) =~= x);
}

impl View for CodeMemory {
    type V = ArenaView;

    closed spec fn view(&self) -> ArenaView {
        ArenaView {
            list: Seq::new(
                self.mmaps@.len(),
                |i: int|
                    MappingView {
                        bytes: self.mmaps@[i]@,
                        protection: if i < self.published {
                            Protection::ReadExecute
                        } else {
                            Protection::ReadWrite
                        },
                    },
            ),
            current: MappingView { bytes: self.current@, protection: Protection::ReadWrite },
            position: self.position as nat,
            published: self.published as nat,
            page_size: self.page_size as nat,
            routing: self.routing,
        }
    }
}

fn zeroed(len: usize) -> (r: Vec<u8>)
    ensures
        r@ == zeros(len as nat),
{
    let mut v: Vec<u8> = Vec::with_capacity(len);
    let mut i: usize = 0;
    while i < len
        invariant
            i <= len,
            v@ == zeros(i as nat),
        decreases len - i,
    {
        v.push(0u8);
        i = i + 1;
        assert(v@ =~= zeros(i as nat));
    }
    v
}

/// Copies `src` into `dst` at `at`.
fn write_bytes(dst: &mut Vec<u8>, at: usize, src: &[u8])
    requires
        at + src@.len() <= old(dst)@.len(),
    ensures
        final(dst)@ == splice(old(dst)@, at as nat, src@),
{
    let dst_len = dst.len();
    let mut i: usize = 0;
    while i < src.len()
        invariant
            i <= src@.len(),
            dst@.len() == dst_len,
            dst_len == old(dst)@.len(),
            at + src@.len() <= dst_len,
            dst@ == splice(old(dst)@, at as nat, src@.subrange(0, i as int)),
        decreases src@.len() - i,
    {
        dst.set(at + i, src[i]);
        proof {
            let done = src@.subrange(0, i + 1);
            assert(done =~= src@.subrange(0, i as int).push(src@[i as int]));
        }
        i = i + 1;
        assert(dst@ =~= splice(old(dst)@, at as nat, src@.subrange(0, i as int)));
    }
    assert(src@.subrange(0, i as int) =~= src@);
}

proof fn lemma_round_up_ge(n: nat, p: nat)
    ensures
        round_up(n, p) >= n,
{
    if p != 0 && n % p != 0 {
        assert(n < (n / p + 1) * p) by (nonlinear_arith)
            requires
                p > 0,
                n % p != 0,
        {
            assert(n == (n / p) * p + n % p);
        }
    }
}

fn round_up_exec(n: usize, p: usize) -> (r: Option<usize>)
    ensures
        r == (if round_up(n as nat, p as nat) <= usize::MAX {
            Some(round_up(n as nat, p as nat) as usize)
        } else {
            None
        }),
{
    if p == 0 || n % p == 0 {
        Some(n)
    } else {
        let q = n / p;
        if q == usize::MAX {
            assert((q + 1) * p >= q + 1) by (nonlinear_arith)
                requires
                    p >= 1,
            ;
            None
        } else {
            (q + 1).checked_mul(p)
        }
    }
}

impl CodeMemory {
    pub open spec fn wf(&self) -> bool {
        arena_wf(self@)
    }

    /// An empty arena for a system with pages of `page_size` bytes.
    pub fn with_page_size(page_size: usize, routing: FaultRouting) -> (r: CodeMemory)
        ensures
            r.wf(),
            r@.list.len() == 0,
            r@.current == (MappingView { bytes: Seq::empty(), protection: Protection::ReadWrite }),
            r@.position == 0,
            r@.published == 0,
            r@.page_size == page_size,
            r@.routing == routing,
    {
        let r = CodeMemory {
            current: Vec::new(),
            mmaps: Vec::new(),
            position: 0,
            published: 0,
            page_size,
            routing,
        };
        assert(r@.list =~= Seq::<MappingView>::empty());
        assert(r@.current.bytes =~= Seq::<u8>::empty());
        r
    }

    /// An empty arena that routes faults as `routing` says, sized to the
    /// operating system's pages.
    pub fn with_fault_routing(routing: FaultRouting) -> (r: CodeMemory)
        ensures
            r.wf(),
            r@.list.len() == 0,
            r@.current == (MappingView { bytes: Seq::empty(), protection: Protection::ReadWrite }),
            r@.position == 0,
            r@.published == 0,
            r@.routing == routing,
    {
        CodeMemory::with_page_size(os_page_size(), routing)
    }

    /// An empty arena for signal-based fault delivery.
    pub fn new() -> (r: CodeMemory)
        ensures
            r.wf(),
            r@.list.len() == 0,
            r@.current == (MappingView { bytes: Seq::empty(), protection: Protection::ReadWrite }),
            r@.position == 0,
            r@.published == 0,
            r@.routing == FaultRouting::Signals,
    {
        CodeMemory::with_fault_routing(FaultRouting::Signals)
    }

    fn header_len_exec(&self) -> (r: usize)
        requires
            self.wf(),
        ensures
            r == header_len(self@),
    {
        match self.routing {
            FaultRouting::Signals => 0,
            FaultRouting::Table { .. } => if self.page_size >= HANDLER_RECORD_LEN {
                self.page_size
            } else {
                HANDLER_RECORD_LEN
            },
        }
    }

    /// Contents of a new mapping of `len` bytes.
    fn fresh_mapping(&self, len: usize) -> (r: Vec<u8>)
        requires
            self.wf(),
            self@.routing is Table ==> header_len(self@) <= len <= u32::MAX,
        ensures
            r@ == fresh_bytes(self@, len as nat),
    {
        let mut data = zeroed(len);
        match self.routing {
            FaultRouting::Signals => {},
            FaultRouting::Table { handler } => {
                let header = self.header_len_exec();
                let record = handler_record(header as u32, len as u32, handler);
                write_bytes(&mut data, 0, record.as_slice());
                assert(data@ =~= fresh_bytes(self@, len as nat));
            },
        }
        data
    }

    /// Reserves `size` writable bytes for code. When the current mapping
    /// cannot hold them, it is closed and a mapping of at least
    /// `max(MIN_CHUNK, size + header)` bytes is opened (the header being the
    /// room a fault-routing record needs), so the range never spans two
    /// mappings. Fails, leaving the arena as it was, when that mapping's
    /// length cannot be represented.
    pub fn allocate(&mut self, size: usize) -> (r: Result<CodeRange, String>)
        requires
            old(self).wf(),
        ensures
            final(self).wf(),
            match after_allocate(old(self)@, size as nat) {
                None => r is Err && final(self)@ == old(self)@,
                Some((v, range)) => r == Ok::<CodeRange, String>(range) && final(self)@ == v,
            },
    {
        let ghost v = self@;
        if self.current.len() - self.position < size {
            let header = self.header_len_exec();
            if size > usize::MAX - header {
                proof {
                    let needed = size + header;
                    lemma_round_up_ge(
                        if needed > MIN_CHUNK { needed as nat } else { MIN_CHUNK as nat },
                        self.page_size as nat,
                    );
                }
                return Err(String::from_str("code allocation size overflow"));
            }
            let needed = size + header;
            let base = if needed > MIN_CHUNK {
                needed
            } else {
                MIN_CHUNK
            };
            let len = match round_up_exec(base, self.page_size) {
                Some(len) => len,
                None => {
                    return Err(String::from_str("code allocation size overflow"));
                },
            };
            if matches!(self.routing, FaultRouting::Table { .. }) && len > 0xffff_ffffusize {
                return Err(String::from_str("mapping too large for an unwind table"));
            }
            proof {
                lemma_round_up_ge(base as nat, self.page_size as nat);
            }
            let mut fresh = self.fresh_mapping(len);
            std::mem::swap(&mut self.current, &mut fresh);
            if fresh.len() > 0 {
                self.mmaps.push(fresh);
            }
            self.position = header;
            proof {
                let (w, _) = after_allocate(v, size as nat).unwrap();
                assert(self@.list =~= w.list);
            }
        }
        let start = self.position;
        self.position = start + size;
        Ok(CodeRange { mapping: self.mmaps.len(), start, len: size })
    }

    /// Reserves room for `slice` and copies it in.
    pub fn allocate_copy_of_byte_slice(&mut self, slice: &[u8]) -> (r: Result<CodeRange, String>)
        requires
            old(self).wf(),
        ensures
            final(self).wf(),
            match after_allocate(old(self)@, slice@.len()) {
                None => r is Err && final(self)@ == old(self)@,
                Some((v, range)) => r == Ok::<CodeRange, String>(range) && final(self)@
                    == write_current(v, range.start as nat, slice@),
            },
    {
        let range = self.allocate(slice.len())?;
        let ghost v = self@;
        write_bytes(&mut self.current, range.start, slice);
        assert(self@.list =~= v.list);
        Ok(range)
    }

    /// Reserves one block for all of `slices`, copies each into its part of
    /// the block in order, and returns one range per slice.
    pub fn allocate_copy_of_byte_slices(&mut self, slices: &[&[u8]]) -> (r: Result<
        Vec<CodeRange>,
        String,
    >)
        requires
            old(self).wf(),
        ensures
            final(self).wf(),
            concat_all(contents(slices@)).len() > usize::MAX ==> r is Err && final(self)@ == old(
                self,
            )@,
            concat_all(contents(slices@)).len() <= usize::MAX ==> match after_allocate(
                old(self)@,
                concat_all(contents(slices@)).len(),
            ) {
                None => r is Err && final(self)@ == old(self)@,
                Some((v, block)) => {
                    &&& r is Ok
                    &&& r->Ok_0@ == batch_ranges(contents(slices@), block)
                    &&& final(self)@ == write_current(
                        v,
                        block.start as nat,
                        concat_all(contents(slices@)),
                    )
                },
            },
    {
        let ghost c = contents(slices@);
        let mut total: usize = 0;
        let mut k: usize = 0;
        while k < slices.len()
            invariant
                k <= slices@.len(),
                c == contents(slices@),
                total == offset_of(c, k as int),
                self.wf(),
                self@ == old(self)@,
            decreases slices@.len() - k,
        {
            proof {
                lemma_concat_step(c, k as int);
            }
            match total.checked_add(slices[k].len()) {
                Some(t) => total = t,
                None => {
                    proof {
                        lemma_concat_prefix(c, k + 1);
                    }
                    return Err(String::from_str("code allocation size overflow"));
                },
            }
            k = k + 1;
        }
        assert(c.take(k as int) =~= c);
        let block = self.allocate(total)?;
        let ghost v = self@;
        assert(block.start + total == self.position);
        let mut ranges: Vec<CodeRange> = Vec::with_capacity(slices.len());
        let mut at: usize = block.start;
        let mut k: usize = 0;
        while k < slices.len()
            invariant
                k <= slices@.len(),
                c == contents(slices@),
                total == concat_all(c).len(),
                at == block.start + offset_of(c, k as int),
                block.start + total <= self.current@.len(),
                block.start + total <= usize::MAX,
                self.current@.len() == v.current.bytes.len(),
                self.current@ == splice(v.current.bytes, block.start as nat, concat_all(c.take(k as int))),
                self@.list == v.list,
                self@.position == v.position,
                self@.published == v.published,
                self@.page_size == v.page_size,
                self@.routing == v.routing,
                ranges@ == batch_ranges(c, block).take(k as int),
            decreases slices@.len() - k,
        {
            proof {
                lemma_concat_step(c, k as int);
                lemma_concat_prefix(c, k + 1);
            }
            let piece: &[u8] = slices[k];
            assert(piece@ == c[k as int]);
            let ghost before = self.current@;
            write_bytes(&mut self.current, at, piece);
            proof {
                let x = concat_all(c.take(k as int));
                assert(splice(before, at as nat, piece@) =~= splice(
                    v.current.bytes,
                    block.start as nat,
                    x + piece@,
                ));
            }
            ranges.push(CodeRange { mapping: block.mapping, start: at, len: piece.len() });
            at = at + piece.len();
            k = k + 1;
            proof {
                assert(ranges@ =~= batch_ranges(c, block).take(k as int));
            }
        }
        assert(c.take(k as int) =~= c);
        assert(ranges@ =~= batch_ranges(c, block));
        assert(self@.list =~= v.list);
        Ok(ranges)
    }

    /// Closes the current mapping and makes every mapping of the list
    /// read-execute. Calling it again without allocating changes nothing
    /// that is already published.
    pub fn publish(&mut self)
        requires
            old(self).wf(),
        ensures
            final(self).wf(),
            final(self)@ == after_publish(old(self)@),
    {
        let ghost v = self@;
        let mut fresh: Vec<u8> = Vec::new();
        std::mem::swap(&mut self.current, &mut fresh);
        if fresh.len() > 0 {
            self.mmaps.push(fresh);
        }
        self.position = 0;
        self.published = self.mmaps.len();
        assert(self@.list =~= after_publish(v).list);
        assert(self@.current.bytes =~= Seq::<u8>::empty());
    }


    /// Number of mappings closed into the list; the current mapping has
    /// this index.
    pub fn mapping_count(&self) -> (r: usize)
        ensures
            r == self@.list.len(),
    {
        self.mmaps.len()
    }

    /// Number of mappings made read-execute so far.
    pub fn published_count(&self) -> (r: usize)
        ensures
            r == self@.published,
    {
        self.published
    }

    /// The write cursor in the current mapping.
    pub fn position(&self) -> (r: usize)
        ensures
            r == self@.position,
    {
        self.position
    }

    /// The page size the arena rounds mappings to.
    pub fn page_size(&self) -> (r: usize)
        ensures
            r == self@.page_size,
    {
        self.page_size
    }

    fn mapping_ref(&self, i: usize) -> (r: &Vec<u8>)
        requires
            i <= self@.list.len(),
        ensures
            r@ == mapping_at(self@, i as nat).bytes,
    {
        if i < self.mmaps.len() {
            &self.mmaps[i]
        } else {
            &self.current
        }
    }

    /// The protection of the mapping with index `i`, if there is one.
    pub fn protection(&self, i: usize) -> (r: Option<Protection>)
        ensures
            r == (if i <= self@.list.len() {
                Some(mapping_at(self@, i as nat).protection)
            } else {
                None
            }),
    {
        if i < self.mmaps.len() {
            if i < self.published {
                Some(Protection::ReadExecute)
            } else {
                Some(Protection::ReadWrite)
            }
        } else if i == self.mmaps.len() {
            Some(Protection::ReadWrite)
        } else {
            None
        }
    }

    /// The length of the mapping with index `i`, if there is one.
    pub fn mapping_len(&self, i: usize) -> (r: Option<usize>)
        ensures
            r == (if i <= self@.list.len() {
                Some(mapping_at(self@, i as nat).bytes.len() as usize)
            } else {
                None
            }),
    {
        if i <= self.mmaps.len() {
            Some(self.mapping_ref(i).len())
        } else {
            None
        }
    }

    /// A copy of the bytes that `range` covers, or `None` when the range does
    /// not lie inside a mapping of this arena.
    pub fn read(&self, range: CodeRange) -> (r: Option<Vec<u8>>)
        ensures
            match r {
                Some(b) => valid_range(self@, range) && b@ == range_bytes(self@, range),
                None => !valid_range(self@, range),
            },
    {
        if range.mapping > self.mmaps.len() {
            return None;
        }
        let m = self.mapping_ref(range.mapping);
        let mlen = m.len();
        if range.start > mlen || range.len > mlen - range.start {
            return None;
        }
        let mut out: Vec<u8> = Vec::with_capacity(range.len);
        let mut i: usize = 0;
        while i < range.len
            invariant
                i <= range.len,
                range.start + range.len <= mlen,
                mlen == m@.len(),
                out@ == m@.subrange(range.start as int, range.start + i),
            decreases range.len - i,
        {
            out.push(m[range.start + i]);
            i = i + 1;
            assert(out@ =~= m@.subrange(range.start as int, range.start + i));
        }
        Some(out)
    }

}

} // verus!
