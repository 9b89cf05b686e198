use vstd::prelude::*;

use crate::page::Book;
use crate::pause::QueuePausedQuery;
use crate::processor::{resolution_of, resolution_spec, ProcessMessage, ProcessMessageError, Resolution};
use crate::weight::{sat_sub, Weight, WeightMeter};

verus! {

/// A message set aside because it needed more weight than was offered.
pub struct OverweightEntry {
    pub origin: u32,
    /// The identity of the page the message came from.
    pub page: u64,
    /// The index of the message within that page.
    pub index: usize,
    pub message: Vec<u8>,
    /// The weight the message is last known to need.
    pub required: Weight,
}

/// A slot of the overweight store, addressed by its handle.
pub enum OverweightSlot {
    /// A message waiting to be executed.
    Live(OverweightEntry),
    /// The message was executed, or permanently rejected, by its processor.
    Processed,
    /// The message was discarded without processing; the handle is stale.
    Released,
}

/// Why an overweight message could not be executed.
#[derive(Clone, Copy, Debug, PartialEq, Eq, Structural)]
pub enum ExecuteOverweightError {
    /// No overweight message has this handle.
    NotFound,
    /// The message was already executed; this can be treated as success.
    AlreadyProcessed,
    /// The weight offered does not cover what the message needs.
    InsufficientWeight,
    /// The origin of the message is paused.
    QueuePaused,
    /// The processor did not process the message.
    Other,
    /// Another call is in progress on this queue.
    RecursiveDisallowed,
}

/// Some book in `books` belongs to `o`.
pub open spec fn has_book(books: Seq<Book>, o: u32) -> bool {
    exists|i: int| 0 <= i < books.len() && #[trigger] books[i].origin == o
}

/// The unresolved messages of `o` in `books`, oldest first.
pub open spec fn queue_in(books: Seq<Book>, o: u32) -> Seq<Seq<u8>> {
    if has_book(books, o) {
        books[choose|i: int| 0 <= i < books.len() && #[trigger] books[i].origin == o].pending()
    } else {
        Seq::empty()
    }
}

/// No two books belong to the same origin.
pub open spec fn unique_origins(books: Seq<Book>) -> bool {
    forall|i: int, j: int|
        0 <= i < books.len() && 0 <= j < books.len() && i != j ==> #[trigger] books[i].origin
            != #[trigger] books[j].origin
}

proof fn lemma_queue_at(books: Seq<Book>, i: int)
    requires
        unique_origins(books),
        0 <= i < books.len(),
    ensures
        queue_in(books, books[i].origin) == books[i].pending(),
{
    let o = books[i].origin;
    assert(has_book(books, o));
    let k = choose|k: int| 0 <= k < books.len() && #[trigger] books[k].origin == o;
    assert(k == i);
}

proof fn lemma_queue_update(books: Seq<Book>, i: int, b: Book)
    requires
        unique_origins(books),
        0 <= i < books.len(),
        b.origin == books[i].origin,
    ensures
        unique_origins(books.update(i, b)),
        forall|o: u32|
            #[trigger] queue_in(books.update(i, b), o) == if o == b.origin {
                b.pending()
            } else {
                queue_in(books, o)
            },
{
    let nb = books.update(i, b);
    assert(unique_origins(nb)) by {
        assert forall|x: int, y: int|
            0 <= x < nb.len() && 0 <= y < nb.len() && x != y implies #[trigger] nb[x].origin
            != #[trigger] nb[y].origin by {
            assert(nb[x].origin == books[x].origin);
            assert(nb[y].origin == books[y].origin);
        }
    }
    assert forall|o: u32|
        #[trigger] queue_in(nb, o) == if o == b.origin {
            b.pending()
        } else {
            queue_in(books, o)
        } by {
        if o == b.origin {
            lemma_queue_at(nb, i);
        } else {
            if has_book(books, o) {
                let k = choose|k: int| 0 <= k < books.len() && #[trigger] books[k].origin == o;
                assert(nb[k].origin == o);
                lemma_queue_at(nb, k);
                lemma_queue_at(books, k);
            } else {
                assert(!has_book(nb, o)) by {
                    if has_book(nb, o) {
                        let k = choose|k: int| 0 <= k < nb.len() && #[trigger] nb[k].origin == o;
                        assert(books[k].origin == o);
                    }
                }
            }
        }
    }
}

proof fn lemma_queue_push(books: Seq<Book>, b: Book)
    requires
        unique_origins(books),
        !has_book(books, b.origin),
    ensures
        unique_origins(books.push(b)),
        forall|o: u32|
            #[trigger] queue_in(books.push(b), o) == if o == b.origin {
                b.pending()
            } else {
                queue_in(books, o)
            },
{
    let nb = books.push(b);
    assert(unique_origins(nb)) by {
        assert forall|x: int, y: int|
            0 <= x < nb.len() && 0 <= y < nb.len() && x != y implies #[trigger] nb[x].origin
            != #[trigger] nb[y].origin by {
            if x < books.len() && y < books.len() {
                assert(nb[x] == books[x]);
                assert(nb[y] == books[y]);
            } else if x < books.len() {
                assert(nb[x] == books[x]);
            } else if y < books.len() {
                assert(nb[y] == books[y]);
            }
        }
    }
    assert forall|o: u32|
        #[trigger] queue_in(nb, o) == if o == b.origin {
            b.pending()
        } else {
            queue_in(books, o)
        } by {
        if o == b.origin {
            lemma_queue_at(nb, books.len() as int);
        } else {
            if has_book(books, o) {
                let k = choose|k: int| 0 <= k < books.len() && #[trigger] books[k].origin == o;
                assert(nb[k] == books[k]);
                lemma_queue_at(nb, k);
                lemma_queue_at(books, k);
            } else {
                assert(!has_book(nb, o)) by {
                    if has_book(nb, o) {
                        let k = choose|k: int| 0 <= k < nb.len() && #[trigger] nb[k].origin == o;
                        assert(k < books.len());
                        assert(books[k].origin == o);
                    }
                }
            }
        }
    }
}

/// The number of unresolved messages over all books.
pub open spec fn total_pending(books: Seq<Book>) -> nat
    decreases books.len(),
{
    if books.len() == 0 {
        0
    } else {
        total_pending(books.drop_last()) + books.last().pending().len()
    }
}

proof fn lemma_total_update(books: Seq<Book>, i: int, b: Book)
    requires
        0 <= i < books.len(),
    ensures
        total_pending(books.update(i, b)) + books[i].pending().len() == total_pending(books)
            + b.pending().len(),
    decreases books.len(),
{
    let nb = books.update(i, b);
    if i == books.len() - 1 {
        assert(nb.drop_last() =~= books.drop_last());
    } else {
        assert(nb.drop_last() =~= books.drop_last().update(i, b));
        lemma_total_update(books.drop_last(), i, b);
    }
}

/// The number of `false` entries of `s`.
pub open spec fn count_false(s: Seq<bool>) -> nat
    decreases s.len(),
{
    if s.len() == 0 {
        0
    } else {
        count_false(s.drop_last()) + if s.last() {
            0nat
        } else {
            1nat
        }
    }
}

proof fn lemma_count_false_set(s: Seq<bool>, i: int)
    requires
        0 <= i < s.len(),
        !s[i],
    ensures
        count_false(s.update(i, true)) + 1 == count_false(s),
    decreases s.len(),
{
    let ns = s.update(i, true);
    if i == s.len() - 1 {
        assert(ns.drop_last() =~= s.drop_last());
    } else {
        assert(ns.drop_last() =~= s.drop_last().update(i, true));
        lemma_count_false_set(s.drop_last(), i);
    }
}

/// One hand-over of a message to a processor, as the queue logs it: the
/// message and its origin, what its outcome made of it, and the weight the
/// processor took from its meter.
pub struct Handover {
    pub origin: u32,
    pub message: Seq<u8>,
    pub resolution: Resolution,
    pub debit: Weight,
}

/// The number of hand-overs of `o` in `log` that resolved their message
/// (all but those retried).
pub open spec fn settled(log: Seq<Handover>, o: u32) -> nat
    decreases log.len(),
{
    if log.len() == 0 {
        0
    } else {
        settled(log.drop_last(), o) + if log.last().origin == o && !(log.last().resolution is Retry) {
            1nat
        } else {
            0nat
        }
    }
}

/// Some hand-over of `o` in `log` was retried.
pub open spec fn retried(log: Seq<Handover>, o: u32) -> bool
    decreases log.len(),
{
    if log.len() == 0 {
        false
    } else {
        retried(log.drop_last(), o) || (log.last().origin == o && log.last().resolution is Retry)
    }
}

/// The messages that `log` set aside, in order, with their origin and the
/// weight recorded for them.
pub open spec fn set_asides(log: Seq<Handover>) -> Seq<(u32, Seq<u8>, Weight)>
    decreases log.len(),
{
    if log.len() == 0 {
        Seq::empty()
    } else {
        match log.last().resolution {
            Resolution::SetAside(w) => set_asides(log.drop_last()).push(
                (log.last().origin, log.last().message, w),
            ),
            _ => set_asides(log.drop_last()),
        }
    }
}

/// The execution time the processor took over `log`.
pub open spec fn debit_ref_time(log: Seq<Handover>) -> nat
    decreases log.len(),
{
    if log.len() == 0 {
        0
    } else {
        debit_ref_time(log.drop_last()) + log.last().debit.ref_time as nat
    }
}

/// The proof size the processor took over `log`.
pub open spec fn debit_proof_size(log: Seq<Handover>) -> nat
    decreases log.len(),
{
    if log.len() == 0 {
        0
    } else {
        debit_proof_size(log.drop_last()) + log.last().debit.proof_size as nat
    }
}

/// `q` is what is left of `start_q`, the queue of `o`, after the hand-overs
/// of `log`: its first `settled(log, o)` messages are gone.
pub open spec fn left_after(start_q: Seq<Seq<u8>>, log: Seq<Handover>, o: u32, q: Seq<Seq<u8>>) -> bool {
    settled(log, o) <= start_q.len() && q == start_q.subrange(settled(log, o) as int, start_q.len() as int)
}

proof fn lemma_turn(
    start_q: Seq<Seq<u8>>,
    log: Seq<Handover>,
    q: Seq<Seq<u8>>,
    h: Handover,
    o: u32,
    q2: Seq<Seq<u8>>,
)
    requires
        left_after(start_q, log, o, q),
        h.origin == o && !(h.resolution is Retry) ==> q.len() > 0 && q2 == q.drop_first(),
        !(h.origin == o && !(h.resolution is Retry)) ==> q2 == q,
    ensures
        left_after(start_q, log.push(h), o, q2),
        retried(log.push(h), o) == (retried(log, o) || (h.origin == o && h.resolution is Retry)),
{
    assert(log.push(h).drop_last() =~= log);
    if h.origin == o && !(h.resolution is Retry) {
        assert(q.drop_first() =~= start_q.subrange(settled(log, o) + 1int, start_q.len() as int));
    }
}

/// The position `d + 1` steps after `c` on a ring of `n` positions.
pub open spec fn ring_step(c: int, d: int, n: int) -> int {
    if c + 1 + d < n {
        c + 1 + d
    } else {
        c + 1 + d - n
    }
}

/// The number of positions strictly between `c` and `p`, going forward on a
/// ring of `n` positions (all others when `p == c`).
pub open spec fn ring_dist(c: int, p: int, n: int) -> int {
    if p > c {
        p - c - 1
    } else {
        p - c - 1 + n
    }
}

/// The position of `o` in `ring`.
pub open spec fn ring_pos(ring: Seq<u32>, o: u32) -> int {
    choose|p: int| 0 <= p < ring.len() && ring[p] == o
}

/// Book `k` may be serviced now: it has messages, its origin is not paused,
/// and it has not given up its turn in this pass.
pub open spec fn eligible<Q: QueuePausedQuery>(
    books: Seq<Book>,
    pause: &Q,
    skipped: Seq<bool>,
    k: int,
) -> bool {
    &&& books[k].pages@.len() > 0
    &&& !pause.paused(books[k].origin)
    &&& !skipped[k]
}

fn copy_bytes(src: &Vec<u8>) -> (r: Vec<u8>)
    ensures
        r@ == src@,
{
    let mut r: Vec<u8> = Vec::new();
    let mut i: usize = 0;
    while i < src.len()
        invariant
            i <= src@.len(),
            r@ == src@.subrange(0, i as int),
        decreases src@.len() - i,
    {
        r.push(src[i]);
        i = i + 1;
        assert(r@ =~= src@.subrange(0, i as int));
    }
    assert(src@.subrange(0, src@.len() as int) =~= src@);
    r
}

/// The total number of bytes in `s`.
pub open spec fn bytes_of(s: Seq<Seq<u8>>) -> nat
    decreases s.len(),
{
    if s.len() == 0 {
        0
    } else {
        bytes_of(s.drop_last()) + s.last().len()
    }
}

proof fn lemma_bytes_concat(a: Seq<Seq<u8>>, b: Seq<Seq<u8>>)
    ensures
        bytes_of(a + b) == bytes_of(a) + bytes_of(b),
    decreases b.len(),
{
    if b.len() == 0 {
        assert(a + b =~= a);
    } else {
        assert((a + b).drop_last() =~= a + b.drop_last());
        lemma_bytes_concat(a, b.drop_last());
    }
}

/// The messages of the unresolved overweight entries of `o`, by handle.
pub open spec fn overweight_of(entries: Seq<OverweightSlot>, o: u32) -> Seq<Seq<u8>>
    decreases entries.len(),
{
    if entries.len() == 0 {
        Seq::empty()
    } else {
        let rest = overweight_of(entries.drop_last(), o);
        match entries.last() {
            OverweightSlot::Live(e) => if e.origin == o {
                rest.push(e.message@)
            } else {
                rest
            },
            _ => rest,
        }
    }
}

/// `x`, or `u64::MAX` where `x` is larger.
pub open spec fn capped(x: nat) -> u64 {
    if x > u64::MAX {
        u64::MAX
    } else {
        x as u64
    }
}

/// `x`, or `u32::MAX` where `x` is larger.
pub open spec fn capped32(x: nat) -> u32 {
    if x > u32::MAX {
        u32::MAX
    } else {
        x as u32
    }
}

/// The storage held by a queue: a number of messages and their bytes.
#[derive(Clone, Copy, Debug, PartialEq, Eq, Structural)]
pub struct Footprint {
    pub count: u64,
    pub size: u64,
}

/// The resource footprint of the queue of one origin.
#[derive(Clone, Copy, Debug, PartialEq, Eq, Structural)]
pub struct QueueFootprint {
    /// The number of pages of the queue.
    pub pages: u32,
    /// The number of pages with at least one unresolved message.
    pub ready_pages: u32,
    /// The unresolved messages of the queue together with its unresolved
    /// overweight messages.
    pub storage: Footprint,
}

/// Adds the messages `s[from..]` to a running count and size.
fn add_messages(count: u64, size: u64, s: &Vec<Vec<u8>>, from: usize, before: Ghost<Seq<Seq<u8>>>) -> (r: (u64, u64))
    requires
        from <= s@.len(),
        count == capped(before@.len()),
        size == capped(bytes_of(before@)),
    ensures
        r.0 == capped((before@ + crate::page::messages_view(s@.subrange(from as int, s@.len() as int))).len()),
        r.1 == capped(bytes_of(before@ + crate::page::messages_view(s@.subrange(from as int, s@.len() as int)))),
{
    let mut count = count;
    let mut size = size;
    let mut k: usize = from;
    while k < s.len()
        invariant
            from <= k <= s@.len(),
            count == capped((before@ + crate::page::messages_view(s@.subrange(from as int, k as int))).len()),
            size == capped(bytes_of(before@ + crate::page::messages_view(s@.subrange(from as int, k as int)))),
        decreases s@.len() - k,
    {
        let ghost prev = before@ + crate::page::messages_view(s@.subrange(from as int, k as int));
        let ghost next = before@ + crate::page::messages_view(s@.subrange(from as int, k as int + 1));
        assert(next.drop_last() =~= prev);
        assert(next.last() == s@[k as int]@);
        count = count.saturating_add(1);
        size = size.saturating_add(s[k].len() as u64);
        k = k + 1;
    }
    (count, size)
}

/// A multi-origin message queue drained under a weight budget.
pub struct MessageQueue {
    books: Vec<Book>,
    overweight: Vec<OverweightSlot>,
    cursor: usize,
    busy: bool,
    page_capacity: usize,
    max_message_len: usize,
    /// Every hand-over of a message to a processor so far, in order.
    dispatched: Ghost<Seq<Handover>>,
    /// The origins that gave up their turn in the latest service pass.
    yielded: Ghost<Set<u32>>,
}

impl MessageQueue {
    /// The unresolved messages of `origin`, oldest first.
    pub closed spec fn queue(&self, origin: u32) -> Seq<Seq<u8>> {
        queue_in(self.books@, origin)
    }

    /// The overweight store, indexed by handle.
    pub closed spec fn entries(&self) -> Seq<OverweightSlot> {
        self.overweight@
    }

    /// A service pass or an overweight execution is in progress.
    pub closed spec fn locked(&self) -> bool {
        self.busy
    }

    /// Every hand-over of a message to a processor so far, in order.
    pub closed spec fn dispatched(&self) -> Seq<Handover> {
        self.dispatched@
    }

    pub closed spec fn yielded(&self) -> Set<u32> {
        self.yielded@
    }

    pub closed spec fn capacity(&self) -> nat {
        self.page_capacity as nat
    }

    pub closed spec fn max_len(&self) -> nat {
        self.max_message_len as nat
    }

    pub closed spec fn wf(&self) -> bool {
        &&& self.page_capacity > 0
        &&& unique_origins(self.books@)
        &&& forall|i: int|
            0 <= i < self.books@.len() ==> (#[trigger] self.books@[i]).wf(
                self.page_capacity as nat,
            )
    }

    /// Makes an empty queue whose pages hold up to `page_capacity` messages
    /// (at least one) and which accepts messages of up to `max_message_len`
    /// bytes.
    pub fn new(page_capacity: usize, max_message_len: usize) -> (r: MessageQueue)
        ensures
            r.wf(),
            !r.locked(),
            r.capacity() == if page_capacity == 0 {
                1
            } else {
                page_capacity as nat
            },
            r.max_len() == max_message_len,
            forall|o: u32| r.queue(o) == Seq::<Seq<u8>>::empty(),
            r.entries() == Seq::<OverweightSlot>::empty(),
            r.dispatched() == Seq::<Handover>::empty(),
    {
        MessageQueue {
            books: Vec::new(),
            overweight: Vec::new(),
            cursor: 0,
            busy: false,
            page_capacity: if page_capacity == 0 {
                1
            } else {
                page_capacity
            },
            max_message_len,
            dispatched: Ghost(Seq::empty()),
            yielded: Ghost(Set::empty()),
        }
    }

    /// The largest message length the queue accepts.
    pub fn max_message_len(&self) -> (r: usize)
        ensures
            r == self.max_len(),
    {
        self.max_message_len
    }

    /// Whether a service pass or an overweight execution is in progress.
    pub fn is_busy(&self) -> (r: bool)
        ensures
            r == self.locked(),
    {
        self.busy
    }

    fn find_book(&self, origin: u32) -> (r: Option<usize>)
        ensures
            r matches Some(i) ==> i < self.books@.len() && self.books@[i as int].origin == origin,
            r is None ==> !has_book(self.books@, origin),
    {
        let mut i: usize = 0;
        while i < self.books.len()
            invariant
                i <= self.books@.len(),
                forall|j: int| 0 <= j < i ==> (#[trigger] self.books@[j]).origin != origin,
            decreases self.books@.len() - i,
        {
            if self.books[i].origin == origin {
                return Some(i);
            }
            i = i + 1;
        }
        None
    }

    /// Whether the state outside the message queues is the same in `self`
    /// and `other`.
    pub open spec fn same_frame(&self, other: &MessageQueue) -> bool {
        &&& other.entries() == self.entries()
        &&& other.locked() == self.locked()
        &&& other.capacity() == self.capacity()
        &&& other.max_len() == self.max_len()
        &&& other.dispatched() == self.dispatched()
        &&& other.yielded() == self.yielded()
    }

    /// Appends `message` to the queue of `origin`.
    pub fn enqueue_message(&mut self, message: Vec<u8>, origin: u32)
        requires
            old(self).wf(),
            message@.len() <= old(self).max_len(),
        ensures
            final(self).wf(),
            old(self).same_frame(&*final(self)),
            final(self).queue(origin) == old(self).queue(origin).push(message@),
            forall|o: u32| o != origin ==> #[trigger] final(self).queue(o) == old(self).queue(o),
            final(self).page_count(origin) >= old(self).page_count(origin),
            final(self).page_count(origin) >= 1,
    {
        let ghost books = self.books@;
        match self.find_book(origin) {
            Some(i) => {
                let mut book = Book::new(0);
                self.books.set_and_swap(i, &mut book);
                proof {
                    assert(books[i as int].wf(self.page_capacity as nat));
                }
                book.push_message(message, self.page_capacity);
                self.books.set(i, book);
                proof {
                    lemma_queue_update(books, i as int, book);
                    assert(self.books@ == books.update(i as int, book));
                    lemma_queue_at(books, i as int);
                    let k = choose|k: int| 0 <= k < books.len() && #[trigger] books[k].origin == origin;
                    assert(k == i);
                    assert(self.books@[i as int].origin == origin);
                    let k2 = choose|k: int|
                        0 <= k < self.books@.len() && #[trigger] self.books@[k].origin == origin;
                    assert(k2 == i);
                    assert forall|j: int| 0 <= j < self.books@.len() implies (
                    #[trigger] self.books@[j]).wf(self.page_capacity as nat) by {
                        if j != i {
                            assert(books[j].wf(self.page_capacity as nat));
                        }
                    }
                }
            },
            None => {
                let mut book = Book::new(origin);
                book.push_message(message, self.page_capacity);
                self.books.push(book);
                proof {
                    lemma_queue_push(books, book);
                    assert(self.books@ == books.push(book));
                    assert(self.books@[books.len() as int].origin == origin);
                    let k2 = choose|k: int|
                        0 <= k < self.books@.len() && #[trigger] self.books@[k].origin == origin;
                    assert(k2 == books.len());
                    assert(queue_in(books, origin) == Seq::<Seq<u8>>::empty());
                    assert(book.pending() =~= Seq::<Seq<u8>>::empty().push(message@));
                    assert forall|j: int| 0 <= j < self.books@.len() implies (
                    #[trigger] self.books@[j]).wf(self.page_capacity as nat) by {
                        if j < books.len() {
                            assert(books[j].wf(self.page_capacity as nat));
                        }
                    }
                }
            },
        }
    }

    /// The first book after the fairness cursor, wrapping around, that may
    /// be serviced now.
    fn next_ready<Q: QueuePausedQuery>(&self, pause: &Q, skipped: &Vec<bool>) -> (r: Option<usize>)
        requires
            skipped@.len() == self.books@.len(),
        ensures
            r matches Some(i) ==> i < self.books@.len() && eligible(self.books@, pause, skipped@, i as int)
                && forall|d: int|
                0 <= d < ring_dist(
                    (self.cursor as nat % self.books@.len()) as int,
                    i as int,
                    self.books@.len() as int,
                ) ==> !eligible(
                    self.books@,
                    pause,
                    skipped@,
                    #[trigger] ring_step(
                        (self.cursor as nat % self.books@.len()) as int,
                        d,
                        self.books@.len() as int,
                    ),
                ),
            r is None ==> forall|k: int|
                0 <= k < self.books@.len() ==> !eligible(self.books@, pause, skipped@, k),
    {
        let n = self.books.len();
        if n == 0 {
            return None;
        }
        let base = self.cursor % n;
        let mut i: usize = base + 1;
        while i < n
            invariant
                base < n,
                base == self.cursor as nat % self.books@.len(),
                base + 1 <= i <= n,
                n == self.books@.len(),
                skipped@.len() == n,
                forall|k: int| base < k < i ==> !eligible(self.books@, pause, skipped@, k),
            decreases n - i,
        {
            if self.books[i].pages.len() > 0 && !skipped[i] && !pause.is_paused(&self.books[i].origin) {
                assert forall|d: int| 0 <= d < ring_dist(base as int, i as int, n as int) implies !eligible(
                    self.books@,
                    pause,
                    skipped@,
                    #[trigger] ring_step(base as int, d, n as int),
                ) by {
                    assert(ring_step(base as int, d, n as int) == base + 1 + d);
                }
                return Some(i);
            }
            i = i + 1;
        }
        let mut i: usize = 0;
        while i <= base
            invariant
                base < n,
                base == self.cursor as nat % self.books@.len(),
                i <= base + 1,
                n == self.books@.len(),
                skipped@.len() == n,
                forall|k: int| base < k < n ==> !eligible(self.books@, pause, skipped@, k),
                forall|k: int| 0 <= k < i ==> !eligible(self.books@, pause, skipped@, k),
            decreases base + 1 - i,
        {
            if self.books[i].pages.len() > 0 && !skipped[i] && !pause.is_paused(&self.books[i].origin) {
                assert forall|d: int| 0 <= d < ring_dist(base as int, i as int, n as int) implies !eligible(
                    self.books@,
                    pause,
                    skipped@,
                    #[trigger] ring_step(base as int, d, n as int),
                ) by {
                    let k = ring_step(base as int, d, n as int);
                    assert(base < k < n || 0 <= k < i);
                }
                return Some(i);
            }
            i = i + 1;
        }
        None
    }

    /// Removes the oldest unresolved message of book `i`.
    fn take_head(&mut self, i: usize) -> (r: (u64, usize, Vec<u8>))
        requires
            old(self).wf(),
            i < old(self).books@.len(),
            old(self).books@[i as int].pending().len() > 0,
        ensures
            final(self).wf(),
            old(self).same_frame(&*final(self)),
            final(self).cursor == old(self).cursor,
            final(self).books@.len() == old(self).books@.len(),
            forall|j: int|
                0 <= j < old(self).books@.len() && j != i ==> final(self).books@[j]
                    == old(self).books@[j],
            final(self).books@[i as int].origin == old(self).books@[i as int].origin,
            r.2@ == old(self).queue(old(self).books@[i as int].origin)[0],
            total_pending(final(self).books@) + 1 == total_pending(old(self).books@),
            final(self).queue(old(self).books@[i as int].origin) == old(self).queue(
                old(self).books@[i as int].origin,
            ).drop_first(),
            forall|o: u32|
                o != old(self).books@[i as int].origin ==> #[trigger] final(self).queue(o)
                    == old(self).queue(o),
    {
        let ghost books = self.books@;
        let mut book = Book::new(0);
        self.books.set_and_swap(i, &mut book);
        proof {
            assert(books[i as int].wf(self.page_capacity as nat));
            lemma_queue_at(books, i as int);
        }
        let r = book.pop_head(Ghost(self.page_capacity as nat));
        self.books.set(i, book);
        proof {
            assert(self.books@ == books.update(i as int, book));
            lemma_queue_update(books, i as int, book);
            lemma_total_update(books, i as int, book);
            assert forall|j: int| 0 <= j < self.books@.len() implies (
            #[trigger] self.books@[j]).wf(self.page_capacity as nat) by {
                if j != i {
                    assert(books[j].wf(self.page_capacity as nat));
                }
            }
        }
        r
    }

    /// The origins of the queues in the order the service pass walks them.
    pub closed spec fn ring(&self) -> Seq<u32> {
        self.books@.map_values(|b: Book| b.origin)
    }

    /// The position on the ring of the origin serviced last.
    pub closed spec fn last_served(&self) -> nat {
        self.cursor as nat
    }

    /// Origin `o` may be serviced after the hand-overs of `log` in a pass
    /// that started from `self`: it has messages left, is not paused, and has
    /// not given up its turn.
    pub open spec fn ready_at<Q: QueuePausedQuery>(&self, pause: &Q, log: Seq<Handover>, o: u32) -> bool {
        &&& settled(log, o) < self.queue(o).len()
        &&& !pause.paused(o)
        &&& !retried(log, o)
    }

    /// Hand-over `t` of `log`, in a pass that started from `self`, went to
    /// the first origin on the ring, after the one serviced before it, that
    /// was ready then.
    pub open spec fn round_robin<Q: QueuePausedQuery>(&self, pause: &Q, log: Seq<Handover>, t: int) -> bool {
        self.last_in_turn(pause, log.subrange(0, t + 1))
    }

    /// The last hand-over of `log`, in a pass that started from `self`, went
    /// to the first origin on the ring, after the one serviced before it,
    /// that was ready then.
    pub open spec fn last_in_turn<Q: QueuePausedQuery>(&self, pause: &Q, log: Seq<Handover>) -> bool {
        let t = log.len() - 1;
        let ring = self.ring();
        let n = ring.len() as int;
        let c = if t == 0 {
            (self.last_served() % ring.len()) as int
        } else {
            ring_pos(ring, log[t - 1].origin)
        };
        let p = ring_pos(ring, log[t].origin);
        &&& 0 <= p < n
        &&& ring[p] == log[t].origin
        &&& forall|d: int|
            0 <= d < ring_dist(c, p, n) ==> !self.ready_at(
                pause,
                log.subrange(0, t),
                ring[#[trigger] ring_step(c, d, n)],
            )
    }

    /// Hand-over `t` of `log`, made in a pass that started from `self`, went
    /// to an unpaused origin that had not given up its turn in the pass, and
    /// carried the message then at the head of that origin's queue.
    pub open spec fn turn_ok<Q: QueuePausedQuery>(&self, pause: &Q, log: Seq<Handover>, t: int) -> bool {
        let o = log[t].origin;
        let before = log.subrange(0, t);
        &&& !pause.paused(o)
        &&& !retried(before, o)
        &&& settled(before, o) < self.queue(o).len()
        &&& log[t].message == self.queue(o)[settled(before, o) as int]
    }

    /// Slot `slot` holds a live entry for the set-aside message `x`.
    pub open spec fn entry_matches(slot: OverweightSlot, x: (u32, Seq<u8>, Weight)) -> bool {
        &&& slot is Live
        &&& slot->Live_0.origin == x.0
        &&& slot->Live_0.message@ == x.1
        &&& slot->Live_0.required == x.2
    }

    /// Whether `next` is a state that one service pass with pause source
    /// `pause` and limit `limit`, having used `used`, may lead to from `self`.
    ///
    /// The pass is described by the hand-overs it logged. Each went to the
    /// first origin on the ring, after the one serviced before it, that had
    /// messages, was not paused and had not yet given up its turn, with the
    /// message at the head of that origin's queue. A processed or rejected message left
    /// its queue; one set aside left it for a new overweight entry with the
    /// weight the processor gave; one retried stayed and its origin gave up
    /// its turn. The weight used is what the processor took. The pass ends
    /// only when the budget is exhausted in some dimension or every unpaused
    /// origin with messages left gave up its turn, and it hands over at least
    /// one message when it has budget in both dimensions and some unpaused
    /// origin has messages.
    pub open spec fn serviced<Q: QueuePausedQuery>(
        &self,
        next: &MessageQueue,
        pause: &Q,
        limit: Weight,
        used: Weight,
    ) -> bool {
        let log = next.dispatched().subrange(
            self.dispatched().len() as int,
            next.dispatched().len() as int,
        );
        &&& !next.locked()
        &&& next.capacity() == self.capacity()
        &&& next.max_len() == self.max_len()
        &&& self.dispatched().len() <= next.dispatched().len()
        &&& next.dispatched().subrange(0, self.dispatched().len() as int) == self.dispatched()
        &&& forall|t: int| 0 <= t < log.len() ==> #[trigger] self.turn_ok(pause, log, t)
        &&& forall|t: int| 0 <= t < log.len() ==> #[trigger] self.round_robin(pause, log, t)
        &&& forall|o: u32| left_after(self.queue(o), log, o, #[trigger] next.queue(o))
        &&& forall|o: u32| pause.paused(o) ==> #[trigger] next.queue(o) == self.queue(o)
        &&& next.entries().len() == self.entries().len() + set_asides(log).len()
        &&& next.entries().subrange(0, self.entries().len() as int) == self.entries()
        &&& forall|k: int|
            0 <= k < set_asides(log).len() ==> MessageQueue::entry_matches(
                next.entries()[self.entries().len() + k],
                #[trigger] set_asides(log)[k],
            )
        &&& forall|o: u32| #[trigger] next.yielded().contains(o) == retried(log, o)
        &&& forall|o: u32| #[trigger]
            next.yielded().contains(o) ==> !pause.paused(o) && next.queue(o).len() > 0
        &&& used.ref_time == debit_ref_time(log)
        &&& used.proof_size == debit_proof_size(log)
        &&& used.lte(limit)
        &&& (Weight {
            ref_time: sat_sub(limit.ref_time, used.ref_time),
            proof_size: sat_sub(limit.proof_size, used.proof_size),
        }).has_zero() || forall|o: u32|
            #[trigger] next.queue(o).len() > 0 && !pause.paused(o) ==> next.yielded().contains(o)
        &&& (!limit.has_zero() && exists|o: u32| #[trigger] self.queue(o).len() > 0 && !pause.paused(o))
            ==> log.len() > 0
    }

    /// Services the queues round-robin, one message per turn, under the
    /// weight limit `weight_limit`, and returns the weight used.
    ///
    /// Each turn goes to the next origin after the last one serviced that has
    /// messages, is not paused and has not given up its turn in this pass. A
    /// processed or rejected message is removed; one that needs more weight
    /// than offered is moved to the overweight store; one that is not
    /// processed, or whose processor yields, stays, and its origin gets no
    /// more turns in this pass. A nested call, made while another pass or an
    /// overweight execution runs, does nothing.
    pub fn service_queues<P: ProcessMessage, Q: QueuePausedQuery>(
        &mut self,
        processor: &mut P,
        pause: &Q,
        weight_limit: Weight,
    ) -> (used: Weight)
        requires
            old(self).wf(),
        ensures
            final(self).wf(),
            used.lte(weight_limit),
            old(self).locked() ==> *final(self) == *old(self) && used == Weight::zero_spec(),
            !old(self).locked() ==> old(self).serviced(&*final(self), pause, weight_limit, used),
    {
        if self.busy {
            return Weight::zero();
        }
        let ghost start = *self;
        let ghost d0 = start.dispatched@.len() as int;
        self.busy = true;
        self.yielded = Ghost(Set::empty());
        let mut meter = WeightMeter::with_limit(weight_limit);
        let n = self.books.len();
        let mut skipped: Vec<bool> = Vec::new();
        let mut j: usize = 0;
        while j < n
            invariant
                j <= n,
                skipped@.len() == j,
                forall|k: int| 0 <= k < j ==> !skipped@[k],
            decreases n - j,
        {
            skipped.push(false);
            j = j + 1;
        }
        proof {
            let log = self.dispatched@.subrange(d0, self.dispatched@.len() as int);
            assert(log =~= Seq::<Handover>::empty());
            assert forall|o: u32| left_after(start.queue(o), log, o, #[trigger] self.queue(o)) by {
                assert(start.queue(o).subrange(0, start.queue(o).len() as int) =~= start.queue(o));
            }
            assert(self.dispatched@ =~= self.dispatched@.subrange(0, d0));
            assert(self.overweight@ =~= self.overweight@.subrange(0, start.overweight@.len() as int));
            assert(set_asides(log) =~= Seq::<(u32, Seq<u8>, Weight)>::empty());
        }
        loop
            invariant
                self.wf(),
                self.busy,
                self.books@.len() == n,
                start.books@.len() == n,
                skipped@.len() == n,
                forall|k: int| 0 <= k < n ==> #[trigger] self.books@[k].origin == start.books@[k].origin,
                meter.wf(),
                meter.spec_limit() == weight_limit,
                self.page_capacity == start.page_capacity,
                self.max_message_len == start.max_message_len,
                d0 == start.dispatched@.len(),
                d0 <= self.dispatched@.len(),
                self.dispatched@.subrange(0, d0) == start.dispatched@,
                forall|t: int|
                    0 <= t < self.dispatched@.len() - d0 ==> #[trigger] start.round_robin(
                        pause,
                        self.dispatched@.subrange(d0, self.dispatched@.len() as int),
                        t,
                    ),
                start.wf(),
                self.dispatched@.len() == d0 ==> self.cursor == start.cursor,
                self.dispatched@.len() > d0 ==> self.cursor < n && start.books@[self.cursor as int].origin
                    == self.dispatched@.last().origin,
                forall|t: int|
                    0 <= t < self.dispatched@.len() - d0 ==> #[trigger] start.turn_ok(
                        pause,
                        self.dispatched@.subrange(d0, self.dispatched@.len() as int),
                        t,
                    ),
                forall|o: u32|
                    left_after(
                        start.queue(o),
                        self.dispatched@.subrange(d0, self.dispatched@.len() as int),
                        o,
                        #[trigger] self.queue(o),
                    ),
                forall|o: u32| pause.paused(o) ==> #[trigger] self.queue(o) == start.queue(o),
                self.overweight@.len() == start.overweight@.len() + set_asides(
                    self.dispatched@.subrange(d0, self.dispatched@.len() as int),
                ).len(),
                self.overweight@.subrange(0, start.overweight@.len() as int) == start.overweight@,
                forall|k: int|
                    0 <= k < set_asides(self.dispatched@.subrange(d0, self.dispatched@.len() as int)).len()
                        ==> MessageQueue::entry_matches(
                        self.overweight@[start.overweight@.len() + k],
                        #[trigger] set_asides(self.dispatched@.subrange(d0, self.dispatched@.len() as int))[k],
                    ),
                forall|o: u32|
                    #[trigger] self.yielded@.contains(o) == retried(
                        self.dispatched@.subrange(d0, self.dispatched@.len() as int),
                        o,
                    ),
                forall|o: u32|
                    #[trigger] self.yielded@.contains(o) <==> exists|k: int|
                        0 <= k < n && skipped@[k] && #[trigger] self.books@[k].origin == o,
                forall|k: int|
                    0 <= k < n && #[trigger] skipped@[k] ==> self.books@[k].pages@.len() > 0
                        && !pause.paused(self.books@[k].origin),
                meter.spec_consumed().ref_time == debit_ref_time(
                    self.dispatched@.subrange(d0, self.dispatched@.len() as int),
                ),
                meter.spec_consumed().proof_size == debit_proof_size(
                    self.dispatched@.subrange(d0, self.dispatched@.len() as int),
                ),
            ensures
                meter.spec_remaining().has_zero() || forall|k: int|
                    0 <= k < n ==> !eligible(self.books@, pause, skipped@, k),
            decreases total_pending(self.books@) + count_false(skipped@),
        {
            if meter.remaining().any_zero() {
                break ;
            }
            let next = self.next_ready(pause, &skipped);
            match next {
                None => {
                    break ;
                },
                Some(i) => {
                    let ghost head = *self;
                    let ghost skipped_head = skipped@;
                    let ghost log = head.dispatched@.subrange(d0, head.dispatched@.len() as int);
                    self.cursor = i;
                    let origin = self.books[i].origin;
                    proof {
                        assert(self.books@[i as int].wf(self.page_capacity as nat));
                        self.books@[i as int].lemma_nonempty(self.page_capacity as nat);
                        lemma_queue_at(self.books@, i as int);
                        assert(head.queue(origin) == self.queue(origin));
                    }
                    let message = copy_bytes(self.books[i].head());
                    proof {
                        assert(head.queue(origin).len() > 0 && head.queue(origin)[0] == message@);
                        if retried(log, origin) {
                            assert(head.yielded@.contains(origin));
                            let k = choose|k: int|
                                0 <= k < n && skipped@[k] && #[trigger] head.books@[k].origin == origin;
                            assert(k == i);
                        }
                    }
                    let ghost c0 = meter.spec_consumed();
                    let mut id: [u8; 32] = [0u8; 32];
                    let ghost before_call = *self;
                    let outcome = processor.process_message(
                        message.as_slice(),
                        origin,
                        &mut meter,
                        &mut id,
                        self,
                    );
                    assert(*self == before_call);
                    let res = resolution_of(&outcome);
                    let ghost c1 = meter.spec_consumed();
                    let ghost ho = Handover {
                        origin,
                        message: message@,
                        resolution: res,
                        debit: Weight {
                            ref_time: (c1.ref_time - c0.ref_time) as u64,
                            proof_size: (c1.proof_size - c0.proof_size) as u64,
                        },
                    };
                    match res {
                        Resolution::Consumed => {
                            let ghost books = self.books@;
                            let _ = self.take_head(i);
                            proof {
                                assert forall|o: u32|
                                    #[trigger] self.yielded@.contains(o) <==> exists|k: int|
                                        0 <= k < n && skipped@[k] && #[trigger] self.books@[k].origin == o by {
                                    if self.yielded@.contains(o) {
                                        let k = choose|k: int|
                                            0 <= k < n && skipped@[k] && #[trigger] books[k].origin == o;
                                        assert(self.books@[k].origin == o);
                                    }
                                    if exists|k: int|
                                        0 <= k < n && skipped@[k] && #[trigger] self.books@[k].origin == o {
                                        let k = choose|k: int|
                                            0 <= k < n && skipped@[k] && #[trigger] self.books@[k].origin == o;
                                        assert(books[k].origin == o);
                                    }
                                }
                            }
                        },
                        Resolution::Retry => {
                            let ghost s = skipped@;
                            skipped.set(i, true);
                            self.yielded = Ghost(self.yielded@.insert(origin));
                            proof {
                                lemma_count_false_set(s, i as int);
                                assert forall|o: u32|
                                    #[trigger] self.yielded@.contains(o) <==> exists|k: int|
                                        0 <= k < n && skipped@[k] && #[trigger] self.books@[k].origin == o by {
                                    if o == origin {
                                        assert(skipped@[i as int] && self.books@[i as int].origin == o);
                                    } else {
                                        if before_call.yielded@.contains(o) {
                                            let k = choose|k: int|
                                                0 <= k < n && s[k] && #[trigger] self.books@[k].origin == o;
                                            assert(skipped@[k]);
                                        }
                                        if exists|k: int|
                                            0 <= k < n && skipped@[k] && #[trigger] self.books@[k].origin == o {
                                            let k = choose|k: int|
                                                0 <= k < n && skipped@[k] && #[trigger] self.books@[k].origin == o;
                                            assert(k != i);
                                            assert(s[k]);
                                        }
                                    }
                                }
                            }
                        },
                        Resolution::SetAside(required) => {
                            let ghost books = self.books@;
                            let (page, index, taken) = self.take_head(i);
                            self.overweight.push(
                                OverweightSlot::Live(OverweightEntry { origin, page, index, message: taken, required }),
                            );
                            proof {
                                assert forall|o: u32|
                                    #[trigger] self.yielded@.contains(o) <==> exists|k: int|
                                        0 <= k < n && skipped@[k] && #[trigger] self.books@[k].origin == o by {
                                    if self.yielded@.contains(o) {
                                        let k = choose|k: int|
                                            0 <= k < n && skipped@[k] && #[trigger] books[k].origin == o;
                                        assert(self.books@[k].origin == o);
                                    }
                                    if exists|k: int|
                                        0 <= k < n && skipped@[k] && #[trigger] self.books@[k].origin == o {
                                        let k = choose|k: int|
                                            0 <= k < n && skipped@[k] && #[trigger] self.books@[k].origin == o;
                                        assert(books[k].origin == o);
                                    }
                                }
                            }
                        },
                    }
                    self.dispatched = Ghost(self.dispatched@.push(ho));
                    proof {
                        let now = self.dispatched@.subrange(d0, self.dispatched@.len() as int);
                        assert(now =~= log.push(ho));
                        assert(now.drop_last() =~= log);
                        assert(self.dispatched@.subrange(0, d0) =~= head.dispatched@.subrange(0, d0));
                        assert forall|t: int| 0 <= t < now.len() implies #[trigger] start.turn_ok(
                            pause,
                            now,
                            t,
                        ) by {
                            if t < log.len() {
                                assert(now.subrange(0, t) =~= log.subrange(0, t));
                                assert(now[t] == log[t]);
                                assert(start.turn_ok(pause, log, t));
                            } else {
                                assert(now.subrange(0, t) =~= log);
                            }
                        }
                        assert forall|o: u32|
                            left_after(start.queue(o), now, o, #[trigger] self.queue(o))
                                && (pause.paused(o) ==> self.queue(o) == start.queue(o))
                                && self.yielded@.contains(o) == retried(now, o) by {
                            assert(head.queue(o) == before_call.queue(o));
                            if o != origin {
                                assert(self.queue(o) == head.queue(o));
                            }
                            lemma_turn(start.queue(o), log, head.queue(o), ho, o, self.queue(o));
                        }
                        assert(self.overweight@.subrange(0, start.overweight@.len() as int)
                            =~= head.overweight@.subrange(0, start.overweight@.len() as int));
                        assert(self.dispatched@.last() == ho);
                        assert(start.books@[i as int].origin == origin);
                        lemma_round_robin_step(start, head, pause, skipped_head, log, ho, i as int, n as int);
                        assert(now == log.push(ho));
                    }
                },
            }
        }
        let ghost last = *self;
        self.busy = false;
        let used = meter.consumed();
        proof {
            let log = self.dispatched@.subrange(d0, self.dispatched@.len() as int);
            assert forall|o: u32|
                left_after(start.queue(o), log, o, #[trigger] self.queue(o)) && (pause.paused(o)
                    ==> self.queue(o) == start.queue(o)) by {
                assert(self.queue(o) == last.queue(o));
            }
            assert forall|o: u32| #[trigger] self.yielded@.contains(o) implies !pause.paused(o)
                && self.queue(o).len() > 0 by {
                let k = choose|k: int| 0 <= k < n && skipped@[k] && #[trigger] self.books@[k].origin == o;
                assert(self.books@[k].wf(self.page_capacity as nat));
                self.books@[k].lemma_nonempty(self.page_capacity as nat);
                lemma_queue_at(self.books@, k);
            }
            if !meter.spec_remaining().has_zero() {
                assert forall|o: u32|
                    #[trigger] self.queue(o).len() > 0 && !pause.paused(o) implies self.yielded@.contains(o) by {
                    assert(has_book(self.books@, o));
                    let k = choose|k: int| 0 <= k < self.books@.len() && #[trigger] self.books@[k].origin == o;
                    assert(self.books@[k].wf(self.page_capacity as nat));
                    self.books@[k].lemma_nonempty(self.page_capacity as nat);
                    lemma_queue_at(self.books@, k);
                    assert(!eligible(self.books@, pause, skipped@, k));
                }
            }
            if !weight_limit.has_zero() && log.len() == 0 {
                assert(meter.spec_remaining() == weight_limit);
                assert forall|o: u32| #[trigger] start.queue(o).len() > 0 implies pause.paused(o) by {
                    assert(self.queue(o) == start.queue(o).subrange(0, start.queue(o).len() as int));
                    assert(self.queue(o).len() > 0);
                    assert(has_book(self.books@, o));
                    let k = choose|k: int| 0 <= k < self.books@.len() && #[trigger] self.books@[k].origin == o;
                    assert(self.books@[k].wf(self.page_capacity as nat));
                    self.books@[k].lemma_nonempty(self.page_capacity as nat);
                    lemma_queue_at(self.books@, k);
                    assert(!eligible(self.books@, pause, skipped@, k));
                    if skipped@[k] {
                        assert(self.yielded@.contains(o));
                    }
                }
            }
        }
        used
    }

    /// Why `execute_overweight` with these arguments would refuse to run the
    /// processor, if it would: another call is in progress, the handle was
    /// never given out or its entry was released by a sweep, the entry was
    /// already processed, its origin is paused, or the
    /// limit does not cover the weight it is known to need.
    pub open spec fn overweight_gate<Q: QueuePausedQuery>(
        &self,
        pause: &Q,
        limit: Weight,
        handle: u64,
    ) -> Option<ExecuteOverweightError> {
        if self.locked() {
            Some(ExecuteOverweightError::RecursiveDisallowed)
        } else if handle >= self.entries().len() || self.entries()[handle as int] is Released {
            Some(ExecuteOverweightError::NotFound)
        } else if self.entries()[handle as int] is Processed {
            Some(ExecuteOverweightError::AlreadyProcessed)
        } else if pause.paused(self.entries()[handle as int]->Live_0.origin) {
            Some(ExecuteOverweightError::QueuePaused)
        } else if !self.entries()[handle as int]->Live_0.required.lte(limit) {
            Some(ExecuteOverweightError::InsufficientWeight)
        } else {
            None
        }
    }

    /// What becomes of live entry `e` after the processor gave `res` for it.
    pub open spec fn slot_after(e: OverweightEntry, res: Resolution) -> OverweightSlot {
        match res {
            Resolution::Consumed => OverweightSlot::Processed,
            Resolution::Retry => OverweightSlot::Live(e),
            Resolution::SetAside(w) => OverweightSlot::Live(
                OverweightEntry {
                    origin: e.origin,
                    page: e.page,
                    index: e.index,
                    message: e.message,
                    required: w,
                },
            ),
        }
    }

    /// What `execute_overweight` returns after the processor gave `res`,
    /// having taken `debit`.
    pub open spec fn overweight_result(res: Resolution, debit: Weight) -> Result<
        Weight,
        ExecuteOverweightError,
    > {
        match res {
            Resolution::Consumed => Ok(debit),
            Resolution::Retry => Err(ExecuteOverweightError::Other),
            Resolution::SetAside(_) => Err(ExecuteOverweightError::InsufficientWeight),
        }
    }

    /// Whether `next` and `r` are what running the processor once on entry
    /// `handle` of `self` under `limit` leads to.
    ///
    /// The message queues are left as they are, and the entry's message is
    /// handed to the processor once; the hand-over logged says what the
    /// processor made of it and what it took. Processed or rejected: the
    /// entry is marked processed and the weight taken is returned. Not
    /// processed, or yielded: `Other`, and the entry stays as it was. Needs
    /// more weight: `InsufficientWeight`, and the entry records that weight.
    pub open spec fn executed(
        &self,
        next: &MessageQueue,
        handle: u64,
        r: Result<Weight, ExecuteOverweightError>,
        limit: Weight,
    ) -> bool {
        let e = self.entries()[handle as int]->Live_0;
        let d = next.dispatched().last();
        &&& !next.locked()
        &&& next.capacity() == self.capacity()
        &&& next.max_len() == self.max_len()
        &&& forall|o: u32| #[trigger] next.queue(o) == self.queue(o)
        &&& next.dispatched().len() == self.dispatched().len() + 1
        &&& next.dispatched().drop_last() == self.dispatched()
        &&& d.origin == e.origin
        &&& d.message == e.message@
        &&& d.debit.lte(limit)
        &&& next.yielded() == self.yielded()
        &&& next.entries() == self.entries().update(
            handle as int,
            MessageQueue::slot_after(e, d.resolution),
        )
        &&& r == MessageQueue::overweight_result(d.resolution, d.debit)
    }

    /// Applies the processor's `outcome` for live overweight entry `handle`,
    /// which took `consumed`, and returns what `execute_overweight` returns
    /// for it.
    pub fn apply_overweight_outcome(
        &mut self,
        handle: u64,
        outcome: &Result<bool, ProcessMessageError>,
        consumed: Weight,
    ) -> (r: Result<Weight, ExecuteOverweightError>)
        requires
            old(self).wf(),
            handle < old(self).entries().len(),
            old(self).entries()[handle as int] is Live,
        ensures
            final(self).wf(),
            final(self).locked() == old(self).locked(),
            final(self).capacity() == old(self).capacity(),
            final(self).max_len() == old(self).max_len(),
            final(self).dispatched() == old(self).dispatched(),
            final(self).yielded() == old(self).yielded(),
            forall|o: u32| #[trigger] final(self).queue(o) == old(self).queue(o),
            final(self).entries() == old(self).entries().update(
                handle as int,
                MessageQueue::slot_after(
                    old(self).entries()[handle as int]->Live_0,
                    resolution_spec(*outcome),
                ),
            ),
            r == MessageQueue::overweight_result(resolution_spec(*outcome), consumed),
    {
        let len = self.overweight.len();
        assert(handle < len);
        let h = handle as usize;
        let ghost entries = self.overweight@;
        match resolution_of(outcome) {
            Resolution::Consumed => {
                self.overweight.set(h, OverweightSlot::Processed);
                Ok(consumed)
            },
            Resolution::Retry => {
                assert(entries =~= entries.update(h as int, entries[h as int]));
                Err(ExecuteOverweightError::Other)
            },
            Resolution::SetAside(w) => {
                let mut slot = OverweightSlot::Released;
                self.overweight.set_and_swap(h, &mut slot);
                let updated = match slot {
                    OverweightSlot::Live(e) => OverweightSlot::Live(
                        OverweightEntry {
                            origin: e.origin,
                            page: e.page,
                            index: e.index,
                            message: e.message,
                            required: w,
                        },
                    ),
                    other => other,
                };
                self.overweight.set(h, updated);
                assert(self.overweight@ =~= entries.update(
                    h as int,
                    MessageQueue::slot_after(entries[h as int]->Live_0, resolution_spec(*outcome)),
                ));
                Err(ExecuteOverweightError::InsufficientWeight)
            },
        }
    }

    /// Runs the processor on the overweight message `handle` under the
    /// weight limit `weight_limit`.
    ///
    /// Fails without running it for the reasons that `overweight_gate`
    /// gives, leaving the queue as it is. Otherwise the message is processed
    /// and its outcome applied as `executed` states.
    pub fn execute_overweight<P: ProcessMessage, Q: QueuePausedQuery>(
        &mut self,
        processor: &mut P,
        pause: &Q,
        weight_limit: Weight,
        handle: u64,
    ) -> (r: Result<Weight, ExecuteOverweightError>)
        requires
            old(self).wf(),
        ensures
            final(self).wf(),
            old(self).overweight_gate(pause, weight_limit, handle) matches Some(e) ==> r == Err::<
                Weight,
                ExecuteOverweightError,
            >(e) && *final(self) == *old(self),
            old(self).overweight_gate(pause, weight_limit, handle) is None ==> old(self).executed(
                &*final(self),
                handle,
                r,
                weight_limit,
            ),
    {
        if self.busy {
            return Err(ExecuteOverweightError::RecursiveDisallowed);
        }
        if handle >= self.overweight.len() as u64 {
            return Err(ExecuteOverweightError::NotFound);
        }
        let h = handle as usize;
        let (origin, required, message) = match &self.overweight[h] {
            OverweightSlot::Released => {
                return Err(ExecuteOverweightError::NotFound);
            },
            OverweightSlot::Processed => {
                return Err(ExecuteOverweightError::AlreadyProcessed);
            },
            OverweightSlot::Live(e) => (e.origin, e.required, copy_bytes(&e.message)),
        };
        if pause.is_paused(&origin) {
            return Err(ExecuteOverweightError::QueuePaused);
        }
        if !required.all_lte(&weight_limit) {
            return Err(ExecuteOverweightError::InsufficientWeight);
        }
        let ghost start = *self;
        self.busy = true;
        let mut meter = WeightMeter::with_limit(weight_limit);
        let mut id: [u8; 32] = [0u8; 32];
        let ghost before_call = *self;
        let outcome = processor.process_message(message.as_slice(), origin, &mut meter, &mut id, self);
        assert(*self == before_call);
        self.busy = false;
        let ghost unlocked = *self;
        let consumed = meter.consumed();
        let r = self.apply_overweight_outcome(handle, &outcome, consumed);
        let ghost applied = *self;
        self.dispatched = Ghost(
            self.dispatched@.push(
                Handover {
                    origin,
                    message: message@,
                    resolution: resolution_spec(outcome),
                    debit: consumed,
                },
            ),
        );
        proof {
            assert(self.dispatched@.drop_last() =~= start.dispatched@);
        }
        proof {
            assert forall|o: u32| #[trigger] self.queue(o) == start.queue(o) by {
                assert(self.queue(o) == applied.queue(o));
                assert(applied.queue(o) == unlocked.queue(o));
                assert(unlocked.queue(o) == before_call.queue(o));
            }
        }
        r
    }

    /// Discards every unresolved message of `origin` and releases every
    /// live overweight entry of `origin`, without processing any of them.
    /// A released handle is stale: executing it gives `NotFound`.
    pub fn sweep_queue(&mut self, origin: u32)
        requires
            old(self).wf(),
        ensures
            final(self).wf(),
            final(self).locked() == old(self).locked(),
            final(self).capacity() == old(self).capacity(),
            final(self).max_len() == old(self).max_len(),
            final(self).dispatched() == old(self).dispatched(),
            final(self).yielded() == old(self).yielded(),
            final(self).queue(origin) == Seq::<Seq<u8>>::empty(),
            forall|o: u32| o != origin ==> #[trigger] final(self).queue(o) == old(self).queue(o),
            final(self).entries().len() == old(self).entries().len(),
            forall|h: int|
                0 <= h < old(self).entries().len() ==> #[trigger] final(self).entries()[h] == if old(
                    self,
                ).entries()[h] matches OverweightSlot::Live(e) && e.origin == origin {
                    OverweightSlot::Released
                } else {
                    old(self).entries()[h]
                },
    {
        let ghost books = self.books@;
        match self.find_book(origin) {
            Some(i) => {
                let mut book = Book::new(0);
                self.books.set_and_swap(i, &mut book);
                book.clear();
                self.books.set(i, book);
                proof {
                    assert(self.books@ == books.update(i as int, book));
                    lemma_queue_update(books, i as int, book);
                    assert forall|j: int| 0 <= j < self.books@.len() implies (
                    #[trigger] self.books@[j]).wf(self.page_capacity as nat) by {
                        if j != i {
                            assert(books[j].wf(self.page_capacity as nat));
                        }
                    }
                }
            },
            None => {},
        }
        let ghost entries = self.overweight@;
        let ghost mid = *self;
        let mut h: usize = 0;
        while h < self.overweight.len()
            invariant
                self.books == mid.books,
                self.busy == mid.busy,
                self.page_capacity == mid.page_capacity,
                self.max_message_len == mid.max_message_len,
                self.dispatched == mid.dispatched,
                self.yielded == mid.yielded,
                mid.wf(),
                h <= self.overweight@.len(),
                self.overweight@.len() == entries.len(),
                forall|k: int|
                    0 <= k < h ==> #[trigger] self.overweight@[k] == if entries[k] matches OverweightSlot::Live(e)
                        && e.origin == origin {
                        OverweightSlot::Released
                    } else {
                        entries[k]
                    },
                forall|k: int| h <= k < entries.len() ==> #[trigger] self.overweight@[k] == entries[k],
            decreases entries.len() - h,
        {
            let hit = match &self.overweight[h] {
                OverweightSlot::Live(e) => e.origin == origin,
                _ => false,
            };
            if hit {
                self.overweight.set(h, OverweightSlot::Released);
            }
            h = h + 1;
        }
    }

    /// Appends `messages`, in order, to the queue of `origin`.
    pub fn enqueue_messages(&mut self, messages: Vec<Vec<u8>>, origin: u32)
        requires
            old(self).wf(),
            forall|i: int| 0 <= i < messages@.len() ==> (#[trigger] messages@[i])@.len() <= old(self).max_len(),
        ensures
            final(self).wf(),
            old(self).same_frame(&*final(self)),
            final(self).queue(origin) == old(self).queue(origin) + crate::page::messages_view(messages@),
            forall|o: u32| o != origin ==> #[trigger] final(self).queue(o) == old(self).queue(o),
    {
        let ghost all = messages@;
        let mut v = messages;
        let mut i: usize = 0;
        let n = v.len();
        while i < n
            invariant
                n == all.len(),
                v@.len() == n,
                i <= n,
                self.wf(),
                old(self).same_frame(&*self),
                self.max_len() == old(self).max_len(),
                forall|k: int| i <= k < n ==> #[trigger] v@[k] == all[k],
                forall|k: int| 0 <= k < n ==> (#[trigger] all[k])@.len() <= old(self).max_len(),
                self.queue(origin) == old(self).queue(origin) + crate::page::messages_view(all.subrange(0, i as int)),
                forall|o: u32| o != origin ==> #[trigger] self.queue(o) == old(self).queue(o),
            decreases n - i,
        {
            let mut m: Vec<u8> = Vec::new();
            v.set_and_swap(i, &mut m);
            let ghost q = self.queue(origin);
            self.enqueue_message(m, origin);
            proof {
                assert(crate::page::messages_view(all.subrange(0, i as int + 1)) =~= crate::page::messages_view(
                    all.subrange(0, i as int),
                ).push(all[i as int]@));
                assert(self.queue(origin) =~= q.push(all[i as int]@));
            }
            i = i + 1;
        }
        assert(all.subrange(0, n as int) =~= all);
    }


    /// The number of pages in the queue of `origin`.
    pub closed spec fn page_count(&self, origin: u32) -> nat {
        if has_book(self.books@, origin) {
            self.books@[choose|i: int|
                0 <= i < self.books@.len() && #[trigger] self.books@[i].origin == origin].pages@.len()
        } else {
            0
        }
    }

    /// The footprint of the queue of `origin`. Pages are reclaimed as soon as
    /// their last message is resolved, so every page counted is ready.
    pub fn footprint(&self, origin: u32) -> (r: QueueFootprint)
        requires
            self.wf(),
        ensures
            r.pages == capped32(self.page_count(origin)),
            (r.pages == 0) == (self.queue(origin).len() == 0),
            r.ready_pages == r.pages,
            r.storage.count == capped(
                self.queue(origin).len() + overweight_of(self.entries(), origin).len(),
            ),
            r.storage.size == capped(
                bytes_of(self.queue(origin)) + bytes_of(overweight_of(self.entries(), origin)),
            ),
    {
        let mut count: u64 = 0;
        let mut size: u64 = 0;
        let mut pages: u32 = 0;
        let ghost queued: Seq<Seq<u8>> = Seq::empty();
        match self.find_book(origin) {
            Some(i) => {
                let book = &self.books[i];
                let ghost views = book.page_views();
                proof {
                    lemma_queue_at(self.books@, i as int);
                    assert(self.books@[i as int].wf(self.page_capacity as nat));
                    assert(views.subrange(0, 0) =~= Seq::<Seq<Seq<u8>>>::empty());
                }
                let mut p: usize = 0;
                while p < book.pages.len()
                    invariant
                        p <= book.pages@.len(),
                        book.wf(self.page_capacity as nat),
                        views == book.page_views(),
                        count == capped(views.subrange(0, p as int).flatten().len()),
                        size == capped(bytes_of(views.subrange(0, p as int).flatten())),
                    decreases book.pages@.len() - p,
                {
                    let page = &book.pages[p];
                    proof {
                        assert(book.pages@[p as int].wf(self.page_capacity as nat));
                    }
                    let r = add_messages(count, size, &page.messages, page.first, Ghost(views.subrange(0, p as int).flatten()));
                    count = r.0;
                    size = r.1;
                    proof {
                        assert(views.subrange(0, p as int + 1) =~= views.subrange(0, p as int).push(views[p as int]));
                        views.subrange(0, p as int).lemma_flatten_push(views[p as int]);
                    }
                    p = p + 1;
                }
                proof {
                    assert(views.subrange(0, book.pages@.len() as int) =~= views);
                }
                proof {
                    book.lemma_nonempty(self.page_capacity as nat);
                    let k = choose|k: int|
                        0 <= k < self.books@.len() && #[trigger] self.books@[k].origin == origin;
                    assert(k == i);
                }
                pages = if book.pages.len() > u32::MAX as usize {
                    u32::MAX
                } else {
                    book.pages.len() as u32
                };
                proof {
                    queued = book.pending();
                }
            },
            None => {},
        }
        assert(queued == self.queue(origin));
        let mut h: usize = 0;
        assert(overweight_of(self.overweight@.subrange(0, 0), origin) =~= Seq::<Seq<u8>>::empty());
        assert(queued + Seq::<Seq<u8>>::empty() =~= queued);
        while h < self.overweight.len()
            invariant
                h <= self.overweight@.len(),
                count == capped((queued + overweight_of(self.overweight@.subrange(0, h as int), origin)).len()),
                size == capped(bytes_of(queued + overweight_of(self.overweight@.subrange(0, h as int), origin))),
            decreases self.overweight@.len() - h,
        {
            let ghost prev = overweight_of(self.overweight@.subrange(0, h as int), origin);
            assert(self.overweight@.subrange(0, h as int + 1).drop_last() =~= self.overweight@.subrange(0, h as int));
            match &self.overweight[h] {
                OverweightSlot::Live(e) => {
                    if e.origin == origin {
                        assert((queued + prev.push(e.message@)).drop_last() =~= queued + prev);
                        assert(queued + prev.push(e.message@) =~= (queued + prev).push(e.message@));
                        count = count.saturating_add(1);
                        size = size.saturating_add(e.message.len() as u64);
                    }
                },
                _ => {},
            }
            h = h + 1;
        }
        proof {
            assert(self.overweight@.subrange(0, self.overweight@.len() as int) =~= self.overweight@);
            lemma_bytes_concat(queued, overweight_of(self.entries(), origin));
        }
        QueueFootprint {
            pages,
            ready_pages: pages,
            storage: Footprint { count, size },
        }
    }


    /// The number of overweight handles given out so far.
    pub fn overweight_len(&self) -> (r: usize)
        ensures
            r == self.entries().len(),
    {
        self.overweight.len()
    }

    /// The overweight entry `handle`, if it is live.
    pub fn overweight_entry(&self, handle: u64) -> (r: Option<&OverweightEntry>)
        ensures
            r is Some <==> (handle < self.entries().len() && self.entries()[handle as int] is Live),
            r matches Some(e) ==> *e == self.entries()[handle as int]->Live_0,
    {
        if handle >= self.overweight.len() as u64 {
            return None;
        }
        match &self.overweight[handle as usize] {
            OverweightSlot::Live(e) => Some(e),
            _ => None,
        }
    }

}

/// The hand-over that a service step makes to the book at ring position
/// `i`, chosen by `next_ready` from the state `head`, goes to the first
/// ready origin after the one serviced before it.
proof fn lemma_round_robin_step<Q: QueuePausedQuery>(
    start: MessageQueue,
    head: MessageQueue,
    pause: &Q,
    skipped: Seq<bool>,
    log: Seq<Handover>,
    ho: Handover,
    i: int,
    n: int,
)
    requires
        start.wf(),
        head.wf(),
        n == start.books@.len(),
        n == head.books@.len(),
        skipped.len() == n,
        0 <= i < n,
        ho.origin == head.books@[i].origin,
        forall|k: int| 0 <= k < n ==> #[trigger] head.books@[k].origin == start.books@[k].origin,
        log.len() == 0 ==> head.cursor == start.cursor,
        log.len() > 0 ==> head.cursor < n && start.books@[head.cursor as int].origin == log.last().origin,
        forall|o: u32| left_after(start.queue(o), log, o, #[trigger] head.queue(o)),
        forall|o: u32| #[trigger] head.yielded@.contains(o) == retried(log, o),
        forall|o: u32|
            #[trigger] head.yielded@.contains(o) <==> exists|k: int|
                0 <= k < n && skipped[k] && #[trigger] head.books@[k].origin == o,
        forall|t: int| 0 <= t < log.len() ==> #[trigger] start.round_robin(pause, log, t),
        forall|d: int|
            0 <= d < ring_dist((head.cursor as nat % n as nat) as int, i, n) ==> !eligible(
                head.books@,
                pause,
                skipped,
                #[trigger] ring_step((head.cursor as nat % n as nat) as int, d, n),
            ),
    ensures
        forall|t: int| 0 <= t <= log.len() ==> #[trigger] start.round_robin(pause, log.push(ho), t),
{
    let now = log.push(ho);
    let t = log.len() as int;
    let ring = start.ring();
    assert(ring.len() == n);
    assert(now.subrange(0, t) =~= log);
    assert(now.subrange(0, t + 1) =~= now);
    let base = (head.cursor as nat % n as nat) as int;
    let c = if t == 0 {
        (start.last_served() % ring.len()) as int
    } else {
        ring_pos(ring, now[t - 1].origin)
    };
    if t > 0 {
        assert(now[t - 1] == log.last());
        assert(ring[head.cursor as int] == log.last().origin);
        let q = ring_pos(ring, log.last().origin);
        assert(start.books@[q].origin == log.last().origin);
        assert(q == head.cursor as int);
        vstd::arithmetic::div_mod::lemma_small_mod(head.cursor as nat, n as nat);
    }
    assert(c == base);
    assert(ring[i] == ho.origin);
    let p = ring_pos(ring, ho.origin);
    assert(start.books@[p].origin == ho.origin);
    assert(p == i);
    assert forall|d: int| 0 <= d < ring_dist(c, p, n) implies !start.ready_at(
        pause,
        now.subrange(0, t),
        ring[#[trigger] ring_step(c, d, n)],
    ) by {
        let k = ring_step(c, d, n);
        let o = head.books@[k].origin;
        assert(ring[k] == o);
        assert(!eligible(head.books@, pause, skipped, k));
        assert(head.books@[k].wf(head.page_capacity as nat));
        head.books@[k].lemma_nonempty(head.page_capacity as nat);
        lemma_queue_at(head.books@, k);
        assert(left_after(start.queue(o), log, o, head.queue(o)));
        if skipped[k] {
            assert(head.yielded@.contains(o));
        }
    }
    assert(start.round_robin(pause, now, t));
    assert forall|u: int| 0 <= u <= log.len() implies #[trigger] start.round_robin(pause, now, u) by {
        if u < t {
            assert(now.subrange(0, u + 1) =~= log.subrange(0, u + 1));
            assert(start.round_robin(pause, log, u));
        }
    }
}

} // verus!
