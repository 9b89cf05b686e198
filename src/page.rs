use vstd::prelude::*;

verus! {

broadcast use vstd::seq_lib::group_seq_properties;

/// The byte contents of a sequence of messages.
pub open spec fn messages_view(v: Seq<Vec<u8>>) -> Seq<Seq<u8>> {
    v.map_values(|m: Vec<u8>| m@)
}

/// An append-only run of messages of one origin, with a cursor to the first
/// message not yet resolved. Slots before the cursor are spent.
pub struct Page {
    pub id: u64,
    pub messages: Vec<Vec<u8>>,
    pub first: usize,
}

impl Page {
    /// The messages of the page that are still to be resolved, in order.
    pub open spec fn pending(&self) -> Seq<Seq<u8>> {
        messages_view(self.messages@.subrange(self.first as int, self.messages@.len() as int))
    }

    /// A page in a queue holds at least one unresolved message and no more
    /// than `capacity` messages.
    pub open spec fn wf(&self, capacity: nat) -> bool {
        self.first < self.messages@.len() <= capacity
    }

    fn blank() -> (r: Page)
        ensures
            r.messages@.len() == 0,
    {
        Page { id: 0, messages: Vec::new(), first: 0 }
    }
}

/// The pages of one origin, oldest first.
pub struct Book {
    pub origin: u32,
    pub pages: Vec<Page>,
    pub next_page: u64,
}

impl Book {
    pub open spec fn page_views(&self) -> Seq<Seq<Seq<u8>>> {
        self.pages@.map_values(|p: Page| p.pending())
    }

    /// The unresolved messages of the origin, in the order they were enqueued.
    pub open spec fn pending(&self) -> Seq<Seq<u8>> {
        self.page_views().flatten()
    }

    pub open spec fn wf(&self, capacity: nat) -> bool {
        forall|i: int| 0 <= i < self.pages@.len() ==> (#[trigger] self.pages@[i]).wf(capacity)
    }

    pub fn new(origin: u32) -> (r: Book)
        ensures
            r.origin == origin,
            r.pages@.len() == 0,
            r.pending() == Seq::<Seq<u8>>::empty(),
            forall|c: nat| r.wf(c),
    {
        let r = Book { origin, pages: Vec::new(), next_page: 0 };
        assert(r.page_views() =~= Seq::<Seq<Seq<u8>>>::empty());
        r
    }

    /// Under `wf`, a book has pages exactly when it has unresolved messages.
    pub proof fn lemma_nonempty(&self, capacity: nat)
        requires
            self.wf(capacity),
        ensures
            (self.pages@.len() > 0) == (self.pending().len() > 0),
    {
        if self.pages@.len() > 0 {
            assert(self.pages@[0].wf(capacity));
            assert(self.page_views().first() == self.pages@[0].pending());
        } else {
            assert(self.page_views() =~= Seq::<Seq<Seq<u8>>>::empty());
        }
    }

    /// Appends `message`, opening a new page when the last one is full or
    /// there is none.
    pub fn push_message(&mut self, message: Vec<u8>, capacity: usize)
        requires
            capacity > 0,
            old(self).wf(capacity as nat),
        ensures
            final(self).wf(capacity as nat),
            final(self).origin == old(self).origin,
            final(self).pending() == old(self).pending().push(message@),
            final(self).pages@.len() >= old(self).pages@.len(),
            final(self).pages@.len() >= 1,
    {
        let ghost views = self.page_views();
        let n = self.pages.len();
        if n > 0 && self.pages[n - 1].messages.len() < capacity {
            let mut page = Page::blank();
            self.pages.set_and_swap(n - 1, &mut page);
            let ghost old_page = page;
            page.messages.push(message);
            assert(page.pending() =~= old_page.pending().push(message@));
            self.pages.set(n - 1, page);
            proof {
                let pre = views.drop_last();
                assert(views =~= pre.push(old_page.pending()));
                assert(self.page_views() =~= pre.push(page.pending()));
                pre.lemma_flatten_push(old_page.pending());
                pre.lemma_flatten_push(page.pending());
                assert(self.wf(capacity as nat)) by {
                    assert forall|i: int| 0 <= i < self.pages@.len() implies (
                    #[trigger] self.pages@[i]).wf(capacity as nat) by {
                        if i < n - 1 {
                            assert(old(self).pages@[i].wf(capacity as nat));
                        }
                    }
                }
            }
        } else {
            let mut messages: Vec<Vec<u8>> = Vec::new();
            messages.push(message);
            let page = Page { id: self.next_page, messages, first: 0 };
            assert(page.pending() =~= seq![message@]);
            self.pages.push(page);
            self.next_page = self.next_page.wrapping_add(1);
            proof {
                assert(self.page_views() =~= views.push(page.pending()));
                views.lemma_flatten_push(page.pending());
                assert(self.wf(capacity as nat)) by {
                    assert forall|i: int| 0 <= i < self.pages@.len() implies (
                    #[trigger] self.pages@[i]).wf(capacity as nat) by {
                        if i < n {
                            assert(old(self).pages@[i].wf(capacity as nat));
                        }
                    }
                }
            }
        }
    }

    /// The oldest unresolved message.
    pub fn head(&self) -> (r: &Vec<u8>)
        requires
            self.pending().len() > 0,
            exists|c: nat| self.wf(c),
        ensures
            r@ == self.pending()[0],
    {
        let ghost c = choose|c: nat| self.wf(c);
        proof {
            self.lemma_nonempty(c);
            assert(self.pages@[0].wf(c));
            assert(self.page_views().first() == self.pages@[0].pending());
        }
        let page = &self.pages[0];
        &page.messages[page.first]
    }

    /// Removes the oldest unresolved message and returns the identity of its
    /// page, its index there, and the message. A page whose cursor reaches its
    /// end is reclaimed.
    pub fn pop_head(&mut self, capacity: Ghost<nat>) -> (r: (u64, usize, Vec<u8>))
        requires
            old(self).wf(capacity@),
            old(self).pending().len() > 0,
        ensures
            final(self).wf(capacity@),
            final(self).origin == old(self).origin,
            final(self).pending() == old(self).pending().drop_first(),
            r.2@ == old(self).pending()[0],
    {
        proof {
            self.lemma_nonempty(capacity@);
        }
        let ghost views = self.page_views();
        let mut page = Page::blank();
        self.pages.set_and_swap(0, &mut page);
        let ghost old_page = page;
        proof {
            assert(old(self).pages@[0].wf(capacity@));
            assert(views.first() == old_page.pending());
        }
        let id = page.id;
        let index = page.first;
        let mut message: Vec<u8> = Vec::new();
        page.messages.set_and_swap(index, &mut message);
        let len = page.messages.len();
        assert(index < len);
        page.first = index + 1;
        assert(page.pending() =~= old_page.pending().drop_first());
        assert(message@ == old_page.pending()[0]);
        if page.first < page.messages.len() {
            self.pages.set(0, page);
            proof {
                assert(self.page_views() =~= views.update(0, page.pending()));
                assert(self.page_views().drop_first() =~= views.drop_first());
                assert(self.page_views().first() == page.pending());
                assert(self.pending() =~= old(self).pending().drop_first());
                assert forall|i: int| 0 <= i < self.pages@.len() implies (
                #[trigger] self.pages@[i]).wf(capacity@) by {
                    if i > 0 {
                        assert(old(self).pages@[i].wf(capacity@));
                    }
                }
            }
        } else {
            let _ = self.pages.remove(0);
            proof {
                assert(old_page.pending().len() == 1);
                assert(self.page_views() =~= views.drop_first());
                assert(self.pending() =~= old(self).pending().drop_first());
                assert forall|i: int| 0 <= i < self.pages@.len() implies (
                #[trigger] self.pages@[i]).wf(capacity@) by {
                    assert(old(self).pages@[i + 1].wf(capacity@));
                }
            }
        }
        (id, index, message)
    }

    /// Discards every unresolved message.
    pub fn clear(&mut self)
        ensures
            final(self).origin == old(self).origin,
            final(self).pending() == Seq::<Seq<u8>>::empty(),
            forall|c: nat| final(self).wf(c),
    {
        self.pages = Vec::new();
        assert(self.page_views() =~= Seq::<Seq<Seq<u8>>>::empty());
    }
}

} // verus!
